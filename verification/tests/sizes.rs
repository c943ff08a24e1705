use sysy::sizes::{node_width, note_height, NODE_HEIGHT, NODE_MAX_WIDTH, NODE_MIN_WIDTH, NOTE_WIDTH};

#[test]
fn sizes_are_bounded_and_count_unicode_characters() {
    assert_eq!(node_width(""), NODE_MIN_WIDTH);
    assert_eq!(NODE_HEIGHT, 64);
    assert_eq!(node_width(&"x".repeat(1000)), NODE_MAX_WIDTH);
    assert_eq!(node_width(&"é".repeat(20)), node_width(&"a".repeat(20)));
    assert_eq!(node_width(&"a".repeat(20)), 224);
    assert!(note_height("first\nsecond") > note_height("first"));
    assert!(note_height(&"x".repeat(29)) > note_height(&"x".repeat(28)));
}

#[test]
fn labels_reserve_space_for_the_client_icon_before_reaching_the_width_cap() {
    for label in ["swarmy CLI", "Shopper browser", "Payment reconciler"] {
        let estimated_text = label.chars().fold(0, |width, _| width + 8);
        assert!(node_width(label) >= estimated_text + 54);
    }
}

#[test]
fn node_widths_grow_eight_units_per_character_between_the_bounds() {
    assert_eq!(node_width(&"a".repeat(7)), 120);
    assert_eq!(node_width(&"a".repeat(8)), 128);
    assert_eq!(node_width(&"a".repeat(26)), 272);
    assert_eq!(node_width(&"a".repeat(27)), 280);
    assert_eq!(node_width(&"a".repeat(28)), 280);
}

#[test]
fn note_heights_reserve_a_row_per_line_and_per_twenty_eight_characters() {
    assert_eq!(NOTE_WIDTH, 240);
    assert_eq!(note_height(""), 44);
    assert_eq!(note_height("first"), 44);
    assert_eq!(note_height("first\nsecond"), 64);
    assert_eq!(note_height(&"x".repeat(28)), 44);
    assert_eq!(note_height(&"x".repeat(29)), 64);
    assert_eq!(note_height("a\n\nb"), 84);
    assert_eq!(note_height("a\n"), 64);
}
