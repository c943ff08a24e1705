//! How much room a label or a note needs, in canvas units, counted in
//! Unicode scalar values.

use vstd::prelude::*;

use crate::text::chars_of;

verus! {

pub const NODE_MIN_WIDTH: u64 = 120;

pub const NODE_MAX_WIDTH: u64 = 280;

pub const NODE_HEIGHT: u64 = 64;

pub const NOTE_WIDTH: u64 = 240;

/// A node's width for a label of `count` characters: 64 units for the
/// inset and the room a kind icon takes, and 8 per character, for at most
/// 31 characters, kept between the minimum and maximum widths.
pub open spec fn spec_node_width(count: nat) -> nat {
    let shown = if count < 31 { count } else { 31 };
    let width = 64 + 8 * shown;
    if width < NODE_MIN_WIDTH {
        NODE_MIN_WIDTH as nat
    } else if width > NODE_MAX_WIDTH {
        NODE_MAX_WIDTH as nat
    } else {
        width
    }
}

/// The width of a node with this label.
pub fn node_width(label: &str) -> (width: u64)
    ensures
        width == spec_node_width(label@.len()),
{
    let chars = chars_of(label);
    let shown: u64 = if chars.len() < 31 { chars.len() as u64 } else { 31 };
    let width = 64 + 8 * shown;
    if width < NODE_MIN_WIDTH {
        NODE_MIN_WIDTH
    } else if width > NODE_MAX_WIDTH {
        NODE_MAX_WIDTH
    } else {
        width
    }
}

/// Rows for a line of `count` characters: one for each 28, and at least one.
pub open spec fn line_rows(count: nat) -> nat {
    if count == 0 {
        1
    } else {
        ((count + 27) / 28) as nat
    }
}

/// Reading `text` a character at a time: the rows of the lines already
/// ended by a line break, and the length of the line still open.
pub open spec fn scan(text: Seq<char>) -> (nat, nat)
    decreases text.len(),
{
    if text.len() == 0 {
        (0, 0)
    } else {
        let (rows, open) = scan(text.drop_last());
        if text.last() == '\n' {
            (rows + line_rows(open), 0)
        } else {
            (rows, open + 1)
        }
    }
}

/// The rows a note's text takes: each line, split at line breaks, wraps
/// every 28 characters.
pub open spec fn note_rows(text: Seq<char>) -> nat {
    scan(text).0 + line_rows(scan(text).1)
}

/// The height of a note with this text: 24 units, and 20 for each row.
pub fn note_height(text: &str) -> (height: u64)
    requires
        text@.len() < 0x1_0000_0000_0000,
    ensures
        height == 24 + 20 * note_rows(text@),
{
    let chars = chars_of(text);
    let mut rows: u64 = 0;
    let mut open: u64 = 0;
    let mut i: usize = 0;
    proof {
        assert(chars@.take(0) =~= Seq::<char>::empty());
    }
    while i < chars.len()
        invariant
            chars@ == text@,
            i <= chars.len(),
            chars.len() < 0x1_0000_0000_0000,
            (rows as nat, open as nat) == scan(chars@.take(i as int)),
            rows + open <= i,
        decreases chars.len() - i,
    {
        proof {
            assert(chars@.take(i + 1).drop_last() =~= chars@.take(i as int));
            assert(chars@.take(i + 1).last() == chars@[i as int]);
        }
        if chars[i] == '\n' {
            let added: u64 = if open == 0 { 1 } else { (open + 27) / 28 };
            rows = rows + added;
            open = 0;
        } else {
            open = open + 1;
        }
        i = i + 1;
    }
    proof {
        assert(chars@.take(chars.len() as int) =~= chars@);
    }
    let last: u64 = if open == 0 { 1 } else { (open + 27) / 28 };
    24 + 20 * (rows + last)
}

} // verus!
