//! System designs as data: the model, its validation and editing rules, the
//! canonical file document, layer assignment for the automatic layout, and
//! the pure parts of the viewer's interaction.

pub mod ancestry;
pub mod cli;
pub mod display;
pub mod document;
pub mod edit;
pub mod error;
pub mod id_map;
pub mod interaction;
pub mod layer_order;
pub mod layers;
pub mod messages;
pub mod model;
pub mod order;
pub mod reorder;
pub mod round_trip;
pub mod scene;
pub mod sizes;
pub mod text;
pub mod validation;
