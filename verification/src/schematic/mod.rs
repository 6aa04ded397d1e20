//! Schematic extraction: layout-agnostic graphs drawn from the elaborated model.
//!
//! Every box and pin carries the id of its model node, or an id that stands for a
//! synthesized pin. Three views are produced on demand: the boxes and wires inside
//! one scope, the same one level down into an instance, and the cone of logic
//! around a seed.

pub mod ancestor_laws;
pub mod anchors;
pub mod box_laws;
pub mod boxes;
pub mod budget_laws;
pub mod cone;
pub mod cone_laws;
pub mod flow_laws;
pub mod follow_laws;
pub mod hierarchy;
pub mod interface;
pub mod join_laws;
pub mod kinds;
pub mod label_laws;
pub mod labels;
pub mod level_laws;
pub mod mark_laws;
pub mod pin_laws;
pub mod pins;
pub mod reach;
pub mod scope;
pub mod scope_laws;
pub mod stray_laws;
pub mod tie_laws;
pub mod trace;
pub mod trace_laws;
pub mod types;
pub mod walk;
pub mod walk_laws;
pub mod wire_laws;
pub mod wires;
