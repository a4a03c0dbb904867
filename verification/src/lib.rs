//! Relational export of serde values for diagramming, the reverse
//! reconstruction, and the decorator model that annotates the diagram.

pub mod annotations;
pub mod attributes;
pub mod corpus;
pub mod export;
pub mod jsondata;
pub mod reify;
pub mod relation_id;
pub mod round_trip;
pub mod text;
