pub mod plane;
pub mod shape;
pub mod bounds;
pub mod identities;
pub mod triangle;
pub mod vec2;
pub mod gjk;
pub mod search;
pub mod laws;
