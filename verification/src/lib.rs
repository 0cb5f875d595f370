//! fast5ever: an arena DOM for HTML documents. html5ever parses into it and
//! serializes out of it; the tree operations in between are verified.

pub mod attrs;
pub mod copy;
pub mod depth;
pub mod dom;
pub mod edit;
pub mod guard;
pub mod html;
pub mod laws;
pub mod names;
pub mod repr;
pub mod shape;
pub mod sink;
pub mod text;
pub mod tree;
pub mod walk;

pub use depth::{closes_same, is_void, DepthCap, MAX_DEPTH};
pub use dom::{Dom, DomError, Node, NodeData, NodeId, QName, QuirksMode, DOCUMENT};
