//! A fine-grained reactive runtime: versioned cells, derived computations, the
//! scheduler that re-renders the views bound to them, and the view tree itself.

pub mod holder;
pub mod id_set;
pub mod keyed_views;
pub mod laws;
pub mod node;
pub mod reflow;
pub mod routing;
pub mod scope;
pub mod text;
pub mod truck;
pub mod view;
pub mod view_map;
pub mod widget;
pub mod widgets;
