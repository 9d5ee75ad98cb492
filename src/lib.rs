//! Conversion of a marked-up e-book into a compact block container.
//!
//! The library holds the verified core: the paragraph model, the markup
//! state machine, the greedy block merge and the binary layout.
pub mod model;
pub mod merge;
pub mod catalog;
pub mod encode;
pub mod markup;
pub mod parser;
pub mod utf16;
pub mod xml;
pub mod package;
