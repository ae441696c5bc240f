//! Streaming decoder for a compact, pre-order binary encoding of JSON-like
//! documents.
//!
//! The buffer is walked by [`JsonbIterator`], which yields one [`JsonbToken`]
//! per call and borrows every scalar from the buffer. [`TreeBuilder`] rebuilds
//! an owned [`Value`] tree from the token stream with an explicit stack, and
//! [`decode`] drives the two.
pub mod value;
pub mod token;
pub mod text;
pub mod iter;
pub mod builder;
pub mod driver;
pub mod encoding;

pub use value::{Json, Value};
pub use token::{DecodeError, JsonbNumeric, JsonbScalar, JsonbString, JsonbToken, JsonbTraversal, ScalarModel, TokenModel};
pub use iter::{Frame, JsonbIterator};
pub use builder::{BuilderFrame, TreeBuilder};
pub use driver::decode;

