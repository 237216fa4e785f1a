//! Compositional code generation: templates with `$name` placeholders are
//! compiled into operation trees, which render to text with normalized
//! indentation and collapsed blank lines.

pub mod code;
pub mod template;
pub mod text;
pub mod render;
pub mod colours;
pub mod debug;
pub mod laws;

pub use code::{Code, CodeArg, Op, Piece, SourceLoc};
pub use template::BuildArg;
