//! Pointer resolution, reference following and operation flattening over a
//! parsed API document, together with the derived-record builders that feed a
//! templating engine.

pub mod bindings;
pub mod error;
pub mod escape;
pub mod listing;
pub mod naming;
pub mod operation;
pub mod pointer;
pub mod reference;
pub mod text;
pub mod value;

pub use bindings::Empty;
pub use bindings::Mandolin;
pub use error::Error;
pub use operation::LappedMediaType;
pub use operation::LappedOperation;
pub use operation::LappedRequestBody;
pub use value::DocumentValue;
