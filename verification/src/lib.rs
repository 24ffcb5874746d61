//! Standard base64 encoding and decoding, with the chunking rules of a
//! streaming driver, verified with Verus.

pub mod alphabet;
pub mod codec;
pub mod model;
pub mod stream;

pub use codec::{Base64, DecodingError, DecodingErrorKind};
pub use stream::OperationMode;
