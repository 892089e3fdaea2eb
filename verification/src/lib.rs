pub mod codec;
pub mod logging;
pub mod marker;
pub mod protocol;
pub mod range;
