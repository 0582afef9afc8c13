pub mod bits;
pub mod stream;
pub mod encoders;
pub mod frame;
pub mod codec;
