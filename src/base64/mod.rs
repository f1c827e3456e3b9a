pub mod decode;
pub mod encode;
