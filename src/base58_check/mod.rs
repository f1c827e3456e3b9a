use vstd::prelude::*;

pub mod checksum;
pub mod decode;
pub mod encode;
