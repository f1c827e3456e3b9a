pub mod alphabet;
pub mod digits;
