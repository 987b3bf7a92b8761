pub mod docblock;
pub mod symbol;
