pub mod slot;
pub mod wordle;
