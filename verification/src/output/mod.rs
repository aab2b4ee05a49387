pub mod terminal;
pub mod fit;
pub mod glyphs;
