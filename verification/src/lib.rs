pub mod compiler;
pub mod descent;
pub mod excerpt;
pub mod literal;
pub mod parser;
pub mod shape;
pub mod text;
