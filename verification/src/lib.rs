pub mod cursor;
pub mod environment;
pub mod evaluator;
pub mod interpreter;
pub mod object;
pub mod prim;
pub mod primitive;
pub mod reader;
pub mod text;
pub mod tokenizer;
pub mod tokenizer_laws;
