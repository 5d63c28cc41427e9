pub mod classify;
pub mod component;
pub mod cursor;
pub mod errors;
pub mod lexer;
pub mod scan;
pub mod source;
pub mod tokens;
