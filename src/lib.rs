pub mod chunk;
pub mod compiler;
pub mod interpreter;
pub mod lexer;
pub mod opcode;
pub mod precedence;
pub mod token;
pub mod value;
pub mod vm;
