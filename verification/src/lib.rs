pub mod items;
pub mod laws;
pub mod lexer;
pub mod builtins;
pub mod interp;
pub mod semantics;

pub use items::GSError;
pub use items::Item;
pub use items::ItemV;
pub use lexer::lex;
pub use interp::Interpreter;
