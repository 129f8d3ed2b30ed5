//! What the command line decides: names, texts and the order of things.

pub mod branches;
pub mod credentials;
pub mod launch;
pub mod prompt;
pub mod share;
pub mod scripts;
pub mod shell;
pub mod tools;
