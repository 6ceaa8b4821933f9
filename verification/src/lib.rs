//! A structural code rewrite core: meta-variable syntax, capture
//! environments, a textual-edit replacement engine over parsed templates,
//! and a grammar-handle abstraction over builtin and runtime-registered
//! grammars.

pub mod env;
pub mod lang;
pub mod meta_var;
pub mod replacer;
pub mod tree;
