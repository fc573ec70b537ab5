//! Lowering of markup templates into the operations that write them.
//!
//! A template is a tree of elements, texts, conditionals and loops over terms
//! of the host language. Lowering walks the tree in declaration order and turns
//! it into a sequence of operations against a text sink: static text is escaped
//! and gathered into as few writes as possible, terms are rendered at run time,
//! and the bodies of conditionals and loops become blocks of their own.
pub mod ast;
pub mod builder;
pub mod emit;
pub mod escape;
pub mod gather;
pub mod lower;
pub mod meaning;
pub mod ops;
pub mod terms;
pub mod tokens;
