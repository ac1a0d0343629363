//! Core of a transactional triple store with a Datalog query compiler:
//! identifiers and values, the triple key codec, visibility of versioned
//! facts, the program representation, the relational plan algebra, the
//! rule-body compiler and literal relational-algebra expressions.
pub mod value;
pub mod program;
pub mod relation;
pub mod compile;
pub mod transact;
pub mod algebra;
pub mod codec;
pub mod entities;
