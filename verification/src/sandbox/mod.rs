//! Experiments kept beside the host: a first lexer of project files, and a
//! byte-string wrapper.
pub mod lexer;
pub mod bug_match;
