//! The host's own data: property sets, parameters, image effects, projects
//! and project files.
pub mod propertyset;
pub mod paramset;
pub mod imageclip;
pub mod effectnode;
pub mod project;
pub mod rfxfileformat;
pub mod engine;
pub mod bundle;
