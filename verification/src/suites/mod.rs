//! What the host does for the suites of functions that plug-ins call: the
//! status codes and the logic behind each call.
#[allow(non_upper_case_globals)]
pub mod ofxcore;
pub mod property;
pub mod param;
pub mod imageeffect;
