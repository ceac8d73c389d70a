//! Status codes, keywords, and the suites the host offers.
use vstd::prelude::*;
use crate::text::str_equals;

verus! {

/// The status a suite function returns.
pub type OfxStatus = i32;

/// The call succeeded.
pub const kOfxStatOK: OfxStatus = 0;

/// The call failed, with no more precise code.
pub const kOfxStatFailed: OfxStatus = 1;

/// An error the plug-in cannot recover from.
pub const kOfxStatErrFatal: OfxStatus = 2;

/// An unknown error.
pub const kOfxStatErrUnknown: OfxStatus = 3;

/// The host lacks a feature that the plug-in needs.
pub const kOfxStatErrMissingHostFeature: OfxStatus = 4;

/// The request is known but not supported.
pub const kOfxStatErrUnsupported: OfxStatus = 5;

/// Something of that name already exists.
pub const kOfxStatErrExists: OfxStatus = 6;

/// A format is wrong.
pub const kOfxStatErrFormat: OfxStatus = 7;

/// Memory ran out.
pub const kOfxStatErrMemory: OfxStatus = 8;

/// A handle is bad, or null.
pub const kOfxStatErrBadHandle: OfxStatus = 9;

/// An index is out of range.
pub const kOfxStatErrBadIndex: OfxStatus = 10;

/// A value is illegal.
pub const kOfxStatErrValue: OfxStatus = 11;

/// The answer is yes.
pub const kOfxStatReplyYes: OfxStatus = 12;

/// The answer is no.
pub const kOfxStatReplyNo: OfxStatus = 13;

/// The plug-in leaves the host to do its default.
pub const kOfxStatReplyDefault: OfxStatus = 14;

/// The name of the property suite.
pub const kOfxPropertySuite: &'static str = "OfxPropertySuite";

/// The name of the image effect suite.
pub const kOfxImageEffectSuite: &'static str = "OfxImageEffectSuite";

/// The name of the parameter suite.
pub const kOfxParameterSuite: &'static str = "OfxParameterSuite";

/// The name of the progress suite.
pub const kOfxProgressSuite: &'static str = "OfxProgressSuite";

/// The name of the memory suite.
pub const kOfxMemorySuite: &'static str = "OfxMemorySuite";

/// The name of the multi-thread suite.
pub const kOfxMultiThreadSuite: &'static str = "OfxMultiThreadSuite";

/// The name of the interact suite.
pub const kOfxInteractSuite: &'static str = "OfxInteractSuite";

/// The name of the message suite.
pub const kOfxMessageSuite: &'static str = "OfxMessageSuite";

/// The name of the function of a plug-in binary that counts its plug-ins.
pub const kOfxGetNumberOfPlugins: &'static str = "OfxGetNumberOfPlugins";

/// The name of the function of a plug-in binary that gives a plug-in.
pub const kOfxGetPlugin: &'static str = "OfxGetPlugin";

/// The action that loads a plug-in.
pub const kOfxActionLoad: &'static str = "OfxActionLoad";

/// The action that unloads a plug-in.
pub const kOfxActionUnload: &'static str = "OfxActionUnload";

/// The action in which a plug-in describes itself.
pub const kOfxActionDescribe: &'static str = "OfxActionDescribe";

/// The action in which an image effect describes itself in a context.
pub const kOfxImageEffectActionDescribeInContext: &'static str = "OfxImageEffectActionDescribeInContext";

/// The action that creates an instance of a plug-in.
pub const kOfxActionCreateInstance: &'static str = "OfxActionCreateInstance";

/// The property that names the context of an image effect.
pub const kOfxImageEffectPropContext: &'static str = "OfxImageEffectPropContext";

/// The general context.
pub const kOfxImageEffectContextGeneral: &'static str = "OfxImageEffectContextGeneral";

/// The suites a plug-in can ask the host for.
#[derive(Debug, Clone, Copy, PartialEq, Eq, Structural)]
pub enum Suite {
    Property,
    ImageEffect,
    Parameter,
    Progress,
    Memory,
    MultiThread,
    Interact,
    Message,
}

/// The suite named `name`, if the host has one of that name.
pub open spec fn spec_suite(name: Seq<char>) -> Option<Suite> {
    if name == kOfxPropertySuite@ {
        Some(Suite::Property)
    } else if name == kOfxImageEffectSuite@ {
        Some(Suite::ImageEffect)
    } else if name == kOfxParameterSuite@ {
        Some(Suite::Parameter)
    } else if name == kOfxProgressSuite@ {
        Some(Suite::Progress)
    } else if name == kOfxMemorySuite@ {
        Some(Suite::Memory)
    } else if name == kOfxMultiThreadSuite@ {
        Some(Suite::MultiThread)
    } else if name == kOfxInteractSuite@ {
        Some(Suite::Interact)
    } else if name == kOfxMessageSuite@ {
        Some(Suite::Message)
    } else {
        None
    }
}

/// The suite a plug-in asks for by name; `None` for a suite the host
/// does not implement.
pub fn fetch_suite(suite_name: &str) -> (r: Option<Suite>)
    ensures
        r == spec_suite(suite_name@),
{
    if str_equals(suite_name, kOfxPropertySuite) {
        Some(Suite::Property)
    } else if str_equals(suite_name, kOfxImageEffectSuite) {
        Some(Suite::ImageEffect)
    } else if str_equals(suite_name, kOfxParameterSuite) {
        Some(Suite::Parameter)
    } else if str_equals(suite_name, kOfxProgressSuite) {
        Some(Suite::Progress)
    } else if str_equals(suite_name, kOfxMemorySuite) {
        Some(Suite::Memory)
    } else if str_equals(suite_name, kOfxMultiThreadSuite) {
        Some(Suite::MultiThread)
    } else if str_equals(suite_name, kOfxInteractSuite) {
        Some(Suite::Interact)
    } else if str_equals(suite_name, kOfxMessageSuite) {
        Some(Suite::Message)
    } else {
        None
    }
}

} // verus!
