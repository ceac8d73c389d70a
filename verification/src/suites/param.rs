//! The parameter suite: defining parameters and reaching them.
use vstd::prelude::*;
use crate::rfx::paramset::{OfxParam, OfxParameterSet, param_default, fresh_param, spec_nb_components, spec_param_type, known_param_type};
use crate::rfx::propertyset::{OfxPropertySet, is_property_name};
use crate::suites::ofxcore::{OfxStatus, kOfxStatOK, kOfxStatErrExists, kOfxStatErrUnknown};

verus! {

/// Defines a parameter of the type named `p_type` under the name
/// `p_name`. A parameter of a known type replaces one of the same name,
/// which gives `kOfxStatErrExists`; an unknown type changes nothing and
/// gives `kOfxStatErrUnknown`. Every known type is supported.
pub fn param_define(paramset: &mut OfxParameterSet, p_type: &str, p_name: Vec<u8>) -> (r: OfxStatus)
    requires
        old(paramset).wf(),
        is_property_name(p_name@),
    ensures
        final(paramset).wf(),
        final(paramset).set_properties() == old(paramset).set_properties(),
        match param_default(p_type@) {
            Some(x) => {
                &&& final(paramset)@ == old(paramset)@.insert(p_name@, fresh_param(x))
                &&& r == if old(paramset)@.contains_key(p_name@) {
                    kOfxStatErrExists
                } else {
                    kOfxStatOK
                }
            },
            None => final(paramset)@ == old(paramset)@ && r == kOfxStatErrUnknown,
        },
{
    if !known_param_type(p_type) {
        return kOfxStatErrUnknown;
    }
    if let Some(_previous) = paramset.create_param(p_type, p_name) {
        kOfxStatErrExists
    } else {
        kOfxStatOK
    }
}

/// The parameter named `name` and its property set, as handles to give
/// the plug-in; the call itself always succeeds.
pub fn param_get_handle<'a>(paramset: &'a OfxParameterSet, name: &[u8]) -> (r: (
    OfxStatus,
    Option<&'a OfxParam>,
    Option<&'a OfxPropertySet>,
))
    requires
        paramset.wf(),
    ensures
        r.0 == kOfxStatOK,
        r.1 is Some <==> paramset@.contains_key(name@),
        r.1 matches Some(p) ==> p@ == paramset@[name@],
        r.2 is Some <==> (paramset@.contains_key(name@) && !(paramset@[name@].value is Choice
            || paramset@[name@].value is PushButton)),
        r.2 matches Some(ps) ==> ps@ == paramset@[name@].properties,
{
    let (param, props) = paramset.param_and_prop_ptr(name);
    (kOfxStatOK, param, props)
}

/// The number of components of a parameter.
pub fn param_get_nb_component(param: &OfxParam) -> (r: u32)
    ensures
        r == spec_nb_components(param@.value),
{
    match param {
        OfxParam::Int1(_) => 1,
        OfxParam::Int2(_) => 2,
        OfxParam::Int3(_) => 3,
        OfxParam::Double1(_) => 1,
        OfxParam::Double2(_) => 2,
        OfxParam::Double3(_) => 3,
        OfxParam::RGB(_) => 3,
        OfxParam::RGBA(_) => 4,
        OfxParam::String(_, _) => 1,
        OfxParam::Boolean(_, _) => 1,
        OfxParam::Choice(_, _) => 1,
        OfxParam::Custom(_, _) => 1,
        OfxParam::PushButton(_, _) => 1,
        OfxParam::Group(_, _) => 1,
        OfxParam::Page(_, _) => 1,
    }
}

/// Whether a parameter's components are integers (0), doubles (1) or a
/// string (2).
pub fn param_get_type(param: &OfxParam) -> (r: u32)
    ensures
        r == spec_param_type(param@.value),
{
    match param {
        OfxParam::Int1(_) => 0,
        OfxParam::Int2(_) => 0,
        OfxParam::Int3(_) => 0,
        OfxParam::Double1(_) => 1,
        OfxParam::Double2(_) => 1,
        OfxParam::Double3(_) => 1,
        OfxParam::RGB(_) => 1,
        OfxParam::RGBA(_) => 1,
        OfxParam::String(_, _) => 2,
        OfxParam::Boolean(_, _) => 0,
        OfxParam::Choice(_, _) => 0,
        OfxParam::Custom(_, _) => 0,
        OfxParam::PushButton(_, _) => 0,
        OfxParam::Group(_, _) => 0,
        OfxParam::Page(_, _) => 0,
    }
}

} // verus!
