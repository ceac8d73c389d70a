//! The image effect suite: reaching the clips of an effect.
use vstd::prelude::*;
use crate::rfx::effectnode::EffectNode;
use crate::rfx::imageclip::OfxImageClip;
use crate::rfx::propertyset::PropertyValueView;
use crate::suites::ofxcore::{OfxStatus, kOfxStatErrBadHandle};

verus! {

/// The clip named `name` of the effect, to hand its handle and its
/// property set to the plug-in; `kOfxStatErrBadHandle` for a clip that
/// was never defined.
pub fn clip_get_handle<'a>(image_effect: &'a mut EffectNode, name: &[u8]) -> (r: Result<
    &'a mut OfxImageClip,
    OfxStatus,
>)
    requires
        old(image_effect).wf(),
    ensures
        r is Ok <==> old(image_effect).clips_view().contains_key(name@),
        r matches Ok(c) ==> {
            &&& c.props@ == old(image_effect).clips_view()[name@]
            &&& c.props.wf()
            &&& final(image_effect).clips_view() == old(image_effect).clips_view().insert(
                name@,
                final(c).props@,
            )
            &&& (final(c).props.wf() ==> final(image_effect).wf())
            &&& final(image_effect).props_view() == old(image_effect).props_view()
            &&& final(image_effect).params_view() == old(image_effect).params_view()
        },
        r matches Err(e) ==> e == kOfxStatErrBadHandle && *final(image_effect) == *old(image_effect),
{
    match image_effect.clip_get_mut(name) {
        Some(clip) => Ok(clip),
        None => Err(kOfxStatErrBadHandle),
    }
}

/// A clip defined under a name is then found under that name, holding
/// the properties given to the property set that its definition handed
/// out; the other clips stay as they were.
pub proof fn lemma_define_then_get(
    clips: Map<Seq<u8>, Map<Seq<u8>, Seq<PropertyValueView>>>,
    name: Seq<u8>,
    props: Map<Seq<u8>, Seq<PropertyValueView>>,
)
    ensures
        clips.insert(name, props).contains_key(name),
        clips.insert(name, props)[name] == props,
        forall|k: Seq<u8>| k != name ==> (#[trigger] clips.insert(name, props).contains_key(k)
            == clips.contains_key(k) && (clips.contains_key(k) ==> clips.insert(name, props)[k]
            == clips[k])),
{
}

/// The clips after the definitions `defs` (name, properties), in order,
/// starting from `clips`.
pub open spec fn clips_after(
    clips: Map<Seq<u8>, Map<Seq<u8>, Seq<PropertyValueView>>>,
    defs: Seq<(Seq<u8>, Map<Seq<u8>, Seq<PropertyValueView>>)>,
) -> Map<Seq<u8>, Map<Seq<u8>, Seq<PropertyValueView>>>
    decreases defs.len(),
{
    if defs.len() == 0 {
        clips
    } else {
        clips_after(clips, defs.drop_last()).insert(defs.last().0, defs.last().1)
    }
}

/// The properties of the last definition of `name` among `defs`.
pub open spec fn last_definition(
    defs: Seq<(Seq<u8>, Map<Seq<u8>, Seq<PropertyValueView>>)>,
    name: Seq<u8>,
) -> Option<Map<Seq<u8>, Seq<PropertyValueView>>>
    decreases defs.len(),
{
    if defs.len() == 0 {
        None
    } else if defs.last().0 == name {
        Some(defs.last().1)
    } else {
        last_definition(defs.drop_last(), name)
    }
}

/// After any sequence of clip definitions, a name is found with the
/// properties of its last definition; a name never defined in the
/// sequence is found as before, or not at all.
pub proof fn lemma_definitions_then_get(
    clips: Map<Seq<u8>, Map<Seq<u8>, Seq<PropertyValueView>>>,
    defs: Seq<(Seq<u8>, Map<Seq<u8>, Seq<PropertyValueView>>)>,
    name: Seq<u8>,
)
    ensures
        match last_definition(defs, name) {
            Some(p) => clips_after(clips, defs).contains_key(name) && clips_after(clips, defs)[name]
                == p,
            None => clips_after(clips, defs).contains_key(name) == clips.contains_key(name) && (
            clips.contains_key(name) ==> clips_after(clips, defs)[name] == clips[name]),
        },
    decreases defs.len(),
{
    if defs.len() > 0 {
        lemma_definitions_then_get(clips, defs.drop_last(), name);
    }
}

} // verus!
