//! What the host decides around the plug-ins: the capabilities it
//! announces, what each answer of a plug-in leads to, and the plug-ins it
//! keeps, with the description each gave of itself.
use vstd::prelude::*;
use vstd::string::*;
use crate::keyed::{keyed_map, lemma_keyed_at, lemma_keyed_empty, lemma_keyed_push, lemma_keyed_update};
use crate::rfx::effectnode::EffectNode;
use crate::rfx::project::texts;
use crate::rfx::propertyset::{OfxPropertySet, PropertyValue, PropertyValueView};
use crate::suites::ofxcore::{
    OfxStatus,
    kOfxStatOK,
    kOfxStatReplyDefault,
    kOfxStatFailed,
    kOfxStatErrFatal,
    kOfxImageEffectPropContext,
    kOfxImageEffectContextGeneral,
};
use crate::text::{clone_keyword, keyword_bytes};

verus! {

broadcast use vstd::string::group_string_axioms;

/// The properties with which the host describes itself: no multiple clip
/// depths, overlays and custom animation supported, the general context.
pub open spec fn host_capabilities() -> Map<Seq<u8>, Seq<PropertyValueView>> {
    map![
        keyword_bytes("OfxImageEffectPropMultipleClipDepths"@) => seq![PropertyValueView::Integer(0)],
        keyword_bytes("OfxImageEffectPropSupportsOverlays"@) => seq![PropertyValueView::Integer(1)],
        keyword_bytes("OfxParamHostPropSupportsCustomAnimation"@) => seq![PropertyValueView::Integer(1)],
        keyword_bytes(kOfxImageEffectPropContext@) => seq![PropertyValueView::String(keyword_bytes(kOfxImageEffectContextGeneral@))],
    ]
}

/// The property set with which the host describes its capabilities.
pub fn describe_capabilities() -> (r: Box<OfxPropertySet>)
    ensures
        r.wf(),
        r@ == host_capabilities(),
{
    let k1 = clone_keyword("OfxImageEffectPropMultipleClipDepths");
    let k2 = clone_keyword("OfxImageEffectPropSupportsOverlays");
    let k3 = clone_keyword("OfxParamHostPropSupportsCustomAnimation");
    let k4 = clone_keyword(kOfxImageEffectPropContext);
    let general = clone_keyword(kOfxImageEffectContextGeneral);
    proof {
        reveal_strlit("OfxImageEffectPropMultipleClipDepths");
        reveal_strlit("OfxImageEffectPropSupportsOverlays");
        reveal_strlit("OfxParamHostPropSupportsCustomAnimation");
        reveal_strlit("OfxImageEffectPropContext");
        assert(forall|i: int| 0 <= i < k1@.len() ==> k1@[i] != 0);
        assert(forall|i: int| 0 <= i < k2@.len() ==> k2@[i] != 0);
        assert(forall|i: int| 0 <= i < k3@.len() ==> k3@[i] != 0);
        assert(forall|i: int| 0 <= i < k4@.len() ==> k4@[i] != 0);
        assert(k1@.len() == 36 && k2@.len() == 34 && k3@.len() == 39 && k4@.len() == 25);
    }
    let ghost g = general@;
    let ghost (v1, v2, v3, v4) = (k1@, k2@, k3@, k4@);
    let mut properties = OfxPropertySet::new();
    properties.insert(k1, 0, PropertyValue::Integer(0));
    properties.insert(k2, 0, PropertyValue::Integer(1));
    properties.insert(k3, 0, PropertyValue::Integer(1));
    properties.insert(k4, 0, PropertyValue::String(general));
    proof {
        lemma_store_first(PropertyValueView::Integer(0));
        lemma_store_first(PropertyValueView::Integer(1));
        lemma_store_first(PropertyValueView::String(g));
        assert(properties@ =~= host_capabilities());
    }
    properties
}

proof fn lemma_store_first(v: PropertyValueView)
    ensures
        crate::rfx::propertyset::store_at(Seq::empty(), 0, v) == seq![v],
{
    assert(crate::rfx::propertyset::store_at(Seq::empty(), 0, v) =~= seq![v]);
}

/// Sets the context of an image effect's properties to the general
/// context.
pub fn set_general_context(props: &mut OfxPropertySet)
    requires
        old(props).wf(),
    ensures
        final(props).wf(),
        final(props)@ == old(props)@.insert(
            keyword_bytes(kOfxImageEffectPropContext@),
            crate::rfx::propertyset::store_at(
                if old(props)@.contains_key(keyword_bytes(kOfxImageEffectPropContext@)) {
                    old(props)@[keyword_bytes(kOfxImageEffectPropContext@)]
                } else {
                    Seq::empty()
                },
                0,
                PropertyValueView::String(keyword_bytes(kOfxImageEffectContextGeneral@)),
            ),
        ),
{
    let key = clone_keyword(kOfxImageEffectPropContext);
    let general = clone_keyword(kOfxImageEffectContextGeneral);
    proof {
        reveal_strlit("OfxImageEffectPropContext");
        assert(forall|i: int| 0 <= i < key@.len() ==> key@[i] != 0);
    }
    props.insert(key, 0, PropertyValue::String(general));
}

/// The properties handed to a plug-in that describes itself in a
/// context: the general context.
pub fn context_properties() -> (r: Box<OfxPropertySet>)
    ensures
        r.wf(),
        r@ == map![
            keyword_bytes(kOfxImageEffectPropContext@) => seq![PropertyValueView::String(keyword_bytes(kOfxImageEffectContextGeneral@))],
        ],
{
    let mut props = OfxPropertySet::new();
    set_general_context(&mut props);
    proof {
        lemma_store_first(PropertyValueView::String(keyword_bytes(kOfxImageEffectContextGeneral@)));
        assert(props@ =~= map![
            keyword_bytes(kOfxImageEffectPropContext@) => seq![PropertyValueView::String(keyword_bytes(kOfxImageEffectContextGeneral@))],
        ]);
    }
    props
}

/// What the host does once a plug-in has answered the load action.
#[derive(Debug, Clone, Copy, PartialEq, Eq, Structural)]
pub enum LoadOutcome {
    /// The plug-in loaded: ask it to describe itself.
    Describe,
    /// The plug-in failed to load: leave it.
    Failed,
    /// The plug-in reported a fatal error: stop.
    Fatal,
    /// The plug-in answered a code the host does not handle: leave it.
    Unhandled,
}

/// The outcome of the load action for each status.
pub open spec fn spec_load_outcome(status: OfxStatus) -> LoadOutcome {
    if status == kOfxStatOK || status == kOfxStatReplyDefault {
        LoadOutcome::Describe
    } else if status == kOfxStatFailed {
        LoadOutcome::Failed
    } else if status == kOfxStatErrFatal {
        LoadOutcome::Fatal
    } else {
        LoadOutcome::Unhandled
    }
}

/// A plug-in is asked to describe itself only when its load action
/// succeeded (status 0) or left the host to its default (status 14); a
/// failure (status 1) leaves it, a fatal error (status 2) stops the host,
/// and every other status is an answer the host does not handle.
pub proof fn lemma_load_outcome_by_status(status: OfxStatus)
    ensures
        (spec_load_outcome(status) == LoadOutcome::Describe) <==> (status == 0 || status == 14),
        (spec_load_outcome(status) == LoadOutcome::Failed) <==> status == 1,
        (spec_load_outcome(status) == LoadOutcome::Fatal) <==> status == 2,
        (spec_load_outcome(status) == LoadOutcome::Unhandled) <==> !(status == 0 || status == 14
            || status == 1 || status == 2),
{
}

/// What follows the status a plug-in returned from the load action.
pub fn load_outcome(status: OfxStatus) -> (r: LoadOutcome)
    ensures
        r == spec_load_outcome(status),
{
    if status == kOfxStatOK || status == kOfxStatReplyDefault {
        LoadOutcome::Describe
    } else if status == kOfxStatFailed {
        LoadOutcome::Failed
    } else if status == kOfxStatErrFatal {
        LoadOutcome::Fatal
    } else {
        LoadOutcome::Unhandled
    }
}

/// Whether a plug-in that answered the describe action with `status` is
/// kept; it is when it succeeded.
pub fn describe_keeps(status: OfxStatus) -> (r: bool)
    ensures
        r == (status == kOfxStatOK),
{
    status == kOfxStatOK
}

/// Whether an image effect that answered the describe-in-context action
/// with `status` is instantiated; it is when it succeeded.
pub fn describe_in_context_instantiates(status: OfxStatus) -> (r: bool)
    ensures
        r == (status == kOfxStatOK),
{
    status == kOfxStatOK
}

/// The plug-ins the host keeps, by identifier, each with the description
/// it gave of itself.
pub struct PluginRegistry<P> {
    names: Vec<String>,
    entries: Vec<(P, EffectNode)>,
}

impl<P> PluginRegistry<P> {
    /// One entry per identifier, each description well formed.
    pub closed spec fn wf(&self) -> bool {
        &&& self.names@.len() == self.entries@.len()
        &&& texts(self.names@).no_duplicates()
        &&& forall|i: int| 0 <= i < self.entries@.len() ==> (#[trigger] self.entries@[i]).1.wf()
    }

    /// The plug-ins and their descriptions, by identifier.
    pub closed spec fn view(&self) -> Map<Seq<char>, (P, EffectNode)> {
        keyed_map(texts(self.names@), self.entries@)
    }

    /// No plug-ins.
    pub fn new() -> (r: Self)
        ensures
            r.wf(),
            r.view() == Map::<Seq<char>, (P, EffectNode)>::empty(),
    {
        let r = PluginRegistry { names: Vec::new(), entries: Vec::new() };
        proof {
            assert(texts(r.names@) =~= Seq::<Seq<char>>::empty());
            lemma_keyed_empty::<Seq<char>, (P, EffectNode)>();
        }
        r
    }

    fn find(&self, name: &str) -> (r: Option<usize>)
        requires
            self.wf(),
        ensures
            match r {
                Some(i) => i < self.names@.len() && self.names@[i as int]@ == name@
                    && self.view().contains_key(name@) && self.view()[name@] == self.entries@[i as int],
                None => !self.view().contains_key(name@),
            },
    {
        let mut i: usize = 0;
        while i < self.names.len()
            invariant
                self.wf(),
                0 <= i <= self.names@.len(),
                forall|j: int| 0 <= j < i ==> #[trigger] self.names@[j]@ != name@,
            decreases self.names@.len() - i,
        {
            if crate::text::str_equals(self.names[i].as_str(), name) {
                proof {
                    lemma_keyed_at(texts(self.names@), self.entries@, i as int);
                }
                return Some(i);
            }
            i = i + 1;
        }
        proof {
            let ks = texts(self.names@);
            if ks.contains(name@) {
                let j = choose|j: int| 0 <= j < ks.len() && ks[j] == name@;
                assert(self.names@[j]@ == name@);
            }
        }
        None
    }

    /// Keeps `plugin` and its description under `identifier`, in place of
    /// any plug-in kept under it before.
    pub fn insert(&mut self, identifier: String, plugin: P, description: EffectNode)
        requires
            old(self).wf(),
            description.wf(),
        ensures
            final(self).wf(),
            final(self).view() == old(self).view().insert(identifier@, (plugin, description)),
    {
        let ghost ks = texts(self.names@);
        let ghost vs = self.entries@;
        let ghost entry = (plugin, description);
        match self.find(identifier.as_str()) {
            Some(i) => {
                proof {
                    lemma_keyed_update(ks, vs, i as int, entry);
                }
                self.entries.set(i, (plugin, description));
            },
            None => {
                proof {
                    lemma_keyed_push(ks, vs, identifier@, entry);
                }
                self.names.push(identifier);
                self.entries.push((plugin, description));
                proof {
                    assert(texts(self.names@) =~= ks.push(identifier@));
                }
            },
        }
    }

    /// The identifiers of the plug-ins kept, each once.
    pub fn identifiers(&self) -> (r: Vec<String>)
        requires
            self.wf(),
        ensures
            texts(r@).no_duplicates(),
            texts(r@).to_set() == self.view().dom(),
    {
        let mut r: Vec<String> = Vec::new();
        let mut i: usize = 0;
        while i < self.names.len()
            invariant
                self.wf(),
                i <= self.names@.len(),
                texts(r@) == texts(self.names@).take(i as int),
            decreases self.names@.len() - i,
        {
            let name = self.names[i].clone();
            assert(name@ == self.names@[i as int]@);
            let ghost prev = r@;
            r.push(name);
            assert(r@ == prev.push(name));
            assert(texts(r@) =~= texts(prev).push(self.names@[i as int]@));
            assert(texts(r@) =~= texts(self.names@).take(i + 1));
            i = i + 1;
        }
        assert(texts(self.names@).take(i as int) =~= texts(self.names@));
        assert(texts(r@).to_set() =~= self.view().dom());
        r
    }

    /// The plug-in kept under `name`, with its description.
    pub fn get_mut(&mut self, name: &str) -> (r: Option<(&mut P, &EffectNode)>)
        requires
            old(self).wf(),
        ensures
            r is Some <==> old(self).view().contains_key(name@),
            r matches Some(e) ==> {
                &&& *e.0 == old(self).view()[name@].0
                &&& *e.1 == old(self).view()[name@].1
                &&& e.1.wf()
                &&& final(self).wf()
                &&& final(self).view() == old(self).view().insert(
                    name@,
                    (*final(e.0), old(self).view()[name@].1),
                )
            },
            r is None ==> *final(self) == *old(self),
    {
        match self.find(name) {
            Some(i) => {
                let ghost ks = texts(self.names@);
                let ghost vs = self.entries@;
                proof {
                    assert forall|p: P| #[trigger] keyed_map(ks, vs.update(i as int, (p, vs[i as int].1)))
                        == keyed_map(ks, vs).insert(name@, (p, vs[i as int].1)) by {
                        lemma_keyed_update(ks, vs, i as int, (p, vs[i as int].1));
                    }
                }
                let entry = &mut self.entries[i];
                Some((&mut entry.0, &entry.1))
            },
            None => None,
        }
    }
}

} // verus!
