//! Image effects: their properties, their parameters and their clips.
use vstd::prelude::*;
use crate::rfx::propertyset::{OfxPropertySet, PropertyValueView, bytes_eq, is_property_name};
use crate::rfx::paramset::{OfxParameterSet, ParamView};
use crate::rfx::imageclip::OfxImageClip;

verus! {

/// All the data of an image effect: its properties, its parameters and its
/// clips by name.
#[derive(Debug, Clone)]
pub struct EffectNode {
    props: Box<OfxPropertySet>,
    params: Box<OfxParameterSet>,
    clip_names: Vec<Vec<u8>>,
    clips: Vec<OfxImageClip>,
}

impl EffectNode {
    /// The effect's property set, its parameters and the properties of its
    /// parameter set are well formed; the clips have distinct names and
    /// well-formed property sets.
    pub closed spec fn wf(&self) -> bool {
        &&& self.props.wf()
        &&& self.params.wf()
        &&& self.clip_names@.len() == self.clips@.len()
        &&& forall|i: int, j: int|
            0 <= i < self.clip_names@.len() && 0 <= j < self.clip_names@.len() && i != j
                ==> #[trigger] self.clip_names@[i]@ != #[trigger] self.clip_names@[j]@
        &&& forall|i: int|
            0 <= i < self.clip_names@.len() ==> is_property_name(#[trigger] self.clip_names@[i]@)
        &&& forall|i: int| 0 <= i < self.clips@.len() ==> (#[trigger] self.clips@[i]).props.wf()
    }

    /// The properties of the effect.
    pub closed spec fn props_view(&self) -> Map<Seq<u8>, Seq<PropertyValueView>> {
        self.props@
    }

    /// The parameters of the effect.
    pub closed spec fn params_view(&self) -> Map<Seq<u8>, ParamView> {
        self.params@
    }

    /// The properties of the effect's parameter set.
    pub closed spec fn param_set_props(&self) -> Map<Seq<u8>, Seq<PropertyValueView>> {
        self.params.set_properties()
    }

    /// The properties of each clip, by the clip's name.
    pub closed spec fn clips_view(&self) -> Map<Seq<u8>, Map<Seq<u8>, Seq<PropertyValueView>>> {
        Map::new(
            |k: Seq<u8>|
                exists|i: int| 0 <= i < self.clip_names@.len() && #[trigger] self.clip_names@[i]@ == k,
            |k: Seq<u8>| self.clips@[self.clip_position(k)].props@,
        )
    }

    closed spec fn clip_position(self, k: Seq<u8>) -> int {
        choose|i: int| 0 <= i < self.clip_names@.len() && #[trigger] self.clip_names@[i]@ == k
    }

    proof fn lemma_clip_at(&self, i: int)
        requires
            self.wf(),
            0 <= i < self.clip_names@.len(),
        ensures
            self.clips_view().contains_key(self.clip_names@[i]@),
            self.clips_view()[self.clip_names@[i]@] == self.clips@[i].props@,
    {
        let k = self.clip_names@[i]@;
        assert(exists|j: int| 0 <= j < self.clip_names@.len() && #[trigger] self.clip_names@[j]@ == k);
        let p = self.clip_position(k);
        assert(self.clip_names@[p]@ == k);
    }

    /// A new effect with no properties, no parameters and no clips.
    pub fn new() -> (r: Self)
        ensures
            r.wf(),
            r.props_view() == Map::<Seq<u8>, Seq<PropertyValueView>>::empty(),
            r.params_view() == Map::<Seq<u8>, ParamView>::empty(),
            r.param_set_props() == Map::<Seq<u8>, Seq<PropertyValueView>>::empty(),
            r.clips_view() == Map::<Seq<u8>, Map<Seq<u8>, Seq<PropertyValueView>>>::empty(),
    {
        let r = EffectNode {
            props: OfxPropertySet::new(),
            params: OfxParameterSet::new(),
            clip_names: Vec::new(),
            clips: Vec::new(),
        };
        assert(r.clips_view() =~= Map::<Seq<u8>, Map<Seq<u8>, Seq<PropertyValueView>>>::empty());
        r
    }

    /// The property set of the effect, which the plug-ins reach by the
    /// effect's property handle.
    pub fn properties_handle(&mut self) -> (r: &mut OfxPropertySet)
        requires
            old(self).wf(),
        ensures
            (*r)@ == old(self).props_view(),
            r.wf(),
            final(self).props_view() == (*final(r))@,
            final(self).params_view() == old(self).params_view(),
            final(self).param_set_props() == old(self).param_set_props(),
            final(self).clips_view() == old(self).clips_view(),
            final(r).wf() ==> final(self).wf(),
    {
        &mut *self.props
    }

    /// The parameter set of the effect, to read.
    pub fn parameter_handle(&self) -> (r: &OfxParameterSet)
        requires
            self.wf(),
        ensures
            r@ == self.params_view(),
            r.set_properties() == self.param_set_props(),
            r.wf(),
    {
        &*self.params
    }

    /// The parameter set of the effect, which the plug-ins reach by the
    /// effect's parameter handle.
    pub fn parameters(&mut self) -> (r: &mut OfxParameterSet)
        requires
            old(self).wf(),
        ensures
            (*r)@ == old(self).params_view(),
            r.set_properties() == old(self).param_set_props(),
            r.wf(),
            final(self).params_view() == (*final(r))@,
            final(self).param_set_props() == final(r).set_properties(),
            final(self).props_view() == old(self).props_view(),
            final(self).clips_view() == old(self).clips_view(),
            final(r).wf() ==> final(self).wf(),
    {
        &mut *self.params
    }

    fn find_clip(&self, name: &[u8]) -> (r: Option<usize>)
        requires
            self.wf(),
        ensures
            match r {
                Some(i) => i < self.clip_names@.len() && self.clip_names@[i as int]@ == name@,
                None => !self.clips_view().contains_key(name@),
            },
    {
        let mut i: usize = 0;
        while i < self.clip_names.len()
            invariant
                0 <= i <= self.clip_names@.len(),
                forall|j: int| 0 <= j < i ==> #[trigger] self.clip_names@[j]@ != name@,
            decreases self.clip_names@.len() - i,
        {
            if bytes_eq(self.clip_names[i].as_slice(), name) {
                return Some(i);
            }
            i = i + 1;
        }
        None
    }

    /// Any effect that differs from `self` only in the clip at `i` maps
    /// that clip's name to the clip's properties.
    proof fn lemma_clip_replaced(&self, i: int)
        requires
            self.wf(),
            0 <= i < self.clip_names@.len(),
        ensures
            forall|t: EffectNode|
                t.clip_names@ == self.clip_names@ && t.clips@ == self.clips@.update(i, t.clips@[i])
                    ==> #[trigger] t.clips_view() == self.clips_view().insert(
                    self.clip_names@[i]@,
                    t.clips@[i].props@,
                ),
            forall|t: EffectNode|
                t.clip_names@ == self.clip_names@ && t.clips@ == self.clips@.update(i, t.clips@[i])
                    && t.props == self.props && t.params == self.params && t.clips@[i].props.wf()
                    ==> #[trigger] t.wf(),
    {
        assert forall|t: EffectNode|
            t.clip_names@ == self.clip_names@ && t.clips@ == self.clips@.update(
                i,
                t.clips@[i],
            ) implies #[trigger] t.clips_view() == self.clips_view().insert(
            self.clip_names@[i]@,
            t.clips@[i].props@,
        ) by {
            let k = self.clip_names@[i]@;
            let target = t.clips@[i].props@;
            let m = self.clips_view().insert(k, target);
            assert forall|k2: Seq<u8>| #[trigger] t.clips_view().contains_key(k2) implies m.contains_key(
                k2,
            ) && t.clips_view()[k2] == m[k2] by {
                let j = choose|j: int|
                    0 <= j < t.clip_names@.len() && #[trigger] t.clip_names@[j]@ == k2;
                let pt = t.clip_position(k2);
                assert(t.clip_names@[pt]@ == k2);
                self.lemma_clip_at(j);
                if j != i {
                    assert(pt == j);
                }
            }
            assert forall|k2: Seq<u8>| #[trigger] m.contains_key(k2) implies t.clips_view().contains_key(
                k2,
            ) by {
                if k2 == k {
                    assert(t.clip_names@[i]@ == k);
                } else {
                    let j = choose|j: int|
                        0 <= j < self.clip_names@.len() && #[trigger] self.clip_names@[j]@ == k2;
                    assert(t.clip_names@[j]@ == k2);
                }
            }
            assert(t.clips_view() =~= m);
        }
    }

    /// Any effect that adds to `self` one clip, under a new name, maps that
    /// name to the clip's properties.
    proof fn lemma_clip_pushed(&self, k: Seq<u8>)
        requires
            self.wf(),
            !self.clips_view().contains_key(k),
            is_property_name(k),
        ensures
            forall|t: EffectNode|
                t.clip_names@.len() == self.clip_names@.len() + 1 && t.clip_names@.last()@ == k
                    && t.clip_names@.drop_last() == self.clip_names@ && t.clips@ == self.clips@.push(
                    t.clips@.last(),
                ) ==> #[trigger] t.clips_view() == self.clips_view().insert(k, t.clips@.last().props@),
            forall|t: EffectNode|
                t.clip_names@.len() == self.clip_names@.len() + 1 && t.clip_names@.last()@ == k
                    && t.clip_names@.drop_last() == self.clip_names@ && t.clips@ == self.clips@.push(
                    t.clips@.last(),
                ) && t.props == self.props && t.params == self.params && t.clips@.last().props.wf()
                    ==> #[trigger] t.wf(),
    {
        let n = self.clip_names@.len() as int;
        assert forall|t: EffectNode|
            t.clip_names@.len() == self.clip_names@.len() + 1 && t.clip_names@.last()@ == k
                && t.clip_names@.drop_last() == self.clip_names@ && t.clips@ == self.clips@.push(
                t.clips@.last(),
            ) implies #[trigger] t.clips_view() == self.clips_view().insert(
            k,
            t.clips@.last().props@,
        ) by {
            let target = t.clips@.last().props@;
            let m = self.clips_view().insert(k, target);
            assert forall|j: int| 0 <= j < n implies #[trigger] t.clip_names@[j] == self.clip_names@[j] by {
                assert(t.clip_names@.drop_last()[j] == t.clip_names@[j]);
            }
            assert forall|k2: Seq<u8>| #[trigger] t.clips_view().contains_key(k2) implies m.contains_key(
                k2,
            ) && t.clips_view()[k2] == m[k2] by {
                let j = choose|j: int|
                    0 <= j < t.clip_names@.len() && #[trigger] t.clip_names@[j]@ == k2;
                let pt = t.clip_position(k2);
                assert(t.clip_names@[pt]@ == k2);
                if j < n {
                    self.lemma_clip_at(j);
                    if pt < n {
                        self.lemma_clip_at(pt);
                    }
                    assert(pt == j);
                } else {
                    if pt < n {
                        self.lemma_clip_at(pt);
                    }
                    assert(pt == n);
                }
            }
            assert forall|k2: Seq<u8>| #[trigger] m.contains_key(k2) implies t.clips_view().contains_key(
                k2,
            ) by {
                if k2 == k {
                    assert(t.clip_names@[n]@ == k);
                } else {
                    let j = choose|j: int|
                        0 <= j < self.clip_names@.len() && #[trigger] self.clip_names@[j]@ == k2;
                    assert(t.clip_names@[j]@ == k2);
                }
            }
            assert(t.clips_view() =~= m);
        }
        assert forall|t: EffectNode|
            t.clip_names@.len() == self.clip_names@.len() + 1 && t.clip_names@.last()@ == k
                && t.clip_names@.drop_last() == self.clip_names@ && t.clips@ == self.clips@.push(
                t.clips@.last(),
            ) && t.props == self.props && t.params == self.params
                && t.clips@.last().props.wf() implies #[trigger] t.wf() by {
            assert forall|j: int| 0 <= j < n implies #[trigger] t.clip_names@[j] == self.clip_names@[j] by {
                assert(t.clip_names@.drop_last()[j] == t.clip_names@[j]);
            }
            assert forall|a: int, b: int|
                0 <= a < t.clip_names@.len() && 0 <= b < t.clip_names@.len() && a != b implies #[trigger] t.clip_names@[a]@
                != #[trigger] t.clip_names@[b]@ by {
                if a == n {
                    self.lemma_clip_at(b);
                } else if b == n {
                    self.lemma_clip_at(a);
                }
            }
            assert forall|j: int| 0 <= j < t.clips@.len() implies (#[trigger] t.clips@[j]).props.wf() by {
                if j < n {
                    assert(t.clips@[j] == self.clips@[j]);
                }
            }
        }
    }

    /// Defines the clip `key` anew, with no properties, and gives its
    /// property set for the plug-in to describe it.
    pub fn clip_new(&mut self, key: Vec<u8>) -> (r: &mut OfxPropertySet)
        requires
            old(self).wf(),
            is_property_name(key@),
        ensures
            (*r)@ == Map::<Seq<u8>, Seq<PropertyValueView>>::empty(),
            r.wf(),
            final(self).clips_view() == old(self).clips_view().insert(key@, (*final(r))@),
            final(self).props_view() == old(self).props_view(),
            final(self).params_view() == old(self).params_view(),
            final(self).param_set_props() == old(self).param_set_props(),
            final(r).wf() ==> final(self).wf(),
    {
        let ghost old_self = *self;
        let ghost k = key@;
        let i = match self.find_clip(key.as_slice()) {
            Some(i) => {
                proof {
                    old_self.lemma_clip_at(i as int);
                    old_self.lemma_clip_replaced(i as int);
                }
                self.clips.set(i, OfxImageClip::new());
                i
            },
            None => {
                proof {
                    old_self.lemma_clip_pushed(k);
                }
                let n = self.clips.len();
                self.clip_names.push(key);
                self.clips.push(OfxImageClip::new());
                proof {
                    assert(self.clip_names@.drop_last() =~= old_self.clip_names@);
                }
                n
            },
        };
        &mut *self.clips[i].props
    }

    /// The clip named `name`, to read or change.
    pub fn clip_get_mut(&mut self, name: &[u8]) -> (r: Option<&mut OfxImageClip>)
        requires
            old(self).wf(),
        ensures
            r is Some <==> old(self).clips_view().contains_key(name@),
            r matches Some(c) ==> {
                &&& c.props@ == old(self).clips_view()[name@]
                &&& c.props.wf()
                &&& final(self).clips_view() == old(self).clips_view().insert(name@, final(c).props@)
                &&& (final(c).props.wf() ==> final(self).wf())
                &&& final(self).props_view() == old(self).props_view()
                &&& final(self).params_view() == old(self).params_view()
                &&& final(self).param_set_props() == old(self).param_set_props()
            },
            r is None ==> *final(self) == *old(self),
    {
        match self.find_clip(name) {
            Some(i) => {
                proof {
                    self.lemma_clip_at(i as int);
                    self.lemma_clip_replaced(i as int);
                }
                Some(&mut self.clips[i])
            },
            None => None,
        }
    }
}

} // verus!
