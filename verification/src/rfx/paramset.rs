//! Parameters of image effects and the sets that hold them.
//!
//! Doubles are kept as the bits of their IEEE representation, and times of
//! key frames likewise; strings as the bytes of a C string without its
//! terminator.
use vstd::prelude::*;
use crate::rfx::propertyset::{OfxPropertySet, PropertyValueView, bytes_eq, is_property_name};
use crate::text::str_equals;

verus! {

/// A parameter that can hold key frames: its property set, its default
/// value and its key frames (time, value).
#[derive(Debug, Clone)]
pub struct KeyFramedParameter<T> {
    pub properties: Box<OfxPropertySet>,
    pub default: T,
    pub keys: Vec<(u64, T)>,
}

/// A parameter: integers and doubles of 1 to 3 components, colours, a
/// string, a boolean, and the kinds that hold one integer.
#[derive(Debug, Clone)]
pub enum OfxParam {
    Int1(KeyFramedParameter<i32>),
    Int2(KeyFramedParameter<(i32, i32)>),
    Int3(KeyFramedParameter<(i32, i32, i32)>),
    Double1(KeyFramedParameter<u64>),
    Double2(KeyFramedParameter<(u64, u64)>),
    Double3(KeyFramedParameter<(u64, u64, u64)>),
    RGB(KeyFramedParameter<(u64, u64, u64)>),
    RGBA(KeyFramedParameter<(u64, u64, u64, u64)>),
    String(Vec<u8>, Box<OfxPropertySet>),
    Boolean(bool, Box<OfxPropertySet>),
    Choice(i32, Box<OfxPropertySet>),
    Custom(i32, Box<OfxPropertySet>),
    PushButton(i32, Box<OfxPropertySet>),
    Group(i32, Box<OfxPropertySet>),
    Page(i32, Box<OfxPropertySet>),
}

/// The value of a parameter, by kind.
pub enum ParamValue {
    Int1(i32),
    Int2(i32, i32),
    Int3(i32, i32, i32),
    Double1(u64),
    Double2(u64, u64),
    Double3(u64, u64, u64),
    RGB(u64, u64, u64),
    RGBA(u64, u64, u64, u64),
    String(Seq<u8>),
    Boolean(bool),
    Choice(i32),
    Custom(i32),
    PushButton(i32),
    Group(i32),
    Page(i32),
}

/// What a parameter holds: its value (the default value for the kinds with
/// key frames), its properties and its key frames.
pub struct ParamView {
    pub value: ParamValue,
    pub properties: Map<Seq<u8>, Seq<PropertyValueView>>,
    pub keyframes: Seq<(u64, ParamValue)>,
}

impl View for OfxParam {
    type V = ParamView;

    open spec fn view(&self) -> ParamView {
        match self {
            OfxParam::Int1(k) => ParamView {
                value: ParamValue::Int1(k.default),
                properties: k.properties@,
                keyframes: k.keys@.map_values(|e: (u64, i32)| (e.0, ParamValue::Int1(e.1))),
            },
            OfxParam::Int2(k) => ParamView {
                value: ParamValue::Int2(k.default.0, k.default.1),
                properties: k.properties@,
                keyframes: k.keys@.map_values(
                    |e: (u64, (i32, i32))| (e.0, ParamValue::Int2(e.1.0, e.1.1)),
                ),
            },
            OfxParam::Int3(k) => ParamView {
                value: ParamValue::Int3(k.default.0, k.default.1, k.default.2),
                properties: k.properties@,
                keyframes: k.keys@.map_values(
                    |e: (u64, (i32, i32, i32))| (e.0, ParamValue::Int3(e.1.0, e.1.1, e.1.2)),
                ),
            },
            OfxParam::Double1(k) => ParamView {
                value: ParamValue::Double1(k.default),
                properties: k.properties@,
                keyframes: k.keys@.map_values(|e: (u64, u64)| (e.0, ParamValue::Double1(e.1))),
            },
            OfxParam::Double2(k) => ParamView {
                value: ParamValue::Double2(k.default.0, k.default.1),
                properties: k.properties@,
                keyframes: k.keys@.map_values(
                    |e: (u64, (u64, u64))| (e.0, ParamValue::Double2(e.1.0, e.1.1)),
                ),
            },
            OfxParam::Double3(k) => ParamView {
                value: ParamValue::Double3(k.default.0, k.default.1, k.default.2),
                properties: k.properties@,
                keyframes: k.keys@.map_values(
                    |e: (u64, (u64, u64, u64))| (e.0, ParamValue::Double3(e.1.0, e.1.1, e.1.2)),
                ),
            },
            OfxParam::RGB(k) => ParamView {
                value: ParamValue::RGB(k.default.0, k.default.1, k.default.2),
                properties: k.properties@,
                keyframes: k.keys@.map_values(
                    |e: (u64, (u64, u64, u64))| (e.0, ParamValue::RGB(e.1.0, e.1.1, e.1.2)),
                ),
            },
            OfxParam::RGBA(k) => ParamView {
                value: ParamValue::RGBA(k.default.0, k.default.1, k.default.2, k.default.3),
                properties: k.properties@,
                keyframes: k.keys@.map_values(
                    |e: (u64, (u64, u64, u64, u64))|
                        (e.0, ParamValue::RGBA(e.1.0, e.1.1, e.1.2, e.1.3)),
                ),
            },
            OfxParam::String(s, p) => ParamView {
                value: ParamValue::String(s@),
                properties: p@,
                keyframes: Seq::empty(),
            },
            OfxParam::Boolean(b, p) => ParamView {
                value: ParamValue::Boolean(*b),
                properties: p@,
                keyframes: Seq::empty(),
            },
            OfxParam::Choice(i, p) => ParamView {
                value: ParamValue::Choice(*i),
                properties: p@,
                keyframes: Seq::empty(),
            },
            OfxParam::Custom(i, p) => ParamView {
                value: ParamValue::Custom(*i),
                properties: p@,
                keyframes: Seq::empty(),
            },
            OfxParam::PushButton(i, p) => ParamView {
                value: ParamValue::PushButton(*i),
                properties: p@,
                keyframes: Seq::empty(),
            },
            OfxParam::Group(i, p) => ParamView {
                value: ParamValue::Group(*i),
                properties: p@,
                keyframes: Seq::empty(),
            },
            OfxParam::Page(i, p) => ParamView {
                value: ParamValue::Page(*i),
                properties: p@,
                keyframes: Seq::empty(),
            },
        }
    }
}

/// The parameter `v` with the value `x`.
pub open spec fn with_value(v: ParamView, x: ParamValue) -> ParamView {
    ParamView { value: x, properties: v.properties, keyframes: v.keyframes }
}

/// The value that a new parameter of the type named `t` starts with, or
/// `None` for a type that the host does not know.
pub open spec fn param_default(t: Seq<char>) -> Option<ParamValue> {
    if t == "OfxParamTypeInteger"@ {
        Some(ParamValue::Int1(0))
    } else if t == "OfxParamTypeDouble"@ {
        Some(ParamValue::Double1(0))
    } else if t == "OfxParamTypeBoolean"@ {
        Some(ParamValue::Boolean(true))
    } else if t == "OfxParamTypeChoice"@ {
        Some(ParamValue::Choice(0))
    } else if t == "OfxParamTypeRGBA"@ {
        Some(ParamValue::RGBA(0, 0, 0, 0))
    } else if t == "OfxParamTypeRGB"@ {
        Some(ParamValue::RGB(0, 0, 0))
    } else if t == "OfxParamTypeDouble2D"@ {
        Some(ParamValue::Double2(0, 0))
    } else if t == "OfxParamTypeInteger2D"@ {
        Some(ParamValue::Int2(0, 0))
    } else if t == "OfxParamTypeDouble3D"@ {
        Some(ParamValue::Double3(0, 0, 0))
    } else if t == "OfxParamTypeInteger3D"@ {
        Some(ParamValue::Int3(0, 0, 0))
    } else if t == "OfxParamTypeString"@ {
        Some(ParamValue::String(Seq::empty()))
    } else if t == "OfxParamTypeCustom"@ {
        Some(ParamValue::Custom(0))
    } else if t == "OfxParamTypeGroup"@ {
        Some(ParamValue::Group(0))
    } else if t == "OfxParamTypePage"@ {
        Some(ParamValue::Page(0))
    } else if t == "OfxParamTypePushButton"@ {
        Some(ParamValue::PushButton(0))
    } else {
        None
    }
}

/// A new parameter holding `x`, with no properties and no key frames.
pub open spec fn fresh_param(x: ParamValue) -> ParamView {
    ParamView { value: x, properties: Map::empty(), keyframes: Seq::empty() }
}

/// The number of components of a parameter's value.
pub open spec fn spec_nb_components(v: ParamValue) -> u32 {
    match v {
        ParamValue::Int2(_, _) | ParamValue::Double2(_, _) => 2,
        ParamValue::Int3(_, _, _) | ParamValue::Double3(_, _, _) | ParamValue::RGB(_, _, _) => 3,
        ParamValue::RGBA(_, _, _, _) => 4,
        _ => 1,
    }
}

/// How a parameter's components are read and written: 0 as integers, 1 as
/// doubles, 2 as a string.
pub open spec fn spec_param_type(v: ParamValue) -> u32 {
    match v {
        ParamValue::Double1(_) | ParamValue::Double2(_, _) | ParamValue::Double3(_, _, _)
        | ParamValue::RGB(_, _, _) | ParamValue::RGBA(_, _, _, _) => 1,
        ParamValue::String(_) => 2,
        _ => 0,
    }
}

/// Whether `v` is the value of a one- or two-component integer parameter.
pub open spec fn is_int1_or_int2(v: ParamValue) -> bool {
    v is Int1 || v is Int2
}

impl OfxParam {
    /// The property set of the parameter; choices and push buttons give
    /// none.
    pub fn properties(&self) -> (r: Option<&OfxPropertySet>)
        ensures
            r is None <==> (self@.value is Choice || self@.value is PushButton),
            r matches Some(ps) ==> ps@ == self@.properties,
    {
        match self {
            OfxParam::Int1(k) => Some(&*k.properties),
            OfxParam::Int2(k) => Some(&*k.properties),
            OfxParam::Int3(k) => Some(&*k.properties),
            OfxParam::Double1(k) => Some(&*k.properties),
            OfxParam::Double2(k) => Some(&*k.properties),
            OfxParam::Double3(k) => Some(&*k.properties),
            OfxParam::RGB(k) => Some(&*k.properties),
            OfxParam::RGBA(k) => Some(&*k.properties),
            OfxParam::String(_, p) => Some(&**p),
            OfxParam::Boolean(_, p) => Some(&**p),
            OfxParam::Custom(_, p) => Some(&**p),
            OfxParam::Group(_, p) => Some(&**p),
            OfxParam::Page(_, p) => Some(&**p),
            OfxParam::Choice(_, _) => None,
            OfxParam::PushButton(_, _) => None,
        }
    }

    /// Sets the value of an integer parameter from its components.
    pub fn int_set(&mut self, value: &[i32])
        requires
            old(self)@.value is Int1 && value@.len() >= 1 || old(self)@.value is Int2
                && value@.len() >= 2 || old(self)@.value is Int3 && value@.len() >= 3,
        ensures
            final(self)@ == with_value(
                old(self)@,
                match old(self)@.value {
                    ParamValue::Int1(_) => ParamValue::Int1(value@[0]),
                    ParamValue::Int2(_, _) => ParamValue::Int2(value@[0], value@[1]),
                    _ => ParamValue::Int3(value@[0], value@[1], value@[2]),
                },
            ),
    {
        match self {
            OfxParam::Int1(param) => {
                param.default = value[0];
            },
            OfxParam::Int2(param) => {
                param.default = (value[0], value[1]);
            },
            OfxParam::Int3(param) => {
                param.default = (value[0], value[1], value[2]);
            },
            _ => {},
        }
    }

    /// Sets the value of a one- or two-component integer parameter from
    /// the components in `data`.
    pub fn set_raw_data(&mut self, data: &[i32])
        requires
            old(self)@.value is Int1 && data@.len() >= 1 || old(self)@.value is Int2 && data@.len()
                >= 2,
        ensures
            final(self)@ == with_value(
                old(self)@,
                if old(self)@.value is Int1 {
                    ParamValue::Int1(data@[0])
                } else {
                    ParamValue::Int2(data@[0], data@[1])
                },
            ),
    {
        match self {
            OfxParam::Int1(param) => {
                param.default = data[0];
            },
            OfxParam::Int2(param) => {
                param.default = (data[0], data[1]);
            },
            _ => {},
        }
    }

    /// Writes the components of a one- or two-component integer parameter
    /// to the start of `data`.
    pub fn get_raw_data(&self, data: &mut Vec<i32>)
        requires
            self@.value is Int1 && old(data)@.len() >= 1 || self@.value is Int2 && old(data)@.len()
                >= 2,
        ensures
            final(data)@ == match self@.value {
                ParamValue::Int1(v) => old(data)@.update(0, v),
                ParamValue::Int2(v0, v1) => old(data)@.update(0, v0).update(1, v1),
                _ => old(data)@,
            },
    {
        match self {
            OfxParam::Int1(param) => {
                data.set(0, param.default);
            },
            OfxParam::Int2(param) => {
                data.set(0, param.default.0);
                data.set(1, param.default.1);
            },
            _ => {},
        }
    }

    /// Sets the value of a one-component integer parameter.
    pub fn int1_set(&mut self, value: i32)
        requires
            old(self)@.value is Int1,
        ensures
            final(self)@ == with_value(old(self)@, ParamValue::Int1(value)),
    {
        let data = [value];
        self.set_raw_data(&data);
    }

    /// The value of a one-component integer parameter.
    pub fn int1_get(&self) -> (r: i32)
        requires
            self@.value is Int1,
        ensures
            self@.value == ParamValue::Int1(r),
    {
        let mut value: Vec<i32> = Vec::new();
        value.push(0);
        self.get_raw_data(&mut value);
        value[0]
    }

    /// Sets the two components of an integer parameter; a one-component
    /// parameter takes the first.
    pub fn int2_set(&mut self, v1: i32, v2: i32)
        requires
            is_int1_or_int2(old(self)@.value),
        ensures
            final(self)@ == with_value(
                old(self)@,
                if old(self)@.value is Int1 {
                    ParamValue::Int1(v1)
                } else {
                    ParamValue::Int2(v1, v2)
                },
            ),
    {
        let data = [v1, v2];
        self.set_raw_data(&data);
    }

    /// The two components of an integer parameter; a one-component
    /// parameter gives its value and 0.
    pub fn int2_get(&self) -> (r: [i32; 2])
        requires
            is_int1_or_int2(self@.value),
        ensures
            match self@.value {
                ParamValue::Int1(v) => r@ == seq![v, 0i32],
                ParamValue::Int2(v0, v1) => r@ == seq![v0, v1],
                _ => false,
            },
    {
        let mut value: Vec<i32> = Vec::new();
        value.push(0);
        value.push(0);
        self.get_raw_data(&mut value);
        let r = [value[0], value[1]];
        assert(r@ =~= value@);
        r
    }
}

/// A key-framed parameter with no properties, the value `default` and no
/// key frames.
fn keyframed<T>(default: T) -> (r: KeyFramedParameter<T>)
    ensures
        r.properties@ == Map::<Seq<u8>, Seq<PropertyValueView>>::empty(),
        r.properties.wf(),
        r.default == default,
        r.keys@.len() == 0,
{
    KeyFramedParameter { properties: OfxPropertySet::new(), default, keys: Vec::new() }
}

/// Whether the host knows the parameter type named `type_str`.
pub fn known_param_type(type_str: &str) -> (r: bool)
    ensures
        r == (param_default(type_str@) is Some),
{
    new_param(type_str).is_some()
}

/// Builds a new parameter of the type named `type_str`.
fn new_param(type_str: &str) -> (r: Option<OfxParam>)
    ensures
        match param_default(type_str@) {
            Some(x) => r matches Some(p) && p@ == fresh_param(x) && p.wf(),
            None => r is None,
        },
{
    let r = if str_equals(type_str, "OfxParamTypeInteger") {
        Some(OfxParam::Int1(keyframed(0)))
    } else if str_equals(type_str, "OfxParamTypeDouble") {
        Some(OfxParam::Double1(keyframed(0)))
    } else if str_equals(type_str, "OfxParamTypeBoolean") {
        Some(OfxParam::Boolean(true, OfxPropertySet::new()))
    } else if str_equals(type_str, "OfxParamTypeChoice") {
        Some(OfxParam::Choice(0, OfxPropertySet::new()))
    } else if str_equals(type_str, "OfxParamTypeRGBA") {
        Some(OfxParam::RGBA(keyframed((0, 0, 0, 0))))
    } else if str_equals(type_str, "OfxParamTypeRGB") {
        Some(OfxParam::RGB(keyframed((0, 0, 0))))
    } else if str_equals(type_str, "OfxParamTypeDouble2D") {
        Some(OfxParam::Double2(keyframed((0, 0))))
    } else if str_equals(type_str, "OfxParamTypeInteger2D") {
        Some(OfxParam::Int2(keyframed((0, 0))))
    } else if str_equals(type_str, "OfxParamTypeDouble3D") {
        Some(OfxParam::Double3(keyframed((0, 0, 0))))
    } else if str_equals(type_str, "OfxParamTypeInteger3D") {
        Some(OfxParam::Int3(keyframed((0, 0, 0))))
    } else if str_equals(type_str, "OfxParamTypeString") {
        let v: Vec<u8> = Vec::new();
        Some(OfxParam::String(v, OfxPropertySet::new()))
    } else if str_equals(type_str, "OfxParamTypeCustom") {
        Some(OfxParam::Custom(0, OfxPropertySet::new()))
    } else if str_equals(type_str, "OfxParamTypeGroup") {
        Some(OfxParam::Group(0, OfxPropertySet::new()))
    } else if str_equals(type_str, "OfxParamTypePage") {
        Some(OfxParam::Page(0, OfxPropertySet::new()))
    } else if str_equals(type_str, "OfxParamTypePushButton") {
        Some(OfxParam::PushButton(0, OfxPropertySet::new()))
    } else {
        None
    };
    proof {
        if r is Some {
            assert(r->0@.keyframes =~= Seq::empty());
        }
    }
    r
}

impl OfxParam {
    /// The property set of the parameter is well formed.
    pub open spec fn wf(&self) -> bool {
        match self {
            OfxParam::Int1(k) => k.properties.wf(),
            OfxParam::Int2(k) => k.properties.wf(),
            OfxParam::Int3(k) => k.properties.wf(),
            OfxParam::Double1(k) => k.properties.wf(),
            OfxParam::Double2(k) => k.properties.wf(),
            OfxParam::Double3(k) => k.properties.wf(),
            OfxParam::RGB(k) => k.properties.wf(),
            OfxParam::RGBA(k) => k.properties.wf(),
            OfxParam::String(_, p) => p.wf(),
            OfxParam::Boolean(_, p) => p.wf(),
            OfxParam::Choice(_, p) => p.wf(),
            OfxParam::Custom(_, p) => p.wf(),
            OfxParam::PushButton(_, p) => p.wf(),
            OfxParam::Group(_, p) => p.wf(),
            OfxParam::Page(_, p) => p.wf(),
        }
    }
}

/// The parameters of an image effect, by name, and the property set of the
/// whole.
#[derive(Debug, Clone)]
pub struct OfxParameterSet {
    names: Vec<Vec<u8>>,
    params: Vec<OfxParam>,
    pub propertyset: Box<OfxPropertySet>,
}

impl View for OfxParameterSet {
    type V = Map<Seq<u8>, ParamView>;

    /// The parameters, by name.
    closed spec fn view(&self) -> Map<Seq<u8>, ParamView> {
        Map::new(
            |k: Seq<u8>| exists|i: int| 0 <= i < self.names@.len() && #[trigger] self.names@[i]@ == k,
            |k: Seq<u8>| self.params@[self.position(k)]@,
        )
    }
}

impl OfxParameterSet {
    /// Distinct names, one parameter each, and well-formed property sets.
    pub closed spec fn wf(&self) -> bool {
        &&& self.names@.len() == self.params@.len()
        &&& forall|i: int, j: int|
            0 <= i < self.names@.len() && 0 <= j < self.names@.len() && i != j
                ==> #[trigger] self.names@[i]@ != #[trigger] self.names@[j]@
        &&& forall|i: int| 0 <= i < self.names@.len() ==> is_property_name(#[trigger] self.names@[i]@)
        &&& forall|i: int| 0 <= i < self.params@.len() ==> (#[trigger] self.params@[i]).wf()
        &&& self.propertyset.wf()
    }

    /// The properties of the set as a whole.
    pub closed spec fn set_properties(&self) -> Map<Seq<u8>, Seq<PropertyValueView>> {
        self.propertyset@
    }

    closed spec fn position(self, k: Seq<u8>) -> int {
        choose|i: int| 0 <= i < self.names@.len() && #[trigger] self.names@[i]@ == k
    }

    proof fn lemma_view_at(&self, i: int)
        requires
            self.wf(),
            0 <= i < self.names@.len(),
        ensures
            self@.contains_key(self.names@[i]@),
            self@[self.names@[i]@] == self.params@[i]@,
    {
        let k = self.names@[i]@;
        assert(exists|j: int| 0 <= j < self.names@.len() && #[trigger] self.names@[j]@ == k);
        let p = self.position(k);
        assert(self.names@[p]@ == k);
    }

    /// An empty set of parameters, on the heap.
    pub fn new() -> (r: Box<Self>)
        ensures
            r.wf(),
            r@ == Map::<Seq<u8>, ParamView>::empty(),
            r.set_properties() == Map::<Seq<u8>, Seq<PropertyValueView>>::empty(),
    {
        let r = OfxParameterSet { names: Vec::new(), params: Vec::new(), propertyset: OfxPropertySet::new() };
        assert(r@ =~= Map::<Seq<u8>, ParamView>::empty());
        Box::new(r)
    }

    /// Any set that differs from `self` only in the parameter at `i`
    /// maps that parameter's name to it.
    proof fn lemma_replaced(&self, i: int)
        requires
            self.wf(),
            0 <= i < self.names@.len(),
        ensures
            forall|t: OfxParameterSet|
                t.names@ == self.names@ && t.params@ == self.params@.update(i, t.params@[i])
                    ==> #[trigger] t@ == self@.insert(self.names@[i]@, t.params@[i]@),
            forall|t: OfxParameterSet|
                t.names@ == self.names@ && t.params@ == self.params@.update(i, t.params@[i])
                    && t.propertyset == self.propertyset && t.params@[i].wf() ==> #[trigger] t.wf(),
    {
        assert forall|t: OfxParameterSet|
            t.names@ == self.names@ && t.params@ == self.params@.update(
                i,
                t.params@[i],
            ) implies #[trigger] t@ == self@.insert(self.names@[i]@, t.params@[i]@) by {
            let k = self.names@[i]@;
            let target = t.params@[i]@;
            assert forall|k2: Seq<u8>| #[trigger] t@.contains_key(k2) implies self@.insert(
                k,
                target,
            ).contains_key(k2) && t@[k2] == self@.insert(k, target)[k2] by {
                let j = choose|j: int| 0 <= j < t.names@.len() && #[trigger] t.names@[j]@ == k2;
                let pt = t.position(k2);
                assert(t.names@[pt]@ == k2);
                self.lemma_view_at(j);
                if j != i {
                    assert(pt == j);
                }
            }
            assert forall|k2: Seq<u8>| #[trigger]
                self@.insert(k, target).contains_key(k2) implies t@.contains_key(k2) by {
                if k2 == k {
                    assert(t.names@[i]@ == k);
                } else {
                    let j = choose|j: int| 0 <= j < self.names@.len() && #[trigger] self.names@[j]@ == k2;
                    assert(t.names@[j]@ == k2);
                }
            }
            assert(t@ =~= self@.insert(k, target));
        }
    }

    proof fn lemma_after_push(&self, old_set: OfxParameterSet)
        requires
            old_set.wf(),
            self.names@ == old_set.names@.push(self.names@.last()),
            self.params@ == old_set.params@.push(self.params@.last()),
            self.propertyset == old_set.propertyset,
            !old_set@.contains_key(self.names@.last()@),
            is_property_name(self.names@.last()@),
            self.params@.last().wf(),
        ensures
            self.wf(),
            self@ == old_set@.insert(self.names@.last()@, self.params@.last()@),
    {
        let n = old_set.names@.len() as int;
        let k = self.names@[n]@;
        let target = self.params@[n]@;
        assert forall|i: int, j: int|
            0 <= i < self.names@.len() && 0 <= j < self.names@.len() && i != j implies #[trigger] self.names@[i]@
            != #[trigger] self.names@[j]@ by {
            if i == n {
                old_set.lemma_view_at(j);
            } else if j == n {
                old_set.lemma_view_at(i);
            }
        }
        assert(self.wf());
        assert forall|k2: Seq<u8>| #[trigger] self@.contains_key(k2) implies old_set@.insert(
            k,
            target,
        ).contains_key(k2) && self@[k2] == old_set@.insert(k, target)[k2] by {
            let j = choose|j: int| 0 <= j < self.names@.len() && #[trigger] self.names@[j]@ == k2;
            self.lemma_view_at(j);
            if j < n {
                old_set.lemma_view_at(j);
            }
        }
        assert forall|k2: Seq<u8>| #[trigger]
            old_set@.insert(k, target).contains_key(k2) implies self@.contains_key(k2) by {
            if k2 == k {
                self.lemma_view_at(n);
            } else {
                let j = choose|j: int| 0 <= j < old_set.names@.len() && #[trigger] old_set.names@[j]@ == k2;
                self.lemma_view_at(j);
            }
        }
        assert(self@ =~= old_set@.insert(k, target));
    }

    /// Creates a parameter of the type named `type_str` under the name
    /// `param_name_arg`, and gives back the parameter it replaced. A type
    /// that the host does not know leaves the set unchanged.
    pub fn create_param(&mut self, type_str: &str, param_name_arg: Vec<u8>) -> (r: Option<OfxParam>)
        requires
            old(self).wf(),
            is_property_name(param_name_arg@),
        ensures
            final(self).wf(),
            final(self).set_properties() == old(self).set_properties(),
            match param_default(type_str@) {
                Some(x) => {
                    &&& final(self)@ == old(self)@.insert(param_name_arg@, fresh_param(x))
                    &&& (r is Some <==> old(self)@.contains_key(param_name_arg@))
                    &&& (r matches Some(p) ==> p@ == old(self)@[param_name_arg@])
                },
                None => final(self)@ == old(self)@ && r is None,
            },
    {
        match new_param(type_str) {
            None => None,
            Some(p) => {
                let ghost pv = p@;
                match self.find(param_name_arg.as_slice()) {
                    Some(i) => {
                        proof {
                            self.lemma_view_at(i as int);
                            self.lemma_replaced(i as int);
                        }
                        let mut previous = p;
                        std::mem::swap(&mut previous, &mut self.params[i]);
                        Some(previous)
                    },
                    None => {
                        let ghost old_set = *self;
                        self.names.push(param_name_arg);
                        self.params.push(p);
                        proof {
                            self.lemma_after_push(old_set);
                        }
                        None
                    },
                }
            },
        }
    }

    /// The parameter named `param_name`, to read or change.
    pub fn param_get(&mut self, param_name: &[u8]) -> (r: Option<&mut OfxParam>)
        requires
            old(self).wf(),
        ensures
            r is Some <==> old(self)@.contains_key(param_name@),
            r matches Some(p) ==> {
                &&& (*p)@ == old(self)@[param_name@]
                &&& p.wf()
                &&& final(self)@ == old(self)@.insert(param_name@, (*final(p))@)
                &&& (final(p).wf() ==> final(self).wf())
                &&& final(self).set_properties() == old(self).set_properties()
            },
            r is None ==> *final(self) == *old(self),
    {
        match self.find(param_name) {
            Some(i) => {
                proof {
                    self.lemma_view_at(i as int);
                    self.lemma_replaced(i as int);
                }
                Some(&mut self.params[i])
            },
            None => None,
        }
    }

    /// The parameter named `param_name` and its property set, as the
    /// suites hand them out; neither for a missing parameter.
    pub fn param_and_prop_ptr(&self, param_name: &[u8]) -> (r: (
        Option<&OfxParam>,
        Option<&OfxPropertySet>,
    ))
        requires
            self.wf(),
        ensures
            r.0 is Some <==> self@.contains_key(param_name@),
            r.0 matches Some(p) ==> p@ == self@[param_name@],
            r.1 is Some <==> (self@.contains_key(param_name@) && !(self@[param_name@].value is Choice
                || self@[param_name@].value is PushButton)),
            r.1 matches Some(ps) ==> ps@ == self@[param_name@].properties,
    {
        match self.find(param_name) {
            Some(i) => {
                proof {
                    self.lemma_view_at(i as int);
                }
                let p = &self.params[i];
                (Some(p), p.properties())
            },
            None => (None, None),
        }
    }

    fn find(&self, name: &[u8]) -> (r: Option<usize>)
        requires
            self.wf(),
        ensures
            match r {
                Some(i) => i < self.names@.len() && self.names@[i as int]@ == name@,
                None => !self@.contains_key(name@),
            },
    {
        let mut i: usize = 0;
        while i < self.names.len()
            invariant
                0 <= i <= self.names@.len(),
                forall|j: int| 0 <= j < i ==> #[trigger] self.names@[j]@ != name@,
            decreases self.names@.len() - i,
        {
            if bytes_eq(self.names[i].as_slice(), name) {
                return Some(i);
            }
            i = i + 1;
        }
        None
    }
}

/// A one-component integer parameter reads back the value last set.
pub proof fn lemma_int1_set_then_get(v: ParamView, x: i32, r: i32)
    requires
        with_value(v, ParamValue::Int1(x)).value == ParamValue::Int1(r),
    ensures
        r == x,
{
}

/// A two-component integer parameter reads back the two values last set;
/// a one-component one reads back the first and 0.
pub proof fn lemma_int2_set_then_get(v: ParamView, v1: i32, v2: i32, r: Seq<i32>)
    requires
        is_int1_or_int2(v.value),
        match (if v.value is Int1 {
            ParamValue::Int1(v1)
        } else {
            ParamValue::Int2(v1, v2)
        }) {
            ParamValue::Int1(a) => r == seq![a, 0i32],
            ParamValue::Int2(a, b) => r == seq![a, b],
            _ => false,
        },
    ensures
        v.value is Int2 ==> r == seq![v1, v2],
        v.value is Int1 ==> r == seq![v1, 0i32],
{
}

/// Setting a value keeps the properties and the key frames of a
/// parameter.
pub proof fn lemma_set_keeps_the_rest(v: ParamView, x: ParamValue)
    ensures
        with_value(v, x).properties == v.properties,
        with_value(v, x).keyframes == v.keyframes,
        with_value(v, x).value == x,
{
}

/// A parameter just created under a name is found under it, holding the
/// starting value of its type, with no properties and no key frames.
pub proof fn lemma_create_then_get(m: Map<Seq<u8>, ParamView>, name: Seq<u8>, t: Seq<char>)
    requires
        param_default(t) is Some,
    ensures
        m.insert(name, fresh_param(param_default(t)->0)).contains_key(name),
        m.insert(name, fresh_param(param_default(t)->0))[name].value == param_default(t)->0,
        m.insert(name, fresh_param(param_default(t)->0))[name].properties.is_empty(),
        m.insert(name, fresh_param(param_default(t)->0))[name].keyframes.len() == 0,
{
    assert(Map::<Seq<u8>, Seq<PropertyValueView>>::empty().dom() =~= Set::empty());
}

} // verus!
