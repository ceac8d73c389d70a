//! The property suite: setting and reading the properties of a set.
//!
//! The suite's functions receive raw handles; what a null handle gets is
//! decided where the handles are turned into references, and the rest is
//! decided here.
use vstd::prelude::*;
use crate::rfx::propertyset::{OfxPropertySet, PropertyValue, PropertyValueView, is_property_name, store_at, values_view};
use crate::suites::ofxcore::{OfxStatus, kOfxStatOK, kOfxStatErrBadIndex};

verus! {

/// The values of `property` in the set `m`, none for a missing property.
pub open spec fn values_of(m: Map<Seq<u8>, Seq<PropertyValueView>>, property: Seq<u8>) -> Seq<PropertyValueView> {
    if m.contains_key(property) {
        m[property]
    } else {
        Seq::empty()
    }
}

/// `vals` after storing `new` at its first positions.
pub open spec fn store_all(vals: Seq<PropertyValueView>, new: Seq<PropertyValueView>) -> Seq<PropertyValueView> {
    if new.len() < vals.len() {
        new + vals.skip(new.len() as int)
    } else {
        new
    }
}

proof fn lemma_store_all_push(vals: Seq<PropertyValueView>, p: Seq<PropertyValueView>, v: PropertyValueView)
    ensures
        store_at(store_all(vals, p), p.len() as int, v) == store_all(vals, p.push(v)),
{
    assert(store_at(store_all(vals, p), p.len() as int, v) =~= store_all(vals, p.push(v)));
}

/// Stores `value` at position `index` of `property`; a negative index is
/// refused with `kOfxStatErrBadIndex`.
pub fn insert_property(
    properties: &mut OfxPropertySet,
    property: Vec<u8>,
    index: i32,
    value: PropertyValue,
) -> (r: OfxStatus)
    requires
        old(properties).wf(),
        is_property_name(property@),
    ensures
        final(properties).wf(),
        index < 0 ==> r == kOfxStatErrBadIndex && final(properties)@ == old(properties)@,
        index >= 0 ==> r == kOfxStatOK && final(properties)@ == old(properties)@.insert(
            property@,
            store_at(values_of(old(properties)@, property@), index as int, value@),
        ),
{
    if index < 0 {
        return kOfxStatErrBadIndex;
    }
    let uindex = index as usize;
    properties.insert(property, uindex, value);
    kOfxStatOK
}

/// Stores `values` at the first positions of `property`; a negative count
/// is refused with `kOfxStatErrBadIndex`, and a count of zero changes
/// nothing.
pub fn insert_property_multiple(
    properties: &mut OfxPropertySet,
    property: Vec<u8>,
    count: i32,
    values: &[PropertyValue],
) -> (r: OfxStatus)
    requires
        old(properties).wf(),
        is_property_name(property@),
        count < 0 || values@.len() == count,
    ensures
        final(properties).wf(),
        count < 0 ==> r == kOfxStatErrBadIndex && final(properties)@ == old(properties)@,
        count == 0 ==> r == kOfxStatOK && final(properties)@ == old(properties)@,
        count > 0 ==> r == kOfxStatOK && final(properties)@ == old(properties)@.insert(
            property@,
            store_all(values_of(old(properties)@, property@), values_view(values@)),
        ),
{
    if count < 0 {
        return kOfxStatErrBadIndex;
    }
    let n = count as usize;
    let ghost old_map = properties@;
    let ghost old_vals = values_of(old_map, property@);
    let ghost all = values_view(values@);
    let mut i: usize = 0;
    while i < n
        invariant
            properties.wf(),
            is_property_name(property@),
            n == values@.len(),
            i <= n,
            all == values_view(values@),
            old_vals == values_of(old_map, property@),
            i == 0 ==> properties@ == old_map,
            i > 0 ==> properties@ == old_map.insert(property@, store_all(old_vals, all.take(i as int))),
        decreases n - i,
    {
        let ghost before = properties@;
        let key = property.clone();
        assert(key@ =~= property@);
        let v = values[i].copy();
        properties.insert(key, i, v);
        proof {
            let cur = values_of(before, property@);
            if i == 0 {
                assert(store_all(old_vals, all.take(0)) =~= old_vals);
            } else {
                assert(before.contains_key(property@));
                assert(before[property@] == store_all(old_vals, all.take(i as int)));
            }
            assert(cur == store_all(old_vals, all.take(i as int)));
            lemma_store_all_push(old_vals, all.take(i as int), all[i as int]);
            assert(all.take(i as int).push(all[i as int]) =~= all.take(i + 1));
            assert(properties@ =~= old_map.insert(property@, store_all(old_vals, all.take(i + 1))));
        }
        i = i + 1;
    }
    assert(all.take(n as int) =~= all);
    kOfxStatOK
}

/// The value at position `index` of `property`; `kOfxStatErrBadIndex` for
/// a negative index, a missing property or a position past its values.
pub fn get_property<'a>(properties: &'a OfxPropertySet, property: &[u8], index: i32) -> (r: Result<
    &'a PropertyValue,
    OfxStatus,
>)
    requires
        properties.wf(),
    ensures
        r is Ok <==> (index >= 0 && index < values_of(properties@, property@).len()),
        r matches Ok(v) ==> v@ == properties@[property@][index as int],
        r matches Err(e) ==> e == kOfxStatErrBadIndex,
{
    if index < 0 {
        return Err(kOfxStatErrBadIndex);
    }
    match properties.get(property, index as usize) {
        Some(v) => Ok(v),
        None => Err(kOfxStatErrBadIndex),
    }
}

/// The values at the first `count` positions of `property`, read in
/// order until one is missing. With them comes `kOfxStatOK` if all were
/// read, else `kOfxStatErrBadIndex`; a negative count reads nothing.
pub fn get_property_multiple(properties: &OfxPropertySet, property: &[u8], count: i32) -> (r: (
    OfxStatus,
    Vec<PropertyValue>,
))
    requires
        properties.wf(),
    ensures
        ({
            let vals = values_of(properties@, property@);
            &&& count < 0 ==> r.0 == kOfxStatErrBadIndex && r.1@.len() == 0
            &&& count >= 0 && count <= vals.len() ==> r.0 == kOfxStatOK && values_view(r.1@)
                == vals.take(count as int)
            &&& count >= 0 && count > vals.len() ==> r.0 == kOfxStatErrBadIndex && values_view(r.1@)
                == vals
        }),
{
    let mut out: Vec<PropertyValue> = Vec::new();
    if count < 0 {
        return (kOfxStatErrBadIndex, out);
    }
    let ghost vals = values_of(properties@, property@);
    let n = count as usize;
    let mut i: usize = 0;
    while i < n
        invariant
            properties.wf(),
            vals == values_of(properties@, property@),
            i <= n,
            n == count,
            i <= vals.len(),
            values_view(out@) == vals.take(i as int),
        decreases n - i,
    {
        match properties.get(property, i) {
            Some(v) => {
                let c = v.copy();
                let ghost prev = out@;
                out.push(c);
                assert(c@ == vals[i as int]);
                assert(out@ == prev.push(c));
                assert(values_view(out@) =~= values_view(prev).push(c@));
                assert(vals.take(i + 1) =~= vals.take(i as int).push(vals[i as int]));
            },
            None => {
                assert(vals.take(i as int) =~= vals);
                return (kOfxStatErrBadIndex, out);
            },
        }
        i = i + 1;
    }
    (kOfxStatOK, out)
}

/// The number of values of `property`, as a C int; `kOfxStatErrBadIndex`
/// for a missing property.
pub fn prop_get_dimension_func(properties: &OfxPropertySet, property: &[u8]) -> (r: Result<
    i32,
    OfxStatus,
>)
    requires
        properties.wf(),
    ensures
        r is Ok <==> properties@.contains_key(property@),
        r matches Ok(d) ==> d == properties@[property@].len() as i32,
        r matches Err(e) ==> e == kOfxStatErrBadIndex,
{
    match properties.dimension(property) {
        Some(len) => Ok(len as i32),
        None => Err(kOfxStatErrBadIndex),
    }
}

/// After a value is set at a position of a property, reading that
/// position gives the value back, and every other property is unchanged.
pub proof fn lemma_set_then_get(
    m: Map<Seq<u8>, Seq<PropertyValueView>>,
    property: Seq<u8>,
    index: int,
    v: PropertyValueView,
)
    requires
        index >= 0,
    ensures
        ({
            let m2 = m.insert(property, store_at(values_of(m, property), index, v));
            &&& index < values_of(m2, property).len()
            &&& m2[property][index] == v
            &&& forall|k: Seq<u8>| k != property ==> (#[trigger] m2.contains_key(k) == m.contains_key(k)
                && (m.contains_key(k) ==> m2[k] == m[k]))
        }),
{
    crate::rfx::propertyset::lemma_store_at_reads_back(values_of(m, property), index, v);
}

/// After values are set at the first positions of a property, reading as
/// many positions gives them back.
pub proof fn lemma_set_multiple_then_get_multiple(
    m: Map<Seq<u8>, Seq<PropertyValueView>>,
    property: Seq<u8>,
    new: Seq<PropertyValueView>,
)
    requires
        new.len() > 0,
    ensures
        ({
            let m2 = m.insert(property, store_all(values_of(m, property), new));
            &&& new.len() <= values_of(m2, property).len()
            &&& values_of(m2, property).take(new.len() as int) == new
        }),
{
    let vals = values_of(m, property);
    assert(store_all(vals, new).take(new.len() as int) =~= new);
}

} // verus!
