//! Property sets: the named, indexed values that the host and the plug-ins
//! exchange.
//!
//! A property set maps a name (the bytes of a C string, without its
//! terminator) to a vector of values. Plug-ins reach a set through an
//! opaque handle; the set itself is plain data.
use vstd::prelude::*;
use vstd::std_specs::cmp::PartialEqSpecImpl;

verus! {

/// Whether two byte strings are equal.
pub fn bytes_eq(a: &[u8], b: &[u8]) -> (r: bool)
    ensures
        r == (a@ == b@),
{
    if a.len() != b.len() {
        return false;
    }
    let mut i: usize = 0;
    while i < a.len()
        invariant
            a@.len() == b@.len(),
            0 <= i <= a@.len(),
            forall|j: int| 0 <= j < i ==> a@[j] == b@[j],
        decreases a@.len() - i,
    {
        if a[i] != b[i] {
            return false;
        }
        i = i + 1;
    }
    assert(a@ =~= b@);
    true
}

/// Whether the bits of a 64-bit float encode NaN.
pub open spec fn is_nan_bits(x: u64) -> bool {
    (x & 0x7ff0_0000_0000_0000u64) == 0x7ff0_0000_0000_0000u64 && (x & 0x000f_ffff_ffff_ffffu64)
        != 0
}

/// Whether the bits of a 64-bit float encode zero, of either sign.
pub open spec fn is_zero_bits(x: u64) -> bool {
    (x & 0x7fff_ffff_ffff_ffffu64) == 0
}

/// IEEE equality of two 64-bit floats given by their bits: NaN equals
/// nothing, the two zeros are equal, other values are equal when their bits
/// are.
pub open spec fn float_bits_eq(a: u64, b: u64) -> bool {
    !is_nan_bits(a) && !is_nan_bits(b) && (a == b || (is_zero_bits(a) && is_zero_bits(b)))
}

/// IEEE equality of two 64-bit floats given by their bits.
pub fn float_bits_equal(a: u64, b: u64) -> (r: bool)
    ensures
        r == float_bits_eq(a, b),
{
    let a_nan = (a & 0x7ff0_0000_0000_0000u64) == 0x7ff0_0000_0000_0000u64 && (a
        & 0x000f_ffff_ffff_ffffu64) != 0;
    let b_nan = (b & 0x7ff0_0000_0000_0000u64) == 0x7ff0_0000_0000_0000u64 && (b
        & 0x000f_ffff_ffff_ffffu64) != 0;
    let a_zero = (a & 0x7fff_ffff_ffff_ffffu64) == 0;
    let b_zero = (b & 0x7fff_ffff_ffff_ffffu64) == 0;
    !a_nan && !b_nan && (a == b || (a_zero && b_zero))
}

/// A property value: a pointer (by its address), an integer, a double (by
/// its bits), a string (its bytes, without the terminating zero), or a
/// value not yet set.
#[derive(Debug, Clone)]
pub enum PropertyValue {
    Pointer(usize),
    Integer(i32),
    Double(u64),
    String(Vec<u8>),
    Undefined,
}

/// What a property value holds.
pub enum PropertyValueView {
    Pointer(usize),
    Integer(i32),
    Double(u64),
    String(Seq<u8>),
    Undefined,
}

impl View for PropertyValue {
    type V = PropertyValueView;

    open spec fn view(&self) -> PropertyValueView {
        match self {
            PropertyValue::Pointer(p) => PropertyValueView::Pointer(*p),
            PropertyValue::Integer(i) => PropertyValueView::Integer(*i),
            PropertyValue::Double(d) => PropertyValueView::Double(*d),
            PropertyValue::String(s) => PropertyValueView::String(s@),
            PropertyValue::Undefined => PropertyValueView::Undefined,
        }
    }
}

impl PropertyValue {
    /// A copy of the value.
    pub fn copy(&self) -> (r: Self)
        ensures
            r@ == self@,
    {
        match self {
            PropertyValue::Pointer(p) => PropertyValue::Pointer(*p),
            PropertyValue::Integer(i) => PropertyValue::Integer(*i),
            PropertyValue::Double(d) => PropertyValue::Double(*d),
            PropertyValue::String(s) => {
                let c = s.clone();
                assert(c@ =~= s@);
                PropertyValue::String(c)
            },
            PropertyValue::Undefined => PropertyValue::Undefined,
        }
    }
}

/// Reading a property value as a value of type `T`.
pub trait ToOfxProperty<T>: Sized {
    /// Whether the value is of the kind that reads as a `T`.
    spec fn holds_kind(&self) -> bool;

    /// The `T` that the value reads as.
    spec fn read_as(&self) -> T;

    /// The value as a `T`.
    fn from_ref(&self) -> (r: T)
        requires
            self.holds_kind(),
        ensures
            r == self.read_as(),
    ;
}

impl ToOfxProperty<usize> for PropertyValue {
    open spec fn holds_kind(&self) -> bool {
        self is Pointer
    }

    open spec fn read_as(&self) -> usize {
        self->Pointer_0
    }

    /// The address held by a pointer value.
    fn from_ref(&self) -> (r: usize) {
        match self {
            PropertyValue::Pointer(p) => *p,
            _ => 0,
        }
    }
}

impl ToOfxProperty<i32> for PropertyValue {
    open spec fn holds_kind(&self) -> bool {
        self is Integer
    }

    open spec fn read_as(&self) -> i32 {
        self->Integer_0
    }

    /// The integer held by an integer value.
    fn from_ref(&self) -> (r: i32) {
        match self {
            PropertyValue::Integer(i) => *i,
            _ => 0,
        }
    }
}

impl ToOfxProperty<u64> for PropertyValue {
    open spec fn holds_kind(&self) -> bool {
        self is Double
    }

    open spec fn read_as(&self) -> u64 {
        self->Double_0
    }

    /// The bits of the double held by a double value.
    fn from_ref(&self) -> (r: u64) {
        match self {
            PropertyValue::Double(d) => *d,
            _ => 0,
        }
    }
}

/// When two property values are equal: strings by their bytes, integers
/// and pointers by value, doubles as IEEE numbers; values of different
/// kinds, and two undefined values, are not equal.
pub open spec fn property_values_eq(a: PropertyValueView, b: PropertyValueView) -> bool {
    match (a, b) {
        (PropertyValueView::String(x), PropertyValueView::String(y)) => x == y,
        (PropertyValueView::Integer(x), PropertyValueView::Integer(y)) => x == y,
        (PropertyValueView::Double(x), PropertyValueView::Double(y)) => float_bits_eq(x, y),
        (PropertyValueView::Pointer(x), PropertyValueView::Pointer(y)) => x == y,
        _ => false,
    }
}

impl PartialEq for PropertyValue {
    fn eq(&self, other: &Self) -> (r: bool) {
        match (self, other) {
            (PropertyValue::String(x), PropertyValue::String(y)) => bytes_eq(x.as_slice(), y.as_slice()),
            (PropertyValue::Integer(x), PropertyValue::Integer(y)) => *x == *y,
            (PropertyValue::Double(x), PropertyValue::Double(y)) => float_bits_equal(*x, *y),
            (PropertyValue::Pointer(x), PropertyValue::Pointer(y)) => *x == *y,
            _ => false,
        }
    }
}

impl PartialEqSpecImpl for PropertyValue {
    open spec fn obeys_eq_spec() -> bool {
        true
    }

    open spec fn eq_spec(&self, other: &PropertyValue) -> bool {
        property_values_eq(self@, other@)
    }
}

/// The views of a sequence of property values.
pub open spec fn values_view(s: Seq<PropertyValue>) -> Seq<PropertyValueView> {
    s.map_values(|v: PropertyValue| v@)
}

/// `vals` after storing `v` at `index`: a shorter vector is first extended
/// with undefined values.
pub open spec fn store_at(vals: Seq<PropertyValueView>, index: int, v: PropertyValueView) -> Seq<
    PropertyValueView,
> {
    let padded = if index < vals.len() {
        vals
    } else {
        vals + Seq::new((index + 1 - vals.len()) as nat, |i: int| PropertyValueView::Undefined)
    };
    padded.update(index, v)
}

/// A value stored at a position reads back from it; the other positions
/// keep their values, and the positions added on the way are undefined.
pub proof fn lemma_store_at_reads_back(vals: Seq<PropertyValueView>, index: int, v: PropertyValueView)
    requires
        index >= 0,
    ensures
        store_at(vals, index, v).len() == if index < vals.len() {
            vals.len() as int
        } else {
            index + 1
        },
        store_at(vals, index, v)[index] == v,
        forall|j: int| 0 <= j < vals.len() && j != index ==> #[trigger] store_at(vals, index, v)[j] == vals[j],
        forall|j: int| vals.len() <= j < index ==> #[trigger] store_at(vals, index, v)[j] == PropertyValueView::Undefined,
{
}

/// Equality of property values does not depend on the order of the two.
pub proof fn lemma_property_values_eq_symmetric(a: PropertyValueView, b: PropertyValueView)
    ensures
        property_values_eq(a, b) == property_values_eq(b, a),
{
}

/// A property name: the bytes of a C string, which hold no zero.
pub open spec fn is_property_name(key: Seq<u8>) -> bool {
    forall|i: int| 0 <= i < key.len() ==> key[i] != 0
}

/// A set of properties. For each name it stores a vector of values.
#[derive(Debug, Clone)]
pub struct OfxPropertySet {
    keys: Vec<Vec<u8>>,
    values: Vec<Vec<PropertyValue>>,
}

impl View for OfxPropertySet {
    type V = Map<Seq<u8>, Seq<PropertyValueView>>;

    /// The values of each name.
    closed spec fn view(&self) -> Map<Seq<u8>, Seq<PropertyValueView>> {
        Map::new(
            |k: Seq<u8>| exists|i: int| 0 <= i < self.keys@.len() && #[trigger] self.keys@[i]@ == k,
            |k: Seq<u8>| values_view(self.values@[self.position(k)]@),
        )
    }
}

impl OfxPropertySet {
    /// The names are distinct C-string contents, one vector of values each.
    pub closed spec fn wf(&self) -> bool {
        &&& self.keys@.len() == self.values@.len()
        &&& forall|i: int, j: int|
            0 <= i < self.keys@.len() && 0 <= j < self.keys@.len() && i != j
                ==> #[trigger] self.keys@[i]@ != #[trigger] self.keys@[j]@
        &&& forall|i: int| 0 <= i < self.keys@.len() ==> is_property_name(#[trigger] self.keys@[i]@)
    }

    /// The position of the name `k` in the set.
    closed spec fn position(self, k: Seq<u8>) -> int {
        choose|i: int| 0 <= i < self.keys@.len() && #[trigger] self.keys@[i]@ == k
    }


    proof fn lemma_view_at(&self, i: int)
        requires
            self.wf(),
            0 <= i < self.keys@.len(),
        ensures
            self@.contains_key(self.keys@[i]@),
            self@[self.keys@[i]@] == values_view(self.values@[i]@),
    {
        let k = self.keys@[i]@;
        assert(exists|j: int| 0 <= j < self.keys@.len() && #[trigger] self.keys@[j]@ == k);
        let p = self.position(k);
        assert(self.keys@[p]@ == k);
    }

    proof fn lemma_view_entries(&self)
        requires
            self.wf(),
        ensures
            forall|j: int|
                0 <= j < self.keys@.len() ==> self@.contains_key(#[trigger] self.keys@[j]@)
                    && self@[self.keys@[j]@] == values_view(self.values@[j]@),
            forall|k2: Seq<u8>| #[trigger]
                self@.contains_key(k2) ==> exists|j: int|
                    0 <= j < self.keys@.len() && #[trigger] self.keys@[j]@ == k2,
    {
        assert forall|j: int| 0 <= j < self.keys@.len() implies self@.contains_key(
            #[trigger] self.keys@[j]@,
        ) && self@[self.keys@[j]@] == values_view(self.values@[j]@) by {
            self.lemma_view_at(j);
        }
    }

    /// An empty set, on the heap.
    pub fn new() -> (r: Box<Self>)
        ensures
            r.wf(),
            r@ == Map::<Seq<u8>, Seq<PropertyValueView>>::empty(),
    {
        let r = OfxPropertySet { keys: Vec::new(), values: Vec::new() };
        assert(r@ =~= Map::<Seq<u8>, Seq<PropertyValueView>>::empty());
        Box::new(r)
    }

    fn find(&self, key: &[u8]) -> (r: Option<usize>)
        requires
            self.wf(),
        ensures
            match r {
                Some(i) => i < self.keys@.len() && self.keys@[i as int]@ == key@,
                None => !self@.contains_key(key@),
            },
    {
        let mut i: usize = 0;
        while i < self.keys.len()
            invariant
                0 <= i <= self.keys@.len(),
                forall|j: int| 0 <= j < i ==> #[trigger] self.keys@[j]@ != key@,
            decreases self.keys@.len() - i,
        {
            if bytes_eq(self.keys[i].as_slice(), key) {
                return Some(i);
            }
            i = i + 1;
        }
        None
    }

    /// Stores `value` at position `index` of the property `key`. A missing
    /// property is created; a vector shorter than `index + 1` is first
    /// extended with undefined values.
    pub fn insert(&mut self, key: Vec<u8>, index: usize, value: PropertyValue)
        requires
            old(self).wf(),
            is_property_name(key@),
            index < usize::MAX,
        ensures
            final(self).wf(),
            final(self)@ == old(self)@.insert(
                key@,
                store_at(
                    if old(self)@.contains_key(key@) {
                        old(self)@[key@]
                    } else {
                        Seq::empty()
                    },
                    index as int,
                    value@,
                ),
            ),
    {
        let ghost old_view = self@;
        let ghost value_view = value@;
        proof {
            self.lemma_view_entries();
        }
        match self.find(key.as_slice()) {
            Some(i) => {
                proof {
                    self.lemma_view_at(i as int);
                }
                let mut vals: Vec<PropertyValue> = Vec::new();
                std::mem::swap(&mut vals, &mut self.values[i]);
                let ghost old_vals = values_view(vals@);
                proof {
                    assert(old_vals == old_view[key@]);
                }
                let ghost target = store_at(old_vals, index as int, value_view);
                Self::store_in(&mut vals, index, value);
                self.values.set(i, vals);
                proof {
                    assert(values_view(self.values@[i as int]@) == target);
                    self.lemma_after_update(old_view, i as int, key@, target);
                }
            },
            None => {
                let mut vals: Vec<PropertyValue> = Vec::new();
                let ghost target = store_at(Seq::empty(), index as int, value_view);
                assert(values_view(vals@) =~= Seq::<PropertyValueView>::empty());
                Self::store_in(&mut vals, index, value);
                let ghost old_keys = self.keys@;
                let ghost old_values = self.values@;
                self.keys.push(key);
                self.values.push(vals);
                proof {
                    assert(self.keys@.subrange(0, old_keys.len() as int) =~= old_keys);
                    assert(self.values@.subrange(0, old_values.len() as int) =~= old_values);
                    self.lemma_after_push(old_view, old_keys, old_values, target);
                }
            },
        }
    }

    /// Stores `value` at `index` in `vals`, extending it with undefined
    /// values as needed.
    fn store_in(vals: &mut Vec<PropertyValue>, index: usize, value: PropertyValue)
        requires
            index < usize::MAX,
        ensures
            values_view(final(vals)@) == store_at(values_view(old(vals)@), index as int, value@),
    {
        let ghost old_view = values_view(vals@);
        let ghost v = value@;
        while vals.len() <= index
            invariant
                index < usize::MAX,
                vals@.len() <= index + 1 || vals@.len() == old_view.len(),
                old_view.len() <= vals@.len(),
                values_view(vals@).subrange(0, old_view.len() as int) == old_view,
                forall|j: int| old_view.len() <= j < vals@.len() ==> #[trigger] vals@[j]@
                    == PropertyValueView::Undefined,
            decreases index + 1 - vals@.len() + old_view.len(),
        {
            let ghost before = vals@;
            vals.push(PropertyValue::Undefined);
            assert(values_view(vals@).subrange(0, old_view.len() as int) =~= values_view(
                before,
            ).subrange(0, old_view.len() as int));
        }
        vals.set(index, value);
        proof {
            let padded = if (index as int) < old_view.len() {
                old_view
            } else {
                old_view + Seq::new(
                    (index + 1 - old_view.len()) as nat,
                    |i: int| PropertyValueView::Undefined,
                )
            };
            assert(values_view(vals@) =~= padded.update(index as int, v));
        }
    }

    proof fn lemma_after_update(
        &self,
        old_view: Map<Seq<u8>, Seq<PropertyValueView>>,
        i: int,
        k: Seq<u8>,
        target: Seq<PropertyValueView>,
    )
        requires
            self.wf(),
            0 <= i < self.keys@.len(),
            self.keys@[i]@ == k,
            values_view(self.values@[i]@) == target,
            forall|j: int|
                0 <= j < self.keys@.len() && j != i ==> old_view.contains_key(
                    #[trigger] self.keys@[j]@,
                ) && old_view[self.keys@[j]@] == values_view(self.values@[j]@),
            forall|k2: Seq<u8>| #[trigger]
                old_view.contains_key(k2) ==> exists|j: int|
                    0 <= j < self.keys@.len() && #[trigger] self.keys@[j]@ == k2,
        ensures
            self@ == old_view.insert(k, target),
    {
        assert forall|k2: Seq<u8>| #[trigger] self@.contains_key(k2) implies old_view.insert(
            k,
            target,
        ).contains_key(k2) && self@[k2] == old_view.insert(k, target)[k2] by {
            let j = choose|j: int| 0 <= j < self.keys@.len() && #[trigger] self.keys@[j]@ == k2;
            self.lemma_view_at(j);
        }
        assert forall|k2: Seq<u8>| #[trigger]
            old_view.insert(k, target).contains_key(k2) implies self@.contains_key(k2) by {
            if k2 == k {
                self.lemma_view_at(i);
            } else {
                let j = choose|j: int| 0 <= j < self.keys@.len() && #[trigger] self.keys@[j]@ == k2;
                self.lemma_view_at(j);
            }
        }
        assert(self@ =~= old_view.insert(k, target));
    }

    proof fn lemma_after_push(
        &self,
        old_view: Map<Seq<u8>, Seq<PropertyValueView>>,
        old_keys: Seq<Vec<u8>>,
        old_values: Seq<Vec<PropertyValue>>,
        target: Seq<PropertyValueView>,
    )
        requires
            self.keys@.len() == old_keys.len() + 1,
            self.keys@.subrange(0, old_keys.len() as int) == old_keys,
            self.values@.len() == old_values.len() + 1,
            self.values@.subrange(0, old_values.len() as int) == old_values,
            values_view(self.values@[old_keys.len() as int]@) == target,
            old_keys.len() == old_values.len(),
            !old_view.contains_key(self.keys@[old_keys.len() as int]@),
            is_property_name(self.keys@[old_keys.len() as int]@),
            forall|i: int, j: int|
                0 <= i < old_keys.len() && 0 <= j < old_keys.len() && i != j ==> #[trigger] old_keys[i]@
                    != #[trigger] old_keys[j]@,
            forall|i: int| 0 <= i < old_keys.len() ==> is_property_name(#[trigger] old_keys[i]@),
            forall|j: int|
                0 <= j < old_keys.len() ==> old_view.contains_key(#[trigger] old_keys[j]@)
                    && old_view[old_keys[j]@] == values_view(old_values[j]@),
            forall|k2: Seq<u8>| #[trigger]
                old_view.contains_key(k2) ==> exists|j: int|
                    0 <= j < old_keys.len() && #[trigger] old_keys[j]@ == k2,
        ensures
            self.wf(),
            self@ == old_view.insert(self.keys@[old_keys.len() as int]@, target),
    {
        let n = old_keys.len() as int;
        let k = self.keys@[n]@;
        assert forall|j: int| 0 <= j < n implies #[trigger] self.keys@[j] == old_keys[j] by {
            assert(self.keys@.subrange(0, n)[j] == self.keys@[j]);
        }
        assert forall|j: int| 0 <= j < n implies #[trigger] self.values@[j] == old_values[j] by {
            assert(self.values@.subrange(0, n)[j] == self.values@[j]);
        }
        assert forall|i: int, j: int|
            0 <= i < self.keys@.len() && 0 <= j < self.keys@.len() && i != j implies #[trigger] self.keys@[i]@
            != #[trigger] self.keys@[j]@ by {
            if i == n {
                assert(old_view.contains_key(old_keys[j]@));
            } else if j == n {
                assert(old_view.contains_key(old_keys[i]@));
            }
        }
        assert(self.wf());
        assert forall|k2: Seq<u8>| #[trigger] self@.contains_key(k2) implies old_view.insert(
            k,
            target,
        ).contains_key(k2) && self@[k2] == old_view.insert(k, target)[k2] by {
            let j = choose|j: int| 0 <= j < self.keys@.len() && #[trigger] self.keys@[j]@ == k2;
            self.lemma_view_at(j);
        }
        assert forall|k2: Seq<u8>| #[trigger]
            old_view.insert(k, target).contains_key(k2) implies self@.contains_key(k2) by {
            if k2 == k {
                self.lemma_view_at(n);
            } else {
                let j = choose|j: int| 0 <= j < old_keys.len() && #[trigger] old_keys[j]@ == k2;
                self.lemma_view_at(j);
            }
        }
        assert(self@ =~= old_view.insert(k, target));
    }

    /// The value at position `index` of the property `key`, if the property
    /// exists and holds that many values.
    pub fn get(&self, key: &[u8], index: usize) -> (r: Option<&PropertyValue>)
        requires
            self.wf(),
        ensures
            r is Some <==> (self@.contains_key(key@) && index < self@[key@].len()),
            r matches Some(v) ==> v@ == self@[key@][index as int],
    {
        match self.find(key) {
            Some(i) => {
                proof {
                    self.lemma_view_at(i as int);
                }
                if index < self.values[i].len() {
                    Some(&self.values[i][index])
                } else {
                    None
                }
            },
            None => None,
        }
    }

    /// The number of values of the property `key`, if it exists.
    pub fn dimension(&self, key: &[u8]) -> (r: Option<usize>)
        requires
            self.wf(),
        ensures
            r is Some <==> self@.contains_key(key@),
            r matches Some(n) ==> n == self@[key@].len(),
    {
        match self.find(key) {
            Some(i) => {
                proof {
                    self.lemma_view_at(i as int);
                }
                Some(self.values[i].len())
            },
            None => None,
        }
    }
}

} // verus!
