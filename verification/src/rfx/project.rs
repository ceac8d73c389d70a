//! Projects: the graph of image-effect nodes, and the unique names of the
//! nodes.
//!
//! A node is named after its plug-in; when the name is taken, a number is
//! added after a `.`, or the number already there is raised by one:
//! `Blur` becomes `Blur.1`, `Gain.1` becomes `Gain.2`.
use vstd::prelude::*;
use vstd::string::*;
use crate::numbers::{is_digit, all_digits, digits_value, strip_sign, spec_parse_i32, parse_i32_range};
use crate::text::{chars_of, substring};
use crate::rfx::effectnode::EffectNode;
use crate::keyed::{keyed_map, lemma_keyed_at, lemma_keyed_empty, lemma_keyed_len, lemma_keyed_push, lemma_keyed_update};

verus! {

broadcast use vstd::string::group_string_axioms;

/// A node of the graph: an image effect.
pub type Node = EffectNode;

/// The name of a node in a project.
pub type NodeHandle = String;

/// The name of a clip of a node.
pub type ClipHandle = String;

/// An input of a node: the node and its clip.
pub type NodeInput = (NodeHandle, ClipHandle);

/// An output of a node: the node.
pub type NodeOutput = NodeHandle;

/// The character of a decimal digit.
pub open spec fn digit_char(d: int) -> char {
    if d == 0 {
        '0'
    } else if d == 1 {
        '1'
    } else if d == 2 {
        '2'
    } else if d == 3 {
        '3'
    } else if d == 4 {
        '4'
    } else if d == 5 {
        '5'
    } else if d == 6 {
        '6'
    } else if d == 7 {
        '7'
    } else if d == 8 {
        '8'
    } else {
        '9'
    }
}

/// The decimal writing of `n`, without leading zeros.
pub open spec fn decimal(n: nat) -> Seq<char>
    decreases n,
{
    if n < 10 {
        seq![digit_char(n as int)]
    } else {
        decimal(n / 10).push(digit_char((n % 10) as int))
    }
}

/// The decimal writing of `n`, with a `-` before a negative number.
pub open spec fn signed_decimal(n: int) -> Seq<char> {
    if n < 0 {
        seq!['-'] + decimal((-n) as nat)
    } else {
        decimal(n as nat)
    }
}

/// The position of the last `.` in `s`.
pub open spec fn last_dot(s: Seq<char>) -> Option<int>
    decreases s.len(),
{
    if s.len() == 0 {
        None
    } else if s.last() == '.' {
        Some(s.len() - 1)
    } else {
        last_dot(s.drop_last())
    }
}

/// The number written after the last `.` of a name, if there is a `.`
/// and what follows it reads as a 32-bit integer.
pub open spec fn suffix_number(id: Seq<char>) -> Option<i32> {
    match last_dot(id) {
        Some(k) => spec_parse_i32(id.subrange(k + 1, id.len() as int)),
        None => None,
    }
}

/// The name that follows `id`: the number after its last `.` raised by
/// one, or `.1` added where there is no such number.
pub open spec fn spec_next_id(id: Seq<char>) -> Seq<char> {
    match (last_dot(id), suffix_number(id)) {
        (Some(k), Some(n)) => id.take(k) + seq!['.'] + signed_decimal(n + 1),
        _ => id + seq!['.', '1'],
    }
}

proof fn lemma_digit_char(d: int)
    requires
        0 <= d < 10,
    ensures
        is_digit(digit_char(d)),
        (digit_char(d) as int) - ('0' as int) == d,
{
}

/// The decimal writing of `n` is a non-empty run of digits that reads
/// back as `n`.
pub proof fn lemma_decimal(n: nat)
    ensures
        decimal(n).len() > 0,
        all_digits(decimal(n)),
        digits_value(decimal(n)) == n,
    decreases n,
{
    if n < 10 {
        lemma_digit_char(n as int);
        assert(decimal(n).drop_last() =~= Seq::<char>::empty());
        assert(digits_value(Seq::<char>::empty()) == 0);
        assert(digits_value(decimal(n)) == (digit_char(n as int) as int) - ('0' as int));
    } else {
        lemma_decimal(n / 10);
        lemma_digit_char((n % 10) as int);
        let s = decimal(n);
        assert(s.drop_last() =~= decimal(n / 10));
        assert(10 * (n / 10) + n % 10 == n) by (nonlinear_arith);
        assert forall|i: int| 0 <= i < s.len() implies is_digit(#[trigger] s[i]) by {
            if i < s.len() - 1 {
                assert(s[i] == decimal(n / 10)[i]);
            }
        }
    }
}

/// The writing of a 32-bit integer reads back as that integer, holds no
/// `.`, and is digits after an optional leading `-`.
pub proof fn lemma_signed_decimal(m: int)
    requires
        i32::MIN <= m <= i32::MAX,
    ensures
        spec_parse_i32(signed_decimal(m)) == Some(m as i32),
        signed_decimal(m).len() > 0,
        signed_decimal(m)[0] == '-' || is_digit(signed_decimal(m)[0]),
        forall|i: int| 0 < i < signed_decimal(m).len() ==> is_digit(#[trigger] signed_decimal(m)[i]),
        forall|i: int| 0 <= i < signed_decimal(m).len() ==> #[trigger] signed_decimal(m)[i] != '.',
{
    if m < 0 {
        let d = decimal((-m) as nat);
        lemma_decimal((-m) as nat);
        let s = signed_decimal(m);
        assert(s.skip(1) =~= d);
        assert(strip_sign(s) == d);
        assert forall|i: int| 0 <= i < s.len() implies #[trigger] s[i] != '.' by {
            if i > 0 {
                assert(s[i] == d[i - 1]);
                assert(is_digit(d[i - 1]));
            }
        }
    } else {
        let d = decimal(m as nat);
        lemma_decimal(m as nat);
        assert(is_digit(d[0]));
        assert(strip_sign(d) == d);
        assert forall|i: int| 0 <= i < d.len() implies #[trigger] d[i] != '.' by {
            assert(is_digit(d[i]));
        }
    }
}

proof fn lemma_last_dot_after(p: Seq<char>, d: Seq<char>)
    requires
        forall|i: int| 0 <= i < d.len() ==> #[trigger] d[i] != '.',
    ensures
        last_dot(p + seq!['.'] + d) == Some(p.len() as int),
    decreases d.len(),
{
    let s = p + seq!['.'] + d;
    if d.len() > 0 {
        assert(s.last() == d.last());
        assert(s.drop_last() =~= p + seq!['.'] + d.drop_last());
        lemma_last_dot_after(p, d.drop_last());
    }
}

/// The last `.` of `s` is a `.`, and none follows it.
pub proof fn lemma_last_dot(s: Seq<char>)
    ensures
        match last_dot(s) {
            Some(k) => 0 <= k < s.len() && s[k] == '.' && forall|i: int|
                k < i < s.len() ==> #[trigger] s[i] != '.',
            None => forall|i: int| 0 <= i < s.len() ==> #[trigger] s[i] != '.',
        },
    decreases s.len(),
{
    if s.len() > 0 && s.last() != '.' {
        let t = s.drop_last();
        lemma_last_dot(t);
        match last_dot(t) {
            Some(k) => {
                assert forall|i: int| k < i < s.len() implies #[trigger] s[i] != '.' by {
                    if i < s.len() - 1 {
                        assert(s[i] == t[i]);
                    }
                }
            },
            None => {
                assert forall|i: int| 0 <= i < s.len() implies #[trigger] s[i] != '.' by {
                    if i < s.len() - 1 {
                        assert(s[i] == t[i]);
                    }
                }
            },
        }
    }
}

/// What follows the last `.` of the next name is the number that followed
/// it in `id`, raised by one, or 1.
pub proof fn lemma_next_suffix(id: Seq<char>)
    requires
        suffix_number(id) != Some(i32::MAX),
    ensures
        suffix_number(spec_next_id(id)) == Some(
            match suffix_number(id) {
                Some(n) => (n + 1) as i32,
                None => 1i32,
            },
        ),
{
    let next = spec_next_id(id);
    lemma_last_dot(id);
    match (last_dot(id), suffix_number(id)) {
        (Some(k), Some(n)) => {
            lemma_signed_decimal(n + 1);
            let p = id.take(k);
            lemma_last_dot_after(p, signed_decimal(n + 1));
            assert(next.subrange(k + 1, next.len() as int) =~= signed_decimal(n + 1));
        },
        _ => {
            lemma_signed_decimal(1);
            assert(signed_decimal(1) =~= seq!['1']);
            assert(next =~= id + seq!['.'] + signed_decimal(1));
            lemma_last_dot_after(id, signed_decimal(1));
            assert(next.subrange(id.len() + 1int, next.len() as int) =~= signed_decimal(1));
        },
    }
}

/// How far a name is from the last name of its series: the names that
/// follow one another count down to 0.
pub open spec fn id_rank(id: Seq<char>) -> int {
    match suffix_number(id) {
        Some(n) => i32::MAX - n,
        None => 0x1_0000_0000,
    }
}

/// The first name in the series from `id` that is not in `taken`; `None`
/// where the series reaches a number that cannot be raised.
pub open spec fn free_id(taken: Set<Seq<char>>, id: Seq<char>) -> Option<Seq<char>>
    decreases id_rank(id),
{
    if !taken.contains(id) {
        Some(id)
    } else if suffix_number(id) == Some(i32::MAX) {
        None
    } else {
        proof {
            lemma_next_suffix(id);
        }
        free_id(taken, spec_next_id(id))
    }
}

/// The text of a decimal digit.
fn digit_str(d: u32) -> (r: &'static str)
    requires
        d < 10,
    ensures
        r@ == seq![digit_char(d as int)],
{
    if d == 0 {
        proof {
            reveal_strlit("0");
        }
        "0"
    } else if d == 1 {
        proof {
            reveal_strlit("1");
        }
        "1"
    } else if d == 2 {
        proof {
            reveal_strlit("2");
        }
        "2"
    } else if d == 3 {
        proof {
            reveal_strlit("3");
        }
        "3"
    } else if d == 4 {
        proof {
            reveal_strlit("4");
        }
        "4"
    } else if d == 5 {
        proof {
            reveal_strlit("5");
        }
        "5"
    } else if d == 6 {
        proof {
            reveal_strlit("6");
        }
        "6"
    } else if d == 7 {
        proof {
            reveal_strlit("7");
        }
        "7"
    } else if d == 8 {
        proof {
            reveal_strlit("8");
        }
        "8"
    } else {
        proof {
            reveal_strlit("9");
        }
        "9"
    }
}

/// Writes `n` in decimal at the end of `s`.
fn push_decimal(s: &mut String, n: u32)
    ensures
        final(s)@ == old(s)@ + decimal(n as nat),
    decreases n,
{
    let ghost before = s@;
    if n >= 10 {
        push_decimal(s, n / 10);
    }
    s.append(digit_str(n % 10));
    proof {
        if n >= 10 {
            assert(s@ =~= before + decimal((n / 10) as nat).push(digit_char((n % 10) as int)));
        } else {
            assert(s@ =~= before + decimal(n as nat));
        }
    }
}

/// Writes `n` in decimal at the end of `s`, with a `-` before a negative
/// number.
fn push_signed_decimal(s: &mut String, n: i32)
    ensures
        final(s)@ == old(s)@ + signed_decimal(n as int),
{
    let ghost before = s@;
    if n < 0 {
        proof {
            reveal_strlit("-");
        }
        s.append("-");
        let magnitude: i64 = 0 - (n as i64);
        push_decimal(s, magnitude as u32);
        assert(s@ =~= before + signed_decimal(n as int));
    } else {
        push_decimal(s, n as u32);
    }
}

/// The position of the last `.` in `chars`.
fn last_dot_index(chars: &Vec<char>) -> (r: Option<usize>)
    ensures
        match r {
            Some(k) => last_dot(chars@) == Some(k as int),
            None => last_dot(chars@) is None,
        },
{
    let mut i = chars.len();
    assert(chars@.take(i as int) =~= chars@);
    while i > 0
        invariant
            i <= chars@.len(),
            last_dot(chars@) == last_dot(chars@.take(i as int)),
        decreases i,
    {
        let ghost t = chars@.take(i as int);
        assert(t.drop_last() =~= chars@.take(i - 1));
        if chars[i - 1] == '.' {
            return Some(i - 1);
        }
        i = i - 1;
    }
    None
}

/// The name that follows `id`: `Gain.1` gives `Gain.2`, `Blur` gives
/// `Blur.1`, `Gain.toto` gives `Gain.toto.1`.
pub fn next_id(id: &NodeHandle) -> (r: NodeHandle)
    requires
        suffix_number(id@) != Some(i32::MAX),
    ensures
        r@ == spec_next_id(id@),
{
    let chars = chars_of(id.as_str());
    proof {
        lemma_last_dot(chars@);
    }
    if let Some(k) = last_dot_index(&chars) {
        let len = chars.len();
        assert(k < len);
        if let Some(n) = parse_i32_range(&chars, k + 1, len) {
            let mut r = substring(id.as_str(), 0, k);
            proof {
                reveal_strlit(".");
            }
            r.append(".");
            push_signed_decimal(&mut r, n + 1);
            assert(r@ =~= spec_next_id(id@));
            return r;
        }
    }
    let mut r = id.clone();
    proof {
        reveal_strlit(".1");
    }
    r.append(".1");
    assert(r@ =~= spec_next_id(id@));
    r
}

/// The number after the last `.` of `id`, as `suffix_number` gives it.
fn suffix_of(id: &NodeHandle) -> (r: Option<i32>)
    ensures
        r == suffix_number(id@),
{
    let chars = chars_of(id.as_str());
    proof {
        lemma_last_dot(chars@);
    }
    match last_dot_index(&chars) {
        Some(k) => {
            let len = chars.len();
            assert(k < len);
            parse_i32_range(&chars, k + 1, len)
        },
        None => None,
    }
}

/// The texts of a sequence of strings.
pub open spec fn texts(v: Seq<String>) -> Seq<Seq<char>> {
    v.map_values(|s: String| s@)
}

/// The texts of a sequence of node inputs.
pub open spec fn input_texts(v: Seq<NodeInput>) -> Seq<(Seq<char>, Seq<char>)> {
    v.map_values(|p: NodeInput| (p.0@, p.1@))
}

/// The texts of the inputs of each output.
pub open spec fn inputs_texts(v: Seq<Vec<NodeInput>>) -> Seq<Seq<(Seq<char>, Seq<char>)>> {
    v.map_values(|w: Vec<NodeInput>| input_texts(w@))
}

/// A project: the image-effect nodes by unique name, and for each node
/// whose output is connected, the inputs (node and clip) it feeds.
pub struct Project {
    node_ids: Vec<NodeHandle>,
    nodes: Vec<Node>,
    outputs: Vec<NodeOutput>,
    inputs: Vec<Vec<NodeInput>>,
}

impl Project {
    /// Names are distinct, one node each, and every node is well formed;
    /// outputs are distinct, one list of inputs each.
    pub closed spec fn wf(&self) -> bool {
        &&& self.node_ids@.len() == self.nodes@.len()
        &&& texts(self.node_ids@).no_duplicates()
        &&& forall|i: int| 0 <= i < self.nodes@.len() ==> (#[trigger] self.nodes@[i]).wf()
        &&& self.outputs@.len() == self.inputs@.len()
        &&& texts(self.outputs@).no_duplicates()
    }

    /// The nodes, by name.
    pub closed spec fn nodes_view(&self) -> Map<Seq<char>, Node> {
        keyed_map(texts(self.node_ids@), self.nodes@)
    }

    /// The connections: for each output node, the (node, clip) inputs it
    /// feeds, in the order they were connected.
    pub closed spec fn connections_view(&self) -> Map<Seq<char>, Seq<(Seq<char>, Seq<char>)>> {
        keyed_map(texts(self.outputs@), inputs_texts(self.inputs@))
    }

    /// Every node of a well-formed project is well formed, and there are
    /// finitely many.
    pub proof fn lemma_nodes_wf(&self)
        requires
            self.wf(),
        ensures
            forall|k: Seq<char>| #[trigger]
                self.nodes_view().contains_key(k) ==> self.nodes_view()[k].wf(),
            self.nodes_view().dom().finite(),
    {
        let ks = texts(self.node_ids@);
        assert forall|k: Seq<char>| #[trigger] self.nodes_view().contains_key(k) implies self.nodes_view()[k].wf() by {
            let i = choose|i: int| 0 <= i < ks.len() && ks[i] == k;
            lemma_keyed_at(ks, self.nodes@, i);
        }
        lemma_keyed_len(ks, self.nodes@);
    }

    /// An empty project.
    pub fn new() -> (r: Project)
        ensures
            r.wf(),
            r.nodes_view() == Map::<Seq<char>, Node>::empty(),
            r.connections_view() == Map::<Seq<char>, Seq<(Seq<char>, Seq<char>)>>::empty(),
    {
        let r = Project { node_ids: Vec::new(), nodes: Vec::new(), outputs: Vec::new(), inputs: Vec::new() };
        proof {
            assert(texts(r.node_ids@) =~= Seq::<Seq<char>>::empty());
            assert(texts(r.outputs@) =~= Seq::<Seq<char>>::empty());
            assert(inputs_texts(r.inputs@) =~= Seq::<Seq<(Seq<char>, Seq<char>)>>::empty());
            lemma_keyed_empty::<Seq<char>, Node>();
            lemma_keyed_empty::<Seq<char>, Seq<(Seq<char>, Seq<char>)>>();
        }
        r
    }

    fn find_node(&self, id: &NodeHandle) -> (r: Option<usize>)
        requires
            self.wf(),
        ensures
            match r {
                Some(i) => i < self.node_ids@.len() && self.node_ids@[i as int]@ == id@
                    && self.nodes_view().contains_key(id@),
                None => !self.nodes_view().contains_key(id@),
            },
    {
        let mut i: usize = 0;
        while i < self.node_ids.len()
            invariant
                self.wf(),
                0 <= i <= self.node_ids@.len(),
                forall|j: int| 0 <= j < i ==> #[trigger] self.node_ids@[j]@ != id@,
            decreases self.node_ids@.len() - i,
        {
            if self.node_ids[i] == *id {
                proof {
                    lemma_keyed_at(texts(self.node_ids@), self.nodes@, i as int);
                }
                return Some(i);
            }
            i = i + 1;
        }
        proof {
            let ks = texts(self.node_ids@);
            if ks.contains(id@) {
                let j = choose|j: int| 0 <= j < ks.len() && ks[j] == id@;
                assert(self.node_ids@[j]@ == id@);
            }
        }
        None
    }

    fn find_output(&self, id: &NodeHandle) -> (r: Option<usize>)
        requires
            self.wf(),
        ensures
            match r {
                Some(i) => i < self.outputs@.len() && self.outputs@[i as int]@ == id@,
                None => !self.connections_view().contains_key(id@),
            },
    {
        let mut i: usize = 0;
        while i < self.outputs.len()
            invariant
                0 <= i <= self.outputs@.len(),
                forall|j: int| 0 <= j < i ==> #[trigger] self.outputs@[j]@ != id@,
            decreases self.outputs@.len() - i,
        {
            if self.outputs[i] == *id {
                return Some(i);
            }
            i = i + 1;
        }
        proof {
            let ks = texts(self.outputs@);
            if ks.contains(id@) {
                let j = choose|j: int| 0 <= j < ks.len() && ks[j] == id@;
                assert(self.outputs@[j]@ == id@);
            }
        }
        None
    }

    /// The name that `node_insert` gives a node named `node_id`: the
    /// first free name in the series from `node_id`; `None` where that
    /// series runs out of numbers before a free name.
    pub fn free_node_id(&self, node_id: &NodeHandle) -> (r: Option<NodeHandle>)
        requires
            self.wf(),
        ensures
            match free_id(self.nodes_view().dom(), node_id@) {
                Some(f) => r matches Some(s) && s@ == f,
                None => r is None,
            },
    {
        let ghost taken = self.nodes_view().dom();
        let mut id = node_id.clone();
        loop
            invariant
                self.wf(),
                taken == self.nodes_view().dom(),
                free_id(taken, id@) == free_id(taken, node_id@),
            decreases id_rank(id@),
        {
            if self.find_node(&id).is_none() {
                return Some(id);
            }
            if let Some(n) = suffix_of(&id) {
                if n == i32::MAX {
                    return None;
                }
            }
            proof {
                lemma_next_suffix(id@);
            }
            id = next_id(&id);
        }
    }

    /// Inserts `node` under the first free name in the series from
    /// `node_id` (`node_id`, then as `next_id` gives), and returns that
    /// name.
    pub fn node_insert(&mut self, node_id: NodeHandle, node: Node) -> (r: NodeHandle)
        requires
            old(self).wf(),
            node.wf(),
            free_id(old(self).nodes_view().dom(), node_id@) is Some,
        ensures
            final(self).wf(),
            Some(r@) == free_id(old(self).nodes_view().dom(), node_id@),
            !old(self).nodes_view().contains_key(r@),
            final(self).nodes_view() == old(self).nodes_view().insert(r@, node),
            final(self).connections_view() == old(self).connections_view(),
    {
        let ghost taken = self.nodes_view().dom();
        let mut node_id = node_id;
        let ghost first = node_id@;
        while self.find_node(&node_id).is_some()
            invariant
                self.wf(),
                taken == self.nodes_view().dom(),
                free_id(taken, node_id@) == free_id(taken, first),
                free_id(taken, first) is Some,
            decreases id_rank(node_id@),
        {
            proof {
                lemma_next_suffix(node_id@);
            }
            node_id = next_id(&node_id);
        }
        let ghost ks = texts(self.node_ids@);
        let ghost vs = self.nodes@;
        proof {
            if ks.contains(node_id@) {
                let j = choose|j: int| 0 <= j < ks.len() && ks[j] == node_id@;
                lemma_keyed_at(ks, vs, j);
            }
            lemma_keyed_push(ks, vs, node_id@, node);
        }
        self.node_ids.push(node_id.clone());
        self.nodes.push(node);
        proof {
            assert(texts(self.node_ids@) =~= ks.push(node_id@));
        }
        node_id
    }

    /// The node named `node_id`.
    pub fn node_get(&self, node_id: NodeHandle) -> (r: Option<&Node>)
        requires
            self.wf(),
        ensures
            r is Some <==> self.nodes_view().contains_key(node_id@),
            r matches Some(n) ==> *n == self.nodes_view()[node_id@] && n.wf(),
    {
        match self.find_node(&node_id) {
            Some(i) => {
                proof {
                    lemma_keyed_at(texts(self.node_ids@), self.nodes@, i as int);
                }
                Some(&self.nodes[i])
            },
            None => None,
        }
    }

    /// The number of nodes in the graph.
    pub fn node_qty(&self) -> (r: usize)
        requires
            self.wf(),
        ensures
            r == self.nodes_view().dom().len(),
    {
        proof {
            lemma_keyed_len(texts(self.node_ids@), self.nodes@);
        }
        self.nodes.len()
    }

    /// Connects the output of `in_node` to the clip `out_clip` of
    /// `out_node`; nothing happens unless all three are given.
    pub fn node_connect(
        &mut self,
        in_node: &Option<NodeHandle>,
        out_node: &Option<NodeHandle>,
        out_clip: &Option<ClipHandle>,
    )
        requires
            old(self).wf(),
        ensures
            final(self).wf(),
            final(self).nodes_view() == old(self).nodes_view(),
            match (in_node, out_node, out_clip) {
                (Some(i), Some(o), Some(c)) => final(self).connections_view()
                    == old(self).connections_view().insert(
                    i@,
                    if old(self).connections_view().contains_key(i@) {
                        old(self).connections_view()[i@]
                    } else {
                        Seq::empty()
                    }.push((o@, c@)),
                ),
                _ => final(self).connections_view() == old(self).connections_view(),
            },
    {
        match (in_node, out_node, out_clip) {
            (Some(node_in), Some(node_out), Some(clip_out)) => {
                let ghost ks = texts(self.outputs@);
                let ghost vs = inputs_texts(self.inputs@);
                let ghost entry = (node_out@, clip_out@);
                match self.find_output(node_in) {
                    Some(i) => {
                        proof {
                            lemma_keyed_at(ks, vs, i as int);
                            lemma_keyed_update(ks, vs, i as int, vs[i as int].push(entry));
                        }
                        let mut list: Vec<NodeInput> = Vec::new();
                        std::mem::swap(&mut list, &mut self.inputs[i]);
                        list.push((node_out.clone(), clip_out.clone()));
                        self.inputs.set(i, list);
                        proof {
                            assert(input_texts(self.inputs@[i as int]@) =~= vs[i as int].push(entry));
                            assert(inputs_texts(self.inputs@) =~= vs.update(i as int, vs[i as int].push(entry)));
                        }
                    },
                    None => {
                        proof {
                            lemma_keyed_push(ks, vs, node_in@, Seq::<(Seq<char>, Seq<char>)>::empty().push(entry));
                        }
                        let mut list: Vec<NodeInput> = Vec::new();
                        list.push((node_out.clone(), clip_out.clone()));
                        self.outputs.push(node_in.clone());
                        self.inputs.push(list);
                        proof {
                            assert(texts(self.outputs@) =~= ks.push(node_in@));
                            assert(input_texts(self.inputs@.last()@) =~= Seq::<(Seq<char>, Seq<char>)>::empty().push(entry));
                            assert(inputs_texts(self.inputs@) =~= vs.push(Seq::<(Seq<char>, Seq<char>)>::empty().push(entry)));
                        }
                    },
                }
            },
            _ => {},
        }
    }
}

/// The name that follows another is never that name.
pub proof fn lemma_next_id_differs(id: Seq<char>)
    requires
        suffix_number(id) != Some(i32::MAX),
    ensures
        spec_next_id(id) != id,
{
    lemma_next_suffix(id);
}

/// The name chosen for a node is free: no node holds it yet.
pub proof fn lemma_free_id_is_free(taken: Set<Seq<char>>, id: Seq<char>)
    ensures
        free_id(taken, id) matches Some(f) ==> !taken.contains(f),
    decreases id_rank(id),
{
    if taken.contains(id) && suffix_number(id) != Some(i32::MAX) {
        lemma_next_suffix(id);
        lemma_free_id_is_free(taken, spec_next_id(id));
    }
}

/// Inserting a node under a free name adds one node to the project and
/// keeps every other node.
pub proof fn lemma_insert_adds_one(m: Map<Seq<char>, Node>, name: Seq<char>, node: Node)
    requires
        m.dom().finite(),
        !m.contains_key(name),
    ensures
        m.insert(name, node).dom().len() == m.dom().len() + 1,
        m.insert(name, node)[name] == node,
        forall|k: Seq<char>| k != name && #[trigger] m.contains_key(k) ==> m.insert(name, node)[k] == m[k],
{
}

} // verus!
