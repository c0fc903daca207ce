//! The shared block vocabulary: what a block *is*, independent of how it is stored and
//! how it is sent — a namespaced name and its state properties.
//!
//! The runtime-id palette is not here: a runtime id is a per-version network
//! identifier, and the name-to-id mapping belongs to the protocol.
use vstd::prelude::*;
use vstd::string::StringSliceAdditionalSpecFns;
use vstd::utf8::encode_utf8;
use crate::text::{push_signed_decimal, push_str, signed_decimal, string_from};

verus! {

broadcast use vstd::utf8::encode_utf8_decode_utf8;

/// Strict lexicographic order on byte strings, the order Rust's `str` sorts in.
#[verifier::opaque]
pub open spec fn bytes_lt(a: Seq<u8>, b: Seq<u8>) -> bool
    decreases a.len(),
{
    if a.len() == 0 {
        b.len() > 0
    } else if b.len() == 0 {
        false
    } else if a[0] < b[0] {
        true
    } else if a[0] > b[0] {
        false
    } else {
        bytes_lt(a.drop_first(), b.drop_first())
    }
}

/// The bytes a name sorts by.
pub open spec fn key(name: Seq<char>) -> Seq<u8> {
    encode_utf8(name)
}

/// No byte string is below itself.
pub proof fn lemma_bytes_lt_irreflexive(a: Seq<u8>)
    ensures
        !bytes_lt(a, a),
    decreases a.len(),
{
    reveal(bytes_lt);
    if a.len() > 0 {
        lemma_bytes_lt_irreflexive(a.drop_first());
    }
}

/// The order is transitive.
pub proof fn lemma_bytes_lt_transitive(a: Seq<u8>, b: Seq<u8>, c: Seq<u8>)
    requires
        bytes_lt(a, b),
        bytes_lt(b, c),
    ensures
        bytes_lt(a, c),
    decreases a.len(),
{
    reveal(bytes_lt);
    if a.len() > 0 && b.len() > 0 && c.len() > 0 && a[0] == b[0] && b[0] == c[0] {
        lemma_bytes_lt_transitive(a.drop_first(), b.drop_first(), c.drop_first());
    }
}

/// Two different byte strings are ordered one way or the other.
pub proof fn lemma_bytes_lt_total(a: Seq<u8>, b: Seq<u8>)
    ensures
        a == b || bytes_lt(a, b) || bytes_lt(b, a),
        !(bytes_lt(a, b) && bytes_lt(b, a)),
    decreases a.len(),
{
    reveal(bytes_lt);
    if a.len() > 0 && b.len() > 0 && a[0] == b[0] {
        lemma_bytes_lt_total(a.drop_first(), b.drop_first());
        if a.drop_first() == b.drop_first() {
            assert forall|i: int| 0 <= i < a.len() implies a[i] == b[i] by {
                if i > 0 {
                    assert(a[i] == a.drop_first()[i - 1]);
                    assert(b[i] == b.drop_first()[i - 1]);
                }
            }
            assert(a =~= b);
        }
    } else if a.len() == 0 && b.len() == 0 {
        assert(a =~= b);
    }
}

/// Names with the same bytes are the same name.
pub proof fn lemma_key_injective(a: Seq<char>, b: Seq<char>)
    ensures
        key(a) == key(b) <==> a == b,
{
    vstd::utf8::encode_utf8_decode_utf8(a);
    vstd::utf8::encode_utf8_decode_utf8(b);
}

/// Whether `a` sorts strictly before `b`.
pub fn bytes_less(a: &[u8], b: &[u8]) -> (r: bool)
    ensures
        r == bytes_lt(a@, b@),
{
    let mut i: usize = 0;
    proof {
        reveal(bytes_lt);
        assert(a@.skip(0) =~= a@);
        assert(b@.skip(0) =~= b@);
    }
    while i < a.len() && i < b.len()
        invariant
            i <= a@.len(),
            i <= b@.len(),
            bytes_lt(a@, b@) == bytes_lt(a@.skip(i as int), b@.skip(i as int)),
        decreases a@.len() - i,
    {
        proof {
            reveal(bytes_lt);
        }
        if a[i] < b[i] {
            return true;
        }
        if a[i] > b[i] {
            return false;
        }
        proof {
            assert(a@.skip(i as int).drop_first() =~= a@.skip(i + 1));
            assert(b@.skip(i as int).drop_first() =~= b@.skip(i + 1));
        }
        i = i + 1;
    }
    proof {
        reveal(bytes_lt);
    }
    i == a.len() && i < b.len()
}

/// Whether two byte strings are equal.
pub fn bytes_equal(a: &[u8], b: &[u8]) -> (r: bool)
    ensures
        r == (a@ == b@),
{
    if a.len() != b.len() {
        return false;
    }
    let mut i: usize = 0;
    while i < a.len()
        invariant
            i <= a@.len(),
            a@.len() == b@.len(),
            a@.take(i as int) == b@.take(i as int),
        decreases a@.len() - i,
    {
        if a[i] != b[i] {
            proof {
                assert(a@[i as int] != b@[i as int]);
            }
            return false;
        }
        proof {
            assert(a@.take(i + 1) =~= a@.take(i as int).push(a@[i as int]));
            assert(b@.take(i + 1) =~= b@.take(i as int).push(b@[i as int]));
        }
        i = i + 1;
    }
    proof {
        assert(a@ =~= a@.take(i as int));
        assert(b@ =~= b@.take(i as int));
    }
    true
}

/// Whether two strings are the same text.
pub fn str_equal(a: &str, b: &str) -> (r: bool)
    ensures
        r == (a@ == b@),
{
    proof {
        lemma_key_injective(a@, b@);
    }
    bytes_equal(a.as_bytes(), b.as_bytes())
}

/// The value of one block state property: a flag, a number, or a name from a fixed set.
#[derive(Debug, Clone)]
pub enum Value {
    /// `true`/`false`, like `upside_down_bit`.
    Bool(bool),
    /// An integer, like `height`.
    Int(i32),
    /// A name from a fixed set, like `"north"`.
    Text(String),
}

/// A property value as the contracts see it: which shape, the number, the text.
pub type ValueView = (int, int, Seq<char>);

/// A property as the contracts see it.
pub type PropertyView = (Seq<char>, ValueView);

impl View for Value {
    type V = ValueView;

    open spec fn view(&self) -> ValueView {
        match self {
            Value::Bool(b) => (0, if *b {
                1
            } else {
                0
            }, Seq::empty()),
            Value::Int(i) => (1, *i as int, Seq::empty()),
            Value::Text(s) => (2, 0, s@),
        }
    }
}

impl Value {
    /// Whether two values are the same value.
    pub fn same(&self, other: &Value) -> (r: bool)
        ensures
            r == (self@ == other@),
    {
        match (self, other) {
            (Value::Bool(a), Value::Bool(b)) => *a == *b,
            (Value::Int(a), Value::Int(b)) => *a == *b,
            (Value::Text(a), Value::Text(b)) => str_equal(a.as_str(), b.as_str()),
            _ => false,
        }
    }

    /// A copy of this value.
    pub fn copy(&self) -> (v: Value)
        ensures
            v@ == self@,
    {
        match self {
            Value::Bool(b) => Value::Bool(*b),
            Value::Int(i) => Value::Int(*i),
            Value::Text(s) => Value::Text(s.clone()),
        }
    }
}

/// How a property value is printed: `true`/`false`, the number in decimal, or the text.
pub open spec fn value_text(v: ValueView) -> Seq<char> {
    if v.0 == 0 {
        if v.1 == 1 {
            seq!['t', 'r', 'u', 'e']
        } else {
            seq!['f', 'a', 'l', 's', 'e']
        }
    } else if v.0 == 1 {
        signed_decimal(v.1)
    } else {
        v.2
    }
}

impl Value {
    /// Appends the printed form of this value.
    fn push_text(&self, out: &mut Vec<char>)
        ensures
            final(out)@ == old(out)@ + value_text(self@),
    {
        match self {
            Value::Bool(b) => {
                let ghost start = out@;
                if *b {
                    out.push('t');
                    out.push('r');
                    out.push('u');
                    out.push('e');
                    proof {
                        assert(out@ =~= start + seq!['t', 'r', 'u', 'e']);
                    }
                } else {
                    out.push('f');
                    out.push('a');
                    out.push('l');
                    out.push('s');
                    out.push('e');
                    proof {
                        assert(out@ =~= start + seq!['f', 'a', 'l', 's', 'e']);
                    }
                }
            },
            Value::Int(i) => push_signed_decimal(out, *i as i64),
            Value::Text(t) => push_str(out, t.as_str()),
        }
    }

    /// The printed form: `true`/`false`, the number in decimal, or the text.
    pub fn to_text(&self) -> (s: String)
        ensures
            s@ == value_text(self@),
    {
        let mut out: Vec<char> = Vec::new();
        self.push_text(&mut out);
        proof {
            assert(out@ =~= value_text(self@));
        }
        string_from(out.as_slice())
    }
}

impl PartialEq for Value {
    fn eq(&self, other: &Value) -> (r: bool) {
        self.same(other)
    }
}

impl vstd::std_specs::cmp::PartialEqSpecImpl for Value {
    open spec fn obeys_eq_spec() -> bool {
        true
    }

    open spec fn eq_spec(&self, other: &Value) -> bool {
        self@ == other@
    }
}

impl Eq for Value {

}

/// The views of a list of properties.
pub open spec fn props_view(ps: Seq<(String, Value)>) -> Seq<PropertyView> {
    ps.map_values(|p: (String, Value)| (p.0@, p.1@))
}

/// Whether properties are in strictly increasing name order, so no name repeats.
#[verifier::opaque]
pub open spec fn sorted_by_name(ps: Seq<PropertyView>) -> bool {
    forall|i: int, j: int| 0 <= i < j < ps.len() ==> bytes_lt(key(#[trigger] ps[i].0), key(#[trigger] ps[j].0))
}

/// Whether entry `i` is the first in `ps` to carry its name.
#[verifier::opaque]
pub open spec fn is_first(ps: Seq<PropertyView>, i: int) -> bool {
    &&& 0 <= i < ps.len()
    &&& forall|j: int| 0 <= j < i ==> #[trigger] ps[j].0 != ps[i].0
}

/// Whether every entry of `out` is the first occurrence of its name in `input`.
pub open spec fn drawn_from(out: Seq<PropertyView>, input: Seq<PropertyView>) -> bool {
    forall|j: int|
        0 <= j < out.len() ==> exists|i: int| #[trigger] is_first(input, i) && input[i] == #[trigger] out[j]
}

/// Whether some entry of `ps` carries `name`.
pub open spec fn has_name(ps: Seq<PropertyView>, name: Seq<char>) -> bool {
    exists|j: int| 0 <= j < ps.len() && #[trigger] ps[j].0 == name
}

/// Whether every name in `input` appears in `out`.
pub open spec fn covers(out: Seq<PropertyView>, input: Seq<PropertyView>) -> bool {
    forall|i: int| 0 <= i < input.len() ==> #[trigger] has_name(out, input[i].0)
}

/// The normal form of a property list: sorted by name, one entry per name, and for a
/// name given twice the value given first.
pub open spec fn normal_form_of(out: Seq<PropertyView>, input: Seq<PropertyView>) -> bool {
    &&& sorted_by_name(out)
    &&& drawn_from(out, input)
    &&& covers(out, input)
}

/// Whether no name is given twice.
pub open spec fn names_distinct(ps: Seq<PropertyView>) -> bool {
    forall|i: int, j: int| 0 <= i < j < ps.len() ==> (#[trigger] ps[i]).0 != (#[trigger] ps[j]).0
}

/// Two lists sorted by name that hold the same entries are the same list.
proof fn lemma_sorted_same_entries(a: Seq<PropertyView>, b: Seq<PropertyView>)
    requires
        sorted_by_name(a),
        sorted_by_name(b),
        forall|x: PropertyView| a.contains(x) <==> b.contains(x),
    ensures
        a == b,
    decreases a.len(),
{
    reveal(sorted_by_name);
    if a.len() == 0 {
        if b.len() > 0 {
            assert(b.contains(b[0]));
        }
        assert(a =~= b);
    } else if b.len() == 0 {
        assert(a.contains(a[0]));
    } else {
        assert(a.contains(a[0]));
        assert(b.contains(b[0]));
        let j = choose|j: int| 0 <= j < b.len() && b[j] == a[0];
        let k = choose|k: int| 0 <= k < a.len() && a[k] == b[0];
        if j > 0 {
            assert(bytes_lt(key(b[0].0), key(b[j].0)));
            if k > 0 {
                assert(bytes_lt(key(a[0].0), key(a[k].0)));
                lemma_bytes_lt_total(key(a[0].0), key(b[0].0));
            } else {
                lemma_bytes_lt_irreflexive(key(a[0].0));
            }
        }
        assert(a[0] == b[0]);
        let (a1, b1) = (a.drop_first(), b.drop_first());
        assert forall|x: PropertyView| a1.contains(x) <==> b1.contains(x) by {
            if a1.contains(x) {
                let m = choose|m: int| 0 <= m < a1.len() && a1[m] == x;
                assert(a[m + 1] == x);
                assert(bytes_lt(key(a[0].0), key(a[m + 1].0)));
                if x == a[0] {
                    lemma_bytes_lt_irreflexive(key(a[0].0));
                }
                assert(b.contains(x));
                let n = choose|n: int| 0 <= n < b.len() && b[n] == x;
                if n == 0 {
                    lemma_bytes_lt_irreflexive(key(a[0].0));
                }
                assert(b1[n - 1] == x);
            }
            if b1.contains(x) {
                let m = choose|m: int| 0 <= m < b1.len() && b1[m] == x;
                assert(b[m + 1] == x);
                assert(bytes_lt(key(b[0].0), key(b[m + 1].0)));
                if x == b[0] {
                    lemma_bytes_lt_irreflexive(key(b[0].0));
                }
                assert(a.contains(x));
                let n = choose|n: int| 0 <= n < a.len() && a[n] == x;
                if n == 0 {
                    lemma_bytes_lt_irreflexive(key(b[0].0));
                }
                assert(a1[n - 1] == x);
            }
        }
        assert(sorted_by_name(a1)) by {
            assert forall|i: int, j2: int| 0 <= i < j2 < a1.len() implies bytes_lt(
                key(#[trigger] a1[i].0),
                key(#[trigger] a1[j2].0),
            ) by {
                assert(a1[i] == a[i + 1] && a1[j2] == a[j2 + 1]);
            }
        }
        assert(sorted_by_name(b1)) by {
            assert forall|i: int, j2: int| 0 <= i < j2 < b1.len() implies bytes_lt(
                key(#[trigger] b1[i].0),
                key(#[trigger] b1[j2].0),
            ) by {
                assert(b1[i] == b[i + 1] && b1[j2] == b[j2 + 1]);
            }
        }
        lemma_sorted_same_entries(a1, b1);
        assert(a =~= seq![a[0]] + a1);
        assert(b =~= seq![b[0]] + b1);
    }
}

/// The normal form of a list that gives no name twice holds exactly its entries.
proof fn lemma_normal_form_entries(out: Seq<PropertyView>, input: Seq<PropertyView>)
    requires
        normal_form_of(out, input),
        names_distinct(input),
    ensures
        forall|x: PropertyView| out.contains(x) <==> input.contains(x),
{
    reveal(is_first);
    assert forall|x: PropertyView| out.contains(x) <==> input.contains(x) by {
        if out.contains(x) {
            let j = choose|j: int| 0 <= j < out.len() && out[j] == x;
            let i = choose|i: int| #[trigger] is_first(input, i) && input[i] == out[j];
            assert(input[i] == x);
        }
        if input.contains(x) {
            let i = choose|i: int| 0 <= i < input.len() && input[i] == x;
            assert(has_name(out, input[i].0));
            let j = choose|j: int| 0 <= j < out.len() && #[trigger] out[j].0 == input[i].0;
            let i2 = choose|i2: int| #[trigger] is_first(input, i2) && input[i2] == out[j];
            if i2 != i {
                if i2 < i {
                    assert(input[i2].0 != input[i].0);
                } else {
                    assert(input[i].0 != input[i2].0);
                }
            }
            assert(out[j] == x);
        }
    }
}

/// Properties given in any order make the same block: two lists that give no name twice
/// and hold the same entries have the same normal form.
pub proof fn lemma_properties_in_any_order(
    out1: Seq<PropertyView>,
    in1: Seq<PropertyView>,
    out2: Seq<PropertyView>,
    in2: Seq<PropertyView>,
)
    requires
        normal_form_of(out1, in1),
        normal_form_of(out2, in2),
        names_distinct(in1),
        names_distinct(in2),
        forall|x: PropertyView| in1.contains(x) <==> in2.contains(x),
    ensures
        out1 == out2,
{
    lemma_normal_form_entries(out1, in1);
    lemma_normal_form_entries(out2, in2);
    lemma_sorted_same_entries(out1, out2);
}

/// Pushing an entry keeps every earlier first occurrence first.
proof fn lemma_is_first_push(ps: Seq<PropertyView>, x: PropertyView, m: int)
    requires
        is_first(ps, m),
    ensures
        is_first(ps.push(x), m),
        ps.push(x)[m] == ps[m],
{
    reveal(is_first);
    assert forall|j: int| 0 <= j < m implies #[trigger] ps.push(x)[j].0 != ps.push(x)[m].0 by {
        assert(ps.push(x)[j] == ps[j]);
    }
}

/// A name already in the normal form adds nothing when it comes again.
proof fn lemma_skip_present(before: Seq<PropertyView>, prefix: Seq<PropertyView>, x: PropertyView, pos: int)
    requires
        normal_form_of(before, prefix),
        0 <= pos < before.len(),
        before[pos].0 == x.0,
    ensures
        normal_form_of(before, prefix.push(x)),
{
    let next = prefix.push(x);
    assert forall|j: int| 0 <= j < before.len() implies exists|m: int| #[trigger] is_first(next, m)
        && next[m] == #[trigger] before[j] by {
        let m = choose|m: int| #[trigger] is_first(prefix, m) && prefix[m] == before[j];
        lemma_is_first_push(prefix, x, m);
    }
    assert forall|m: int| 0 <= m < next.len() implies #[trigger] has_name(before, next[m].0) by {
        if m == prefix.len() {
            assert(before[pos].0 == next[m].0);
        } else {
            assert(next[m] == prefix[m]);
            assert(has_name(before, prefix[m].0));
        }
    }
}

/// Inserting a name where its order puts it keeps the list sorted.
proof fn lemma_insert_sorted(before: Seq<PropertyView>, x: PropertyView, pos: int)
    requires
        sorted_by_name(before),
        0 <= pos <= before.len(),
        forall|j: int| 0 <= j < pos ==> bytes_lt(key(#[trigger] before[j].0), key(x.0)),
        pos < before.len() ==> bytes_lt(key(x.0), key(before[pos].0)),
    ensures
        sorted_by_name(before.insert(pos, x)),
{
    reveal(sorted_by_name);
    let after = before.insert(pos, x);
    assert forall|a: int, b: int| 0 <= a < b < after.len() implies bytes_lt(
        key(#[trigger] after[a].0),
        key(#[trigger] after[b].0),
    ) by {
        if b < pos {
            assert(after[a] == before[a] && after[b] == before[b]);
        } else if b == pos {
            assert(after[a] == before[a]);
        } else if a < pos {
            assert(after[a] == before[a]);
            assert(after[b] == before[b - 1]);
            lemma_bytes_lt_transitive(key(before[a].0), key(x.0), key(before[pos].0));
            if b - 1 > pos {
                lemma_bytes_lt_transitive(key(before[a].0), key(before[pos].0), key(before[b - 1].0));
            }
        } else if a == pos {
            assert(after[b] == before[b - 1]);
            if b - 1 > pos {
                lemma_bytes_lt_transitive(key(x.0), key(before[pos].0), key(before[b - 1].0));
            }
        } else {
            assert(after[a] == before[a - 1]);
            assert(after[b] == before[b - 1]);
        }
    }
}

/// A name that sorts strictly between its neighbours in the normal form is new.
proof fn lemma_new_is_first(before: Seq<PropertyView>, prefix: Seq<PropertyView>, x: PropertyView, pos: int)
    requires
        normal_form_of(before, prefix),
        0 <= pos <= before.len(),
        forall|j: int| 0 <= j < pos ==> bytes_lt(key(#[trigger] before[j].0), key(x.0)),
        pos < before.len() ==> !bytes_lt(key(before[pos].0), key(x.0)) && before[pos].0 != x.0,
    ensures
        is_first(prefix.push(x), prefix.len() as int),
{
    reveal(is_first);
    let next = prefix.push(x);
    let i = prefix.len() as int;
    assert forall|j: int| 0 <= j < i implies #[trigger] next[j].0 != next[i].0 by {
        assert(next[j] == prefix[j]);
        if prefix[j].0 == x.0 {
            assert(has_name(before, prefix[j].0));
            let w = choose|w: int| 0 <= w < before.len() && #[trigger] before[w].0 == prefix[j].0;
            if w < pos {
                lemma_bytes_lt_irreflexive(key(x.0));
            } else if w > pos {
                reveal(sorted_by_name);
                assert(bytes_lt(key(before[pos].0), key(before[w].0)));
            }
        }
    }
}

/// A name not yet in the normal form goes in where its order puts it.
proof fn lemma_insert_new(before: Seq<PropertyView>, prefix: Seq<PropertyView>, x: PropertyView, pos: int)
    requires
        normal_form_of(before, prefix),
        0 <= pos <= before.len(),
        forall|j: int| 0 <= j < pos ==> bytes_lt(key(#[trigger] before[j].0), key(x.0)),
        pos < before.len() ==> !bytes_lt(key(before[pos].0), key(x.0)) && before[pos].0 != x.0,
    ensures
        normal_form_of(before.insert(pos, x), prefix.push(x)),
{
    let after = before.insert(pos, x);
    let next = prefix.push(x);
    let i = prefix.len() as int;
    if pos < before.len() {
        lemma_bytes_lt_total(key(before[pos].0), key(x.0));
        lemma_key_injective(before[pos].0, x.0);
    }
    lemma_insert_sorted(before, x, pos);
    lemma_new_is_first(before, prefix, x, pos);
    assert forall|j: int| 0 <= j < after.len() implies exists|m: int| #[trigger] is_first(next, m)
        && next[m] == #[trigger] after[j] by {
        if j == pos {
            assert(is_first(next, i) && next[i] == after[j]);
        } else {
            let bj = if j < pos {
                j
            } else {
                j - 1
            };
            assert(after[j] == before[bj]);
            let m = choose|m: int| #[trigger] is_first(prefix, m) && prefix[m] == before[bj];
            lemma_is_first_push(prefix, x, m);
        }
    }
    lemma_covers_insert(before, prefix, x, pos);
}

/// Inserting a name into the output and pushing it onto the input keeps every input name
/// covered.
proof fn lemma_covers_insert(before: Seq<PropertyView>, prefix: Seq<PropertyView>, x: PropertyView, pos: int)
    requires
        covers(before, prefix),
        0 <= pos <= before.len(),
    ensures
        covers(before.insert(pos, x), prefix.push(x)),
{
    let after = before.insert(pos, x);
    let next = prefix.push(x);
    assert forall|m: int| 0 <= m < next.len() implies #[trigger] has_name(after, next[m].0) by {
        if m == prefix.len() {
            assert(after[pos].0 == next[m].0);
        } else {
            assert(next[m] == prefix[m]);
            assert(has_name(before, prefix[m].0));
            let w = choose|w: int| 0 <= w < before.len() && #[trigger] before[w].0 == prefix[m].0;
            if w < pos {
                assert(after[w] == before[w]);
                assert(after[w].0 == next[m].0);
            } else {
                assert(after[w + 1] == before[w]);
                assert(after[w + 1].0 == next[m].0);
            }
        }
    }
}

/// A block as the contracts see it: its name and its properties.
pub type BlockView = (Seq<char>, Seq<PropertyView>);

/// A block state: a namespaced name plus the properties that distinguish it from its
/// siblings.
///
/// Two blocks are the same block when their names and their properties match, which is
/// what makes this the key of a chunk palette. Properties are kept sorted by name so
/// that equality does not depend on the order they were declared in.
#[derive(Debug)]
pub struct Block {
    name: String,
    properties: Vec<(String, Value)>,
}

impl View for Block {
    type V = BlockView;

    closed spec fn view(&self) -> BlockView {
        (self.name@, props_view(self.properties@))
    }
}

/// The name of `minecraft:air`.
pub open spec fn air_name() -> Seq<char> {
    seq!['m', 'i', 'n', 'e', 'c', 'r', 'a', 'f', 't', ':', 'a', 'i', 'r']
}

/// The name of `minecraft:stone`.
pub open spec fn stone_name() -> Seq<char> {
    seq!['m', 'i', 'n', 'e', 'c', 'r', 'a', 'f', 't', ':', 's', 't', 'o', 'n', 'e']
}

/// Whether a block is the one that means "nothing here".
pub open spec fn is_air_block(b: BlockView) -> bool {
    b.0 == air_name()
}

impl Block {
    #[verifier::type_invariant]
    closed spec fn well_formed(self) -> bool {
        sorted_by_name(props_view(self.properties@))
    }

    /// A block with no state properties.
    pub fn new(name: &str) -> (b: Self)
        ensures
            b@ == (name@, Seq::<PropertyView>::empty()),
    {
        proof {
            reveal(sorted_by_name);
        }
        let b = Block { name: name.to_owned(), properties: Vec::new() };
        proof {
            assert(props_view(b.properties@) =~= Seq::<PropertyView>::empty());
        }
        b
    }

    /// A block with state properties, in any order. A name given twice keeps the value
    /// it was given first.
    pub fn with_properties(name: &str, properties: Vec<(String, Value)>) -> (b: Self)
        ensures
            b@.0 == name@,
            normal_form_of(b@.1, props_view(properties@)),
    {
        let ghost input = props_view(properties@);
        let mut out: Vec<(String, Value)> = Vec::new();
        let mut i: usize = 0;
        proof {
            reveal(sorted_by_name);
            assert(props_view(out@) =~= Seq::<PropertyView>::empty());
        }
        while i < properties.len()
            invariant
                i <= properties@.len(),
                input == props_view(properties@),
                normal_form_of(props_view(out@), input.take(i as int)),
            decreases properties@.len() - i,
        {
            let ghost before = props_view(out@);
            let ghost prefix = input.take(i as int);
            let k = &properties[i].0;
            let v = &properties[i].1;
            let kb = k.as_str().as_bytes();
            let mut pos: usize = 0;
            while pos < out.len() && bytes_less(out[pos].0.as_str().as_bytes(), kb)
                invariant
                    pos <= out@.len(),
                    before == props_view(out@),
                    kb@ == key(k@),
                    forall|j: int| 0 <= j < pos ==> bytes_lt(key(#[trigger] before[j].0), key(k@)),
                decreases out@.len() - pos,
            {
                pos = pos + 1;
            }
            proof {
                assert(input.take(i + 1) =~= prefix.push((k@, v@)));
            }
            let present = pos < out.len() && bytes_equal(out[pos].0.as_str().as_bytes(), kb);
            if present {
                proof {
                    lemma_key_injective(before[pos as int].0, k@);
                    lemma_skip_present(before, prefix, (k@, v@), pos as int);
                }
            } else {
                let entry = (k.clone(), v.copy());
                out.insert(pos, entry);
                proof {
                    if pos < before.len() {
                        lemma_key_injective(before[pos as int].0, k@);
                    }
                    assert(props_view(out@) =~= before.insert(pos as int, (k@, v@)));
                    lemma_insert_new(before, prefix, (k@, v@), pos as int);
                }
            }
            i = i + 1;
        }
        proof {
            assert(input.take(properties@.len() as int) =~= input);
        }
        Block { name: name.to_owned(), properties: out }
    }

    /// The namespaced name, such as `minecraft:stone`.
    pub fn name(&self) -> (n: &str)
        ensures
            n@ == self@.0,
    {
        self.name.as_str()
    }

    /// The state properties, sorted by name.
    pub fn properties(&self) -> (ps: &[(String, Value)])
        ensures
            props_view(ps@) == self@.1,
            sorted_by_name(self@.1),
    {
        proof {
            use_type_invariant(self);
        }
        self.properties.as_slice()
    }

    /// The value of one property, if the block has it.
    pub fn property(&self, name: &str) -> (v: Option<&Value>)
        ensures
            v matches Some(x) ==> exists|i: int| 0 <= i < self@.1.len() && #[trigger] self@.1[i] == (name@, x@),
            v is None ==> forall|i: int| 0 <= i < self@.1.len() ==> #[trigger] self@.1[i].0 != name@,
    {
        let mut i: usize = 0;
        while i < self.properties.len()
            invariant
                i <= self.properties@.len(),
                forall|j: int| 0 <= j < i ==> #[trigger] props_view(self.properties@)[j].0 != name@,
            decreases self.properties@.len() - i,
        {
            if str_equal(self.properties[i].0.as_str(), name) {
                let x = &self.properties[i].1;
                proof {
                    assert(self@.1[i as int] == (name@, x@));
                }
                return Some(x);
            }
            i = i + 1;
        }
        None
    }

    /// Whether this is the block that means "nothing here".
    pub fn is_air(&self) -> (r: bool)
        ensures
            r == is_air_block(self@),
    {
        let air = "minecraft:air";
        proof {
            reveal_strlit("minecraft:air");
            assert(air@ =~= air_name());
        }
        str_equal(self.name.as_str(), air)
    }

    /// Whether two blocks are the same block.
    pub fn same(&self, other: &Block) -> (r: bool)
        ensures
            r == (self@ == other@),
    {
        if !str_equal(self.name.as_str(), other.name.as_str()) {
            return false;
        }
        if self.properties.len() != other.properties.len() {
            proof {
                assert(props_view(self.properties@).len() != props_view(other.properties@).len());
            }
            return false;
        }
        let mut i: usize = 0;
        while i < self.properties.len()
            invariant
                i <= self.properties@.len(),
                self.properties@.len() == other.properties@.len(),
                self.name@ == other.name@,
                forall|j: int| 0 <= j < i ==> #[trigger] props_view(self.properties@)[j] == props_view(other.properties@)[j],
            decreases self.properties@.len() - i,
        {
            let ka = &self.properties[i].0;
            let va = &self.properties[i].1;
            let kb = &other.properties[i].0;
            let vb = &other.properties[i].1;
            if !str_equal(ka.as_str(), kb.as_str()) || !va.same(vb) {
                proof {
                    assert(props_view(self.properties@)[i as int] != props_view(other.properties@)[i as int]);
                }
                return false;
            }
            i = i + 1;
        }
        proof {
            assert(props_view(self.properties@) =~= props_view(other.properties@));
        }
        true
    }

    /// A copy of this block.
    pub fn copy(&self) -> (b: Block)
        ensures
            b@ == self@,
    {
        proof {
            use_type_invariant(self);
        }
        let mut props: Vec<(String, Value)> = Vec::new();
        let mut i: usize = 0;
        while i < self.properties.len()
            invariant
                i <= self.properties@.len(),
                props@.len() == i,
                props_view(props@) == props_view(self.properties@).take(i as int),
            decreases self.properties@.len() - i,
        {
            let k = &self.properties[i].0;
            let v = &self.properties[i].1;
            let entry = (k.clone(), v.copy());
            proof {
                assert(entry.0@ == self.properties@[i as int].0@);
                assert(entry.1@ == self.properties@[i as int].1@);
            }
            props.push(entry);
            proof {
                assert(props@[i as int] == entry);
                assert(props_view(props@)[i as int] == props_view(self.properties@)[i as int]);
                assert(props_view(props@) =~= props_view(self.properties@).take(i + 1));
            }
            i = i + 1;
        }
        proof {
            assert(props_view(self.properties@).take(i as int) =~= props_view(self.properties@));
        }
        Block { name: self.name.clone(), properties: props }
    }
}

/// One property as printed: `name=value`.
pub open spec fn property_text(p: PropertyView) -> Seq<char> {
    p.0 + seq!['='] + value_text(p.1)
}

/// Properties as printed, separated by commas.
pub open spec fn properties_text(ps: Seq<PropertyView>) -> Seq<char>
    decreases ps.len(),
{
    if ps.len() == 0 {
        Seq::empty()
    } else if ps.len() == 1 {
        property_text(ps[0])
    } else {
        properties_text(ps.drop_last()) + seq![','] + property_text(ps.last())
    }
}

/// How a block state is printed: its name, then its properties in brackets if it has any.
pub open spec fn block_text(b: BlockView) -> Seq<char> {
    if b.1.len() == 0 {
        b.0
    } else {
        b.0 + seq!['['] + properties_text(b.1) + seq![']']
    }
}

impl Block {
    /// The printed form of this state, such as `minecraft:stone_stairs[upside_down_bit=true]`.
    pub fn to_text(&self) -> (s: String)
        ensures
            s@ == block_text(self@),
    {
        let mut out: Vec<char> = Vec::new();
        push_str(&mut out, self.name.as_str());
        let n = self.properties.len();
        if n == 0 {
            proof {
                assert(out@ =~= block_text(self@));
            }
            return string_from(out.as_slice());
        }
        let ghost ps = props_view(self.properties@);
        let ghost head = out@.push('[');
        out.push('[');
        let mut i: usize = 0;
        while i < n
            invariant
                n == self.properties@.len(),
                ps == props_view(self.properties@),
                i <= n,
                out@ == head + properties_text(ps.take(i as int)),
            decreases n - i,
        {
            let ghost before = out@;
            if i > 0 {
                out.push(',');
            }
            push_str(&mut out, self.properties[i].0.as_str());
            out.push('=');
            self.properties[i].1.push_text(&mut out);
            proof {
                let t = ps.take(i + 1);
                assert(t.drop_last() =~= ps.take(i as int));
                assert(t.last() == ps[i as int]);
                if i == 0 {
                    assert(properties_text(ps.take(0)) =~= Seq::<char>::empty());
                    assert(out@ =~= before + property_text(ps[i as int]));
                    assert(properties_text(t) == property_text(t[0]));
                    assert(out@ =~= head + properties_text(t));
                } else {
                    assert(out@ =~= head + (properties_text(ps.take(i as int)) + seq![','] + property_text(ps[i as int])));
                }
            }
            i = i + 1;
        }
        out.push(']');
        proof {
            assert(ps.take(n as int) =~= ps);
            assert(out@ =~= block_text(self@));
        }
        string_from(out.as_slice())
    }
}

impl Clone for Block {
    fn clone(&self) -> (b: Block)
        ensures
            b@ == self@,
    {
        self.copy()
    }
}

impl PartialEq for Block {
    fn eq(&self, other: &Block) -> (r: bool) {
        self.same(other)
    }
}

impl vstd::std_specs::cmp::PartialEqSpecImpl for Block {
    open spec fn obeys_eq_spec() -> bool {
        true
    }

    open spec fn eq_spec(&self, other: &Block) -> bool {
        self@ == other@
    }
}

impl Eq for Block {

}

/// `minecraft:air`.
pub fn air() -> (b: Block)
    ensures
        b@ == (air_name(), Seq::<PropertyView>::empty()),
{
    let name = "minecraft:air";
    proof {
        reveal_strlit("minecraft:air");
    }
    Block::new(name)
}

/// `minecraft:stone`.
pub fn stone() -> (b: Block)
    ensures
        b@ == (stone_name(), Seq::<PropertyView>::empty()),
{
    let name = "minecraft:stone";
    proof {
        reveal_strlit("minecraft:stone");
    }
    Block::new(name)
}

} // verus!
