//! Keys and values: 256-bit quantities held as eight 32-bit words.

use vstd::prelude::*;
use vstd::std_specs::cmp::PartialEqSpecImpl;

verus! {

/// A 256-bit key. Keys are ordered word by word, word 0 being the most significant.
#[derive(Clone, Copy, Debug, Eq, PartialOrd, Ord)]
pub struct Key(pub [u32; 8]);

/// A 256-bit value. The all-zero value stands for "no value".
#[derive(Clone, Copy, Debug, Eq, PartialOrd, Ord)]
pub struct Value(pub [u32; 8]);

/// The all-zero value, which every key has until another is inserted.
pub open spec fn empty_value() -> Value {
    Value([0u32, 0u32, 0u32, 0u32, 0u32, 0u32, 0u32, 0u32])
}

/// Whether two arrays of eight words hold the same words.
pub fn words_eq(a: &[u32; 8], b: &[u32; 8]) -> (r: bool)
    ensures
        r == (*a == *b),
{
    let mut i: usize = 0;
    while i < 8
        invariant
            i <= 8,
            forall|j: int| 0 <= j < i ==> a@[j] == b@[j],
        decreases 8 - i,
    {
        if a[i] != b[i] {
            return false;
        }
        i += 1;
    }
    assert(*a =~= *b);
    true
}

impl PartialEq for Key {
    fn eq(&self, other: &Key) -> (r: bool) {
        words_eq(&self.0, &other.0)
    }
}

impl PartialEqSpecImpl for Key {
    open spec fn obeys_eq_spec() -> bool {
        true
    }

    open spec fn eq_spec(&self, other: &Key) -> bool {
        *self == *other
    }
}

impl PartialEq for Value {
    fn eq(&self, other: &Value) -> (r: bool) {
        words_eq(&self.0, &other.0)
    }
}

impl PartialEqSpecImpl for Value {
    open spec fn obeys_eq_spec() -> bool {
        true
    }

    open spec fn eq_spec(&self, other: &Value) -> bool {
        *self == *other
    }
}

/// Lexicographic comparison of two eight-word sequences from word `i` on.
pub open spec fn words_lt_from(a: Seq<u32>, b: Seq<u32>, i: int) -> bool
    decreases 8 - i,
{
    if i < 0 || i >= 8 {
        false
    } else if a[i] != b[i] {
        a[i] < b[i]
    } else {
        words_lt_from(a, b, i + 1)
    }
}

impl Key {
    /// The strict order on keys: at the first word where they differ, `self` is smaller.
    pub open spec fn precedes(self, other: Key) -> bool {
        words_lt_from(self.0@, other.0@, 0)
    }

    /// Whether `self` comes strictly before `other` in key order.
    pub fn less_than(&self, other: &Key) -> (r: bool)
        ensures
            r == self.precedes(*other),
    {
        let mut i: usize = 0;
        while i < 8
            invariant
                i <= 8,
                self.precedes(*other) == words_lt_from(self.0@, other.0@, i as int),
            decreases 8 - i,
        {
            if self.0[i] != other.0[i] {
                return self.0[i] < other.0[i];
            }
            i += 1;
        }
        false
    }
}

impl Value {
    /// The all-zero value.
    pub fn empty() -> (r: Value)
        ensures
            r == empty_value(),
    {
        let r = Value([0u32; 8]);
        assert(r.0 =~= empty_value().0);
        r
    }
}

proof fn lemma_lt_from_irreflexive(a: Seq<u32>, i: int)
    ensures
        !words_lt_from(a, a, i),
    decreases 8 - i,
{
    if 0 <= i < 8 {
        lemma_lt_from_irreflexive(a, i + 1);
    }
}

proof fn lemma_lt_from_transitive(a: Seq<u32>, b: Seq<u32>, c: Seq<u32>, i: int)
    requires
        words_lt_from(a, b, i),
        words_lt_from(b, c, i),
    ensures
        words_lt_from(a, c, i),
    decreases 8 - i,
{
    if 0 <= i < 8 {
        if a[i] == b[i] && b[i] == c[i] {
            lemma_lt_from_transitive(a, b, c, i + 1);
        }
    }
}

proof fn lemma_lt_from_connected(a: Seq<u32>, b: Seq<u32>, i: int)
    requires
        0 <= i <= 8,
        !words_lt_from(a, b, i),
        !words_lt_from(b, a, i),
    ensures
        forall|j: int| i <= j < 8 ==> a[j] == b[j],
    decreases 8 - i,
{
    if i < 8 {
        lemma_lt_from_connected(a, b, i + 1);
    }
}

/// No key comes before itself.
pub proof fn lemma_key_order_irreflexive(a: Key)
    ensures
        !a.precedes(a),
{
    lemma_lt_from_irreflexive(a.0@, 0);
}

/// The key order is transitive.
pub proof fn lemma_key_order_transitive(a: Key, b: Key, c: Key)
    requires
        a.precedes(b),
        b.precedes(c),
    ensures
        a.precedes(c),
{
    lemma_lt_from_transitive(a.0@, b.0@, c.0@, 0);
}

/// Of two different keys one comes before the other.
pub proof fn lemma_key_order_connected(a: Key, b: Key)
    requires
        a != b,
    ensures
        a.precedes(b) || b.precedes(a),
{
    if !a.precedes(b) && !b.precedes(a) {
        lemma_lt_from_connected(a.0@, b.0@, 0);
        assert(a.0 =~= b.0);
    }
}

} // verus!
