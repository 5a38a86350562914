//! Application values and the order the engine puts on them.
//!
//! The engine never looks inside a value. All it needs is a canonical byte
//! string, the value's *key*: two values are the same value when their keys
//! are equal, values are ordered by comparing keys byte by byte, and the key
//! is what goes into a message digest.

use vstd::prelude::*;
use vstd::string::StrSliceExecFns;

verus! {

/// Strict lexicographic order on byte strings.
pub open spec fn key_lt(a: Seq<u8>, b: Seq<u8>) -> bool
    decreases a.len(),
{
    if b.len() == 0 {
        false
    } else if a.len() == 0 {
        true
    } else if a[0] != b[0] {
        a[0] < b[0]
    } else {
        key_lt(a.drop_first(), b.drop_first())
    }
}

/// Strict lexicographic order on lists of keys.
pub open spec fn keys_lt(a: Seq<Seq<u8>>, b: Seq<Seq<u8>>) -> bool
    decreases a.len(),
{
    if b.len() == 0 {
        false
    } else if a.len() == 0 {
        true
    } else if a[0] != b[0] {
        key_lt(a[0], b[0])
    } else {
        keys_lt(a.drop_first(), b.drop_first())
    }
}

/// No key is below itself.
pub proof fn lemma_key_lt_irreflexive(a: Seq<u8>)
    ensures
        !key_lt(a, a),
    decreases a.len(),
{
    if a.len() > 0 {
        lemma_key_lt_irreflexive(a.drop_first());
    }
}

/// Two keys are equal, or exactly one is below the other.
pub proof fn lemma_key_lt_total(a: Seq<u8>, b: Seq<u8>)
    ensures
        a == b || key_lt(a, b) || key_lt(b, a),
        !(key_lt(a, b) && key_lt(b, a)),
    decreases a.len(),
{
    if a.len() == 0 || b.len() == 0 {
        if a.len() == 0 && b.len() == 0 {
            assert(a =~= b);
        }
    } else if a[0] == b[0] {
        lemma_key_lt_total(a.drop_first(), b.drop_first());
        if a.drop_first() == b.drop_first() {
            assert(a =~= seq![a[0]] + a.drop_first());
            assert(b =~= seq![b[0]] + b.drop_first());
        }
    }
}

/// The order on keys is transitive.
pub proof fn lemma_key_lt_transitive(a: Seq<u8>, b: Seq<u8>, c: Seq<u8>)
    requires
        key_lt(a, b),
        key_lt(b, c),
    ensures
        key_lt(a, c),
    decreases a.len(),
{
    if a.len() > 0 && a[0] == b[0] && b[0] == c[0] {
        lemma_key_lt_transitive(a.drop_first(), b.drop_first(), c.drop_first());
    }
}

/// No list of keys is below itself.
pub proof fn lemma_keys_lt_irreflexive(a: Seq<Seq<u8>>)
    ensures
        !keys_lt(a, a),
    decreases a.len(),
{
    if a.len() > 0 {
        lemma_keys_lt_irreflexive(a.drop_first());
    }
}

/// Two lists of keys are equal, or exactly one is below the other.
pub proof fn lemma_keys_lt_total(a: Seq<Seq<u8>>, b: Seq<Seq<u8>>)
    ensures
        a == b || keys_lt(a, b) || keys_lt(b, a),
        !(keys_lt(a, b) && keys_lt(b, a)),
    decreases a.len(),
{
    if a.len() == 0 || b.len() == 0 {
        if a.len() == 0 && b.len() == 0 {
            assert(a =~= b);
        }
    } else if a[0] == b[0] {
        lemma_keys_lt_total(a.drop_first(), b.drop_first());
        if a.drop_first() == b.drop_first() {
            assert(a =~= seq![a[0]] + a.drop_first());
            assert(b =~= seq![b[0]] + b.drop_first());
        }
    } else {
        lemma_key_lt_total(a[0], b[0]);
    }
}

/// The order on lists of keys is transitive.
pub proof fn lemma_keys_lt_transitive(a: Seq<Seq<u8>>, b: Seq<Seq<u8>>, c: Seq<Seq<u8>>)
    requires
        keys_lt(a, b),
        keys_lt(b, c),
    ensures
        keys_lt(a, c),
    decreases a.len(),
{
    if a.len() > 0 {
        if a[0] == b[0] && b[0] == c[0] {
            lemma_keys_lt_transitive(a.drop_first(), b.drop_first(), c.drop_first());
        } else if a[0] != b[0] && b[0] != c[0] {
            lemma_key_lt_transitive(a[0], b[0], c[0]);
            lemma_key_lt_irreflexive(a[0]);
        }
    }
}

/// How two things stand in an order.
#[derive(Clone, Copy, Debug, PartialEq, Eq, Structural)]
pub enum Rank {
    Below,
    Same,
    Above,
}

/// Where `a` stands relative to `b` in the order on keys.
pub open spec fn key_rank(a: Seq<u8>, b: Seq<u8>) -> Rank {
    if a == b {
        Rank::Same
    } else if key_lt(a, b) {
        Rank::Below
    } else {
        Rank::Above
    }
}

/// Where `a` stands relative to `b` in the order on lists of keys.
pub open spec fn keys_rank(a: Seq<Seq<u8>>, b: Seq<Seq<u8>>) -> Rank {
    if a == b {
        Rank::Same
    } else if keys_lt(a, b) {
        Rank::Below
    } else {
        Rank::Above
    }
}

proof fn lemma_key_lt_skip(a: Seq<u8>, b: Seq<u8>, i: int)
    requires
        0 <= i <= a.len(),
        i <= b.len(),
        a.take(i) == b.take(i),
    ensures
        key_lt(a, b) == key_lt(a.skip(i), b.skip(i)),
        (a == b) == (a.skip(i) == b.skip(i)),
    decreases i,
{
    if i == 0 {
        assert(a.skip(0) =~= a);
        assert(b.skip(0) =~= b);
    } else {
        assert(a[0] == a.take(i)[0]);
        assert(b[0] == b.take(i)[0]);
        assert(a.drop_first().take(i - 1) =~= a.take(i).drop_first());
        assert(b.drop_first().take(i - 1) =~= b.take(i).drop_first());
        lemma_key_lt_skip(a.drop_first(), b.drop_first(), i - 1);
        assert(a.drop_first().skip(i - 1) =~= a.skip(i));
        assert(b.drop_first().skip(i - 1) =~= b.skip(i));
        if a.skip(i) == b.skip(i) {
            assert(a =~= a.take(i) + a.skip(i));
            assert(b =~= b.take(i) + b.skip(i));
        }
    }
}

/// Compares two byte strings in the order on keys.
pub fn compare_bytes(a: &Vec<u8>, b: &Vec<u8>) -> (r: Rank)
    ensures
        r == key_rank(a@, b@),
{
    let mut i: usize = 0;
    while i < a.len() && i < b.len()
        invariant
            i <= a.len(),
            i <= b.len(),
            a@.take(i as int) == b@.take(i as int),
        decreases a.len() - i,
    {
        if a[i] != b[i] {
            proof {
                lemma_key_lt_skip(a@, b@, i as int);
                lemma_key_lt_total(a@, b@);
                assert(a@.skip(i as int)[0] == a@[i as int]);
                assert(b@.skip(i as int)[0] == b@[i as int]);
            }
            if a[i] < b[i] {
                return Rank::Below;
            } else {
                return Rank::Above;
            }
        }
        assert(a@.take(i + 1) =~= a@.take(i as int).push(a@[i as int]));
        assert(b@.take(i + 1) =~= b@.take(i as int).push(b@[i as int]));
        i = i + 1;
    }
    proof {
        lemma_key_lt_skip(a@, b@, i as int);
        lemma_key_lt_total(a@, b@);
        if i == a.len() && i == b.len() {
            assert(a@.skip(i as int) =~= b@.skip(i as int));
        }
    }
    if i < b.len() {
        Rank::Below
    } else if i < a.len() {
        Rank::Above
    } else {
        Rank::Same
    }
}

/// An application value.
///
/// `key` is the value's canonical byte string. Implementations must make it
/// stand for the value: the engine treats values with equal keys as equal.
pub trait Value: Sized {
    /// The canonical byte string of the value.
    open spec fn key(&self) -> Seq<u8> {
        arbitrary()
    }

    /// Computes the canonical byte string.
    fn to_key(&self) -> (k: Vec<u8>)
        ensures
            k@ == self.key(),
    ;

    /// A copy of the value.
    fn replicate(&self) -> (r: Self)
        ensures
            r.key() == self.key(),
    ;
}

/// The keys of a list of values, in the same order.
pub open spec fn keys_of<V: Value>(values: Seq<V>) -> Seq<Seq<u8>> {
    Seq::new(values.len(), |i: int| values[i].key())
}

/// Compares two values in the order on keys.
pub fn compare_values<V: Value>(a: &V, b: &V) -> (r: Rank)
    ensures
        r == key_rank(a.key(), b.key()),
{
    let ka = a.to_key();
    let kb = b.to_key();
    compare_bytes(&ka, &kb)
}

/// The big-endian bytes of a 32-bit number.
pub open spec fn u32_key(v: u32) -> Seq<u8> {
    seq![
        ((v >> 24) & 0xff) as u8,
        ((v >> 16) & 0xff) as u8,
        ((v >> 8) & 0xff) as u8,
        (v & 0xff) as u8,
    ]
}

/// The big-endian bytes of a 64-bit number.
pub open spec fn u64_key(v: u64) -> Seq<u8> {
    u32_key((v >> 32) as u32) + u32_key((v & 0xffff_ffff) as u32)
}

/// Writes a 32-bit number as four big-endian bytes.
pub fn u32_to_bytes(v: u32) -> (k: Vec<u8>)
    ensures
        k@ == u32_key(v),
{
    assert(((v >> 24) & 0xff) < 256 && ((v >> 16) & 0xff) < 256 && ((v >> 8) & 0xff) < 256 && (v
        & 0xff) < 256) by (bit_vector);
    let mut k: Vec<u8> = Vec::new();
    k.push(((v >> 24) & 0xff) as u8);
    k.push(((v >> 16) & 0xff) as u8);
    k.push(((v >> 8) & 0xff) as u8);
    k.push((v & 0xff) as u8);
    assert(k@ =~= u32_key(v));
    k
}

/// Writes a 64-bit number as eight big-endian bytes.
pub fn u64_to_bytes(v: u64) -> (k: Vec<u8>)
    ensures
        k@ == u64_key(v),
{
    assert((v >> 32) <= 0xffff_ffff && (v & 0xffff_ffff) <= 0xffff_ffff) by (bit_vector);
    let mut k = u32_to_bytes((v >> 32) as u32);
    let mut low = u32_to_bytes((v & 0xffff_ffff) as u32);
    k.append(&mut low);
    k
}

impl Value for u32 {
    open spec fn key(&self) -> Seq<u8> {
        u32_key(*self)
    }

    fn to_key(&self) -> (k: Vec<u8>) {
        u32_to_bytes(*self)
    }

    fn replicate(&self) -> (r: Self) {
        *self
    }
}

impl Value for u64 {
    open spec fn key(&self) -> Seq<u8> {
        u64_key(*self)
    }

    fn to_key(&self) -> (k: Vec<u8>) {
        u64_to_bytes(*self)
    }

    fn replicate(&self) -> (r: Self) {
        *self
    }
}

impl Value for String {
    open spec fn key(&self) -> Seq<u8> {
        vstd::utf8::encode_utf8(self@)
    }

    fn to_key(&self) -> (k: Vec<u8>) {
        self.as_str().as_bytes_vec()
    }

    fn replicate(&self) -> (r: Self) {
        self.clone()
    }
}

} // verus!
