//! Fixtures for trying the engine out: trivial application callbacks, node
//! identifiers made from small numbers, and a few small networks.

use crate::callbacks::{CombineFn, ValidityFn};
use crate::node_id::{NodeID, NodeIdView};
use crate::quorum_set::QuorumSet;
use crate::quorum_set_text::{digits_end, digits_value, is_digit, number_at, read_number};
use crate::slot::Slot;
use crate::value::{u32_key, u32_to_bytes, Value};
use crate::value_set::{sorted_keys, ValueSet};
use vstd::prelude::*;
use vstd::string::StrSliceExecFns;
use vstd::string::StringExecFns;

verus! {

/// What the trivial validity test would report, if it ever failed.
pub struct TransactionValidationError;

impl TransactionValidationError {
    /// The error in words.
    pub fn to_string(&self) -> (r: String)
        ensures
            r@ == "TransactionValidationError"@,
    {
        "TransactionValidationError".to_string()
    }
}

/// Holds every value valid.
pub fn trivial_validity_fn<T: Value>(_value: &T) -> (r: Result<(), TransactionValidationError>)
    ensures
        r is Ok,
{
    Ok(())
}

/// Hands `values` back.
pub fn trivial_combine_fn<T: Value>(values: ValueSet<T>) -> (r: ValueSet<T>)
    ensures
        r == values,
{
    values
}

/// The validity test that passes every value.
pub struct TrivialValidity;

impl<V: Value> ValidityFn<V> for TrivialValidity {
    type Error = TransactionValidationError;

    open spec fn valid(&self, key: Seq<u8>) -> bool {
        true
    }

    fn validate(&self, value: &V) -> (r: Result<(), TransactionValidationError>) {
        trivial_validity_fn(value)
    }
}

/// The combination that keeps every value.
pub struct TrivialCombine;

impl<V: Value> CombineFn<V> for TrivialCombine {
    open spec fn combined(&self, keys: Set<Seq<u8>>) -> Set<Seq<u8>> {
        keys
    }

    fn combine(&self, values: &ValueSet<V>) -> (r: ValueSet<V>) {
        trivial_combine_fn(values.duplicate())
    }
}

/// The combination that keeps at most the first `max_elements` values of
/// the ascending order.
pub struct BoundedCombine {
    /// How many values are kept at most.
    pub max_elements: usize,
}

/// The first `n` keys of `keys` in ascending order, or all if there are
/// fewer.
pub open spec fn first_keys(keys: Set<Seq<u8>>, n: usize) -> Set<Seq<u8>> {
    let sorted = sorted_keys(keys);
    sorted.take(
        if n <= sorted.len() {
            n as int
        } else {
            sorted.len() as int
        },
    ).to_set()
}

impl<V: Value> CombineFn<V> for BoundedCombine {
    open spec fn combined(&self, keys: Set<Seq<u8>>) -> Set<Seq<u8>> {
        first_keys(keys, self.max_elements)
    }

    fn combine(&self, values: &ValueSet<V>) -> (r: ValueSet<V>) {
        proof {
            use_type_invariant(values);
            values.lemma_keys_sorted();
        }
        values.first(self.max_elements)
    }
}

/// The combination that keeps at most the first `max_elements` values.
pub fn get_bounded_combine_fn(max_elements: usize) -> (r: BoundedCombine)
    ensures
        r.max_elements == max_elements,
{
    BoundedCombine { max_elements }
}

/// The character of a decimal digit.
pub open spec fn digit_char(d: nat) -> char {
    if d == 0 {
        '0'
    } else if d == 1 {
        '1'
    } else if d == 2 {
        '2'
    } else if d == 3 {
        '3'
    } else if d == 4 {
        '4'
    } else if d == 5 {
        '5'
    } else if d == 6 {
        '6'
    } else if d == 7 {
        '7'
    } else if d == 8 {
        '8'
    } else {
        '9'
    }
}

/// The decimal digits of `n`, without leading zeros.
pub open spec fn decimal(n: nat) -> Seq<char>
    decreases n,
{
    if n < 10 {
        seq![digit_char(n)]
    } else {
        decimal(n / 10).push(digit_char(n % 10))
    }
}

/// The text of one decimal digit.
fn digit_str(d: u32) -> (s: &'static str)
    requires
        d < 10,
    ensures
        s@ == seq![digit_char(d as nat)],
{
    proof {
        reveal_strlit("0");
        reveal_strlit("1");
        reveal_strlit("2");
        reveal_strlit("3");
        reveal_strlit("4");
        reveal_strlit("5");
        reveal_strlit("6");
        reveal_strlit("7");
        reveal_strlit("8");
        reveal_strlit("9");
    }
    let s = if d == 0 {
        "0"
    } else if d == 1 {
        "1"
    } else if d == 2 {
        "2"
    } else if d == 3 {
        "3"
    } else if d == 4 {
        "4"
    } else if d == 5 {
        "5"
    } else if d == 6 {
        "6"
    } else if d == 7 {
        "7"
    } else if d == 8 {
        "8"
    } else {
        "9"
    };
    assert(s@ =~= seq![digit_char(d as nat)]);
    s
}

/// Writes `n` in decimal digits.
pub fn decimal_string(n: u32) -> (s: String)
    ensures
        s@ == decimal(n as nat),
    decreases n,
{
    if n < 10 {
        String::from_str(digit_str(n))
    } else {
        let mut s = decimal_string(n / 10);
        s.append(digit_str(n % 10));
        assert(s@ =~= decimal((n / 10) as nat).push(digit_char((n % 10) as nat)));
        s
    }
}

/// The address of the test node with the number `node_id`.
pub open spec fn test_responder_id(node_id: u32) -> Seq<char> {
    "node"@ + decimal(node_id as nat) + ".test.com:8443"@
}

/// The key bytes of the test node with the number `node_id`: the number in
/// four bytes, then zeros up to thirty-two.
pub open spec fn test_key_bytes(node_id: u32) -> Seq<u8> {
    u32_key(node_id) + Seq::new(28, |i: int| 0u8)
}

/// The identifier of the test node with the number `node_id`.
pub open spec fn test_node_id_view(node_id: u32) -> NodeIdView {
    NodeIdView { responder_id: test_responder_id(node_id), public_key: test_key_bytes(node_id) }
}

/// Makes the identifier of a test node from a number.
///
/// The key bytes are made from the number alone. They tell test nodes
/// apart; they are not the public half of any signing key.
pub fn test_node_id(node_id: u32) -> (r: NodeID)
    ensures
        r@ == test_node_id_view(node_id),
{
    let mut name = String::from_str("node");
    let digits = decimal_string(node_id);
    name.append(digits.as_str());
    name.append(".test.com:8443");
    let mut key = u32_to_bytes(node_id);
    let mut i: usize = 0;
    while i < 28
        invariant
            i <= 28,
            key@ == u32_key(node_id) + Seq::new(i as nat, |j: int| 0u8),
        decreases 28 - i,
    {
        key.push(0u8);
        assert(key@ =~= u32_key(node_id) + Seq::new((i + 1) as nat, |j: int| 0u8));
        i = i + 1;
    }
    NodeID { responder_id: name, public_key: key }
}

/// A new slot for the test node `node_id`, with a base interval of one
/// second.
pub fn get_slot<V: Value>(slot_index: u64, node_id: &NodeID, quorum_set: &QuorumSet) -> (r: Slot<V>)
    ensures
        r@ == crate::slot::fresh_slot(node_id@, quorum_set@, slot_index, 1000),
{
    Slot::new(node_id.duplicate(), quorum_set.duplicate(), slot_index, 1000)
}

/// Whether `c` is a decimal digit.
pub open spec fn is_digit_char(c: char) -> bool {
    '0' <= c <= '9'
}

/// Where the digits of `r` that start at `i` end.
pub open spec fn char_digits_end(r: Seq<char>, i: int) -> int
    decreases r.len() - i,
{
    if 0 <= i < r.len() && is_digit_char(r[i]) {
        char_digits_end(r, i + 1)
    } else {
        i
    }
}

/// The number that the digits `ds` write.
pub open spec fn char_digits_value(ds: Seq<char>) -> nat
    decreases ds.len(),
{
    if ds.len() == 0 {
        0
    } else {
        char_digits_value(ds.drop_last()) * 10 + (ds.last() as nat - 48) as nat
    }
}

/// The number of the test node with the address `r`: what stands between
/// `node` and `.test.com:8443`, if that is a number of thirty-two bits
/// written without leading zeros.
pub open spec fn responder_index(r: Seq<char>) -> Option<u32> {
    let e = char_digits_end(r, 4);
    let v = char_digits_value(r.subrange(4, e));
    if r.len() >= 4 && r.take(4) == "node"@ && 4 < e <= r.len() && (r[4] != '0' || e == 5) && v
        <= u32::MAX && r.skip(e) == ".test.com:8443"@ {
        Some(v as u32)
    } else {
        None
    }
}

proof fn lemma_digit_char(d: nat)
    requires
        d < 10,
    ensures
        digit_char(d) as nat == 48 + d,
        is_digit_char(digit_char(d)),
{
}

/// What `decimal` writes: digits only, at least one, no zero in front of
/// others, and the number they write is the number written.
pub proof fn lemma_decimal(n: nat)
    ensures
        decimal(n).len() >= 1,
        forall|k: int| 0 <= k < decimal(n).len() ==> is_digit_char(#[trigger] decimal(n)[k]),
        n > 0 ==> decimal(n)[0] != '0',
        n < 10 ==> decimal(n).len() == 1,
        n >= 10 ==> decimal(n).len() > 1,
        char_digits_value(decimal(n)) == n,
    decreases n,
{
    lemma_digit_char(n % 10);
    if n < 10 {
        assert(decimal(n).drop_last() =~= Seq::<char>::empty());
        assert(char_digits_value(decimal(n).drop_last()) == 0);
        assert(decimal(n).last() == digit_char(n));
        assert(char_digits_value(decimal(n)) == 0 * 10 + n);
    } else {
        lemma_decimal(n / 10);
        let init = decimal(n / 10);
        let all = decimal(n);
        assert(all.drop_last() =~= init);
        assert(all.last() == digit_char(n % 10));
        assert(char_digits_value(all) == char_digits_value(init) * 10 + n % 10);
        assert(all[0] == init[0]);
        assert forall|k: int| 0 <= k < all.len() implies is_digit_char(#[trigger] all[k]) by {
            if k < init.len() {
                assert(all[k] == init[k]);
            }
        }
    }
}

/// Digits without a zero in front of others are what `decimal` writes of
/// their number.
pub proof fn lemma_decimal_of_value(ds: Seq<char>)
    requires
        ds.len() >= 1,
        forall|k: int| 0 <= k < ds.len() ==> is_digit_char(#[trigger] ds[k]),
        ds[0] != '0' || ds.len() == 1,
    ensures
        decimal(char_digits_value(ds)) == ds,
        ds[0] != '0' ==> char_digits_value(ds) > 0,
    decreases ds.len(),
{
    let d = (ds.last() as nat - 48) as nat;
    assert(is_digit_char(ds[ds.len() - 1]));
    lemma_digit_char(d);
    assert(digit_char(d) == ds.last());
    if ds.len() == 1 {
        assert(ds.drop_last() =~= Seq::<char>::empty());
        assert(char_digits_value(ds.drop_last()) == 0);
        assert(decimal(d) =~= ds);
    } else {
        let init = ds.drop_last();
        assert(init[0] == ds[0]);
        assert forall|k: int| 0 <= k < init.len() implies is_digit_char(#[trigger] init[k]) by {
            assert(init[k] == ds[k]);
        }
        lemma_decimal_of_value(init);
        let v = char_digits_value(ds);
        let w = char_digits_value(init);
        assert(v == w * 10 + d);
        assert(v / 10 == w && v % 10 == d) by (nonlinear_arith)
            requires
                v == w * 10 + d,
                d < 10,
        ;
        assert(decimal(v) =~= init.push(ds.last()));
        assert(init.push(ds.last()) =~= ds);
    }
}

proof fn lemma_char_digits_end(r: Seq<char>, i: int, e: int)
    requires
        0 <= i <= e <= r.len(),
        forall|k: int| i <= k < e ==> is_digit_char(#[trigger] r[k]),
        e < r.len() ==> !is_digit_char(r[e]),
    ensures
        char_digits_end(r, i) == e,
    decreases e - i,
{
    if i < e {
        lemma_char_digits_end(r, i + 1, e);
    }
}

proof fn lemma_char_digits_end_bounds(r: Seq<char>, i: int)
    requires
        0 <= i <= r.len(),
    ensures
        i <= char_digits_end(r, i) <= r.len(),
        forall|k: int| i <= k < char_digits_end(r, i) ==> is_digit_char(#[trigger] r[k]),
    decreases r.len() - i,
{
    if i < r.len() && is_digit_char(r[i]) {
        lemma_char_digits_end_bounds(r, i + 1);
    }
}

/// The address of a test node gives its number back.
pub proof fn lemma_index_of_test_responder(n: u32)
    ensures
        responder_index(test_responder_id(n)) == Some(n),
{
    reveal_strlit("node");
    reveal_strlit(".test.com:8443");
    lemma_decimal(n as nat);
    let ds = decimal(n as nat);
    let r = test_responder_id(n);
    let e: int = 4 + ds.len() as int;
    assert(r.len() == e + 14);
    assert(r.take(4) =~= "node"@);
    assert forall|k: int| 4 <= k < e implies is_digit_char(#[trigger] r[k]) by {
        assert(r[k] == ds[k - 4]);
    }
    assert(r[e] == '.');
    lemma_char_digits_end(r, 4, e);
    assert(r.subrange(4, e) =~= ds);
    assert(r.skip(e) =~= ".test.com:8443"@);
    assert(r[4] == ds[0]);
}

/// An address that has a number is the address of the test node with that
/// number.
pub proof fn lemma_responder_of_index(r: Seq<char>)
    requires
        responder_index(r) is Some,
    ensures
        r == test_responder_id(responder_index(r)->0),
{
    let e = char_digits_end(r, 4);
    let ds = r.subrange(4, e);
    lemma_char_digits_end_bounds(r, 4);
    assert forall|k: int| 0 <= k < ds.len() implies is_digit_char(#[trigger] ds[k]) by {
        assert(ds[k] == r[k + 4]);
    }
    assert(ds[0] == r[4]);
    lemma_decimal_of_value(ds);
    assert(r =~= r.take(4) + ds + r.skip(e));
}

/// Two test nodes with different numbers have different identifiers.
pub proof fn lemma_test_node_ids_differ(a: u32, b: u32)
    requires
        a != b,
    ensures
        test_node_id_view(a) != test_node_id_view(b),
{
    lemma_index_of_test_responder(a);
    lemma_index_of_test_responder(b);
}

/// Whether `c` is a decimal digit.
fn char_is_digit(c: char) -> (b: bool)
    ensures
        b == is_digit_char(c),
{
    '0' <= c && c <= '9'
}

/// The number of the test node `node_id`, if it is one.
pub fn parse_test_node_index(node_id: &NodeID) -> (r: Option<u32>)
    ensures
        r == responder_index(node_id@.responder_id),
        match r {
            Some(n) => node_id@.responder_id == test_responder_id(n),
            None => forall|n: u32| node_id@.responder_id != test_responder_id(n),
        },
{
    let text = node_id.responder_id.as_str();
    let ghost chars = text@;
    proof {
        if responder_index(chars) is Some {
            lemma_responder_of_index(chars);
        } else {
            assert forall|n: u32| chars != test_responder_id(n) by {
                lemma_index_of_test_responder(n);
            }
        }
    }
    let len = text.unicode_len();
    if len < 4 {
        return None;
    }
    let head = String::from_str(text.substring_char(0, 4));
    if !(head == String::from_str("node")) {
        assert(chars.subrange(0, 4) =~= chars.take(4));
        return None;
    }
    assert(chars.subrange(0, 4) =~= chars.take(4));
    let mut j: usize = 4;
    let mut value: u64 = 0;
    let mut fits = true;
    proof {
        assert(chars.subrange(4, 4) =~= Seq::<char>::empty());
    }
    while j < len && char_is_digit(text.get_char(j))
        invariant
            4 <= j <= len,
            len == chars.len(),
            chars == text@,
            char_digits_end(chars, 4) == char_digits_end(chars, j as int),
            fits ==> value == char_digits_value(chars.subrange(4, j as int)) && value <= u32::MAX,
            !fits ==> char_digits_value(chars.subrange(4, j as int)) > u32::MAX,
        decreases len - j,
    {
        let c = text.get_char(j);
        proof {
            let run = chars.subrange(4, j + 1);
            assert(run.drop_last() =~= chars.subrange(4, j as int));
            assert(run.last() == chars[j as int]);
        }
        if fits {
            value = value * 10 + (c as u64 - 48);
            if value > u32::MAX as u64 {
                fits = false;
            }
        }
        j = j + 1;
    }
    if j == 4 || !fits {
        return None;
    }
    if text.get_char(4) == '0' && j != 5 {
        return None;
    }
    let rest = String::from_str(text.substring_char(j, len));
    assert(chars.subrange(j as int, len as int) =~= chars.skip(j as int));
    if !(rest == String::from_str(".test.com:8443")) {
        return None;
    }
    Some(value as u32)
}

/// Where the first part of an address ends: at its first dot from `i` on, or
/// at its end if there is none.
pub open spec fn first_part_end(bytes: Seq<u8>, i: int) -> int
    decreases bytes.len() - i,
{
    if 0 <= i < bytes.len() && bytes[i] != 46 {
        first_part_end(bytes, i + 1)
    } else {
        i
    }
}

/// The number that an address holds: what stands in its first part, the
/// part before the first dot, after the first four bytes. That must be a
/// decimal number of thirty-two bits, with or without a plus sign and zeros
/// in front.
pub open spec fn address_index(bytes: Seq<u8>) -> Option<u32> {
    let end = first_part_end(bytes, 0);
    let start: int = if bytes.len() > 4 && bytes[4] == 43 {
        5
    } else {
        4
    };
    if start <= bytes.len() {
        match number_at(bytes, start) {
            Some((n, j)) => if j == end {
                Some(n)
            } else {
                None
            },
            None => None,
        }
    } else {
        None
    }
}

proof fn lemma_first_part_end(bytes: Seq<u8>, i: int, e: int)
    requires
        0 <= i <= e <= bytes.len(),
        forall|k: int| i <= k < e ==> #[trigger] bytes[k] != 46,
        e < bytes.len() ==> bytes[e] == 46,
    ensures
        first_part_end(bytes, i) == e,
    decreases e - i,
{
    if i < e {
        lemma_first_part_end(bytes, i + 1, e);
    }
}

proof fn lemma_digits_end(bytes: Seq<u8>, i: int, e: int)
    requires
        0 <= i <= e <= bytes.len(),
        forall|k: int| i <= k < e ==> is_digit(#[trigger] bytes[k]),
        e < bytes.len() ==> !is_digit(bytes[e]),
    ensures
        digits_end(bytes, i) == e,
    decreases e - i,
{
    if i < e {
        lemma_digits_end(bytes, i + 1, e);
    }
}

proof fn lemma_digits_value_of_chars(ds: Seq<char>, bytes: Seq<u8>)
    requires
        ds.len() == bytes.len(),
        forall|k: int| 0 <= k < ds.len() ==> is_digit_char(#[trigger] ds[k]) && bytes[k] == ds[k] as u8,
    ensures
        digits_value(bytes) == char_digits_value(ds),
    decreases ds.len(),
{
    if ds.len() > 0 {
        assert(is_digit_char(ds[ds.len() - 1]));
        lemma_digits_value_of_chars(ds.drop_last(), bytes.drop_last());
    }
}

/// The address of a test node holds the node's number.
pub proof fn lemma_address_index_of_test_node(n: u32)
    ensures
        address_index(vstd::utf8::encode_utf8(test_responder_id(n))) == Some(n),
{
    reveal_strlit("node");
    reveal_strlit(".test.com:8443");
    lemma_decimal(n as nat);
    let ds = decimal(n as nat);
    let r = test_responder_id(n);
    let e: int = 4 + ds.len() as int;
    assert(r.len() == e + 14);
    assert forall|k: int| 0 <= k < r.len() implies '\0' <= #[trigger] r[k] <= '\u{7f}' by {
        if 4 <= k < e {
            assert(r[k] == ds[k - 4]);
            assert(is_digit_char(ds[k - 4]));
        }
    }
    assert(vstd::utf8::is_ascii_chars(r));
    vstd::utf8::is_ascii_chars_encode_utf8(r);
    let bytes = vstd::utf8::encode_utf8(r);
    assert forall|k: int| 4 <= k < e implies is_digit(#[trigger] bytes[k]) && bytes[k] != 46 by {
        assert(bytes[k] == r[k] as u8);
        assert(r[k] == ds[k - 4]);
        assert(is_digit_char(ds[k - 4]));
    }
    assert forall|k: int| 0 <= k < e implies #[trigger] bytes[k] != 46 by {
        assert(bytes[k] == r[k] as u8);
        if k >= 4 {
            assert(is_digit(bytes[k]));
        }
    }
    assert(bytes[e] == r[e] as u8);
    assert(r[e] == '.');
    lemma_first_part_end(bytes, 0, e);
    lemma_digits_end(bytes, 4, e);
    let run = bytes.subrange(4, e);
    assert forall|k: int| 0 <= k < ds.len() implies is_digit_char(#[trigger] ds[k]) && run[k]
        == ds[k] as u8 by {
        assert(run[k] == bytes[k + 4]);
        assert(bytes[k + 4] == r[k + 4] as u8);
        assert(r[k + 4] == ds[k]);
    }
    lemma_digits_value_of_chars(ds, run);
    assert(bytes[4] == r[4] as u8 && r[4] == ds[0]);
}

/// The number that the address of `node_id` holds, if it holds one.
pub fn parse_node_index(node_id: &NodeID) -> (r: Option<u32>)
    ensures
        r == address_index(vstd::utf8::encode_utf8(node_id@.responder_id)),
{
    let bytes = node_id.responder_id.as_str().as_bytes();
    let mut end: usize = 0;
    while end < bytes.len() && bytes[end] != 46
        invariant
            end <= bytes.len(),
            first_part_end(bytes@, 0) == first_part_end(bytes@, end as int),
        decreases bytes.len() - end,
    {
        end = end + 1;
    }
    let start: usize = if bytes.len() > 4 && bytes[4] == 43 {
        5
    } else {
        4
    };
    if start > bytes.len() {
        return None;
    }
    match read_number(bytes, start) {
        Some((n, j)) => if j == end {
            Some(n)
        } else {
            None
        },
        None => None,
    }
}

/// The number that the address of `node_id` holds.
pub fn recover_test_node_index(node_id: &NodeID) -> (r: u32)
    requires
        address_index(vstd::utf8::encode_utf8(node_id@.responder_id)) is Some,
    ensures
        Some(r) == address_index(vstd::utf8::encode_utf8(node_id@.responder_id)),
{
    match parse_node_index(node_id) {
        Some(n) => n,
        None => 0,
    }
}

/// The node identifiers `ids` as the members of a quorum set.
pub open spec fn test_members(ids: Seq<u32>) -> Seq<crate::quorum_set::MemberView> {
    Seq::new(ids.len(), |i: int| crate::quorum_set::MemberView::Node(test_node_id_view(ids[i])))
}

/// The test node `node_id` with the quorum set of threshold `threshold`
/// over the test nodes `trusted`.
pub fn test_node(node_id: u32, threshold: u32, trusted: &[u32]) -> (r: (NodeID, QuorumSet))
    ensures
        r.0@ == test_node_id_view(node_id),
        r.1@ == (crate::quorum_set::QuorumSetView { threshold, members: test_members(trusted@) }),
{
    let mut ids: Vec<NodeID> = Vec::new();
    let mut i: usize = 0;
    while i < trusted.len()
        invariant
            i <= trusted.len(),
            ids.len() == i,
            forall|j: int| 0 <= j < i ==> (#[trigger] ids[j])@ == test_node_id_view(trusted[j]),
        decreases trusted.len() - i,
    {
        ids.push(test_node_id(trusted[i]));
        i = i + 1;
    }
    let q = QuorumSet::new_with_node_ids(threshold, ids);
    assert(q@.members =~= test_members(trusted@));
    (test_node_id(node_id), q)
}

/// Three nodes in a cycle: node 1 trusts node 2, node 2 trusts node 3 and
/// node 3 trusts node 1. The only quorum is all three.
pub fn three_node_cycle() -> (r: ((NodeID, QuorumSet), (NodeID, QuorumSet), (NodeID, QuorumSet)))
    ensures
        r.0.0@ == test_node_id_view(1) && r.0.1@.threshold == 1 && r.0.1@.members == test_members(
            seq![2u32],
        ),
        r.1.0@ == test_node_id_view(2) && r.1.1@.threshold == 1 && r.1.1@.members == test_members(
            seq![3u32],
        ),
        r.2.0@ == test_node_id_view(3) && r.2.1@.threshold == 1 && r.2.1@.members == test_members(
            seq![1u32],
        ),
{
    let a = [2u32];
    let b = [3u32];
    let c = [1u32];
    let r = (test_node(1, 1, a.as_slice()), test_node(2, 1, b.as_slice()), test_node(3, 1, c.as_slice()));
    assert(a@ =~= seq![2u32] && b@ =~= seq![3u32] && c@ =~= seq![1u32]);
    r
}

/// A network of four nodes: node 1 needs nodes 2 and 3, and each of the
/// nodes 2, 3 and 4 needs the other two of them. The only quorum that holds
/// node 1 is all four.
pub fn fig_2_network() -> (r: (
    (NodeID, QuorumSet),
    (NodeID, QuorumSet),
    (NodeID, QuorumSet),
    (NodeID, QuorumSet),
))
    ensures
        r.0.0@ == test_node_id_view(1) && r.0.1@.threshold == 2 && r.0.1@.members == test_members(
            seq![2u32, 3u32],
        ),
        r.1.0@ == test_node_id_view(2) && r.1.1@.threshold == 2 && r.1.1@.members == test_members(
            seq![3u32, 4u32],
        ),
        r.2.0@ == test_node_id_view(3) && r.2.1@.threshold == 2 && r.2.1@.members == test_members(
            seq![2u32, 4u32],
        ),
        r.3.0@ == test_node_id_view(4) && r.3.1@.threshold == 2 && r.3.1@.members == test_members(
            seq![2u32, 3u32],
        ),
{
    let a = [2u32, 3u32];
    let b = [3u32, 4u32];
    let c = [2u32, 4u32];
    let r = (
        test_node(1, 2, a.as_slice()),
        test_node(2, 2, b.as_slice()),
        test_node(3, 2, c.as_slice()),
        test_node(4, 2, a.as_slice()),
    );
    assert(a@ =~= seq![2u32, 3u32] && b@ =~= seq![3u32, 4u32] && c@ =~= seq![2u32, 4u32]);
    r
}

/// Three nodes of which each needs both others. The only quorum is all
/// three, and each node blocks the others.
pub fn three_node_dense_graph() -> (r: (
    (NodeID, QuorumSet),
    (NodeID, QuorumSet),
    (NodeID, QuorumSet),
))
    ensures
        r.0.0@ == test_node_id_view(1) && r.0.1@.threshold == 2 && r.0.1@.members == test_members(
            seq![2u32, 3u32],
        ),
        r.1.0@ == test_node_id_view(2) && r.1.1@.threshold == 2 && r.1.1@.members == test_members(
            seq![1u32, 3u32],
        ),
        r.2.0@ == test_node_id_view(3) && r.2.1@.threshold == 2 && r.2.1@.members == test_members(
            seq![1u32, 2u32],
        ),
{
    let a = [2u32, 3u32];
    let b = [1u32, 3u32];
    let c = [1u32, 2u32];
    let r = (test_node(1, 2, a.as_slice()), test_node(2, 2, b.as_slice()), test_node(3, 2, c.as_slice()));
    assert(a@ =~= seq![2u32, 3u32] && b@ =~= seq![1u32, 3u32] && c@ =~= seq![1u32, 2u32]);
    r
}

} // verus!
