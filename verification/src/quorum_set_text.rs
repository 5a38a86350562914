//! Quorum sets of test nodes as text.
//!
//! A quorum set is written as its threshold in square brackets followed by
//! its members, all separated by commas and enclosed in round brackets:
//! `([2],1,2,([1],3,4))`. A member is the number of a test node or a quorum
//! set. Numbers are decimal. `()` is the quorum set without members.

use crate::quorum_set::{
    lemma_members_view, lemma_members_view_push, member_view, members_view, MemberView, QuorumSet,
    QuorumSetMember, QuorumSetView,
};
use crate::test_utils::{
    address_index, decimal, decimal_string, recover_test_node_index, test_node_id,
    test_node_id_view,
};
use vstd::prelude::*;
use vstd::string::StringExecFns;
use vstd::string::StringSliceAdditionalSpecFns;

verus! {

/// A text that is not a quorum set.
#[derive(Debug)]
pub struct ParseError;

impl ParseError {
    /// The error in words.
    pub fn to_string(&self) -> (r: String)
        ensures
            r@ == "failed to parse"@,
    {
        "failed to parse".to_string()
    }
}

/// Whether `b` is the byte of a decimal digit.
pub open spec fn is_digit(b: u8) -> bool {
    48 <= b <= 57
}

/// Where the digits that start at `i` end.
pub open spec fn digits_end(s: Seq<u8>, i: int) -> int
    decreases s.len() - i,
{
    if 0 <= i < s.len() && is_digit(s[i]) {
        digits_end(s, i + 1)
    } else {
        i
    }
}

/// The number that the digits `ds` write.
pub open spec fn digits_value(ds: Seq<u8>) -> nat
    decreases ds.len(),
{
    if ds.len() == 0 {
        0
    } else {
        digits_value(ds.drop_last()) * 10 + (ds.last() - 48) as nat
    }
}

/// The number written at `i` and where it ends: at least one digit, and a
/// value that fits thirty-two bits.
pub open spec fn number_at(s: Seq<u8>, i: int) -> Option<(u32, int)> {
    let j = digits_end(s, i);
    let v = digits_value(s.subrange(i, j));
    if 0 <= i < j <= s.len() && v <= u32::MAX {
        Some((v as u32, j))
    } else {
        None
    }
}

/// Whether the byte at `i` is `b`.
pub open spec fn byte_is(s: Seq<u8>, i: int, b: u8) -> bool {
    0 <= i < s.len() && s[i] == b
}

/// The quorum set written at `i` and where it ends.
pub open spec fn set_at(s: Seq<u8>, i: int) -> Option<(QuorumSetView, int)>
    decreases s.len() - i, 0nat,
{
    if !byte_is(s, i, 40) {
        None
    } else if byte_is(s, i + 1, 41) {
        Some((QuorumSetView { threshold: 0, members: Seq::empty() }, i + 2))
    } else if !byte_is(s, i + 1, 91) {
        None
    } else {
        match number_at(s, i + 2) {
            Some((threshold, j)) => if byte_is(s, j, 93) && j > i {
                set_from(s, threshold, j + 1)
            } else {
                None
            },
            None => None,
        }
    }
}

/// The quorum set with the threshold `threshold` whose members are written
/// from `i` on, up to the bracket that closes it, and where it ends.
pub open spec fn set_from(s: Seq<u8>, threshold: u32, i: int) -> Option<(QuorumSetView, int)>
    decreases s.len() - i, 3nat,
{
    match members_at(s, i, Seq::empty()) {
        Some((members, k)) => if byte_is(s, k, 41) {
            Some((QuorumSetView { threshold, members }, k + 1))
        } else {
            None
        },
        None => None,
    }
}

/// The members written from `i` on, each after a comma, added to those read
/// before, and where they end.
pub open spec fn members_at(s: Seq<u8>, i: int, before: Seq<MemberView>) -> Option<
    (Seq<MemberView>, int),
>
    decreases s.len() - i, 2nat,
{
    if byte_is(s, i, 44) {
        match member_at(s, i + 1) {
            Some((m, j)) => if i < j <= s.len() {
                members_at(s, j, before.push(m))
            } else {
                None
            },
            None => None,
        }
    } else {
        Some((before, i))
    }
}

/// The member written at `i` and where it ends: a quorum set where a round
/// bracket opens, else the number of a test node.
pub open spec fn member_at(s: Seq<u8>, i: int) -> Option<(MemberView, int)>
    decreases s.len() - i, 1nat,
{
    if byte_is(s, i, 40) {
        match set_at(s, i) {
            Some((q, j)) => Some((MemberView::InnerSet(q), j)),
            None => None,
        }
    } else {
        match number_at(s, i) {
            Some((n, j)) => Some((MemberView::Node(test_node_id_view(n)), j)),
            None => None,
        }
    }
}

/// The quorum set that the whole of `s` writes.
pub open spec fn parsed(s: Seq<u8>) -> Option<QuorumSetView> {
    match set_at(s, 0) {
        Some((q, end)) => if end == s.len() {
            Some(q)
        } else {
            None
        },
        None => None,
    }
}

/// Where digits end: within the text, after digits only, and before
/// something that is no digit.
pub proof fn lemma_digits_end_bounds(s: Seq<u8>, i: int)
    requires
        0 <= i <= s.len(),
    ensures
        i <= digits_end(s, i) <= s.len(),
        forall|k: int| i <= k < digits_end(s, i) ==> is_digit(#[trigger] s[k]),
        digits_end(s, i) < s.len() ==> !is_digit(s[digits_end(s, i)]),
    decreases s.len() - i,
{
    if i < s.len() && is_digit(s[i]) {
        lemma_digits_end_bounds(s, i + 1);
    }
}

/// Reads the number written at `i`.
pub fn read_number(s: &[u8], i: usize) -> (r: Option<(u32, usize)>)
    requires
        i <= s.len(),
    ensures
        match r {
            Some((n, j)) => number_at(s@, i as int) == Some((n, j as int)) && i < j <= s.len(),
            None => number_at(s@, i as int) is None,
        },
{
    let mut j: usize = i;
    let mut value: u64 = 0;
    let mut fits = true;
    proof {
        assert(s@.subrange(i as int, i as int) =~= Seq::<u8>::empty());
    }
    while j < s.len() && s[j] >= 48 && s[j] <= 57
        invariant
            i <= j <= s.len(),
            digits_end(s@, i as int) == digits_end(s@, j as int),
            fits ==> value == digits_value(s@.subrange(i as int, j as int)) && value <= u32::MAX,
            !fits ==> digits_value(s@.subrange(i as int, j as int)) > u32::MAX,
        decreases s.len() - j,
    {
        proof {
            let run = s@.subrange(i as int, j + 1);
            assert(run.drop_last() =~= s@.subrange(i as int, j as int));
            assert(run.last() == s@[j as int]);
        }
        if fits {
            value = value * 10 + (s[j] - 48) as u64;
            if value > u32::MAX as u64 {
                fits = false;
            }
        }
        j = j + 1;
    }
    proof {
        lemma_digits_end_bounds(s@, j as int);
    }
    if j > i && fits {
        Some((value as u32, j))
    } else {
        None
    }
}

/// Reads the quorum set written at `i`.
fn read_set(s: &[u8], i: usize) -> (r: Option<(QuorumSet, usize)>)
    requires
        i <= s.len(),
    ensures
        match r {
            Some((q, j)) => set_at(s@, i as int) == Some((q@, j as int)) && i < j <= s.len(),
            None => set_at(s@, i as int) is None,
        },
    decreases s.len() - i, 0nat,
{
    if !(i < s.len() && s[i] == 40) {
        return None;
    }
    if i + 1 < s.len() && s[i + 1] == 41 {
        return Some((QuorumSet::empty(), i + 2));
    }
    if !(i + 1 < s.len() && s[i + 1] == 91) {
        return None;
    }
    match read_number(s, i + 2) {
        Some((threshold, j)) => {
            if !(j < s.len() && s[j] == 93) {
                return None;
            }
            let mut members: Vec<QuorumSetMember> = Vec::new();
            let mut k: usize = j + 1;
            while k < s.len() && s[k] == 44
                invariant
                    i < j < k <= s.len(),
                    set_at(s@, i as int) == set_from(s@, threshold, j + 1),
                    members_at(s@, j + 1, Seq::empty()) == members_at(
                        s@,
                        k as int,
                        members_view(members@),
                    ),
                decreases s.len() - k,
            {
                let ghost held = members@;
                let read = if k + 1 < s.len() && s[k + 1] == 40 {
                    match read_set(s, k + 1) {
                        Some((q, next)) => Some((QuorumSetMember::InnerSet(q), next)),
                        None => None,
                    }
                } else {
                    match read_number(s, k + 1) {
                        Some((n, next)) => Some((QuorumSetMember::Node(test_node_id(n)), next)),
                        None => None,
                    }
                };
                proof {
                    assert(byte_is(s@, k as int, 44));
                    let wanted = member_at(s@, k + 1);
                    if read is Some {
                        let pair = read->0;
                        let m = pair.0;
                        let next = pair.1;
                        assert(wanted == Some((member_view(m), next as int)));
                        lemma_members_view_push(held, m);
                        assert(members_at(s@, k as int, members_view(held)) == members_at(
                            s@,
                            next as int,
                            members_view(held).push(member_view(m)),
                        ));
                    } else {
                        assert(wanted is None);
                        assert(members_at(s@, k as int, members_view(held)) is None);
                        assert(set_from(s@, threshold, j + 1) is None);
                    }
                }
                match read {
                    Some((m, next)) => {
                        members.push(m);
                        k = next;
                    },
                    None => {
                        return None;
                    },
                }
            }
            if k < s.len() && s[k] == 41 {
                Some((QuorumSet::new(threshold, members), k + 1))
            } else {
                None
            }
        },
        None => None,
    }
}

/// Reads the quorum set that the whole of `bytes` writes.
pub fn parse_quorum_set(bytes: &[u8]) -> (r: Result<QuorumSet, ParseError>)
    ensures
        match r {
            Ok(q) => parsed(bytes@) == Some(q@),
            Err(_) => parsed(bytes@) is None,
        },
{
    match read_set(bytes, 0) {
        Some((q, end)) => if end == bytes.len() {
            Ok(q)
        } else {
            Err(ParseError)
        },
        None => Err(ParseError),
    }
}

/// Reads a quorum set of test nodes from its text.
pub fn test_quorum_set_from_string(quorum_set_string: &str) -> (r: Result<QuorumSet, ParseError>)
    ensures
        match r {
            Ok(q) => parsed(quorum_set_string.spec_bytes()) == Some(q@),
            Err(_) => parsed(quorum_set_string.spec_bytes()) is None,
        },
{
    parse_quorum_set(quorum_set_string.as_bytes())
}

/// Whether every node of the quorum set has an address that holds a
/// number: see [`address_index`].
pub open spec fn all_test_nodes(q: QuorumSetView) -> bool
    decreases q,
{
    forall|i: int|
        0 <= i < q.members.len() ==> match #[trigger] q.members[i] {
            MemberView::Node(id) => address_index(vstd::utf8::encode_utf8(id.responder_id)) is Some,
            MemberView::InnerSet(inner) => all_test_nodes(inner),
        }
}

/// The text of a member: the number that the node's address holds, or the
/// text of the nested quorum set.
pub open spec fn rendered_member(m: MemberView) -> Seq<char>
    decreases m,
{
    match m {
        MemberView::Node(id) => decimal(
            address_index(vstd::utf8::encode_utf8(id.responder_id))->0 as nat,
        ),
        MemberView::InnerSet(q) => rendered(q),
    }
}

/// The texts of the members, each after a comma.
pub open spec fn rendered_members(ms: Seq<MemberView>) -> Seq<char>
    decreases ms,
{
    if ms.len() == 0 {
        Seq::empty()
    } else {
        rendered_members(ms.drop_last()) + ","@ + rendered_member(ms.last())
    }
}

/// The text of a quorum set of test nodes.
pub open spec fn rendered(q: QuorumSetView) -> Seq<char>
    decreases q,
{
    "(["@ + decimal(q.threshold as nat) + "]"@ + rendered_members(q.members) + ")"@
}

/// Writes a quorum set of test nodes as text.
pub fn test_quorum_set_to_string(quorum_set: &QuorumSet) -> (r: String)
    requires
        all_test_nodes(quorum_set@),
    ensures
        r@ == rendered(quorum_set@),
    decreases quorum_set,
{
    let ghost ms = quorum_set@.members;
    let ghost head = "(["@ + decimal(quorum_set.threshold as nat) + "]"@;
    proof {
        lemma_members_view(quorum_set.members@);
    }
    let mut out = String::from_str("([");
    let digits = decimal_string(quorum_set.threshold);
    out.append(digits.as_str());
    out.append("]");
    let mut i: usize = 0;
    assert(ms.take(0) =~= Seq::<MemberView>::empty());
    assert(out@ =~= head + rendered_members(ms.take(0)));
    while i < quorum_set.members.len()
        invariant
            i <= quorum_set.members.len(),
            ms == quorum_set@.members,
            ms.len() == quorum_set.members.len(),
            all_test_nodes(quorum_set@),
            forall|j: int|
                0 <= j < ms.len() ==> (#[trigger] ms[j]) == member_view(quorum_set.members@[j]),
            out@ == head + rendered_members(ms.take(i as int)),
        decreases quorum_set.members.len() - i,
    {
        out.append(",");
        assert(ms[i as int] == member_view(quorum_set.members@[i as int]));
        match &quorum_set.members[i] {
            QuorumSetMember::Node(id) => {
                assert(ms[i as int] == MemberView::Node(id@));
                let n = recover_test_node_index(id);
                let text = decimal_string(n);
                out.append(text.as_str());
            },
            QuorumSetMember::InnerSet(inner) => {
                assert(ms[i as int] == MemberView::InnerSet(inner@));
                let text = test_quorum_set_to_string(inner);
                out.append(text.as_str());
            },
        }
        proof {
            assert(ms.take(i + 1).drop_last() =~= ms.take(i as int));
            assert(ms.take(i + 1).last() == ms[i as int]);
            assert(out@ =~= head + (rendered_members(ms.take(i as int)) + ","@ + rendered_member(
                ms[i as int],
            )));
        }
        i = i + 1;
    }
    out.append(")");
    assert(ms.take(i as int) =~= ms);
    assert(out@ =~= rendered(quorum_set@));
    out
}

} // verus!
