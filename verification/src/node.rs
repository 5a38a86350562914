//! A node: the slot it is working on, the slots it has externalized, and the
//! record of the messages it has seen.

use crate::callbacks::{CombineFn, ValidityFn};
use crate::digest::{sha3_256, sha3_256_digest};
use crate::encoding::encode_msg;
use crate::error::ScpError;
use crate::lru::{
    lemma_stored_is_last, lemma_stored_no_duplicates, lemma_touch_last, stored, touched, LruCache,
};
use crate::msg::{ExternalizePayload, Msg, MsgView, SlotIndex, Topic, TopicView};
use crate::node_id::{NodeID, NodeIdView};
use crate::predicates::ballot_counter;
use crate::quorum_set::{valid_quorum_set, QuorumSet, QuorumSetView};
use crate::slot::{emitted, fresh_slot, keep_valid, msg_option_view, Slot, SlotMetrics};
use crate::slot_spec;
use crate::slot_spec::{
    ballot_fires, consistent, externalized_invalid, in_order, needs_peers, nominate_fires,
    nominees_valid, progresses, settled, topic_phase, valid_among, waiting, Phase, SlotView,
};
use crate::value::{keys_of, Value};
use crate::value_set::{replicate_values, ValueSet};
use vstd::prelude::*;

verus! {

/// How many externalized slots a node keeps.
pub const MAX_EXTERNALIZED_SLOTS: usize = 10;

/// How many message digests a node remembers.
pub const LAST_SEEN_HISTORY_SIZE: usize = 1000;

/// A node that takes part in the voting.
#[allow(non_snake_case)]
pub struct Node<V: Value, F: ValidityFn<V>, C: CombineFn<V>> {
    /// The local node.
    pub ID: NodeID,
    /// The local node's quorum set.
    pub Q: QuorumSet,
    /// The slot the node is working on.
    pub current_slot: Slot<V>,
    /// The slots externalized before, oldest first.
    pub externalized_slots: Vec<Slot<V>>,
    /// The application's test of a value.
    pub validity_fn: F,
    /// The application's way to combine values.
    pub combine_fn: C,
    /// The digests of the messages handled, least recently seen first.
    pub seen_msg_hashes: LruCache,
    /// The base interval of the timers of new slots, in milliseconds.
    pub scp_timebase: u64,
}

/// The mathematical content of a node.
pub struct NodeView {
    pub id: NodeIdView,
    pub q: QuorumSetView,
    pub current: SlotView,
    pub externalized: Seq<SlotView>,
    pub seen: Seq<Seq<u8>>,
    pub seen_capacity: nat,
    pub timebase: u64,
}

/// The contents of a list of slots, in the same order.
pub open spec fn slots_of<V: Value>(slots: Seq<Slot<V>>) -> Seq<SlotView> {
    Seq::new(slots.len(), |i: int| slots[i]@)
}

impl<V: Value, F: ValidityFn<V>, C: CombineFn<V>> View for Node<V, F, C> {
    type V = NodeView;

    open spec fn view(&self) -> NodeView {
        NodeView {
            id: self.ID@,
            q: self.Q@,
            current: self.current_slot@,
            externalized: slots_of(self.externalized_slots@),
            seen: self.seen_msg_hashes@,
            seen_capacity: self.seen_msg_hashes.cap(),
            timebase: self.scp_timebase,
        }
    }
}

/// An externalized slot is in its last phase, and the last message it
/// emitted says so, with the slot's values.
pub open spec fn is_externalized(s: SlotView) -> bool {
    &&& s.phase == Phase::Externalize
    &&& s.last_sent matches Some(m) && (m.topic matches TopicView::Externalize(e) && e.c.x == s.b.x)
}

/// What holds of a node at all times: it keeps at most ten externalized
/// slots, in ascending order of their numbers and all before the current
/// slot, each of them externalized; the current slot is the node's own and
/// agrees with its phase; and the record of digests has room and holds none
/// twice.
pub open spec fn node_wf(n: NodeView) -> bool {
    &&& consistent(n.current)
    &&& n.current.node_id == n.id
    &&& n.current.quorum_set == n.q
    &&& n.externalized.len() <= MAX_EXTERNALIZED_SLOTS
    &&& forall|i: int, j: int|
        0 <= i < j < n.externalized.len() ==> (#[trigger] n.externalized[i]).slot_index < (
        #[trigger] n.externalized[j]).slot_index
    &&& forall|i: int|
        0 <= i < n.externalized.len() ==> (#[trigger] n.externalized[i]).slot_index
            < n.current.slot_index
    &&& forall|i: int| 0 <= i < n.externalized.len() ==> is_externalized(#[trigger] n.externalized[i])
    &&& n.seen_capacity >= 1
    &&& n.seen.len() <= n.seen_capacity
    &&& n.seen.no_duplicates()
}

/// Whether the application holds every value of the list valid.
pub open spec fn all_valid<V: Value, F: ValidityFn<V>>(x: Seq<Seq<u8>>, validity: F) -> bool {
    forall|i: int| 0 <= i < x.len() ==> validity.valid(#[trigger] x[i])
}

/// The node after its current slot was externalized: the slot is the last
/// of the externalized ones, of which the ten latest are kept, and a fresh
/// slot with the next number is the current one.
pub open spec fn archived(n: NodeView) -> NodeView {
    let all = n.externalized.push(n.current);
    NodeView {
        externalized: if all.len() > MAX_EXTERNALIZED_SLOTS {
            all.skip(all.len() - MAX_EXTERNALIZED_SLOTS)
        } else {
            all
        },
        current: fresh_slot(n.id, n.q, (n.current.slot_index + 1) as u64, n.timebase),
        ..n
    }
}

/// What a step of the current slot comes to: an error where it externalized
/// an invalid value, else what it emitted.
pub open spec fn slot_outcome<V: Value, F: ValidityFn<V>>(
    old: SlotView,
    step: (SlotView, Option<MsgView>),
    validity: F,
) -> Result<Option<MsgView>, ScpError> {
    if externalized_invalid::<V, F>(old, step.0, validity) {
        Err(ScpError::InvalidExternalizedValue)
    } else {
        Ok(step.1)
    }
}

/// The node after a step of its current slot that came to `outcome`. Where
/// the slot emitted an externalize statement, its values are tested: if one
/// is invalid the step fails, else the slot is archived. After the slot with
/// the highest number there is none to go on to: the node stays on it.
pub open spec fn settle<V: Value, F: ValidityFn<V>>(
    n: NodeView,
    outcome: Result<Option<MsgView>, ScpError>,
    validity: F,
) -> (NodeView, Result<Option<MsgView>, ScpError>) {
    match outcome {
        Ok(Some(m)) => match m.topic {
            TopicView::Externalize(e) => if !all_valid::<V, F>(e.c.x, validity) {
                (n, Err(ScpError::InvalidExternalizedValue))
            } else if n.current.slot_index == u64::MAX {
                (n, outcome)
            } else {
                (archived(n), outcome)
            },
            _ => (n, outcome),
        },
        _ => (n, outcome),
    }
}

/// Submitting values: nothing happens where none of them is valid;
/// otherwise the valid ones are proposed to the current slot.
pub open spec fn node_nominate<V: Value, F: ValidityFn<V>, C: CombineFn<V>>(
    n: NodeView,
    values: Set<Seq<u8>>,
    validity: F,
    combine: C,
) -> (NodeView, Result<Option<MsgView>, ScpError>) {
    let valid = valid_among::<V, F>(values, validity);
    if valid == Set::<Seq<u8>>::empty() {
        (n, Ok(None))
    } else {
        let step = slot_spec::propose::<V, F, C>(n.current, valid, validity, combine);
        settle::<V, F>(
            NodeView { current: step.0, ..n },
            slot_outcome::<V, F>(n.current, step, validity),
            validity,
        )
    }
}

/// Handling a message: one of the node itself or about a later slot is
/// dropped; so is one whose digest the node remembers, which counts as a
/// use of that digest; any other is remembered and, if it is about the
/// current slot, handed to it.
pub open spec fn node_handle<V: Value, F: ValidityFn<V>, C: CombineFn<V>>(
    n: NodeView,
    m: MsgView,
    validity: F,
    combine: C,
) -> (NodeView, Result<Option<MsgView>, ScpError>) {
    if m.sender_id == n.id || m.slot_index > n.current.slot_index {
        (n, Ok(None))
    } else {
        let h = sha3_256(encode_msg(m));
        if n.seen.contains(h) {
            (NodeView { seen: touched(n.seen, h), ..n }, Ok(None))
        } else {
            let n1 = NodeView { seen: stored(n.seen, h, n.seen_capacity), ..n };
            if m.slot_index == n.current.slot_index {
                let step = slot_spec::handle::<V, F, C>(n.current, m, validity, combine);
                settle::<V, F>(
                    NodeView { current: step.0, ..n1 },
                    slot_outcome::<V, F>(n.current, step, validity),
                    validity,
                )
            } else {
                (n1, Ok(None))
            }
        }
    }
}

/// Looking at the timers of the current slot at the time `now`.
pub open spec fn node_tick<V: Value, F: ValidityFn<V>, C: CombineFn<V>>(
    n: NodeView,
    now: u64,
    validity: F,
    combine: C,
) -> (NodeView, Result<Option<MsgView>, ScpError>) {
    let step = slot_spec::tick::<V, F, C>(n.current, now, validity, combine);
    settle::<V, F>(
        NodeView { current: step.0, ..n },
        slot_outcome::<V, F>(n.current, step, validity),
        validity,
    )
}

/// The values that the node externalized for the slot `i`, if it still
/// keeps that slot.
pub open spec fn externalized_values(n: NodeView, i: u64) -> Option<Seq<Seq<u8>>> {
    if exists|k: int| 0 <= k < n.externalized.len() && (#[trigger] n.externalized[k]).slot_index == i {
        let k = choose|k: int|
            0 <= k < n.externalized.len() && (#[trigger] n.externalized[k]).slot_index == i;
        Some(n.externalized[k].b.x)
    } else {
        None
    }
}

/// The content of what a step hands back.
pub open spec fn outcome_view<V: Value>(r: Result<Option<Msg<V>>, ScpError>) -> Result<
    Option<MsgView>,
    ScpError,
> {
    match r {
        Ok(out) => Ok(msg_option_view(out)),
        Err(e) => Err(e),
    }
}

/// The content of what a look at the timers hands back.
pub open spec fn emitted_view<V: Value>(r: Result<Vec<Msg<V>>, ScpError>) -> Result<
    Option<MsgView>,
    ScpError,
> {
    match r {
        Ok(out) => Ok(emitted(out@)),
        Err(e) => Err(e),
    }
}

/// A node that can take part in the voting.
pub trait ScpNode<V: Value> {
    /// What holds of the node between calls.
    spec fn ready(&self) -> bool;

    /// Whether the node may go on with the slot `slot_index`.
    spec fn can_reset_to(&self, slot_index: SlotIndex) -> bool;

    /// The local node.
    fn node_id(&self) -> NodeID
    ;

    /// The local node's quorum set.
    fn quorum_set(&self) -> QuorumSet
    ;

    /// Submits values for nomination in the current slot.
    fn nominate(&mut self, values: ValueSet<V>) -> (r: Result<Option<Msg<V>>, ScpError>)
        requires
            old(self).ready(),
        ensures
            final(self).ready(),
    ;

    /// Handles a message from the network.
    fn handle(&mut self, msg: &Msg<V>) -> (r: Result<Option<Msg<V>>, ScpError>)
        requires
            old(self).ready(),
        ensures
            final(self).ready(),
    ;

    /// The values externalized for the slot `slot_index`, if the node still
    /// keeps them.
    fn get_externalized_values(&self, slot_index: SlotIndex) -> (r: Option<Vec<V>>)
        requires
            self.ready(),
    ;

    /// Looks at the timers at the time `now`, in milliseconds.
    fn process_timeouts(&mut self, now: u64) -> (r: Result<Vec<Msg<V>>, ScpError>)
        requires
            old(self).ready(),
        ensures
            final(self).ready(),
    ;

    /// The number of the current slot.
    fn current_slot_index(&self) -> SlotIndex
    ;

    /// What the current slot reports of itself.
    fn get_slot_metrics(&mut self) -> (r: SlotMetrics)
        ensures
            final(self).ready() == old(self).ready(),
    ;

    /// Drops the current slot and goes on with a fresh one for
    /// `slot_index`.
    fn reset_slot_index(&mut self, slot_index: SlotIndex)
        requires
            old(self).ready(),
            old(self).can_reset_to(slot_index),
        ensures
            final(self).ready(),
    ;
}

impl<V: Value, F: ValidityFn<V>, C: CombineFn<V>> Node<V, F, C> {
    /// A node for `ID` with the quorum set `Q`, working on the slot
    /// `current_slot_index`, with a timer base of one second. A quorum set
    /// that breaks the rule of [`valid_quorum_set`] is refused.
    #[allow(non_snake_case)]
    pub fn new(
        ID: NodeID,
        Q: QuorumSet,
        validity_fn: F,
        combine_fn: C,
        current_slot_index: SlotIndex,
    ) -> (r: Result<Self, ScpError>)
        ensures
            match r {
                Ok(node) => valid_quorum_set(Q@) && node.ready() && node@ == (NodeView {
                    id: ID@,
                    q: Q@,
                    current: fresh_slot(ID@, Q@, current_slot_index, 1000),
                    externalized: Seq::empty(),
                    seen: Seq::empty(),
                    seen_capacity: LAST_SEEN_HISTORY_SIZE as nat,
                    timebase: 1000,
                }) && node.validity_fn == validity_fn && node.combine_fn == combine_fn,
                Err(e) => e == ScpError::MalformedQuorumSet && !valid_quorum_set(Q@),
            },
    {
        if !Q.is_valid() {
            return Err(ScpError::MalformedQuorumSet);
        }
        let slot = Slot::new(ID.duplicate(), Q.duplicate(), current_slot_index, 1000);
        let node = Node {
            ID,
            Q,
            current_slot: slot,
            externalized_slots: Vec::new(),
            validity_fn,
            combine_fn,
            seen_msg_hashes: LruCache::new(LAST_SEEN_HISTORY_SIZE),
            scp_timebase: 1000,
        };
        assert(node@.externalized =~= Seq::<SlotView>::empty());
        Ok(node)
    }

    /// Whether the application holds every value of `values` valid.
    fn all_valid(&self, values: &Vec<V>) -> (b: bool)
        ensures
            b == all_valid::<V, F>(keys_of(values@), self.validity_fn),
    {
        let mut i: usize = 0;
        while i < values.len()
            invariant
                i <= values.len(),
                forall|j: int| 0 <= j < i ==> self.validity_fn.valid(#[trigger] keys_of(values@)[j]),
            decreases values.len() - i,
        {
            if self.validity_fn.validate(&values[i]).is_err() {
                assert(!self.validity_fn.valid(keys_of(values@)[i as int]));
                return false;
            }
            i = i + 1;
        }
        true
    }

    /// Records the values externalized by the current slot and goes on to
    /// the next slot. Fails, and changes nothing, where one of the values is
    /// invalid.
    pub fn externalize(&mut self, slot_index: SlotIndex, payload: &ExternalizePayload<V>) -> (r: Result<
        (),
        ScpError,
    >)
        requires
            old(self).ready(),
            slot_index == old(self)@.current.slot_index,
            slot_index < u64::MAX,
            is_externalized(old(self)@.current),
        ensures
            final(self).ready(),
            final(self)@.externalized.len() <= MAX_EXTERNALIZED_SLOTS,
            final(self).validity_fn == old(self).validity_fn,
            final(self).combine_fn == old(self).combine_fn,
            match r {
                Ok(_) => all_valid::<V, F>(payload@.c.x, old(self).validity_fn) && final(self)@
                    == archived(old(self)@),
                Err(e) => e == ScpError::InvalidExternalizedValue && !all_valid::<V, F>(
                    payload@.c.x,
                    old(self).validity_fn,
                ) && final(self)@ == old(self)@,
            },
    {
        if !self.all_valid(&payload.C.X) {
            return Err(ScpError::InvalidExternalizedValue);
        }
        let mut slot = Slot::new(
            self.ID.duplicate(),
            self.Q.duplicate(),
            slot_index + 1,
            self.scp_timebase,
        );
        core::mem::swap(&mut self.current_slot, &mut slot);
        let ghost before = old(self)@.externalized;
        self.externalized_slots.push(slot);
        assert(slots_of(self.externalized_slots@) =~= before.push(old(self)@.current));
        if self.externalized_slots.len() > MAX_EXTERNALIZED_SLOTS {
            self.externalized_slots.remove(0);
            assert(slots_of(self.externalized_slots@) =~= before.push(old(self)@.current).skip(1));
        }
        assert(self@.externalized == archived(old(self)@).externalized);
        Ok(())
    }

    /// Archives the current slot where its step emitted an externalize
    /// statement: [`settle`].
    fn settle(&mut self, outcome: Result<Option<Msg<V>>, ScpError>) -> (r: Result<
        Option<Msg<V>>,
        ScpError,
    >)
        requires
            old(self).ready(),
            outcome matches Ok(Some(m)) ==> old(self)@.current.last_sent == Some(m@) && Some(m@)
                == slot_spec::out_msg(old(self)@.current),
        ensures
            final(self).ready(),
            final(self).validity_fn == old(self).validity_fn,
            final(self).combine_fn == old(self).combine_fn,
            (final(self)@, outcome_view(r)) == settle::<V, F>(
                old(self)@,
                outcome_view(outcome),
                old(self).validity_fn,
            ),
            r matches Ok(Some(m)) ==> outcome_view(outcome) == Ok::<Option<MsgView>, ScpError>(
                Some(m@),
            ),
            final(self)@.current.slot_index == old(self)@.current.slot_index
                ==> final(self)@.current == old(self)@.current,
    {
        match outcome {
            Ok(Some(m)) => {
                let archived = match &m.topic {
                    Topic::Externalize(payload) => {
                        if !self.all_valid(&payload.C.X) {
                            Some(Err(ScpError::InvalidExternalizedValue))
                        } else if m.slot_index == u64::MAX {
                            None
                        } else {
                            Some(self.externalize(m.slot_index, payload))
                        }
                    },
                    _ => None,
                };
                match archived {
                    Some(Err(e)) => Err(e),
                    _ => Ok(Some(m)),
                }
            },
            Ok(None) => Ok(None),
            Err(e) => Err(e),
        }
    }
}

impl<V: Value, F: ValidityFn<V>, C: CombineFn<V>> ScpNode<V> for Node<V, F, C> {
    /// The rule of [`node_wf`]; every nominee of the current slot is valid;
    /// and what the current slot sent last is what it states now.
    open spec fn ready(&self) -> bool {
        &&& node_wf(self@)
        &&& nominees_valid::<V, F>(self@.current, self.validity_fn)
        &&& settled(self@.current)
    }

    open spec fn can_reset_to(&self, slot_index: SlotIndex) -> bool {
        forall|i: int|
            0 <= i < self@.externalized.len() ==> (#[trigger] self@.externalized[i]).slot_index
                < slot_index
    }

    fn node_id(&self) -> (r: NodeID)
        ensures
            r@ == self@.id,
    {
        self.ID.duplicate()
    }

    fn quorum_set(&self) -> (r: QuorumSet)
        ensures
            r@ == self@.q,
    {
        self.Q.duplicate()
    }

    /// Submits values: [`node_nominate`].
    fn nominate(&mut self, values: ValueSet<V>) -> (r: Result<Option<Msg<V>>, ScpError>)
        ensures
            (final(self)@, outcome_view(r)) == node_nominate::<V, F, C>(
                old(self)@,
                values@,
                old(self).validity_fn,
                old(self).combine_fn,
            ),
            final(self).validity_fn == old(self).validity_fn,
            final(self).combine_fn == old(self).combine_fn,
            final(self)@.externalized.len() <= MAX_EXTERNALIZED_SLOTS,
            r matches Ok(Some(m)) ==> in_order(old(self)@.current, m@),
            final(self)@.current.slot_index == old(self)@.current.slot_index ==> progresses(
                old(self)@.current,
                final(self)@.current,
            ),
    {
        if values.is_empty() {
            assert(valid_among::<V, F>(values@, self.validity_fn) =~= Set::<Seq<u8>>::empty());
            return Ok(None);
        }
        let valid = keep_valid(&values, &self.validity_fn);
        if valid.is_empty() {
            return Ok(None);
        }
        let out = self.current_slot.propose_values(&valid, &self.validity_fn, &self.combine_fn);
        self.settle(out)
    }

    /// Handles a message: [`node_handle`].
    fn handle(&mut self, msg: &Msg<V>) -> (r: Result<Option<Msg<V>>, ScpError>)
        ensures
            (final(self)@, outcome_view(r)) == node_handle::<V, F, C>(
                old(self)@,
                msg@,
                old(self).validity_fn,
                old(self).combine_fn,
            ),
            final(self).validity_fn == old(self).validity_fn,
            final(self).combine_fn == old(self).combine_fn,
            final(self)@.externalized.len() <= MAX_EXTERNALIZED_SLOTS,
            r matches Ok(Some(m)) ==> in_order(old(self)@.current, m@),
            final(self)@.current.slot_index == old(self)@.current.slot_index ==> progresses(
                old(self)@.current,
                final(self)@.current,
            ),
    {
        if msg.sender_id.same(&self.ID) {
            return Ok(None);
        }
        if msg.slot_index > self.current_slot.slot_index {
            return Ok(None);
        }
        let bytes = msg.to_bytes();
        let hash = sha3_256_digest(&bytes);
        if self.seen_msg_hashes.get(&hash) {
            return Ok(None);
        }
        self.seen_msg_hashes.put(hash);
        if msg.slot_index == self.current_slot.slot_index {
            let out = self.current_slot.handle(msg, &self.validity_fn, &self.combine_fn);
            self.settle(out)
        } else {
            Ok(None)
        }
    }

    /// The values externalized for a slot: [`externalized_values`].
    fn get_externalized_values(&self, slot_index: SlotIndex) -> (r: Option<Vec<V>>)
        ensures
            match r {
                Some(values) => externalized_values(self@, slot_index) == Some(keys_of(values@)),
                None => externalized_values(self@, slot_index) is None,
            },
    {
        let mut k: usize = 0;
        while k < self.externalized_slots.len()
            invariant
                k <= self.externalized_slots.len(),
                node_wf(self@),
                forall|j: int| 0 <= j < k ==> (#[trigger] self@.externalized[j]).slot_index != slot_index,
            decreases self.externalized_slots.len() - k,
        {
            let slot = &self.externalized_slots[k];
            if slot.slot_index == slot_index {
                proof {
                    assert(self@.externalized[k as int] == slot@);
                    let c = choose|c: int|
                        0 <= c < self@.externalized.len() && (#[trigger] self@.externalized[c]).slot_index
                            == slot_index;
                    assert(c == k);
                    assert(is_externalized(self@.externalized[k as int]));
                }
                return match &slot.last_sent_msg {
                    Some(m) => match &m.topic {
                        Topic::Externalize(payload) => Some(replicate_values(&payload.C.X)),
                        _ => None,
                    },
                    None => None,
                };
            }
            k = k + 1;
        }
        None
    }

    /// Looks at the timers: [`node_tick`].
    fn process_timeouts(&mut self, now: u64) -> (r: Result<Vec<Msg<V>>, ScpError>)
        ensures
            (final(self)@, emitted_view(r)) == node_tick::<V, F, C>(
                old(self)@,
                now,
                old(self).validity_fn,
                old(self).combine_fn,
            ),
            final(self).validity_fn == old(self).validity_fn,
            final(self).combine_fn == old(self).combine_fn,
            final(self)@.externalized.len() <= MAX_EXTERNALIZED_SLOTS,
            r matches Ok(sent) ==> sent@.len() <= 1 && forall|i: int|
                0 <= i < sent@.len() ==> in_order(old(self)@.current, (#[trigger] sent@[i])@),
            nominate_fires(old(self)@.current, now) || ballot_fires(old(self)@.current, now)
                ==> (r matches Ok(sent) ==> sent@.len() == 1),
            ballot_fires(old(self)@.current, now) ==> (r matches Ok(sent) ==> forall|i: int|
                0 <= i < sent@.len() ==> ballot_counter((#[trigger] sent@[i])@.topic) > old(
                    self,
                )@.current.b.n),
            final(self)@.current.slot_index == old(self)@.current.slot_index ==> progresses(
                old(self)@.current,
                final(self)@.current,
            ),
    {
        let out = self.current_slot.process_timeouts(now, &self.validity_fn, &self.combine_fn);
        let first = match out {
            Ok(sent) => {
                let mut sent = sent;
                if sent.len() == 0 {
                    Ok(None)
                } else {
                    Ok(Some(sent.remove(0)))
                }
            },
            Err(e) => Err(e),
        };
        match self.settle(first) {
            Ok(Some(m)) => {
                let mut sent: Vec<Msg<V>> = Vec::new();
                sent.push(m);
                Ok(sent)
            },
            Ok(None) => Ok(Vec::new()),
            Err(e) => Err(e),
        }
    }

    fn current_slot_index(&self) -> (r: SlotIndex)
        ensures
            r == self@.current.slot_index,
    {
        self.current_slot.get_index()
    }

    fn get_slot_metrics(&mut self) -> (r: SlotMetrics)
        ensures
            final(self)@ == old(self)@,
            r.phase == old(self)@.current.phase,
            r.bN == old(self)@.current.b.n,
            r.cur_nomination_round == old(self)@.current.nominate_round,
            r.num_voted_nominated == old(self)@.current.x.len(),
            r.num_accepted_nominated == old(self)@.current.y.len(),
            r.num_confirmed_nominated == old(self)@.current.z.len(),
            r.num_messages == old(self)@.current.msgs.dom().len(),
    {
        self.current_slot.get_metrics()
    }

    /// Goes on with a fresh slot for `slot_index`; the externalized slots
    /// stay.
    fn reset_slot_index(&mut self, slot_index: SlotIndex)
        ensures
            final(self)@ == (NodeView {
                current: fresh_slot(old(self)@.id, old(self)@.q, slot_index, old(self)@.timebase),
                ..old(self)@
            }),
            final(self).validity_fn == old(self).validity_fn,
            final(self).combine_fn == old(self).combine_fn,
    {
        self.current_slot = Slot::new(
            self.ID.duplicate(),
            self.Q.duplicate(),
            slot_index,
            self.scp_timebase,
        );
    }
}

/// A message with the bytes of one that the node has got as far as
/// remembering is dropped: the node stays as it is and emits nothing.
pub proof fn lemma_replay_is_dropped<V: Value, F: ValidityFn<V>, C: CombineFn<V>>(
    n: NodeView,
    m: MsgView,
    replay: MsgView,
    validity: F,
    combine: C,
)
    requires
        node_wf(n),
        m.sender_id != n.id,
        m.slot_index <= n.current.slot_index,
        encode_msg(replay) == encode_msg(m),
    ensures
        node_handle::<V, F, C>(
            node_handle::<V, F, C>(n, m, validity, combine).0,
            replay,
            validity,
            combine,
        ) == (node_handle::<V, F, C>(n, m, validity, combine).0, Ok::<Option<MsgView>, ScpError>(None)),
{
    let h = sha3_256(encode_msg(m));
    let n1 = node_handle::<V, F, C>(n, m, validity, combine).0;
    lemma_stored_is_last(n.seen, h, n.seen_capacity);
    lemma_stored_no_duplicates(n.seen, h, n.seen_capacity);
    let seen1 = if n.seen.contains(h) {
        touched(n.seen, h)
    } else {
        stored(n.seen, h, n.seen_capacity)
    };
    assert(n1.seen == seen1 && n1.id == n.id && n1.seen_capacity == n.seen_capacity);
    assert(seen1.last() == h);
    lemma_touch_last(seen1, h);
    assert(seen1[seen1.len() - 1] == h);
    assert(seen1.contains(h));
    let after = node_handle::<V, F, C>(n1, replay, validity, combine).0;
    if !(replay.sender_id == n1.id || replay.slot_index > n1.current.slot_index) {
        assert(after.seen == n1.seen);
        assert(after == n1);
    }
}

/// Handling the same message twice in a row: the second time the node
/// stays as it is and emits nothing.
pub proof fn lemma_handle_twice<V: Value, F: ValidityFn<V>, C: CombineFn<V>>(
    n: NodeView,
    m: MsgView,
    validity: F,
    combine: C,
)
    requires
        node_wf(n),
    ensures
        node_handle::<V, F, C>(
            node_handle::<V, F, C>(n, m, validity, combine).0,
            m,
            validity,
            combine,
        ) == (node_handle::<V, F, C>(n, m, validity, combine).0, Ok::<Option<MsgView>, ScpError>(None)),
{
    if m.sender_id == n.id || m.slot_index > n.current.slot_index {
    } else {
        lemma_replay_is_dropped::<V, F, C>(n, m, m, validity, combine);
    }
}

/// The node keeps at most ten externalized slots, however a step of its
/// current slot comes out.
pub proof fn lemma_history_is_bounded<V: Value, F: ValidityFn<V>>(
    n: NodeView,
    outcome: Result<Option<MsgView>, ScpError>,
    validity: F,
)
    requires
        n.externalized.len() <= MAX_EXTERNALIZED_SLOTS,
    ensures
        settle::<V, F>(n, outcome, validity).0.externalized.len() <= MAX_EXTERNALIZED_SLOTS,
{
}

/// A message whose digest the node remembers is dropped, however long ago
/// the node first saw it: nothing is emitted, and nothing changes but the
/// order in which the digests were last used.
pub proof fn lemma_remembered_is_dropped<V: Value, F: ValidityFn<V>, C: CombineFn<V>>(
    n: NodeView,
    m: MsgView,
    validity: F,
    combine: C,
)
    requires
        n.seen.contains(sha3_256(encode_msg(m))),
    ensures
        node_handle::<V, F, C>(n, m, validity, combine).1 == Ok::<Option<MsgView>, ScpError>(None),
        node_handle::<V, F, C>(n, m, validity, combine).0 == n || node_handle::<V, F, C>(
            n,
            m,
            validity,
            combine,
        ).0 == (NodeView { seen: touched(n.seen, sha3_256(encode_msg(m))), ..n }),
{
}

/// What a step of a node that waits for silent peers comes to: the node
/// keeps its slot and its history and goes on waiting, nothing fails, and
/// what is emitted, if anything, is a nominate statement.
pub open spec fn still_waiting(
    n: NodeView,
    step: (NodeView, Result<Option<MsgView>, ScpError>),
) -> bool {
    &&& step.0.externalized == n.externalized
    &&& step.0.current.slot_index == n.current.slot_index
    &&& waiting(step.0.current)
    &&& needs_peers(step.0.current)
    &&& step.1 matches Ok(out) && (out matches Some(m) ==> topic_phase(m.topic) == Phase::Nominate)
}

/// A node whose peers are silent never gets beyond nominating: as long as
/// it has heard nothing, submitting values and looking at the timers, in
/// whatever order and however often, leave it waiting in the same slot, and
/// all it emits are nominate statements.
pub proof fn lemma_silent_peers<V: Value, F: ValidityFn<V>, C: CombineFn<V>>(
    n: NodeView,
    values: Set<Seq<u8>>,
    now: u64,
    validity: F,
    combine: C,
)
    requires
        waiting(n.current),
        needs_peers(n.current),
    ensures
        still_waiting(n, node_nominate::<V, F, C>(n, values, validity, combine)),
        still_waiting(n, node_tick::<V, F, C>(n, now, validity, combine)),
{
    slot_spec::lemma_silence::<V, F, C>(
        n.current,
        valid_among::<V, F>(values, validity),
        now,
        validity,
        combine,
    );
}

} // verus!
