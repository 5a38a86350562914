//! A federated Byzantine agreement engine.
//!
//! A node agrees with its peers on one list of values for each slot. Whom a
//! node trusts is its quorum set; what its peers say reaches it as messages;
//! the searches over the quorum set decide when a statement is accepted or
//! confirmed; the slot applies the voting rules, and the node moves from
//! slot to slot.
//!
//! Every type has a mathematical content, its view, and every operation
//! states what it does in terms of views. The rules of a slot are written
//! down once more as functions on views in [`slot_spec`]; the slot in
//! [`slot`] is proved to follow them.

pub mod value;
pub mod value_set;
pub mod ballot;
pub mod ballot_ranges;
pub mod node_id;
pub mod quorum_set;
pub mod msg;
pub mod statements;
pub mod msg_map;
pub mod encoding;
pub mod digest;
pub mod lru;
pub mod predicates;
pub mod quorum_search;
pub mod callbacks;
pub mod error;
pub mod slot_spec;
pub mod slot;
pub mod node;
pub mod test_utils;
pub mod quorum_set_text;
