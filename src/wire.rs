//! The wire format as mathematics: what a node encodes to, and what bytes
//! decode to.
use vstd::prelude::*;

use crate::kind::{kind_of_tag, ValveDataType};
use crate::node::Node;
use crate::text::{terminated, terminator_at, text_at};

verus! {

/// The bytes that node `n` is written as. A list is closed by the
/// end-of-list tag after its children.
pub open spec fn encode_node(n: Node) -> Seq<u8>
    decreases n,
{
    match n {
        Node::List(name, items) => seq![0x00u8] + terminated(name) + encode_nodes(items) + seq![
            0x08u8,
        ],
        Node::String(name, value) => seq![0x01u8] + terminated(name) + terminated(value),
        Node::Bytes4(name, value) => seq![0x02u8] + terminated(name) + value,
        Node::EndOfList => seq![0x08u8],
    }
}

/// The encodings of `s`, one after the other.
pub open spec fn encode_nodes(s: Seq<Node>) -> Seq<u8>
    decreases s,
{
    if s.len() == 0 {
        Seq::empty()
    } else {
        encode_nodes(s.subrange(0, s.len() - 1)) + encode_node(s[s.len() - 1])
    }
}

/// The outcome of decoding one node.
pub enum Decoded {
    /// The data ended before the node did.
    Failed,
    /// The node read (`None` for an unknown tag, which is one byte long),
    /// and the position just past it.
    Read(Option<Node>, int),
}

/// Decodes the node whose tag is at `pos`.
pub open spec fn decode_at(s: Seq<u8>, pos: int) -> Decoded
    decreases s.len() - pos, 0int,
{
    if pos < 0 || pos >= s.len() {
        Decoded::Failed
    } else {
        match kind_of_tag(s[pos]) {
            None => Decoded::Read(None, pos + 1),
            Some(ValveDataType::EndOfList) => Decoded::Read(Some(Node::EndOfList), pos + 1),
            Some(ValveDataType::String) => match text_at(s, pos + 1) {
                None => Decoded::Failed,
                Some((name, p)) => match text_at(s, p) {
                    None => Decoded::Failed,
                    Some((value, q)) => Decoded::Read(Some(Node::String(name, value)), q),
                },
            },
            Some(ValveDataType::Bytes4) => match text_at(s, pos + 1) {
                None => Decoded::Failed,
                Some((name, p)) => if p + 4 <= s.len() {
                    Decoded::Read(Some(Node::Bytes4(name, s.subrange(p, p + 4))), p + 4)
                } else {
                    Decoded::Failed
                },
            },
            Some(ValveDataType::List) => match text_at(s, pos + 1) {
                None => Decoded::Failed,
                Some((name, p)) => match items_at(s, p) {
                    None => Decoded::Failed,
                    Some((items, q)) => Decoded::Read(Some(Node::List(name, items)), q),
                },
            },
        }
    }
}

/// Decodes the children of a list from `pos` up to and including its
/// terminator: the children read, in order, and the position past the
/// terminator. Unknown tags are skipped; `None` when the data ends first.
pub open spec fn items_at(s: Seq<u8>, pos: int) -> Option<(Seq<Node>, int)>
    decreases s.len() - pos, 1int,
{
    if pos < 0 || pos >= s.len() {
        None
    } else {
        match decode_at(s, pos) {
            Decoded::Failed => None,
            Decoded::Read(n, q) => if !(pos < q <= s.len()) {
                // never taken (see `lemma_decode_advances`); it bounds the recursion
                None
            } else {
                match n {
                    Some(Node::EndOfList) => Some((Seq::empty(), q)),
                    None => items_at(s, q),
                    Some(child) => match items_at(s, q) {
                        None => None,
                        Some((rest, r)) => Some((seq![child] + rest, r)),
                    },
                }
            },
        }
    }
}

/// A text field ends after its start and within the data.
pub proof fn lemma_text_at_bounds(s: Seq<u8>, start: int)
    ensures
        text_at(s, start) matches Some((_, p)) ==> start < p <= s.len(),
{
    if exists|i: int| terminator_at(s, start, i) {
        let i = choose|i: int| terminator_at(s, start, i);
        assert(terminator_at(s, start, i));
    }
}

/// Decoding a node moves forward, and stays within the data.
pub proof fn lemma_decode_advances(s: Seq<u8>, pos: int)
    ensures
        decode_at(s, pos) matches Decoded::Read(_, q) ==> pos < q <= s.len(),
    decreases s.len() - pos, 0int,
{
    if 0 <= pos < s.len() {
        lemma_text_at_bounds(s, pos + 1);
        if let Some((_, p)) = text_at(s, pos + 1) {
            lemma_text_at_bounds(s, p);
            if kind_of_tag(s[pos]) == Some(ValveDataType::List) {
                lemma_items_advance(s, p);
            }
        }
    }
}

/// Decoding the children of a list moves forward, and stays within the data.
pub proof fn lemma_items_advance(s: Seq<u8>, pos: int)
    ensures
        items_at(s, pos) matches Some((_, q)) ==> pos < q <= s.len(),
    decreases s.len() - pos, 1int,
{
    if 0 <= pos < s.len() {
        if let Decoded::Read(n, q) = decode_at(s, pos) {
            if pos < q <= s.len() {
                lemma_items_advance(s, q);
            }
        }
    }
}

} // verus!
