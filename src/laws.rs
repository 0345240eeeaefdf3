//! What holds of the codec as a whole: decoding undoes encoding, decoded
//! lists hold no terminator, unknown tags inside lists are skipped, and
//! truncated data fails to decode.
use vstd::prelude::*;
use vstd::utf8::{
    char_u32_cast,
    encode_scalar,
    encode_utf8,
    encode_utf8_decode_utf8,
    encode_utf8_valid_utf8,
};

use crate::kind::{kind_of_tag, ValveDataType};
use crate::node::Node;
use crate::text::{lemma_text_at, terminated, terminator_at, text_at, text_from_bytes};
use crate::wire::{
    decode_at,
    encode_node,
    encode_nodes,
    items_at,
    lemma_decode_advances,
    lemma_text_at_bounds,
    Decoded,
};

verus! {

/// The text holds no NUL character.
pub open spec fn plain_text(t: Seq<char>) -> bool {
    forall|i: int| 0 <= i < t.len() ==> t[i] != '\0'
}

/// The node can be written and read back: its texts hold no NUL, its byte
/// fields are four bytes long, and no list holds a terminator as a child.
pub open spec fn well_formed(n: Node) -> bool
    decreases n,
{
    match n {
        Node::List(name, items) => plain_text(name) && forall|i: int|
            #![trigger items[i]]
            0 <= i < items.len() ==> !(items[i] is EndOfList) && well_formed(items[i]),
        Node::String(name, value) => plain_text(name) && plain_text(value),
        Node::Bytes4(name, value) => plain_text(name) && value.len() == 4,
        Node::EndOfList => true,
    }
}

/// No list in the node, at any depth, holds a terminator as a child.
pub open spec fn holds_no_terminator(n: Node) -> bool
    decreases n,
{
    match n {
        Node::List(_, items) => forall|i: int|
            #![trigger items[i]]
            0 <= i < items.len() ==> !(items[i] is EndOfList) && holds_no_terminator(items[i]),
        _ => true,
    }
}

/// The bytes hold no zero.
pub open spec fn has_no_nul(b: Seq<u8>) -> bool {
    forall|i: int| 0 <= i < b.len() ==> b[i] != 0
}

/// `e` stands in `s` from `pos` on.
pub open spec fn bytes_at(s: Seq<u8>, pos: int, e: Seq<u8>) -> bool {
    0 <= pos && pos + e.len() <= s.len() && s.subrange(pos, pos + e.len()) == e
}

/// `pre` in front of the children that `o` holds, if it holds any.
pub open spec fn prefixed(pre: Seq<Node>, o: Option<(Seq<Node>, int)>) -> Option<(Seq<Node>, int)> {
    match o {
        None => None,
        Some((rest, q)) => Some((pre + rest, q)),
    }
}

proof fn lemma_bytes_at_split(s: Seq<u8>, pos: int, a: Seq<u8>, b: Seq<u8>)
    requires
        bytes_at(s, pos, a + b),
    ensures
        bytes_at(s, pos, a),
        bytes_at(s, pos + a.len(), b),
{
    let w = s.subrange(pos, pos + (a + b).len());
    assert(s.subrange(pos, pos + a.len()) =~= w.subrange(0, a.len() as int));
    assert(w.subrange(0, a.len() as int) =~= a);
    assert(s.subrange(pos + a.len(), pos + a.len() + b.len()) =~= w.subrange(
        a.len() as int,
        w.len() as int,
    ));
    assert(w.subrange(a.len() as int, w.len() as int) =~= b);
}

proof fn lemma_utf8_bytes_nonzero(c: u32)
    by (bit_vector)
    requires
        0 < c,
    ensures
        c <= 0x7F ==> (c & 0x7F) as u8 != 0,
        (0xC0u8 | ((c >> 6u32) & 0x1Fu32) as u8) != 0,
        (0xE0u8 | ((c >> 12u32) & 0x0Fu32) as u8) != 0,
        (0xF0u8 | ((c >> 18u32) & 0x7u32) as u8) != 0,
        (0x80u8 | (c & 0x3Fu32) as u8) != 0,
        (0x80u8 | ((c >> 6u32) & 0x3Fu32) as u8) != 0,
        (0x80u8 | ((c >> 12u32) & 0x3Fu32) as u8) != 0,
{
}

/// The UTF-8 encoding of a text without NUL holds no zero byte.
proof fn lemma_encoding_has_no_zero(t: Seq<char>)
    requires
        plain_text(t),
    ensures
        forall|i: int| 0 <= i < encode_utf8(t).len() ==> encode_utf8(t)[i] != 0,
    decreases t.len(),
{
    if t.len() > 0 {
        let c = t[0] as u32;
        char_u32_cast(t[0], c);
        assert(c != 0) by {
            if c == 0 {
                char_u32_cast(t[0], c);
                assert(t[0] == (0u32 as char));
                assert(t[0] != '\0');
            }
        }
        lemma_utf8_bytes_nonzero(c);
        let head = encode_scalar(c);
        assert(forall|i: int| 0 <= i < head.len() ==> head[i] != 0);
        let tail = t.drop_first();
        assert(plain_text(tail)) by {
            assert forall|i: int| 0 <= i < tail.len() implies tail[i] != '\0' by {
                assert(tail[i] == t[i + 1]);
            }
        }
        lemma_encoding_has_no_zero(tail);
        assert(encode_utf8(t) == head + encode_utf8(tail));
    }
}

/// A text field written from plain text reads back as that text.
proof fn lemma_text_round_trip(s: Seq<u8>, pos: int, t: Seq<char>)
    requires
        plain_text(t),
        bytes_at(s, pos, terminated(t)),
    ensures
        text_at(s, pos) == Some((t, pos + terminated(t).len())),
{
    let e = encode_utf8(t);
    let end = pos + e.len();
    lemma_encoding_has_no_zero(t);
    assert forall|j: int| pos <= j < end implies s[j] != 0 by {
        assert(s[j] == s.subrange(pos, pos + terminated(t).len())[j - pos]);
    }
    assert(s[end] == s.subrange(pos, pos + terminated(t).len())[e.len() as int]);
    assert(terminator_at(s, pos, end));
    lemma_text_at(s, pos, end);
    assert(s.subrange(pos, end) =~= e);
    encode_utf8_valid_utf8(t);
    encode_utf8_decode_utf8(t);
}

/// The encodings of a sequence of nodes start with that of the first.
proof fn lemma_encode_nodes_front(xs: Seq<Node>)
    requires
        xs.len() > 0,
    ensures
        encode_nodes(xs) == encode_node(xs[0]) + encode_nodes(xs.drop_first()),
    decreases xs.len(),
{
    let init = xs.subrange(0, xs.len() - 1);
    let rest = xs.drop_first();
    if xs.len() == 1 {
        assert(init =~= Seq::<Node>::empty());
        assert(rest =~= Seq::<Node>::empty());
        assert(encode_nodes(xs) =~= encode_node(xs[0]) + encode_nodes(rest));
    } else {
        lemma_encode_nodes_front(init);
        assert(rest.subrange(0, rest.len() - 1) =~= init.drop_first());
        assert(rest[rest.len() - 1] == xs[xs.len() - 1]);
        assert(init[0] == xs[0]);
        assert(encode_nodes(xs) =~= encode_node(xs[0]) + encode_nodes(rest));
    }
}

/// A well-formed node decodes from its encoding, wherever that stands.
proof fn lemma_decode_encoded(s: Seq<u8>, pos: int, n: Node)
    requires
        well_formed(n),
        bytes_at(s, pos, encode_node(n)),
    ensures
        decode_at(s, pos) == Decoded::Read(Some(n), pos + encode_node(n).len()),
    decreases n,
{
    let e = encode_node(n);
    assert(s[pos] == s.subrange(pos, pos + e.len())[0]);
    match n {
        Node::List(name, items) => {
            let body = encode_nodes(items) + seq![0x08u8];
            assert(e =~= seq![0x00u8] + (terminated(name) + body));
            lemma_bytes_at_split(s, pos, seq![0x00u8], terminated(name) + body);
            lemma_bytes_at_split(s, pos + 1, terminated(name), body);
            lemma_text_round_trip(s, pos + 1, name);
            let p = pos + 1 + terminated(name).len();
            assert(decreases_to!(n => n->List_1));
            lemma_decode_items(s, p, items, seq![0x08u8]);
        },
        Node::String(name, value) => {
            assert(e =~= seq![0x01u8] + (terminated(name) + terminated(value)));
            lemma_bytes_at_split(s, pos, seq![0x01u8], terminated(name) + terminated(value));
            lemma_bytes_at_split(s, pos + 1, terminated(name), terminated(value));
            lemma_text_round_trip(s, pos + 1, name);
            lemma_text_round_trip(s, pos + 1 + terminated(name).len(), value);
        },
        Node::Bytes4(name, value) => {
            assert(e =~= seq![0x02u8] + (terminated(name) + value));
            lemma_bytes_at_split(s, pos, seq![0x02u8], terminated(name) + value);
            lemma_bytes_at_split(s, pos + 1, terminated(name), value);
            lemma_text_round_trip(s, pos + 1, name);
        },
        Node::EndOfList => {},
    }
}

/// Children written one after the other, then a list terminator, read back
/// as those children.
proof fn lemma_decode_items(s: Seq<u8>, pos: int, xs: Seq<Node>, tail: Seq<u8>)
    requires
        tail == seq![0x08u8],
        forall|i: int| #![trigger xs[i]] 0 <= i < xs.len() ==> !(xs[i] is EndOfList) && well_formed(xs[i]),
        bytes_at(s, pos, encode_nodes(xs) + tail),
    ensures
        items_at(s, pos) == Some((xs, pos + encode_nodes(xs).len() + 1)),
    decreases xs, 1int,
{
    lemma_bytes_at_split(s, pos, encode_nodes(xs), tail);
    lemma_decode_prefix(s, pos, xs);
    let end = pos + encode_nodes(xs).len();
    assert(s[end] == s.subrange(end, end + 1)[0]);
    assert(decode_at(s, end) == Decoded::Read(Some(Node::EndOfList), end + 1));
    assert(items_at(s, end) == Some((Seq::<Node>::empty(), end + 1)));
    assert(xs + Seq::<Node>::empty() =~= xs);
}

/// Children written one after the other read back as those children, in
/// front of whatever follows.
proof fn lemma_decode_prefix(s: Seq<u8>, pos: int, xs: Seq<Node>)
    requires
        forall|i: int| #![trigger xs[i]] 0 <= i < xs.len() ==> !(xs[i] is EndOfList) && well_formed(xs[i]),
        bytes_at(s, pos, encode_nodes(xs)),
    ensures
        items_at(s, pos) == prefixed(xs, items_at(s, pos + encode_nodes(xs).len())),
    decreases xs, 0int,
{
    if xs.len() == 0 {
        assert(prefixed(xs, items_at(s, pos)) == items_at(s, pos)) by {
            if let Some((rest, q)) = items_at(s, pos) {
                assert(xs + rest =~= rest);
            }
        }
    } else {
        let rest = xs.drop_first();
        lemma_encode_nodes_front(xs);
        lemma_bytes_at_split(s, pos, encode_node(xs[0]), encode_nodes(rest));
        assert(decreases_to!(xs => xs[0]));
        lemma_decode_encoded(s, pos, xs[0]);
        let q = pos + encode_node(xs[0]).len();
        assert forall|i: int| 0 <= i < rest.len() implies !(rest[i] is EndOfList) && well_formed(
            rest[i],
        ) by {
            assert(rest[i] == xs[i + 1]);
        }
        lemma_decode_prefix(s, q, rest);
        lemma_decode_advances(s, pos);
        if let Some((more, r)) = items_at(s, q + encode_nodes(rest).len()) {
            assert(seq![xs[0]] + (rest + more) =~= xs + more);
        }
    }
}

/// Round trip: a well-formed node decodes from its own encoding, whatever
/// bytes follow, and the decoder stops just past it.
pub proof fn lemma_round_trip(n: Node, rest: Seq<u8>)
    requires
        well_formed(n),
    ensures
        decode_at(encode_node(n) + rest, 0) == Decoded::Read(
            Some(n),
            encode_node(n).len() as int,
        ),
{
    let s = encode_node(n) + rest;
    assert(s.subrange(0, s.len() as int) =~= s);
    lemma_bytes_at_split(s, 0, encode_node(n), rest);
    lemma_decode_encoded(s, 0, n);
}

/// Every list that decoding yields, at any depth, holds no terminator among
/// its children, however many terminators the data holds.
pub proof fn lemma_decoded_lists_hold_no_terminator(s: Seq<u8>, pos: int)
    ensures
        decode_at(s, pos) matches Decoded::Read(Some(n), _) ==> holds_no_terminator(n),
    decreases s.len() - pos, 0int,
{
    if 0 <= pos < s.len() && kind_of_tag(s[pos]) == Some(ValveDataType::List) {
        lemma_text_at_bounds(s, pos + 1);
        if let Some((_, p)) = text_at(s, pos + 1) {
            lemma_decoded_children_hold_no_terminator(s, p);
        }
    }
}

/// The children that decoding a list yields are no terminators, and hold
/// none at any depth.
proof fn lemma_decoded_children_hold_no_terminator(s: Seq<u8>, pos: int)
    ensures
        items_at(s, pos) matches Some((xs, _)) ==> forall|i: int|
            #![trigger xs[i]]
            0 <= i < xs.len() ==> !(xs[i] is EndOfList) && holds_no_terminator(xs[i]),
    decreases s.len() - pos, 1int,
{
    if 0 <= pos < s.len() {
        if let Decoded::Read(n, q) = decode_at(s, pos) {
            if pos < q <= s.len() {
                lemma_decoded_lists_hold_no_terminator(s, pos);
                lemma_decoded_children_hold_no_terminator(s, q);
                if let (Some(child), Some((rest, r))) = (n, items_at(s, q)) {
                    if !(child is EndOfList) {
                        let xs = seq![child] + rest;
                        assert forall|i: int| 0 <= i < xs.len() implies !(xs[i] is EndOfList)
                            && holds_no_terminator(xs[i]) by {
                            if i > 0 {
                                assert(xs[i] == rest[i - 1]);
                            }
                        }
                    }
                }
            }
        }
    }
}

/// Inside a list, a byte that is no known tag is skipped: the list holds
/// the children before it and those after it, in their order.
pub proof fn lemma_unknown_tag_skipped(
    name: Seq<char>,
    before: Seq<Node>,
    tag: u8,
    after: Seq<Node>,
)
    requires
        well_formed(Node::List(name, before)),
        well_formed(Node::List(name, after)),
        kind_of_tag(tag) is None,
    ensures
        ({
            let s = seq![0x00u8] + terminated(name) + encode_nodes(before) + seq![tag]
                + encode_nodes(after) + seq![0x08u8];
            decode_at(s, 0) == Decoded::Read(Some(Node::List(name, before + after)), s.len() as int)
        }),
{
    let eb = encode_nodes(before);
    let ea = encode_nodes(after);
    let s = seq![0x00u8] + terminated(name) + eb + seq![tag] + ea + seq![0x08u8];
    let tail = seq![tag] + (ea + seq![0x08u8]);
    assert(s =~= seq![0x00u8] + (terminated(name) + (eb + tail)));
    assert(s.subrange(0, s.len() as int) =~= s);
    lemma_bytes_at_split(s, 0, seq![0x00u8], terminated(name) + (eb + tail));
    let p = 1 + terminated(name).len() as int;
    lemma_bytes_at_split(s, 1, terminated(name), eb + tail);
    lemma_text_round_trip(s, 1, name);
    lemma_bytes_at_split(s, p, eb, tail);
    let u = p + eb.len() as int;
    lemma_bytes_at_split(s, u, seq![tag], ea + seq![0x08u8]);
    lemma_decode_prefix(s, p, before);
    assert(s[u] == s.subrange(u, u + 1)[0]);
    assert(decode_at(s, u) == Decoded::Read(None, u + 1));
    lemma_decode_items(s, u + 1, after, seq![0x08u8]);
    assert(items_at(s, u) == items_at(s, u + 1));
    assert(s[0] == 0x00u8);
}

/// The text field at `start` whose bytes `b` hold no NUL and are followed by
/// one.
proof fn lemma_text_of_bytes(s: Seq<u8>, start: int, b: Seq<u8>)
    requires
        has_no_nul(b),
        bytes_at(s, start, b.push(0u8)),
    ensures
        text_at(s, start) == Some((text_from_bytes(b), start + b.len() + 1)),
{
    let end = start + b.len();
    assert forall|j: int| start <= j < end implies s[j] != 0 by {
        assert(s[j] == s.subrange(start, start + b.len() + 1)[j - start]);
    }
    assert(s[end] == s.subrange(start, start + b.len() + 1)[b.len() as int]);
    assert(terminator_at(s, start, end));
    lemma_text_at(s, start, end);
    assert(s.subrange(start, end) =~= b);
}

/// A node whose name runs to the end of the data without a NUL fails to
/// decode.
pub proof fn lemma_unterminated_name_fails(s: Seq<u8>)
    requires
        s.len() >= 1,
        s[0] == 0x00 || s[0] == 0x01 || s[0] == 0x02,
        has_no_nul(s.drop_first()),
    ensures
        decode_at(s, 0) == Decoded::Failed,
{
    assert(!exists|i: int| terminator_at(s, 1, i)) by {
        if exists|i: int| terminator_at(s, 1, i) {
            let i = choose|i: int| terminator_at(s, 1, i);
            assert(s[i] == s.drop_first()[i - 1]);
        }
    }
}

/// A string node whose value runs to the end of the data without a NUL
/// fails to decode.
pub proof fn lemma_unterminated_value_fails(name: Seq<u8>, value: Seq<u8>)
    requires
        has_no_nul(name),
        has_no_nul(value),
    ensures
        decode_at(seq![0x01u8] + name.push(0u8) + value, 0) == Decoded::Failed,
{
    let s = seq![0x01u8] + name.push(0u8) + value;
    let p = 1 + name.len() as int + 1;
    assert(s.subrange(1, p) =~= name.push(0u8));
    lemma_text_of_bytes(s, 1, name);
    assert(!exists|i: int| terminator_at(s, p, i)) by {
        if exists|i: int| terminator_at(s, p, i) {
            let i = choose|i: int| terminator_at(s, p, i);
            assert(s[i] == value[i - p]);
        }
    }
}

/// A four-byte node with fewer than four bytes after its name fails to
/// decode.
pub proof fn lemma_short_bytes4_fails(name: Seq<u8>, value: Seq<u8>)
    requires
        has_no_nul(name),
        value.len() < 4,
    ensures
        decode_at(seq![0x02u8] + name.push(0u8) + value, 0) == Decoded::Failed,
{
    let s = seq![0x02u8] + name.push(0u8) + value;
    assert(s.subrange(1, 1 + name.len() as int + 1) =~= name.push(0u8));
    lemma_text_of_bytes(s, 1, name);
}

/// A list whose terminator is missing fails to decode.
pub proof fn lemma_unclosed_list_fails(name: Seq<char>, items: Seq<Node>)
    requires
        well_formed(Node::List(name, items)),
    ensures
        decode_at(seq![0x00u8] + terminated(name) + encode_nodes(items), 0) == Decoded::Failed,
{
    let s = seq![0x00u8] + terminated(name) + encode_nodes(items);
    assert(s =~= seq![0x00u8] + (terminated(name) + encode_nodes(items)));
    assert(s.subrange(0, s.len() as int) =~= s);
    lemma_bytes_at_split(s, 0, seq![0x00u8], terminated(name) + encode_nodes(items));
    lemma_bytes_at_split(s, 1, terminated(name), encode_nodes(items));
    lemma_text_round_trip(s, 1, name);
    lemma_decode_prefix(s, 1 + terminated(name).len() as int, items);
    assert(s[0] == 0x00u8);
}

} // verus!
