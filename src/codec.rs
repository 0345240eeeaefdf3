//! The recursive decoder and encoder.
use vstd::prelude::*;

use crate::kind::{get_prefix_from_type, get_type_from_prefix, ValveDataType};
use crate::node::{lemma_views_of, views_of, Node, ValveData};
use crate::reader::{ByteReader, ReadError};
use crate::text::{read_null_string, terminated, write_null_string};
use crate::wire::{
    decode_at,
    encode_node,
    encode_nodes,
    items_at,
    lemma_decode_advances,
    lemma_text_at_bounds,
    Decoded,
};

verus! {

/// The model of a decoded result, `None` staying `None`.
pub open spec fn view_of_option(d: Option<ValveData>) -> Option<Node> {
    match d {
        Some(v) => Some(v@),
        None => None,
    }
}

/// Reads one node from `input`, a whole list with its children where the tag
/// is that of a list. An unknown tag gives `Ok(None)`; inside a list such a
/// tag is skipped. The list terminator is consumed and not kept among the
/// children. Fails when the data ends before the node does.
pub fn read_data(input: &mut ByteReader) -> (r: Result<Option<ValveData>, ReadError>)
    ensures
        final(input).data() == old(input).data(),
        match decode_at(old(input).data(), old(input).cursor() as int) {
            Decoded::Failed => r == Err::<Option<ValveData>, ReadError>(ReadError::UnexpectedEof),
            Decoded::Read(n, q) => r matches Ok(d) && view_of_option(d) == n
                && final(input).cursor() == q,
        },
    decreases old(input).data().len() - old(input).cursor(),
{
    let ghost s = input.data();
    let ghost pos = input.cursor() as int;
    let tag = input.read_byte()?;
    match get_type_from_prefix(tag) {
        None => Ok(None),
        Some(ValveDataType::EndOfList) => Ok(Some(ValveData::EndOfList)),
        Some(ValveDataType::String) => {
            let name = read_null_string(input)?;
            let value = read_null_string(input)?;
            Ok(Some(ValveData::String(name, value)))
        },
        Some(ValveDataType::Bytes4) => {
            let name = read_null_string(input)?;
            let ghost p = input.cursor() as int;
            let b0 = input.read_byte()?;
            let b1 = input.read_byte()?;
            let b2 = input.read_byte()?;
            let b3 = input.read_byte()?;
            let value = [b0, b1, b2, b3];
            assert(value@ =~= s.subrange(p, p + 4));
            Ok(Some(ValveData::Bytes4(name, value)))
        },
        Some(ValveDataType::List) => {
            let name = read_null_string(input)?;
            let ghost p = input.cursor() as int;
            proof {
                lemma_text_at_bounds(s, pos + 1);
                assert forall|x: Seq<Node>| Seq::<Node>::empty() + x == x by {
                    assert(Seq::<Node>::empty() + x =~= x);
                }
            }
            let mut list: Vec<ValveData> = Vec::new();
            loop
                invariant_except_break
                    match items_at(s, input.cursor() as int) {
                        None => items_at(s, p) is None,
                        Some((rest, q)) => items_at(s, p) == Some((views_of(list@) + rest, q)),
                    },
                invariant
                    input.data() == s,
                    s == old(input).data(),
                    pos == old(input).cursor(),
                    0 <= pos < p <= input.cursor() <= s.len(),
                    decode_at(s, pos) == match items_at(s, p) {
                        None => Decoded::Failed,
                        Some((items, q)) => Decoded::Read(Some(Node::List(name@, items)), q),
                    },
                ensures
                    items_at(s, p) == Some((views_of(list@), input.cursor() as int)),
                decreases s.len() - input.cursor(),
            {
                let ghost cur = input.cursor() as int;
                proof {
                    lemma_decode_advances(s, cur);
                }
                let data = read_data(input)?;
                match data {
                    Some(ValveData::EndOfList) => {
                        assert(views_of(list@) + Seq::<Node>::empty() =~= views_of(list@));
                        break;
                    },
                    Some(v) => {
                        let ghost before = list@;
                        list.push(v);
                        proof {
                            assert(list@.subrange(0, list@.len() - 1) =~= before);
                            if let Some((rest, q)) = items_at(s, input.cursor() as int) {
                                assert(views_of(list@) + rest =~= views_of(before) + (seq![v@]
                                    + rest));
                            }
                        }
                    },
                    None => {},
                }
            }
            Ok(Some(ValveData::List(name, list)))
        },
    }
}

/// Appends the encoding of `data` to `output`: its tag, its name and body,
/// and for a list its children followed by the list terminator.
pub fn write_data(output: &mut Vec<u8>, data: &ValveData)
    ensures
        final(output)@ == old(output)@ + encode_node(data@),
    decreases data@,
{
    output.push(get_prefix_from_type(data.data_type()));
    match data {
        ValveData::List(name, items) => {
            write_null_string(output, name);
            let ghost head = old(output)@ + seq![0x00u8] + terminated(name@);
            assert(output@ =~= head);
            let mut i: usize = 0;
            while i < items.len()
                invariant
                    data@ == Node::List(name@, views_of(items@)),
                    i <= items@.len(),
                    output@ == head + encode_nodes(views_of(items@.subrange(0, i as int))),
                decreases items@.len() - i,
            {
                let ghost done = items@.subrange(0, i as int);
                proof {
                    lemma_views_of(items@);
                    assert(views_of(items@)[i as int] == items@[i as int]@);
                    assert(decreases_to!(data@ => data@->List_1));
                    assert(decreases_to!(views_of(items@) => views_of(items@)[i as int]));
                    assert(decreases_to!(data@ => items@[i as int]@));
                }
                write_data(output, &items[i]);
                i = i + 1;
                proof {
                    let now = items@.subrange(0, i as int);
                    assert(now.subrange(0, now.len() - 1) =~= done);
                    let vs = views_of(now);
                    assert(vs.subrange(0, vs.len() - 1) =~= views_of(done));
                    assert(output@ =~= head + encode_nodes(vs));
                }
            }
            output.push(get_prefix_from_type(ValveDataType::EndOfList));
            assert(items@.subrange(0, items@.len() as int) =~= items@);
            assert(output@ =~= old(output)@ + encode_node(data@));
        },
        ValveData::String(name, value) => {
            write_null_string(output, name);
            write_null_string(output, value);
            assert(output@ =~= old(output)@ + encode_node(data@));
        },
        ValveData::Bytes4(name, value) => {
            write_null_string(output, name);
            let mut i: usize = 0;
            while i < 4
                invariant
                    i <= 4,
                    output@ == old(output)@ + seq![0x02u8] + terminated(name@) + value@.subrange(
                        0,
                        i as int,
                    ),
                decreases 4 - i,
            {
                output.push(value[i]);
                i = i + 1;
                assert(output@ =~= old(output)@ + seq![0x02u8] + terminated(name@)
                    + value@.subrange(0, i as int));
            }
            assert(value@.subrange(0, 4) =~= value@);
        },
        ValveData::EndOfList => {},
    }
}

} // verus!
