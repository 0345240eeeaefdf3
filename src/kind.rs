//! The one-byte tags of the wire format and the kinds of node they stand for.
use vstd::prelude::*;

verus! {

/// The kind of a node, without its data.
#[derive(Clone, Copy, Debug, PartialEq, Eq, Structural)]
pub enum ValveDataType {
    List,
    String,
    Bytes4,
    EndOfList,
}

/// The tag byte written in front of a node of kind `k`.
pub open spec fn tag_of_kind(k: ValveDataType) -> u8 {
    match k {
        ValveDataType::List => 0x00,
        ValveDataType::String => 0x01,
        ValveDataType::Bytes4 => 0x02,
        ValveDataType::EndOfList => 0x08,
    }
}

/// The kind that tag byte `b` announces, if it is one of the four known tags.
pub open spec fn kind_of_tag(b: u8) -> Option<ValveDataType> {
    if b == 0x00 {
        Some(ValveDataType::List)
    } else if b == 0x01 {
        Some(ValveDataType::String)
    } else if b == 0x02 {
        Some(ValveDataType::Bytes4)
    } else if b == 0x08 {
        Some(ValveDataType::EndOfList)
    } else {
        None
    }
}

/// Returns the prefix for a specific data type.
pub fn get_prefix_from_type(data_type: ValveDataType) -> (r: u8)
    ensures
        r == tag_of_kind(data_type),
{
    match data_type {
        ValveDataType::List => 0x00,
        ValveDataType::String => 0x01,
        ValveDataType::Bytes4 => 0x02,
        ValveDataType::EndOfList => 0x08,
    }
}

/// Returns the data type for a specific prefix, or `None` when the prefix
/// is not one of the four known tags.
pub fn get_type_from_prefix(prefix: u8) -> (r: Option<ValveDataType>)
    ensures
        r == kind_of_tag(prefix),
{
    match prefix {
        0x00 => Some(ValveDataType::List),
        0x01 => Some(ValveDataType::String),
        0x02 => Some(ValveDataType::Bytes4),
        0x08 => Some(ValveDataType::EndOfList),
        _ => None,
    }
}

/// Tags and kinds correspond one to one: the tag of a kind reads back as
/// that kind, and every byte other than the four tags reads as no kind.
pub proof fn lemma_tag_bijection(k: ValveDataType, b: u8)
    ensures
        kind_of_tag(tag_of_kind(k)) == Some(k),
        b != 0x00 && b != 0x01 && b != 0x02 && b != 0x08 ==> kind_of_tag(b) is None,
        kind_of_tag(b) matches Some(j) ==> tag_of_kind(j) == b,
{
}

} // verus!
