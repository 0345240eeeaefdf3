//! The in-memory tree and its mathematical model.
use vstd::prelude::*;

use crate::kind::ValveDataType;

verus! {

/// Data in a vdf file. Every node but the list terminator has a name.
#[derive(Debug, PartialEq, Eq)]
pub enum ValveData {
    /// A list: tag `0x00`, a name, the children, then the terminator.
    List(String, Vec<ValveData>),
    /// A string property: tag `0x01`, a name, then a value.
    String(String, String),
    /// Four raw bytes: tag `0x02`, a name, then the bytes.
    Bytes4(String, [u8; 4]),
    /// The list terminator, tag `0x08`. It only closes lists on the wire.
    EndOfList,
}

/// The model of a node: its texts as character sequences, its children as
/// a sequence of models.
pub enum Node {
    List(Seq<char>, Seq<Node>),
    String(Seq<char>, Seq<char>),
    Bytes4(Seq<char>, Seq<u8>),
    EndOfList,
}

/// The kind of a node model.
pub open spec fn kind_of_node(n: Node) -> ValveDataType {
    match n {
        Node::List(..) => ValveDataType::List,
        Node::String(..) => ValveDataType::String,
        Node::Bytes4(..) => ValveDataType::Bytes4,
        Node::EndOfList => ValveDataType::EndOfList,
    }
}

/// The models of a sequence of nodes, in order.
pub open spec fn views_of(s: Seq<ValveData>) -> Seq<Node>
    decreases s,
{
    if s.len() == 0 {
        Seq::empty()
    } else {
        views_of(s.subrange(0, s.len() - 1)).push(s[s.len() - 1].view())
    }
}

impl ValveData {
    /// The model of this node.
    pub open spec fn view(&self) -> Node
        decreases self,
    {
        match self {
            ValveData::List(name, items) => Node::List(name@, views_of(items@)),
            ValveData::String(name, value) => Node::String(name@, value@),
            ValveData::Bytes4(name, value) => Node::Bytes4(name@, value@),
            ValveData::EndOfList => Node::EndOfList,
        }
    }

    /// Convert from data to type.
    pub fn data_type(&self) -> (r: ValveDataType)
        ensures
            r == kind_of_node(self@),
    {
        match self {
            ValveData::List(_, _) => ValveDataType::List,
            ValveData::String(_, _) => ValveDataType::String,
            ValveData::Bytes4(_, _) => ValveDataType::Bytes4,
            ValveData::EndOfList => ValveDataType::EndOfList,
        }
    }
}

/// The models of a sequence of nodes line up with the nodes one by one.
pub proof fn lemma_views_of(s: Seq<ValveData>)
    ensures
        views_of(s).len() == s.len(),
        forall|i: int| 0 <= i < s.len() ==> #[trigger] views_of(s)[i] == s[i]@,
    decreases s.len(),
{
    if s.len() > 0 {
        lemma_views_of(s.subrange(0, s.len() - 1));
    }
}

} // verus!
