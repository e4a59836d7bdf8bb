//! The values the store keeps under its keys.
use vstd::prelude::*;

use crate::list::List;
use crate::str_map::StrMap;

verus! {

/// The kind and contents of a stored value. A stream maps entry ids to the
/// field/value pairs of the entry.
pub enum DataType {
    STRING(String),
    LIST(List),
    STREAM(StrMap<StrMap<String>>),
}

/// A stored value.
pub struct RedisObject {
    pub data: DataType,
}

/// A stored value, with texts as character sequences.
pub enum ObjectView {
    Str(Seq<char>),
    List(Seq<Seq<char>>),
    Stream(Map<Seq<char>, Map<Seq<char>, Seq<char>>>),
}

impl View for RedisObject {
    type V = ObjectView;

    open spec fn view(&self) -> ObjectView {
        match &self.data {
            DataType::STRING(s) => ObjectView::Str(s@),
            DataType::LIST(l) => ObjectView::List(l@),
            DataType::STREAM(m) => ObjectView::Stream(m@),
        }
    }
}

} // verus!
