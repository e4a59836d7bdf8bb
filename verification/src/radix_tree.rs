//! A node of the radix tree meant to index stream entries by id. Entries are
//! not stored in it yet: `add` reads the id and keeps the tree as it is.
use vstd::prelude::*;
use vstd::string::*;
use vstd::utf8::*;

use crate::text::{parse_in_range, parse_usize, split_dash, split_on_dash};

verus! {

pub struct RadixNode {
    pub value: String,
    pub children: Option<Vec<(char, Box<RadixNode>)>>,
    pub data: Option<Vec<String>>,
}

/// The ids that `add` reads: at least two `-`-separated parts, the second a
/// `usize`.
pub open spec fn radix_id_ok(id: Seq<char>) -> bool {
    let parts = split_dash(encode_utf8(id));
    parts.len() >= 2 && parse_in_range(parts[1], false, 0, usize::MAX as int) is Some
}

impl RadixNode {
    /// An empty node with no children yet.
    pub fn new(&mut self) -> (r: Self)
        ensures
            r.value@ == Seq::<char>::empty(),
            r.children matches Some(c) && c@.len() == 0,
            r.data is None,
            *final(self) == *old(self),
    {
        RadixNode { value: String::new(), children: Some(Vec::new()), data: None }
    }

    /// Reads the `<milliseconds>-<sequence>` id of an entry; the node is left
    /// as it is.
    pub fn add(&mut self, id: String, val: String)
        requires
            radix_id_ok(id@),
        ensures
            *final(self) == *old(self),
    {
        let arr = split_on_dash(id.as_str());
        let _id = arr[0].clone();
        let first_part = arr[1].as_str();
        assert(first_part.spec_bytes() == split_dash(encode_utf8(id@))[1]);
        let _seq: usize = match parse_usize(first_part) {
            Some(v) => v,
            None => {
                proof { assert(false); }
                0
            },
        };
        match &mut self.children {
            Some(_children) => {},
            None => {},
        }
    }
}

} // verus!
