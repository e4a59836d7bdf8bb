//! The store: values by key, expiry times, the clients blocked on each key,
//! and the last stream id handed out.
use std::collections::VecDeque;
use vstd::prelude::*;

use crate::redis_object::{ObjectView, RedisObject};
use crate::str_map::StrMap;

verus! {

/// The number by which the server knows a client.
pub type ClientId = usize;

pub struct RedisDb {
    pub map: StrMap<RedisObject>,
    /// The time, in milliseconds since the Unix epoch, after which a key is gone.
    pub expiry_map: StrMap<u128>,
    /// The clients waiting for an element of each list, first come first.
    pub blocked: StrMap<VecDeque<ClientId>>,
    pub last_id: u128,
    pub last_sequence_number: u32,
}

/// The store's state.
#[verifier::ext_equal]
pub struct DbView {
    pub map: Map<Seq<char>, ObjectView>,
    pub expiry: Map<Seq<char>, u128>,
    pub blocked: Map<Seq<char>, Seq<ClientId>>,
    pub last_id: u128,
    pub last_seq: u32,
}

impl View for RedisDb {
    type V = DbView;

    open spec fn view(&self) -> DbView {
        DbView {
            map: self.map@,
            expiry: self.expiry_map@,
            blocked: self.blocked@,
            last_id: self.last_id,
            last_seq: self.last_sequence_number,
        }
    }
}

/// A store with nothing in it.
pub open spec fn empty_db() -> DbView {
    DbView {
        map: Map::empty(),
        expiry: Map::empty(),
        blocked: Map::empty(),
        last_id: 0,
        last_seq: 0,
    }
}

impl RedisDb {
    pub fn new() -> (r: Self)
        ensures
            r@ == empty_db(),
    {
        Self {
            map: StrMap::new(),
            expiry_map: StrMap::new(),
            blocked: StrMap::new(),
            last_id: 0,
            last_sequence_number: 0,
        }
    }
}

} // verus!
