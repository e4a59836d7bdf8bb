//! The list value of the store: a double-ended queue of strings.
use std::collections::VecDeque;
use vstd::prelude::*;

use crate::resp::texts;

verus! {

broadcast use vstd::std_specs::vecdeque::group_vec_dequeue_axioms;

/// One element of a list.
pub struct ListNode {
    pub val: String,
}

impl ListNode {
    pub fn new(value: String) -> (r: Self)
        ensures
            r.val == value,
    {
        Self { val: value }
    }
}

/// A list of strings, with O(1) pushes and pops at both ends.
pub struct List {
    items: VecDeque<String>,
}

/// The elements of `s` at positions `start..=end` that exist.
pub open spec fn range_of<A>(s: Seq<A>, start: int, end: int) -> Seq<A> {
    let hi = if end + 1 < s.len() {
        end + 1
    } else {
        s.len() as int
    };
    if 0 <= start < hi {
        s.subrange(start, hi)
    } else {
        seq![]
    }
}

impl View for List {
    type V = Seq<Seq<char>>;

    closed spec fn view(&self) -> Seq<Seq<char>> {
        texts(self.items@)
    }
}

impl List {
    /// The list's length fits its `i64` count.
    #[verifier::type_invariant]
    spec fn count_fits(&self) -> bool {
        self.items@.len() <= i64::MAX
    }

    pub fn new() -> (r: Self)
        ensures
            r@ == Seq::<Seq<char>>::empty(),
    {
        let r = Self { items: VecDeque::new() };
        assert(r@ =~= Seq::<Seq<char>>::empty());
        r
    }

    /// The number of elements.
    pub fn count(&self) -> (n: i64)
        ensures
            n == self@.len(),
    {
        proof { use_type_invariant(self); }
        self.items.len() as i64
    }

    /// Appends `val` at the end.
    pub fn push_back(&mut self, val: String)
        requires
            old(self)@.len() < i64::MAX,
        ensures
            final(self)@ == old(self)@.push(val@),
    {
        proof { use_type_invariant(&*self); }
        let ghost before = self.items@;
        let mut items = VecDeque::new();
        std::mem::swap(&mut items, &mut self.items);
        items.push_back(val);
        self.items = items;
        assert(texts(self.items@) =~= texts(before).push(val@));
    }

    /// Puts `val` in front.
    pub fn push_front(&mut self, val: String)
        requires
            old(self)@.len() < i64::MAX,
        ensures
            final(self)@ == seq![val@] + old(self)@,
    {
        proof { use_type_invariant(&*self); }
        let ghost before = self.items@;
        let mut items = VecDeque::new();
        std::mem::swap(&mut items, &mut self.items);
        items.push_front(val);
        self.items = items;
        assert(texts(self.items@) =~= seq![val@] + texts(before));
    }

    /// Takes the last element off, if there is one.
    pub fn pop_back(&mut self) -> (r: Option<ListNode>)
        ensures
            old(self)@.len() == 0 ==> r is None && final(self)@ == old(self)@,
            old(self)@.len() > 0 ==> (r matches Some(node) && node.val@ == old(self)@.last()
                && final(self)@ == old(self)@.drop_last()),
    {
        proof { use_type_invariant(&*self); }
        let ghost before = self.items@;
        let mut items = VecDeque::new();
        std::mem::swap(&mut items, &mut self.items);
        let r = items.pop_back();
        self.items = items;
        match r {
            Some(v) => {
                assert(texts(self.items@) =~= texts(before).drop_last());
                Some(ListNode::new(v))
            },
            None => None,
        }
    }

    /// Takes the first element off, if there is one.
    pub fn pop_front(&mut self) -> (r: Option<ListNode>)
        ensures
            old(self)@.len() == 0 ==> r is None && final(self)@ == old(self)@,
            old(self)@.len() > 0 ==> (r matches Some(node) && node.val@ == old(self)@[0]
                && final(self)@ == old(self)@.drop_first()),
    {
        proof { use_type_invariant(&*self); }
        let ghost before = self.items@;
        let mut items = VecDeque::new();
        std::mem::swap(&mut items, &mut self.items);
        let r = items.pop_front();
        self.items = items;
        match r {
            Some(v) => {
                assert(texts(self.items@) =~= texts(before).drop_first());
                Some(ListNode::new(v))
            },
            None => None,
        }
    }

    /// Copies of the elements at positions `start..=end` (those that exist).
    pub fn range(&self, start: usize, end: usize) -> (r: Vec<String>)
        ensures
            texts(r@) == range_of(self@, start as int, end as int),
    {
        let len = self.items.len();
        let ghost all = texts(self.items@);
        let mut result: Vec<String> = Vec::new();
        let hi: usize = if end < len {
            end + 1
        } else {
            len
        };
        let mut i: usize = start;
        if start < hi {
            while i < hi
                invariant
                    start <= i <= hi <= len,
                    len == self.items@.len(),
                    all == texts(self.items@),
                    texts(result@) == all.subrange(start as int, i as int),
                decreases hi - i,
            {
                let ghost before = result@;
                result.push(self.items[i].clone());
                proof {
                    assert(texts(before).len() == before.len());
                    assert forall|j: int| 0 <= j < result@.len() implies #[trigger] texts(
                        result@,
                    )[j] == all.subrange(start as int, i + 1)[j] by {
                        if j < before.len() {
                            assert(texts(before)[j] == all.subrange(start as int, i as int)[j]);
                        }
                    }
                    assert(texts(result@) =~= all.subrange(start as int, i + 1));
                }
                i = i + 1;
            }
        } else {
            assert(texts(result@) =~= Seq::<Seq<char>>::empty());
        }
        result
    }
}

/// Pushing at the back and then popping at the back gives the pushed value
/// and leaves the list as it was.
pub proof fn law_push_back_pop_back(s: Seq<Seq<char>>, v: Seq<char>)
    ensures
        s.push(v).len() > 0,
        s.push(v).last() == v,
        s.push(v).drop_last() == s,
{
    assert(s.push(v).drop_last() =~= s);
}

/// Pushing in front and then popping in front gives the pushed value and
/// leaves the list as it was.
pub proof fn law_push_front_pop_front(s: Seq<Seq<char>>, v: Seq<char>)
    ensures
        (seq![v] + s).len() > 0,
        (seq![v] + s)[0] == v,
        (seq![v] + s).drop_first() == s,
{
    assert((seq![v] + s).drop_first() =~= s);
}

/// The range from the first to the last position is the whole list.
pub proof fn law_full_range(s: Seq<Seq<char>>)
    requires
        s.len() > 0,
    ensures
        range_of(s, 0, s.len() - 1) == s,
{
    assert(s.subrange(0, s.len() as int) =~= s);
}

} // verus!
