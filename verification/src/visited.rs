//! The set of nodes that a trace has discovered, kept in discovery order.

use crate::store::{all_below, NodeIndex};
use vstd::prelude::*;

verus! {

/// A sequence of distinct indices below `limit` is at most `limit` long.
pub proof fn lemma_distinct_indices_bounded(indices: Seq<NodeIndex>, limit: nat)
    requires
        indices.no_duplicates(),
        all_below(indices, limit as int),
    ensures
        indices.len() <= limit,
    decreases limit,
{
    if limit == 0 {
        if indices.len() > 0 {
            assert(indices[0] < 0);
        }
    } else {
        let top = (limit - 1) as usize;
        if indices.contains(top) {
            let at = indices.index_of(top);
            let rest = indices.remove(at);
            assert forall|j: int| 0 <= j < rest.len() implies rest[j] < limit - 1 by {
                if j < at {
                    assert(rest[j] == indices[j]);
                } else {
                    assert(rest[j] == indices[j + 1]);
                }
            }
            assert forall|a: int, b: int| 0 <= a < rest.len() && 0 <= b < rest.len() && a != b implies rest[a]
                != rest[b] by {
                let a0 = if a < at { a } else { a + 1 };
                let b0 = if b < at { b } else { b + 1 };
                assert(rest[a] == indices[a0] && rest[b] == indices[b0]);
            }
            lemma_distinct_indices_bounded(rest, (limit - 1) as nat);
        } else {
            assert forall|j: int| 0 <= j < indices.len() implies indices[j] < limit - 1 by {
                assert(indices.contains(indices[j]));
            }
            lemma_distinct_indices_bounded(indices, (limit - 1) as nat);
        }
    }
}

/// While an index below `limit` is still missing, fewer than `limit`
/// indices have been collected.
pub proof fn lemma_room_for_missing(indices: Seq<NodeIndex>, limit: nat, missing: NodeIndex)
    requires
        indices.no_duplicates(),
        all_below(indices, limit as int),
        missing < limit,
        !indices.contains(missing),
    ensures
        indices.len() < limit,
{
    let more = indices.push(missing);
    assert forall|a: int, b: int| 0 <= a < more.len() && 0 <= b < more.len() && a != b implies more[a]
        != more[b] by {
        if a < indices.len() {
            assert(indices.contains(more[a]));
        }
        if b < indices.len() {
            assert(indices.contains(more[b]));
        }
    }
    lemma_distinct_indices_bounded(more, limit);
}

/// The nodes discovered so far: each index at most once, in the order of
/// discovery, all below the limit the set was made with.
#[derive(Debug, Clone)]
pub struct VisitedSet {
    order: Vec<NodeIndex>,
    marks: Vec<bool>,
}

impl View for VisitedSet {
    type V = Seq<NodeIndex>;

    /// The members in discovery order.
    closed spec fn view(&self) -> Seq<NodeIndex> {
        self.order@
    }
}

impl VisitedSet {
    /// The number of indices the set can tell apart: members are below it.
    pub closed spec fn limit(&self) -> nat {
        self.marks@.len()
    }

    /// The marks agree with the members.
    pub closed spec fn marks_agree(&self) -> bool {
        forall|i: NodeIndex|
            i < self.marks@.len() ==> (#[trigger] self.marks@[i as int] <==> self.order@.contains(i))
    }

    /// No member occurs twice and every member is below the limit. Every
    /// set that this module hands out is valid.
    pub open spec fn is_valid(&self) -> bool {
        &&& self@.no_duplicates()
        &&& all_below(self@, self.limit() as int)
        &&& self.marks_agree()
    }

    /// The members as a set.
    pub open spec fn members(&self) -> Set<NodeIndex> {
        self@.to_set()
    }

    /// The empty set over the indices below `limit`.
    pub fn new(limit: usize) -> (set: VisitedSet)
        ensures
            set.is_valid(),
            set.limit() == limit,
            set@ == Seq::<NodeIndex>::empty(),
    {
        let mut marks: Vec<bool> = Vec::new();
        let mut i: usize = 0;
        while i < limit
            invariant
                i <= limit,
                marks@.len() == i,
                forall|j: int| 0 <= j < i ==> !marks@[j],
            decreases limit - i,
        {
            marks.push(false);
            i += 1;
        }
        VisitedSet { order: Vec::new(), marks }
    }

    /// The number of members.
    pub fn len(&self) -> (count: usize)
        ensures
            count == self@.len(),
    {
        self.order.len()
    }

    /// The limit the set was made with.
    pub fn capacity(&self) -> (limit: usize)
        ensures
            limit == self.limit(),
    {
        self.marks.len()
    }

    /// The member discovered at `position`.
    pub fn get(&self, position: usize) -> (index: NodeIndex)
        requires
            position < self@.len(),
        ensures
            index == self@[position as int],
    {
        self.order[position]
    }

    /// The members in discovery order.
    pub fn indices(&self) -> (members: &Vec<NodeIndex>)
        ensures
            members@ == self@,
    {
        &self.order
    }

    /// Whether `index` is a member.
    pub fn contains(&self, index: NodeIndex) -> (found: bool)
        requires
            self.is_valid(),
        ensures
            found == self@.contains(index),
    {
        if index < self.marks.len() {
            self.marks[index]
        } else {
            proof {
                if self@.contains(index) {
                    let at = self@.index_of(index);
                    assert(self@[at] < self.limit());
                }
            }
            false
        }
    }

    /// Adds `index` behind the members so far unless it is one already, and
    /// says whether it was added.
    pub fn insert(&mut self, index: NodeIndex) -> (added: bool)
        requires
            old(self).is_valid(),
            index < old(self).limit(),
        ensures
            final(self).is_valid(),
            final(self).limit() == old(self).limit(),
            added == !old(self)@.contains(index),
            final(self)@ == if added {
                old(self)@.push(index)
            } else {
                old(self)@
            },
    {
        if self.marks[index] {
            return false;
        }
        let ghost before = self.order@;
        let ghost marks_before = self.marks@;
        self.order.push(index);
        self.marks.set(index, true);
        proof {
            let after = self.order@;
            assert(after == before.push(index));
            assert forall|a: int, b: int| 0 <= a < after.len() && 0 <= b < after.len() && a != b implies after[a]
                != after[b] by {
                if a < before.len() {
                    assert(before.contains(after[a]));
                }
                if b < before.len() {
                    assert(before.contains(after[b]));
                }
            }
            assert forall|i: NodeIndex| i < self.marks@.len() implies (#[trigger] self.marks@[i as int]
                <==> after.contains(i)) by {
                if i == index {
                    assert(after[before.len() as int] == index);
                } else {
                    assert(marks_before[i as int] <==> before.contains(i));
                    if before.contains(i) {
                        let at = before.index_of(i);
                        assert(after[at] == i);
                    }
                    if after.contains(i) {
                        let at = after.index_of(i);
                        assert(after[at] == i);
                        assert(before[at] == i);
                    }
                }
            }
        }
        true
    }
}

} // verus!
