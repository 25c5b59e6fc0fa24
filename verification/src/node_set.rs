//! Ordered collections of cluster members.
//!
//! Both collections keep their members in strictly ascending order, so walking
//! one always visits the members in the same order.
use vstd::prelude::*;

use crate::ids::NodeId;

verus! {

/// Whether the members of `ids` are strictly ascending.
pub open spec fn increasing(ids: Seq<NodeId>) -> bool {
    forall|i: int, j: int| 0 <= i < j < ids.len() ==> ids[i].0 < ids[j].0
}

/// The members of a finite set, smallest first.
pub open spec fn ascending(members: Set<NodeId>) -> Seq<NodeId> {
    choose|ids: Seq<NodeId>| increasing(ids) && #[trigger] ids.to_set() == members
}

/// Two ascending sequences with the same members are the same sequence.
pub proof fn lemma_increasing_unique(a: Seq<NodeId>, b: Seq<NodeId>)
    requires
        increasing(a),
        increasing(b),
        a.to_set() == b.to_set(),
    ensures
        a == b,
    decreases a.len(),
{
    if a.len() == 0 {
        if b.len() > 0 {
            assert(b.to_set().contains(b[0]));
            assert(a.to_set().contains(b[0]));
        }
        assert(a =~= b);
    } else {
        let last = a.last();
        assert(a.to_set().contains(last));
        assert(b.to_set().contains(last));
        let k = choose|k: int| 0 <= k < b.len() && b[k] == last;
        assert(b.len() > 0);
        assert(b.to_set().contains(b.last()));
        assert(a.to_set().contains(b.last()));
        let m = choose|m: int| 0 <= m < a.len() && a[m] == b.last();
        assert(a[m].0 <= last.0);
        assert(b[k].0 <= b.last().0);
        assert(b.last() == last);
        let a1 = a.drop_last();
        let b1 = b.drop_last();
        assert(a1.to_set() =~= b1.to_set()) by {
            assert forall|x: NodeId| a1.to_set().contains(x) <==> b1.to_set().contains(x) by {
                if a1.to_set().contains(x) {
                    let i = choose|i: int| 0 <= i < a1.len() && a1[i] == x;
                    assert(a[i] == x);
                    assert(a.to_set().contains(x));
                    assert(b.to_set().contains(x));
                    let j = choose|j: int| 0 <= j < b.len() && b[j] == x;
                    assert(x.0 < last.0);
                    assert(j < b.len() - 1);
                    assert(b1[j] == x);
                }
                if b1.to_set().contains(x) {
                    let i = choose|i: int| 0 <= i < b1.len() && b1[i] == x;
                    assert(b[i] == x);
                    assert(b.to_set().contains(x));
                    assert(a.to_set().contains(x));
                    let j = choose|j: int| 0 <= j < a.len() && a[j] == x;
                    assert(x.0 < last.0);
                    assert(j < a.len() - 1);
                    assert(a1[j] == x);
                }
            }
        }
        lemma_increasing_unique(a1, b1);
        assert(a =~= a1.push(last));
        assert(b =~= b1.push(last));
    }
}

/// An ascending sequence is what `ascending` gives for its own members.
pub proof fn lemma_ascending(ids: Seq<NodeId>)
    requires
        increasing(ids),
    ensures
        ascending(ids.to_set()) == ids,
        ids.to_set().finite(),
        ids.to_set().len() == ids.len(),
        ids.no_duplicates(),
{
    let chosen = ascending(ids.to_set());
    assert(increasing(ids) && ids.to_set() == ids.to_set());
    lemma_increasing_unique(chosen, ids);
    ids.unique_seq_to_set();
    vstd::seq_lib::seq_to_set_is_finite(ids);
}

/// The members up to a position of an ascending sequence.
proof fn lemma_insert_at(ids: Seq<NodeId>, at: int, id: NodeId)
    requires
        increasing(ids),
        0 <= at <= ids.len(),
        forall|i: int| 0 <= i < at ==> ids[i].0 < id.0,
        forall|i: int| at <= i < ids.len() ==> ids[i].0 > id.0,
    ensures
        increasing(ids.insert(at, id)),
        ids.insert(at, id).to_set() == ids.to_set().insert(id),
{
    let next = ids.insert(at, id);
    assert forall|x: NodeId| next.to_set().contains(x) <==> ids.to_set().insert(id).contains(x) by {
        if ids.contains(x) {
            let i = choose|i: int| 0 <= i < ids.len() && ids[i] == x;
            if i < at {
                assert(next[i] == x);
            } else {
                assert(next[i + 1] == x);
            }
        }
        if x == id {
            assert(next[at] == x);
        }
        if next.contains(x) && x != id {
            let i = choose|i: int| 0 <= i < next.len() && next[i] == x;
            if i < at {
                assert(ids[i] == x);
            } else {
                assert(ids[i - 1] == x);
            }
        }
    }
    assert(next.to_set() =~= ids.to_set().insert(id));
}

proof fn lemma_remove_at(ids: Seq<NodeId>, at: int)
    requires
        increasing(ids),
        0 <= at < ids.len(),
    ensures
        increasing(ids.remove(at)),
        ids.remove(at).to_set() == ids.to_set().remove(ids[at]),
{
    let next = ids.remove(at);
    let id = ids[at];
    assert forall|x: NodeId| next.to_set().contains(x) <==> ids.to_set().remove(id).contains(x) by {
        if ids.contains(x) && x != id {
            let i = choose|i: int| 0 <= i < ids.len() && ids[i] == x;
            if i < at {
                assert(next[i] == x);
            } else {
                assert(next[i - 1] == x);
            }
        }
        if next.contains(x) {
            let i = choose|i: int| 0 <= i < next.len() && next[i] == x;
            if i < at {
                assert(ids[i] == x);
            } else {
                assert(ids[i + 1] == x);
            }
        }
    }
    assert(next.to_set() =~= ids.to_set().remove(id));
}

/// A set of members, walked in ascending order.
#[derive(Debug, PartialEq, Eq, PartialOrd, Ord, Hash)]
pub struct NodeSet {
    ids: Vec<NodeId>,
}

impl View for NodeSet {
    type V = Set<NodeId>;

    closed spec fn view(&self) -> Set<NodeId> {
        self.ids@.to_set()
    }
}

impl Clone for NodeSet {
    fn clone(&self) -> (copy: Self)
        ensures
            copy@ == self@,
    {
        proof {
            use_type_invariant(self);
        }
        let ids = self.ids.clone();
        assert(ids@ =~= self.ids@);
        NodeSet { ids }
    }
}

impl NodeSet {
    #[verifier::type_invariant]
    spec fn inv(self) -> bool {
        increasing(self.ids@)
    }

    pub fn new() -> (set: Self)
        ensures
            set@ == Set::<NodeId>::empty(),
    {
        let set = NodeSet { ids: Vec::new() };
        assert(set@ =~= Set::<NodeId>::empty());
        set
    }

    /// The set of the given members, in any order and with any repetition.
    pub fn from_ids(ids: &[NodeId]) -> (set: Self)
        ensures
            set@ == ids@.to_set(),
    {
        let mut set = NodeSet::new();
        let mut i: usize = 0;
        assert(ids@.take(0).to_set() =~= Set::<NodeId>::empty());
        while i < ids.len()
            invariant
                i <= ids@.len(),
                set@ == ids@.take(i as int).to_set(),
            decreases ids@.len() - i,
        {
            let ghost before = ids@.take(i as int);
            let ghost after = ids@.take(i as int + 1);
            set.insert(ids[i]);
            proof {
                assert(after =~= before.push(ids@[i as int]));
                assert forall|x: NodeId| after.to_set().contains(x)
                    <==> before.to_set().insert(ids@[i as int]).contains(x) by {
                    if before.contains(x) {
                        let k = choose|k: int| 0 <= k < before.len() && before[k] == x;
                        assert(after[k] == x);
                    }
                    if x == ids@[i as int] {
                        assert(after[i as int] == x);
                    }
                    if after.contains(x) && x != ids@[i as int] {
                        let k = choose|k: int| 0 <= k < after.len() && after[k] == x;
                        assert(before[k] == x);
                    }
                }
                assert(after.to_set() =~= before.to_set().insert(ids@[i as int]));
            }
            i += 1;
        }
        assert(ids@.take(i as int) =~= ids@);
        set
    }

    pub fn len(&self) -> (n: usize)
        ensures
            n == self@.len(),
            self@.finite(),
            n == ascending(self@).len(),
            increasing(ascending(self@)),
            ascending(self@).to_set() == self@,
    {
        proof {
            use_type_invariant(self);
            lemma_ascending(self.ids@);
        }
        self.ids.len()
    }

    pub fn is_empty(&self) -> (r: bool)
        ensures
            r == (self@.len() == 0),
            r == (self@ == Set::<NodeId>::empty()),
            self@.finite(),
    {
        proof {
            use_type_invariant(self);
            lemma_ascending(self.ids@);
            if self.ids@.len() == 0 {
                assert(self@ =~= Set::<NodeId>::empty());
            } else {
                assert(self@.contains(self.ids@[0]));
            }
        }
        self.ids.len() == 0
    }

    /// The member at a position of the ascending walk.
    pub fn at(&self, position: usize) -> (id: NodeId)
        requires
            position < self@.len(),
        ensures
            id == ascending(self@)[position as int],
            self@.contains(id),
    {
        proof {
            use_type_invariant(self);
            lemma_ascending(self.ids@);
            assert(self.ids@.contains(self.ids@[position as int]));
        }
        self.ids[position]
    }

    /// The members, smallest first.
    pub fn to_vec(&self) -> (ids: Vec<NodeId>)
        ensures
            ids@ == ascending(self@),
            ids@.to_set() == self@,
            increasing(ids@),
    {
        proof {
            use_type_invariant(self);
            lemma_ascending(self.ids@);
        }
        let ids = self.ids.clone();
        assert(ids@ =~= self.ids@);
        ids
    }

    fn position(&self, id: NodeId) -> (at: usize)
        ensures
            at <= self.ids@.len(),
            forall|i: int| 0 <= i < at ==> self.ids@[i].0 < id.0,
            forall|i: int| at <= i < self.ids@.len() ==> self.ids@[i].0 >= id.0,
            at < self.ids@.len() && self.ids@[at as int] == id <==> self@.contains(id),
    {
        proof {
            use_type_invariant(self);
        }
        let mut at: usize = 0;
        while at < self.ids.len() && self.ids[at].0 < id.0
            invariant
                at <= self.ids@.len(),
                increasing(self.ids@),
                forall|i: int| 0 <= i < at ==> self.ids@[i].0 < id.0,
            decreases self.ids@.len() - at,
        {
            at += 1;
        }
        proof {
            if self@.contains(id) {
                let k = choose|k: int| 0 <= k < self.ids@.len() && self.ids@[k] == id;
                assert(k >= at);
                assert(k == at);
            }
        }
        at
    }

    pub fn contains(&self, id: NodeId) -> (r: bool)
        ensures
            r == self@.contains(id),
    {
        let at: usize = self.position(id);
        at < self.ids.len() && self.ids[at].0 == id.0
    }

    /// Adds a member and says whether it was absent.
    pub fn insert(&mut self, id: NodeId) -> (added: bool)
        ensures
            final(self)@ == old(self)@.insert(id),
            added == !old(self)@.contains(id),
    {
        proof {
            use_type_invariant(&*self);
        }
        let at: usize = self.position(id);
        if at < self.ids.len() && self.ids[at].0 == id.0 {
            assert(self@.insert(id) =~= self@);
            return false;
        }
        let mut ids: Vec<NodeId> = Vec::new();
        std::mem::swap(&mut ids, &mut self.ids);
        proof {
            lemma_insert_at(ids@, at as int, id);
        }
        ids.insert(at, id);
        self.ids = ids;
        true
    }

    /// Removes a member and says whether it was present.
    pub fn remove(&mut self, id: NodeId) -> (removed: bool)
        ensures
            final(self)@ == old(self)@.remove(id),
            removed == old(self)@.contains(id),
    {
        proof {
            use_type_invariant(&*self);
        }
        let at: usize = self.position(id);
        if at < self.ids.len() && self.ids[at].0 == id.0 {
            let mut ids: Vec<NodeId> = Vec::new();
            std::mem::swap(&mut ids, &mut self.ids);
            proof {
                lemma_remove_at(ids@, at as int);
            }
            let _ = ids.remove(at);
            self.ids = ids;
            true
        } else {
            assert(self@.remove(id) =~= self@);
            false
        }
    }

    pub fn clear(&mut self)
        ensures
            final(self)@ == Set::<NodeId>::empty(),
    {
        self.ids = Vec::new();
        assert(self@ =~= Set::<NodeId>::empty());
    }

    /// Whether both sets hold the same members.
    pub fn same(&self, other: &NodeSet) -> (r: bool)
        ensures
            r == (self@ == other@),
    {
        proof {
            use_type_invariant(self);
            use_type_invariant(other);
            if self@ == other@ {
                lemma_increasing_unique(self.ids@, other.ids@);
            }
        }
        if self.ids.len() != other.ids.len() {
            return false;
        }
        let mut i: usize = 0;
        while i < self.ids.len()
            invariant
                i <= self.ids@.len(),
                self.ids@.len() == other.ids@.len(),
                forall|k: int| 0 <= k < i ==> self.ids@[k] == other.ids@[k],
                self@ == other@ ==> self.ids@ == other.ids@,
            decreases self.ids@.len() - i,
        {
            if self.ids[i].0 != other.ids[i].0 {
                return false;
            }
            i += 1;
        }
        assert(self.ids@ =~= other.ids@);
        true
    }

    /// The members of either set.
    pub fn union(&self, other: &NodeSet) -> (all: NodeSet)
        ensures
            all@ == self@.union(other@),
    {
        let mut all = self.clone();
        let mut i: usize = 0;
        let count: usize = other.len();
        let ghost order = ascending(other@);
        assert(self@.union(order.take(0).to_set()) =~= self@);
        while i < count
            invariant
                i <= count == order.len(),
                order == ascending(other@),
                count == other@.len(),
                all@ == self@.union(order.take(i as int).to_set()),
            decreases count - i,
        {
            let id = other.at(i);
            all.insert(id);
            proof {
                lemma_take_next(order, i as int);
                assert(self@.union(order.take(i as int).to_set()).insert(id)
                    =~= self@.union(order.take(i as int + 1).to_set()));
            }
            i += 1;
        }
        assert(order.take(i as int) =~= order);
        all
    }

    /// The members of this set that are not in the other.
    pub fn difference(&self, other: &NodeSet) -> (rest: NodeSet)
        ensures
            rest@ == self@.difference(other@),
    {
        let mut rest = NodeSet::new();
        let mut i: usize = 0;
        let count: usize = self.len();
        let ghost order = ascending(self@);
        assert(order.take(0).to_set().difference(other@) =~= Set::<NodeId>::empty());
        while i < count
            invariant
                i <= count == order.len(),
                order == ascending(self@),
                count == self@.len(),
                rest@ == order.take(i as int).to_set().difference(other@),
            decreases count - i,
        {
            let id = self.at(i);
            proof {
                lemma_take_next(order, i as int);
                let before = order.take(i as int).to_set();
                let after = order.take(i as int + 1).to_set();
                if other@.contains(id) {
                    assert(after.difference(other@) =~= before.difference(other@));
                } else {
                    assert(after.difference(other@) =~= before.difference(other@).insert(id));
                }
            }
            if !other.contains(id) {
                rest.insert(id);
            }
            i += 1;
        }
        assert(order.take(i as int) =~= order);
        rest
    }

    /// How many members both sets hold.
    pub fn common(&self, other: &NodeSet) -> (n: usize)
        ensures
            n == self@.intersect(other@).len(),
            n <= self@.len(),
    {
        let mut n: usize = 0;
        let mut i: usize = 0;
        let count: usize = self.len();
        let ghost order = ascending(self@);
        assert(order.take(0).to_set().intersect(other@) =~= Set::<NodeId>::empty());
        while i < count
            invariant
                i <= count == order.len(),
                order == ascending(self@),
                increasing(order),
                count == self@.len(),
                n <= i,
                n == order.take(i as int).to_set().intersect(other@).len(),
                order.take(i as int).to_set().intersect(other@).finite(),
            decreases count - i,
        {
            let id = self.at(i);
            proof {
                lemma_take_next(order, i as int);
                let before = order.take(i as int).to_set();
                let after = order.take(i as int + 1).to_set();
                assert(!before.contains(id)) by {
                    if before.contains(id) {
                        let k = choose|k: int|
                            0 <= k < order.take(i as int).len() && order.take(i as int)[k] == id;
                        assert(order[k] == id);
                    }
                }
                if other@.contains(id) {
                    assert(after.intersect(other@) =~= before.intersect(other@).insert(id));
                } else {
                    assert(after.intersect(other@) =~= before.intersect(other@));
                }
            }
            if other.contains(id) {
                n += 1;
            }
            i += 1;
        }
        assert(order.take(i as int) =~= order);
        n
    }
}

impl Default for NodeSet {
    fn default() -> (set: Self)
        ensures
            set@ == Set::<NodeId>::empty(),
    {
        NodeSet::new()
    }
}

/// One more member of a walk adds exactly that member.
pub proof fn lemma_take_next(order: Seq<NodeId>, i: int)
    requires
        0 <= i < order.len(),
    ensures
        order.take(i + 1).to_set() == order.take(i).to_set().insert(order[i]),
{
    let before = order.take(i);
    let after = order.take(i + 1);
    assert forall|x: NodeId| after.to_set().contains(x)
        <==> before.to_set().insert(order[i]).contains(x) by {
        if before.contains(x) {
            let k = choose|k: int| 0 <= k < before.len() && before[k] == x;
            assert(after[k] == x);
        }
        if x == order[i] {
            assert(after[i] == x);
        }
        if after.contains(x) && x != order[i] {
            let k = choose|k: int| 0 <= k < after.len() && after[k] == x;
            assert(before[k] == x);
        }
    }
    assert(after.to_set() =~= before.to_set().insert(order[i]));
}

/// How many members of an ascending sequence precede an id.
spec fn place(ids: Seq<NodeId>, id: NodeId) -> int
    decreases ids.len(),
{
    if ids.len() == 0 || ids[0].0 >= id.0 {
        0
    } else {
        1 + place(ids.drop_first(), id)
    }
}

proof fn lemma_place(ids: Seq<NodeId>, id: NodeId)
    requires
        increasing(ids),
        !ids.contains(id),
    ensures
        0 <= place(ids, id) <= ids.len(),
        forall|i: int| 0 <= i < place(ids, id) ==> (#[trigger] ids[i]).0 < id.0,
        forall|i: int| place(ids, id) <= i < ids.len() ==> (#[trigger] ids[i]).0 > id.0,
    decreases ids.len(),
{
    if ids.len() > 0 {
        assert(ids.contains(ids[0]));
        let rest = ids.drop_first();
        if ids[0].0 < id.0 {
            assert forall|i: int, j: int| 0 <= i < j < rest.len() implies rest[i].0 < rest[j].0 by {
                assert(rest[i] == ids[i + 1] && rest[j] == ids[j + 1]);
            }
            assert(!rest.contains(id)) by {
                if rest.contains(id) {
                    let k = choose|k: int| 0 <= k < rest.len() && rest[k] == id;
                    assert(ids[k + 1] == id);
                }
            }
            lemma_place(rest, id);
            assert forall|i: int| 0 <= i < place(ids, id) implies (#[trigger] ids[i]).0 < id.0 by {
                if i > 0 {
                    assert(rest[i - 1] == ids[i]);
                }
            }
            assert forall|i: int| place(ids, id) <= i < ids.len() implies (#[trigger] ids[i]).0
                > id.0 by {
                assert(rest[i - 1] == ids[i]);
            }
        }
    }
}

/// Every finite set has its members in ascending order.
pub proof fn lemma_ascending_set(members: Set<NodeId>)
    requires
        members.finite(),
    ensures
        increasing(ascending(members)),
        ascending(members).to_set() == members,
        ascending(members).len() == members.len(),
    decreases members.len(),
{
    if members.len() == 0 {
        let none = Seq::<NodeId>::empty();
        assert(members =~= Set::empty());
        assert(none.to_set() =~= members);
        lemma_ascending(none);
    } else {
        let id = members.choose();
        let rest = members.remove(id);
        lemma_ascending_set(rest);
        let ids = ascending(rest);
        assert(!ids.contains(id)) by {
            if ids.contains(id) {
                assert(ids.to_set().contains(id));
            }
        }
        lemma_place(ids, id);
        lemma_insert_at(ids, place(ids, id), id);
        let next = ids.insert(place(ids, id), id);
        assert(next.to_set() =~= members);
        lemma_ascending(next);
    }
}

} // verus!
