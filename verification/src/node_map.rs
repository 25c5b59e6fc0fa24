//! A map from cluster members to small values, walked in ascending order of
//! the members.
use vstd::prelude::*;

use crate::ids::{LogIndex, NodeId};
use crate::node_set::{
    ascending, increasing, lemma_ascending, lemma_increasing_unique, NodeSet,
};

verus! {

/// The map that pairs each key with the value at the same position.
pub open spec fn paired<V>(keys: Seq<NodeId>, values: Seq<V>) -> Map<NodeId, V> {
    Map::new(|k: NodeId| keys.contains(k), |k: NodeId| values[keys.index_of(k)])
}

proof fn lemma_paired_at<V>(keys: Seq<NodeId>, values: Seq<V>, i: int)
    requires
        increasing(keys),
        keys.len() == values.len(),
        0 <= i < keys.len(),
    ensures
        paired(keys, values).dom().contains(keys[i]),
        paired(keys, values)[keys[i]] == values[i],
{
    assert(keys.contains(keys[i]));
    let k = keys.index_of(keys[i]);
    assert(0 <= k < keys.len() && keys[k] == keys[i]);
    assert(k == i);
}

/// How many entries a replacement puts in.
spec fn extra<V>(middle: Option<(NodeId, V)>) -> int {
    if middle is Some {
        1
    } else {
        0
    }
}

/// A map from members to values of type `V`.
#[derive(Debug, PartialEq, Eq)]
pub struct NodeMap<V> {
    keys: Vec<NodeId>,
    values: Vec<V>,
}

impl<V> View for NodeMap<V> {
    type V = Map<NodeId, V>;

    closed spec fn view(&self) -> Map<NodeId, V> {
        paired(self.keys@, self.values@)
    }
}

impl<V: Copy> Clone for NodeMap<V> {
    fn clone(&self) -> (copy: Self)
        ensures
            copy@ == self@,
    {
        proof {
            use_type_invariant(self);
        }
        let mut keys: Vec<NodeId> = Vec::new();
        let mut values: Vec<V> = Vec::new();
        let mut i: usize = 0;
        while i < self.keys.len()
            invariant
                i <= self.keys@.len(),
                self.keys@.len() == self.values@.len(),
                increasing(self.keys@),
                keys@ == self.keys@.take(i as int),
                values@ == self.values@.take(i as int),
            decreases self.keys@.len() - i,
        {
            keys.push(self.keys[i]);
            values.push(self.values[i]);
            assert(keys@ =~= self.keys@.take(i as int + 1));
            assert(values@ =~= self.values@.take(i as int + 1));
            i += 1;
        }
        assert(keys@ =~= self.keys@);
        assert(values@ =~= self.values@);
        NodeMap { keys, values }
    }
}

impl<V> NodeMap<V> {
    #[verifier::type_invariant]
    spec fn inv(self) -> bool {
        &&& increasing(self.keys@)
        &&& self.keys@.len() == self.values@.len()
    }
}

impl<V: Copy> NodeMap<V> {
    pub fn new() -> (map: Self)
        ensures
            map@ == Map::<NodeId, V>::empty(),
    {
        let map = NodeMap { keys: Vec::new(), values: Vec::new() };
        assert(map@ =~= Map::<NodeId, V>::empty());
        map
    }

    pub fn len(&self) -> (n: usize)
        ensures
            n == self@.dom().len(),
            self@.dom().finite(),
            n == ascending(self@.dom()).len(),
            increasing(ascending(self@.dom())),
            ascending(self@.dom()).to_set() == self@.dom(),
    {
        proof {
            use_type_invariant(self);
            lemma_ascending(self.keys@);
            assert(self@.dom() =~= self.keys@.to_set());
        }
        self.keys.len()
    }

    pub fn is_empty(&self) -> (r: bool)
        ensures
            r == (self@ == Map::<NodeId, V>::empty()),
            r == (self@.dom().len() == 0),
    {
        proof {
            use_type_invariant(self);
            lemma_ascending(self.keys@);
            assert(self@.dom() =~= self.keys@.to_set());
            if self.keys@.len() == 0 {
                assert(self@ =~= Map::<NodeId, V>::empty());
            } else {
                lemma_paired_at(self.keys@, self.values@, 0);
            }
        }
        self.keys.len() == 0
    }

    /// The key at a position of the ascending walk.
    pub fn key_at(&self, position: usize) -> (id: NodeId)
        requires
            position < self@.dom().len(),
        ensures
            id == ascending(self@.dom())[position as int],
            self@.dom().contains(id),
    {
        proof {
            use_type_invariant(self);
            lemma_ascending(self.keys@);
            assert(self@.dom() =~= self.keys@.to_set());
            lemma_paired_at(self.keys@, self.values@, position as int);
        }
        self.keys[position]
    }

    /// The value whose key is at a position of the ascending walk.
    pub fn value_at(&self, position: usize) -> (value: V)
        requires
            position < self@.dom().len(),
        ensures
            value == self@[ascending(self@.dom())[position as int]],
    {
        proof {
            use_type_invariant(self);
            lemma_ascending(self.keys@);
            assert(self@.dom() =~= self.keys@.to_set());
            lemma_paired_at(self.keys@, self.values@, position as int);
        }
        self.values[position]
    }

    fn position(&self, id: NodeId) -> (at: usize)
        ensures
            at <= self.keys@.len(),
            forall|i: int| 0 <= i < at ==> self.keys@[i].0 < id.0,
            forall|i: int| at <= i < self.keys@.len() ==> self.keys@[i].0 >= id.0,
            at < self.keys@.len() && self.keys@[at as int] == id <==> self@.dom().contains(id),
    {
        proof {
            use_type_invariant(self);
        }
        let mut at: usize = 0;
        while at < self.keys.len() && self.keys[at].0 < id.0
            invariant
                at <= self.keys@.len(),
                increasing(self.keys@),
                forall|i: int| 0 <= i < at ==> self.keys@[i].0 < id.0,
            decreases self.keys@.len() - at,
        {
            at += 1;
        }
        proof {
            if self@.dom().contains(id) {
                let k = choose|k: int| 0 <= k < self.keys@.len() && self.keys@[k] == id;
                assert(k >= at);
                assert(k == at);
            }
            if at < self.keys@.len() && self.keys@[at as int] == id {
                assert(self.keys@.contains(id));
            }
        }
        at
    }

    pub fn get(&self, id: NodeId) -> (value: Option<V>)
        ensures
            value == if self@.dom().contains(id) {
                Some(self@[id])
            } else {
                None
            },
    {
        proof {
            use_type_invariant(self);
        }
        let at: usize = self.position(id);
        if at < self.keys.len() && self.keys[at].0 == id.0 {
            proof {
                lemma_paired_at(self.keys@, self.values@, at as int);
            }
            Some(self.values[at])
        } else {
            None
        }
    }

    pub fn contains_key(&self, id: NodeId) -> (r: bool)
        ensures
            r == self@.dom().contains(id),
    {
        let at: usize = self.position(id);
        at < self.keys.len() && self.keys[at].0 == id.0
    }

    pub fn insert(&mut self, id: NodeId, value: V)
        ensures
            final(self)@ == old(self)@.insert(id, value),
    {
        proof {
            use_type_invariant(&*self);
        }
        let at: usize = self.position(id);
        let present = at < self.keys.len() && self.keys[at].0 == id.0;
        let next = self.rebuilt(at, if present { at + 1 } else { at }, Some((id, value)));
        proof {
            use_type_invariant(&next);
            let k0 = self.keys@;
            let v0 = self.values@;
            let k1 = next.keys@;
            let v1 = next.values@;
            let skip: int = if present { 0 } else { 1 };
            assert forall|x: NodeId| #[trigger] next@.dom().contains(x)
                <==> self@.insert(id, value).dom().contains(x) by {
                if k0.contains(x) && x != id {
                    let i = choose|i: int| 0 <= i < k0.len() && k0[i] == x;
                    assert(k1[if i < at { i } else { i + skip }] == x);
                }
                if x == id {
                    assert(k1[at as int] == id);
                }
                if k1.contains(x) && x != id {
                    let i = choose|i: int| 0 <= i < k1.len() && k1[i] == x;
                    assert(k0[if i < at { i } else { i - skip }] == x);
                }
            }
            assert forall|x: NodeId| #[trigger] next@.dom().contains(x) implies next@[x]
                == self@.insert(id, value)[x] by {
                let i = choose|i: int| 0 <= i < k1.len() && k1[i] == x;
                lemma_paired_at(k1, v1, i);
                if x != id {
                    let j = if i < at { i } else { i - skip };
                    assert(k0[j] == x);
                    lemma_paired_at(k0, v0, j);
                } else {
                    assert(k1[at as int] == id);
                    lemma_paired_at(k1, v1, at as int);
                }
            }
            assert(next@ =~= self@.insert(id, value));
        }
        *self = next;
    }

    pub fn remove(&mut self, id: NodeId)
        ensures
            final(self)@ == old(self)@.remove(id),
    {
        proof {
            use_type_invariant(&*self);
        }
        let at: usize = self.position(id);
        if at < self.keys.len() && self.keys[at].0 == id.0 {
            let next = self.rebuilt(at, at + 1, None);
            proof {
                use_type_invariant(&next);
                let k0 = self.keys@;
                let v0 = self.values@;
                let k1 = next.keys@;
                let v1 = next.values@;
                assert forall|x: NodeId| #[trigger] next@.dom().contains(x)
                    <==> self@.remove(id).dom().contains(x) by {
                    if k0.contains(x) && x != id {
                        let i = choose|i: int| 0 <= i < k0.len() && k0[i] == x;
                        assert(k1[if i < at { i } else { i - 1 }] == x);
                    }
                    if k1.contains(x) {
                        let i = choose|i: int| 0 <= i < k1.len() && k1[i] == x;
                        assert(k0[if i < at { i } else { i + 1 }] == x);
                    }
                }
                assert forall|x: NodeId| #[trigger] next@.dom().contains(x) implies next@[x]
                    == self@.remove(id)[x] by {
                    let i = choose|i: int| 0 <= i < k1.len() && k1[i] == x;
                    lemma_paired_at(k1, v1, i);
                    let j = if i < at { i } else { i + 1 };
                    assert(k0[j] == x);
                    lemma_paired_at(k0, v0, j);
                }
                assert(next@ =~= self@.remove(id));
            }
            *self = next;
        } else {
            assert(self@.remove(id) =~= self@);
        }
    }

    /// This map with the positions from `at` up to `resume` replaced by `middle`.
    fn rebuilt(&self, at: usize, resume: usize, middle: Option<(NodeId, V)>) -> (map: Self)
        requires
            at <= resume <= self.keys@.len(),
            resume <= at + 1,
            middle matches Some(pair) ==> {
                &&& forall|i: int| 0 <= i < at ==> self.keys@[i].0 < pair.0.0
                &&& forall|i: int| resume <= i < self.keys@.len() ==> self.keys@[i].0 > pair.0.0
            },
        ensures
            map.keys@.len() == self.keys@.len() - (resume - at) + extra(middle),
            map.values@.len() == map.keys@.len(),
            forall|i: int| 0 <= i < at ==> map.keys@[i] == self.keys@[i],
            forall|i: int| 0 <= i < at ==> map.values@[i] == self.values@[i],
            middle matches Some(pair) ==> map.keys@[at as int] == pair.0,
            middle matches Some(pair) ==> map.values@[at as int] == pair.1,
            forall|i: int|
                at + extra(middle) <= i < map.keys@.len() ==> map.keys@[i] == self.keys@[i - at
                    - extra(middle) + resume],
            forall|i: int|
                at + extra(middle) <= i < map.values@.len() ==> map.values@[i] == self.values@[i
                    - at - extra(middle) + resume],
    {
        proof {
            use_type_invariant(self);
        }
        let mut keys: Vec<NodeId> = Vec::new();
        let mut values: Vec<V> = Vec::new();
        let mut i: usize = 0;
        while i < at
            invariant
                i <= at <= self.keys@.len(),
                self.keys@.len() == self.values@.len(),
                keys@.len() == i,
                values@.len() == i,
                forall|k: int| 0 <= k < i ==> keys@[k] == self.keys@[k],
                forall|k: int| 0 <= k < i ==> values@[k] == self.values@[k],
            decreases at - i,
        {
            keys.push(self.keys[i]);
            values.push(self.values[i]);
            i += 1;
        }
        if let Some(pair) = middle {
            keys.push(pair.0);
            values.push(pair.1);
        }
        let mut j: usize = resume;
        while j < self.keys.len()
            invariant
                at <= resume <= j <= self.keys@.len(),
                self.keys@.len() == self.values@.len(),
                keys@.len() == at + extra(middle) + (j - resume),
                values@.len() == keys@.len(),
                forall|k: int| 0 <= k < at ==> keys@[k] == self.keys@[k],
                forall|k: int| 0 <= k < at ==> values@[k] == self.values@[k],
                middle matches Some(pair) ==> keys@[at as int] == pair.0,
                middle matches Some(pair) ==> values@[at as int] == pair.1,
                forall|k: int|
                    at + extra(middle) <= k < keys@.len() ==> keys@[k] == self.keys@[k - at - extra(
                        middle,
                    ) + resume],
                forall|k: int|
                    at + extra(middle) <= k < values@.len() ==> values@[k] == self.values@[k - at
                        - extra(middle) + resume],
            decreases self.keys@.len() - j,
        {
            keys.push(self.keys[j]);
            values.push(self.values[j]);
            j += 1;
        }
        NodeMap { keys, values }
    }

    pub fn clear(&mut self)
        ensures
            final(self)@ == Map::<NodeId, V>::empty(),
    {
        *self = NodeMap::new();
    }

    /// Keeps only the entries whose key is in one of the two sets.
    pub fn retain_members(&mut self, first: &NodeSet, second: &NodeSet)
        ensures
            final(self)@ == old(self)@.restrict(first@.union(second@)),
    {
        let mut kept: NodeMap<V> = NodeMap::new();
        let count: usize = self.len();
        let ghost order = ascending(self@.dom());
        let ghost keep = first@.union(second@);
        let mut i: usize = 0;
        assert(self@.restrict(order.take(0).to_set().intersect(keep)) =~= Map::empty());
        while i < count
            invariant
                i <= count == order.len(),
                count == self@.dom().len(),
                order == ascending(self@.dom()),
                keep == first@.union(second@),
                kept@ == self@.restrict(order.take(i as int).to_set().intersect(keep)),
            decreases count - i,
        {
            let id = self.key_at(i);
            proof {
                crate::node_set::lemma_take_next(order, i as int);
                let before = order.take(i as int).to_set();
                let after = order.take(i as int + 1).to_set();
                if keep.contains(id) {
                    assert(self@.restrict(after.intersect(keep)) =~= self@.restrict(
                        before.intersect(keep),
                    ).insert(id, self@[id]));
                } else {
                    assert(self@.restrict(after.intersect(keep)) =~= self@.restrict(
                        before.intersect(keep),
                    ));
                }
            }
            if first.contains(id) || second.contains(id) {
                kept.insert(id, self.value_at(i));
            }
            i += 1;
        }
        proof {
            assert(order.take(i as int) =~= order);
            assert(self@.restrict(order.to_set().intersect(keep)) =~= self@.restrict(keep));
        }
        *self = kept;
    }
}

/// Whether two maps to log indexes are equal.
pub fn same_indexes(a: &NodeMap<LogIndex>, b: &NodeMap<LogIndex>) -> (r: bool)
    ensures
        r == (a@ == b@),
{
    proof {
        use_type_invariant(a);
        use_type_invariant(b);
        if a@ == b@ {
            assert(a.keys@.to_set() =~= a@.dom());
            assert(b.keys@.to_set() =~= b@.dom());
            lemma_increasing_unique(a.keys@, b.keys@);
        }
    }
    if a.keys.len() != b.keys.len() {
        return false;
    }
    let mut i: usize = 0;
    while i < a.keys.len()
        invariant
            i <= a.keys@.len(),
            a.keys@.len() == b.keys@.len(),
            a.keys@.len() == a.values@.len(),
            b.keys@.len() == b.values@.len(),
            increasing(a.keys@),
            increasing(b.keys@),
            forall|k: int| 0 <= k < i ==> a.keys@[k] == b.keys@[k],
            forall|k: int| 0 <= k < i ==> a.values@[k] == b.values@[k],
            a@ == b@ ==> a.keys@ == b.keys@,
        decreases a.keys@.len() - i,
    {
        proof {
            lemma_paired_at(a.keys@, a.values@, i as int);
            lemma_paired_at(b.keys@, b.values@, i as int);
        }
        if a.keys[i].0 != b.keys[i].0 || a.values[i].0 != b.values[i].0 {
            return false;
        }
        i += 1;
    }
    assert(a.keys@ =~= b.keys@);
    assert(a.values@ =~= b.values@);
    true
}

} // verus!
