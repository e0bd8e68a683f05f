//! Belief states: a distribution for each node, kept in the order the nodes were first given
//! one. The distributions themselves are opaque here; the arithmetic on them is done by
//! the caller.

use vstd::prelude::*;

use crate::NodeId;

verus! {

/// Belief state: for each node given a belief, that belief.
#[derive(Clone, Debug)]
pub struct BeliefState<D> {
    pub beliefs: Vec<(NodeId, D)>,
}

/// The belief of the first entry for `node`, if there is one.
pub open spec fn belief_of<D>(s: Seq<(NodeId, D)>, node: NodeId) -> Option<D>
    decreases s.len(),
{
    if s.len() == 0 {
        None
    } else if s[0].0 == node {
        Some(s[0].1)
    } else {
        belief_of(s.drop_first(), node)
    }
}

/// `i` is the position of the first entry for `node`.
pub open spec fn first_entry<D>(s: Seq<(NodeId, D)>, node: NodeId, i: int) -> bool {
    0 <= i < s.len() && s[i].0 == node && forall|k: int| 0 <= k < i ==> (#[trigger] s[k]).0 != node
}

/// The belief of the first entry for `node` is the one at its position.
pub proof fn lemma_belief_of_first<D>(s: Seq<(NodeId, D)>, node: NodeId, i: int)
    requires
        first_entry(s, node, i),
    ensures
        belief_of(s, node) == Some(s[i].1),
    decreases i,
{
    if i > 0 {
        assert(s[0].0 != node);
        let t = s.drop_first();
        assert forall|k: int| 0 <= k < i - 1 implies (#[trigger] t[k]).0 != node by {
            assert(t[k] == s[k + 1]);
        }
        lemma_belief_of_first(t, node, i - 1);
    }
}

/// Without an entry for `node` there is no belief for it.
pub proof fn lemma_belief_of_none<D>(s: Seq<(NodeId, D)>, node: NodeId)
    requires
        forall|k: int| 0 <= k < s.len() ==> (#[trigger] s[k]).0 != node,
    ensures
        belief_of(s, node) is None,
    decreases s.len(),
{
    if s.len() > 0 {
        assert(s[0].0 != node);
        let t = s.drop_first();
        assert forall|k: int| 0 <= k < t.len() implies (#[trigger] t[k]).0 != node by {
            assert(t[k] == s[k + 1]);
        }
        lemma_belief_of_none(t, node);
    }
}

/// Replacing the first entry for `node` gives `node` the new belief and leaves the beliefs of
/// the other nodes as they were.
pub proof fn lemma_replace_keeps_others<D>(s: Seq<(NodeId, D)>, node: NodeId, dist: D, i: int)
    requires
        first_entry(s, node, i),
    ensures
        belief_of(s.update(i, (node, dist)), node) == Some(dist),
        forall|other: NodeId| other != node ==> #[trigger] belief_of(s.update(i, (node, dist)), other)
            == belief_of(s, other),
    decreases s.len(),
{
    let t = s.update(i, (node, dist));
    assert(first_entry(t, node, i));
    lemma_belief_of_first(t, node, i);
    assert forall|other: NodeId| other != node implies #[trigger] belief_of(t, other) == belief_of(s, other) by {
        if i == 0 {
            assert(t.drop_first() =~= s.drop_first());
        } else {
            assert(s[0].0 != node);
            let sd = s.drop_first();
            assert(t.drop_first() =~= sd.update(i - 1, (node, dist)));
            assert forall|k: int| 0 <= k < i - 1 implies (#[trigger] sd[k]).0 != node by {
                assert(sd[k] == s[k + 1]);
            }
            lemma_replace_keeps_others(sd, node, dist, i - 1);
            assert(belief_of(t.drop_first(), other) == belief_of(sd, other));
        }
    }
}

/// Appending an entry for a node without one gives it the new belief and leaves the beliefs of
/// the other nodes as they were.
pub proof fn lemma_append_keeps_others<D>(s: Seq<(NodeId, D)>, node: NodeId, dist: D)
    requires
        forall|k: int| 0 <= k < s.len() ==> (#[trigger] s[k]).0 != node,
    ensures
        belief_of(s.push((node, dist)), node) == Some(dist),
        forall|other: NodeId| other != node ==> #[trigger] belief_of(s.push((node, dist)), other)
            == belief_of(s, other),
    decreases s.len(),
{
    let t = s.push((node, dist));
    assert(first_entry(t, node, s.len() as int));
    lemma_belief_of_first(t, node, s.len() as int);
    if s.len() > 0 {
        let sd = s.drop_first();
        assert(t[0] == s[0]);
        assert(t.drop_first() =~= sd.push((node, dist)));
        assert forall|k: int| 0 <= k < sd.len() implies (#[trigger] sd[k]).0 != node by {
            assert(sd[k] == s[k + 1]);
        }
        lemma_append_keeps_others(sd, node, dist);
        assert forall|other: NodeId| other != node implies #[trigger] belief_of(t, other) == belief_of(s, other) by {
            assert(belief_of(sd.push((node, dist)), other) == belief_of(sd, other));
            if s[0].0 != other {
                assert(belief_of(t, other) == belief_of(t.drop_first(), other));
                assert(belief_of(s, other) == belief_of(sd, other));
            }
        }
    } else {
        assert(t.drop_first() =~= Seq::<(NodeId, D)>::empty());
        assert forall|other: NodeId| other != node implies #[trigger] belief_of(t, other) == belief_of(s, other) by {
            assert(t[0].0 == node);
            assert(t.drop_first().len() == 0);
            assert(belief_of(t.drop_first(), other) is None);
            assert(belief_of(t, other) == belief_of(t.drop_first(), other));
        }
    }
}

impl<D> BeliefState<D> {
    /// A belief state without beliefs.
    pub fn new() -> (r: Self)
        ensures
            r.beliefs@ == Seq::<(NodeId, D)>::empty(),
    {
        BeliefState { beliefs: Vec::new() }
    }

    /// Gives `node` the belief `dist`: replaces the belief of its first entry, or appends an
    /// entry when it has none.
    pub fn set_belief(&mut self, node: NodeId, dist: D)
        ensures
            (exists|i: int| first_entry(old(self).beliefs@, node, i)
                && final(self).beliefs@ == old(self).beliefs@.update(i, (node, dist)))
            || ((forall|k: int| 0 <= k < old(self).beliefs@.len() ==> (#[trigger] old(self).beliefs@[k]).0 != node)
                && final(self).beliefs@ == old(self).beliefs@.push((node, dist))),
            belief_of(final(self).beliefs@, node) == Some(dist),
            forall|other: NodeId| other != node ==> #[trigger] belief_of(final(self).beliefs@, other)
                == belief_of(old(self).beliefs@, other),
    {
        let n = self.beliefs.len();
        let mut i: usize = 0;
        while i < n
            invariant
                n == self.beliefs@.len(),
                self.beliefs@ == old(self).beliefs@,
                i <= n,
                forall|k: int| 0 <= k < i ==> (#[trigger] self.beliefs@[k]).0 != node,
            decreases n - i,
        {
            if self.beliefs[i].0 == node {
                proof {
                    assert(first_entry(old(self).beliefs@, node, i as int));
                }
                self.beliefs.set(i, (node, dist));
                proof {
                    lemma_replace_keeps_others(old(self).beliefs@, node, dist, i as int);
                }
                return;
            }
            i = i + 1;
        }
        self.beliefs.push((node, dist));
        proof {
            lemma_append_keeps_others(old(self).beliefs@, node, dist);
        }
    }

    /// The belief of `node`: that of its first entry, if it has one.
    pub fn get_belief(&self, node: NodeId) -> (r: Option<&D>)
        ensures
            r == (match belief_of(self.beliefs@, node) {
                Some(d) => Some(&d),
                None => None,
            }),
    {
        let n = self.beliefs.len();
        let mut i: usize = 0;
        while i < n
            invariant
                n == self.beliefs@.len(),
                i <= n,
                forall|k: int| 0 <= k < i ==> (#[trigger] self.beliefs@[k]).0 != node,
            decreases n - i,
        {
            if self.beliefs[i].0 == node {
                proof {
                    lemma_belief_of_first(self.beliefs@, node, i as int);
                }
                return Some(&self.beliefs[i].1);
            }
            i = i + 1;
        }
        proof {
            lemma_belief_of_none(self.beliefs@, node);
        }
        None
    }
}

} // verus!
