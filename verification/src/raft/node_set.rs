use vstd::prelude::*;

use super::types::NodeId;

verus! {

/// A finite set of node identifiers, kept in insertion order.
#[derive(Debug)]
pub struct NodeSet {
    ids: Vec<NodeId>,
}

impl View for NodeSet {
    type V = Set<NodeId>;

    closed spec fn view(&self) -> Set<NodeId> {
        self.ids@.to_set()
    }
}

impl NodeSet {
    /// No identifier is held twice.
    pub closed spec fn wf(&self) -> bool {
        self.ids@.no_duplicates()
    }

    /// The identifiers in their order.
    pub closed spec fn seq(&self) -> Seq<NodeId> {
        self.ids@
    }

    /// The ordered identifiers hold exactly the set's members, once each.
    pub proof fn lemma_seq(&self)
        requires
            self.wf(),
        ensures
            self.seq().no_duplicates(),
            self.seq().to_set() == self@,
            self.seq().len() == self@.len(),
            self@.finite(),
    {
        self.ids@.unique_seq_to_set();
    }

    pub fn new() -> (r: Self)
        ensures
            r.wf(),
            r@ == Set::<NodeId>::empty(),
            r.seq() == Seq::<NodeId>::empty(),
    {
        let r = NodeSet { ids: Vec::new() };
        assert(r@ =~= Set::<NodeId>::empty());
        r
    }

    /// Whether `id` is a member.
    pub fn contains(&self, id: NodeId) -> (r: bool)
        ensures
            r == self@.contains(id),
    {
        let mut i: usize = 0;
        while i < self.ids.len()
            invariant
                0 <= i <= self.ids@.len(),
                forall|j: int| 0 <= j < i ==> self.ids@[j] != id,
            decreases self.ids@.len() - i,
        {
            if self.ids[i].0 == id.0 {
                assert(self.ids@.contains(id));
                return true;
            }
            i = i + 1;
        }
        false
    }

    /// Number of members.
    pub fn len(&self) -> (r: usize)
        requires
            self.wf(),
        ensures
            r == self@.len(),
    {
        proof {
            self.ids@.unique_seq_to_set();
        }
        self.ids.len()
    }

    /// Add `id`; returns whether it was absent.
    pub fn insert(&mut self, id: NodeId) -> (r: bool)
        requires
            old(self).wf(),
        ensures
            final(self).wf(),
            final(self)@ == old(self)@.insert(id),
            r == !old(self)@.contains(id),
            r ==> final(self).seq() == old(self).seq().push(id),
            !r ==> final(self).seq() == old(self).seq(),
    {
        if self.contains(id) {
            return false;
        }
        self.ids.push(id);
        proof {
            assert(self.ids@.to_set() =~= old(self).ids@.to_set().insert(id)) by {
                assert forall|x: NodeId| self.ids@.contains(x) <==> (old(self).ids@.contains(x) || x == id) by {
                    if self.ids@.contains(x) {
                        let j = choose|j: int| 0 <= j < self.ids@.len() && self.ids@[j] == x;
                        if j < old(self).ids@.len() {
                            assert(old(self).ids@[j] == x);
                        }
                    }
                    if old(self).ids@.contains(x) {
                        let j = choose|j: int| 0 <= j < old(self).ids@.len() && old(self).ids@[j] == x;
                        assert(self.ids@[j] == x);
                    }
                    if x == id {
                        assert(self.ids@[self.ids@.len() - 1] == x);
                    }
                }
            }
        }
        true
    }

    /// Remove `id`; returns whether it was present.
    pub fn remove(&mut self, id: NodeId) -> (r: bool)
        requires
            old(self).wf(),
        ensures
            final(self).wf(),
            final(self)@ == old(self)@.remove(id),
            r == old(self)@.contains(id),
            final(self).seq() == old(self).seq().filter(|x: NodeId| x != id),
    {
        let mut i: usize = 0;
        while i < self.ids.len()
            invariant
                0 <= i <= self.ids@.len(),
                self.ids@ == old(self).ids@,
                self.ids@.no_duplicates(),
                forall|j: int| 0 <= j < i ==> self.ids@[j] != id,
            decreases self.ids@.len() - i,
        {
            if self.ids[i].0 == id.0 {
                let ghost before = self.ids@;
                self.ids.remove(i);
                proof {
                    assert(before.contains(id));
                    assert(self.ids@ =~= before.subrange(0, i as int) + before.subrange(i as int + 1, before.len() as int));
                    assert forall|a: int, b: int| 0 <= a < b < self.ids@.len() implies self.ids@[a] != self.ids@[b] by {
                        let a2 = if a < i { a } else { a + 1 };
                        let b2 = if b < i { b } else { b + 1 };
                        assert(self.ids@[a] == before[a2]);
                        assert(self.ids@[b] == before[b2]);
                    }
                    assert forall|x: NodeId| self.ids@.contains(x) <==> (before.contains(x) && x != id) by {
                        if self.ids@.contains(x) {
                            let j = choose|j: int| 0 <= j < self.ids@.len() && self.ids@[j] == x;
                            let j2 = if j < i { j } else { j + 1 };
                            assert(before[j2] == x);
                            assert(j2 != i);
                        }
                        if before.contains(x) && x != id {
                            let j = choose|j: int| 0 <= j < before.len() && before[j] == x;
                            assert(j != i);
                            let j2 = if j < i { j } else { j - 1 };
                            assert(self.ids@[j2] == x);
                        }
                    }
                    assert(self.ids@.to_set() =~= before.to_set().remove(id));
                    lemma_filter_removes_unique(before, i as int, id);
                }
                return true;
            }
            i = i + 1;
        }
        proof {
            assert(!self.ids@.contains(id));
            assert(self.ids@.to_set() =~= old(self).ids@.to_set().remove(id));
            lemma_filter_absent(self.ids@, id);
        }
        false
    }

    /// The members, in insertion order.
    pub fn as_slice(&self) -> (r: &[NodeId])
        ensures
            r@ == self.seq(),
    {
        self.ids.as_slice()
    }

    /// The members other than `id`, in insertion order.
    pub fn without(&self, id: NodeId) -> (r: Vec<NodeId>)
        ensures
            r@ == self.seq().filter(|x: NodeId| x != id),
    {
        let mut out: Vec<NodeId> = Vec::new();
        let mut i: usize = 0;
        while i < self.ids.len()
            invariant
                0 <= i <= self.ids@.len(),
                out@ == self.ids@.take(i as int).filter(|x: NodeId| x != id),
            decreases self.ids@.len() - i,
        {
            let x = self.ids[i];
            proof {
                reveal_filter_step(self.ids@, i as int, id);
            }
            if x.0 != id.0 {
                out.push(x);
            }
            i = i + 1;
        }
        assert(self.ids@.take(self.ids@.len() as int) =~= self.ids@);
        out
    }
}

proof fn reveal_filter_step(s: Seq<NodeId>, i: int, id: NodeId)
    requires
        0 <= i < s.len(),
    ensures
        s.take(i + 1).filter(|x: NodeId| x != id) == (if s[i] != id {
            s.take(i).filter(|x: NodeId| x != id).push(s[i])
        } else {
            s.take(i).filter(|x: NodeId| x != id)
        }),
{
    assert(s.take(i + 1).drop_last() =~= s.take(i));
    assert(s.take(i + 1).last() == s[i]);
    reveal(Seq::filter);
}

proof fn lemma_filter_absent(s: Seq<NodeId>, id: NodeId)
    requires
        !s.contains(id),
    ensures
        s.filter(|x: NodeId| x != id) == s,
    decreases s.len(),
{
    reveal(Seq::filter);
    if s.len() > 0 {
        assert(!s.drop_last().contains(id)) by {
            if s.drop_last().contains(id) {
                let j = choose|j: int| 0 <= j < s.drop_last().len() && s.drop_last()[j] == id;
                assert(s[j] == id);
            }
        }
        lemma_filter_absent(s.drop_last(), id);
        assert(s.drop_last().push(s.last()) =~= s);
    }
}

proof fn lemma_filter_removes_unique(s: Seq<NodeId>, i: int, id: NodeId)
    requires
        s.no_duplicates(),
        0 <= i < s.len(),
        s[i] == id,
    ensures
        s.filter(|x: NodeId| x != id) == s.subrange(0, i) + s.subrange(i + 1, s.len() as int),
    decreases s.len(),
{
    reveal(Seq::filter);
    if i == s.len() - 1 {
        assert(!s.drop_last().contains(id)) by {
            if s.drop_last().contains(id) {
                let j = choose|j: int| 0 <= j < s.drop_last().len() && s.drop_last()[j] == id;
                assert(s[j] == id);
            }
        }
        lemma_filter_absent(s.drop_last(), id);
        assert(s.drop_last() =~= s.subrange(0, i) + s.subrange(i + 1, s.len() as int));
    } else {
        let d = s.drop_last();
        assert(d.no_duplicates());
        lemma_filter_removes_unique(d, i, id);
        assert(s.last() != id);
        assert((d.subrange(0, i) + d.subrange(i + 1, d.len() as int)).push(s.last()) =~= s.subrange(0, i) + s.subrange(i + 1, s.len() as int));
    }
}

} // verus!
