//! Queue models for the shared store: the per-task target pool that all
//! dispatched nodes drain through atomic pops, and a node's private
//! dispatch queue. A drain run over the pool shows that concurrent
//! workers consume every queued target exactly once.
use crate::models::DispatchTemplate;
use vstd::multiset::Multiset;
use vstd::prelude::*;

verus! {

/// A task's shared pool of remaining targets; the front is popped next.
pub struct TargetQueue {
    pub items: Vec<String>,
}

impl TargetQueue {
    pub fn new() -> (r: TargetQueue)
        ensures
            r.items@.len() == 0,
    {
        TargetQueue { items: Vec::new() }
    }

    /// Queues every expanded target, preserving order.
    pub fn enqueue_all(&mut self, targets: &Vec<String>)
        ensures
            final(self).items@ == old(self).items@ + targets@,
    {
        let n = targets.len();
        let mut i: usize = 0;
        while i < n
            invariant
                i <= n,
                n == targets@.len(),
                self.items@ == old(self).items@ + targets@.take(i as int),
            decreases n - i,
        {
            let t = targets[i].clone();
            proof {
                assert((old(self).items@ + targets@.take(i as int)).push(targets@[i as int]) =~= old(self).items@ + targets@.take(i + 1));
            }
            self.items.push(t);
            i = i + 1;
        }
        proof {
            assert(targets@.take(n as int) =~= targets@);
        }
    }

    /// Atomic pop of the next target: no two pops return the same queue
    /// position, and an empty pool reports empty without blocking.
    pub fn pop(&mut self) -> (r: Option<String>)
        ensures
            match r {
                Some(t) => old(self).items@.len() > 0 && t == old(self).items@[0] && final(self).items@ == old(self).items@.drop_first(),
                None => old(self).items@.len() == 0 && final(self).items@ == old(self).items@,
            },
    {
        if self.items.len() == 0 {
            return None;
        }
        let t = self.items.remove(0);
        proof {
            assert(self.items@ =~= old(self).items@.drop_first());
        }
        Some(t)
    }
}

/// A node's private dispatch queue, in arrival order.
pub struct NodeQueue {
    pub items: Vec<DispatchTemplate>,
}

impl NodeQueue {
    pub fn new() -> (r: NodeQueue)
        ensures
            r.items@.len() == 0,
    {
        NodeQueue { items: Vec::new() }
    }

    /// A dispatch payload arrives at the back of the queue.
    pub fn enqueue(&mut self, d: DispatchTemplate)
        ensures
            final(self).items@ == old(self).items@.push(d),
    {
        self.items.push(d);
    }

    /// The consumer takes the oldest payload, or none when idle.
    pub fn dequeue(&mut self) -> (r: Option<DispatchTemplate>)
        ensures
            match r {
                Some(d) => old(self).items@.len() > 0 && d == old(self).items@[0] && final(self).items@ == old(self).items@.drop_first(),
                None => old(self).items@.len() == 0 && final(self).items@ == old(self).items@,
            },
    {
        if self.items.len() == 0 {
            return None;
        }
        let d = self.items.remove(0);
        proof {
            assert(self.items@ =~= old(self).items@.drop_first());
        }
        Some(d)
    }
}

/// The multiset of all targets processed over all workers.
pub open spec fn msum(p: Seq<Seq<Seq<char>>>) -> Multiset<Seq<char>>
    decreases p.len(),
{
    if p.len() == 0 {
        Multiset::empty()
    } else {
        p[0].to_multiset().add(msum(p.drop_first()))
    }
}

proof fn lemma_msum_update(p: Seq<Seq<Seq<char>>>, w: int, t: Seq<char>)
    requires
        0 <= w < p.len(),
    ensures
        msum(p.update(w, p[w].push(t))) =~= msum(p).insert(t),
    decreases p.len(),
{
    broadcast use vstd::seq_lib::group_to_multiset_ensures;

    let p2 = p.update(w, p[w].push(t));
    if w == 0 {
        assert(p2.drop_first() =~= p.drop_first());
        assert(p2[0] == p[0].push(t));
        assert(p[0].push(t).to_multiset() =~= p[0].to_multiset().insert(t));
        assert(p[0].to_multiset().insert(t).add(msum(p.drop_first())) =~= p[0].to_multiset().add(
            msum(p.drop_first()),
        ).insert(t));
    } else {
        assert(p2.drop_first() =~= p.drop_first().update(w - 1, p.drop_first()[w - 1].push(t)));
        lemma_msum_update(p.drop_first(), w - 1, t);
        assert(p2[0] == p[0]);
        assert(p[0].to_multiset().add(msum(p.drop_first()).insert(t)) =~= p[0].to_multiset().add(
            msum(p.drop_first()),
        ).insert(t));
    }
}

proof fn lemma_msum_empties(p: Seq<Seq<Seq<char>>>)
    requires
        forall|k: int| 0 <= k < p.len() ==> p[k].len() == 0,
    ensures
        msum(p) =~= Multiset::empty(),
    decreases p.len(),
{
    broadcast use vstd::seq_lib::group_to_multiset_ensures;

    if p.len() > 0 {
        assert(forall|k: int| 0 <= k < p.drop_first().len() ==> p.drop_first()[k] == p[k + 1]);
        lemma_msum_empties(p.drop_first());
        assert(p[0].to_multiset().len() == 0);
    }
}

/// A drain of one task's target pool by a set of workers: each step one
/// worker atomically pops a target and records it as processed.
pub struct DrainRun {
    pub queue: TargetQueue,
    pub processed: Vec<Vec<String>>,
    pub initial: Ghost<Multiset<Seq<char>>>,
}

impl DrainRun {
    /// Every target is either still queued or processed by exactly the
    /// workers' records, with the right multiplicity.
    pub open spec fn wf(&self) -> bool {
        msum(self.processed.deep_view()).add(self.queue.items.deep_view().to_multiset())
            == self.initial@
    }

    pub fn new(targets: Vec<String>, workers: usize) -> (r: DrainRun)
        ensures
            r.wf(),
            r.initial@ == targets.deep_view().to_multiset(),
            r.queue.items@ == targets@,
            r.processed@.len() == workers,
            forall|k: int| 0 <= k < workers ==> r.processed@[k]@.len() == 0,
    {
        let ghost init = targets.deep_view().to_multiset();
        let mut queue = TargetQueue::new();
        queue.enqueue_all(&targets);
        let mut processed: Vec<Vec<String>> = Vec::new();
        let mut k: usize = 0;
        while k < workers
            invariant
                k <= workers,
                processed@.len() == k,
                forall|j: int| 0 <= j < k ==> processed@[j]@.len() == 0,
            decreases workers - k,
        {
            processed.push(Vec::new());
            k = k + 1;
        }
        let r = DrainRun { queue, processed, initial: Ghost(init) };
        proof {
            lemma_msum_empties(r.processed.deep_view());
            assert(r.queue.items.deep_view() =~= targets.deep_view());
            assert(msum(r.processed.deep_view()).add(r.queue.items.deep_view().to_multiset()) =~= r.initial@);
        }
        r
    }

    /// Worker `w` pops the next target, if any, and records it.
    pub fn step(&mut self, w: usize) -> (r: Option<String>)
        requires
            w < old(self).processed@.len(),
            old(self).wf(),
        ensures
            final(self).wf(),
            final(self).initial@ == old(self).initial@,
            final(self).processed@.len() == old(self).processed@.len(),
            match r {
                Some(t) => old(self).queue.items@.len() > 0
                    && final(self).processed@[w as int]@ == old(self).processed@[w as int]@.push(t)
                    && final(self).queue.items@ == old(self).queue.items@.drop_first()
                    && t == old(self).queue.items@[0],
                None => old(self).queue.items@.len() == 0 && final(self).queue.items@ == old(self).queue.items@ && final(self).processed == old(self).processed,
            },
    {
        broadcast use vstd::seq_lib::group_to_multiset_ensures;

        let popped = self.queue.pop();
        match popped {
            None => None,
            Some(t) => {
                let ghost old_q = old(self).queue.items.deep_view();
                let ghost old_p = old(self).processed.deep_view();
                let mut lst: Vec<String> = Vec::new();
                self.processed.set_and_swap(w, &mut lst);
                lst.push(t.clone());
                self.processed.set(w, lst);
                proof {
                    let new_p = self.processed.deep_view();
                    assert(new_p =~~= old_p.update(w as int, old_p[w as int].push(t@)));
                    lemma_msum_update(old_p, w as int, t@);
                    let new_q = self.queue.items.deep_view();
                    assert(old_q.remove(0) =~= old_q.drop_first());
                    assert(new_q =~~= old_q.drop_first());
                    assert(old_q.to_multiset().remove(old_q[0]) =~= new_q.to_multiset());
                    assert(old_q.contains(old_q[0]));
                    assert(old_q.to_multiset().count(old_q[0]) > 0);
                    assert(msum(new_p).add(new_q.to_multiset()) =~= msum(old_p).add(
                        old_q.to_multiset(),
                    ));
                }
                Some(t)
            },
        }
    }

    /// Exactly-once consumption: when the pool is drained, the targets
    /// processed across all workers are exactly the initial targets — no
    /// duplicate, no omission, whatever the interleaving of workers was.
    pub proof fn lemma_exactly_once(&self)
        requires
            self.wf(),
            self.queue.items@.len() == 0,
        ensures
            msum(self.processed.deep_view()) == self.initial@,
    {
        broadcast use vstd::seq_lib::group_to_multiset_ensures;

        assert(self.queue.items.deep_view().to_multiset().len() == 0);
        assert(self.queue.items.deep_view().to_multiset() =~= Multiset::empty());
        assert(msum(self.processed.deep_view()).add(Multiset::empty()) =~= msum(
            self.processed.deep_view(),
        ));
    }
}

} // verus!
