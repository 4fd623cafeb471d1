//! Node registry and liveness: nodes register and refresh themselves by
//! heartbeat; a node is online exactly when its `state` field is `"1"`.
//! Nothing here ever expires an entry: liveness is advisory, and a node
//! that stops heartbeating stays listed until some outside actor clears
//! its state.
use vstd::prelude::*;

verus! {

/// One registry entry, mirroring the per-node hash fields.
pub struct NodeEntry {
    pub name: String,
    pub state: String,
    pub update_time: String,
}

/// A node is online when its state text is exactly "1".
pub open spec fn is_online(e: NodeEntry) -> bool {
    e.state@ == seq!['1']
}

/// The names of the online entries, in registry order.
pub open spec fn online_of(s: Seq<NodeEntry>) -> Seq<Seq<char>>
    decreases s.len(),
{
    if s.len() == 0 {
        Seq::empty()
    } else {
        let rest = online_of(s.drop_first());
        if is_online(s[0]) {
            seq![s[0].name@] + rest
        } else {
            rest
        }
    }
}

/// First index holding an entry of the given name, or -1.
pub open spec fn node_idx(s: Seq<NodeEntry>, name: Seq<char>) -> int
    decreases s.len(),
{
    if s.len() == 0 {
        -1
    } else if s[0].name@ == name {
        0
    } else if node_idx(s.drop_first(), name) < 0 {
        -1
    } else {
        1 + node_idx(s.drop_first(), name)
    }
}

/// The index that a registration for `name` writes: the first entry of
/// that name, or the appended slot when none exists.
pub open spec fn refreshed_idx(s: Seq<NodeEntry>, name: Seq<char>) -> int {
    if node_idx(s, name) >= 0 {
        node_idx(s, name)
    } else {
        s.len() as int
    }
}

/// The written entry carries the name, state "1" and the heartbeat time.
pub open spec fn refreshed_entry(s: Seq<NodeEntry>, i: int, name: Seq<char>, now: Seq<char>) -> bool {
    &&& 0 <= i < s.len()
    &&& s[i].name@ == name
    &&& s[i].state@ == seq!['1']
    &&& s[i].update_time@ == now
}

/// The node registry.
pub struct Registry {
    pub nodes: Vec<NodeEntry>,
}

impl Registry {
    pub fn new() -> (r: Registry)
        ensures
            r.nodes@.len() == 0,
    {
        Registry { nodes: Vec::new() }
    }

    /// Registers or refreshes a node: its entry carries state "1", its
    /// name and the given heartbeat time; every other entry is untouched
    /// and none is removed.
    pub fn register_node(&mut self, name: &str, now: &str)
        ensures
            node_idx(old(self).nodes@, name@) >= 0 ==> final(self).nodes@.len() == old(
                self,
            ).nodes@.len(),
            node_idx(old(self).nodes@, name@) < 0 ==> final(self).nodes@.len() == old(
                self,
            ).nodes@.len() + 1,
            forall|k: int|
                0 <= k < old(self).nodes@.len() && k != node_idx(old(self).nodes@, name@)
                    ==> final(self).nodes@[k] == old(self).nodes@[k],
            refreshed_entry(final(self).nodes@, refreshed_idx(old(self).nodes@, name@), name@, now@),
    {
        let mut i: usize = 0;
        let n = self.nodes.len();
        while i < n
            invariant
                i <= n,
                n == self.nodes@.len(),
                self.nodes@ == old(self).nodes@,
                forall|k: int| 0 <= k < i ==> self.nodes@[k].name@ != name@,
            decreases n - i,
        {
            if crate::expand::str_eq(self.nodes[i].name.as_str(), name) {
                proof {
                    reveal_strlit("1");
                    assert("1"@ =~= seq!['1']);
                    lemma_node_idx_at(self.nodes@, name@, i as int);
                }
                let entry = NodeEntry {
                    name: name.to_owned(),
                    state: "1".to_owned(),
                    update_time: now.to_owned(),
                };
                self.nodes.set(i, entry);
                proof {
                    assert(self.nodes@[i as int].state@ =~= seq!['1']);
                }
                return ;
            }
            i = i + 1;
        }
        proof {
            reveal_strlit("1");
            assert("1"@ =~= seq!['1']);
            lemma_node_idx_none(self.nodes@, name@);
        }
        let entry = NodeEntry {
            name: name.to_owned(),
            state: "1".to_owned(),
            update_time: now.to_owned(),
        };
        self.nodes.push(entry);
        proof {
            assert(self.nodes@[self.nodes@.len() - 1].state@ =~= seq!['1']);
        }
    }

    /// A heartbeat is a refresh of the node's own entry.
    pub fn heartbeat(&mut self, name: &str, now: &str)
        ensures
            node_idx(old(self).nodes@, name@) >= 0 ==> final(self).nodes@.len() == old(
                self,
            ).nodes@.len(),
            node_idx(old(self).nodes@, name@) < 0 ==> final(self).nodes@.len() == old(
                self,
            ).nodes@.len() + 1,
            forall|k: int|
                0 <= k < old(self).nodes@.len() && k != node_idx(old(self).nodes@, name@)
                    ==> final(self).nodes@[k] == old(self).nodes@[k],
            refreshed_entry(final(self).nodes@, refreshed_idx(old(self).nodes@, name@), name@, now@),
    {
        self.register_node(name, now);
    }

    /// The names whose `state` field equals "1", in registry order. The
    /// heartbeat time plays no part: stale entries stay listed.
    pub fn list_online_nodes(&self) -> (r: Vec<String>)
        ensures
            r.deep_view() == online_of(self.nodes@),
    {
        let mut out: Vec<String> = Vec::new();
        let mut i: usize = 0;
        proof {
            assert(self.nodes@.skip(0) =~= self.nodes@);
        }
        while i < self.nodes.len()
            invariant
                i <= self.nodes@.len(),
                online_of(self.nodes@) == out.deep_view() + online_of(self.nodes@.skip(i as int)),
            decreases self.nodes@.len() - i,
        {
            proof {
                assert(self.nodes@.skip(i as int)[0] == self.nodes@[i as int]);
                assert(self.nodes@.skip(i as int).drop_first() =~= self.nodes@.skip(i + 1));
                reveal_strlit("1");
                assert("1"@ =~= seq!['1']);
            }
            let online = crate::expand::str_eq(self.nodes[i].state.as_str(), "1");
            if online {
                let ghost old_dv = out.deep_view();
                out.push(self.nodes[i].name.clone());
                proof {
                    assert(is_online(self.nodes@[i as int]));
                    assert(out.deep_view() =~~= old_dv.push(self.nodes@[i as int].name@));
                    assert(out.deep_view() + online_of(self.nodes@.skip(i + 1)) =~~= online_of(
                        self.nodes@,
                    ));
                }
            } else {
                proof {
                    assert(!is_online(self.nodes@[i as int]));
                    assert(out.deep_view() + online_of(self.nodes@.skip(i + 1)) =~~= online_of(
                        self.nodes@,
                    ));
                }
            }
            i = i + 1;
        }
        proof {
            assert(self.nodes@.skip(self.nodes@.len() as int) =~= Seq::<NodeEntry>::empty());
            assert(out.deep_view() + Seq::<Seq<char>>::empty() =~~= out.deep_view());
        }
        out
    }
}

proof fn lemma_node_idx_at(s: Seq<NodeEntry>, name: Seq<char>, i: int)
    requires
        0 <= i < s.len(),
        s[i].name@ == name,
        forall|k: int| 0 <= k < i ==> s[k].name@ != name,
    ensures
        node_idx(s, name) == i,
    decreases s.len(),
{
    if i > 0 {
        assert(forall|k: int| 0 <= k < s.drop_first().len() ==> s.drop_first()[k] == s[k + 1]);
        lemma_node_idx_at(s.drop_first(), name, i - 1);
    }
}

proof fn lemma_node_idx_none(s: Seq<NodeEntry>, name: Seq<char>)
    requires
        forall|k: int| 0 <= k < s.len() ==> s[k].name@ != name,
    ensures
        node_idx(s, name) < 0,
    decreases s.len(),
{
    if s.len() > 0 {
        assert(forall|k: int| 0 <= k < s.drop_first().len() ==> s.drop_first()[k] == s[k + 1]);
        lemma_node_idx_none(s.drop_first(), name);
    }
}

/// Whether a node is listed as online depends on names and states alone:
/// two registries that differ only in heartbeat times list the same nodes.
pub proof fn lemma_online_ignores_update_time(a: Seq<NodeEntry>, b: Seq<NodeEntry>)
    requires
        a.len() == b.len(),
        forall|i: int| 0 <= i < a.len() ==> a[i].name@ == b[i].name@ && a[i].state@ == b[i].state@,
    ensures
        online_of(a) == online_of(b),
    decreases a.len(),
{
    if a.len() > 0 {
        assert(forall|i: int| 0 <= i < a.drop_first().len() ==> a.drop_first()[i] == a[i + 1]);
        assert(forall|i: int| 0 <= i < b.drop_first().len() ==> b.drop_first()[i] == b[i + 1]);
        lemma_online_ignores_update_time(a.drop_first(), b.drop_first());
    }
}

} // verus!
