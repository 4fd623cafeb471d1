//! Persistence models for discovered results and task records: assets are
//! upserted under a store-level unique (host, port) index with latest
//! write winning; subdomain records are append-only and never
//! deduplicated; task records are appended at creation.
use vstd::prelude::*;

verus! {

/// One probed asset, keyed by host and port.
#[derive(Clone)]
pub struct AssetRecord {
    pub url: String,
    pub host: String,
    pub port: i32,
    pub service: String,
    pub asset_type: String,
    pub time: String,
    pub task_name: String,
}

pub open spec fn asset_key(r: AssetRecord) -> (Seq<char>, int) {
    (r.host@, r.port as int)
}

/// First index holding the key, or -1.
pub open spec fn asset_idx(s: Seq<AssetRecord>, key: (Seq<char>, int)) -> int
    decreases s.len(),
{
    if s.len() == 0 {
        -1
    } else if asset_key(s[0]) == key {
        0
    } else if asset_idx(s.drop_first(), key) < 0 {
        -1
    } else {
        1 + asset_idx(s.drop_first(), key)
    }
}

proof fn lemma_asset_idx_at(s: Seq<AssetRecord>, key: (Seq<char>, int), i: int)
    requires
        0 <= i < s.len(),
        asset_key(s[i]) == key,
        forall|k: int| 0 <= k < i ==> asset_key(s[k]) != key,
    ensures
        asset_idx(s, key) == i,
    decreases s.len(),
{
    if i > 0 {
        assert(forall|k: int| 0 <= k < s.drop_first().len() ==> s.drop_first()[k] == s[k + 1]);
        lemma_asset_idx_at(s.drop_first(), key, i - 1);
    }
}

proof fn lemma_asset_idx_none(s: Seq<AssetRecord>, key: (Seq<char>, int))
    requires
        forall|k: int| 0 <= k < s.len() ==> asset_key(s[k]) != key,
    ensures
        asset_idx(s, key) < 0,
    decreases s.len(),
{
    if s.len() > 0 {
        assert(forall|k: int| 0 <= k < s.drop_first().len() ==> s.drop_first()[k] == s[k + 1]);
        lemma_asset_idx_none(s.drop_first(), key);
    }
}

/// The asset collection.
pub struct AssetStore {
    pub records: Vec<AssetRecord>,
}

impl AssetStore {
    /// The store-level unique index: one record per (host, port).
    pub open spec fn wf(&self) -> bool {
        forall|i: int, j: int|
            0 <= i < j < self.records@.len() ==> asset_key(self.records@[i]) != asset_key(
                self.records@[j],
            )
    }

    pub fn new() -> (r: AssetStore)
        ensures
            r.records@.len() == 0,
            r.wf(),
    {
        AssetStore { records: Vec::new() }
    }

    /// Upsert by (host, port): the latest write wins on every field, the
    /// unique index keeps exactly one record per pair, and records under
    /// other keys are untouched.
    pub fn upsert(&mut self, rec: AssetRecord)
        requires
            old(self).wf(),
        ensures
            final(self).wf(),
            asset_idx(old(self).records@, asset_key(rec)) >= 0 ==> final(self).records@ == old(
                self,
            ).records@.update(asset_idx(old(self).records@, asset_key(rec)), rec),
            asset_idx(old(self).records@, asset_key(rec)) < 0 ==> final(self).records@ == old(
                self,
            ).records@.push(rec),
            exists|k: int| 0 <= k < final(self).records@.len() && final(self).records@[k] == rec,
            forall|j: int|
                0 <= j < final(self).records@.len() && asset_key(final(self).records@[j])
                    == asset_key(rec) ==> final(self).records@[j] == rec,
    {
        let n = self.records.len();
        let mut i: usize = 0;
        while i < n
            invariant
                i <= n,
                n == self.records@.len(),
                self.records@ == old(self).records@,
                old(self).wf(),
                forall|k: int| 0 <= k < i ==> asset_key(self.records@[k]) != asset_key(rec),
            decreases n - i,
        {
            let same_host = crate::expand::str_eq(
                self.records[i].host.as_str(),
                rec.host.as_str(),
            );
            if same_host && self.records[i].port == rec.port {
                proof {
                    lemma_asset_idx_at(self.records@, asset_key(rec), i as int);
                }
                let ghost old_recs = self.records@;
                self.records.set(i, rec);
                proof {
                    assert(self.records@[i as int] == rec);
                    assert(asset_key(rec) == asset_key(old_recs[i as int]));
                    assert forall|a: int, b: int|
                        0 <= a < b < self.records@.len() implies asset_key(self.records@[a])
                        != asset_key(self.records@[b]) by {
                        if a != i {
                            assert(self.records@[a] == old_recs[a]);
                        }
                        if b != i {
                            assert(self.records@[b] == old_recs[b]);
                        }
                        assert(asset_key(self.records@[a]) == asset_key(old_recs[a]));
                        assert(asset_key(self.records@[b]) == asset_key(old_recs[b]));
                        assert(asset_key(old_recs[a]) != asset_key(old_recs[b]));
                    }
                    assert forall|j: int|
                        0 <= j < self.records@.len() && asset_key(self.records@[j]) == asset_key(
                            rec,
                        ) implies self.records@[j] == rec by {
                        if j != i {
                            assert(self.records@[j] == old_recs[j]);
                        }
                    }
                }
                return ;
            }
            i = i + 1;
        }
        proof {
            lemma_asset_idx_none(self.records@, asset_key(rec));
        }
        let ghost old_recs = self.records@;
        self.records.push(rec);
        proof {
            let m = self.records@.len() - 1;
            assert(self.records@[m] == rec);
            assert forall|a: int, b: int|
                0 <= a < b < self.records@.len() implies asset_key(self.records@[a]) != asset_key(
                    self.records@[b],
                ) by {
                if b < m {
                    assert(self.records@[a] == old_recs[a]);
                    assert(self.records@[b] == old_recs[b]);
                } else {
                    assert(self.records@[a] == old_recs[a]);
                    assert(asset_key(old_recs[a]) != asset_key(rec));
                }
            }
            assert forall|j: int|
                0 <= j < self.records@.len() && asset_key(self.records@[j]) == asset_key(rec)
                    implies self.records@[j] == rec by {
                if j < m {
                    assert(self.records@[j] == old_recs[j]);
                }
            }
        }
    }
}

/// The unique (host, port) index at work: however many upserts for one
/// pair were applied, two records never share the pair, so exactly one
/// document exists per probed (host, port) — the one of the latest write.
pub proof fn lemma_one_asset_per_pair(s: &AssetStore, i: int, j: int)
    requires
        s.wf(),
        0 <= i < s.records@.len(),
        0 <= j < s.records@.len(),
        asset_key(s.records@[i]) == asset_key(s.records@[j]),
    ensures
        i == j,
{
}

/// One discovered subdomain document.
#[derive(Clone)]
pub struct SubdomainRecord {
    pub host: String,
    pub time: String,
    pub task_name: String,
}

/// The subdomain collection: append-only, no uniqueness of any kind, so
/// repeated discoveries of one host yield one record each.
pub struct SubdomainStore {
    pub records: Vec<SubdomainRecord>,
}

impl SubdomainStore {
    pub fn new() -> (r: SubdomainStore)
        ensures
            r.records@.len() == 0,
    {
        SubdomainStore { records: Vec::new() }
    }

    /// Appends one record per discovered host: nothing is merged, nothing
    /// removed, and the same host may appear any number of times.
    pub fn append_discoveries(&mut self, hosts: &Vec<String>, time: &str, task_name: &str)
        ensures
            final(self).records@.len() == old(self).records@.len() + hosts@.len(),
            forall|k: int|
                0 <= k < old(self).records@.len() ==> final(self).records@[k] == old(
                    self,
                ).records@[k],
            forall|k: int|
                0 <= k < hosts@.len() ==> (#[trigger] final(self).records@[old(
                    self,
                ).records@.len() + k]).host@ == hosts@[k]@,
            forall|k: int|
                0 <= k < hosts@.len() ==> (#[trigger] final(self).records@[old(
                    self,
                ).records@.len() + k]).time@ == time@,
            forall|k: int|
                0 <= k < hosts@.len() ==> (#[trigger] final(self).records@[old(
                    self,
                ).records@.len() + k]).task_name@ == task_name@,
    {
        let n = hosts.len();
        let mut i: usize = 0;
        let ghost base = self.records@;
        while i < n
            invariant
                i <= n,
                n == hosts@.len(),
                self.records@.len() == base.len() + i,
                forall|k: int| 0 <= k < base.len() ==> self.records@[k] == base[k],
                forall|k: int|
                    0 <= k < i ==> (#[trigger] self.records@[base.len() + k]).host@ == hosts@[k]@,
                forall|k: int|
                    0 <= k < i ==> (#[trigger] self.records@[base.len() + k]).time@ == time@,
                forall|k: int|
                    0 <= k < i ==> (#[trigger] self.records@[base.len() + k]).task_name@
                        == task_name@,
            decreases n - i,
        {
            let rec = SubdomainRecord {
                host: hosts[i].clone(),
                time: time.to_owned(),
                task_name: task_name.to_owned(),
            };
            self.records.push(rec);
            proof {
                let m = base.len() + i;
                assert(self.records@[m as int].host@ == hosts@[i as int]@);
                assert(self.records@[m as int].time@ == time@);
                assert(self.records@[m as int].task_name@ == task_name@);
            }
            i = i + 1;
        }
        proof {
            assert(base == old(self).records@);
            assert forall|k: int|
                0 <= k < hosts@.len() implies (#[trigger] self.records@[old(
                    self,
                ).records@.len() + k]).host@ == hosts@[k]@ by {
                assert(self.records@[base.len() + k].host@ == hosts@[k]@);
            }
            assert forall|k: int|
                0 <= k < hosts@.len() implies (#[trigger] self.records@[old(
                    self,
                ).records@.len() + k]).time@ == time@ by {
                assert(self.records@[base.len() + k].time@ == time@);
            }
            assert forall|k: int|
                0 <= k < hosts@.len() implies (#[trigger] self.records@[old(
                    self,
                ).records@.len() + k]).task_name@ == task_name@ by {
                assert(self.records@[base.len() + k].task_name@ == task_name@);
            }
        }
    }
}

/// One persisted task document.
pub struct TaskRecord {
    pub name: String,
    pub target: String,
    pub ignore: String,
    pub node: Vec<String>,
    pub all_node: bool,
    pub scheduled_tasks: bool,
    pub template: String,
    pub duplicates: bool,
    pub task_num: i32,
    pub progress: u32,
    pub creat_time: String,
    pub end_time: String,
    pub status: i32,
    pub task_type: String,
}

/// The task collection: records are appended at creation.
pub struct TaskStore {
    pub tasks: Vec<TaskRecord>,
}

impl TaskStore {
    pub fn new() -> (r: TaskStore)
        ensures
            r.tasks@.len() == 0,
    {
        TaskStore { tasks: Vec::new() }
    }

    pub fn insert_task(&mut self, rec: TaskRecord)
        ensures
            final(self).tasks@ == old(self).tasks@.push(rec),
    {
        self.tasks.push(rec);
    }
}

} // verus!
