//! The per-target pipeline and its progress tracking: stage timestamps,
//! best-effort persistence of discoveries, and the task-scoped completion
//! set. Scan capabilities (DNS resolution, HTTP probing) are outside
//! collaborators: their results enter here as plain values.
use crate::expand::{contains_seq, scheme_sep, str_eq};
use crate::ipv4::spec_parse_ipv4;
use crate::persist::{asset_idx, asset_key, AssetRecord, AssetStore, SubdomainStore};
use crate::strutil::push_char;
use crate::wildcard::find_from;
use vstd::prelude::*;

verus! {

/// Per-task, per-target progress: the owning node and the start and end
/// timestamps of each pipeline stage.
pub struct ProgressEntry {
    pub task_id: String,
    pub target: String,
    pub node: String,
    pub target_handler_start: String,
    pub subdomain_scan_start: String,
    pub subdomain_scan_end: String,
    pub asset_mapping_start: String,
    pub asset_mapping_end: String,
}

/// The progress records of one run: one entry per processed target,
/// created when the worker begins the target and never deleted.
pub struct ProgressStore {
    pub entries: Vec<ProgressEntry>,
}

impl ProgressStore {
    pub fn new() -> (r: ProgressStore)
        ensures
            r.entries@.len() == 0,
    {
        ProgressStore { entries: Vec::new() }
    }

    pub fn record(&mut self, e: ProgressEntry)
        ensures
            final(self).entries@ == old(self).entries@.push(e),
    {
        self.entries.push(e);
    }
}

/// The task-scoped set of completed targets: membership is recorded once
/// per target, and recording an already-present target changes nothing.
pub struct CompletionSet {
    pub done: Vec<String>,
}

impl CompletionSet {
    /// No target is recorded twice.
    pub open spec fn wf(&self) -> bool {
        forall|i: int, j: int| 0 <= i < j < self.done@.len() ==> self.done@[i]@ != self.done@[j]@
    }

    pub fn new() -> (r: CompletionSet)
        ensures
            r.done@.len() == 0,
            r.wf(),
    {
        CompletionSet { done: Vec::new() }
    }

    /// Marks a target completed: afterwards it is a member, everything
    /// else is untouched, and membership never holds duplicates.
    pub fn mark_done(&mut self, target: &str)
        requires
            old(self).wf(),
        ensures
            final(self).wf(),
            final(self).done.deep_view().contains(target@),
            forall|t: Seq<char>|
                final(self).done.deep_view().contains(t) <==> (old(self).done.deep_view().contains(
                    t,
                ) || t == target@),
    {
        let n = self.done.len();
        let mut i: usize = 0;
        while i < n
            invariant
                i <= n,
                n == self.done@.len(),
                self.done@ == old(self).done@,
                old(self).wf(),
                forall|k: int| 0 <= k < i ==> self.done@[k]@ != target@,
            decreases n - i,
        {
            if str_eq(self.done[i].as_str(), target) {
                proof {
                    assert(self.done.deep_view()[i as int] == target@);
                    assert(self.done.deep_view().contains(target@));
                }
                return ;
            }
            i = i + 1;
        }
        let ghost old_dv = self.done.deep_view();
        self.done.push(target.to_owned());
        proof {
            let dv = self.done.deep_view();
            assert(dv =~~= old_dv.push(target@));
            assert(dv[dv.len() - 1] == target@);
            assert(dv.contains(target@));
            assert forall|t: Seq<char>| dv.contains(t) implies (old_dv.contains(t) || t
                == target@) by {
                let k = choose|k: int| 0 <= k < dv.len() && dv[k] == t;
                if k < dv.len() - 1 {
                    assert(old_dv[k] == t);
                }
            }
            assert forall|t: Seq<char>| old_dv.contains(t) implies dv.contains(t) by {
                let k = choose|k: int| 0 <= k < old_dv.len() && old_dv[k] == t;
                assert(dv[k] == t);
            }
        }
    }
}

/// The task's completion-time cell: a single shared value where the last
/// writer wins, with no aggregation across nodes.
pub struct CompletionTime {
    pub value: Option<String>,
}

impl CompletionTime {
    pub fn new() -> (r: CompletionTime)
        ensures
            r.value is None,
    {
        CompletionTime { value: None }
    }

    /// Records when this node drained the task: whatever was there before
    /// is overwritten.
    pub fn set_time(&mut self, now: &str)
        ensures
            final(self).value matches Some(t) && t@ == now@,
    {
        self.value = Some(now.to_owned());
    }
}

/// The fixed labels tried in front of a domain target.
pub open spec fn sub_words() -> Seq<Seq<char>> {
    seq![
        seq!['w', 'w', 'w'],
        seq!['t', 'e', 's', 't'],
        seq!['d', 'e', 'v'],
        seq!['a', 'd', 'm', 'i', 'n'],
        seq!['a', 'p', 'i'],
    ]
}

/// Whether the text parses as an IPv6 address.
pub uninterp spec fn ipv6_addr_ok(s: Seq<char>) -> bool;

/// Relies on core::net::Ipv6Addr's FromStr (pure text parsing, no I/O):
/// whether a text is an IPv6 address depends on the text alone.
#[verifier::external_body]
fn is_ipv6_addr(s: &str) -> (r: bool)
    ensures
        r == ipv6_addr_ok(s@),
{
    s.parse::<core::net::Ipv6Addr>().is_ok()
}

/// The candidate subdomain names for one target: none for a URL or a
/// target that parses as an IP address (IPv4 or IPv6), else each fixed
/// label joined to the target with a dot.
pub open spec fn sub_candidates_spec(t: Seq<char>) -> Seq<Seq<char>> {
    if contains_seq(t, scheme_sep()) || spec_parse_ipv4(t) is Some || ipv6_addr_ok(t) {
        Seq::empty()
    } else {
        Seq::new(sub_words().len(), |i: int| sub_words()[i] + seq!['.'] + t)
    }
}

/// Builds the candidate subdomain names to hand to the resolver.
pub fn subdomain_candidates(target: &str) -> (r: Vec<String>)
    ensures
        r.deep_view() == sub_candidates_spec(target@),
{
    proof {
        reveal_strlit("://");
        assert("://"@ =~= scheme_sep());
    }
    if let Some(_) = find_from(target, 0, "://") {
        let out: Vec<String> = Vec::new();
        proof {
            assert(out.deep_view() =~~= Seq::<Seq<char>>::empty());
        }
        return out;
    }
    proof {
        assert(forall|i: int| !crate::wildcard::occurs_at(target@, scheme_sep(), i));
    }
    if let Some(_) = crate::ipv4::parse_ipv4(target) {
        let out: Vec<String> = Vec::new();
        proof {
            assert(out.deep_view() =~~= Seq::<Seq<char>>::empty());
        }
        return out;
    }
    if is_ipv6_addr(target) {
        let out: Vec<String> = Vec::new();
        proof {
            assert(out.deep_view() =~~= Seq::<Seq<char>>::empty());
        }
        return out;
    }
    let mut out: Vec<String> = Vec::new();
    let mut w: usize = 0;
    while w < 5
        invariant
            w <= 5,
            out@.len() == w,
            forall|k: int| 0 <= k < w ==> out@[k]@ == sub_words()[k] + seq!['.'] + target@,
        decreases 5 - w,
    {
        let word: &str = if w == 0 {
            "www"
        } else if w == 1 {
            "test"
        } else if w == 2 {
            "dev"
        } else if w == 3 {
            "admin"
        } else {
            "api"
        };
        proof {
            reveal_strlit("www");
            reveal_strlit("test");
            reveal_strlit("dev");
            reveal_strlit("admin");
            reveal_strlit("api");
            assert(word@ == sub_words()[w as int]) by {
                assert("www"@ =~= seq!['w', 'w', 'w']);
                assert("test"@ =~= seq!['t', 'e', 's', 't']);
                assert("dev"@ =~= seq!['d', 'e', 'v']);
                assert("admin"@ =~= seq!['a', 'd', 'm', 'i', 'n']);
                assert("api"@ =~= seq!['a', 'p', 'i']);
            }
        }
        let mut s = word.to_owned();
        push_char(&mut s, '.');
        s.append(target);
        proof {
            assert(s@ =~= sub_words()[w as int] + seq!['.'] + target@);
        }
        out.push(s);
        w = w + 1;
    }
    proof {
        assert(out.deep_view() =~= sub_candidates_spec(target@));
    }
    out
}

/// What the URL parser returns for a given text: host, explicit port and
/// scheme, or nothing when the text is no parseable URL with a host.
pub uninterp spec fn url_parts_of(s: Seq<char>) -> Option<(Seq<char>, Option<u16>, Seq<char>)>;

/// Relies on url::Url::parse, with Url::host_str, Url::port and
/// Url::scheme: what a URL text parses to depends on the text alone.
#[verifier::external_body]
fn parse_url_parts(s: &str) -> (r: Option<(String, Option<u16>, String)>)
    ensures
        match r {
            Some(p) => url_parts_of(s@) == Some((p.0@, p.1, p.2@)),
            None => url_parts_of(s@) is None,
        },
{
    match url::Url::parse(s) {
        Ok(u) => match u.host_str() {
            Some(h) => Some((h.to_string(), u.port(), u.scheme().to_string())),
            None => None,
        },
        Err(_) => None,
    }
}

/// The probe request derived from one target: the URL to fetch, the host,
/// the effective port (explicit, else 443 for https and 80 otherwise) and
/// the scheme. A bare target is probed as http on port 80.
pub open spec fn probe_parts_spec(t: Seq<char>) -> Option<(Seq<char>, Seq<char>, int, Seq<char>)> {
    if contains_seq(t, scheme_sep()) {
        match url_parts_of(t) {
            Some(p) => Some(
                (
                    t,
                    p.0,
                    match p.1 {
                        Some(x) => x as int,
                        None => if p.2 == seq!['h', 't', 't', 'p', 's'] {
                            443
                        } else {
                            80
                        },
                    },
                    p.2,
                ),
            ),
            None => None,
        }
    } else {
        Some((seq!['h', 't', 't', 'p', ':', '/', '/'] + t, t, 80, seq!['h', 't', 't', 'p']))
    }
}

/// The asset fields for one target, to be confirmed by an HTTP probe.
pub struct ProbePlan {
    pub url: String,
    pub host: String,
    pub port: i32,
    pub service: String,
}

/// Derives the probe request for a target; `None` when the target is a
/// URL that does not parse or has no host.
pub fn derive_probe(target: &str) -> (r: Option<ProbePlan>)
    ensures
        match r {
            Some(p) => probe_parts_spec(target@) matches Some(q) && p.url@ == q.0 && p.host@ == q.1
                && p.port as int == q.2 && p.service@ == q.3,
            None => probe_parts_spec(target@) is None,
        },
{
    proof {
        reveal_strlit("://");
        assert("://"@ =~= scheme_sep());
    }
    if let Some(_) = find_from(target, 0, "://") {
        match parse_url_parts(target) {
            Some((host, port, scheme)) => {
                proof {
                    reveal_strlit("https");
                    assert("https"@ =~= seq!['h', 't', 't', 'p', 's']);
                }
                let p: i32 = match port {
                    Some(x) => x as i32,
                    None => if str_eq(scheme.as_str(), "https") {
                        443
                    } else {
                        80
                    },
                };
                Some(ProbePlan { url: target.to_owned(), host, port: p, service: scheme })
            },
            None => None,
        }
    } else {
        proof {
            assert(forall|i: int| !crate::wildcard::occurs_at(target@, scheme_sep(), i));
            reveal_strlit("http://");
            reveal_strlit("http");
            assert("http://"@ =~= seq!['h', 't', 't', 'p', ':', '/', '/']);
            assert("http"@ =~= seq!['h', 't', 't', 'p']);
        }
        let mut url = "http://".to_owned();
        url.append(target);
        proof {
            assert(url@ =~= seq!['h', 't', 't', 'p', ':', '/', '/'] + target@);
        }
        Some(
            ProbePlan {
                url,
                host: target.to_owned(),
                port: 80,
                service: "http".to_owned(),
            },
        )
    }
}

/// One target's pipeline, with the capability results as inputs: the
/// progress entry is recorded, a non-empty discovery list is appended to
/// the subdomain collection, a confirmed asset is upserted by (host,
/// port), and the target joins the completion set. Failed stages arrive
/// as an empty list or `None` and change nothing of their store.
pub fn process_target(
    progress: &mut ProgressStore,
    subdomains: &mut SubdomainStore,
    assets: &mut AssetStore,
    completed: &mut CompletionSet,
    entry: ProgressEntry,
    task_name: &str,
    subs: &Vec<String>,
    sub_time: &str,
    probe: Option<AssetRecord>,
    target: &str,
)
    requires
        old(assets).wf(),
        old(completed).wf(),
    ensures
        final(progress).entries@ == old(progress).entries@.push(entry),
        subs@.len() > 0 ==> final(subdomains).records@.len() == old(subdomains).records@.len()
            + subs@.len(),
        subs@.len() > 0 ==> forall|k: int|
            0 <= k < old(subdomains).records@.len() ==> final(subdomains).records@[k] == old(subdomains).records@[k],
        subs@.len() > 0 ==> forall|k: int|
            0 <= k < subs@.len() ==> (#[trigger] final(subdomains).records@[old(subdomains).records@.len() + k]).host@ == subs@[k]@,
        subs@.len() > 0 ==> forall|k: int|
            0 <= k < subs@.len() ==> (#[trigger] final(subdomains).records@[old(subdomains).records@.len() + k]).time@ == sub_time@,
        subs@.len() > 0 ==> forall|k: int|
            0 <= k < subs@.len() ==> (#[trigger] final(subdomains).records@[old(subdomains).records@.len() + k]).task_name@ == task_name@,
        subs@.len() == 0 ==> final(subdomains).records@ == old(subdomains).records@,
        final(assets).wf(),
        probe matches Some(a) ==> (asset_idx(old(assets).records@, asset_key(a)) >= 0 ==> final(assets).records@ == old(assets).records@.update(
            asset_idx(old(assets).records@, asset_key(a)),
            a,
        )),
        probe matches Some(a) ==> (asset_idx(old(assets).records@, asset_key(a)) < 0 ==> final(assets).records@ == old(assets).records@.push(a)),
        probe matches Some(a) ==> forall|j: int|
            0 <= j < final(assets).records@.len() && asset_key(
                #[trigger] final(assets).records@[j],
            ) == asset_key(a) ==> final(assets).records@[j] == a,
        probe is None ==> final(assets).records@ == old(assets).records@,
        final(completed).wf(),
        forall|t: Seq<char>|
            final(completed).done.deep_view().contains(t) <==> (old(completed).done.deep_view().contains(t) || t == target@),
        final(completed).done.deep_view().contains(target@),
{
    progress.record(entry);
    if subs.len() > 0 {
        subdomains.append_discoveries(subs, sub_time, task_name);
    }
    match probe {
        Some(a) => assets.upsert(a),
        None => {},
    }
    completed.mark_done(target);
}

} // verus!
