//! Target expansion: each non-empty line of the raw target text is turned
//! into concrete targets (kept verbatim for URLs, enumerated for IPv4
//! ranges and CIDR blocks), filtered through the ignore rules, and the
//! survivors are returned deduplicated in lexicographic order.
use crate::ignore::{build_ignore, exacts_of, wilds_of, IgnoreRules};
use crate::ipv4::{
    cidr_hosts, cidr_hosts_exec, find_char, index_of_first, is_prefix_str, parse_ipv4,
    parse_ipv4_lenient, prefix_val, spec_parse_ipv4, spec_parse_ipv4_lenient, split_char,
    addr_run, addr_run_spec, dec_val,
};
use crate::strutil::{
    lemma_lex_connected, lemma_lex_irreflexive, lemma_lex_transitive, lex_lt, str_lt, trim_spec,
    trim_str,
};
use crate::wildcard::{find_from, occurs_at, wild_match, wild_is_match};
use vstd::prelude::*;

verus! {

/// The scheme separator that marks a token as an opaque URL.
pub open spec fn scheme_sep() -> Seq<char> {
    seq![':', '/', '/']
}

pub open spec fn contains_seq(s: Seq<char>, pat: Seq<char>) -> bool {
    exists|i: int| occurs_at(s, pat, i)
}

/// The numeric bounds of an address range token, when both sides of the
/// first `-` parse as IPv4 addresses.
pub open spec fn range_of(tok: Seq<char>) -> Option<(u32, u32)> {
    let i = index_of_first(tok, '-');
    if i >= 0 {
        match (spec_parse_ipv4(tok.take(i)), spec_parse_ipv4(tok.skip(i + 1))) {
            (Some(a), Some(b)) => Some((a, b)),
            _ => None,
        }
    } else {
        None
    }
}

/// The address and prefix length of an IPv4 CIDR token, split at the
/// first `/`. The address part is read with lenient octets and the
/// prefix with at most two digits, as the network parser does.
pub open spec fn cidr_of(tok: Seq<char>) -> Option<(u32, nat)> {
    let i = index_of_first(tok, '/');
    if i >= 0 {
        match spec_parse_ipv4_lenient(tok.take(i)) {
            Some(n) => if is_prefix_str(tok.skip(i + 1)) {
                Some((n, dec_val(tok.skip(i + 1))))
            } else {
                None
            },
            None => None,
        }
    } else {
        None
    }
}

/// Whether the token parses as an IPv6 network in CIDR form.
pub uninterp spec fn ipv6_net_ok(s: Seq<char>) -> bool;

/// Relies on ipnet::Ipv6Net::from_str: whether a text parses as an IPv6
/// network depends on the text alone.
#[verifier::external_body]
fn is_ipv6_cidr(s: &str) -> (r: bool)
    ensures
        r == ipv6_net_ok(s@),
{
    s.parse::<ipnet::Ipv6Net>().is_ok()
}

/// The ascending address texts of a range, empty when `a > b`.
pub open spec fn range_strs(a: u32, b: u32) -> Seq<Seq<char>> {
    if a > b {
        Seq::empty()
    } else {
        addr_run_spec(a as nat, (b - a + 1) as nat)
    }
}

/// The concrete targets produced by one token.
pub open spec fn gen_target_spec(tok: Seq<char>) -> Seq<Seq<char>> {
    if contains_seq(tok, scheme_sep()) {
        seq![tok]
    } else {
        match range_of(tok) {
            Some(ab) => range_strs(ab.0, ab.1),
            None => if index_of_first(tok, '/') >= 0 {
                match cidr_of(tok) {
                    Some(np) => cidr_hosts(np.0, np.1),
                    None => if ipv6_net_ok(tok) {
                        Seq::empty()
                    } else {
                        seq![tok]
                    },
                }
            } else {
                seq![tok]
            },
        }
    }
}

/// Builds the concrete targets for one token.
pub fn gen_target(tok: &str) -> (r: Vec<String>)
    ensures
        r.deep_view() == gen_target_spec(tok@),
{
    proof {
        reveal_strlit("://");
        assert("://"@ =~= scheme_sep());
    }
    let len = tok.unicode_len();
    if let Some(_) = find_from(tok, 0, "://") {
        let mut out: Vec<String> = Vec::new();
        out.push(tok.to_owned());
        proof {
            assert(out.deep_view() =~~= seq![tok@]);
        }
        return out;
    }
    proof {
        assert(forall|i: int| !occurs_at(tok@, scheme_sep(), i));
    }
    if let Some(i) = find_char(tok, '-') {
        proof {
            crate::ipv4::lemma_index_of_first_props(tok@, '-');
        }
        let a_part = tok.substring_char(0, i);
        let b_part = tok.substring_char(i + 1, len);
        proof {
            assert(a_part@ =~= tok@.take(i as int));
            assert(b_part@ =~= tok@.skip(i + 1));
        }
        let a = parse_ipv4(a_part);
        let b = parse_ipv4(b_part);
        if let (Some(a), Some(b)) = (a, b) {
            if a > b {
                let out: Vec<String> = Vec::new();
                proof {
                    assert(out.deep_view() =~~= range_strs(a, b));
                }
                return out;
            }
            let count: u64 = (b - a) as u64 + 1;
            let out = addr_run(a as u64, count);
            proof {
                assert(out.deep_view() =~= range_strs(a, b));
            }
            return out;
        }
    }
    if let Some(i) = find_char(tok, '/') {
        proof {
            crate::ipv4::lemma_index_of_first_props(tok@, '/');
        }
        let a_part = tok.substring_char(0, i);
        let p_part = tok.substring_char(i + 1, len);
        proof {
            assert(a_part@ =~= tok@.take(i as int));
            assert(p_part@ =~= tok@.skip(i + 1));
        }
        let n = parse_ipv4_lenient(a_part);
        let p = prefix_val(p_part);
        if let (Some(n), Some(p)) = (n, p) {
            let out = cidr_hosts_exec(n, p);
            return out;
        }
        if is_ipv6_cidr(tok) {
            let out: Vec<String> = Vec::new();
            proof {
                assert(out.deep_view() =~~= Seq::<Seq<char>>::empty());
            }
            return out;
        }
        let mut out: Vec<String> = Vec::new();
        out.push(tok.to_owned());
        proof {
            assert(out.deep_view() =~~= seq![tok@]);
        }
        return out;
    }
    let mut out: Vec<String> = Vec::new();
    out.push(tok.to_owned());
    proof {
        assert(out.deep_view() =~~= seq![tok@]);
    }
    out
}

/// Insertion into a lexicographically sorted sequence without duplicates.
pub open spec fn insert_lex(v: Seq<Seq<char>>, x: Seq<char>) -> Seq<Seq<char>>
    decreases v.len(),
{
    if v.len() == 0 {
        seq![x]
    } else if x == v[0] {
        v
    } else if lex_lt(x, v[0]) {
        seq![x] + v
    } else {
        seq![v[0]] + insert_lex(v.drop_first(), x)
    }
}

pub open spec fn sorted_lex(v: Seq<Seq<char>>) -> bool {
    forall|i: int, j: int| 0 <= i < j < v.len() ==> lex_lt(v[i], v[j])
}

proof fn lemma_cons_contains(h: Seq<char>, r: Seq<Seq<char>>, t: Seq<char>)
    ensures
        (seq![h] + r).contains(t) <==> (t == h || r.contains(t)),
{
    let s = seq![h] + r;
    if s.contains(t) {
        let i = choose|i: int| 0 <= i < s.len() && s[i] == t;
        if i == 0 {
            assert(t == h);
        } else {
            assert(r[i - 1] == t);
            assert(r.contains(t));
        }
    }
    if t == h {
        assert(s[0] == t);
        assert(s.contains(t));
    }
    if r.contains(t) {
        let i = choose|i: int| 0 <= i < r.len() && r[i] == t;
        assert(s[i + 1] == t);
        assert(s.contains(t));
    }
}

/// What the sorted insertion holds: the old elements and the new one.
pub proof fn lemma_insert_lex_contains(v: Seq<Seq<char>>, x: Seq<char>, t: Seq<char>)
    ensures
        insert_lex(v, x).contains(t) <==> (v.contains(t) || t == x),
    decreases v.len(),
{
    if v.len() == 0 {
        assert(insert_lex(v, x) =~= seq![x] + Seq::<Seq<char>>::empty());
        lemma_cons_contains(x, Seq::empty(), t);
    } else if x == v[0] {
        if t == x {
            assert(v.contains(t));
        }
    } else if lex_lt(x, v[0]) {
        lemma_cons_contains(x, v, t);
    } else {
        let d = v.drop_first();
        lemma_insert_lex_contains(d, x, t);
        lemma_cons_contains(v[0], insert_lex(d, x), t);
        assert(v =~= seq![v[0]] + d);
        lemma_cons_contains(v[0], d, t);
    }
}

/// Sorted insertion keeps the sequence sorted.
pub proof fn lemma_insert_lex_sorted(v: Seq<Seq<char>>, x: Seq<char>)
    requires
        sorted_lex(v),
    ensures
        sorted_lex(insert_lex(v, x)),
    decreases v.len(),
{
    if v.len() == 0 {
    } else if x == v[0] {
    } else if lex_lt(x, v[0]) {
        let s = seq![x] + v;
        assert forall|i: int, j: int| 0 <= i < j < s.len() implies lex_lt(s[i], s[j]) by {
            if i == 0 {
                if j > 1 {
                    lemma_lex_transitive(x, v[0], v[j - 1]);
                }
            }
        }
    } else {
        if !lex_lt(v[0], x) {
            lemma_lex_connected(v[0], x);
            assert(false);
        }
        let d = v.drop_first();
        assert(sorted_lex(d)) by {
            assert(forall|i: int, j: int|
                0 <= i < j < d.len() ==> d[i] == v[i + 1] && d[j] == v[j + 1]);
        }
        lemma_insert_lex_sorted(d, x);
        let e = insert_lex(d, x);
        let s = seq![v[0]] + e;
        assert forall|i: int, j: int| 0 <= i < j < s.len() implies lex_lt(s[i], s[j]) by {
            if i == 0 {
                let t = e[j - 1];
                assert(e.contains(t));
                lemma_insert_lex_contains(d, x, t);
                if t == x {
                    assert(lex_lt(v[0], x));
                } else {
                    assert(d.contains(t));
                    let k = choose|k: int| 0 <= k < d.len() && d[k] == t;
                    assert(v[k + 1] == t);
                    assert(lex_lt(v[0], v[k + 1]));
                }
            }
        }
    }
}

/// Where a scan for the insertion point stops, what the insertion is.
proof fn lemma_insert_lex_at(v: Seq<Seq<char>>, x: Seq<char>, idx: int)
    requires
        0 <= idx <= v.len(),
        forall|k: int| 0 <= k < idx ==> lex_lt(v[k], x),
        idx < v.len() ==> !lex_lt(v[idx], x),
    ensures
        idx < v.len() && v[idx] == x ==> insert_lex(v, x) == v,
        !(idx < v.len() && v[idx] == x) ==> insert_lex(v, x) == v.take(idx) + seq![x] + v.skip(
            idx,
        ),
    decreases v.len(),
{
    if idx == 0 {
        if v.len() == 0 {
            assert(insert_lex(v, x) =~= v.take(0) + seq![x] + v.skip(0));
        } else if v[0] == x {
        } else {
            if !lex_lt(x, v[0]) {
                lemma_lex_connected(x, v[0]);
                assert(false);
            }
            assert(v.take(0) + seq![x] + v.skip(0) =~= seq![x] + v);
        }
    } else {
        assert(lex_lt(v[0], x));
        if x == v[0] {
            lemma_lex_irreflexive(x);
            assert(false);
        }
        if lex_lt(x, v[0]) {
            lemma_lex_transitive(v[0], x, v[0]);
            lemma_lex_irreflexive(v[0]);
            assert(false);
        }
        let d = v.drop_first();
        assert(forall|k: int| 0 <= k < idx - 1 ==> d[k] == v[k + 1]);
        lemma_insert_lex_at(d, x, idx - 1);
        assert(insert_lex(v, x) == seq![v[0]] + insert_lex(d, x));
        if idx < v.len() && v[idx] == x {
            assert(d[idx - 1] == x);
            assert(insert_lex(d, x) == d);
            assert(seq![v[0]] + d =~= v);
        } else {
            assert(!(idx - 1 < d.len() && d[idx - 1] == x));
            assert(insert_lex(d, x) == d.take(idx - 1) + seq![x] + d.skip(idx - 1));
            assert(seq![v[0]] + (d.take(idx - 1) + seq![x] + d.skip(idx - 1)) =~= v.take(idx)
                + seq![x] + v.skip(idx));
        }
    }
}

/// Inserts `x` into a sorted vector, keeping it sorted and duplicate-free.
pub fn insert_sorted(v: &mut Vec<String>, x: String)
    ensures
        final(v).deep_view() == insert_lex(old(v).deep_view(), x@),
{
    let ghost dv = v.deep_view();
    let mut idx: usize = 0;
    while idx < v.len() && str_lt(v[idx].as_str(), x.as_str())
        invariant
            idx <= v.len(),
            dv == v.deep_view(),
            dv.len() == v.len(),
            forall|k: int| 0 <= k < v.len() ==> dv[k] == v[k]@,
            forall|k: int| 0 <= k < idx ==> lex_lt(dv[k], x@),
        decreases v.len() - idx,
    {
        idx = idx + 1;
    }
    proof {
        lemma_insert_lex_at(dv, x@, idx as int);
    }
    if idx < v.len() {
        if v[idx].eq(&x) {
            return ;
        }
    }
    v.insert(idx, x);
    proof {
        assert(v.deep_view() =~~= dv.take(idx as int) + seq![x@] + dv.skip(idx as int));
    }
}

/// Whether a candidate survives the ignore rules: it is not blank, it is
/// not an exact ignore entry, and it matches every wildcard pattern.
pub open spec fn keeps(ex: Seq<Seq<char>>, wi: Seq<Seq<Seq<char>>>, c: Seq<char>) -> bool {
    &&& trim_spec(c).len() > 0
    &&& !ex.contains(c)
    &&& forall|k: int| 0 <= k < wi.len() ==> wild_match(wi[k], c)
}

/// Character-for-character equality of two strings.
pub fn str_eq(a: &str, b: &str) -> (r: bool)
    ensures
        r == (a@ == b@),
{
    let al = a.unicode_len();
    let bl = b.unicode_len();
    if al != bl {
        return false;
    }
    let mut j: usize = 0;
    while j < al
        invariant
            j <= al,
            al == a@.len(),
            al == b@.len(),
            forall|k: int| 0 <= k < j ==> a@[k] == b@[k],
        decreases al - j,
    {
        if a.get_char(j) != b.get_char(j) {
            return false;
        }
        j = j + 1;
    }
    proof {
        assert(a@ =~= b@);
    }
    true
}

/// Whether the candidate survives the given rules.
fn keep_candidate(ig: &IgnoreRules, c: &str) -> (r: bool)
    ensures
        r == keeps(ig.exacts.deep_view(), ig.wilds.deep_view(), c@),
{
    let t = trim_str(c);
    if t.as_str().unicode_len() == 0 {
        return false;
    }
    let mut i: usize = 0;
    while i < ig.exacts.len()
        invariant
            i <= ig.exacts.len(),
            ig.exacts.deep_view().len() == ig.exacts.len(),
            forall|k: int| 0 <= k < ig.exacts.len() ==> ig.exacts.deep_view()[k] == ig.exacts[k]@,
            forall|k: int| 0 <= k < i ==> ig.exacts.deep_view()[k] != c@,
        decreases ig.exacts.len() - i,
    {
        if str_eq(ig.exacts[i].as_str(), c) {
            proof {
                assert(ig.exacts.deep_view()[i as int] == c@);
                assert(ig.exacts.deep_view().contains(c@));
            }
            return false;
        }
        i = i + 1;
    }
    proof {
        assert(!ig.exacts.deep_view().contains(c@));
    }
    let mut w: usize = 0;
    while w < ig.wilds.len()
        invariant
            w <= ig.wilds.len(),
            ig.wilds.deep_view().len() == ig.wilds.len(),
            forall|k: int| 0 <= k < ig.wilds.len() ==> ig.wilds.deep_view()[k]
                == ig.wilds[k].deep_view(),
            forall|k: int| 0 <= k < w ==> wild_match(ig.wilds.deep_view()[k], c@),
            t@ == trim_spec(c@),
            t@.len() > 0,
            !ig.exacts.deep_view().contains(c@),
        decreases ig.wilds.len() - w,
    {
        let m = wild_is_match(&ig.wilds[w], c);
        if !m {
            proof {
                assert(!wild_match(ig.wilds.deep_view()[w as int], c@));
            }
            return false;
        }
        w = w + 1;
    }
    true
}

/// Candidates folded into the accumulator, keeping survivors sorted.
pub open spec fn expand_cands(
    cs: Seq<Seq<char>>,
    ex: Seq<Seq<char>>,
    wi: Seq<Seq<Seq<char>>>,
    acc: Seq<Seq<char>>,
) -> Seq<Seq<char>>
    decreases cs.len(),
{
    if cs.len() == 0 {
        acc
    } else {
        let acc2 = if keeps(ex, wi, cs[0]) {
            insert_lex(acc, cs[0])
        } else {
            acc
        };
        expand_cands(cs.drop_first(), ex, wi, acc2)
    }
}

/// The trimmed, non-empty lines of the raw target text, in order.
pub open spec fn toks_of(lines: Seq<Seq<char>>) -> Seq<Seq<char>>
    decreases lines.len(),
{
    if lines.len() == 0 {
        Seq::empty()
    } else {
        let t = trim_spec(lines[0]);
        let rest = toks_of(lines.drop_first());
        if t.len() > 0 {
            seq![t] + rest
        } else {
            rest
        }
    }
}

/// Tokens folded into the accumulator, token by token.
pub open spec fn expand_toks(
    toks: Seq<Seq<char>>,
    ex: Seq<Seq<char>>,
    wi: Seq<Seq<Seq<char>>>,
    acc: Seq<Seq<char>>,
) -> Seq<Seq<char>>
    decreases toks.len(),
{
    if toks.len() == 0 {
        acc
    } else {
        expand_toks(toks.drop_first(), ex, wi, expand_cands(gen_target_spec(toks[0]), ex, wi, acc))
    }
}

/// The full expansion of a raw target text under the ignore text.
pub open spec fn expansion_of(raw: Seq<char>, ignore: Seq<char>) -> Seq<Seq<char>> {
    expand_toks(
        toks_of(split_char(raw, '\n')),
        exacts_of(split_char(ignore, '\n')),
        wilds_of(split_char(ignore, '\n')),
        Seq::empty(),
    )
}

/// Expands the raw target text into the deduplicated, lexicographically
/// ordered list of concrete targets that survive the ignore rules.
pub fn expand_targets(raw: &str, ignore: &str) -> (r: Vec<String>)
    ensures
        r.deep_view() == expansion_of(raw@, ignore@),
{
    let ig = build_ignore(ignore);
    let ghost ex = ig.exacts.deep_view();
    let ghost wi = ig.wilds.deep_view();
    let lines = crate::ipv4::split_str(raw, '\n');
    let ghost lines_dv = lines.deep_view();
    let mut acc: Vec<String> = Vec::new();
    let mut i: usize = 0;
    proof {
        assert(lines_dv.skip(0) =~= lines_dv);
        assert(acc.deep_view() =~~= Seq::<Seq<char>>::empty());
        assert(lines_dv == split_char(raw@, '\n'));
        assert(ex == exacts_of(split_char(ignore@, '\n')));
        assert(wi == wilds_of(split_char(ignore@, '\n')));
    }
    while i < lines.len()
        invariant
            i <= lines.len(),
            lines_dv == lines.deep_view(),
            lines_dv.len() == lines.len(),
            forall|k: int| 0 <= k < lines.len() ==> lines_dv[k] == lines[k]@,
            ex == ig.exacts.deep_view(),
            wi == ig.wilds.deep_view(),
            expansion_of(raw@, ignore@) == expand_toks(
                toks_of(lines_dv.skip(i as int)),
                ex,
                wi,
                acc.deep_view(),
            ),
        decreases lines.len() - i,
    {
        let t = trim_str(lines[i].as_str());
        proof {
            assert(lines_dv.skip(i as int)[0] == lines_dv[i as int]);
            assert(lines_dv.skip(i as int).drop_first() =~= lines_dv.skip(i + 1));
        }
        if t.as_str().unicode_len() > 0 {
            let cands = gen_target(t.as_str());
            let ghost cands_dv = cands.deep_view();
            proof {
                assert(toks_of(lines_dv.skip(i as int)) =~= seq![t@] + toks_of(lines_dv.skip(
                    i + 1,
                )));
                assert((seq![t@] + toks_of(lines_dv.skip(i + 1))).drop_first() =~= toks_of(
                    lines_dv.skip(i + 1),
                ));
                assert(cands_dv.skip(0) =~= cands_dv);
            }
            let mut j: usize = 0;
            while j < cands.len()
                invariant
                    j <= cands.len(),
                    cands_dv == cands.deep_view(),
                    cands_dv.len() == cands.len(),
                    forall|k: int| 0 <= k < cands.len() ==> cands_dv[k] == cands[k]@,
                    ex == ig.exacts.deep_view(),
                    wi == ig.wilds.deep_view(),
                    expansion_of(raw@, ignore@) == expand_toks(
                        toks_of(lines_dv.skip(i + 1)),
                        ex,
                        wi,
                        expand_cands(cands_dv.skip(j as int), ex, wi, acc.deep_view()),
                    ),
                decreases cands.len() - j,
            {
                let keep = keep_candidate(&ig, cands[j].as_str());
                proof {
                    assert(cands_dv.skip(j as int)[0] == cands_dv[j as int]);
                    assert(cands_dv.skip(j as int).drop_first() =~= cands_dv.skip(j + 1));
                }
                if keep {
                    let c = cands[j].clone();
                    proof {
                        assert(c@ == cands_dv[j as int]);
                    }
                    insert_sorted(&mut acc, c);
                }
                j = j + 1;
            }
            proof {
                assert(cands_dv.skip(cands_dv.len() as int) =~= Seq::<Seq<char>>::empty());
            }
        } else {
            proof {
                assert(toks_of(lines_dv.skip(i as int)) =~= toks_of(lines_dv.skip(i + 1)));
            }
        }
        i = i + 1;
    }
    proof {
        assert(lines_dv.skip(lines_dv.len() as int) =~= Seq::<Seq<char>>::empty());
    }
    acc
}

proof fn lemma_expand_cands_sorted(
    cs: Seq<Seq<char>>,
    ex: Seq<Seq<char>>,
    wi: Seq<Seq<Seq<char>>>,
    acc: Seq<Seq<char>>,
)
    requires
        sorted_lex(acc),
    ensures
        sorted_lex(expand_cands(cs, ex, wi, acc)),
    decreases cs.len(),
{
    if cs.len() > 0 {
        if keeps(ex, wi, cs[0]) {
            lemma_insert_lex_sorted(acc, cs[0]);
            lemma_expand_cands_sorted(cs.drop_first(), ex, wi, insert_lex(acc, cs[0]));
        } else {
            lemma_expand_cands_sorted(cs.drop_first(), ex, wi, acc);
        }
    }
}

proof fn lemma_expand_toks_sorted(
    toks: Seq<Seq<char>>,
    ex: Seq<Seq<char>>,
    wi: Seq<Seq<Seq<char>>>,
    acc: Seq<Seq<char>>,
)
    requires
        sorted_lex(acc),
    ensures
        sorted_lex(expand_toks(toks, ex, wi, acc)),
    decreases toks.len(),
{
    if toks.len() > 0 {
        lemma_expand_cands_sorted(gen_target_spec(toks[0]), ex, wi, acc);
        lemma_expand_toks_sorted(
            toks.drop_first(),
            ex,
            wi,
            expand_cands(gen_target_spec(toks[0]), ex, wi, acc),
        );
    }
}

/// The expansion is strictly ascending in lexicographic order, so it is
/// deduplicated and its order owes nothing to the operator's input order.
pub proof fn lemma_expansion_sorted(raw: Seq<char>, ignore: Seq<char>)
    ensures
        sorted_lex(expansion_of(raw, ignore)),
{
    lemma_expand_toks_sorted(
        toks_of(split_char(raw, '\n')),
        exacts_of(split_char(ignore, '\n')),
        wilds_of(split_char(ignore, '\n')),
        Seq::empty(),
    );
}

/// Expansion is a pure function of the two texts: running it twice on
/// identical input yields identical output.
pub proof fn lemma_expansion_deterministic(
    a: Seq<Seq<char>>,
    b: Seq<Seq<char>>,
    raw: Seq<char>,
    ignore: Seq<char>,
)
    requires
        a == expansion_of(raw, ignore),
        b == expansion_of(raw, ignore),
    ensures
        a == b,
{
}

proof fn lemma_expand_cands_only_kept(
    cs: Seq<Seq<char>>,
    ex: Seq<Seq<char>>,
    wi: Seq<Seq<Seq<char>>>,
    acc: Seq<Seq<char>>,
    t: Seq<char>,
)
    requires
        expand_cands(cs, ex, wi, acc).contains(t),
        !acc.contains(t),
    ensures
        keeps(ex, wi, t),
    decreases cs.len(),
{
    if cs.len() == 0 {
    } else {
        if keeps(ex, wi, cs[0]) {
            let acc2 = insert_lex(acc, cs[0]);
            if acc2.contains(t) {
                lemma_insert_lex_contains(acc, cs[0], t);
            } else {
                lemma_expand_cands_only_kept(cs.drop_first(), ex, wi, acc2, t);
            }
        } else {
            lemma_expand_cands_only_kept(cs.drop_first(), ex, wi, acc, t);
        }
    }
}

proof fn lemma_expand_toks_only_kept(
    toks: Seq<Seq<char>>,
    ex: Seq<Seq<char>>,
    wi: Seq<Seq<Seq<char>>>,
    acc: Seq<Seq<char>>,
    t: Seq<char>,
)
    requires
        expand_toks(toks, ex, wi, acc).contains(t),
        !acc.contains(t),
    ensures
        keeps(ex, wi, t),
    decreases toks.len(),
{
    if toks.len() == 0 {
    } else {
        let acc2 = expand_cands(gen_target_spec(toks[0]), ex, wi, acc);
        if acc2.contains(t) {
            lemma_expand_cands_only_kept(gen_target_spec(toks[0]), ex, wi, acc, t);
        } else {
            lemma_expand_toks_only_kept(toks.drop_first(), ex, wi, acc2, t);
        }
    }
}

proof fn lemma_expand_cands_mono(
    cs: Seq<Seq<char>>,
    ex: Seq<Seq<char>>,
    wi: Seq<Seq<Seq<char>>>,
    acc: Seq<Seq<char>>,
    t: Seq<char>,
)
    requires
        acc.contains(t),
    ensures
        expand_cands(cs, ex, wi, acc).contains(t),
    decreases cs.len(),
{
    if cs.len() > 0 {
        if keeps(ex, wi, cs[0]) {
            lemma_insert_lex_contains(acc, cs[0], t);
            lemma_expand_cands_mono(cs.drop_first(), ex, wi, insert_lex(acc, cs[0]), t);
        } else {
            lemma_expand_cands_mono(cs.drop_first(), ex, wi, acc, t);
        }
    }
}

proof fn lemma_expand_toks_mono(
    toks: Seq<Seq<char>>,
    ex: Seq<Seq<char>>,
    wi: Seq<Seq<Seq<char>>>,
    acc: Seq<Seq<char>>,
    t: Seq<char>,
)
    requires
        acc.contains(t),
    ensures
        expand_toks(toks, ex, wi, acc).contains(t),
    decreases toks.len(),
{
    if toks.len() > 0 {
        lemma_expand_cands_mono(gen_target_spec(toks[0]), ex, wi, acc, t);
        lemma_expand_toks_mono(
            toks.drop_first(),
            ex,
            wi,
            expand_cands(gen_target_spec(toks[0]), ex, wi, acc),
            t,
        );
    }
}

proof fn lemma_expand_cands_adds(
    cs: Seq<Seq<char>>,
    ex: Seq<Seq<char>>,
    wi: Seq<Seq<Seq<char>>>,
    acc: Seq<Seq<char>>,
    t: Seq<char>,
)
    requires
        cs.contains(t),
        keeps(ex, wi, t),
    ensures
        expand_cands(cs, ex, wi, acc).contains(t),
    decreases cs.len(),
{
    if cs[0] == t {
        lemma_insert_lex_contains(acc, t, t);
        lemma_expand_cands_mono(cs.drop_first(), ex, wi, insert_lex(acc, t), t);
    } else {
        let j = choose|j: int| 0 <= j < cs.len() && cs[j] == t;
        assert(cs.drop_first()[j - 1] == t);
        assert(cs.drop_first().contains(t));
        if keeps(ex, wi, cs[0]) {
            lemma_expand_cands_adds(cs.drop_first(), ex, wi, insert_lex(acc, cs[0]), t);
        } else {
            lemma_expand_cands_adds(cs.drop_first(), ex, wi, acc, t);
        }
    }
}

proof fn lemma_expand_toks_covers(
    toks: Seq<Seq<char>>,
    ex: Seq<Seq<char>>,
    wi: Seq<Seq<Seq<char>>>,
    acc: Seq<Seq<char>>,
    t: Seq<char>,
    k: int,
)
    requires
        0 <= k < toks.len(),
        gen_target_spec(toks[k]).contains(t),
        keeps(ex, wi, t),
    ensures
        expand_toks(toks, ex, wi, acc).contains(t),
    decreases toks.len(),
{
    let acc2 = expand_cands(gen_target_spec(toks[0]), ex, wi, acc);
    if k == 0 {
        lemma_expand_cands_adds(gen_target_spec(toks[0]), ex, wi, acc, t);
        lemma_expand_toks_mono(toks.drop_first(), ex, wi, acc2, t);
    } else {
        assert(toks.drop_first()[k - 1] == toks[k]);
        lemma_expand_toks_covers(toks.drop_first(), ex, wi, acc2, t, k - 1);
    }
}

proof fn lemma_expand_cands_source(
    cs: Seq<Seq<char>>,
    ex: Seq<Seq<char>>,
    wi: Seq<Seq<Seq<char>>>,
    acc: Seq<Seq<char>>,
    t: Seq<char>,
)
    requires
        expand_cands(cs, ex, wi, acc).contains(t),
    ensures
        acc.contains(t) || cs.contains(t),
    decreases cs.len(),
{
    if cs.len() > 0 {
        let acc2 = if keeps(ex, wi, cs[0]) {
            insert_lex(acc, cs[0])
        } else {
            acc
        };
        lemma_expand_cands_source(cs.drop_first(), ex, wi, acc2, t);
        if acc2.contains(t) && !acc.contains(t) {
            if keeps(ex, wi, cs[0]) {
                lemma_insert_lex_contains(acc, cs[0], t);
            }
        }
        if cs.drop_first().contains(t) {
            let j = choose|j: int| 0 <= j < cs.drop_first().len() && cs.drop_first()[j] == t;
            assert(cs[j + 1] == t);
        }
    }
}

proof fn lemma_expand_toks_source(
    toks: Seq<Seq<char>>,
    ex: Seq<Seq<char>>,
    wi: Seq<Seq<Seq<char>>>,
    acc: Seq<Seq<char>>,
    t: Seq<char>,
)
    requires
        expand_toks(toks, ex, wi, acc).contains(t),
    ensures
        acc.contains(t) || exists|k: int|
            0 <= k < toks.len() && gen_target_spec(toks[k]).contains(t),
    decreases toks.len(),
{
    if toks.len() > 0 {
        let acc2 = expand_cands(gen_target_spec(toks[0]), ex, wi, acc);
        lemma_expand_toks_source(toks.drop_first(), ex, wi, acc2, t);
        if acc2.contains(t) {
            lemma_expand_cands_source(gen_target_spec(toks[0]), ex, wi, acc, t);
            if gen_target_spec(toks[0]).contains(t) {
                assert(0 <= 0 < toks.len() && gen_target_spec(toks[0]).contains(t));
            }
        } else {
            if exists|k: int|
                0 <= k < toks.drop_first().len() && gen_target_spec(
                    toks.drop_first()[k],
                ).contains(t) {
                let k = choose|k: int|
                    0 <= k < toks.drop_first().len() && gen_target_spec(
                        toks.drop_first()[k],
                    ).contains(t);
                assert(toks[k + 1] == toks.drop_first()[k]);
                assert(gen_target_spec(toks[k + 1]).contains(t));
            }
        }
    }
}

/// Membership of the expansion: a target is in the result exactly when
/// some raw token generates it and it survives the ignore rules.
pub proof fn lemma_expansion_membership(raw: Seq<char>, ignore: Seq<char>, t: Seq<char>)
    ensures
        expansion_of(raw, ignore).contains(t) <==> ((exists|k: int|
            0 <= k < toks_of(split_char(raw, '\n')).len() && gen_target_spec(
                toks_of(split_char(raw, '\n'))[k],
            ).contains(t)) && keeps(
            exacts_of(split_char(ignore, '\n')),
            wilds_of(split_char(ignore, '\n')),
            t,
        )),
{
    let toks = toks_of(split_char(raw, '\n'));
    let ex = exacts_of(split_char(ignore, '\n'));
    let wi = wilds_of(split_char(ignore, '\n'));
    if expansion_of(raw, ignore).contains(t) {
        lemma_expand_toks_source(toks, ex, wi, Seq::empty(), t);
        lemma_expand_toks_only_kept(toks, ex, wi, Seq::empty(), t);
    }
    if (exists|k: int| 0 <= k < toks.len() && gen_target_spec(toks[k]).contains(t)) && keeps(
        ex,
        wi,
        t,
    ) {
        let k = choose|k: int| 0 <= k < toks.len() && gen_target_spec(toks[k]).contains(t);
        lemma_expand_toks_covers(toks, ex, wi, Seq::empty(), t, k);
    }
}

proof fn lemma_empty_ignore()
    ensures
        exacts_of(split_char(Seq::<char>::empty(), '\n')) == Seq::<Seq<char>>::empty(),
        wilds_of(split_char(Seq::<char>::empty(), '\n')) == Seq::<Seq<Seq<char>>>::empty(),
{
    let lines = split_char(Seq::<char>::empty(), '\n');
    assert(lines =~= seq![Seq::<char>::empty()]);
    assert(lines[0] =~= Seq::<char>::empty());
    assert(crate::ignore::remove_all_spec(Seq::<char>::empty(), crate::ignore::scheme_http())
        == Seq::<char>::empty());
    assert(crate::ignore::remove_all_spec(Seq::<char>::empty(), crate::ignore::scheme_https())
        == Seq::<char>::empty());
    assert(trim_spec(Seq::<char>::empty()) =~= Seq::<char>::empty());
    assert(crate::ignore::processed_line(lines[0]).len() == 0);
    assert(lines.drop_first() =~= Seq::<Seq<char>>::empty());
    assert(exacts_of(lines) == exacts_of(lines.drop_first()));
    assert(exacts_of(Seq::<Seq<char>>::empty()) == Seq::<Seq<char>>::empty());
    assert(wilds_of(lines) == wilds_of(lines.drop_first()));
    assert(wilds_of(Seq::<Seq<char>>::empty()) == Seq::<Seq<Seq<char>>>::empty());
}

proof fn lemma_toks_trimmed(lines: Seq<Seq<char>>, t: Seq<char>)
    requires
        toks_of(lines).contains(t),
    ensures
        t.len() > 0,
        trim_spec(t) == t,
    decreases lines.len(),
{
    if lines.len() > 0 {
        let tr = trim_spec(lines[0]);
        let rest = toks_of(lines.drop_first());
        if tr.len() > 0 {
            lemma_cons_contains(tr, rest, t);
            if t == tr {
                crate::strutil::lemma_trim_idempotent(lines[0]);
            } else {
                lemma_toks_trimmed(lines.drop_first(), t);
            }
        } else {
            lemma_toks_trimmed(lines.drop_first(), t);
        }
    }
}

/// With only opaque (URL) tokens and no ignore rules, the expansion is
/// exactly the deduplicated, lexicographically sorted set of the tokens:
/// it holds a target if and only if some trimmed non-empty input line is
/// that target.
pub proof fn lemma_opaque_only_expansion(raw: Seq<char>, t: Seq<char>)
    requires
        forall|k: int|
            0 <= k < toks_of(split_char(raw, '\n')).len() ==> contains_seq(
                #[trigger] toks_of(split_char(raw, '\n'))[k],
                scheme_sep(),
            ),
    ensures
        expansion_of(raw, Seq::empty()).contains(t) <==> toks_of(split_char(raw, '\n')).contains(
            t,
        ),
        sorted_lex(expansion_of(raw, Seq::empty())),
{
    lemma_empty_ignore();
    lemma_expansion_membership(raw, Seq::empty(), t);
    lemma_expansion_sorted(raw, Seq::empty());
    let toks = toks_of(split_char(raw, '\n'));
    let ex = exacts_of(split_char(Seq::<char>::empty(), '\n'));
    let wi = wilds_of(split_char(Seq::<char>::empty(), '\n'));
    if expansion_of(raw, Seq::empty()).contains(t) {
        let k = choose|k: int| 0 <= k < toks.len() && gen_target_spec(toks[k]).contains(t);
        assert(gen_target_spec(toks[k]) == seq![toks[k]]);
        let j = choose|j: int| 0 <= j < 1 && seq![toks[k]][j] == t;
        assert(t == toks[k]);
        assert(toks.contains(t));
    }
    if toks.contains(t) {
        let k = choose|k: int| 0 <= k < toks.len() && toks[k] == t;
        assert(gen_target_spec(toks[k]) == seq![t]);
        assert(seq![t][0] == t);
        assert(gen_target_spec(toks[k]).contains(t));
        lemma_toks_trimmed(split_char(raw, '\n'), t);
        assert(keeps(ex, wi, t));
        assert(expansion_of(raw, Seq::empty()).contains(t));
    }
}

/// A target that stands verbatim in the exact ignore entries (after
/// scheme stripping and trimming of the rule line) never appears in the
/// expansion.
pub proof fn lemma_exact_ignore_excluded(raw: Seq<char>, ignore: Seq<char>, t: Seq<char>)
    requires
        exacts_of(split_char(ignore, '\n')).contains(t),
    ensures
        !expansion_of(raw, ignore).contains(t),
{
    if expansion_of(raw, ignore).contains(t) {
        lemma_expand_toks_only_kept(
            toks_of(split_char(raw, '\n')),
            exacts_of(split_char(ignore, '\n')),
            wilds_of(split_char(ignore, '\n')),
            Seq::empty(),
            t,
        );
        assert(!exacts_of(split_char(ignore, '\n')).contains(t));
    }
}

} // verus!
