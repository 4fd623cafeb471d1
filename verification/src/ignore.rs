//! Ignore rules: per line, `http://` and `https://` prefixes are removed
//! wherever they occur, the line is trimmed, and a line containing `*`
//! becomes a wildcard pattern while any other non-empty line is an exact
//! entry.
use crate::ipv4::{index_of_first, split_char, split_str};
use crate::strutil::{push_char, trim_spec, trim_str};
use vstd::prelude::*;

verus! {

pub open spec fn scheme_http() -> Seq<char> {
    seq!['h', 't', 't', 'p', ':', '/', '/']
}

pub open spec fn scheme_https() -> Seq<char> {
    seq!['h', 't', 't', 'p', 's', ':', '/', '/']
}

/// `s` with every occurrence of `pat` removed, scanning left to right
/// without overlap.
pub open spec fn remove_all_spec(s: Seq<char>, pat: Seq<char>) -> Seq<char>
    decreases s.len(),
{
    if pat.len() == 0 || s.len() == 0 {
        s
    } else if s.len() >= pat.len() && s.take(pat.len() as int) == pat {
        remove_all_spec(s.skip(pat.len() as int), pat)
    } else {
        seq![s[0]] + remove_all_spec(s.drop_first(), pat)
    }
}

/// Whether `pat` occurs in `s` starting at `i`.
fn matches_at(s: &str, i: usize, pat: &str) -> (r: bool)
    requires
        i <= s@.len(),
    ensures
        r == (i + pat@.len() <= s@.len() && s@.skip(i as int).take(pat@.len() as int) == pat@),
{
    let slen = s.unicode_len();
    let plen = pat.unicode_len();
    if plen > slen - i {
        proof {
            assert(i + pat@.len() > s@.len());
        }
        return false;
    }
    let mut j: usize = 0;
    let mut hit = true;
    while hit && j < plen
        invariant
            j <= plen,
            i + plen <= slen,
            slen == s@.len(),
            plen == pat@.len(),
            hit ==> forall|k: int| 0 <= k < j ==> s@[i + k] == pat@[k],
            !hit ==> s@.skip(i as int).take(plen as int) != pat@,
        decreases (if hit { 1int } else { 0int }), plen - j,
    {
        if s.get_char(i + j) != pat.get_char(j) {
            proof {
                assert(s@.skip(i as int).take(plen as int)[j as int] == s@[i + j]);
            }
            hit = false;
        } else {
            j = j + 1;
        }
    }
    if hit {
        proof {
            assert(s@.skip(i as int).take(plen as int) =~= pat@);
        }
    }
    hit
}

/// Removes every occurrence of `pat` from `s`, scanning left to right.
pub fn remove_all_str(s: &str, pat: &str) -> (r: String)
    ensures
        r@ == remove_all_spec(s@, pat@),
{
    let slen = s.unicode_len();
    let plen = pat.unicode_len();
    if plen == 0 {
        return s.to_owned();
    }
    let mut out = String::new();
    let mut i: usize = 0;
    proof {
        assert(s@.skip(0) =~= s@);
        assert(Seq::<char>::empty() + remove_all_spec(s@, pat@) =~= remove_all_spec(s@, pat@));
    }
    while i < slen
        invariant
            i <= slen,
            slen == s@.len(),
            plen == pat@.len(),
            plen >= 1,
            remove_all_spec(s@, pat@) == out@ + remove_all_spec(s@.skip(i as int), pat@),
        decreases slen - i,
    {
        if matches_at(s, i, pat) {
            proof {
                let u = s@.skip(i as int);
                assert(u.take(plen as int) == pat@);
                assert(u.skip(plen as int) =~= s@.skip(i + plen));
                assert(remove_all_spec(u, pat@) == remove_all_spec(s@.skip(i + plen), pat@));
            }
            i = i + plen;
        } else {
            let c = s.get_char(i);
            push_char(&mut out, c);
            proof {
                let u = s@.skip(i as int);
                assert(u[0] == s@[i as int]);
                if u.len() >= plen {
                    assert(u.take(plen as int) != pat@);
                }
                assert(u.drop_first() =~= s@.skip(i + 1));
                assert(remove_all_spec(u, pat@) == seq![s@[i as int]] + remove_all_spec(
                    s@.skip(i + 1),
                    pat@,
                ));
                assert(out@ + remove_all_spec(s@.skip(i + 1), pat@) =~= remove_all_spec(s@, pat@));
            }
            i = i + 1;
        }
    }
    proof {
        assert(s@.skip(slen as int) =~= Seq::<char>::empty());
        assert(out@ + Seq::<char>::empty() =~= out@);
    }
    out
}

/// One ignore line after scheme removal and trimming.
pub open spec fn processed_line(l: Seq<char>) -> Seq<char> {
    trim_spec(remove_all_spec(remove_all_spec(l, scheme_http()), scheme_https()))
}

/// The exact-match entries of the ignore lines, in order.
pub open spec fn exacts_of(lines: Seq<Seq<char>>) -> Seq<Seq<char>>
    decreases lines.len(),
{
    if lines.len() == 0 {
        Seq::empty()
    } else {
        let t = processed_line(lines[0]);
        let rest = exacts_of(lines.drop_first());
        if t.len() > 0 && index_of_first(t, '*') < 0 {
            seq![t] + rest
        } else {
            rest
        }
    }
}

/// The wildcard patterns of the ignore lines (their `*`-separated literal
/// segments), in order.
pub open spec fn wilds_of(lines: Seq<Seq<char>>) -> Seq<Seq<Seq<char>>>
    decreases lines.len(),
{
    if lines.len() == 0 {
        Seq::empty()
    } else {
        let t = processed_line(lines[0]);
        let rest = wilds_of(lines.drop_first());
        if t.len() > 0 && index_of_first(t, '*') >= 0 {
            seq![split_char(t, '*')] + rest
        } else {
            rest
        }
    }
}

/// Compiled ignore rules: exact entries and wildcard patterns.
pub struct IgnoreRules {
    pub exacts: Vec<String>,
    pub wilds: Vec<Vec<String>>,
}

impl IgnoreRules {
    /// The rules hold exactly what the ignore text prescribes.
    pub open spec fn matches_text(&self, ignore: Seq<char>) -> bool {
        &&& self.exacts.deep_view() == exacts_of(split_char(ignore, '\n'))
        &&& self.wilds.deep_view() == wilds_of(split_char(ignore, '\n'))
    }
}

/// Compiles the ignore text into exact entries and wildcard patterns.
pub fn build_ignore(ignore: &str) -> (r: IgnoreRules)
    ensures
        r.matches_text(ignore@),
{
    let lines = split_str(ignore, '\n');
    let ghost lines_dv = lines.deep_view();
    let mut exacts: Vec<String> = Vec::new();
    let mut wilds: Vec<Vec<String>> = Vec::new();
    let mut i: usize = 0;
    proof {
        assert(lines_dv.skip(0) =~= lines_dv);
        assert(exacts.deep_view() + exacts_of(lines_dv) =~~= exacts_of(lines_dv));
        assert(wilds.deep_view() + wilds_of(lines_dv) =~~= wilds_of(lines_dv));
    }
    while i < lines.len()
        invariant
            i <= lines.len(),
            lines_dv == lines.deep_view(),
            lines_dv.len() == lines.len(),
            forall|k: int| 0 <= k < lines.len() ==> lines_dv[k] == lines[k]@,
            exacts_of(lines_dv) == exacts.deep_view() + exacts_of(lines_dv.skip(i as int)),
            wilds_of(lines_dv) == wilds.deep_view() + wilds_of(lines_dv.skip(i as int)),
        decreases lines.len() - i,
    {
        let stripped1 = remove_all_str(lines[i].as_str(), "http://");
        let stripped2 = remove_all_str(stripped1.as_str(), "https://");
        let t = trim_str(stripped2.as_str());
        proof {
            reveal_strlit("http://");
            reveal_strlit("https://");
            assert("http://"@ =~= scheme_http());
            assert("https://"@ =~= scheme_https());
            assert(lines_dv.skip(i as int)[0] == lines_dv[i as int]);
            assert(lines_dv.skip(i as int).drop_first() =~= lines_dv.skip(i + 1));
            assert(t@ == processed_line(lines_dv[i as int]));
        }
        let tlen = t.as_str().unicode_len();
        if tlen > 0 {
            let star = crate::ipv4::find_char(t.as_str(), '*');
            match star {
                Some(_) => {
                    let segs = split_str(t.as_str(), '*');
                    let ghost old_wdv = wilds.deep_view();
                    wilds.push(segs);
                    proof {
                        assert(wilds.deep_view() =~~= old_wdv.push(split_char(
                            processed_line(lines_dv[i as int]),
                            '*',
                        )));
                        assert(wilds.deep_view() + wilds_of(lines_dv.skip(i + 1)) =~~= wilds_of(
                            lines_dv,
                        ));
                        assert(exacts.deep_view() + exacts_of(lines_dv.skip(i + 1)) =~~= exacts_of(
                            lines_dv,
                        ));
                    }
                },
                None => {
                    let ghost old_edv = exacts.deep_view();
                    exacts.push(t);
                    proof {
                        assert(exacts.deep_view() =~~= old_edv.push(processed_line(
                            lines_dv[i as int],
                        )));
                        assert(exacts.deep_view() + exacts_of(lines_dv.skip(i + 1)) =~~= exacts_of(
                            lines_dv,
                        ));
                        assert(wilds.deep_view() + wilds_of(lines_dv.skip(i + 1)) =~~= wilds_of(
                            lines_dv,
                        ));
                    }
                },
            }
        } else {
            proof {
                assert(exacts.deep_view() + exacts_of(lines_dv.skip(i + 1)) =~~= exacts_of(
                    lines_dv,
                ));
                assert(wilds.deep_view() + wilds_of(lines_dv.skip(i + 1)) =~~= wilds_of(lines_dv));
            }
        }
        i = i + 1;
    }
    proof {
        assert(lines_dv.skip(lines_dv.len() as int) =~= Seq::<Seq<char>>::empty());
        assert(exacts.deep_view() + Seq::<Seq<char>>::empty() =~~= exacts.deep_view());
        assert(wilds.deep_view() + Seq::<Seq<Seq<char>>>::empty() =~~= wilds.deep_view());
    }
    IgnoreRules { exacts, wilds }
}

} // verus!
