//! Wildcard ignore patterns: a pattern is a list of literal segments that
//! were separated by `*` in the rule line; a string matches when the
//! segments occur in order, anywhere in the string (an unanchored search).
use crate::strutil::lex_lt;
use vstd::prelude::*;

verus! {

/// `pat` occurs in `s` starting at position `i`.
pub open spec fn occurs_at(s: Seq<char>, pat: Seq<char>, i: int) -> bool {
    0 <= i && i + pat.len() <= s.len() && s.subrange(i, i + pat.len()) == pat
}

/// The segments occur in order, each at or after the end of the previous one.
pub open spec fn wild_match(segs: Seq<Seq<char>>, s: Seq<char>) -> bool
    decreases segs.len(),
{
    if segs.len() == 0 {
        true
    } else {
        exists|i: int|
            occurs_at(s, segs[0], i) && wild_match(segs.drop_first(), s.skip(i + segs[0].len()))
    }
}

/// Matching a suffix implies matching any longer suffix.
proof fn lemma_wild_match_skip_mono(segs: Seq<Seq<char>>, s: Seq<char>, i: int, j: int)
    requires
        0 <= i <= j <= s.len(),
        wild_match(segs, s.skip(j)),
    ensures
        wild_match(segs, s.skip(i)),
    decreases segs.len(),
{
    if segs.len() > 0 {
        let k = choose|k: int|
            occurs_at(s.skip(j), segs[0], k) && wild_match(
                segs.drop_first(),
                s.skip(j).skip(k + segs[0].len()),
            );
        let k2 = k + (j - i);
        assert(s.skip(i).subrange(k2, k2 + segs[0].len()) =~= s.skip(j).subrange(
            k,
            k + segs[0].len(),
        ));
        assert(s.skip(j).skip(k + segs[0].len()) =~= s.skip(i).skip(k2 + segs[0].len()));
        assert(occurs_at(s.skip(i), segs[0], k2));
    }
}

/// Finds the first occurrence of `pat` in `s` at or after `from`.
pub fn find_from(s: &str, from: usize, pat: &str) -> (r: Option<usize>)
    requires
        from <= s@.len(),
    ensures
        match r {
            Some(i) => from <= i && occurs_at(s@, pat@, i as int) && forall|k: int|
                from <= k < i ==> !occurs_at(s@, pat@, k),
            None => forall|k: int| from <= k ==> !occurs_at(s@, pat@, k),
        },
{
    let slen = s.unicode_len();
    let plen = pat.unicode_len();
    if plen == 0 {
        proof {
            assert(s@.subrange(from as int, from as int) =~= pat@);
        }
        return Some(from);
    }
    if plen > slen - from {
        proof {
            assert(forall|k: int| from <= k ==> !occurs_at(s@, pat@, k));
        }
        return None;
    }
    let mut i: usize = from;
    while i <= slen - plen
        invariant
            from <= i,
            1 <= plen <= slen,
            i <= slen - plen + 1,
            slen == s@.len(),
            plen == pat@.len(),
            forall|k: int| from <= k < i ==> !occurs_at(s@, pat@, k),
        decreases slen - i,
    {
        let mut j: usize = 0;
        let mut hit = true;
        while hit && j < plen
            invariant
                j <= plen,
                i + plen <= slen,
                slen == s@.len(),
                plen == pat@.len(),
                hit ==> forall|k: int| 0 <= k < j ==> s@[i + k] == pat@[k],
                !hit ==> s@.subrange(i as int, i + plen) != pat@,
            decreases (if hit { 1int } else { 0int }), plen - j,
        {
            if s.get_char(i + j) != pat.get_char(j) {
                proof {
                    assert(s@.subrange(i as int, i + plen)[j as int] != pat@[j as int]);
                }
                hit = false;
            } else {
                j = j + 1;
            }
        }
        if hit {
            proof {
                assert(s@.subrange(i as int, i + plen) =~= pat@);
            }
            return Some(i);
        }
        proof {
            assert(!occurs_at(s@, pat@, i as int));
        }
        i = i + 1;
    }
    proof {
        assert(forall|k: int| from <= k ==> !occurs_at(s@, pat@, k)) by {
            assert(forall|k: int| k > s@.len() - pat@.len() ==> !occurs_at(s@, pat@, k));
        }
    }
    None
}

/// Whether `s` matches the wildcard pattern given by `segs` — the segments
/// occur in order, anywhere in `s`.
pub fn wild_is_match(segs: &Vec<String>, s: &str) -> (r: bool)
    ensures
        r == wild_match(segs.deep_view(), s@),
{
    let slen = s.unicode_len();
    let mut pos: usize = 0;
    let mut si: usize = 0;
    proof {
        assert(segs.deep_view().skip(0) =~= segs.deep_view());
        assert(s@.skip(0) =~= s@);
    }
    loop
        invariant
            si <= segs.len(),
            pos <= slen,
            slen == s@.len(),
            segs.deep_view().len() == segs.len(),
            forall|k: int| 0 <= k < segs.len() ==> segs.deep_view()[k] == segs[k]@,
            wild_match(segs.deep_view(), s@) == wild_match(
                segs.deep_view().skip(si as int),
                s@.skip(pos as int),
            ),
        decreases segs.len() - si,
    {
        if si >= segs.len() {
            return true;
        }
        let seg: &String = &segs[si];
        let rest = s.substring_char(pos, slen);
        let found = find_from(rest, 0, seg.as_str());
        proof {
            assert(rest@ =~= s@.skip(pos as int));
        }
        match found {
            None => {
                proof {
                    let tail = segs.deep_view().skip(si as int);
                    assert(tail[0] == seg@);
                    assert(!wild_match(tail, s@.skip(pos as int)));
                }
                return false;
            },
            Some(i) => {
                let seglen = seg.as_str().unicode_len();
                proof {
                    let tail = segs.deep_view().skip(si as int);
                    let rem = s@.skip(pos as int);
                    assert(tail[0] == seg@);
                    assert(tail.drop_first() =~= segs.deep_view().skip(si + 1));
                    // greedy step keeps matchability in both directions
                    if wild_match(tail, rem) {
                        let w = choose|w: int|
                            occurs_at(rem, tail[0], w) && wild_match(
                                tail.drop_first(),
                                rem.skip(w + tail[0].len()),
                            );
                        assert(i <= w);
                        lemma_wild_match_skip_mono(
                            tail.drop_first(),
                            rem,
                            i + seg@.len() as int,
                            w + seg@.len() as int,
                        );
                    }
                    if wild_match(tail.drop_first(), rem.skip(i + seg@.len())) {
                        assert(occurs_at(rem, tail[0], i as int));
                    }
                    assert(rem.skip(i + seg@.len()) =~= s@.skip(pos + i + seg@.len()));
                }
                pos = pos + i + seglen;
                si = si + 1;
            },
        }
    }
}

} // verus!
