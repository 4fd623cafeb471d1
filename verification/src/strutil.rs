//! Character-sequence utilities: lexicographic order, trimming and
//! removal of fixed patterns.
use vstd::prelude::*;

verus! {

/// Whitespace stripped from the ends of a line: the characters with the
/// Unicode White_Space property, as std's trim removes them.
pub open spec fn is_space_char(c: char) -> bool {
    ||| c == '\t'
    ||| c == '\n'
    ||| c == '\u{b}'
    ||| c == '\u{c}'
    ||| c == '\r'
    ||| c == ' '
    ||| c == '\u{85}'
    ||| c == '\u{a0}'
    ||| c == '\u{1680}'
    ||| ('\u{2000}' <= c && c <= '\u{200a}')
    ||| c == '\u{2028}'
    ||| c == '\u{2029}'
    ||| c == '\u{202f}'
    ||| c == '\u{205f}'
    ||| c == '\u{3000}'
}

/// Strict lexicographic order on character sequences, by code point.
pub open spec fn lex_lt(a: Seq<char>, b: Seq<char>) -> bool
    decreases a.len(),
{
    if b.len() == 0 {
        false
    } else if a.len() == 0 {
        true
    } else if (a[0] as u32) < (b[0] as u32) {
        true
    } else if (a[0] as u32) > (b[0] as u32) {
        false
    } else {
        lex_lt(a.drop_first(), b.drop_first())
    }
}

pub proof fn lemma_lex_irreflexive(a: Seq<char>)
    ensures
        !lex_lt(a, a),
    decreases a.len(),
{
    if a.len() > 0 {
        lemma_lex_irreflexive(a.drop_first());
    }
}

pub proof fn lemma_lex_transitive(a: Seq<char>, b: Seq<char>, c: Seq<char>)
    requires
        lex_lt(a, b),
        lex_lt(b, c),
    ensures
        lex_lt(a, c),
    decreases a.len(),
{
    if a.len() > 0 && b.len() > 0 && c.len() > 0 {
        if (a[0] as u32) == (b[0] as u32) && (b[0] as u32) == (c[0] as u32) {
            lemma_lex_transitive(a.drop_first(), b.drop_first(), c.drop_first());
        }
    }
}

/// Characters with the same code point are the same character.
pub proof fn lemma_char_code_eq(x: char, y: char)
    requires
        x as u32 == y as u32,
    ensures
        x == y,
{
}

pub proof fn lemma_lex_connected(a: Seq<char>, b: Seq<char>)
    requires
        !lex_lt(a, b),
        !lex_lt(b, a),
    ensures
        a == b,
    decreases a.len(),
{
    if a.len() == 0 || b.len() == 0 {
        assert(a =~= b);
    } else {
        if (a[0] as u32) < (b[0] as u32) {
            assert(lex_lt(a, b));
        }
        if (b[0] as u32) < (a[0] as u32) {
            assert(lex_lt(b, a));
        }
        assert((a[0] as u32) == (b[0] as u32));
        lemma_char_code_eq(a[0], b[0]);
        lemma_lex_connected(a.drop_first(), b.drop_first());
        assert(a =~= seq![a[0]] + a.drop_first());
        assert(b =~= seq![b[0]] + b.drop_first());
    }
}

/// Executable strict lexicographic comparison of two strings.
pub fn str_lt(a: &str, b: &str) -> (r: bool)
    ensures
        r == lex_lt(a@, b@),
{
    let alen = a.unicode_len();
    let blen = b.unicode_len();
    let mut i: usize = 0;
    proof {
        assert(a@.skip(0) =~= a@);
        assert(b@.skip(0) =~= b@);
    }
    loop
        invariant
            i <= alen,
            i <= blen,
            alen == a@.len(),
            blen == b@.len(),
            lex_lt(a@, b@) == lex_lt(a@.skip(i as int), b@.skip(i as int)),
        decreases alen - i,
    {
        if i >= alen {
            return alen < blen;
        }
        if i >= blen {
            return false;
        }
        let ca = a.get_char(i);
        let cb = b.get_char(i);
        if (ca as u32) < (cb as u32) {
            return true;
        }
        if (ca as u32) > (cb as u32) {
            return false;
        }
        proof {
            assert(a@.skip(i as int).drop_first() =~= a@.skip(i + 1));
            assert(b@.skip(i as int).drop_first() =~= b@.skip(i + 1));
        }
        i = i + 1;
    }
}

/// Count of leading whitespace characters.
pub open spec fn first_non_space(s: Seq<char>) -> nat
    decreases s.len(),
{
    if s.len() == 0 {
        0
    } else if !is_space_char(s[0]) {
        0
    } else {
        1 + first_non_space(s.drop_first())
    }
}

/// Index one past the last non-space character, or 0 if all spaces.
pub open spec fn last_non_space_end(s: Seq<char>) -> nat
    decreases s.len(),
{
    if s.len() == 0 {
        0
    } else if !is_space_char(s[s.len() - 1]) {
        s.len()
    } else {
        last_non_space_end(s.drop_last())
    }
}

proof fn lemma_fns_le_len(s: Seq<char>)
    ensures
        first_non_space(s) <= s.len(),
    decreases s.len(),
{
    if s.len() > 0 && is_space_char(s[0]) {
        lemma_fns_le_len(s.drop_first());
    }
}

proof fn lemma_lns_le_len(s: Seq<char>)
    ensures
        last_non_space_end(s) <= s.len(),
    decreases s.len(),
{
    if s.len() > 0 && is_space_char(s[s.len() - 1]) {
        lemma_lns_le_len(s.drop_last());
    }
}

proof fn lemma_fns_at(s: Seq<char>, i: int)
    requires
        0 <= i < s.len(),
        forall|k: int| 0 <= k < i ==> is_space_char(s[k]),
        !is_space_char(s[i]),
    ensures
        first_non_space(s) == i,
    decreases s.len(),
{
    if i > 0 {
        assert(forall|k: int| 0 <= k < i - 1 ==> s.drop_first()[k] == s[k + 1]);
        assert(s.drop_first()[i - 1] == s[i]);
        lemma_fns_at(s.drop_first(), i - 1);
    }
}

proof fn lemma_fns_all(s: Seq<char>)
    requires
        forall|k: int| 0 <= k < s.len() ==> is_space_char(s[k]),
    ensures
        first_non_space(s) == s.len(),
    decreases s.len(),
{
    if s.len() > 0 {
        assert(forall|k: int|
            0 <= k < s.drop_first().len() ==> s.drop_first()[k] == s[k + 1]);
        lemma_fns_all(s.drop_first());
    }
}

proof fn lemma_lns_at(s: Seq<char>, h: int)
    requires
        0 < h <= s.len(),
        !is_space_char(s[h - 1]),
        forall|k: int| h <= k < s.len() ==> is_space_char(s[k]),
    ensures
        last_non_space_end(s) == h,
    decreases s.len(),
{
    if h < s.len() {
        assert(forall|k: int|
            0 <= k < s.drop_last().len() ==> s.drop_last()[k] == s[k]);
        lemma_lns_at(s.drop_last(), h);
    }
}

proof fn lemma_lns_all(s: Seq<char>)
    requires
        forall|k: int| 0 <= k < s.len() ==> is_space_char(s[k]),
    ensures
        last_non_space_end(s) == 0,
    decreases s.len(),
{
    if s.len() > 0 {
        assert(forall|k: int|
            0 <= k < s.drop_last().len() ==> s.drop_last()[k] == s[k]);
        lemma_lns_all(s.drop_last());
    }
}

proof fn lemma_fns_char(s: Seq<char>)
    ensures
        first_non_space(s) < s.len() ==> !is_space_char(s[first_non_space(s) as int]),
    decreases s.len(),
{
    if s.len() > 0 && is_space_char(s[0]) {
        lemma_fns_char(s.drop_first());
        lemma_fns_le_len(s.drop_first());
        if first_non_space(s) < s.len() {
            assert(s.drop_first()[first_non_space(s.drop_first()) as int] == s[first_non_space(
                s,
            ) as int]);
        }
    }
}

proof fn lemma_lns_char(s: Seq<char>)
    ensures
        last_non_space_end(s) > 0 ==> !is_space_char(s[last_non_space_end(s) - 1]),
    decreases s.len(),
{
    if s.len() > 0 && is_space_char(s[s.len() - 1]) {
        lemma_lns_char(s.drop_last());
        lemma_lns_le_len(s.drop_last());
        if last_non_space_end(s) > 0 {
            assert(s.drop_last()[last_non_space_end(s.drop_last()) - 1] == s[last_non_space_end(
                s,
            ) - 1]);
        }
    }
}

/// Trimming is idempotent: a trimmed sequence trims to itself.
pub proof fn lemma_trim_idempotent(s: Seq<char>)
    ensures
        trim_spec(trim_spec(s)) == trim_spec(s),
{
    let t = trim_spec(s);
    if t.len() == 0 {
        assert(trim_spec(t) =~= t);
    } else {
        let f = first_non_space(s) as int;
        let l = last_non_space_end(s) as int;
        lemma_fns_le_len(s);
        lemma_lns_le_len(s);
        lemma_fns_char(s);
        lemma_lns_char(s);
        assert(t[0] == s[f]);
        assert(t[t.len() - 1] == s[l - 1]);
        assert(!is_space_char(t[0]));
        assert(!is_space_char(t[t.len() - 1]));
        assert(first_non_space(t) == 0);
        assert(last_non_space_end(t) == t.len());
        assert(trim_spec(t) =~= t);
    }
}

/// The sequence with leading and trailing whitespace removed.
pub open spec fn trim_spec(s: Seq<char>) -> Seq<char> {
    if first_non_space(s) >= last_non_space_end(s) {
        Seq::empty()
    } else {
        s.subrange(first_non_space(s) as int, last_non_space_end(s) as int)
    }
}

/// Executable test for the whitespace set.
pub fn is_space_exec(c: char) -> (r: bool)
    ensures
        r == is_space_char(c),
{
    c == '\t' || c == '\n' || c == '\u{b}' || c == '\u{c}' || c == '\r' || c == ' '
        || c == '\u{85}' || c == '\u{a0}' || c == '\u{1680}' || (('\u{2000}' as u32) <= (c as u32)
        && (c as u32) <= ('\u{200a}' as u32)) || c == '\u{2028}' || c == '\u{2029}'
        || c == '\u{202f}' || c == '\u{205f}' || c == '\u{3000}'
}

/// Executable trim of leading and trailing whitespace.
pub fn trim_str(s: &str) -> (r: String)
    ensures
        r@ == trim_spec(s@),
{
    let len = s.unicode_len();
    let mut lo: usize = 0;
    while lo < len && is_space_exec(s.get_char(lo))
        invariant
            lo <= len,
            len == s@.len(),
            forall|k: int| 0 <= k < lo ==> is_space_char(s@[k]),
        decreases len - lo,
    {
        lo = lo + 1;
    }
    if lo == len {
        // all whitespace: the trimmed form is empty
        proof {
            lemma_fns_all(s@);
            lemma_lns_all(s@);
            lemma_lns_le_len(s@);
        }
        let r = String::new();
        proof {
            assert(r@ =~= trim_spec(s@));
        }
        return r;
    }
    proof {
        lemma_fns_at(s@, lo as int);
    }
    let mut hi: usize = len;
    while hi > lo + 1 && is_space_exec(s.get_char(hi - 1))
        invariant
            lo < hi <= len,
            len == s@.len(),
            forall|k: int| hi <= k < len ==> is_space_char(s@[k]),
        decreases hi,
    {
        hi = hi - 1;
    }
    // s[lo] is not a space, so the scan stops at some non-space tail character
    proof {
        if hi == lo + 1 {
            lemma_lns_at(s@, hi as int);
        } else {
            lemma_lns_at(s@, hi as int);
        }
    }
    let sub = s.substring_char(lo, hi);
    let r = sub.to_owned();
    proof {
        assert(r@ =~= trim_spec(s@));
    }
    r
}

/// Relies on String::push: appends the given character at the end.
#[verifier::external_body]
pub fn push_char(s: &mut String, c: char)
    ensures
        final(s)@ == old(s)@.push(c),
{
    s.push(c);
}

} // verus!
