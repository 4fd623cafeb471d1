//! IPv4 text forms: dotted-quad parsing and printing, and the numeric
//! layout behind address ranges and CIDR host enumeration.
use crate::strutil::push_char;
use vstd::arithmetic::div_mod::lemma_fundamental_div_mod;
use vstd::prelude::*;

verus! {

pub open spec fn is_digit(c: char) -> bool {
    '0' <= c && c <= '9'
}

pub open spec fn digit_val(c: char) -> nat {
    ((c as u32) - ('0' as u32)) as nat
}

pub open spec fn all_digits(s: Seq<char>) -> bool {
    forall|k: int| 0 <= k < s.len() ==> is_digit(s[k])
}

/// Decimal value of a digit sequence.
pub open spec fn dec_val(s: Seq<char>) -> nat
    decreases s.len(),
{
    if s.len() == 0 {
        0
    } else {
        dec_val(s.drop_last()) * 10 + digit_val(s[s.len() - 1])
    }
}

/// A valid address octet: one to three digits, value at most 255, and no
/// leading zero.
pub open spec fn is_octet_str(s: Seq<char>) -> bool {
    1 <= s.len() <= 3 && all_digits(s) && dec_val(s) <= 255 && (s[0] == '0' ==> s.len() == 1)
}

/// A valid prefix length as the network parser reads it: one or two
/// digits, value at most 32.
pub open spec fn is_prefix_str(s: Seq<char>) -> bool {
    1 <= s.len() <= 2 && all_digits(s) && dec_val(s) <= 32
}

/// An address octet as the network parser reads it: one to three digits,
/// value at most 255, leading zeros allowed.
pub open spec fn is_octet_str_lenient(s: Seq<char>) -> bool {
    1 <= s.len() <= 3 && all_digits(s) && dec_val(s) <= 255
}

/// Splits a sequence at every occurrence of `sep`.
pub open spec fn split_char(s: Seq<char>, sep: char) -> Seq<Seq<char>>
    decreases s.len(),
{
    if s.len() == 0 {
        seq![Seq::empty()]
    } else if s[s.len() - 1] == sep {
        split_char(s.drop_last(), sep) + seq![Seq::<char>::empty()]
    } else {
        let parts = split_char(s.drop_last(), sep);
        parts.drop_last() + seq![parts.last() + seq![s[s.len() - 1]]]
    }
}

pub proof fn lemma_split_char_nonempty(s: Seq<char>, sep: char)
    ensures
        split_char(s, sep).len() >= 1,
    decreases s.len(),
{
    if s.len() > 0 {
        lemma_split_char_nonempty(s.drop_last(), sep);
    }
}

/// Splits a string at every occurrence of `sep`.
pub fn split_str(s: &str, sep: char) -> (r: Vec<String>)
    ensures
        r.deep_view() == split_char(s@, sep),
        r.len() >= 1,
{
    let len = s.unicode_len();
    let mut out: Vec<String> = Vec::new();
    let mut cur: String = String::new();
    let mut i: usize = 0;
    while i < len
        invariant
            i <= len,
            len == s@.len(),
            out.deep_view().push(cur@) =~= split_char(s@.take(i as int), sep),
        decreases len - i,
    {
        let c = s.get_char(i);
        proof {
            assert(s@.take(i + 1).drop_last() =~= s@.take(i as int));
            assert(s@.take(i + 1)[i as int] == s@[i as int]);
        }
        if c == sep {
            out.push(cur);
            cur = String::new();
            proof {
                assert(out.deep_view().push(cur@) =~= split_char(s@.take(i + 1), sep));
            }
        } else {
            push_char(&mut cur, c);
            proof {
                let parts = split_char(s@.take(i as int), sep);
                lemma_split_char_nonempty(s@.take(i as int), sep);
                assert(out.deep_view().push(cur@) =~~= parts.drop_last() + seq![
                    parts.last() + seq![s@[i as int]],
                ]);
            }
        }
        i = i + 1;
    }
    proof {
        assert(s@.take(len as int) =~= s@);
    }
    out.push(cur);
    proof {
        assert(out.deep_view() =~= split_char(s@, sep));
    }
    out
}

/// Index of the first occurrence of `c` in `s`, or `-1` when absent.
pub open spec fn index_of_first(s: Seq<char>, c: char) -> int
    decreases s.len(),
{
    if s.len() == 0 {
        -1
    } else if s[0] == c {
        0
    } else if index_of_first(s.drop_first(), c) < 0 {
        -1
    } else {
        1 + index_of_first(s.drop_first(), c)
    }
}

pub proof fn lemma_index_of_first_props(s: Seq<char>, c: char)
    ensures
        index_of_first(s, c) >= 0 ==> index_of_first(s, c) < s.len() && s[index_of_first(s, c)]
            == c && forall|k: int| 0 <= k < index_of_first(s, c) ==> s[k] != c,
        index_of_first(s, c) < 0 ==> forall|k: int| 0 <= k < s.len() ==> s[k] != c,
    decreases s.len(),
{
    if s.len() > 0 && s[0] != c {
        let d = s.drop_first();
        lemma_index_of_first_props(d, c);
        if index_of_first(d, c) >= 0 {
            let i = index_of_first(s, c);
            assert(i == 1 + index_of_first(d, c));
            assert(s[i] == d[i - 1]);
            assert forall|k: int| 0 <= k < i implies s[k] != c by {
                if k > 0 {
                    assert(s[k] == d[k - 1]);
                }
            }
        } else {
            assert forall|k: int| 0 <= k < s.len() implies s[k] != c by {
                if k > 0 {
                    assert(s[k] == d[k - 1]);
                }
            }
        }
    }
}

proof fn lemma_index_of_first_at(s: Seq<char>, c: char, i: int)
    requires
        0 <= i < s.len(),
        s[i] == c,
        forall|k: int| 0 <= k < i ==> s[k] != c,
    ensures
        index_of_first(s, c) == i,
    decreases s.len(),
{
    if i > 0 {
        assert(forall|k: int| 0 <= k < i - 1 ==> s.drop_first()[k] == s[k + 1]);
        lemma_index_of_first_at(s.drop_first(), c, i - 1);
    }
}

/// Position of the first occurrence of `c`, or `None` when absent.
pub fn find_char(s: &str, c: char) -> (r: Option<usize>)
    ensures
        match r {
            Some(i) => index_of_first(s@, c) == i as int,
            None => index_of_first(s@, c) < 0,
        },
{
    let len = s.unicode_len();
    let mut i: usize = 0;
    while i < len
        invariant
            i <= len,
            len == s@.len(),
            forall|k: int| 0 <= k < i ==> s@[k] != c,
        decreases len - i,
    {
        if s.get_char(i) == c {
            proof {
                lemma_index_of_first_at(s@, c, i as int);
            }
            return Some(i);
        }
        i = i + 1;
    }
    proof {
        lemma_index_of_first_props(s@, c);
        if index_of_first(s@, c) >= 0 {
            assert(s@[index_of_first(s@, c)] == c);
        }
    }
    None
}

/// Value of an octet text, or `None` when it is not a valid octet.
pub fn octet_val(s: &str) -> (r: Option<u8>)
    ensures
        match r {
            Some(v) => is_octet_str(s@) && v as nat == dec_val(s@),
            None => !is_octet_str(s@),
        },
{
    let len = s.unicode_len();
    if len < 1 || len > 3 {
        return None;
    }
    if len > 1 && s.get_char(0) == '0' {
        return None;
    }
    let mut v: u32 = 0;
    let mut i: usize = 0;
    while i < len
        invariant
            i <= len,
            len == s@.len(),
            len <= 3,
            v as nat == dec_val(s@.take(i as int)),
            v <= 999,
            forall|k: int| 0 <= k < i ==> is_digit(s@[k]),
        decreases len - i,
    {
        let c = s.get_char(i);
        if c < '0' || c > '9' {
            return None;
        }
        proof {
            assert(s@.take(i + 1).drop_last() =~= s@.take(i as int));
            assert(s@.take(i + 1)[i as int] == s@[i as int]);
            assert(dec_val(s@.take(i as int)) <= 99) by {
                lemma_dec_val_bound(s@.take(i as int));
            }
        }
        v = v * 10 + ((c as u32) - ('0' as u32));
        i = i + 1;
    }
    proof {
        assert(s@.take(len as int) =~= s@);
    }
    if v > 255 {
        return None;
    }
    Some(v as u8)
}

/// A digit sequence of length `n` has value under `10^n`.
proof fn lemma_dec_val_bound(s: Seq<char>)
    requires
        all_digits(s),
    ensures
        s.len() == 0 ==> dec_val(s) == 0,
        s.len() == 1 ==> dec_val(s) <= 9,
        s.len() == 2 ==> dec_val(s) <= 99,
        s.len() == 3 ==> dec_val(s) <= 999,
    decreases s.len(),
{
    if s.len() > 0 {
        assert(all_digits(s.drop_last()));
        lemma_dec_val_bound(s.drop_last());
        assert(digit_val(s[s.len() - 1]) <= 9);
    }
}

/// Value of a prefix-length text, or `None` when it is not a valid prefix.
pub fn prefix_val(s: &str) -> (r: Option<u8>)
    ensures
        match r {
            Some(v) => is_prefix_str(s@) && v as nat == dec_val(s@) && v <= 32,
            None => !is_prefix_str(s@),
        },
{
    let len = s.unicode_len();
    if len == 0 || len > 2 {
        return None;
    }
    let mut v: u32 = 0;
    let mut i: usize = 0;
    while i < len
        invariant
            i <= len,
            len == s@.len(),
            len <= 2,
            v as nat == dec_val(s@.take(i as int)),
            v <= 99,
            forall|k: int| 0 <= k < i ==> is_digit(s@[k]),
        decreases len - i,
    {
        let c = s.get_char(i);
        if c < '0' || c > '9' {
            return None;
        }
        proof {
            assert(s@.take(i + 1).drop_last() =~= s@.take(i as int));
            assert(s@.take(i + 1)[i as int] == s@[i as int]);
            assert(dec_val(s@.take(i as int)) <= 9) by {
                lemma_dec_val_bound(s@.take(i as int));
            }
        }
        v = v * 10 + ((c as u32) - ('0' as u32));
        i = i + 1;
    }
    proof {
        assert(s@.take(len as int) =~= s@);
    }
    if v > 32 {
        return None;
    }
    Some(v as u8)
}

/// The numeric address for four octet values.
pub open spec fn ipv4_num(a: nat, b: nat, c: nat, d: nat) -> nat {
    a * 0x1000000 + b * 0x10000 + c * 0x100 + d
}

/// Parse of a dotted-quad IPv4 address; `None` when the text is not one.
pub open spec fn spec_parse_ipv4(s: Seq<char>) -> Option<u32> {
    let parts = split_char(s, '.');
    if parts.len() == 4 && is_octet_str(parts[0]) && is_octet_str(parts[1]) && is_octet_str(
        parts[2],
    ) && is_octet_str(parts[3]) {
        Some(
            ipv4_num(dec_val(parts[0]), dec_val(parts[1]), dec_val(parts[2]), dec_val(parts[3]))
                as u32,
        )
    } else {
        None
    }
}

/// Value of a lenient octet text, or `None` when it is not one.
pub fn octet_val_lenient(s: &str) -> (r: Option<u8>)
    ensures
        match r {
            Some(v) => is_octet_str_lenient(s@) && v as nat == dec_val(s@),
            None => !is_octet_str_lenient(s@),
        },
{
    let len = s.unicode_len();
    if len < 1 || len > 3 {
        return None;
    }
    let mut v: u32 = 0;
    let mut i: usize = 0;
    while i < len
        invariant
            i <= len,
            len == s@.len(),
            len <= 3,
            v as nat == dec_val(s@.take(i as int)),
            v <= 999,
            forall|k: int| 0 <= k < i ==> is_digit(s@[k]),
        decreases len - i,
    {
        let c = s.get_char(i);
        if c < '0' || c > '9' {
            return None;
        }
        proof {
            assert(s@.take(i + 1).drop_last() =~= s@.take(i as int));
            assert(s@.take(i + 1)[i as int] == s@[i as int]);
            assert(dec_val(s@.take(i as int)) <= 99) by {
                lemma_dec_val_bound(s@.take(i as int));
            }
        }
        v = v * 10 + ((c as u32) - ('0' as u32));
        i = i + 1;
    }
    proof {
        assert(s@.take(len as int) =~= s@);
    }
    if v > 255 {
        return None;
    }
    Some(v as u8)
}

/// Parse of a dotted quad with lenient octets, as the network parser
/// reads the address part of a CIDR token.
pub open spec fn spec_parse_ipv4_lenient(s: Seq<char>) -> Option<u32> {
    let parts = split_char(s, '.');
    if parts.len() == 4 && is_octet_str_lenient(parts[0]) && is_octet_str_lenient(parts[1])
        && is_octet_str_lenient(parts[2]) && is_octet_str_lenient(parts[3]) {
        Some(
            ipv4_num(dec_val(parts[0]), dec_val(parts[1]), dec_val(parts[2]), dec_val(parts[3]))
                as u32,
        )
    } else {
        None
    }
}

/// Parses a dotted quad with lenient octets.
pub fn parse_ipv4_lenient(s: &str) -> (r: Option<u32>)
    ensures
        r == spec_parse_ipv4_lenient(s@),
{
    let parts = split_str(s, '.');
    if parts.len() != 4 {
        return None;
    }
    let a = octet_val_lenient(parts[0].as_str());
    let b = octet_val_lenient(parts[1].as_str());
    let c = octet_val_lenient(parts[2].as_str());
    let d = octet_val_lenient(parts[3].as_str());
    match (a, b, c, d) {
        (Some(a), Some(b), Some(c), Some(d)) => {
            let n: u32 = (a as u32) * 0x1000000 + (b as u32) * 0x10000 + (c as u32) * 0x100 + (
            d as u32);
            Some(n)
        },
        _ => None,
    }
}

/// Parses a dotted-quad IPv4 address.
pub fn parse_ipv4(s: &str) -> (r: Option<u32>)
    ensures
        r == spec_parse_ipv4(s@),
{
    let parts = split_str(s, '.');
    if parts.len() != 4 {
        return None;
    }
    let a = octet_val(parts[0].as_str());
    let b = octet_val(parts[1].as_str());
    let c = octet_val(parts[2].as_str());
    let d = octet_val(parts[3].as_str());
    match (a, b, c, d) {
        (Some(a), Some(b), Some(c), Some(d)) => {
            let n: u32 = (a as u32) * 0x1000000 + (b as u32) * 0x10000 + (c as u32) * 0x100 + (
            d as u32);
            Some(n)
        },
        _ => None,
    }
}

pub open spec fn digit_char(n: nat) -> char {
    if n == 0 {
        '0'
    } else if n == 1 {
        '1'
    } else if n == 2 {
        '2'
    } else if n == 3 {
        '3'
    } else if n == 4 {
        '4'
    } else if n == 5 {
        '5'
    } else if n == 6 {
        '6'
    } else if n == 7 {
        '7'
    } else if n == 8 {
        '8'
    } else {
        '9'
    }
}

/// Decimal text of a number, most significant digit first.
pub open spec fn dec_str(n: nat) -> Seq<char>
    decreases n,
{
    if n < 10 {
        seq![digit_char(n)]
    } else {
        dec_str(n / 10) + seq![digit_char(n % 10)]
    }
}

fn digit_char_exec(n: u32) -> (c: char)
    requires
        n < 10,
    ensures
        c == digit_char(n as nat),
{
    if n == 0 {
        '0'
    } else if n == 1 {
        '1'
    } else if n == 2 {
        '2'
    } else if n == 3 {
        '3'
    } else if n == 4 {
        '4'
    } else if n == 5 {
        '5'
    } else if n == 6 {
        '6'
    } else if n == 7 {
        '7'
    } else if n == 8 {
        '8'
    } else {
        '9'
    }
}

/// Decimal text of a number.
pub fn dec_string(v: u32) -> (r: String)
    ensures
        r@ == dec_str(v as nat),
    decreases v,
{
    if v < 10 {
        let mut r = String::new();
        push_char(&mut r, digit_char_exec(v));
        proof {
            assert(r@ =~= dec_str(v as nat));
        }
        r
    } else {
        let mut r = dec_string(v / 10);
        push_char(&mut r, digit_char_exec(v % 10));
        proof {
            assert(r@ =~= dec_str(v as nat));
        }
        r
    }
}

/// The dotted-quad text of a numeric address.
pub open spec fn spec_ipv4_string(n: u32) -> Seq<char> {
    dec_str((n as nat) / 0x1000000 % 0x100) + seq!['.'] + dec_str((n as nat) / 0x10000 % 0x100)
        + seq!['.'] + dec_str((n as nat) / 0x100 % 0x100) + seq!['.'] + dec_str((n as nat) % 0x100)
}

/// Dotted-quad text of a numeric address.
pub fn ipv4_to_string(n: u32) -> (r: String)
    ensures
        r@ == spec_ipv4_string(n),
{
    let mut r = dec_string(n / 0x1000000 % 0x100);
    push_char(&mut r, '.');
    let b = dec_string(n / 0x10000 % 0x100);
    r.append(b.as_str());
    push_char(&mut r, '.');
    let c = dec_string(n / 0x100 % 0x100);
    r.append(c.as_str());
    push_char(&mut r, '.');
    let d = dec_string(n % 0x100);
    r.append(d.as_str());
    proof {
        assert(r@ =~= spec_ipv4_string(n));
    }
    r
}

/// Powers of two.
pub open spec fn pow2n(k: nat) -> nat
    decreases k,
{
    if k == 0 {
        1
    } else {
        2 * pow2n((k - 1) as nat)
    }
}

pub proof fn lemma_pow2n_32()
    ensures
        pow2n(32) == 0x1_0000_0000,
{
    reveal_with_fuel(pow2n, 33);
}

pub proof fn lemma_pow2n_pos(a: nat)
    ensures
        pow2n(a) >= 1,
    decreases a,
{
    if a > 0 {
        lemma_pow2n_pos((a - 1) as nat);
    }
}

pub proof fn lemma_pow2n_le(a: nat, b: nat)
    requires
        a <= b,
    ensures
        pow2n(a) <= pow2n(b),
        pow2n(a) >= 1,
    decreases b,
{
    lemma_pow2n_pos(a);
    if a < b {
        lemma_pow2n_le(a, (b - 1) as nat);
        lemma_pow2n_pos((b - 1) as nat);
    }
}

proof fn lemma_two_mul_assoc(x: int, y: int)
    ensures
        (2 * x) * y == 2 * (x * y),
{
    assert((2 * x) * y == 2 * (x * y)) by (nonlinear_arith);
}

pub proof fn lemma_pow2n_add(a: nat, b: nat)
    ensures
        pow2n(a + b) == pow2n(a) * pow2n(b),
    decreases a,
{
    if a == 0 {
        assert(pow2n(a) == 1);
        assert(a + b == b);
        assert(pow2n(a) * pow2n(b) == pow2n(b)) by (nonlinear_arith)
            requires
                pow2n(a) == 1,
        ;
    } else {
        lemma_pow2n_add((a - 1) as nat, b);
        assert((a + b - 1) as nat == (a - 1) as nat + b);
        assert(pow2n((a - 1) as nat + b) == pow2n((a - 1) as nat) * pow2n(b));
        assert(pow2n(a + b) == 2 * pow2n((a + b - 1) as nat));
        assert(pow2n(a) == 2 * pow2n((a - 1) as nat));
        lemma_two_mul_assoc(pow2n((a - 1) as nat) as int, pow2n(b) as int);
        assert(pow2n(a + b) == 2 * (pow2n((a - 1) as nat) * pow2n(b)));
        assert(pow2n(a) * pow2n(b) == (2 * pow2n((a - 1) as nat)) * pow2n(b));
    }
}

/// The usable host addresses of the IPv4 network that contains `n` with
/// prefix length `p`: the whole block without its network and broadcast
/// addresses, and every block address for prefixes 31 and 32.
pub open spec fn cidr_hosts(n: u32, p: nat) -> Seq<Seq<char>> {
    let block = pow2n((32 - p) as nat) as int;
    let net = (n as int) - ((n as int) % block);
    if p <= 30 {
        Seq::new((block - 2) as nat, |i: int| spec_ipv4_string((net + 1 + i) as u32))
    } else if p == 31 {
        Seq::new(2, |i: int| spec_ipv4_string((net + i) as u32))
    } else {
        seq![spec_ipv4_string(n)]
    }
}

/// Builds the usable host addresses for the network containing `n` with
/// prefix length `p`.
pub fn cidr_hosts_exec(n: u32, p: u8) -> (r: Vec<String>)
    requires
        p <= 32,
    ensures
        r.deep_view() == cidr_hosts(n, p as nat),
{
    let shift: u8 = 32 - p;
    let mut block: u64 = 1;
    let mut k: u8 = 0;
    proof {
        lemma_pow2n_32();
    }
    while k < shift
        invariant
            k <= shift <= 32,
            block == pow2n(k as nat),
            1 <= block <= 0x1_0000_0000,
        decreases shift - k,
    {
        proof {
            lemma_pow2n_le((k + 1) as nat, 32);
            lemma_pow2n_32();
        }
        block = block * 2;
        k = k + 1;
    }
    let nn: u64 = n as u64;
    proof {
        vstd::arithmetic::div_mod::lemma_mod_decreases(nn as nat, block as nat);
    }
    let rem: u64 = nn % block;
    let net: u64 = nn - rem;
    proof {
        lemma_net_block_bound(nn, block, (p as nat));
    }
    if p <= 30 {
        proof {
            lemma_pow2n_le(2, (shift as nat));
            reveal_with_fuel(pow2n, 3);
        }
        let out = addr_run(net + 1, block - 2);
        proof {
            assert(out.deep_view() =~= cidr_hosts(n, p as nat));
        }
        out
    } else if p == 31 {
        let out = addr_run(net, 2);
        proof {
            assert(out.deep_view() =~= cidr_hosts(n, p as nat));
        }
        out
    } else {
        let out = addr_run(nn, 1);
        proof {
            assert(out.deep_view() =~= cidr_hosts(n, p as nat));
        }
        out
    }
}

/// The block containing `nn` ends at or before the address ceiling.
proof fn lemma_net_block_bound(nn: u64, block: u64, p: nat)
    requires
        nn < 0x1_0000_0000,
        p <= 32,
        block == pow2n((32 - p) as nat),
    ensures
        (nn as int) - ((nn as int) % (block as int)) + (block as int) <= 0x1_0000_0000,
        block >= 1,
{
    lemma_pow2n_le(0, (32 - p) as nat);
    lemma_pow2n_add((32 - p) as nat, p);
    lemma_pow2n_32();
    lemma_pow2n_le(0, p);
    let b = block as int;
    let q = pow2n(p) as int;
    assert(b * q == 0x1_0000_0000);
    lemma_fundamental_div_mod(nn as int, b);
    let d = nn as int / b;
    let r = nn as int % b;
    assert(nn == b * d + r);
    assert(0 <= r < b) by {
        vstd::arithmetic::div_mod::lemma_mod_bound(nn as int, b);
    }
    lemma_quotient_block(b, d, r, nn as int, q);
    assert((nn as int) - r == b * d);
}

/// Bounds on a quotient against a larger multiple of the divisor.
proof fn lemma_quotient_block(b: int, d: int, r: int, n: int, q: int)
    requires
        b >= 1,
        n == b * d + r,
        0 <= r < b,
        0 <= n,
        n < b * q,
    ensures
        b * d + b <= b * q,
{
    assert(0 <= d) by (nonlinear_arith)
        requires
            b >= 1,
            n == b * d + r,
            0 <= r < b,
            0 <= n,
    ;
    assert(d < q) by (nonlinear_arith)
        requires
            b >= 1,
            n == b * d + r,
            0 <= r,
            n < b * q,
    ;
    assert(b * (d + 1) <= b * q) by (nonlinear_arith)
        requires
            d + 1 <= q,
            b >= 1,
    ;
    assert(b * (d + 1) == b * d + b) by (nonlinear_arith);
}

/// The consecutive addresses `lo`, `lo + 1`, … (`count` of them) as text.
pub open spec fn addr_run_spec(lo: nat, count: nat) -> Seq<Seq<char>> {
    Seq::new(count, |i: int| spec_ipv4_string((lo + i) as u32))
}

/// Builds the texts of `count` consecutive addresses starting at `lo`.
pub fn addr_run(lo: u64, count: u64) -> (r: Vec<String>)
    requires
        lo + count <= 0x1_0000_0000,
    ensures
        r.deep_view() == addr_run_spec(lo as nat, count as nat),
{
    let mut out: Vec<String> = Vec::new();
    let mut j: u64 = 0;
    while j < count
        invariant
            j <= count,
            lo + count <= 0x1_0000_0000,
            out@.len() == j,
            forall|k: int| 0 <= k < j ==> out@[k]@ == spec_ipv4_string((lo + k) as u32),
        decreases count - j,
    {
        proof {
            assert(lo + j < 0x1_0000_0000);
        }
        let s = ipv4_to_string((lo + j) as u32);
        out.push(s);
        j = j + 1;
    }
    proof {
        assert(out.deep_view() =~= addr_run_spec(lo as nat, count as nat));
    }
    out
}

} // verus!
