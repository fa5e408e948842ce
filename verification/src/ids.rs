//! Short worktree ids: base-36 numerals `1`, `2`, ... `a`, ... `z`, `10`, ...

use vstd::prelude::*;
use crate::text::string_from_chars;

verus! {

/// The numeral character for a base-36 digit (`0`-`9`, then `a`-`z`).
pub open spec fn digit_char(d: nat) -> char {
    if d < 10 {
        ((48 + d) as u8) as char
    } else {
        ((97 + d - 10) as u8) as char
    }
}

/// The base-36 numeral of `n`, most significant digit first, lower case,
/// without leading zeros (`0` for zero).
pub open spec fn base36(n: nat) -> Seq<char>
    decreases n,
{
    if n < 36 {
        seq![digit_char(n)]
    } else {
        base36(n / 36).push(digit_char(n % 36))
    }
}

/// The value of a character read as a base-36 digit; letters of either case
/// count (`char::to_digit(36)`).
pub open spec fn digit_value(c: char) -> Option<nat> {
    if '0' <= c && c <= '9' {
        Some((c as int - 48) as nat)
    } else if 'a' <= c && c <= 'z' {
        Some((c as int - 97 + 10) as nat)
    } else if 'A' <= c && c <= 'Z' {
        Some((c as int - 65 + 10) as nat)
    } else {
        None
    }
}

/// Every character of `s` is a base-36 digit.
pub open spec fn all_digits(s: Seq<char>) -> bool {
    forall|i: int| 0 <= i < s.len() ==> digit_value(#[trigger] s[i]) is Some
}

/// The value of a string of base-36 digits.
pub open spec fn numeral_value(s: Seq<char>) -> nat
    decreases s.len(),
{
    if s.len() == 0 {
        0
    } else {
        numeral_value(s.drop_last()) * 36 + digit_value(s.last())->0
    }
}

/// What `u32::from_str_radix(s, 36)` gives: an optional `+`, then at least
/// one base-36 digit, with a value that fits in `u32`.
pub open spec fn parse_base36(s: Seq<char>) -> Option<u32> {
    let ds = if s.len() > 0 && s[0] == '+' { s.skip(1) } else { s };
    if ds.len() == 0 || !all_digits(ds) || numeral_value(ds) > u32::MAX {
        None
    } else {
        Some(numeral_value(ds) as u32)
    }
}

fn digit_to_char(d: u32) -> (c: char)
    requires
        d < 36,
    ensures
        c == digit_char(d as nat),
{
    if d < 10 {
        ((48 + d) as u8) as char
    } else {
        ((97 + d - 10) as u8) as char
    }
}

proof fn lemma_reverse_push(s: Seq<char>, x: char)
    ensures
        s.push(x).reverse() == seq![x] + s.reverse(),
{
    assert(s.push(x).reverse() =~= seq![x] + s.reverse());
}

/// Encodes a number as base 36 (`0`-`9`, `a`-`z`).
pub fn base36_encode(n: u32) -> (s: String)
    ensures
        s@ == base36(n as nat),
{
    let mut rev: Vec<char> = Vec::new();
    let mut m: u32 = n;
    while m >= 36
        invariant
            base36(n as nat) == base36(m as nat) + rev@.reverse(),
        decreases m,
    {
        let d = m % 36;
        proof {
            lemma_reverse_push(rev@, digit_char(d as nat));
            assert(base36(m as nat) == base36((m / 36) as nat).push(digit_char(d as nat)));
            assert(base36(m as nat) + rev@.reverse() =~= base36((m / 36) as nat) + rev@.push(
                digit_char(d as nat),
            ).reverse());
        }
        rev.push(digit_to_char(d));
        m = m / 36;
    }
    proof {
        lemma_reverse_push(rev@, digit_char(m as nat));
    }
    rev.push(digit_to_char(m));
    assert(base36(n as nat) =~= rev@.reverse());
    let mut out: Vec<char> = Vec::new();
    let len = rev.len();
    let mut j: usize = 0;
    while j < len
        invariant
            len == rev.len(),
            j <= len,
            out@ == rev@.reverse().take(j as int),
        decreases len - j,
    {
        out.push(rev[len - 1 - j]);
        j = j + 1;
        assert(out@ =~= rev@.reverse().take(j as int));
    }
    assert(rev@.reverse().take(len as int) =~= rev@.reverse());
    string_from_chars(&out)
}

fn char_digit(c: char) -> (r: Option<u32>)
    ensures
        match r {
            Some(d) => digit_value(c) == Some(d as nat) && d < 36,
            None => digit_value(c) is None,
        },
{
    if '0' <= c && c <= '9' {
        Some((c as u32) - 48)
    } else if 'a' <= c && c <= 'z' {
        Some((c as u32) - 97 + 10)
    } else if 'A' <= c && c <= 'Z' {
        Some((c as u32) - 65 + 10)
    } else {
        None
    }
}

proof fn lemma_value_prefix_le(s: Seq<char>, i: int)
    requires
        0 <= i <= s.len(),
    ensures
        numeral_value(s.take(i)) <= numeral_value(s),
    decreases s.len(),
{
    if i < s.len() {
        assert(s.drop_last().take(i) =~= s.take(i));
        lemma_value_prefix_le(s.drop_last(), i);
    } else {
        assert(s.take(i) =~= s);
    }
}

/// Reads a base-36 numeral (`u32::from_str_radix(s, 36)`): an optional `+`,
/// then digits `0`-`9`, `a`-`z` or `A`-`Z`; `None` when empty, when a
/// character is not a digit, or when the value overflows `u32`.
pub fn base36_decode(cs: &Vec<char>) -> (r: Option<u32>)
    ensures
        r == parse_base36(cs@),
{
    let start: usize = if cs.len() > 0 && cs[0] == '+' { 1 } else { 0 };
    let ghost ds = if cs@.len() > 0 && cs@[0] == '+' { cs@.skip(1) } else { cs@ };
    assert(ds =~= cs@.skip(start as int));
    if start >= cs.len() {
        return None;
    }
    let mut acc: u64 = 0;
    let mut i: usize = start;
    while i < cs.len()
        invariant
            start <= i <= cs.len(),
            ds == cs@.skip(start as int),
            ds == (if cs@.len() > 0 && cs@[0] == '+' { cs@.skip(1) } else { cs@ }),
            all_digits(ds.take(i - start)),
            acc == numeral_value(ds.take(i - start)),
            acc <= u32::MAX,
        decreases cs.len() - i,
    {
        let ghost k = i - start;
        assert(ds.take(k + 1).drop_last() =~= ds.take(k));
        assert(ds[k] == cs@[i as int]);
        match char_digit(cs[i]) {
            None => {
                assert(!all_digits(ds));
                assert(parse_base36(cs@) is None);
                return None;
            },
            Some(d) => {
                acc = acc * 36 + d as u64;
                i = i + 1;
                assert(all_digits(ds.take(i - start)));
                if acc > 0xffff_ffff {
                    proof {
                        lemma_value_prefix_le(ds, i - start);
                        assert(numeral_value(ds) > u32::MAX);
                        assert(parse_base36(cs@) is None);
                    }
                    return None;
                }
            },
        }
    }
    assert(ds.take(i - start) =~= ds);
    Some(acc as u32)
}

proof fn lemma_digit_char(d: nat)
    requires
        d < 36,
    ensures
        digit_value(digit_char(d)) == Some(d),
        digit_char(d) != '+',
{
    if d < 10 {
        assert(((48 + d) as u8) as char as int == 48 + d);
    } else {
        assert(((97 + d - 10) as u8) as char as int == 97 + d - 10);
    }
}

proof fn lemma_base36_digits(n: nat)
    ensures
        all_digits(base36(n)),
        base36(n).len() >= 1,
        base36(n)[0] != '+',
        numeral_value(base36(n)) == n,
    decreases n,
{
    if n < 36 {
        lemma_digit_char(n);
        assert(seq![digit_char(n)].drop_last() =~= Seq::<char>::empty());
        assert(numeral_value(Seq::<char>::empty()) == 0);
        assert(base36(n).last() == digit_char(n));
        assert(numeral_value(base36(n)) == numeral_value(base36(n).drop_last()) * 36 + n);
    } else {
        lemma_digit_char(n % 36);
        lemma_base36_digits(n / 36);
        let s = base36(n);
        assert(s.drop_last() =~= base36(n / 36));
        assert(s.last() == digit_char(n % 36));
        assert(numeral_value(s) == numeral_value(base36(n / 36)) * 36 + (n % 36));
        assert((n / 36) * 36 + n % 36 == n);
        assert forall|i: int| 0 <= i < s.len() implies digit_value(#[trigger] s[i]) is Some by {
            if i < s.len() - 1 {
                assert(s[i] == base36(n / 36)[i]);
            }
        }
    }
}

/// Reading an encoded id back gives the number it was made from.
pub proof fn lemma_base36_round_trip(n: u32)
    ensures
        parse_base36(base36(n as nat)) == Some(n),
{
    lemma_base36_digits(n as nat);
}

/// Distinct numbers get distinct ids.
pub proof fn lemma_base36_injective(a: u32, b: u32)
    requires
        base36(a as nat) == base36(b as nat),
    ensures
        a == b,
{
    lemma_base36_round_trip(a);
    lemma_base36_round_trip(b);
}

proof fn lemma_digit_char_range(d: nat)
    requires
        d < 36,
    ensures
        ('0' <= digit_char(d) <= '9') || ('a' <= digit_char(d) <= 'z'),
        d > 0 ==> digit_char(d) != '0',
{
    if d < 10 {
        assert(((48 + d) as u8) as char as int == 48 + d);
    } else {
        assert(((97 + d - 10) as u8) as char as int == 97 + d - 10);
    }
}

/// The shape of an id: the numeral of `n` is non-empty, is made of the
/// digits `0`-`9` and the lower-case letters `a`-`z`, has no leading zero
/// when `n` is positive, and the numeral of a number `m` no larger than `n`
/// is no longer than that of `n`.
pub proof fn lemma_base36_shape(m: nat, n: nat)
    ensures
        base36(n).len() >= 1,
        forall|i: int| 0 <= i < base36(n).len() ==> ('0' <= #[trigger] base36(n)[i] <= '9') || ('a'
            <= base36(n)[i] <= 'z'),
        n > 0 ==> base36(n)[0] != '0',
        m <= n ==> base36(m).len() <= base36(n).len(),
    decreases n,
{
    if n < 36 {
        lemma_digit_char_range(n);
        if m <= n {
            assert(base36(m).len() == 1);
        }
    } else {
        lemma_digit_char_range(n % 36);
        if m <= n && m >= 36 {
            assert(m / 36 <= n / 36);
            lemma_base36_shape(m / 36, n / 36);
        } else {
            lemma_base36_shape(0, n / 36);
        }
        let s = base36(n);
        assert(s.drop_last() =~= base36(n / 36));
        assert(s[0] == base36(n / 36)[0]);
        assert forall|i: int| 0 <= i < s.len() implies ('0' <= #[trigger] s[i] <= '9') || ('a' <= s[i] <= 'z') by {
            if i < s.len() - 1 {
                assert(s[i] == base36(n / 36)[i]);
            }
        }
    }
}

} // verus!
