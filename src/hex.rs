//! Base-16 text of 128-bit salts: lenient reading, canonical writing.

use vstd::prelude::*;
use crate::text::{chars_of, push_char, push_chars};

verus! {

pub open spec fn is_hex_digit(c: char) -> bool {
    ('0' <= c && c <= '9') || ('a' <= c && c <= 'f') || ('A' <= c && c <= 'F')
}

/// The value of a hexadecimal digit, in either case.
pub open spec fn hex_value(c: char) -> nat {
    if '0' <= c && c <= '9' {
        (c as nat - '0' as nat) as nat
    } else if 'a' <= c && c <= 'f' {
        (c as nat - 'a' as nat + 10) as nat
    } else {
        (c as nat - 'A' as nat + 10) as nat
    }
}

pub open spec fn all_hex(s: Seq<char>) -> bool {
    forall|i: int| 0 <= i < s.len() ==> #[trigger] is_hex_digit(s[i])
}

/// The number that the hexadecimal digits `s` denote, most significant first.
pub open spec fn digits_value(s: Seq<char>) -> nat
    decreases s.len(),
{
    if s.len() == 0 {
        0
    } else {
        digits_value(s.drop_last()) * 16 + hex_value(s.last())
    }
}

/// `s` with every leading `"0x"` removed, as many times as it repeats.
pub open spec fn strip_hex_prefix(s: Seq<char>) -> Seq<char>
    decreases s.len(),
{
    if s.len() >= 2 && s[0] == '0' && s[1] == 'x' {
        strip_hex_prefix(s.subrange(2, s.len() as int))
    } else {
        s
    }
}

/// The digits of an unsigned number after an optional leading `+`.
pub open spec fn unsigned_body(s: Seq<char>) -> Seq<char> {
    if s.len() > 0 && s[0] == '+' {
        s.subrange(1, s.len() as int)
    } else {
        s
    }
}

/// The salt that a text denotes: leading `"0x"` removed, an optional `+`,
/// then one or more hexadecimal digits whose value fits in 128 bits.
pub open spec fn salt_of_text(s: Seq<char>) -> Option<u128> {
    let body = unsigned_body(strip_hex_prefix(s));
    if body.len() > 0 && all_hex(body) && digits_value(body) <= u128::MAX {
        Some(digits_value(body) as u128)
    } else {
        None
    }
}

/// The lower-case hexadecimal digit for `d`.
pub open spec fn hex_char(d: nat) -> char {
    if d < 10 {
        ((d + 48) as u8) as char
    } else {
        ((d + 87) as u8) as char
    }
}

/// The lower-case hexadecimal text of `v`, without leading zeros.
pub open spec fn hex_text(v: nat) -> Seq<char>
    decreases v,
{
    if v < 16 {
        seq![hex_char(v)]
    } else {
        hex_text(v / 16).push(hex_char(v % 16))
    }
}

/// The text that the encoder writes for a salt.
pub open spec fn salt_text(v: u128) -> Seq<char> {
    seq!['0', 'x'] + hex_text(v as nat)
}

proof fn lemma_digits_value_grows(s: Seq<char>, j: int)
    requires
        0 <= j <= s.len(),
    ensures
        digits_value(s.subrange(0, j)) <= digits_value(s),
    decreases s.len() - j,
{
    if j < s.len() {
        lemma_digits_value_grows(s, j + 1);
        assert(s.subrange(0, j + 1).drop_last() =~= s.subrange(0, j));
    } else {
        assert(s.subrange(0, j) =~= s);
    }
}

pub(crate) proof fn lemma_hex_char(d: nat)
    requires
        d < 16,
    ensures
        is_hex_digit(hex_char(d)),
        hex_value(hex_char(d)) == d,
        hex_char(d) != 'x',
        hex_char(d) != '+',
{
}

pub(crate) proof fn lemma_hex_text(v: nat)
    ensures
        hex_text(v).len() >= 1,
        all_hex(hex_text(v)),
        digits_value(hex_text(v)) == v,
    decreases v,
{
    if v < 16 {
        lemma_hex_char(v);
        assert(hex_text(v).drop_last() =~= Seq::<char>::empty());
        assert(digits_value(Seq::<char>::empty()) == 0);
        assert(digits_value(hex_text(v)) == digits_value(Seq::<char>::empty()) * 16 + hex_value(hex_char(v)));
    } else {
        lemma_hex_text(v / 16);
        lemma_hex_char(v % 16);
        let h = hex_text(v);
        assert(h.drop_last() =~= hex_text(v / 16));
        assert(v == (v / 16) * 16 + v % 16) by (nonlinear_arith);
        assert(h.last() == hex_char(v % 16));
        assert(digits_value(h) == digits_value(h.drop_last()) * 16 + hex_value(h.last()));
        assert forall|i: int| 0 <= i < h.len() implies #[trigger] is_hex_digit(h[i]) by {
            if i < h.len() - 1 {
                assert(h[i] == hex_text(v / 16)[i]);
            }
        }
    }
}

pub(crate) proof fn lemma_hex_text_short(v: nat)
    ensures
        v < 0x10000 ==> hex_text(v).len() <= 4,
        v < 0x1000 ==> hex_text(v).len() <= 3,
        v < 0x100 ==> hex_text(v).len() <= 2,
        v < 0x10 ==> hex_text(v).len() == 1,
        forall|i: int| 0 <= i < hex_text(v).len() ==> #[trigger] hex_text(v)[i] != ':',
        forall|i: int| 0 <= i < hex_text(v).len() ==> #[trigger] hex_text(v)[i] != '.',
    decreases v,
{
    lemma_hex_text(v);
    let h = hex_text(v);
    assert forall|i: int| 0 <= i < h.len() implies #[trigger] h[i] != ':' && h[i] != '.' by {
        assert(is_hex_digit(h[i]));
    }
    if v >= 16 {
        lemma_hex_text_short(v / 16);
    }
}

/// A salt written by the encoder reads back as the same salt.
pub proof fn lemma_salt_round_trip(v: u128)
    ensures
        salt_of_text(salt_text(v)) == Some(v),
{
    let h = hex_text(v as nat);
    lemma_hex_text(v as nat);
    let t = salt_text(v);
    assert(t.subrange(2, t.len() as int) =~= h);
    if h.len() >= 2 {
        assert(is_hex_digit(h[1]));
    }
    assert(is_hex_digit(h[0]));
    assert(strip_hex_prefix(h) == h);
    assert(strip_hex_prefix(t) == h);
    assert(unsigned_body(h) == h);
}

fn digit_of(c: char) -> (r: Option<u128>)
    ensures
        r is Some == is_hex_digit(c),
        r matches Some(d) ==> d == hex_value(c) && d < 16,
{
    if '0' <= c && c <= '9' {
        Some((c as u32 - '0' as u32) as u128)
    } else if 'a' <= c && c <= 'f' {
        Some((c as u32 - 'a' as u32 + 10) as u128)
    } else if 'A' <= c && c <= 'F' {
        Some((c as u32 - 'A' as u32 + 10) as u128)
    } else {
        None
    }
}

/// The value of hexadecimal digits where all are digits and it fits in 128 bits.
pub open spec fn bounded_hex(s: Seq<char>) -> Option<u128> {
    if all_hex(s) && digits_value(s) <= u128::MAX {
        Some(digits_value(s) as u128)
    } else {
        None
    }
}

/// Position after every leading `"0x"` of `cs`.
fn skip_hex_prefix(cs: &Vec<char>) -> (i: usize)
    ensures
        i <= cs@.len(),
        strip_hex_prefix(cs@) == cs@.subrange(i as int, cs@.len() as int),
{
    let n = cs.len();
    let mut i: usize = 0;
    assert(cs@.subrange(0, n as int) =~= cs@);
    while n - i >= 2 && cs[i] == '0' && cs[i + 1] == 'x'
        invariant
            i <= n,
            n == cs@.len(),
            strip_hex_prefix(cs@) == strip_hex_prefix(cs@.subrange(i as int, n as int)),
        decreases n - i,
    {
        let ghost rest = cs@.subrange(i as int, n as int);
        assert(rest.subrange(2, rest.len() as int) =~= cs@.subrange(i + 2, n as int));
        i = i + 2;
    }
    i
}

/// Reads the hexadecimal digits `cs[start..]`.
pub(crate) fn read_hex_digits(cs: &Vec<char>, start: usize) -> (r: Option<u128>)
    requires
        start <= cs@.len(),
    ensures
        r == bounded_hex(cs@.subrange(start as int, cs@.len() as int)),
{
    let n = cs.len();
    let ghost body = cs@.subrange(start as int, n as int);
    let mut i: usize = start;
    let mut value: u128 = 0;
    assert(cs@.subrange(start as int, start as int) =~= Seq::<char>::empty());
    while i < n
        invariant
            start <= i <= n,
            n == cs@.len(),
            body == cs@.subrange(start as int, n as int),
            all_hex(cs@.subrange(start as int, i as int)),
            value == digits_value(cs@.subrange(start as int, i as int)),
        decreases n - i,
    {
        let ghost prefix = cs@.subrange(start as int, i as int + 1);
        assert(prefix.drop_last() =~= cs@.subrange(start as int, i as int));
        assert(prefix.last() == cs@[i as int]);
        assert(body[i - start] == cs@[i as int]);
        assert(body.subrange(0, i - start + 1) =~= prefix);
        let d = match digit_of(cs[i]) {
            None => {
                assert(!is_hex_digit(body[i - start]));
                return None;
            },
            Some(d) => d,
        };
        assert(digits_value(prefix) == value * 16 + d);
        let next = match value.checked_mul(16) {
            None => None,
            Some(m) => m.checked_add(d),
        };
        match next {
            None => {
                proof {
                    if all_hex(body) {
                        lemma_digits_value_grows(body, i - start + 1);
                    }
                }
                return None;
            },
            Some(v) => {
                value = v;
            },
        }
        i = i + 1;
        assert(all_hex(prefix));
    }
    assert(cs@.subrange(start as int, n as int) =~= body);
    Some(value)
}

/// Reads a salt from its text; `None` where the text is no valid
/// hexadecimal number of at most 128 bits.
pub fn parse_salt(text: &str) -> (r: Option<u128>)
    ensures
        r == salt_of_text(text@),
{
    let cs = chars_of(text);
    let n = cs.len();
    let mut i = skip_hex_prefix(&cs);
    let ghost stripped = cs@.subrange(i as int, n as int);
    if i < n && cs[i] == '+' {
        i = i + 1;
    }
    assert(unsigned_body(stripped) =~= cs@.subrange(i as int, n as int));
    if i >= n {
        return None;
    }
    read_hex_digits(&cs, i)
}

fn hex_digit_char(d: u128) -> (c: char)
    requires
        d < 16,
    ensures
        c == hex_char(d as nat),
{
    if d < 10 {
        ((d as u8) + 48) as char
    } else {
        ((d as u8) + 87) as char
    }
}

/// Appends the lower-case hexadecimal text of `v` to `s`.
pub fn push_hex(s: &mut String, v: u128)
    ensures
        final(s)@ == old(s)@ + hex_text(v as nat),
{
    let mut digits: Vec<char> = Vec::new();
    let mut rest: u128 = v;
    assert(hex_text(v as nat) =~= hex_text(rest as nat) + digits@);
    loop
        invariant_except_break
            hex_text(v as nat) == hex_text(rest as nat) + digits@,
        ensures
            hex_text(v as nat) == digits@,
        decreases rest,
    {
        let d = rest % 16;
        let c = hex_digit_char(d);
        let ghost before = digits@;
        digits.insert(0, c);
        assert(digits@ =~= seq![c] + before);
        if rest < 16 {
            assert(hex_text(v as nat) =~= digits@);
            break;
        }
        let ghost old_rest = rest;
        rest = rest / 16;
        assert(hex_text(old_rest as nat) == hex_text(rest as nat).push(c));
        assert(hex_text(v as nat) =~= hex_text(rest as nat) + digits@);
    }
    push_chars(s, &digits);
}

/// Appends the text of a salt (`0x`, then lower-case hexadecimal) to `s`.
pub fn push_salt(s: &mut String, v: u128)
    ensures
        final(s)@ == old(s)@ + salt_text(v),
{
    let ghost start = s@;
    push_char(s, '0');
    push_char(s, 'x');
    push_hex(s, v);
    assert(s@ =~= start + salt_text(v));
}

} // verus!
