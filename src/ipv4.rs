//! IPv4 addresses in dotted-decimal text.

use vstd::prelude::*;
use crate::text::{
    chars_of, decimal_char, decimal_text, lemma_decimal_text, lemma_split_on_join, lemma_split_on_none,
    push_char, push_decimal, split_chars, split_on, views,
};

verus! {

/// An IPv4 address as its four octets, most significant first.
#[derive(Clone, Copy, Debug, PartialEq, Eq)]
pub struct Ipv4Address {
    pub octets: [u8; 4],
}

impl View for Ipv4Address {
    type V = Seq<u8>;

    open spec fn view(&self) -> Seq<u8> {
        self.octets@
    }
}

impl Ipv4Address {
    pub fn new(a: u8, b: u8, c: u8, d: u8) -> (r: Ipv4Address)
        ensures
            r@ == seq![a, b, c, d],
    {
        let r = Ipv4Address { octets: [a, b, c, d] };
        assert(r@ =~= seq![a, b, c, d]);
        r
    }
}

pub open spec fn is_decimal_digit(c: char) -> bool {
    '0' <= c && c <= '9'
}

pub open spec fn all_decimal(s: Seq<char>) -> bool {
    forall|i: int| 0 <= i < s.len() ==> #[trigger] is_decimal_digit(s[i])
}

/// The number that the decimal digits `s` denote, most significant first.
pub open spec fn decimal_value(s: Seq<char>) -> nat
    decreases s.len(),
{
    if s.len() == 0 {
        0
    } else {
        decimal_value(s.drop_last()) * 10 + (s.last() as nat - '0' as nat) as nat
    }
}

/// The octet that one dotted piece denotes: one to three decimal digits,
/// no leading zero, at most 255.
pub open spec fn octet_of_text(p: Seq<char>) -> Option<u8> {
    if 1 <= p.len() <= 3 && all_decimal(p) && !(p.len() > 1 && p[0] == '0')
        && decimal_value(p) <= 255 {
        Some(decimal_value(p) as u8)
    } else {
        None
    }
}

/// The octets of the pieces `ps`, where every piece is one.
pub open spec fn octets_of(ps: Seq<Seq<char>>) -> Option<Seq<u8>>
    decreases ps.len(),
{
    if ps.len() == 0 {
        Some(Seq::empty())
    } else {
        match (octets_of(ps.drop_last()), octet_of_text(ps.last())) {
            (Some(os), Some(o)) => Some(os.push(o)),
            _ => None,
        }
    }
}

/// The address that a text denotes: exactly four dot-separated octets.
pub open spec fn ipv4_of_text(s: Seq<char>) -> Option<Seq<u8>> {
    let ps = split_on(s, '.');
    if ps.len() == 4 {
        octets_of(ps)
    } else {
        None
    }
}

/// The dotted-decimal text of an address.
pub open spec fn ipv4_text(o: Seq<u8>) -> Seq<char> {
    decimal_text(o[0] as nat) + seq!['.'] + decimal_text(o[1] as nat) + seq!['.']
        + decimal_text(o[2] as nat) + seq!['.'] + decimal_text(o[3] as nat)
}

proof fn lemma_octets_prefix(ps: Seq<Seq<char>>, j: int)
    requires
        0 <= j <= ps.len(),
        octets_of(ps) is Some,
    ensures
        octets_of(ps.subrange(0, j)) is Some,
        octets_of(ps)->0.len() == ps.len(),
    decreases ps.len(),
{
    if ps.len() > 0 {
        lemma_octets_prefix(ps.drop_last(), if j < ps.len() { j } else { 0 });
        if j < ps.len() {
            assert(ps.drop_last().subrange(0, j) =~= ps.subrange(0, j));
        } else {
            assert(ps.subrange(0, j) =~= ps);
        }
    }
}

fn read_octet(p: &Vec<char>) -> (r: Option<u8>)
    ensures
        r == octet_of_text(p@),
{
    let n = p.len();
    if n < 1 || n > 3 || (n > 1 && p[0] == '0') {
        return None;
    }
    let mut value: u32 = 0;
    let mut i: usize = 0;
    assert(p@.subrange(0, 0) =~= Seq::<char>::empty());
    while i < n
        invariant
            n == p@.len(),
            1 <= n <= 3,
            i <= n,
            all_decimal(p@.subrange(0, i as int)),
            value == decimal_value(p@.subrange(0, i as int)),
            value < 1000,
            i == 0 ==> value == 0,
            i == 1 ==> value < 10,
            i == 2 ==> value < 100,
        decreases n - i,
    {
        let c = p[i];
        let ghost next = p@.subrange(0, i as int + 1);
        assert(next.drop_last() =~= p@.subrange(0, i as int));
        if !('0' <= c && c <= '9') {
            assert(!is_decimal_digit(p@[i as int]));
            return None;
        }
        value = value * 10 + (c as u32 - '0' as u32);
        i = i + 1;
        assert(all_decimal(next));
    }
    assert(p@.subrange(0, n as int) =~= p@);
    if value > 255 {
        None
    } else {
        Some(value as u8)
    }
}

/// Reads the octets of `ps[0..to]`.
fn read_octets(ps: &Vec<Vec<char>>, to: usize) -> (r: Option<Vec<u8>>)
    requires
        to <= ps@.len(),
    ensures
        match r {
            Some(v) => octets_of(views(ps@).subrange(0, to as int)) == Some(v@),
            None => octets_of(views(ps@).subrange(0, to as int)) is None,
        },
{
    let mut out: Vec<u8> = Vec::new();
    let mut k: usize = 0;
    assert(views(ps@).subrange(0, 0) =~= Seq::<Seq<char>>::empty());
    while k < to
        invariant
            k <= to <= ps@.len(),
            octets_of(views(ps@).subrange(0, k as int)) == Some(out@),
        decreases to - k,
    {
        let ghost next = views(ps@).subrange(0, k as int + 1);
        assert(next.drop_last() =~= views(ps@).subrange(0, k as int));
        assert(next.last() == ps@[k as int]@);
        match read_octet(&ps[k]) {
            None => {
                proof {
                    if octets_of(views(ps@).subrange(0, to as int)) is Some {
                        lemma_octets_prefix(views(ps@).subrange(0, to as int), k as int + 1);
                        assert(views(ps@).subrange(0, to as int).subrange(0, k as int + 1) =~= next);
                    }
                }
                return None;
            },
            Some(o) => {
                out.push(o);
            },
        }
        k = k + 1;
    }
    Some(out)
}

/// Reads an address from dotted-decimal text; `None` where the text is no
/// such address.
pub fn parse_ipv4(text: &str) -> (r: Option<Ipv4Address>)
    ensures
        match r {
            Some(a) => ipv4_of_text(text@) == Some(a@),
            None => ipv4_of_text(text@) is None,
        },
{
    parse_ipv4_chars(&chars_of(text))
}

/// Reads an address from the characters of dotted-decimal text.
pub fn parse_ipv4_chars(cs: &Vec<char>) -> (r: Option<Ipv4Address>)
    ensures
        match r {
            Some(a) => ipv4_of_text(cs@) == Some(a@),
            None => ipv4_of_text(cs@) is None,
        },
{
    let ps = split_chars(cs, '.');
    if ps.len() != 4 {
        return None;
    }
    assert(views(ps@).subrange(0, 4) =~= views(ps@));
    match read_octets(&ps, 4) {
        None => None,
        Some(os) => {
            proof {
                lemma_octets_prefix(views(ps@), 0);
            }
            let a = Ipv4Address::new(os[0], os[1], os[2], os[3]);
            assert(a@ =~= os@);
            Some(a)
        },
    }
}

/// Appends the dotted-decimal text of `a` to `s`.
pub fn push_ipv4(s: &mut String, a: &Ipv4Address)
    ensures
        final(s)@ == old(s)@ + ipv4_text(a@),
{
    let ghost start = s@;
    push_decimal(s, a.octets[0] as u64);
    push_char(s, '.');
    push_decimal(s, a.octets[1] as u64);
    push_char(s, '.');
    push_decimal(s, a.octets[2] as u64);
    push_char(s, '.');
    push_decimal(s, a.octets[3] as u64);
    assert(s@ =~= start + ipv4_text(a@));
}

proof fn lemma_decimal_value(v: nat)
    ensures
        decimal_value(decimal_text(v)) == v,
    decreases v,
{
    let t = decimal_text(v);
    if v < 10 {
        assert(t.drop_last() =~= Seq::<char>::empty());
        assert(decimal_value(Seq::<char>::empty()) == 0);
        assert(decimal_value(t) == decimal_value(t.drop_last()) * 10 + (t.last() as nat - '0' as nat) as nat);
    } else {
        lemma_decimal_value(v / 10);
        assert(t.drop_last() == decimal_text(v / 10));
        assert(t.last() == decimal_char(v % 10));
        assert(v == (v / 10) * 10 + v % 10) by (nonlinear_arith);
        assert(decimal_value(t) == decimal_value(t.drop_last()) * 10 + (t.last() as nat - '0' as nat) as nat);
    }
}

proof fn lemma_octet_round_trip(v: u8)
    ensures
        octet_of_text(decimal_text(v as nat)) == Some(v),
        forall|i: int| 0 <= i < decimal_text(v as nat).len() ==> #[trigger] decimal_text(v as nat)[i] != '.',
{
    let t = decimal_text(v as nat);
    lemma_decimal_text(v as nat);
    lemma_decimal_value(v as nat);
    assert(all_decimal(t));
    if t.len() > 1 {
        assert(v >= 10);
    }
}

/// An address written in dotted-decimal text reads back as itself.
pub proof fn lemma_ipv4_round_trip(o: Seq<u8>)
    requires
        o.len() == 4,
    ensures
        ipv4_of_text(ipv4_text(o)) == Some(o),
{
    let d0 = decimal_text(o[0] as nat);
    let d1 = decimal_text(o[1] as nat);
    let d2 = decimal_text(o[2] as nat);
    let d3 = decimal_text(o[3] as nat);
    lemma_octet_round_trip(o[0]);
    lemma_octet_round_trip(o[1]);
    lemma_octet_round_trip(o[2]);
    lemma_octet_round_trip(o[3]);
    lemma_split_on_none(d0, '.');
    lemma_split_on_none(d1, '.');
    lemma_split_on_none(d2, '.');
    lemma_split_on_none(d3, '.');
    let x1 = d0 + seq!['.'] + d1;
    let x2 = x1 + seq!['.'] + d2;
    let x3 = x2 + seq!['.'] + d3;
    lemma_split_on_join(d0, '.', d1);
    lemma_split_on_join(x1, '.', d2);
    lemma_split_on_join(x2, '.', d3);
    let ps = split_on(x3, '.');
    assert(ps =~= seq![d0, d1, d2, d3]);
    assert(ipv4_text(o) == x3);
    let upto_three = ps.drop_last();
    let upto_two = upto_three.drop_last();
    let upto_one = upto_two.drop_last();
    assert(upto_one =~= seq![d0]);
    assert(upto_two =~= seq![d0, d1]);
    assert(upto_three =~= seq![d0, d1, d2]);
    assert(upto_one.drop_last() =~= Seq::<Seq<char>>::empty());
    assert(octets_of(upto_one.drop_last()) == Some(Seq::<u8>::empty()));
    assert(octets_of(upto_one) == Some(Seq::<u8>::empty().push(o[0])));
    assert(octets_of(upto_two) == Some(Seq::<u8>::empty().push(o[0]).push(o[1])));
    assert(octets_of(upto_three) == Some(Seq::<u8>::empty().push(o[0]).push(o[1]).push(o[2])));
    assert(octets_of(ps) == Some(Seq::<u8>::empty().push(o[0]).push(o[1]).push(o[2]).push(o[3])));
    assert(Seq::<u8>::empty().push(o[0]).push(o[1]).push(o[2]).push(o[3]) =~= o);
}

/// The dotted-decimal text of an address holds no colon.
pub proof fn lemma_ipv4_text_no_colon(o: Seq<u8>)
    requires
        o.len() == 4,
    ensures
        forall|i: int| 0 <= i < ipv4_text(o).len() ==> #[trigger] ipv4_text(o)[i] != ':',
{
    lemma_decimal_text(o[0] as nat);
    lemma_decimal_text(o[1] as nat);
    lemma_decimal_text(o[2] as nat);
    lemma_decimal_text(o[3] as nat);
    let d0 = decimal_text(o[0] as nat);
    let d1 = decimal_text(o[1] as nat);
    let d2 = decimal_text(o[2] as nat);
    let d3 = decimal_text(o[3] as nat);
    let t = ipv4_text(o);
    assert forall|i: int| 0 <= i < t.len() implies #[trigger] t[i] != ':' by {
        let a = d0.len() as int;
        let b = a + 1 + d1.len();
        let c = b + 1 + d2.len();
        if i < a {
            assert(t[i] == d0[i]);
        } else if i == a {
            assert(t[i] == '.');
        } else if i < b {
            assert(t[i] == d1[i - a - 1]);
        } else if i == b {
            assert(t[i] == '.');
        } else if i < c {
            assert(t[i] == d2[i - b - 1]);
        } else if i == c {
            assert(t[i] == '.');
        } else {
            assert(t[i] == d3[i - c - 1]);
        }
    }
}

/// A text without a dot is no address.
pub proof fn lemma_ipv4_needs_dot(s: Seq<char>)
    requires
        forall|i: int| 0 <= i < s.len() ==> s[i] != '.',
    ensures
        ipv4_of_text(s) is None,
{
    lemma_split_on_none(s, '.');
}

/// An address read from text has four octets.
pub proof fn lemma_ipv4_len(s: Seq<char>)
    ensures
        ipv4_of_text(s) matches Some(o) ==> o.len() == 4,
{
    if ipv4_of_text(s) is Some {
        lemma_octets_prefix(split_on(s, '.'), 0);
    }
}

} // verus!
