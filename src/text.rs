//! Character-level helpers shared by the parsers and the encoder.

use vstd::prelude::*;
use vstd::string::*;

verus! {

/// Relies on `String::push`: the character is added at the end.
#[verifier::external_body]
pub(crate) fn push_char(s: &mut String, c: char)
    ensures
        final(s)@ == old(s)@.push(c),
{
    s.push(c)
}

/// The characters of `s`, in order.
pub fn chars_of(s: &str) -> (r: Vec<char>)
    ensures
        r@ == s@,
{
    let n = s.unicode_len();
    let mut out: Vec<char> = Vec::new();
    let mut i: usize = 0;
    while i < n
        invariant
            n == s@.len(),
            i <= n,
            out@ == s@.subrange(0, i as int),
        decreases n - i,
    {
        out.push(s.get_char(i));
        i = i + 1;
        assert(out@ =~= s@.subrange(0, i as int));
    }
    assert(out@ =~= s@);
    out
}

/// Appends the characters `cs` to `s`.
pub fn push_chars(s: &mut String, cs: &Vec<char>)
    ensures
        final(s)@ == old(s)@ + cs@,
{
    let ghost start = s@;
    let mut i: usize = 0;
    while i < cs.len()
        invariant
            i <= cs@.len(),
            s@ == start + cs@.subrange(0, i as int),
        decreases cs@.len() - i,
    {
        push_char(s, cs[i]);
        i = i + 1;
        assert(s@ =~= start + cs@.subrange(0, i as int));
    }
    assert(cs@.subrange(0, cs@.len() as int) =~= cs@);
}

/// Appends the text `t` to `s`.
pub fn push_text(s: &mut String, t: &str)
    ensures
        final(s)@ == old(s)@ + t@,
{
    s.append(t);
}

/// The decimal digit character for `d`.
pub open spec fn decimal_char(d: nat) -> char {
    if d == 0 { '0' } else if d == 1 { '1' } else if d == 2 { '2' } else if d == 3 { '3' }
    else if d == 4 { '4' } else if d == 5 { '5' } else if d == 6 { '6' } else if d == 7 { '7' }
    else if d == 8 { '8' } else { '9' }
}

/// The decimal text of `v`, without leading zeros.
pub open spec fn decimal_text(v: nat) -> Seq<char>
    decreases v,
{
    if v < 10 {
        seq![decimal_char(v)]
    } else {
        decimal_text(v / 10).push(decimal_char(v % 10))
    }
}

fn decimal_digit(d: u64) -> (c: char)
    requires
        d < 10,
    ensures
        c == decimal_char(d as nat),
{
    if d == 0 { '0' } else if d == 1 { '1' } else if d == 2 { '2' } else if d == 3 { '3' }
    else if d == 4 { '4' } else if d == 5 { '5' } else if d == 6 { '6' } else if d == 7 { '7' }
    else if d == 8 { '8' } else { '9' }
}

/// Appends the decimal text of `v` to `s`.
pub fn push_decimal(s: &mut String, v: u64)
    ensures
        final(s)@ == old(s)@ + decimal_text(v as nat),
{
    let mut digits: Vec<char> = Vec::new();
    let mut rest: u64 = v;
    assert(decimal_text(v as nat) =~= decimal_text(rest as nat) + digits@);
    loop
        invariant_except_break
            decimal_text(v as nat) == decimal_text(rest as nat) + digits@,
        ensures
            decimal_text(v as nat) == digits@,
        decreases rest,
    {
        let d = rest % 10;
        let c = decimal_digit(d);
        let ghost before = digits@;
        digits.insert(0, c);
        assert(digits@ =~= seq![c] + before);
        if rest < 10 {
            assert(decimal_text(v as nat) =~= digits@);
            break;
        }
        let ghost old_rest = rest;
        rest = rest / 10;
        assert(decimal_text(old_rest as nat) == decimal_text(rest as nat).push(c));
        assert(decimal_text(v as nat) =~= decimal_text(rest as nat) + digits@);
    }
    push_chars(s, &digits);
}

/// The views of a sequence of character vectors.
pub open spec fn views(v: Seq<Vec<char>>) -> Seq<Seq<char>> {
    v.map_values(|p: Vec<char>| p@)
}

/// The pieces of `s` between occurrences of `sep`; always at least one.
pub open spec fn split_on(s: Seq<char>, sep: char) -> Seq<Seq<char>>
    decreases s.len(),
{
    if s.len() == 0 {
        seq![Seq::<char>::empty()]
    } else {
        let p = split_on(s.drop_last(), sep);
        if s.last() == sep {
            p.push(Seq::<char>::empty())
        } else {
            p.update(p.len() - 1, p.last().push(s.last()))
        }
    }
}

pub proof fn lemma_split_on_len(s: Seq<char>, sep: char)
    ensures
        split_on(s, sep).len() >= 1,
    decreases s.len(),
{
    if s.len() > 0 {
        lemma_split_on_len(s.drop_last(), sep);
    }
}

/// Splits `cs` at every occurrence of `sep`.
pub fn split_chars(cs: &Vec<char>, sep: char) -> (r: Vec<Vec<char>>)
    ensures
        views(r@) == split_on(cs@, sep),
{
    let mut pieces: Vec<Vec<char>> = Vec::new();
    let mut cur: Vec<char> = Vec::new();
    let mut i: usize = 0;
    assert(cs@.subrange(0, 0) =~= Seq::<char>::empty());
    assert(views(pieces@).push(cur@) =~= split_on(cs@.subrange(0, 0), sep));
    while i < cs.len()
        invariant
            i <= cs@.len(),
            views(pieces@).push(cur@) == split_on(cs@.subrange(0, i as int), sep),
        decreases cs@.len() - i,
    {
        let ghost pre = cs@.subrange(0, i as int);
        let ghost next = cs@.subrange(0, i as int + 1);
        assert(next.drop_last() =~= pre);
        assert(next.last() == cs@[i as int]);
        let c = cs[i];
        if c == sep {
            let done = cur;
            pieces.push(done);
            cur = Vec::new();
            assert(views(pieces@).push(cur@) =~= split_on(pre, sep).push(Seq::<char>::empty()));
        } else {
            let ghost before = views(pieces@).push(cur@);
            cur.push(c);
            assert(views(pieces@).push(cur@) =~= before.update(before.len() - 1, before.last().push(c)));
        }
        i = i + 1;
    }
    assert(cs@.subrange(0, cs@.len() as int) =~= cs@);
    pieces.push(cur);
    assert(views(pieces@) =~= split_on(cs@, sep));
    pieces
}

/// Splitting at a separator splits each side apart.
pub proof fn lemma_split_on_join(x: Seq<char>, sep: char, y: Seq<char>)
    ensures
        split_on(x + seq![sep] + y, sep) == split_on(x, sep) + split_on(y, sep),
    decreases y.len(),
{
    let xs = x + seq![sep];
    if y.len() == 0 {
        assert(xs + y =~= xs);
        assert(xs.drop_last() =~= x);
        assert(split_on(x, sep).push(Seq::<char>::empty()) =~= split_on(x, sep) + split_on(y, sep));
    } else {
        lemma_split_on_join(x, sep, y.drop_last());
        lemma_split_on_len(y.drop_last(), sep);
        lemma_split_on_len(x, sep);
        let whole = xs + y;
        assert(whole.drop_last() =~= xs + y.drop_last());
        assert(whole.last() == y.last());
        let p = split_on(xs + y.drop_last(), sep);
        let l = split_on(x, sep);
        let r = split_on(y.drop_last(), sep);
        assert(p == l + r);
        if y.last() == sep {
            assert(p.push(Seq::<char>::empty()) =~= l + r.push(Seq::<char>::empty()));
        } else {
            assert(p.update(p.len() - 1, p.last().push(y.last())) =~= l + r.update(
                r.len() - 1,
                r.last().push(y.last()),
            ));
        }
    }
}

/// A text without the separator is one piece.
pub proof fn lemma_split_on_none(x: Seq<char>, sep: char)
    requires
        forall|i: int| 0 <= i < x.len() ==> x[i] != sep,
    ensures
        split_on(x, sep) == seq![x],
    decreases x.len(),
{
    if x.len() > 0 {
        lemma_split_on_none(x.drop_last(), sep);
        assert(x.drop_last().push(x.last()) =~= x);
        assert(seq![x.drop_last()].update(0, x) =~= seq![x]);
    } else {
        assert(x =~= Seq::<char>::empty());
    }
}

/// Facts on the decimal text of a number.
pub proof fn lemma_decimal_text(v: nat)
    ensures
        decimal_text(v).len() >= 1,
        forall|i: int| 0 <= i < decimal_text(v).len() ==> '0' <= #[trigger] decimal_text(v)[i] <= '9',
        v >= 1 ==> decimal_text(v)[0] != '0',
        v < 10 ==> decimal_text(v).len() == 1,
        v < 100 ==> decimal_text(v).len() <= 2,
        v < 1000 ==> decimal_text(v).len() <= 3,
    decreases v,
{
    if v >= 10 {
        lemma_decimal_text(v / 10);
        let t = decimal_text(v);
        assert(t.drop_last() == decimal_text(v / 10));
        assert forall|i: int| 0 <= i < t.len() implies '0' <= #[trigger] t[i] <= '9' by {
            if i < t.len() - 1 {
                assert(t[i] == decimal_text(v / 10)[i]);
            }
        }
        assert(t[0] == decimal_text(v / 10)[0]);
    }
}

} // verus!
