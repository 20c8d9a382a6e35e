//! IPv6 addresses in colon-separated hexadecimal text.

use vstd::prelude::*;
use crate::hex::{
    all_hex, digits_value, hex_text, lemma_hex_text, lemma_hex_text_short, push_hex, read_hex_digits,
};
use crate::ipv4::{
    ipv4_of_text, ipv4_text, lemma_ipv4_len, lemma_ipv4_needs_dot, lemma_ipv4_round_trip,
    lemma_ipv4_text_no_colon, parse_ipv4_chars, push_ipv4, Ipv4Address,
};
use crate::text::{
    chars_of, lemma_split_on_join, lemma_split_on_none, push_char, split_chars,
    split_on, views,
};

verus! {

/// An IPv6 address as its eight 16-bit segments, most significant first.
#[derive(Clone, Copy, Debug, PartialEq, Eq)]
pub struct Ipv6Address {
    pub segments: [u16; 8],
}

impl View for Ipv6Address {
    type V = Seq<u16>;

    open spec fn view(&self) -> Seq<u16> {
        self.segments@
    }
}

impl Ipv6Address {
    pub fn new(a: u16, b: u16, c: u16, d: u16, e: u16, f: u16, g: u16, h: u16) -> (r: Ipv6Address)
        ensures
            r@ == seq![a, b, c, d, e, f, g, h],
    {
        let r = Ipv6Address { segments: [a, b, c, d, e, f, g, h] };
        assert(r@ =~= seq![a, b, c, d, e, f, g, h]);
        r
    }
}

/// The segment that one piece denotes: one to four hexadecimal digits.
pub open spec fn group_of_text(p: Seq<char>) -> Option<u16> {
    if 1 <= p.len() <= 4 && all_hex(p) && digits_value(p) <= 0xffff {
        Some(digits_value(p) as u16)
    } else {
        None
    }
}

/// The segments of the pieces `ps`, where every piece is one.
pub open spec fn groups_of(ps: Seq<Seq<char>>) -> Option<Seq<u16>>
    decreases ps.len(),
{
    if ps.len() == 0 {
        Some(Seq::empty())
    } else {
        match (groups_of(ps.drop_last()), group_of_text(ps.last())) {
            (Some(gs), Some(g)) => Some(gs.push(g)),
            _ => None,
        }
    }
}

/// The two segments that an embedded IPv4 address stands for.
pub open spec fn v4_segments(o: Seq<u8>) -> Seq<u16> {
    seq![(o[0] as int * 256 + o[1] as int) as u16, (o[2] as int * 256 + o[3] as int) as u16]
}

/// The segments of the pieces `ps`, where the last may be an IPv4 address
/// in dotted-decimal text that stands for two segments.
pub open spec fn groups_with_v4(ps: Seq<Seq<char>>) -> Option<Seq<u16>> {
    if ps.len() > 0 && ipv4_of_text(ps.last()) is Some {
        match groups_of(ps.drop_last()) {
            Some(g) => Some(g + v4_segments(ipv4_of_text(ps.last())->Some_0)),
            None => None,
        }
    } else {
        groups_of(ps)
    }
}

/// The position of the first empty piece at or after `k`, or the length.
pub open spec fn first_empty(ps: Seq<Seq<char>>, k: int) -> int
    decreases ps.len() - k,
{
    if k < 0 || k >= ps.len() {
        ps.len() as int
    } else if ps[k].len() == 0 {
        k
    } else {
        first_empty(ps, k + 1)
    }
}

/// Where the pieces after a `::` begin, given the first empty piece `i`.
pub open spec fn rest_start(i: int) -> int {
    if i == 0 { 2 } else { i + 1 }
}

/// The pieces after a `::`: none where the text ends with it.
pub open spec fn tail_pieces(rest: Seq<Seq<char>>) -> Seq<Seq<char>> {
    if rest.len() == 1 && rest[0].len() == 0 {
        Seq::empty()
    } else {
        rest
    }
}

/// The address that a text denotes: eight segments, or fewer around a
/// single `::` that stands for one or more zero segments; the last two
/// segments may be written as an IPv4 address in dotted-decimal text.
pub open spec fn ipv6_of_text(s: Seq<char>) -> Option<Seq<u16>> {
    let ps = split_on(s, ':');
    let i = first_empty(ps, 0);
    if i == ps.len() {
        match groups_with_v4(ps) {
            Some(g) => if g.len() == 8 {
                Some(g)
            } else {
                None
            },
            None => None,
        }
    } else if (i == 0 && !(ps.len() >= 2 && ps[1].len() == 0)) || rest_start(i) >= ps.len() {
        None
    } else {
        let head = ps.subrange(0, i);
        let tail = tail_pieces(ps.subrange(rest_start(i), ps.len() as int));
        match (groups_of(head), groups_with_v4(tail)) {
            (Some(h), Some(t)) => if h.len() + t.len() <= 7 {
                Some(h + Seq::new((8 - h.len() - t.len()) as nat, |j: int| 0u16) + t)
            } else {
                None
            },
            _ => None,
        }
    }
}

proof fn lemma_first_empty(ps: Seq<Seq<char>>, k: int)
    requires
        0 <= k <= ps.len(),
    ensures
        k <= first_empty(ps, k) <= ps.len(),
        first_empty(ps, k) < ps.len() ==> ps[first_empty(ps, k)].len() == 0,
        forall|j: int| k <= j < first_empty(ps, k) ==> #[trigger] ps[j].len() > 0,
    decreases ps.len() - k,
{
    if k < ps.len() && ps[k].len() != 0 {
        lemma_first_empty(ps, k + 1);
    }
}

proof fn lemma_groups_prefix(ps: Seq<Seq<char>>, j: int)
    requires
        0 <= j <= ps.len(),
        groups_of(ps) is Some,
    ensures
        groups_of(ps.subrange(0, j)) is Some,
        groups_of(ps)->0.len() == ps.len(),
    decreases ps.len(),
{
    if ps.len() > 0 {
        lemma_groups_prefix(ps.drop_last(), if j < ps.len() { j } else { 0 });
        if j < ps.len() {
            assert(ps.drop_last().subrange(0, j) =~= ps.subrange(0, j));
        } else {
            assert(ps.subrange(0, j) =~= ps);
        }
    }
}

fn read_group(p: &Vec<char>) -> (r: Option<u16>)
    ensures
        r == group_of_text(p@),
{
    if p.len() < 1 || p.len() > 4 {
        return None;
    }
    assert(p@.subrange(0, p@.len() as int) =~= p@);
    match read_hex_digits(p, 0) {
        Some(v) => if v <= 0xffff {
            Some(v as u16)
        } else {
            None
        },
        None => None,
    }
}

/// Reads the segments of `ps[from..to]`.
fn read_groups(ps: &Vec<Vec<char>>, from: usize, to: usize) -> (r: Option<Vec<u16>>)
    requires
        from <= to <= ps@.len(),
    ensures
        match r {
            Some(v) => groups_of(views(ps@).subrange(from as int, to as int)) == Some(v@),
            None => groups_of(views(ps@).subrange(from as int, to as int)) is None,
        },
{
    let mut out: Vec<u16> = Vec::new();
    let mut k: usize = from;
    assert(views(ps@).subrange(from as int, from as int) =~= Seq::<Seq<char>>::empty());
    while k < to
        invariant
            from <= k <= to <= ps@.len(),
            groups_of(views(ps@).subrange(from as int, k as int)) == Some(out@),
        decreases to - k,
    {
        let ghost next = views(ps@).subrange(from as int, k as int + 1);
        assert(next.drop_last() =~= views(ps@).subrange(from as int, k as int));
        assert(next.last() == ps@[k as int]@);
        match read_group(&ps[k]) {
            None => {
                proof {
                    let all = views(ps@).subrange(from as int, to as int);
                    if groups_of(all) is Some {
                        lemma_groups_prefix(all, k - from + 1);
                        assert(all.subrange(0, k - from + 1) =~= next);
                    }
                }
                return None;
            },
            Some(g) => {
                out.push(g);
            },
        }
        k = k + 1;
    }
    Some(out)
}

/// Reads the segments of `ps[from..to]`, the last piece of which may be an
/// embedded IPv4 address.
fn read_groups_with_v4(ps: &Vec<Vec<char>>, from: usize, to: usize) -> (r: Option<Vec<u16>>)
    requires
        from <= to <= ps@.len(),
    ensures
        match r {
            Some(v) => groups_with_v4(views(ps@).subrange(from as int, to as int)) == Some(v@),
            None => groups_with_v4(views(ps@).subrange(from as int, to as int)) is None,
        },
{
    let ghost sub = views(ps@).subrange(from as int, to as int);
    if to > from {
        assert(sub.last() == ps@[to - 1]@);
        assert(sub.drop_last() =~= views(ps@).subrange(from as int, to - 1));
        if let Some(a) = parse_ipv4_chars(&ps[to - 1]) {
            proof {
                lemma_ipv4_len(ps@[to - 1]@);
            }
            let mut gs = match read_groups(ps, from, to - 1) {
                Some(gs) => gs,
                None => {
                    return None;
                },
            };
            let ghost head = gs@;
            gs.push((a.octets[0] as u16) * 256 + (a.octets[1] as u16));
            gs.push((a.octets[2] as u16) * 256 + (a.octets[3] as u16));
            assert(gs@ =~= head + v4_segments(a@));
            return Some(gs);
        }
    }
    read_groups(ps, from, to)
}

/// The position of the first empty piece of `ps`, or its length.
fn find_empty(ps: &Vec<Vec<char>>) -> (i: usize)
    ensures
        i == first_empty(views(ps@), 0),
{
    let mut k: usize = 0;
    while k < ps.len()
        invariant
            k <= ps@.len(),
            first_empty(views(ps@), 0) == first_empty(views(ps@), k as int),
        decreases ps@.len() - k,
    {
        if ps[k].len() == 0 {
            return k;
        }
        k = k + 1;
    }
    k
}

fn address_of(v: &Vec<u16>) -> (r: Ipv6Address)
    requires
        v@.len() == 8,
    ensures
        r@ == v@,
{
    let r = Ipv6Address::new(v[0], v[1], v[2], v[3], v[4], v[5], v[6], v[7]);
    assert(r@ =~= v@);
    r
}

/// Reads an address from its text; `None` where the text is no such
/// address.
pub fn parse_ipv6(text: &str) -> (r: Option<Ipv6Address>)
    ensures
        match r {
            Some(a) => ipv6_of_text(text@) == Some(a@),
            None => ipv6_of_text(text@) is None,
        },
{
    let cs = chars_of(text);
    let ps = split_chars(&cs, ':');
    let ghost vs = views(ps@);
    let n = ps.len();
    let i = find_empty(&ps);
    proof {
        lemma_first_empty(vs, 0);
    }
    if i == n {
        assert(vs.subrange(0, n as int) =~= vs);
        return match read_groups_with_v4(&ps, 0, n) {
            Some(gs) => if gs.len() == 8 {
                Some(address_of(&gs))
            } else {
                None
            },
            None => None,
        };
    }
    assert(vs[i as int].len() == 0);
    if i == 0 && !(n >= 2 && ps[1].len() == 0) {
        return None;
    }
    let start: usize = if i == 0 { 2 } else { i + 1 };
    if start >= n {
        return None;
    }
    let tail_from: usize = if start + 1 == n && ps[start].len() == 0 { n } else { start };
    let ghost rest = vs.subrange(start as int, n as int);
    assert(tail_pieces(rest) =~= vs.subrange(tail_from as int, n as int));
    let head = match read_groups(&ps, 0, i) {
        None => {
            return None;
        },
        Some(h) => h,
    };
    let tail = match read_groups_with_v4(&ps, tail_from, n) {
        None => {
            return None;
        },
        Some(t) => t,
    };
    proof {
        lemma_groups_prefix(vs.subrange(0, i as int), 0);
    }
    if head.len() > 7 || tail.len() > 7 || head.len() + tail.len() > 7 {
        return None;
    }
    let mut segs: Vec<u16> = Vec::new();
    let mut k: usize = 0;
    while k < head.len()
        invariant
            k <= head@.len(),
            segs@ == head@.subrange(0, k as int),
        decreases head@.len() - k,
    {
        segs.push(head[k]);
        k = k + 1;
        assert(segs@ =~= head@.subrange(0, k as int));
    }
    let zeros: usize = 8 - head.len() - tail.len();
    let mut z: usize = 0;
    while z < zeros
        invariant
            z <= zeros,
            segs@ == head@ + Seq::new(z as nat, |j: int| 0u16),
        decreases zeros - z,
    {
        segs.push(0);
        z = z + 1;
        assert(segs@ =~= head@ + Seq::new(z as nat, |j: int| 0u16));
    }
    let ghost mid = segs@;
    k = 0;
    while k < tail.len()
        invariant
            k <= tail@.len(),
            segs@ == mid + tail@.subrange(0, k as int),
        decreases tail@.len() - k,
    {
        segs.push(tail[k]);
        k = k + 1;
        assert(segs@ =~= mid + tail@.subrange(0, k as int));
    }
    assert(segs@ =~= head@ + Seq::new(zeros as nat, |j: int| 0u16) + tail@);
    Some(address_of(&segs))
}

/// The longest run of zero segments among the first `k`, as
/// `(start, length)` of the leftmost longest run and of the run in
/// progress at `k`.
pub open spec fn zero_runs(segs: Seq<u16>, k: int) -> (int, int, int, int)
    decreases k,
{
    if k <= 0 {
        (0, 0, 0, 0)
    } else {
        let (bs, bl, cs, cl) = zero_runs(segs, k - 1);
        if segs[k - 1] == 0 {
            let ns = if cl == 0 { k - 1 } else { cs };
            if cl + 1 > bl {
                (ns, cl + 1, ns, cl + 1)
            } else {
                (bs, bl, ns, cl + 1)
            }
        } else {
            (bs, bl, 0, 0)
        }
    }
}

/// Segments in lower-case hexadecimal, separated by `:`.
pub open spec fn join_groups(gs: Seq<u16>) -> Seq<char>
    decreases gs.len(),
{
    if gs.len() == 0 {
        Seq::empty()
    } else if gs.len() == 1 {
        hex_text(gs[0] as nat)
    } else {
        join_groups(gs.drop_last()) + seq![':'] + hex_text(gs.last() as nat)
    }
}

/// An IPv4-mapped address: five zero segments, then `ffff`.
pub open spec fn is_ipv4_mapped(segs: Seq<u16>) -> bool {
    segs[0] == 0 && segs[1] == 0 && segs[2] == 0 && segs[3] == 0 && segs[4] == 0 && segs[5]
        == 0xffff
}

/// The IPv4 address that the last two segments hold.
pub open spec fn mapped_octets(segs: Seq<u16>) -> Seq<u8> {
    seq![(segs[6] / 256) as u8, (segs[6] % 256) as u8, (segs[7] / 256) as u8, (segs[7] % 256) as u8]
}

/// The text of an address: an IPv4-mapped address as `::ffff:` and its
/// IPv4 address in dotted-decimal text; any other with its longest run of
/// two or more zero segments (the leftmost, on a tie) written as `::`.
pub open spec fn ipv6_text(segs: Seq<u16>) -> Seq<char> {
    if is_ipv4_mapped(segs) {
        seq![':', ':'] + hex_text(0xffff) + seq![':'] + ipv4_text(mapped_octets(segs))
    } else {
        compressed_text(segs)
    }
}

/// The segments in lower-case hexadecimal separated by `:`, with the
/// longest run of two or more zero segments (the leftmost, on a tie)
/// written as `::`.
pub open spec fn compressed_text(segs: Seq<u16>) -> Seq<char> {
    let (bs, bl, cs, cl) = zero_runs(segs, 8);
    if bl > 1 {
        join_groups(segs.subrange(0, bs)) + seq![':', ':'] + join_groups(
            segs.subrange(bs + bl, 8),
        )
    } else {
        join_groups(segs)
    }
}

proof fn lemma_zero_runs_bounds(segs: Seq<u16>, k: int)
    requires
        0 <= k <= segs.len(),
    ensures
        ({
            let (bs, bl, cs, cl) = zero_runs(segs, k);
            0 <= bs && 0 <= bl && bs + bl <= k && 0 <= cs && 0 <= cl && cs + cl <= k
        }),
    decreases k,
{
    if k > 0 {
        lemma_zero_runs_bounds(segs, k - 1);
    }
}

/// Appends the segments `segs[from..to]`, separated by `:`.
fn push_groups(s: &mut String, segs: &[u16; 8], from: usize, to: usize)
    requires
        from <= to <= 8,
    ensures
        final(s)@ == old(s)@ + join_groups(segs@.subrange(from as int, to as int)),
{
    let ghost start = old(s)@;
    let mut k: usize = from;
    assert(segs@.subrange(from as int, from as int) =~= Seq::<u16>::empty());
    while k < to
        invariant
            from <= k <= to <= 8,
            segs@.len() == 8,
            s@ == start + join_groups(segs@.subrange(from as int, k as int)),
        decreases to - k,
    {
        let ghost next = segs@.subrange(from as int, k as int + 1);
        assert(next.drop_last() =~= segs@.subrange(from as int, k as int));
        if k > from {
            push_char(s, ':');
        }
        push_hex(s, segs[k] as u128);
        k = k + 1;
        assert(s@ =~= start + join_groups(next));
    }
}

/// Appends the text of `a` to `s`.
pub fn push_ipv6(s: &mut String, a: &Ipv6Address)
    ensures
        final(s)@ == old(s)@ + ipv6_text(a@),
{
    let g = &a.segments;
    if g[0] == 0 && g[1] == 0 && g[2] == 0 && g[3] == 0 && g[4] == 0 && g[5] == 0xffff {
        let ghost start = s@;
        let v4 = Ipv4Address::new(
            (g[6] / 256) as u8,
            (g[6] % 256) as u8,
            (g[7] / 256) as u8,
            (g[7] % 256) as u8,
        );
        push_char(s, ':');
        push_char(s, ':');
        push_hex(s, 0xffff);
        push_char(s, ':');
        push_ipv4(s, &v4);
        assert(v4@ =~= mapped_octets(a@));
        assert(s@ =~= start + ipv6_text(a@));
    } else {
        push_compressed(s, a);
    }
}

fn push_compressed(s: &mut String, a: &Ipv6Address)
    ensures
        final(s)@ == old(s)@ + compressed_text(a@),
{
    let ghost segs = a@;
    let mut best_start: usize = 0;
    let mut best_len: usize = 0;
    let mut cur_start: usize = 0;
    let mut cur_len: usize = 0;
    let mut k: usize = 0;
    while k < 8
        invariant
            k <= 8,
            segs.len() == 8,
            segs == a@,
            zero_runs(segs, k as int) == (
            best_start as int,
            best_len as int,
            cur_start as int,
            cur_len as int,
            ),
        decreases 8 - k,
    {
        proof {
            lemma_zero_runs_bounds(segs, k as int);
        }
        if a.segments[k] == 0 {
            if cur_len == 0 {
                cur_start = k;
            }
            cur_len = cur_len + 1;
            if cur_len > best_len {
                best_start = cur_start;
                best_len = cur_len;
            }
        } else {
            cur_start = 0;
            cur_len = 0;
        }
        k = k + 1;
    }
    proof {
        lemma_zero_runs_bounds(segs, 8);
    }
    if best_len > 1 {
        let ghost start = s@;
        push_groups(s, &a.segments, 0, best_start);
        push_char(s, ':');
        push_char(s, ':');
        push_groups(s, &a.segments, best_start + best_len, 8);
        assert(s@ =~= start + compressed_text(segs));
    } else {
        assert(segs.subrange(0, 8) =~= segs);
        push_groups(s, &a.segments, 0, 8);
    }
}

pub open spec fn group_texts(gs: Seq<u16>) -> Seq<Seq<char>> {
    gs.map_values(|g: u16| hex_text(g as nat))
}

proof fn lemma_group_round_trip(g: u16)
    ensures
        group_of_text(hex_text(g as nat)) == Some(g),
        hex_text(g as nat).len() >= 1,
        forall|i: int| 0 <= i < hex_text(g as nat).len() ==> #[trigger] hex_text(g as nat)[i] != ':',
        ipv4_of_text(hex_text(g as nat)) is None,
{
    lemma_hex_text(g as nat);
    lemma_hex_text_short(g as nat);
    lemma_ipv4_needs_dot(hex_text(g as nat));
}

/// Pieces written from segments hold no embedded IPv4 address.
proof fn lemma_texts_without_v4(gs: Seq<u16>)
    ensures
        groups_with_v4(group_texts(gs)) == Some(gs),
{
    lemma_groups_of_texts(gs);
    if gs.len() > 0 {
        lemma_group_round_trip(gs.last());
        assert(group_texts(gs).last() == hex_text(gs.last() as nat));
    }
}

proof fn lemma_split_groups(gs: Seq<u16>)
    requires
        gs.len() >= 1,
    ensures
        split_on(join_groups(gs), ':') == group_texts(gs),
    decreases gs.len(),
{
    lemma_group_round_trip(gs.last());
    lemma_split_on_none(hex_text(gs.last() as nat), ':');
    if gs.len() == 1 {
        lemma_group_round_trip(gs[0]);
        assert(group_texts(gs) =~= seq![hex_text(gs[0] as nat)]);
    } else {
        lemma_split_groups(gs.drop_last());
        lemma_split_on_join(join_groups(gs.drop_last()), ':', hex_text(gs.last() as nat));
        assert(group_texts(gs) =~= group_texts(gs.drop_last()) + seq![hex_text(gs.last() as nat)]);
    }
}

proof fn lemma_groups_of_texts(gs: Seq<u16>)
    ensures
        groups_of(group_texts(gs)) == Some(gs),
        forall|i: int| 0 <= i < gs.len() ==> #[trigger] group_texts(gs)[i].len() > 0,
    decreases gs.len(),
{
    assert forall|i: int| 0 <= i < gs.len() implies #[trigger] group_texts(gs)[i].len() > 0 by {
        lemma_group_round_trip(gs[i]);
    }
    if gs.len() > 0 {
        lemma_groups_of_texts(gs.drop_last());
        lemma_group_round_trip(gs.last());
        assert(group_texts(gs).drop_last() =~= group_texts(gs.drop_last()));
        assert(gs.drop_last().push(gs.last()) =~= gs);
    } else {
        assert(group_texts(gs) =~= Seq::<Seq<char>>::empty());
    }
}

proof fn lemma_first_empty_after(ps: Seq<Seq<char>>, n: int, k: int)
    requires
        0 <= k <= n < ps.len(),
        ps[n].len() == 0,
        forall|j: int| 0 <= j < n ==> #[trigger] ps[j].len() > 0,
    ensures
        first_empty(ps, k) == n,
    decreases n - k,
{
    if k < n {
        lemma_first_empty_after(ps, n, k + 1);
    }
}

proof fn lemma_zero_runs_zero(segs: Seq<u16>, k: int)
    requires
        0 <= k <= segs.len(),
    ensures
        ({
            let (bs, bl, cs, cl) = zero_runs(segs, k);
            &&& forall|j: int| bs <= j < bs + bl ==> segs[j] == 0
            &&& forall|j: int| cs <= j < cs + cl ==> segs[j] == 0
            &&& cl > 0 ==> cs + cl == k
        }),
    decreases k,
{
    if k > 0 {
        lemma_zero_runs_zero(segs, k - 1);
        lemma_zero_runs_bounds(segs, k - 1);
    }
}

proof fn lemma_pieces_text(gs: Seq<u16>)
    ensures
        gs.len() == 0 ==> split_on(join_groups(gs), ':') == seq![Seq::<char>::empty()],
        gs.len() > 0 ==> split_on(join_groups(gs), ':') == group_texts(gs),
{
    if gs.len() == 0 {
        assert(join_groups(gs) =~= Seq::<char>::empty());
    } else {
        lemma_split_groups(gs);
    }
}

/// An address written in its text form reads back as itself.
pub proof fn lemma_ipv6_round_trip(a: Seq<u16>)
    requires
        a.len() == 8,
    ensures
        ipv6_of_text(ipv6_text(a)) == Some(a),
{
    if is_ipv4_mapped(a) {
        lemma_mapped_round_trip(a);
    } else {
        lemma_compressed_round_trip(a);
        assert(ipv6_text(a) == compressed_text(a));
    }
}

proof fn lemma_mapped_round_trip(a: Seq<u16>)
    requires
        a.len() == 8,
        is_ipv4_mapped(a),
    ensures
        ipv6_of_text(ipv6_text(a)) == Some(a),
{
    let o = mapped_octets(a);
    let f = hex_text(0xffff);
    let v = ipv4_text(o);
    lemma_group_round_trip(0xffff);
    lemma_ipv4_text_no_colon(o);
    lemma_ipv4_round_trip(o);
    lemma_split_on_none(f, ':');
    lemma_split_on_none(v, ':');
    let e = Seq::<char>::empty();
    lemma_split_on_join(f, ':', v);
    lemma_split_on_join(e, ':', f + seq![':'] + v);
    lemma_split_on_join(e, ':', e + seq![':'] + (f + seq![':'] + v));
    assert(split_on(e, ':') == seq![e]);
    let t = ipv6_text(a);
    assert(t =~= e + seq![':'] + (e + seq![':'] + (f + seq![':'] + v)));
    let ps = split_on(t, ':');
    assert(ps =~= seq![e, e, f, v]);
    assert(first_empty(ps, 0) == 0);
    let rest = ps.subrange(2, 4);
    assert(rest =~= seq![f, v]);
    assert(tail_pieces(rest) == rest);
    assert(rest.drop_last() =~= seq![f]);
    assert(seq![f].drop_last() =~= Seq::<Seq<char>>::empty());
    assert(groups_of(seq![f]) == Some(seq![0xffffu16])) by {
        let one = seq![f];
        assert(one.drop_last() =~= Seq::<Seq<char>>::empty());
        assert(one.last() == f);
        assert(groups_of(one.drop_last()) == Some(Seq::<u16>::empty()));
        assert(group_of_text(f) == Some(0xffffu16));
        assert(Seq::<u16>::empty().push(0xffffu16) =~= seq![0xffffu16]);
    }
    assert(ps.subrange(0, 0) =~= Seq::<Seq<char>>::empty());
    assert(a[6] == (a[6] / 256) * 256 + a[6] % 256);
    assert(a[7] == (a[7] / 256) * 256 + a[7] % 256);
    assert(v4_segments(o) =~= seq![a[6], a[7]]);
    let tail = seq![0xffffu16] + v4_segments(o);
    assert(Seq::<u16>::empty() + Seq::new(5, |j: int| 0u16) + tail =~= a);
}

proof fn lemma_gap_round_trip(a: Seq<u16>, bs: int, bl: int)
    requires
        a.len() == 8,
        0 <= bs,
        2 <= bl,
        bs + bl <= 8,
        forall|j: int| bs <= j < bs + bl ==> a[j] == 0,
    ensures
        ipv6_of_text(
            join_groups(a.subrange(0, bs)) + seq![':', ':'] + join_groups(a.subrange(bs + bl, 8)),
        ) == Some(a),
{
    let h = a.subrange(0, bs);
    let t = a.subrange(bs + bl, 8);
    let jh = join_groups(h);
    let jt = join_groups(t);
    let txt = jh + seq![':', ':'] + jt;
    lemma_split_on_join(jh, ':', seq![':'] + jt);
    assert(seq![':'] + jt =~= Seq::<char>::empty() + seq![':'] + jt);
    lemma_split_on_join(Seq::<char>::empty(), ':', jt);
    assert(split_on(Seq::<char>::empty(), ':') == seq![Seq::<char>::empty()]);
    assert(txt =~= jh + seq![':'] + (seq![':'] + jt));
    let ps = split_on(txt, ':');
    assert(ps == split_on(jh, ':') + seq![Seq::<char>::empty()] + split_on(jt, ':'));
    lemma_pieces_text(h);
    lemma_pieces_text(t);
    lemma_groups_of_texts(h);
    lemma_texts_without_v4(t);
    let zeros = Seq::new((8 - h.len() - t.len()) as nat, |j: int| 0u16);
    assert(h + zeros + t =~= a);
    if h.len() == 0 {
        assert(first_empty(ps, 0) == 0);
        assert(ps[1].len() == 0);
        if t.len() == 0 {
            assert(ps.subrange(2, ps.len() as int) =~= seq![Seq::<char>::empty()]);
        } else {
            assert(ps.subrange(2, ps.len() as int) =~= group_texts(t));
        }
        assert(tail_pieces(ps.subrange(2, ps.len() as int)) =~= group_texts(t));
        assert(ps.subrange(0, 0) =~= group_texts(h));
    } else {
        let n = h.len() as int;
        assert(ps[n].len() == 0);
        lemma_first_empty_after(ps, n, 0);
        assert(ps.subrange(0, n) =~= group_texts(h));
        if t.len() == 0 {
            assert(ps.subrange(n + 1, ps.len() as int) =~= seq![Seq::<char>::empty()]);
        } else {
            assert(ps.subrange(n + 1, ps.len() as int) =~= group_texts(t));
        }
        assert(tail_pieces(ps.subrange(n + 1, ps.len() as int)) =~= group_texts(t));
    }
}

proof fn lemma_compressed_round_trip(a: Seq<u16>)
    requires
        a.len() == 8,
    ensures
        ipv6_of_text(compressed_text(a)) == Some(a),
{
    let (bs, bl, cs, cl) = zero_runs(a, 8);
    lemma_zero_runs_bounds(a, 8);
    lemma_zero_runs_zero(a, 8);
    if bl > 1 {
        lemma_gap_round_trip(a, bs, bl);
    } else {
        assert(compressed_text(a) == join_groups(a));
        lemma_split_groups(a);
        lemma_texts_without_v4(a);
        let ps = split_on(compressed_text(a), ':');
        assert(first_empty(ps, 0) == 8) by {
            lemma_first_empty(ps, 0);
        }
    }
}

/// An address read from text has eight segments.
pub proof fn lemma_ipv6_len(s: Seq<char>)
    ensures
        ipv6_of_text(s) matches Some(a) ==> a.len() == 8,
{
    let ps = split_on(s, ':');
    let i = first_empty(ps, 0);
    lemma_first_empty(ps, 0);
    if i == ps.len() {
        if ps.len() == 8 && groups_of(ps) is Some {
            lemma_groups_prefix(ps, 0);
        }
    }
}

} // verus!
