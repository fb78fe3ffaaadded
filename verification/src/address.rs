use vstd::prelude::*;

use crate::text::{
    all_digits, chars_of, decimal_text, digits_text, digits_value, find, find_char, find_pair,
    find_pair_char, free_of, hex_text, is_digit_of, is_hex_digit, join, lemma_decimal_text_short,
    lemma_digits_text, lemma_find, lemma_find_is, lemma_find_pair, lemma_find_pair_is,
    lemma_find_pair_none, lemma_hex_text_short, lemma_join_free, lemma_join_no_pair,
    lemma_split_concat, lemma_split_free, lemma_split_join, parse_digits, push_char, push_digits,
    range_texts, split, split_ranges,
};

verus! {

/// An IPv4 address: four octets, most significant first.
#[derive(Clone, Copy, Debug, PartialEq, Eq, Hash, Structural)]
pub struct Ipv4 {
    pub o0: u8,
    pub o1: u8,
    pub o2: u8,
    pub o3: u8,
}

/// An IPv6 address: eight segments of sixteen bits, most significant first.
#[derive(Clone, Copy, Debug, PartialEq, Eq, Hash, Structural)]
pub struct Ipv6 {
    pub s0: u16,
    pub s1: u16,
    pub s2: u16,
    pub s3: u16,
    pub s4: u16,
    pub s5: u16,
    pub s6: u16,
    pub s7: u16,
}

/// The address of a node on the network: an IP address and a port, with the
/// flow label and scope of an IPv6 socket address.
#[allow(inconsistent_fields)]
#[derive(Clone, Copy, Debug, PartialEq, Eq, Hash, Structural)]
pub enum SocketAddress {
    V4 { ip: Ipv4, port: u16 },
    V6 { ip: Ipv6, port: u16, flowinfo: u32, scope_id: u32 },
}

impl Ipv6 {
    pub open spec fn segments(self) -> Seq<u16> {
        seq![self.s0, self.s1, self.s2, self.s3, self.s4, self.s5, self.s6, self.s7]
    }
}

/// Dotted decimal text of an IPv4 address.
pub open spec fn ipv4_text(ip: Ipv4) -> Seq<char> {
    decimal_text(ip.o0 as nat) + seq!['.'] + decimal_text(ip.o1 as nat) + seq!['.']
        + decimal_text(ip.o2 as nat) + seq!['.'] + decimal_text(ip.o3 as nat)
}

/// Hexadecimal text of each segment.
pub open spec fn hex_groups(segs: Seq<u16>) -> Seq<Seq<char>> {
    segs.map_values(|g: u16| hex_text(g as nat))
}

/// The number of zero segments in a row from index `i` on.
pub open spec fn zero_run(segs: Seq<u16>, i: int) -> nat
    decreases segs.len() - i,
{
    if i < 0 || i >= segs.len() || segs[i] != 0 {
        0
    } else {
        1 + zero_run(segs, i + 1)
    }
}

/// Scanning from index `i` on, the first index where the longest run of zero
/// segments starts, given the best index `best` found before `i`.
pub open spec fn longest_run_from(segs: Seq<u16>, i: int, best: int) -> int
    decreases segs.len() - i,
{
    if i < 0 || i >= segs.len() {
        best
    } else if zero_run(segs, i) > zero_run(segs, best) {
        longest_run_from(segs, i + 1, i)
    } else {
        longest_run_from(segs, i + 1, best)
    }
}

/// The first index where a longest run of zero segments starts.
pub open spec fn longest_run(segs: Seq<u16>) -> int {
    longest_run_from(segs, 1, 0)
}

/// `longest_run` is the first index where a run of zero segments of the greatest
/// length starts.
pub proof fn lemma_longest_run_is_first_longest(segs: Seq<u16>)
    requires
        segs.len() >= 1,
    ensures
        0 <= longest_run(segs) < segs.len(),
        forall|j: int| 0 <= j < segs.len() ==> #[trigger] zero_run(segs, j) <= zero_run(segs, longest_run(segs)),
        forall|j: int| 0 <= j < longest_run(segs) ==> #[trigger] zero_run(segs, j) < zero_run(segs, longest_run(segs)),
{
    lemma_longest_run_scan(segs, 1, 0);
}

proof fn lemma_longest_run_scan(segs: Seq<u16>, i: int, best: int)
    requires
        0 <= best < i <= segs.len(),
        forall|j: int| 0 <= j < i ==> #[trigger] zero_run(segs, j) <= zero_run(segs, best),
        forall|j: int| 0 <= j < best ==> #[trigger] zero_run(segs, j) < zero_run(segs, best),
    ensures
        0 <= longest_run_from(segs, i, best) < segs.len(),
        forall|j: int| 0 <= j < segs.len() ==> #[trigger] zero_run(segs, j) <= zero_run(segs, longest_run_from(segs, i, best)),
        forall|j: int| 0 <= j < longest_run_from(segs, i, best) ==> #[trigger] zero_run(segs, j) < zero_run(
            segs,
            longest_run_from(segs, i, best),
        ),
    decreases segs.len() - i,
{
    if i < segs.len() {
        if zero_run(segs, i) > zero_run(segs, best) {
            lemma_longest_run_scan(segs, i + 1, i);
        } else {
            lemma_longest_run_scan(segs, i + 1, best);
        }
    }
}

/// An IPv4 address embedded as `::ffff:a.b.c.d`.
pub open spec fn is_v4_mapped(segs: Seq<u16>) -> bool {
    &&& segs[0] == 0 && segs[1] == 0 && segs[2] == 0 && segs[3] == 0 && segs[4] == 0
    &&& segs[5] == 0xffff
}

pub open spec fn mapped_v4(segs: Seq<u16>) -> Ipv4 {
    Ipv4 {
        o0: (segs[6] / 256) as u8,
        o1: (segs[6] % 256) as u8,
        o2: (segs[7] / 256) as u8,
        o3: (segs[7] % 256) as u8,
    }
}

/// Text of an IPv6 address: an embedded IPv4 address in dotted form; otherwise
/// lower-case hexadecimal segments where the first longest run of two or more zero
/// segments is written `::`.
pub open spec fn ipv6_text(ip: Ipv6) -> Seq<char> {
    let g = ip.segments();
    if is_v4_mapped(g) {
        seq![':', ':', 'f', 'f', 'f', 'f', ':'] + ipv4_text(mapped_v4(g))
    } else {
        let start = longest_run(g);
        let len = zero_run(g, start);
        if len > 1 {
            join(hex_groups(g.take(start)), ':') + seq![':', ':'] + join(
                hex_groups(g.skip(start + len)),
                ':',
            )
        } else {
            join(hex_groups(g), ':')
        }
    }
}

/// Text of a socket address: `a.b.c.d:port`, `[ipv6]:port` or `[ipv6%scope]:port`.
pub open spec fn address_text(a: SocketAddress) -> Seq<char> {
    match a {
        SocketAddress::V4 { ip, port } => ipv4_text(ip) + seq![':'] + decimal_text(port as nat),
        SocketAddress::V6 { ip, port, flowinfo, scope_id } => {
            seq!['['] + ipv6_text(ip) + (if scope_id == 0 {
                Seq::empty()
            } else {
                seq!['%'] + decimal_text(scope_id as nat)
            }) + seq![']', ':'] + decimal_text(port as nat)
        },
    }
}

impl Ipv6 {
    /// The eight segments in order.
    pub fn segments_vec(&self) -> (v: Vec<u16>)
        ensures
            v@ == self.segments(),
    {
        let v = vec![self.s0, self.s1, self.s2, self.s3, self.s4, self.s5, self.s6, self.s7];
        assert(v@ =~= self.segments());
        v
    }
}

fn push_ipv4(s: &mut String, ip: &Ipv4)
    ensures
        final(s)@ == old(s)@ + ipv4_text(*ip),
{
    push_digits(s, ip.o0 as u32, 10);
    push_char(s, '.');
    push_digits(s, ip.o1 as u32, 10);
    push_char(s, '.');
    push_digits(s, ip.o2 as u32, 10);
    push_char(s, '.');
    push_digits(s, ip.o3 as u32, 10);
    assert(final(s)@ =~= old(s)@ + ipv4_text(*ip));
}

/// Appends the hexadecimal text of `g[lo..hi]`, joined by colons.
fn push_hex_groups(s: &mut String, g: &Vec<u16>, lo: usize, hi: usize)
    requires
        lo <= hi <= g@.len(),
    ensures
        final(s)@ == old(s)@ + join(hex_groups(g@.subrange(lo as int, hi as int)), ':'),
{
    let ghost start = s@;
    let mut i = lo;
    assert(hex_groups(g@.subrange(lo as int, lo as int)) =~= Seq::<Seq<char>>::empty());
    assert(s@ =~= start + join(hex_groups(g@.subrange(lo as int, lo as int)), ':'));
    while i < hi
        invariant
            lo <= i <= hi <= g@.len(),
            s@ == start + join(hex_groups(g@.subrange(lo as int, i as int)), ':'),
        decreases hi - i,
    {
        let ghost prev = hex_groups(g@.subrange(lo as int, i as int));
        let ghost next = hex_groups(g@.subrange(lo as int, i + 1));
        assert(next.drop_last() =~= prev);
        assert(next.last() == hex_text(g@[i as int] as nat));
        if i > lo {
            push_char(s, ':');
        }
        push_digits(s, g[i] as u32, 16);
        if i == lo {
            assert(next.len() == 1);
            assert(s@ =~= start + join(next, ':'));
        } else {
            assert(join(next, ':') == join(prev, ':') + seq![':'] + next.last());
            assert(s@ =~= start + join(next, ':'));
        }
        i = i + 1;
    }
}

/// The number of zero segments in a row from index `i` on.
fn zero_run_at(g: &Vec<u16>, i: usize) -> (n: usize)
    requires
        i <= g@.len(),
    ensures
        n == zero_run(g@, i as int),
{
    let mut j = i;
    while j < g.len() && g[j] == 0
        invariant
            i <= j <= g@.len(),
            zero_run(g@, i as int) == (j - i) + zero_run(g@, j as int),
        decreases g@.len() - j,
    {
        j = j + 1;
    }
    j - i
}

/// The first index where a longest run of zero segments starts.
fn longest_run_at(g: &Vec<u16>) -> (start: usize)
    requires
        g@.len() >= 1,
    ensures
        start == longest_run(g@),
        start < g@.len(),
{
    let mut best: usize = 0;
    let mut best_len = zero_run_at(g, 0);
    let mut i: usize = 1;
    while i < g.len()
        invariant
            1 <= i <= g@.len(),
            best < i,
            best_len == zero_run(g@, best as int),
            longest_run(g@) == longest_run_from(g@, i as int, best as int),
        decreases g@.len() - i,
    {
        let n = zero_run_at(g, i);
        if n > best_len {
            best = i;
            best_len = n;
        }
        i = i + 1;
    }
    best
}

fn push_ipv6(s: &mut String, ip: &Ipv6)
    ensures
        final(s)@ == old(s)@ + ipv6_text(*ip),
{
    let g = ip.segments_vec();
    if g[0] == 0 && g[1] == 0 && g[2] == 0 && g[3] == 0 && g[4] == 0 && g[5] == 0xffff {
        push_char(s, ':');
        push_char(s, ':');
        push_char(s, 'f');
        push_char(s, 'f');
        push_char(s, 'f');
        push_char(s, 'f');
        push_char(s, ':');
        let v4 = Ipv4 {
            o0: (g[6] / 256) as u8,
            o1: (g[6] % 256) as u8,
            o2: (g[7] / 256) as u8,
            o3: (g[7] % 256) as u8,
        };
        push_ipv4(s, &v4);
        assert(final(s)@ =~= old(s)@ + ipv6_text(*ip));
    } else {
        let start = longest_run_at(&g);
        let len = zero_run_at(&g, start);
        if len > 1 {
            assert(zero_run(g@, start as int) <= 8 - start) by {
                lemma_zero_run_bound(g@, start as int);
            }
            push_hex_groups(s, &g, 0, start);
            push_char(s, ':');
            push_char(s, ':');
            push_hex_groups(s, &g, start + len, 8);
            assert(g@.subrange(0, start as int) =~= g@.take(start as int));
            assert(g@.subrange(start + len, 8) =~= g@.skip(start + len));
            assert(final(s)@ =~= old(s)@ + ipv6_text(*ip));
        } else {
            push_hex_groups(s, &g, 0, 8);
            assert(g@.subrange(0, 8) =~= g@);
            assert(final(s)@ =~= old(s)@ + ipv6_text(*ip));
        }
    }
}

/// A run of zero segments ends within the sequence.
pub proof fn lemma_zero_run_bound(segs: Seq<u16>, i: int)
    requires
        0 <= i <= segs.len(),
    ensures
        zero_run(segs, i) <= segs.len() - i,
        forall|k: int| i <= k < i + zero_run(segs, i) ==> segs[k] == 0,
    decreases segs.len() - i,
{
    if i < segs.len() && segs[i] == 0 {
        lemma_zero_run_bound(segs, i + 1);
    }
}

impl SocketAddress {
    /// The text of the address, as `a.b.c.d:port`, `[ipv6]:port` or `[ipv6%scope]:port`.
    pub fn to_string(&self) -> (r: String)
        ensures
            r@ == address_text(*self),
    {
        let mut s = String::new();
        match self {
            SocketAddress::V4 { ip, port } => {
                push_ipv4(&mut s, ip);
                push_char(&mut s, ':');
                push_digits(&mut s, *port as u32, 10);
            },
            SocketAddress::V6 { ip, port, flowinfo: _, scope_id } => {
                push_char(&mut s, '[');
                push_ipv6(&mut s, ip);
                if *scope_id != 0 {
                    push_char(&mut s, '%');
                    push_digits(&mut s, *scope_id, 10);
                }
                push_char(&mut s, ']');
                push_char(&mut s, ':');
                push_digits(&mut s, *port as u32, 10);
            },
        }
        assert(s@ =~= address_text(*self));
        s
    }
}

/// The number that `p` spells in decimal, where that is a non-empty string of
/// digits of value at most `max` (leading zeros allowed).
pub open spec fn number_of(p: Seq<char>, max: nat) -> Option<nat> {
    if p.len() >= 1 && all_digits(p, 10) && digits_value(p, 10) <= max {
        Some(digits_value(p, 10) as nat)
    } else {
        None
    }
}

/// An octet of a dotted quad: one to three decimal digits, no leading zero, at most 255.
pub open spec fn octet_ok(p: Seq<char>) -> bool {
    &&& 1 <= p.len() <= 3
    &&& all_digits(p, 10)
    &&& (p.len() > 1 ==> p[0] != '0')
    &&& digits_value(p, 10) <= 255
}

/// The IPv4 address that `s` spells in dotted decimal, if it spells one.
pub open spec fn ipv4_of(s: Seq<char>) -> Option<Ipv4> {
    let ps = split(s, '.');
    if ps.len() == 4 && octet_ok(ps[0]) && octet_ok(ps[1]) && octet_ok(ps[2]) && octet_ok(ps[3]) {
        Some(
            Ipv4 {
                o0: digits_value(ps[0], 10) as u8,
                o1: digits_value(ps[1], 10) as u8,
                o2: digits_value(ps[2], 10) as u8,
                o3: digits_value(ps[3], 10) as u8,
            },
        )
    } else {
        None
    }
}

/// The number of an octet of text.
fn octet_at(cs: &Vec<char>, lo: usize, hi: usize) -> (r: Option<u8>)
    requires
        lo <= hi <= cs@.len(),
    ensures
        ({
            let p = cs@.subrange(lo as int, hi as int);
            &&& r is Some <==> octet_ok(p)
            &&& r matches Some(v) ==> v == digits_value(p, 10)
        }),
{
    let ghost p = cs@.subrange(lo as int, hi as int);
    if hi - lo > 3 {
        return None;
    }
    if hi - lo > 1 && cs[lo] == '0' {
        assert(p[0] == cs@[lo as int]);
        return None;
    }
    assert(hi - lo > 1 ==> p[0] == cs@[lo as int]);
    match parse_digits(cs, lo, hi, 10, 255) {
        Some(v) => Some(v as u8),
        None => None,
    }
}

/// The IPv4 address that `cs[lo..hi]` spells.
fn ipv4_at(cs: &Vec<char>, lo: usize, hi: usize) -> (r: Option<Ipv4>)
    requires
        lo <= hi <= cs@.len(),
    ensures
        r == ipv4_of(cs@.subrange(lo as int, hi as int)),
{
    let rs = split_ranges(cs, lo, hi, '.');
    let ghost ps = split(cs@.subrange(lo as int, hi as int), '.');
    if rs.len() != 4 {
        return None;
    }
    assert(ps[0] == cs@.subrange(rs@[0].0 as int, rs@[0].1 as int));
    assert(ps[1] == cs@.subrange(rs@[1].0 as int, rs@[1].1 as int));
    assert(ps[2] == cs@.subrange(rs@[2].0 as int, rs@[2].1 as int));
    assert(ps[3] == cs@.subrange(rs@[3].0 as int, rs@[3].1 as int));
    let a = octet_at(cs, rs[0].0, rs[0].1);
    let b = octet_at(cs, rs[1].0, rs[1].1);
    let c = octet_at(cs, rs[2].0, rs[2].1);
    let d = octet_at(cs, rs[3].0, rs[3].1);
    match (a, b, c, d) {
        (Some(a), Some(b), Some(c), Some(d)) => Some(Ipv4 { o0: a, o1: b, o2: c, o3: d }),
        _ => None,
    }
}

/// The number that `cs[lo..hi]` spells in decimal, if at most `max`.
fn number_at(cs: &Vec<char>, lo: usize, hi: usize, max: u32) -> (r: Option<u32>)
    requires
        lo <= hi <= cs@.len(),
    ensures
        r is Some <==> number_of(cs@.subrange(lo as int, hi as int), max as nat) is Some,
        r matches Some(v) ==> number_of(cs@.subrange(lo as int, hi as int), max as nat) == Some(
            v as nat,
        ) && v <= max,
{
    let r = parse_digits(cs, lo, hi, 10, max);
    proof {
        let p = cs@.subrange(lo as int, hi as int);
        if all_digits(p, 10) {
            crate::text::lemma_digits_value_nonneg(p, 10);
        }
    }
    r
}

/// A group of an IPv6 address: one to four hexadecimal digits, in either case.
pub open spec fn hex_group_ok(p: Seq<char>) -> bool {
    1 <= p.len() <= 4 && all_digits(p, 16)
}

pub open spec fn group_value(p: Seq<char>) -> u16 {
    digits_value(p, 16) as u16
}

/// The segments that a list of groups spells: each a hexadecimal group, except that
/// the last may be a dotted quad (where `v4_tail` allows), which spells two segments.
pub open spec fn groups_of(ps: Seq<Seq<char>>, v4_tail: bool) -> Option<Seq<u16>> {
    if ps.len() == 0 {
        Some(Seq::empty())
    } else {
        let init = ps.drop_last();
        let last = ps.last();
        if !(forall|i: int| 0 <= i < init.len() ==> hex_group_ok(#[trigger] init[i])) {
            None
        } else if hex_group_ok(last) {
            Some(init.map_values(|p: Seq<char>| group_value(p)).push(group_value(last)))
        } else if v4_tail && ipv4_of(last) is Some {
            let v = ipv4_of(last).unwrap();
            Some(
                init.map_values(|p: Seq<char>| group_value(p)) + seq![
                    (v.o0 as int * 256 + v.o1 as int) as u16,
                    (v.o2 as int * 256 + v.o3 as int) as u16,
                ],
            )
        } else {
            None
        }
    }
}

/// `n` zero segments.
pub open spec fn zeros(n: nat) -> Seq<u16> {
    Seq::new(n, |i: int| 0u16)
}

/// The eight segments that `t` spells as an IPv6 address: eight groups (the last two
/// possibly as a dotted quad), or groups before and after one `::` that stands for
/// at least one zero segment.
pub open spec fn ipv6_segments_of(t: Seq<char>) -> Option<Seq<u16>> {
    match find_pair(t, ':') {
        None => match groups_of(split(t, ':'), true) {
            Some(g) => if g.len() == 8 {
                Some(g)
            } else {
                None
            },
            None => None,
        },
        Some(k) => {
            let left = t.take(k);
            let right = t.skip(k + 2);
            let l = if left.len() == 0 {
                Some(Seq::empty())
            } else {
                groups_of(split(left, ':'), false)
            };
            let r = if right.len() == 0 {
                Some(Seq::empty())
            } else {
                groups_of(split(right, ':'), true)
            };
            match (l, r) {
                (Some(l), Some(r)) => if l.len() + r.len() <= 7 {
                    Some(l + zeros((8 - l.len() - r.len()) as nat) + r)
                } else {
                    None
                },
                _ => None,
            }
        },
    }
}

pub open spec fn ipv6_from(g: Seq<u16>) -> Ipv6 {
    Ipv6 { s0: g[0], s1: g[1], s2: g[2], s3: g[3], s4: g[4], s5: g[5], s6: g[6], s7: g[7] }
}

/// The value of a hexadecimal group of text.
fn hex_group_at(cs: &Vec<char>, lo: usize, hi: usize) -> (r: Option<u16>)
    requires
        lo <= hi <= cs@.len(),
    ensures
        ({
            let p = cs@.subrange(lo as int, hi as int);
            &&& r is Some <==> hex_group_ok(p)
            &&& r matches Some(v) ==> v == group_value(p)
        }),
{
    if hi - lo > 4 {
        return None;
    }
    match parse_digits(cs, lo, hi, 16, 0xffff) {
        Some(v) => Some(v as u16),
        None => {
            proof {
                let p = cs@.subrange(lo as int, hi as int);
                if hex_group_ok(p) {
                    lemma_hex_group_bound(p);
                }
            }
            None
        },
    }
}

/// A group of at most four hexadecimal digits is at most 0xffff.
pub proof fn lemma_hex_group_bound(p: Seq<char>)
    requires
        p.len() <= 4,
        all_digits(p, 16),
    ensures
        0 <= digits_value(p, 16) <= 0xffff,
        digits_value(p, 16) < crate::text::pow16(p.len()),
    decreases p.len(),
{
    if p.len() > 0 {
        let q = p.drop_last();
        assert(all_digits(q, 16)) by {
            assert forall|i: int| 0 <= i < q.len() implies crate::text::is_digit_of(#[trigger] q[i], 16) by {
                assert(q[i] == p[i]);
            }
        }
        lemma_hex_group_bound(q);
        assert(crate::text::is_digit_of(p[p.len() - 1], 16));
        let v = digits_value(q, 16);
        let d = crate::text::digit_value(p.last());
        assert(0 <= d < 16);
        assert(v * 16 + d < crate::text::pow16(q.len()) * 16) by (nonlinear_arith)
            requires
                0 <= v < crate::text::pow16(q.len()),
                0 <= d < 16,
        ;
    }
    assert(crate::text::pow16(0) == 1);
    assert(crate::text::pow16(1) == 16);
    assert(crate::text::pow16(2) == 256);
    assert(crate::text::pow16(3) == 4096);
    assert(crate::text::pow16(4) == 65536);
}

/// The segments that the ranges `rs` of `cs` spell as a list of groups.
fn groups_at(cs: &Vec<char>, rs: &Vec<(usize, usize)>, v4_tail: bool) -> (r: Option<Vec<u16>>)
    requires
        forall|k: int| 0 <= k < rs@.len() ==> (#[trigger] rs@[k]).0 <= rs@[k].1 <= cs@.len(),
    ensures
        match groups_of(range_texts(cs@, rs@), v4_tail) {
            Some(g) => r matches Some(v) && v@ == g,
            None => r is None,
        },
{
    let ghost ps = range_texts(cs@, rs@);
    let n = rs.len();
    if n == 0 {
        let v: Vec<u16> = Vec::new();
        assert(v@ =~= Seq::<u16>::empty());
        return Some(v);
    }
    let ghost init = ps.drop_last();
    let mut v: Vec<u16> = Vec::new();
    let mut k: usize = 0;
    while k + 1 < n
        invariant
            n == rs@.len(),
            n >= 1,
            k < n,
            ps == range_texts(cs@, rs@),
            init == ps.drop_last(),
            forall|j: int| 0 <= j < rs@.len() ==> (#[trigger] rs@[j]).0 <= rs@[j].1 <= cs@.len(),
            forall|j: int| 0 <= j < k ==> hex_group_ok(#[trigger] init[j]),
            v@ == init.take(k as int).map_values(|p: Seq<char>| group_value(p)),
        decreases n - k,
    {
        assert(init[k as int] == cs@.subrange(rs@[k as int].0 as int, rs@[k as int].1 as int));
        match hex_group_at(cs, rs[k].0, rs[k].1) {
            Some(g) => {
                v.push(g);
                assert(v@ =~= init.take(k + 1).map_values(|p: Seq<char>| group_value(p)));
            },
            None => {
                assert(!hex_group_ok(init[k as int]));
                return None;
            },
        }
        k = k + 1;
    }
    assert(init.take(k as int) =~= init);
    let ghost last = ps.last();
    assert(last == cs@.subrange(rs@[k as int].0 as int, rs@[k as int].1 as int));
    match hex_group_at(cs, rs[k].0, rs[k].1) {
        Some(g) => {
            v.push(g);
            return Some(v);
        },
        None => {},
    }
    if v4_tail {
        match ipv4_at(cs, rs[k].0, rs[k].1) {
            Some(ip) => {
                v.push((ip.o0 as u16) * 256 + (ip.o1 as u16));
                v.push((ip.o2 as u16) * 256 + (ip.o3 as u16));
                let ghost init_vals = init.map_values(|p: Seq<char>| group_value(p));
                assert(v@ =~= init_vals + seq![
                    (ip.o0 as int * 256 + ip.o1 as int) as u16,
                    (ip.o2 as int * 256 + ip.o3 as int) as u16,
                ]);
                return Some(v);
            },
            None => {},
        }
    }
    None
}

/// The segments that `cs[lo..hi]` spells as an IPv6 address.
fn ipv6_segments_at(cs: &Vec<char>, lo: usize, hi: usize) -> (r: Option<Vec<u16>>)
    requires
        lo <= hi <= cs@.len(),
    ensures
        match ipv6_segments_of(cs@.subrange(lo as int, hi as int)) {
            Some(g) => r matches Some(v) && v@ == g,
            None => r is None,
        },
{
    let ghost t = cs@.subrange(lo as int, hi as int);
    match find_pair_char(cs, lo, hi, ':') {
        None => {
            let rs = split_ranges(cs, lo, hi, ':');
            match groups_at(cs, &rs, true) {
                Some(g) => if g.len() == 8 {
                    Some(g)
                } else {
                    None
                },
                None => None,
            }
        },
        Some(k) => {
            proof {
                lemma_find_pair(t, ':');
            }
            assert(t.take(k - lo) =~= cs@.subrange(lo as int, k as int));
            assert(t.skip(k - lo + 2) =~= cs@.subrange(k + 2, hi as int));
            let l = if k == lo {
                let e: Vec<u16> = Vec::new();
                assert(e@ =~= Seq::<u16>::empty());
                Some(e)
            } else {
                let rs = split_ranges(cs, lo, k, ':');
                groups_at(cs, &rs, false)
            };
            let r = if k + 2 == hi {
                let e: Vec<u16> = Vec::new();
                assert(e@ =~= Seq::<u16>::empty());
                Some(e)
            } else {
                let rs = split_ranges(cs, k + 2, hi, ':');
                groups_at(cs, &rs, true)
            };
            match (l, r) {
                (Some(l), Some(mut r)) => {
                    if l.len() > 7 || r.len() > 7 - l.len() {
                        return None;
                    }
                    let fill = 8 - l.len() - r.len();
                    let mut v = l;
                    let ghost lv = v@;
                    let mut i: usize = 0;
                    while i < fill
                        invariant
                            i <= fill,
                            v@ == lv + zeros(i as nat),
                        decreases fill - i,
                    {
                        v.push(0);
                        i = i + 1;
                        assert(v@ =~= lv + zeros(i as nat));
                    }
                    let ghost rv = r@;
                    v.append(&mut r);
                    assert(v@ =~= lv + zeros(fill as nat) + rv);
                    Some(v)
                },
                _ => None,
            }
        },
    }
}

/// The socket address that `cs[lo..hi]` spells after an opening bracket.
fn v6_address_at(cs: &Vec<char>, lo: usize, hi: usize) -> (r: Option<SocketAddress>)
    requires
        lo <= hi <= cs@.len(),
    ensures
        r == v6_address_of(cs@.subrange(lo as int, hi as int)),
{
    let ghost b = cs@.subrange(lo as int, hi as int);
    let k = match find_char(cs, lo, hi, ']') {
        Some(k) => k,
        None => return None,
    };
    proof {
        lemma_find(b, ']');
    }
    let ghost inner = b.take(k - lo);
    let ghost after = b.skip(k - lo + 1);
    assert(inner =~= cs@.subrange(lo as int, k as int));
    assert(after =~= cs@.subrange(k + 1, hi as int));
    let port = if k + 1 < hi && cs[k + 1] == ':' {
        assert(after[0] == cs@[k + 1]);
        assert(after.skip(1) =~= cs@.subrange(k + 2, hi as int));
        number_at(cs, k + 2, hi, 0xffff)
    } else {
        assert(after.len() > 0 ==> after[0] == cs@[k + 1]);
        None
    };
    let (text_end, scope) = match find_char(cs, lo, k, '%') {
        None => (k, Some(0u32)),
        Some(j) => {
            proof {
                lemma_find(inner, '%');
            }
            assert(inner.take(j - lo) =~= cs@.subrange(lo as int, j as int));
            assert(inner.skip(j - lo + 1) =~= cs@.subrange(j + 1, k as int));
            (j, number_at(cs, j + 1, k, 0xffff_ffff))
        },
    };
    let g = ipv6_segments_at(cs, lo, text_end);
    assert(port matches Some(p) ==> p <= 0xffff);
    match (g, scope, port) {
        (Some(g), Some(z), Some(p)) => {
            let ip = Ipv6 {
                s0: g[0],
                s1: g[1],
                s2: g[2],
                s3: g[3],
                s4: g[4],
                s5: g[5],
                s6: g[6],
                s7: g[7],
            };
            Some(SocketAddress::V6 { ip, port: p as u16, flowinfo: 0, scope_id: z })
        },
        _ => None,
    }
}

/// The socket address that `cs[lo..hi]` spells as `a.b.c.d:port`.
fn v4_address_at(cs: &Vec<char>, lo: usize, hi: usize) -> (r: Option<SocketAddress>)
    requires
        lo <= hi <= cs@.len(),
    ensures
        r == v4_address_of(cs@.subrange(lo as int, hi as int)),
{
    let ghost s = cs@.subrange(lo as int, hi as int);
    let k = match find_char(cs, lo, hi, ':') {
        Some(k) => k,
        None => return None,
    };
    proof {
        lemma_find(s, ':');
    }
    assert(s.take(k - lo) =~= cs@.subrange(lo as int, k as int));
    assert(s.skip(k - lo + 1) =~= cs@.subrange(k + 1, hi as int));
    let ip = ipv4_at(cs, lo, k);
    let port = number_at(cs, k + 1, hi, 0xffff);
    assert(port matches Some(p) ==> p <= 0xffff);
    match (ip, port) {
        (Some(ip), Some(p)) => Some(SocketAddress::V4 { ip, port: p as u16 }),
        _ => None,
    }
}

/// The address that `cs[lo..hi]` spells.
pub fn address_at(cs: &Vec<char>, lo: usize, hi: usize) -> (r: Option<SocketAddress>)
    requires
        lo <= hi <= cs@.len(),
    ensures
        r == address_of(cs@.subrange(lo as int, hi as int)),
{
    let ghost s = cs@.subrange(lo as int, hi as int);
    if lo < hi && cs[lo] == '[' {
        assert(s[0] == cs@[lo as int]);
        assert(s.skip(1) =~= cs@.subrange(lo + 1, hi as int));
        v6_address_at(cs, lo + 1, hi)
    } else {
        assert(s.len() > 0 ==> s[0] == cs@[lo as int]);
        v4_address_at(cs, lo, hi)
    }
}

/// The socket address in `a.b.c.d:port` form, if `s` spells one.
pub open spec fn v4_address_of(s: Seq<char>) -> Option<SocketAddress> {
    match find(s, ':') {
        None => None,
        Some(k) => match (ipv4_of(s.take(k)), number_of(s.skip(k + 1), 0xffff)) {
            (Some(ip), Some(p)) => Some(SocketAddress::V4 { ip, port: p as u16 }),
            _ => None,
        },
    }
}

/// The socket address in `ipv6]:port` or `ipv6%scope]:port` form (the text after
/// the opening bracket), if `b` spells one.
pub open spec fn v6_address_of(b: Seq<char>) -> Option<SocketAddress> {
    match find(b, ']') {
        None => None,
        Some(k) => {
            let inner = b.take(k);
            let after = b.skip(k + 1);
            let port = if after.len() > 0 && after[0] == ':' {
                number_of(after.skip(1), 0xffff)
            } else {
                None
            };
            let text = match find(inner, '%') {
                None => inner,
                Some(j) => inner.take(j),
            };
            let scope = match find(inner, '%') {
                None => Some(0nat),
                Some(j) => number_of(inner.skip(j + 1), 0xffff_ffff),
            };
            match (ipv6_segments_of(text), scope, port) {
                (Some(g), Some(z), Some(p)) => Some(
                    SocketAddress::V6 { ip: ipv6_from(g), port: p as u16, flowinfo: 0, scope_id: z as u32 },
                ),
                _ => None,
            }
        },
    }
}

/// The socket address that `s` spells: `a.b.c.d:port`, `[ipv6]:port` or
/// `[ipv6%scope]:port`, with decimal port and scope (leading zeros allowed).
pub open spec fn address_of(s: Seq<char>) -> Option<SocketAddress> {
    if s.len() > 0 && s[0] == '[' {
        v6_address_of(s.skip(1))
    } else {
        v4_address_of(s)
    }
}

impl SocketAddress {
    /// Reads a socket address from its text; `None` where the text spells none.
    pub fn parse(s: &str) -> (r: Option<SocketAddress>)
        ensures
            r == address_of(s@),
    {
        let cs = chars_of(s);
        assert(cs@.subrange(0, cs@.len() as int) =~= s@);
        address_at(&cs, 0, cs.len())
    }
}

/// A rendering of digits holds no character that is not a digit.
pub proof fn lemma_digits_free(n: nat, radix: nat, c: char)
    requires
        radix == 10 || radix == 16,
        !is_hex_digit(c),
    ensures
        free_of(digits_text(n, radix), c),
{
    lemma_digits_text(n, radix);
    let t = digits_text(n, radix);
    assert forall|i: int| 0 <= i < t.len() implies t[i] != c by {
        assert(is_digit_of(t[i], radix));
    }
}

/// The decimal text of an octet reads back as that octet.
pub proof fn lemma_octet_round_trip(n: u8)
    ensures
        octet_ok(decimal_text(n as nat)),
        digits_value(decimal_text(n as nat), 10) == n,
{
    lemma_digits_text(n as nat, 10);
    lemma_decimal_text_short(n as nat);
}

/// The decimal text of a number up to `max` reads back as that number.
pub proof fn lemma_number_round_trip(n: nat, max: nat)
    requires
        n <= max,
    ensures
        number_of(decimal_text(n), max) == Some(n),
{
    lemma_digits_text(n, 10);
}

/// The dotted decimal text of an IPv4 address reads back as that address, and holds
/// no character but digits and dots.
pub proof fn lemma_ipv4_round_trip(ip: Ipv4)
    ensures
        ipv4_of(ipv4_text(ip)) == Some(ip),
        forall|c: char| !is_hex_digit(c) && c != '.' ==> #[trigger] free_of(ipv4_text(ip), c),
        !free_of(ipv4_text(ip), '.'),
{
    let d0 = decimal_text(ip.o0 as nat);
    let d1 = decimal_text(ip.o1 as nat);
    let d2 = decimal_text(ip.o2 as nat);
    let d3 = decimal_text(ip.o3 as nat);
    lemma_octet_round_trip(ip.o0);
    lemma_octet_round_trip(ip.o1);
    lemma_octet_round_trip(ip.o2);
    lemma_octet_round_trip(ip.o3);
    lemma_digits_free(ip.o0 as nat, 10, '.');
    lemma_digits_free(ip.o1 as nat, 10, '.');
    lemma_digits_free(ip.o2 as nat, 10, '.');
    lemma_digits_free(ip.o3 as nat, 10, '.');
    let t = ipv4_text(ip);
    let x2 = d0 + seq!['.'] + d1 + seq!['.'] + d2;
    assert(t == x2 + seq!['.'] + d3);
    lemma_split_concat(x2, d3, '.');
    lemma_split_concat(d0 + seq!['.'] + d1, d2, '.');
    lemma_split_concat(d0, d1, '.');
    lemma_split_free(d0, '.');
    lemma_split_free(d1, '.');
    lemma_split_free(d2, '.');
    lemma_split_free(d3, '.');
    let ps = split(t, '.');
    assert(ps =~= seq![d0, d1, d2, d3]);
    assert forall|c: char| !is_hex_digit(c) && c != '.' implies #[trigger] free_of(ipv4_text(ip), c) by {
        lemma_digits_free(ip.o0 as nat, 10, c);
        lemma_digits_free(ip.o1 as nat, 10, c);
        lemma_digits_free(ip.o2 as nat, 10, c);
        lemma_digits_free(ip.o3 as nat, 10, c);
        assert forall|i: int| 0 <= i < t.len() implies t[i] != c by {
            if i < d0.len() {
                assert(t[i] == d0[i]);
            } else if i == d0.len() {
            } else if i < d0.len() + 1 + d1.len() {
                assert(t[i] == d1[i - d0.len() - 1]);
            } else if i == d0.len() + 1 + d1.len() {
            } else if i < d0.len() + 2 + d1.len() + d2.len() {
                assert(t[i] == d2[i - d0.len() - 2 - d1.len()]);
            } else if i == d0.len() + 2 + d1.len() + d2.len() {
            } else {
                assert(t[i] == d3[i - d0.len() - 3 - d1.len() - d2.len()]);
            }
        }
    }
    assert(t[d0.len() as int] == '.');
}

/// The text of an IPv4 socket address reads back as that address.
pub proof fn lemma_v4_address_round_trip(ip: Ipv4, port: u16)
    ensures
        address_of(address_text(SocketAddress::V4 { ip, port })) == Some(SocketAddress::V4 { ip, port }),
{
    let a = SocketAddress::V4 { ip, port };
    let t = ipv4_text(ip);
    let p = decimal_text(port as nat);
    let s = address_text(a);
    assert(s == t + seq![':'] + p);
    lemma_ipv4_round_trip(ip);
    assert(free_of(t, ':'));
    assert forall|j: int| 0 <= j < t.len() implies s[j] != ':' by {
        assert(s[j] == t[j]);
    }
    lemma_find_is(s, ':', t.len() as int);
    assert(s.take(t.len() as int) =~= t);
    assert(s.skip(t.len() as int + 1) =~= p);
    lemma_number_round_trip(port as nat, 0xffff);
    lemma_digits_text(ip.o0 as nat, 10);
    assert(s.len() > 0 && s[0] != '[') by {
        assert(s[0] == t[0]);
        assert(t[0] == decimal_text(ip.o0 as nat)[0]);
        assert(is_digit_of(decimal_text(ip.o0 as nat)[0], 10));
    }
}

/// The hexadecimal text of a segment is a group that reads back as that segment.
pub proof fn lemma_hex_group_round_trip(g: u16)
    ensures
        hex_group_ok(hex_text(g as nat)),
        group_value(hex_text(g as nat)) == g,
        forall|c: char| !is_hex_digit(c) ==> #[trigger] free_of(hex_text(g as nat), c),
{
    lemma_digits_text(g as nat, 16);
    lemma_hex_text_short(g as nat);
    assert forall|c: char| !is_hex_digit(c) implies #[trigger] free_of(hex_text(g as nat), c) by {
        lemma_digits_free(g as nat, 16, c);
    }
}

/// Facts about the hexadecimal texts of a list of segments.
pub proof fn lemma_hex_groups(segs: Seq<u16>)
    ensures
        hex_groups(segs).len() == segs.len(),
        forall|k: int|
            0 <= k < segs.len() ==> {
                &&& hex_group_ok(#[trigger] hex_groups(segs)[k])
                &&& group_value(hex_groups(segs)[k]) == segs[k]
                &&& hex_groups(segs)[k].len() >= 1
                &&& free_of(hex_groups(segs)[k], ':')
                &&& free_of(hex_groups(segs)[k], '.')
                &&& free_of(hex_groups(segs)[k], ']')
                &&& free_of(hex_groups(segs)[k], '%')
            },
{
    assert forall|k: int| 0 <= k < segs.len() implies {
        &&& hex_group_ok(#[trigger] hex_groups(segs)[k])
        &&& group_value(hex_groups(segs)[k]) == segs[k]
        &&& hex_groups(segs)[k].len() >= 1
        &&& free_of(hex_groups(segs)[k], ':')
        &&& free_of(hex_groups(segs)[k], '.')
        &&& free_of(hex_groups(segs)[k], ']')
        &&& free_of(hex_groups(segs)[k], '%')
    } by {
        lemma_hex_group_round_trip(segs[k]);
        assert(hex_groups(segs)[k] == hex_text(segs[k] as nat));
        assert(free_of(hex_text(segs[k] as nat), ':'));
        assert(free_of(hex_text(segs[k] as nat), '.'));
        assert(free_of(hex_text(segs[k] as nat), ']'));
        assert(free_of(hex_text(segs[k] as nat), '%'));
    }
}

/// Hexadecimal groups read back as their segments.
pub proof fn lemma_groups_of_hex(segs: Seq<u16>, v4_tail: bool)
    requires
        segs.len() >= 1,
    ensures
        groups_of(hex_groups(segs), v4_tail) == Some(segs),
{
    lemma_hex_groups(segs);
    let ps = hex_groups(segs);
    let init = ps.drop_last();
    assert forall|i: int| 0 <= i < init.len() implies hex_group_ok(#[trigger] init[i]) by {
        assert(init[i] == ps[i]);
    }
    assert(hex_group_ok(ps.last())) by {
        assert(ps.last() == ps[ps.len() - 1]);
    }
    assert(init.map_values(|p: Seq<char>| group_value(p)).push(group_value(ps.last())) =~= segs) by {
        assert(ps.last() == ps[ps.len() - 1]);
        assert forall|i: int| 0 <= i < init.len() implies #[trigger] group_value(init[i]) == segs[i] by {
            assert(init[i] == ps[i]);
        }
    }
}

/// The scan for the longest run of zeros stays within the segments.
pub proof fn lemma_longest_run_in_range(segs: Seq<u16>, i: int, best: int)
    requires
        0 <= best < segs.len(),
        0 <= i,
    ensures
        0 <= longest_run_from(segs, i, best) < segs.len(),
    decreases segs.len() - i,
{
    if i < segs.len() {
        if zero_run(segs, i) > zero_run(segs, best) {
            lemma_longest_run_in_range(segs, i + 1, i);
        } else {
            lemma_longest_run_in_range(segs, i + 1, best);
        }
    }
}

/// Facts about the text of hexadecimal groups joined by colons.
pub proof fn lemma_hex_join(segs: Seq<u16>)
    ensures
        segs.len() == 0 ==> join(hex_groups(segs), ':').len() == 0,
        segs.len() >= 1 ==> {
            let t = join(hex_groups(segs), ':');
            &&& t.len() >= 1
            &&& t.last() != ':'
            &&& forall|j: int| 0 <= j && j + 1 < t.len() ==> !(#[trigger] t[j] == ':' && t[j + 1] == ':')
            &&& split(t, ':') == hex_groups(segs)
            &&& groups_of(split(t, ':'), true) == Some(segs)
            &&& groups_of(split(t, ':'), false) == Some(segs)
        },
        free_of(join(hex_groups(segs), ':'), '.'),
        free_of(join(hex_groups(segs), ':'), ']'),
        free_of(join(hex_groups(segs), ':'), '%'),
{
    lemma_hex_groups(segs);
    let ps = hex_groups(segs);
    assert forall|k: int| 0 <= k < ps.len() implies free_of(#[trigger] ps[k], '.') by {}
    lemma_join_free(ps, ':', '.');
    assert forall|k: int| 0 <= k < ps.len() implies free_of(#[trigger] ps[k], ']') by {}
    lemma_join_free(ps, ':', ']');
    assert forall|k: int| 0 <= k < ps.len() implies free_of(#[trigger] ps[k], '%') by {}
    lemma_join_free(ps, ':', '%');
    if segs.len() >= 1 {
        assert forall|k: int| 0 <= k < ps.len() implies (#[trigger] ps[k]).len() >= 1 && free_of(ps[k], ':') by {}
        lemma_join_no_pair(ps, ':');
        assert forall|k: int| 0 <= k < ps.len() implies free_of(#[trigger] ps[k], ':') by {}
        lemma_split_join(ps, ':');
        lemma_groups_of_hex(segs, true);
        lemma_groups_of_hex(segs, false);
    }
}

/// The text of an IPv6 address reads back as its segments, and holds no `]` or `%`.
pub proof fn lemma_ipv6_round_trip(ip: Ipv6)
    ensures
        ipv6_segments_of(ipv6_text(ip)) == Some(ip.segments()),
        free_of(ipv6_text(ip), ']'),
        free_of(ipv6_text(ip), '%'),
{
    let g = ip.segments();
    let t = ipv6_text(ip);
    if is_v4_mapped(g) {
        lemma_mapped_round_trip(ip);
    } else {
        let start = longest_run(g);
        lemma_longest_run_in_range(g, 1, 0);
        let len = zero_run(g, start);
        lemma_zero_run_bound(g, start);
        if len > 1 {
            let lo = g.take(start);
            let hi = g.skip(start + len);
            let l = join(hex_groups(lo), ':');
            let r = join(hex_groups(hi), ':');
            lemma_hex_join(lo);
            lemma_hex_join(hi);
            assert(t == l + seq![':', ':'] + r);
            assert forall|j: int| 0 <= j < l.len() as int implies !(#[trigger] t[j] == ':' && t[j + 1] == ':') by {
                assert(t[j] == l[j]);
                if j + 1 < l.len() {
                    assert(t[j + 1] == l[j + 1]);
                } else {
                    assert(l[j] == l.last());
                }
            }
            lemma_find_pair_is(t, ':', l.len() as int);
            assert(t.take(l.len() as int) =~= l);
            assert(t.skip(l.len() as int + 2) =~= r);
            assert(lo.len() + hi.len() == 8 - len);
            assert(lo + zeros(len) + hi =~= g);
            assert forall|i: int| 0 <= i < t.len() implies t[i] != ']' && t[i] != '%' by {
                if i < l.len() {
                    assert(t[i] == l[i]);
                } else if i >= l.len() + 2 {
                    assert(t[i] == r[i - l.len() - 2]);
                }
            }
        } else {
            lemma_hex_join(g);
            lemma_find_pair_none(t, ':');
        }
    }
}

/// The text of an IPv6 address with an embedded IPv4 address reads back as its
/// segments, and holds no `]` or `%`.
proof fn lemma_mapped_round_trip(ip: Ipv6)
    requires
        is_v4_mapped(ip.segments()),
    ensures
        ipv6_segments_of(ipv6_text(ip)) == Some(ip.segments()),
        free_of(ipv6_text(ip), ']'),
        free_of(ipv6_text(ip), '%'),
{
    let g = ip.segments();
    let t = ipv6_text(ip);
    let v4 = mapped_v4(g);
    let v4t = ipv4_text(v4);
    let ffff = seq!['f', 'f', 'f', 'f'];
    lemma_ipv4_round_trip(v4);
    assert(t == seq![':', ':'] + (ffff + seq![':'] + v4t));
    assert(t[0] == ':' && t[1] == ':');
    lemma_find_pair_is(t, ':', 0);
    assert(t.take(0) =~= Seq::<char>::empty());
    let right = t.skip(2);
    assert(right =~= ffff + seq![':'] + v4t);
    lemma_split_concat(ffff, v4t, ':');
    lemma_split_free(ffff, ':');
    assert(free_of(v4t, ':'));
    lemma_split_free(v4t, ':');
    let ps = split(right, ':');
    assert(ps =~= seq![ffff, v4t]);
    assert(hex_group_ok(ffff));
    assert(ps.drop_last() =~= seq![ffff]);
    assert(!hex_group_ok(v4t)) by {
        let k = choose|k: int| 0 <= k < v4t.len() && v4t[k] == '.';
        assert(!is_digit_of(v4t[k], 16));
    }
    assert(digits_value(ffff, 16) == 0xffff) by {
        assert(ffff.drop_last() =~= seq!['f', 'f', 'f']);
        assert(ffff.drop_last().drop_last() =~= seq!['f', 'f']);
        assert(ffff.drop_last().drop_last().drop_last() =~= seq!['f']);
        let f1 = seq!['f'];
        let f2 = seq!['f', 'f'];
        let f3 = seq!['f', 'f', 'f'];
        assert(f1.drop_last() =~= Seq::<char>::empty());
        assert(f2.drop_last() =~= f1);
        assert(f3.drop_last() =~= f2);
        assert(ffff.drop_last() =~= f3);
        assert(crate::text::digit_value('f') == 15);
        assert(f1.last() == 'f' && f2.last() == 'f' && f3.last() == 'f' && ffff.last() == 'f');
        assert(digits_value(Seq::<char>::empty(), 16) == 0);
        assert(digits_value(f1, 16) == 15);
        assert(digits_value(f2, 16) == 255);
        assert(digits_value(f3, 16) == 4095);
    }
    let s6 = g[6];
    let s7 = g[7];
    assert((v4.o0 as int * 256 + v4.o1 as int) as u16 == s6) by {
        assert(s6 as int == (s6 as int / 256) * 256 + s6 as int % 256) by (nonlinear_arith);
        assert(s6 as int / 256 < 256) by (nonlinear_arith)
            requires
                s6 < 65536,
        ;
    }
    assert((v4.o2 as int * 256 + v4.o3 as int) as u16 == s7) by {
        assert(s7 as int == (s7 as int / 256) * 256 + s7 as int % 256) by (nonlinear_arith);
        assert(s7 as int / 256 < 256) by (nonlinear_arith)
            requires
                s7 < 65536,
        ;
    }
    let rg = seq![0xffffu16, s6, s7];
    assert(groups_of(ps, true) == Some(rg)) by {
        assert(seq![ffff].map_values(|p: Seq<char>| group_value(p)) =~= seq![0xffffu16]);
        assert(seq![0xffffu16] + seq![s6, s7] =~= rg);
    }
    assert(Seq::<u16>::empty() + zeros(5) + rg =~= g);
    assert(free_of(v4t, ']'));
    assert(free_of(v4t, '%'));
    assert forall|i: int| 0 <= i < t.len() implies t[i] != ']' && t[i] != '%' by {
        if i >= 7 {
            assert(t[i] == v4t[i - 7]);
        }
    }
}

/// The text of an IPv6 socket address with no flow label reads back as that address.
pub proof fn lemma_v6_address_round_trip(ip: Ipv6, port: u16, scope_id: u32)
    ensures
        address_of(address_text(SocketAddress::V6 { ip, port, flowinfo: 0, scope_id })) == Some(
            SocketAddress::V6 { ip, port, flowinfo: 0, scope_id },
        ),
{
    let a = SocketAddress::V6 { ip, port, flowinfo: 0, scope_id };
    let t = ipv6_text(ip);
    let z = if scope_id == 0 {
        Seq::<char>::empty()
    } else {
        seq!['%'] + decimal_text(scope_id as nat)
    };
    let p = decimal_text(port as nat);
    let s = address_text(a);
    assert(s == seq!['['] + t + z + seq![']', ':'] + p);
    lemma_ipv6_round_trip(ip);
    lemma_digits_free(scope_id as nat, 10, ']');
    lemma_digits_free(scope_id as nat, 10, '%');
    let inner = t + z;
    let b = s.skip(1);
    assert(b =~= inner + (seq![']', ':'] + p));
    assert forall|j: int| 0 <= j < inner.len() implies b[j] != ']' by {
        assert(b[j] == inner[j]);
        if j >= t.len() {
            assert(inner[j] == z[j - t.len()]);
            if j > t.len() {
                assert(z[j - t.len()] == decimal_text(scope_id as nat)[j - t.len() - 1]);
            }
        }
    }
    lemma_find_is(b, ']', inner.len() as int);
    assert(b.take(inner.len() as int) =~= inner);
    let after = b.skip(inner.len() as int + 1);
    assert(after =~= seq![':'] + p);
    assert(after.skip(1) =~= p);
    lemma_number_round_trip(port as nat, 0xffff);
    if scope_id == 0 {
        assert(inner =~= t);
        crate::text::lemma_find_none(inner, '%');
    } else {
        assert forall|j: int| 0 <= j < t.len() implies inner[j] != '%' by {
            assert(inner[j] == t[j]);
        }
        lemma_find_is(inner, '%', t.len() as int);
        assert(inner.take(t.len() as int) =~= t);
        assert(inner.skip(t.len() as int + 1) =~= decimal_text(scope_id as nat));
        lemma_number_round_trip(scope_id as nat, 0xffff_ffff);
    }
    assert(ipv6_from(ip.segments()) == ip);
}

/// An address reads back from its text, where it has no IPv6 flow label (the text
/// does not carry one).
pub proof fn lemma_address_round_trip(a: SocketAddress)
    requires
        a matches SocketAddress::V6 { flowinfo, .. } ==> flowinfo == 0,
    ensures
        address_of(address_text(a)) == Some(a),
{
    match a {
        SocketAddress::V4 { ip, port } => lemma_v4_address_round_trip(ip, port),
        SocketAddress::V6 { ip, port, flowinfo, scope_id } => lemma_v6_address_round_trip(ip, port, scope_id),
    }
}

/// The text of an IPv6 address holds only digits, colons and dots.
pub proof fn lemma_ipv6_text_free(ip: Ipv6, c: char)
    requires
        !is_hex_digit(c),
        c != ':',
        c != '.',
    ensures
        free_of(ipv6_text(ip), c),
{
    let g = ip.segments();
    let t = ipv6_text(ip);
    if is_v4_mapped(g) {
        let v4t = ipv4_text(mapped_v4(g));
        lemma_ipv4_round_trip(mapped_v4(g));
        assert(free_of(v4t, c));
        assert forall|i: int| 0 <= i < t.len() implies t[i] != c by {
            if i >= 7 {
                assert(t[i] == v4t[i - 7]);
            }
        }
    } else {
        let start = longest_run(g);
        let len = zero_run(g, start);
        let lo = g.take(start);
        let hi = g.skip(start + len);
        lemma_groups_free(lo, c);
        lemma_groups_free(hi, c);
        lemma_groups_free(g, c);
        if len > 1 {
            let l = join(hex_groups(lo), ':');
            let r = join(hex_groups(hi), ':');
            assert(t == l + seq![':', ':'] + r);
            assert forall|i: int| 0 <= i < t.len() implies t[i] != c by {
                if i < l.len() {
                    assert(t[i] == l[i]);
                } else if i >= l.len() + 2 {
                    assert(t[i] == r[i - l.len() - 2]);
                }
            }
        }
    }
}

/// Hexadecimal groups joined by colons hold no other character.
proof fn lemma_groups_free(segs: Seq<u16>, c: char)
    requires
        !is_hex_digit(c),
        c != ':',
    ensures
        free_of(join(hex_groups(segs), ':'), c),
{
    let ps = hex_groups(segs);
    assert forall|k: int| 0 <= k < ps.len() implies free_of(#[trigger] ps[k], c) by {
        lemma_hex_group_round_trip(segs[k]);
        assert(ps[k] == hex_text(segs[k] as nat));
        assert(free_of(hex_text(segs[k] as nat), c));
    }
    lemma_join_free(ps, ':', c);
}

/// The text of a socket address holds only digits and the characters `.:[]%`.
pub proof fn lemma_address_text_free(a: SocketAddress, c: char)
    requires
        !is_hex_digit(c),
        c != ':' && c != '.' && c != '[' && c != ']' && c != '%',
    ensures
        free_of(address_text(a), c),
{
    let s = address_text(a);
    match a {
        SocketAddress::V4 { ip, port } => {
            let t = ipv4_text(ip);
            let p = decimal_text(port as nat);
            lemma_ipv4_round_trip(ip);
            assert(free_of(t, c));
            lemma_digits_free(port as nat, 10, c);
            assert(s == t + seq![':'] + p);
            assert forall|i: int| 0 <= i < s.len() implies s[i] != c by {
                if i < t.len() {
                    assert(s[i] == t[i]);
                } else if i > t.len() {
                    assert(s[i] == p[i - t.len() - 1]);
                }
            }
        },
        SocketAddress::V6 { ip, port, flowinfo, scope_id } => {
            let t = ipv6_text(ip);
            let z = if scope_id == 0 {
                Seq::<char>::empty()
            } else {
                seq!['%'] + decimal_text(scope_id as nat)
            };
            let p = decimal_text(port as nat);
            lemma_ipv6_text_free(ip, c);
            lemma_digits_free(port as nat, 10, c);
            lemma_digits_free(scope_id as nat, 10, c);
            assert(s == seq!['['] + t + z + seq![']', ':'] + p);
            assert forall|i: int| 0 <= i < s.len() implies s[i] != c by {
                if 1 <= i < 1 + t.len() {
                    assert(s[i] == t[i - 1]);
                } else if 1 + t.len() <= i < 1 + t.len() + z.len() {
                    assert(s[i] == z[i - 1 - t.len()]);
                    if i > 1 + t.len() {
                        assert(z[i - 1 - t.len()] == decimal_text(scope_id as nat)[i - 2 - t.len()]);
                    }
                } else if i >= 3 + t.len() + z.len() {
                    assert(s[i] == p[i - 3 - t.len() - z.len()]);
                }
            }
        },
    }
}

} // verus!
