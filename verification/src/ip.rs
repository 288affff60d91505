//! IP addresses and their text forms.
//!
//! The accepted text is that of Rust's `IpAddr` parser: dotted-quad IPv4
//! (one to three decimal digits per octet, no leading zero, at most 255),
//! and IPv6 as eight groups of one to four hexadecimal digits, where one
//! run of groups may be abbreviated by `::` and the last two groups may be
//! written as a dotted-quad IPv4 address.
use vstd::prelude::*;
use crate::text::{chars_of, sub_chars};

verus! {

/// An IPv4 or IPv6 address, as its 32- or 128-bit number.
#[derive(Clone, Copy, Debug, PartialEq, Eq, Structural)]
pub enum IpAddr {
    V4(u32),
    V6(u128),
}

// ---------------------------------------------------------------------------
// Splitting
// ---------------------------------------------------------------------------

/// The pieces of `s` between occurrences of `sep` (`str::split`): one more
/// piece than there are separators.
pub open spec fn split_on(s: Seq<char>, sep: char) -> Seq<Seq<char>>
    decreases s.len(),
{
    if s.len() == 0 {
        seq![Seq::<char>::empty()]
    } else {
        let r = split_on(s.drop_last(), sep);
        if s.last() == sep {
            r.push(Seq::<char>::empty())
        } else {
            r.update(r.len() - 1, r.last().push(s.last()))
        }
    }
}

pub proof fn lemma_split_nonempty(s: Seq<char>, sep: char)
    ensures
        split_on(s, sep).len() >= 1,
    decreases s.len(),
{
    if s.len() > 0 {
        lemma_split_nonempty(s.drop_last(), sep);
    }
}

/// The views of a vector of character vectors.
pub open spec fn pieces_view(v: Seq<Vec<char>>) -> Seq<Seq<char>> {
    Seq::new(v.len(), |i: int| v[i]@)
}

/// Splits a character vector at every occurrence of `sep`.
pub fn split_chars(s: &Vec<char>, sep: char) -> (r: Vec<Vec<char>>)
    ensures
        pieces_view(r@) == split_on(s@, sep),
{
    let mut out: Vec<Vec<char>> = Vec::new();
    let mut cur: Vec<char> = Vec::new();
    let mut i: usize = 0;
    assert(pieces_view(out@).push(cur@) =~= split_on(s@.take(0), sep));
    while i < s.len()
        invariant
            i <= s@.len(),
            pieces_view(out@).push(cur@) == split_on(s@.take(i as int), sep),
        decreases s@.len() - i,
    {
        let c = s[i];
        let ghost before = split_on(s@.take(i as int), sep);
        assert(s@.take(i + 1).drop_last() =~= s@.take(i as int));
        assert(s@.take(i + 1).last() == c);
        if c == sep {
            out.push(cur);
            cur = Vec::new();
            assert(pieces_view(out@).push(cur@) =~= before.push(Seq::<char>::empty()));
        } else {
            cur.push(c);
            assert(pieces_view(out@).push(cur@) =~= before.update(
                before.len() - 1,
                before.last().push(c),
            ));
        }
        i += 1;
    }
    assert(s@.take(i as int) =~= s@);
    out.push(cur);
    assert(pieces_view(out@) =~= split_on(s@, sep));
    out
}

// ---------------------------------------------------------------------------
// Digits
// ---------------------------------------------------------------------------

pub open spec fn dec_digit(c: char) -> bool {
    '0' <= c <= '9'
}

pub open spec fn hex_digit_of(c: char) -> Option<int> {
    if '0' <= c <= '9' {
        Some(c as int - '0' as int)
    } else if 'a' <= c <= 'f' {
        Some(c as int - 'a' as int + 10)
    } else if 'A' <= c <= 'F' {
        Some(c as int - 'A' as int + 10)
    } else {
        None
    }
}

/// Value of a run of decimal digits.
pub open spec fn dec_value(p: Seq<char>) -> int
    decreases p.len(),
{
    if p.len() == 0 {
        0
    } else {
        dec_value(p.drop_last()) * 10 + (p.last() as int - '0' as int)
    }
}

/// Value of a run of hexadecimal digits.
pub open spec fn hex_value(p: Seq<char>) -> int
    decreases p.len(),
{
    if p.len() == 0 {
        0
    } else {
        hex_value(p.drop_last()) * 16 + match hex_digit_of(p.last()) {
            Some(d) => d,
            None => 0,
        }
    }
}

pub open spec fn all_dec(p: Seq<char>) -> bool {
    forall|i: int| 0 <= i < p.len() ==> dec_digit(#[trigger] p[i])
}

pub open spec fn all_hex(p: Seq<char>) -> bool {
    forall|i: int| 0 <= i < p.len() ==> (#[trigger] hex_digit_of(p[i])) is Some
}

/// An IPv4 octet: one to three decimal digits, no leading zero, at most 255.
pub open spec fn dec_octet(p: Seq<char>) -> Option<u8> {
    if 1 <= p.len() <= 3 && all_dec(p) && (p.len() == 1 || p[0] != '0') && dec_value(p) <= 255 {
        Some(dec_value(p) as u8)
    } else {
        None
    }
}

/// An IPv6 group: one to four hexadecimal digits.
pub open spec fn hex_group(p: Seq<char>) -> Option<u16> {
    if 1 <= p.len() <= 4 && all_hex(p) {
        Some(hex_value(p) as u16)
    } else {
        None
    }
}

proof fn lemma_dec_value_bound(p: Seq<char>)
    requires
        all_dec(p),
    ensures
        0 <= dec_value(p),
        p.len() == 1 ==> dec_value(p) <= 9,
        p.len() == 2 ==> dec_value(p) <= 99,
        p.len() == 3 ==> dec_value(p) <= 999,
    decreases p.len(),
{
    if p.len() > 0 {
        assert(all_dec(p.drop_last())) by {
            assert forall|i: int| 0 <= i < p.drop_last().len() implies dec_digit(
                #[trigger] p.drop_last()[i],
            ) by {
                assert(p.drop_last()[i] == p[i]);
            }
        }
        lemma_dec_value_bound(p.drop_last());
        assert(dec_digit(p[p.len() - 1]));
    }
}

proof fn lemma_hex_value_bound(p: Seq<char>)
    requires
        all_hex(p),
    ensures
        0 <= hex_value(p),
        p.len() <= 1 ==> hex_value(p) <= 15,
        p.len() <= 2 ==> hex_value(p) <= 255,
        p.len() <= 3 ==> hex_value(p) <= 4095,
        p.len() <= 4 ==> hex_value(p) <= 65535,
    decreases p.len(),
{
    if p.len() > 0 {
        assert(all_hex(p.drop_last())) by {
            assert forall|i: int| 0 <= i < p.drop_last().len() implies (#[trigger] hex_digit_of(
                p.drop_last()[i],
            )) is Some by {
                assert(p.drop_last()[i] == p[i]);
            }
        }
        lemma_hex_value_bound(p.drop_last());
        assert(hex_digit_of(p[p.len() - 1]) is Some);
    }
}

fn hex_digit_exec(c: char) -> (r: Option<u32>)
    ensures
        match r {
            Some(d) => hex_digit_of(c) == Some(d as int) && d < 16,
            None => hex_digit_of(c) is None,
        },
{
    if '0' <= c && c <= '9' {
        Some((c as u32) - 48)
    } else if 'a' <= c && c <= 'f' {
        Some((c as u32) - 87)
    } else if 'A' <= c && c <= 'F' {
        Some((c as u32) - 55)
    } else {
        None
    }
}

/// Reads an IPv4 octet.
pub fn parse_dec_octet(p: &Vec<char>) -> (r: Option<u8>)
    ensures
        r == dec_octet(p@),
{
    let n = p.len();
    if n < 1 || n > 3 {
        return None;
    }
    let mut v: u32 = 0;
    let mut i: usize = 0;
    while i < n
        invariant
            n == p@.len(),
            1 <= n <= 3,
            i <= n,
            all_dec(p@.take(i as int)),
            v as int == dec_value(p@.take(i as int)),
            v <= 999,
        decreases n - i,
    {
        let c = p[i];
        if !('0' <= c && c <= '9') {
            assert(!dec_digit(p@[i as int]));
            return None;
        }
        proof {
            let t = p@.take(i + 1);
            assert(t.drop_last() =~= p@.take(i as int));
            assert(all_dec(t)) by {
                assert forall|k: int| 0 <= k < t.len() implies dec_digit(#[trigger] t[k]) by {
                    if k < i {
                        assert(t[k] == p@.take(i as int)[k]);
                    }
                }
            }
            lemma_dec_value_bound(t);
        }
        v = v * 10 + ((c as u32) - 48);
        i += 1;
    }
    assert(p@.take(n as int) =~= p@);
    if n > 1 && p[0] == '0' {
        return None;
    }
    if v > 255 {
        return None;
    }
    Some(v as u8)
}

/// Reads an IPv6 group.
pub fn parse_hex_group(p: &Vec<char>) -> (r: Option<u16>)
    ensures
        r == hex_group(p@),
{
    let n = p.len();
    if n < 1 || n > 4 {
        return None;
    }
    let mut v: u32 = 0;
    let mut i: usize = 0;
    while i < n
        invariant
            n == p@.len(),
            1 <= n <= 4,
            i <= n,
            all_hex(p@.take(i as int)),
            v as int == hex_value(p@.take(i as int)),
            v <= 65535,
        decreases n - i,
    {
        let d = match hex_digit_exec(p[i]) {
            Some(d) => d,
            None => {
                assert(!((hex_digit_of(p@[i as int])) is Some));
                return None;
            },
        };
        proof {
            let t = p@.take(i + 1);
            assert(t.drop_last() =~= p@.take(i as int));
            assert(all_hex(t)) by {
                assert forall|k: int| 0 <= k < t.len() implies (#[trigger] hex_digit_of(
                    t[k],
                )) is Some by {
                    if k < i {
                        assert(t[k] == p@.take(i as int)[k]);
                    }
                }
            }
            lemma_hex_value_bound(t);
        }
        v = v * 16 + d;
        i += 1;
    }
    assert(p@.take(n as int) =~= p@);
    Some(v as u16)
}

// ---------------------------------------------------------------------------
// Addresses
// ---------------------------------------------------------------------------

pub open spec fn v4_number(a: u8, b: u8, c: u8, d: u8) -> u32 {
    (a as int * 0x1000000 + b as int * 0x10000 + c as int * 0x100 + d as int) as u32
}

/// Dotted-quad IPv4 text: four octets separated by dots.
pub open spec fn ipv4_text(s: Seq<char>) -> Option<u32> {
    let ps = split_on(s, '.');
    if ps.len() == 4 {
        match (dec_octet(ps[0]), dec_octet(ps[1]), dec_octet(ps[2]), dec_octet(ps[3])) {
            (Some(a), Some(b), Some(c), Some(d)) => Some(v4_number(a, b, c, d)),
            _ => None,
        }
    } else {
        None
    }
}

/// Every piece read as an IPv6 group.
pub open spec fn hex_groups(ps: Seq<Seq<char>>) -> Option<Seq<u16>>
    decreases ps.len(),
{
    if ps.len() == 0 {
        Some(Seq::empty())
    } else {
        match (hex_groups(ps.drop_last()), hex_group(ps.last())) {
            (Some(g), Some(x)) => Some(g.push(x)),
            _ => None,
        }
    }
}

/// The pieces read as IPv6 groups, where the last piece may instead be a
/// dotted-quad IPv4 address that stands for two groups.
pub open spec fn groups_with_v4(ps: Seq<Seq<char>>) -> Option<Seq<u16>> {
    if ps.len() == 0 {
        Some(Seq::empty())
    } else {
        match ipv4_text(ps.last()) {
            Some(v) => match hex_groups(ps.drop_last()) {
                Some(g) => Some(g + seq![(v / 0x10000) as u16, (v % 0x10000) as u16]),
                None => None,
            },
            None => hex_groups(ps),
        }
    }
}

/// The first index at or after `i` where `::` occurs.
pub open spec fn double_colon_from(s: Seq<char>, i: int) -> Option<int>
    decreases s.len() - i,
{
    if i < 0 || i + 2 > s.len() {
        None
    } else if s[i] == ':' && s[i + 1] == ':' {
        Some(i)
    } else {
        double_colon_from(s, i + 1)
    }
}

/// Eight groups, most significant first.
#[verifier::opaque]
pub open spec fn v6_number(g: Seq<u16>) -> u128 {
    (g[0] as int * 0x10000000000000000000000000000 + g[1] as int * 0x1000000000000000000000000
        + g[2] as int * 0x100000000000000000000 + g[3] as int * 0x10000000000000000 + g[4] as int
        * 0x1000000000000 + g[5] as int * 0x100000000 + g[6] as int * 0x10000 + g[7] as int) as u128
}

/// IPv6 text: eight groups separated by colons, or groups before and after
/// the first `::`, which stands for as many zero groups (at least one) as
/// make eight.  Only the last group of the text may be a dotted quad, and
/// only after the `::` when there is one.
pub open spec fn ipv6_text(s: Seq<char>) -> Option<u128> {
    match double_colon_from(s, 0) {
        Some(i) => {
            let head = s.take(i);
            let tail = s.skip(i + 2);
            let hg = if head.len() == 0 {
                Some(Seq::<u16>::empty())
            } else {
                hex_groups(split_on(head, ':'))
            };
            let tg = if tail.len() == 0 {
                Some(Seq::<u16>::empty())
            } else {
                groups_with_v4(split_on(tail, ':'))
            };
            match (hg, tg) {
                (Some(h), Some(t)) => if h.len() + t.len() <= 7 {
                    Some(v6_number(h + Seq::new((8 - h.len() - t.len()) as nat, |k: int| 0u16) + t))
                } else {
                    None
                },
                _ => None,
            }
        },
        None => match groups_with_v4(split_on(s, ':')) {
            Some(g) => if g.len() == 8 {
                Some(v6_number(g))
            } else {
                None
            },
            None => None,
        },
    }
}

/// An IP address in text: IPv4 first, else IPv6.
pub open spec fn ip_text(s: Seq<char>) -> Option<IpAddr> {
    match ipv4_text(s) {
        Some(v) => Some(IpAddr::V4(v)),
        None => match ipv6_text(s) {
            Some(v) => Some(IpAddr::V6(v)),
            None => None,
        },
    }
}

pub fn parse_ipv4(s: &Vec<char>) -> (r: Option<u32>)
    ensures
        r == ipv4_text(s@),
{
    let ps = split_chars(s, '.');
    if ps.len() != 4 {
        return None;
    }
    let ghost pv = pieces_view(ps@);
    assert(pv[0] == ps@[0]@ && pv[1] == ps@[1]@ && pv[2] == ps@[2]@ && pv[3] == ps@[3]@);
    let a = match parse_dec_octet(&ps[0]) {
        Some(x) => x,
        None => return None,
    };
    let b = match parse_dec_octet(&ps[1]) {
        Some(x) => x,
        None => return None,
    };
    let c = match parse_dec_octet(&ps[2]) {
        Some(x) => x,
        None => return None,
    };
    let d = match parse_dec_octet(&ps[3]) {
        Some(x) => x,
        None => return None,
    };
    Some((a as u32) * 0x1000000 + (b as u32) * 0x10000 + (c as u32) * 0x100 + (d as u32))
}

fn parse_hex_groups(ps: &Vec<Vec<char>>, n: usize) -> (r: Option<Vec<u16>>)
    requires
        n <= ps@.len(),
    ensures
        match r {
            Some(g) => hex_groups(pieces_view(ps@).take(n as int)) == Some(g@),
            None => hex_groups(pieces_view(ps@).take(n as int)) is None,
        },
{
    let ghost pv = pieces_view(ps@);
    let mut out: Vec<u16> = Vec::new();
    let mut i: usize = 0;
    assert(pv.take(0) =~= Seq::<Seq<char>>::empty());
    while i < n
        invariant
            n <= ps@.len(),
            pv == pieces_view(ps@),
            i <= n,
            hex_groups(pv.take(i as int)) == Some(out@),
        decreases n - i,
    {
        assert(pv.take(i + 1).drop_last() =~= pv.take(i as int));
        assert(pv.take(i + 1).last() == ps@[i as int]@);
        match parse_hex_group(&ps[i]) {
            Some(x) => out.push(x),
            None => {
                assert(hex_groups(pv.take(i + 1)) is None);
                assert(hex_groups(pv.take(n as int)) is None) by {
                    lemma_hex_groups_prefix(pv.take(n as int), i + 1);
                    assert(pv.take(n as int).take(i + 1) =~= pv.take(i + 1));
                }
                return None;
            },
        }
        i += 1;
    }
    Some(out)
}

/// A failing prefix makes the whole fail.
proof fn lemma_hex_groups_prefix(ps: Seq<Seq<char>>, k: int)
    requires
        0 <= k <= ps.len(),
        hex_groups(ps.take(k)) is None,
    ensures
        hex_groups(ps) is None,
    decreases ps.len() - k,
{
    if k < ps.len() {
        assert(ps.take(k + 1).drop_last() =~= ps.take(k));
        lemma_hex_groups_prefix(ps, k + 1);
    } else {
        assert(ps.take(k) =~= ps);
    }
}

fn parse_groups_with_v4(ps: &Vec<Vec<char>>) -> (r: Option<Vec<u16>>)
    ensures
        match r {
            Some(g) => groups_with_v4(pieces_view(ps@)) == Some(g@),
            None => groups_with_v4(pieces_view(ps@)) is None,
        },
{
    let ghost pv = pieces_view(ps@);
    let n = ps.len();
    assert(pv.take(n as int) =~= pv);
    if n == 0 {
        let v: Vec<u16> = Vec::new();
        assert(v@ =~= Seq::<u16>::empty());
        return Some(v);
    }
    assert(pv.last() == ps@[n - 1]@);
    assert(pv.take(n - 1) =~= pv.drop_last());
    match parse_ipv4(&ps[n - 1]) {
        Some(v) => {
            match parse_hex_groups(ps, n - 1) {
                Some(g) => {
                    let mut g = g;
                    let ghost g0 = g@;
                    g.push((v / 0x10000) as u16);
                    g.push((v % 0x10000) as u16);
                    assert(g@ =~= g0 + seq![(v / 0x10000) as u16, (v % 0x10000) as u16]);
                    Some(g)
                },
                None => None,
            }
        },
        None => parse_hex_groups(ps, n),
    }
}

fn find_double_colon(s: &Vec<char>) -> (r: Option<usize>)
    ensures
        match r {
            Some(i) => double_colon_from(s@, 0) == Some(i as int) && i + 2 <= s@.len(),
            None => double_colon_from(s@, 0) is None,
        },
{
    let n = s.len();
    if n < 2 {
        return None;
    }
    let mut i: usize = 0;
    while i <= n - 2
        invariant
            n == s@.len(),
            n >= 2,
            double_colon_from(s@, 0) == double_colon_from(s@, i as int),
        decreases n - i,
    {
        if s[i] == ':' && s[i + 1] == ':' {
            return Some(i);
        }
        i += 1;
    }
    None
}

pub fn v6_from_groups(g: &Vec<u16>) -> (r: u128)
    requires
        g@.len() == 8,
    ensures
        r == v6_number(g@),
{
    reveal(v6_number);
    (g[0] as u128) * 0x10000000000000000000000000000 + (g[1] as u128) * 0x1000000000000000000000000
        + (g[2] as u128) * 0x100000000000000000000 + (g[3] as u128) * 0x10000000000000000 + (g[4] as u128)
        * 0x1000000000000 + (g[5] as u128) * 0x100000000 + (g[6] as u128) * 0x10000 + (g[7] as u128)
}

fn fill_groups(h: &Vec<u16>, t: &Vec<u16>) -> (g: Vec<u16>)
    requires
        h@.len() + t@.len() <= 7,
    ensures
        g@ == h@ + Seq::new((8 - h@.len() - t@.len()) as nat, |k: int| 0u16) + t@,
        g@.len() == 8,
{
    let mut g: Vec<u16> = Vec::new();
    let mut k: usize = 0;
    while k < h.len()
        invariant
            k <= h@.len(),
            g@ == h@.take(k as int),
        decreases h@.len() - k,
    {
        g.push(h[k]);
        k += 1;
        assert(g@ =~= h@.take(k as int));
    }
    let zeros = 8 - h.len() - t.len();
    let mut z: usize = 0;
    let ghost hz = h@;
    assert(g@ =~= hz);
    while z < zeros
        invariant
            z <= zeros,
            g@ == hz + Seq::new(z as nat, |j: int| 0u16),
        decreases zeros - z,
    {
        g.push(0);
        z += 1;
        assert(g@ =~= hz + Seq::new(z as nat, |j: int| 0u16));
    }
    let ghost hzz = g@;
    let mut k: usize = 0;
    while k < t.len()
        invariant
            k <= t@.len(),
            g@ == hzz + t@.take(k as int),
        decreases t@.len() - k,
    {
        g.push(t[k]);
        k += 1;
        assert(g@ =~= hzz + t@.take(k as int));
    }
    assert(t@.take(t@.len() as int) =~= t@);
    g
}

pub fn parse_ipv6(s: &Vec<char>) -> (r: Option<u128>)
    ensures
        r == ipv6_text(s@),
{
    match find_double_colon(s) {
        Some(i) => {
            let n = s.len();
            assert(i + 2 <= n);
            let head = sub_chars(s, 0, i);
            let tail = sub_chars(s, i + 2, n);
            assert(head@ =~= s@.take(i as int));
            assert(tail@ =~= s@.skip(i + 2));
            let h = if head.len() == 0 {
                let v: Vec<u16> = Vec::new();
                assert(v@ =~= Seq::<u16>::empty());
                v
            } else {
                let ps = split_chars(&head, ':');
                match parse_hex_groups(&ps, ps.len()) {
                    Some(g) => {
                        assert(pieces_view(ps@).take(ps@.len() as int) =~= pieces_view(ps@));
                        g
                    },
                    None => {
                        assert(pieces_view(ps@).take(ps@.len() as int) =~= pieces_view(ps@));
                        return None;
                    },
                }
            };
            let t = if tail.len() == 0 {
                let v: Vec<u16> = Vec::new();
                assert(v@ =~= Seq::<u16>::empty());
                v
            } else {
                let ps = split_chars(&tail, ':');
                match parse_groups_with_v4(&ps) {
                    Some(g) => g,
                    None => return None,
                }
            };
            if h.len() > 7 || t.len() > 7 - h.len() {
                return None;
            }
            let g = fill_groups(&h, &t);
            Some(v6_from_groups(&g))
        },
        None => {
            let ps = split_chars(s, ':');
            match parse_groups_with_v4(&ps) {
                Some(g) => if g.len() == 8 {
                    Some(v6_from_groups(&g))
                } else {
                    None
                },
                None => None,
            }
        },
    }
}

impl IpAddr {
    /// Parses an IP address from text, as `str::parse::<IpAddr>` does.
    pub fn parse(s: &str) -> (r: Option<IpAddr>)
        ensures
            r == ip_text(s@),
    {
        let v = chars_of(s);
        match parse_ipv4(&v) {
            Some(a) => Some(IpAddr::V4(a)),
            None => match parse_ipv6(&v) {
                Some(a) => Some(IpAddr::V6(a)),
                None => None,
            },
        }
    }

    /// An IPv4 address from its four octets.
    pub fn v4(a: u8, b: u8, c: u8, d: u8) -> (r: IpAddr)
        ensures
            r == IpAddr::V4(v4_number(a, b, c, d)),
    {
        IpAddr::V4((a as u32) * 0x1000000 + (b as u32) * 0x10000 + (c as u32) * 0x100 + (d as u32))
    }
}

} // verus!
