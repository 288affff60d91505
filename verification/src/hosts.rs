//! CIDR-based host filtering for Albion Online server addresses.
//!
//! A filter is a list of CIDR ranges (`address/prefix`); an address passes
//! when it lies in any of them.  Ranges are read from a list of strings or
//! from the text of a hosts file (one range per line, `#` starts a
//! comment).
use vstd::prelude::*;
use vstd::string::StringExecFns;
use crate::number::{parse_u8, u8_text, IntErrorKind};
use crate::ip::{ip_text, lemma_split_nonempty, pieces_view, split_chars, split_on, IpAddr};
use crate::text::{chars_of, string_of, sub_chars, trim, trim_chars};

verus! {

broadcast use vstd::string::group_string_axioms;

// ---------------------------------------------------------------------------
// Prefix lengths
// ---------------------------------------------------------------------------

/// The `u32` mask whose top `prefix` bits are set.
pub open spec fn mask_u32(prefix: u8) -> u32 {
    if prefix == 0 {
        0
    } else {
        0xffff_ffffu32 << ((32 - prefix) as u32)
    }
}

/// The `u128` mask whose top `prefix` bits are set.
pub open spec fn mask_u128(prefix: u8) -> u128 {
    if prefix == 0 {
        0
    } else {
        0xffff_ffff_ffff_ffff_ffff_ffff_ffff_ffffu128 << ((128 - prefix) as u128)
    }
}

pub fn prefix_mask_u32(prefix: u8) -> (m: u32)
    requires
        prefix <= 32,
    ensures
        m == mask_u32(prefix),
{
    if prefix == 0 {
        0
    } else {
        u32::MAX << (32 - prefix)
    }
}

pub fn prefix_mask_u128(prefix: u8) -> (m: u128)
    requires
        prefix <= 128,
    ensures
        m == mask_u128(prefix),
{
    if prefix == 0 {
        0
    } else {
        u128::MAX << (128 - prefix)
    }
}

// ---------------------------------------------------------------------------
// CIDR ranges
// ---------------------------------------------------------------------------

/// A CIDR range: the masked network number and the mask.
#[derive(Clone, Copy, Debug, PartialEq, Eq, Structural)]
pub enum CidrRange {
    V4 { network: u32, mask: u32 },
    V6 { network: u128, mask: u128 },
}

/// Why a CIDR entry was refused.
#[derive(Clone, Copy, Debug, PartialEq, Eq, Structural)]
pub enum CidrError {
    /// No `/` in the entry.
    MissingPrefix,
    /// The text before the `/` is no IP address.
    InvalidAddress,
    /// The text after the `/` is no `u8`.
    InvalidPrefix(IntErrorKind),
    /// An IPv4 prefix above 32.
    V4PrefixTooLong,
    /// An IPv6 prefix above 128.
    V6PrefixTooLong,
}

/// The message of an integer error (`ParseIntError`'s text).
pub open spec fn int_error_text(k: IntErrorKind) -> Seq<char> {
    match k {
        IntErrorKind::Empty => "cannot parse integer from empty string"@,
        IntErrorKind::InvalidDigit => "invalid digit found in string"@,
        IntErrorKind::PosOverflow => "number too large to fit in target type"@,
    }
}

/// The message of a CIDR error.
pub open spec fn cidr_error_text(e: CidrError) -> Seq<char> {
    match e {
        CidrError::MissingPrefix => "missing /prefix"@,
        CidrError::InvalidAddress => "invalid IP address: invalid IP address syntax"@,
        CidrError::InvalidPrefix(k) => "invalid prefix length: "@ + int_error_text(k),
        CidrError::V4PrefixTooLong => "IPv4 prefix length must be <= 32"@,
        CidrError::V6PrefixTooLong => "IPv6 prefix length must be <= 128"@,
    }
}

impl CidrError {
    /// The error's message.
    pub fn message(&self) -> (s: String)
        ensures
            s@ == cidr_error_text(*self),
    {
        match self {
            CidrError::MissingPrefix => "missing /prefix".to_string(),
            CidrError::InvalidAddress => "invalid IP address: invalid IP address syntax".to_string(),
            CidrError::InvalidPrefix(k) => {
                let head = "invalid prefix length: ".to_string();
                match k {
                    IntErrorKind::Empty => head.concat("cannot parse integer from empty string"),
                    IntErrorKind::InvalidDigit => head.concat("invalid digit found in string"),
                    IntErrorKind::PosOverflow => head.concat(
                        "number too large to fit in target type",
                    ),
                }
            },
            CidrError::V4PrefixTooLong => "IPv4 prefix length must be <= 32".to_string(),
            CidrError::V6PrefixTooLong => "IPv6 prefix length must be <= 128".to_string(),
        }
    }
}

/// The first index at or after `i` that holds `c`.
pub open spec fn index_of_from(s: Seq<char>, c: char, i: int) -> Option<int>
    decreases s.len() - i,
{
    if i < 0 || i >= s.len() {
        None
    } else if s[i] == c {
        Some(i)
    } else {
        index_of_from(s, c, i + 1)
    }
}

/// A CIDR entry `address/prefix` (split at the first `/`).
pub open spec fn cidr_text(s: Seq<char>) -> Result<CidrRange, CidrError> {
    match index_of_from(s, '/', 0) {
        None => Err(CidrError::MissingPrefix),
        Some(i) => match ip_text(s.take(i)) {
            None => Err(CidrError::InvalidAddress),
            Some(ip) => match u8_text(s.skip(i + 1)) {
                Err(k) => Err(CidrError::InvalidPrefix(k)),
                Ok(prefix) => match ip {
                    IpAddr::V4(a) => if prefix > 32 {
                        Err(CidrError::V4PrefixTooLong)
                    } else {
                        Ok(CidrRange::V4 { network: a & mask_u32(prefix), mask: mask_u32(prefix) })
                    },
                    IpAddr::V6(a) => if prefix > 128 {
                        Err(CidrError::V6PrefixTooLong)
                    } else {
                        Ok(
                            CidrRange::V6 {
                                network: a & mask_u128(prefix),
                                mask: mask_u128(prefix),
                            },
                        )
                    },
                },
            },
        },
    }
}

/// Whether a range holds an address (an IPv4 range holds no IPv6 address
/// and the other way round).
pub open spec fn range_holds(r: CidrRange, ip: IpAddr) -> bool {
    match (r, ip) {
        (CidrRange::V4 { network, mask }, IpAddr::V4(a)) => a & mask == network,
        (CidrRange::V6 { network, mask }, IpAddr::V6(a)) => a & mask == network,
        _ => false,
    }
}

pub fn index_of(s: &Vec<char>, c: char) -> (r: Option<usize>)
    ensures
        match r {
            Some(i) => index_of_from(s@, c, 0) == Some(i as int) && i < s@.len(),
            None => index_of_from(s@, c, 0) is None,
        },
{
    let n = s.len();
    let mut i: usize = 0;
    while i < n
        invariant
            n == s@.len(),
            i <= n,
            index_of_from(s@, c, 0) == index_of_from(s@, c, i as int),
        decreases n - i,
    {
        if s[i] == c {
            return Some(i);
        }
        i += 1;
    }
    None
}

impl CidrRange {
    /// Reads a CIDR entry `address/prefix`.
    pub fn parse(s: &str) -> (r: Result<CidrRange, CidrError>)
        ensures
            r == cidr_text(s@),
    {
        let v = chars_of(s);
        Self::parse_chars(&v)
    }

    fn parse_chars(v: &Vec<char>) -> (r: Result<CidrRange, CidrError>)
        ensures
            r == cidr_text(v@),
    {
        let n = v.len();
        let i = match index_of(v, '/') {
            Some(i) => i,
            None => return Err(CidrError::MissingPrefix),
        };
        let addr = sub_chars(v, 0, i);
        let prefix_text = sub_chars(v, i + 1, n);
        assert(addr@ =~= v@.take(i as int));
        assert(prefix_text@ =~= v@.skip(i + 1));
        let addr_s = string_of(&addr);
        let ip = match IpAddr::parse(addr_s.as_str()) {
            Some(ip) => ip,
            None => return Err(CidrError::InvalidAddress),
        };
        let prefix = match parse_u8(&prefix_text) {
            Ok(p) => p,
            Err(k) => return Err(CidrError::InvalidPrefix(k)),
        };
        match ip {
            IpAddr::V4(a) => {
                if prefix > 32 {
                    return Err(CidrError::V4PrefixTooLong);
                }
                let mask = prefix_mask_u32(prefix);
                Ok(CidrRange::V4 { network: a & mask, mask })
            },
            IpAddr::V6(a) => {
                if prefix > 128 {
                    return Err(CidrError::V6PrefixTooLong);
                }
                let mask = prefix_mask_u128(prefix);
                Ok(CidrRange::V6 { network: a & mask, mask })
            },
        }
    }

    /// Whether the range holds the address.
    pub fn contains(&self, ip: IpAddr) -> (b: bool)
        ensures
            b == range_holds(*self, ip),
    {
        match (self, ip) {
            (CidrRange::V4 { network, mask }, IpAddr::V4(a)) => a & *mask == *network,
            (CidrRange::V6 { network, mask }, IpAddr::V6(a)) => a & *mask == *network,
            _ => false,
        }
    }
}

// ---------------------------------------------------------------------------
// Host filters
// ---------------------------------------------------------------------------

/// The ranges of a list of entries: each entry is trimmed and blank ones
/// are skipped; the first entry that is no CIDR range gives the error.
pub open spec fn entries_ranges(cs: Seq<Seq<char>>) -> Result<Seq<CidrRange>, CidrError>
    decreases cs.len(),
{
    if cs.len() == 0 {
        Ok(Seq::empty())
    } else {
        match entries_ranges(cs.drop_last()) {
            Err(e) => Err(e),
            Ok(rs) => {
                let t = trim(cs.last());
                if t.len() == 0 {
                    Ok(rs)
                } else {
                    match cidr_text(t) {
                        Ok(r) => Ok(rs.push(r)),
                        Err(e) => Err(e),
                    }
                }
            },
        }
    }
}

/// The texts of a slice of strings.
pub open spec fn texts(cs: Seq<&str>) -> Seq<Seq<char>> {
    Seq::new(cs.len(), |i: int| cs[i]@)
}

/// A line without the `\r` of a `\r\n` line end.
pub open spec fn strip_cr(l: Seq<char>) -> Seq<char> {
    if l.len() > 0 && l.last() == '\r' {
        l.drop_last()
    } else {
        l
    }
}

/// The lines of a text (`str::lines`): split at `\n`, a line that ended
/// in `\r\n` loses the `\r`, and no empty last line follows a final `\n`.
pub open spec fn text_lines(s: Seq<char>) -> Seq<Seq<char>> {
    let ps = split_on(s, '\n');
    let ended = Seq::new((ps.len() - 1) as nat, |i: int| strip_cr(ps[i]));
    if ps.last().len() == 0 {
        ended
    } else {
        ended.push(ps.last())
    }
}

/// What a hosts-file line holds: the text before the first `#`, trimmed.
pub open spec fn line_entry(l: Seq<char>) -> Seq<char> {
    trim(split_on(l, '#')[0])
}

/// A refused hosts-file line.
#[derive(Clone, Debug)]
pub struct HostsFileError {
    /// The line's number, counted from 1.
    pub line_number: usize,
    /// The line's entry (comment removed, trimmed).
    pub entry: String,
    pub error: CidrError,
}

/// The ranges of the lines of a hosts file, or the first refused line:
/// its number, its entry and the error.
pub open spec fn lines_ranges(ls: Seq<Seq<char>>) -> Result<Seq<CidrRange>, (nat, Seq<char>, CidrError)>
    decreases ls.len(),
{
    if ls.len() == 0 {
        Ok(Seq::empty())
    } else {
        match lines_ranges(ls.drop_last()) {
            Err(e) => Err(e),
            Ok(rs) => {
                let t = line_entry(ls.last());
                if t.len() == 0 {
                    Ok(rs)
                } else {
                    match cidr_text(t) {
                        Ok(r) => Ok(rs.push(r)),
                        Err(e) => Err((ls.len(), t, e)),
                    }
                }
            },
        }
    }
}

/// Filters packets by the CIDR ranges their addresses fall in.
#[derive(Clone, Debug)]
pub struct HostFilter {
    ranges: Vec<CidrRange>,
}

impl View for HostFilter {
    type V = Seq<CidrRange>;

    closed spec fn view(&self) -> Seq<CidrRange> {
        self.ranges@
    }
}

/// Whether any of the ranges holds the address.
pub open spec fn any_holds(rs: Seq<CidrRange>, ip: IpAddr) -> bool {
    exists|i: int| 0 <= i < rs.len() && range_holds(#[trigger] rs[i], ip)
}

fn strip_cr_chars(l: &Vec<char>) -> (r: Vec<char>)
    ensures
        r@ == strip_cr(l@),
{
    let n = l.len();
    if n > 0 && l[n - 1] == '\r' {
        let r = sub_chars(l, 0, n - 1);
        assert(r@ =~= l@.drop_last());
        r
    } else {
        let r = sub_chars(l, 0, n);
        assert(r@ =~= l@);
        r
    }
}

/// Splits a text into its lines.
pub fn lines_of(s: &Vec<char>) -> (r: Vec<Vec<char>>)
    ensures
        pieces_view(r@) == text_lines(s@),
{
    let ps = split_chars(s, '\n');
    let ghost pv = pieces_view(ps@);
    proof {
        lemma_split_nonempty(s@, '\n');
    }
    let m = ps.len() - 1;
    let mut out: Vec<Vec<char>> = Vec::new();
    let mut i: usize = 0;
    while i < m
        invariant
            m + 1 == ps@.len(),
            pv == pieces_view(ps@),
            pv == split_on(s@, '\n'),
            i <= m,
            pieces_view(out@) == Seq::new(i as nat, |k: int| strip_cr(pv[k])),
        decreases m - i,
    {
        let l = strip_cr_chars(&ps[i]);
        assert(pv[i as int] == ps@[i as int]@);
        let ghost old_out = pieces_view(out@);
        out.push(l);
        assert(pieces_view(out@) =~= old_out.push(strip_cr(pv[i as int])));
        i += 1;
        assert(pieces_view(out@) =~= Seq::new(i as nat, |k: int| strip_cr(pv[k])));
    }
    assert(pv.last() == ps@[m as int]@);
    if ps[m].len() > 0 {
        let l = sub_chars(&ps[m], 0, ps[m].len());
        assert(l@ =~= pv.last());
        out.push(l);
        assert(pieces_view(out@) =~= text_lines(s@));
    } else {
        assert(pieces_view(out@) =~= text_lines(s@));
    }
    out
}

fn entry_of_line(l: &Vec<char>) -> (r: Vec<char>)
    ensures
        r@ == line_entry(l@),
{
    let ps = split_chars(l, '#');
    proof {
        lemma_split_nonempty(l@, '#');
    }
    assert(pieces_view(ps@)[0] == ps@[0]@);
    trim_chars(&ps[0])
}

/// A range's network is masked: it holds its own network address.
pub open spec fn range_ok(r: CidrRange) -> bool {
    match r {
        CidrRange::V4 { network, mask } => network & mask == network,
        CidrRange::V6 { network, mask } => network & mask == network,
    }
}

pub open spec fn ranges_ok(rs: Seq<CidrRange>) -> bool {
    forall|i: int| 0 <= i < rs.len() ==> range_ok(#[trigger] rs[i])
}

proof fn lemma_cidr_range_ok(s: Seq<char>)
    ensures
        cidr_text(s) matches Ok(r) ==> range_ok(r),
{
    if let Ok(r) = cidr_text(s) {
        match r {
            CidrRange::V4 { network, mask } => {
                let i = index_of_from(s, '/', 0)->Some_0;
                let a = ip_text(s.take(i))->Some_0->V4_0;
                assert((a & mask) & mask == a & mask) by (bit_vector);
            },
            CidrRange::V6 { network, mask } => {
                let i = index_of_from(s, '/', 0)->Some_0;
                let a = ip_text(s.take(i))->Some_0->V6_0;
                assert((a & mask) & mask == a & mask) by (bit_vector);
            },
        }
    }
}

proof fn lemma_entries_ranges_ok(cs: Seq<Seq<char>>)
    ensures
        entries_ranges(cs) matches Ok(rs) ==> ranges_ok(rs),
    decreases cs.len(),
{
    if cs.len() > 0 {
        lemma_entries_ranges_ok(cs.drop_last());
        lemma_cidr_range_ok(trim(cs.last()));
    }
}

proof fn lemma_lines_ranges_ok(ls: Seq<Seq<char>>)
    ensures
        lines_ranges(ls) matches Ok(rs) ==> ranges_ok(rs),
    decreases ls.len(),
{
    if ls.len() > 0 {
        lemma_lines_ranges_ok(ls.drop_last());
        lemma_cidr_range_ok(line_entry(ls.last()));
    }
}

impl HostFilter {
    /// Every range is masked (as every range read from text is).
    pub open spec fn wf(&self) -> bool {
        ranges_ok(self@)
    }

    /// Builds a filter from CIDR entries; blank entries are skipped.  The
    /// first entry that is no CIDR range makes it fail with that entry's
    /// error message.
    pub fn from_cidrs(cidrs: &[&str]) -> (r: Result<HostFilter, String>)
        ensures
            match (r, entries_ranges(texts(cidrs@))) {
                (Ok(f), Ok(rs)) => f@ == rs && f.wf(),
                (Err(m), Err(e)) => m@ == cidr_error_text(e),
                _ => false,
            },
    {
        let ghost cs = texts(cidrs@);
        let mut ranges: Vec<CidrRange> = Vec::new();
        let mut i: usize = 0;
        assert(cs.take(0) =~= Seq::<Seq<char>>::empty());
        while i < cidrs.len()
            invariant
                i <= cidrs@.len(),
                cs == texts(cidrs@),
                entries_ranges(cs.take(i as int)) == Ok::<Seq<CidrRange>, CidrError>(ranges@),
            decreases cidrs@.len() - i,
        {
            let ghost t = cs.take(i + 1);
            assert(t.drop_last() =~= cs.take(i as int));
            assert(t.last() == cidrs@[i as int]@);
            let v = chars_of(cidrs[i]);
            let trimmed = trim_chars(&v);
            if trimmed.len() > 0 {
                match CidrRange::parse_chars(&trimmed) {
                    Ok(r) => ranges.push(r),
                    Err(e) => {
                        proof {
                            lemma_entries_err(cs, i + 1);
                        }
                        return Err(e.message());
                    },
                }
            }
            i += 1;
        }
        assert(cs.take(i as int) =~= cs);
        proof {
            lemma_entries_ranges_ok(cs);
        }
        Ok(HostFilter { ranges })
    }

    /// Builds a filter from the text of a hosts file: one CIDR range per
    /// line, `#` starts a comment, blank lines are skipped.  The first line
    /// that holds no CIDR range makes it fail.
    pub fn from_hosts_text(content: &str) -> (r: Result<HostFilter, HostsFileError>)
        ensures
            match (r, lines_ranges(text_lines(content@))) {
                (Ok(f), Ok(rs)) => f@ == rs && f.wf(),
                (Err(e), Err((n, t, k))) => e.line_number == n && e.entry@ == t && e.error == k,
                _ => false,
            },
    {
        let v = chars_of(content);
        let lines = lines_of(&v);
        let ghost ls = pieces_view(lines@);
        let mut ranges: Vec<CidrRange> = Vec::new();
        let mut i: usize = 0;
        assert(ls.take(0) =~= Seq::<Seq<char>>::empty());
        while i < lines.len()
            invariant
                i <= lines@.len(),
                ls == pieces_view(lines@),
                ls == text_lines(content@),
                lines_ranges(ls.take(i as int)) == Ok::<
                    Seq<CidrRange>,
                    (nat, Seq<char>, CidrError),
                >(ranges@),
            decreases lines@.len() - i,
        {
            let ghost t = ls.take(i + 1);
            assert(t.drop_last() =~= ls.take(i as int));
            assert(t.last() == lines@[i as int]@);
            let entry = entry_of_line(&lines[i]);
            if entry.len() > 0 {
                match CidrRange::parse_chars(&entry) {
                    Ok(r) => ranges.push(r),
                    Err(e) => {
                        proof {
                            lemma_lines_err(ls, i + 1);
                        }
                        return Err(
                            HostsFileError { line_number: i + 1, entry: string_of(&entry), error: e },
                        );
                    },
                }
            }
            i += 1;
        }
        assert(ls.take(i as int) =~= ls);
        proof {
            lemma_lines_ranges_ok(ls);
        }
        Ok(HostFilter { ranges })
    }

    /// Whether any range holds the address.
    pub fn contains(&self, ip: IpAddr) -> (b: bool)
        ensures
            b == any_holds(self@, ip),
    {
        let mut i: usize = 0;
        while i < self.ranges.len()
            invariant
                i <= self.ranges@.len(),
                forall|k: int| 0 <= k < i ==> !range_holds(#[trigger] self.ranges@[k], ip),
            decreases self.ranges@.len() - i,
        {
            if self.ranges[i].contains(ip) {
                return true;
            }
            i += 1;
        }
        false
    }

    /// The number of ranges.
    pub fn len(&self) -> (n: usize)
        ensures
            n == self@.len(),
    {
        self.ranges.len()
    }

    /// Whether the filter has no range.
    pub fn is_empty(&self) -> (b: bool)
        ensures
            b == (self@.len() == 0),
    {
        self.ranges.len() == 0
    }

    /// The ranges, in the order they were read.
    pub fn ranges(&self) -> (r: &Vec<CidrRange>)
        ensures
            r@ == self@,
    {
        &self.ranges
    }
}

proof fn lemma_entries_err(cs: Seq<Seq<char>>, k: int)
    requires
        0 <= k <= cs.len(),
        entries_ranges(cs.take(k)) is Err,
    ensures
        entries_ranges(cs) == entries_ranges(cs.take(k)),
    decreases cs.len() - k,
{
    if k < cs.len() {
        assert(cs.take(k + 1).drop_last() =~= cs.take(k));
        lemma_entries_err(cs, k + 1);
    } else {
        assert(cs.take(k) =~= cs);
    }
}

proof fn lemma_lines_err(ls: Seq<Seq<char>>, k: int)
    requires
        0 <= k <= ls.len(),
        lines_ranges(ls.take(k)) is Err,
    ensures
        lines_ranges(ls) == lines_ranges(ls.take(k)),
    decreases ls.len() - k,
{
    if k < ls.len() {
        assert(ls.take(k + 1).drop_last() =~= ls.take(k));
        lemma_lines_err(ls, k + 1);
    } else {
        assert(ls.take(k) =~= ls);
    }
}

// ---------------------------------------------------------------------------
// Laws
// ---------------------------------------------------------------------------

/// A CIDR range holds the address it was written with.
pub proof fn law_range_holds_its_address(s: Seq<char>, i: int, ip: IpAddr)
    requires
        index_of_from(s, '/', 0) == Some(i),
        ip_text(s.take(i)) == Some(ip),
        cidr_text(s) is Ok,
    ensures
        range_holds(cidr_text(s)->Ok_0, ip),
{
    match ip {
        IpAddr::V4(a) => {
            let prefix = u8_text(s.skip(i + 1))->Ok_0;
            let m = mask_u32(prefix);
            assert((a & m) & m == a & m) by (bit_vector);
        },
        IpAddr::V6(a) => {
            let prefix = u8_text(s.skip(i + 1))->Ok_0;
            let m = mask_u128(prefix);
            assert((a & m) & m == a & m) by (bit_vector);
        },
    }
}

/// A range with prefix 0 holds every address of its family; one with the
/// full prefix holds exactly its own address.
pub proof fn law_prefix_extremes(a: u32, b: u32, x: u128, y: u128)
    ensures
        range_holds(CidrRange::V4 { network: a & mask_u32(0), mask: mask_u32(0) }, IpAddr::V4(b)),
        range_holds(CidrRange::V6 { network: x & mask_u128(0), mask: mask_u128(0) }, IpAddr::V6(y)),
        range_holds(CidrRange::V4 { network: a & mask_u32(32), mask: mask_u32(32) }, IpAddr::V4(b))
            <==> a == b,
        range_holds(
            CidrRange::V6 { network: x & mask_u128(128), mask: mask_u128(128) },
            IpAddr::V6(y),
        ) <==> x == y,
{
    assert(a & 0u32 == b & 0u32) by (bit_vector);
    assert(x & 0u128 == y & 0u128) by (bit_vector);
    assert(0xffff_ffffu32 << 0u32 == 0xffff_ffffu32) by (bit_vector);
    assert(0xffff_ffff_ffff_ffff_ffff_ffff_ffff_ffffu128 << 0u128
        == 0xffff_ffff_ffff_ffff_ffff_ffff_ffff_ffffu128) by (bit_vector);
    assert(a & 0xffff_ffffu32 == a && b & 0xffff_ffffu32 == b) by (bit_vector);
    assert(x & 0xffff_ffff_ffff_ffff_ffff_ffff_ffff_ffffu128 == x && y
        & 0xffff_ffff_ffff_ffff_ffff_ffff_ffff_ffffu128 == y) by (bit_vector);
}

/// A filter without ranges is exactly one that holds no address: every
/// range holds at least its own network address.
pub proof fn law_empty_filter_holds_nothing(f: HostFilter)
    requires
        f.wf(),
    ensures
        (f@.len() == 0) <==> (forall|ip: IpAddr| !any_holds(f@, ip)),
{
    if f@.len() > 0 {
        let r = f@[0];
        assert(range_ok(r));
        let ip = match r {
            CidrRange::V4 { network, mask } => IpAddr::V4(network),
            CidrRange::V6 { network, mask } => IpAddr::V6(network),
        };
        assert(range_holds(f@[0], ip));
        assert(any_holds(f@, ip));
    }
}

/// A prefix of `p` bits masks exactly the top `p` bits: bit `i` of the
/// mask is set exactly when `i >= 32 - p` (for IPv4) or `i >= 128 - p`
/// (for IPv6).
pub proof fn law_prefix_mask_bits(p: u8, i: u32)
    ensures
        p <= 32 && i < 32 ==> (((mask_u32(p) >> i) & 1u32 == 1u32) <==> i + p >= 32),
        p <= 128 && i < 128 ==> (((mask_u128(p) >> (i as u128)) & 1u128 == 1u128) <==> i + p
            >= 128),
{
    if p <= 32 && i < 32 {
        let q: u32 = (32 - p) as u32;
        if p == 0 {
            assert((0u32 >> i) & 1u32 == 0u32) by (bit_vector);
        } else {
            assert(((0xffff_ffffu32 << q) >> i) & 1u32 == 1u32 <==> i >= q) by (bit_vector)
                requires
                    q < 32,
                    i < 32,
            ;
        }
    }
    if p <= 128 && i < 128 {
        let q: u128 = (128 - p) as u128;
        let j: u128 = i as u128;
        if p == 0 {
            assert((0u128 >> j) & 1u128 == 0u128) by (bit_vector);
        } else {
            assert(((0xffff_ffff_ffff_ffff_ffff_ffff_ffff_ffffu128 << q) >> j) & 1u128 == 1u128
                <==> j >= q) by (bit_vector)
                requires
                    q < 128,
                    j < 128,
            ;
        }
    }
}

/// An IPv4 address lies in a range of prefix `p` exactly when its top `p`
/// bits agree with those of the range's address.
pub proof fn law_v4_range_is_top_bits(p: u8, a: u32, b: u32)
    requires
        p <= 32,
    ensures
        (b & mask_u32(p) == a & mask_u32(p)) <==> (p == 0 || (b >> ((32 - p) as u32)) == (a >> ((32
            - p) as u32))),
{
    if p == 0 {
        assert(b & 0u32 == a & 0u32) by (bit_vector);
    } else {
        let q: u32 = (32 - p) as u32;
        assert((b & (0xffff_ffffu32 << q) == a & (0xffff_ffffu32 << q)) <==> (b >> q) == (a >> q))
            by (bit_vector)
            requires
                q < 32,
        ;
    }
}

} // verus!
