//! Unsigned decimal integers in text, read as `str::parse` reads them.
use vstd::prelude::*;

verus! {

/// Why an integer could not be read (the kinds of `ParseIntError`).
#[derive(Clone, Copy, Debug, PartialEq, Eq, Structural)]
pub enum IntErrorKind {
    Empty,
    InvalidDigit,
    PosOverflow,
}

/// Value of a digit in base 10 or 16 (either case).
pub open spec fn digit_value(c: char, radix: nat) -> Option<nat> {
    if '0' <= c <= '9' {
        Some((c as int - '0' as int) as nat)
    } else if radix == 16 && 'a' <= c <= 'f' {
        Some((c as int - 'a' as int + 10) as nat)
    } else if radix == 16 && 'A' <= c <= 'F' {
        Some((c as int - 'A' as int + 10) as nat)
    } else {
        None
    }
}

/// Reads digits left to right into a number at most `max`: the first
/// character that is no digit, or the first digit that takes the value
/// past `max`, decides the error.
pub open spec fn uint_digits(p: Seq<char>, radix: nat, max: nat) -> Result<nat, IntErrorKind>
    decreases p.len(),
{
    if p.len() == 0 {
        Ok(0nat)
    } else {
        match uint_digits(p.drop_last(), radix, max) {
            Err(e) => Err(e),
            Ok(v) => match digit_value(p.last(), radix) {
                None => Err(IntErrorKind::InvalidDigit),
                Some(d) => if v * radix + d > max {
                    Err(IntErrorKind::PosOverflow)
                } else {
                    Ok(v * radix + d)
                },
            },
        }
    }
}

/// `from_str_radix` for an unsigned type whose largest value is `max`: an
/// optional `+`, then digits.
pub open spec fn uint_text(s: Seq<char>, radix: nat, max: nat) -> Result<nat, IntErrorKind> {
    if s.len() == 0 {
        Err(IntErrorKind::Empty)
    } else if (s[0] == '+' || s[0] == '-') && s.len() == 1 {
        Err(IntErrorKind::InvalidDigit)
    } else if s[0] == '+' {
        uint_digits(s.drop_first(), radix, max)
    } else {
        uint_digits(s, radix, max)
    }
}

/// `str::parse::<u8>`.
pub open spec fn u8_text(s: Seq<char>) -> Result<u8, IntErrorKind> {
    match uint_text(s, 10, 255) {
        Ok(v) => Ok(v as u8),
        Err(e) => Err(e),
    }
}

proof fn lemma_uint_digits_bound(p: Seq<char>, radix: nat, max: nat)
    ensures
        uint_digits(p, radix, max) matches Ok(v) ==> v <= max,
    decreases p.len(),
{
    if p.len() > 0 {
        lemma_uint_digits_bound(p.drop_last(), radix, max);
    }
}

/// An error on a prefix is the error of the whole.
proof fn lemma_uint_digits_err(p: Seq<char>, k: int, radix: nat, max: nat)
    requires
        0 <= k <= p.len(),
        uint_digits(p.take(k), radix, max) is Err,
    ensures
        uint_digits(p, radix, max) == uint_digits(p.take(k), radix, max),
    decreases p.len() - k,
{
    if k < p.len() {
        assert(p.take(k + 1).drop_last() =~= p.take(k));
        lemma_uint_digits_err(p, k + 1, radix, max);
    } else {
        assert(p.take(k) =~= p);
    }
}

fn digit_exec(c: char, radix: u32) -> (r: Option<u32>)
    requires
        radix == 10 || radix == 16,
    ensures
        match r {
            Some(d) => digit_value(c, radix as nat) == Some(d as nat) && d < radix,
            None => digit_value(c, radix as nat) is None,
        },
{
    if '0' <= c && c <= '9' {
        Some((c as u32) - 48)
    } else if radix == 16 && 'a' <= c && c <= 'f' {
        Some((c as u32) - 87)
    } else if radix == 16 && 'A' <= c && c <= 'F' {
        Some((c as u32) - 55)
    } else {
        None
    }
}

fn parse_uint_digits(p: &Vec<char>, from: usize, radix: u32, max: u32) -> (r: Result<
    u32,
    IntErrorKind,
>)
    requires
        from <= p@.len(),
        radix == 10 || radix == 16,
    ensures
        match r {
            Ok(v) => uint_digits(p@.skip(from as int), radix as nat, max as nat) == Ok::<
                nat,
                IntErrorKind,
            >(v as nat),
            Err(e) => uint_digits(p@.skip(from as int), radix as nat, max as nat) == Err::<
                nat,
                IntErrorKind,
            >(e),
        },
{
    let n = p.len();
    let ghost d = p@.skip(from as int);
    let mut v: u32 = 0;
    let mut i: usize = from;
    assert(d.take(0) =~= Seq::<char>::empty());
    while i < n
        invariant
            n == p@.len(),
            from <= i <= n,
            radix == 10 || radix == 16,
            d == p@.skip(from as int),
            v <= max,
            uint_digits(d.take(i - from), radix as nat, max as nat) == Ok::<nat, IntErrorKind>(
                v as nat,
            ),
        decreases n - i,
    {
        let c = p[i];
        let ghost t = d.take(i - from + 1);
        assert(t.drop_last() =~= d.take(i - from));
        assert(t.last() == c);
        let digit = match digit_exec(c, radix) {
            Some(x) => x,
            None => {
                proof {
                    lemma_uint_digits_err(d, i - from + 1, radix as nat, max as nat);
                }
                return Err(IntErrorKind::InvalidDigit);
            },
        };
        let next: u64 = (v as u64) * (radix as u64) + (digit as u64);
        assert(next == v * radix + digit) by (nonlinear_arith)
            requires
                next == (v as u64) * (radix as u64) + (digit as u64),
                v <= 0xffff_ffff,
                radix <= 16,
                digit < 16,
        ;
        if next > max as u64 {
            proof {
                lemma_uint_digits_err(d, i - from + 1, radix as nat, max as nat);
            }
            return Err(IntErrorKind::PosOverflow);
        }
        v = next as u32;
        i += 1;
    }
    assert(d.take(i - from) =~= d);
    Ok(v)
}

/// Reads an unsigned number at most `max` in base `radix` as
/// `from_str_radix` does.
pub fn parse_uint(p: &Vec<char>, radix: u32, max: u32) -> (r: Result<u32, IntErrorKind>)
    requires
        radix == 10 || radix == 16,
    ensures
        match r {
            Ok(v) => uint_text(p@, radix as nat, max as nat) == Ok::<nat, IntErrorKind>(v as nat)
                && v <= max,
            Err(e) => uint_text(p@, radix as nat, max as nat) == Err::<nat, IntErrorKind>(e),
        },
{
    let n = p.len();
    if n == 0 {
        return Err(IntErrorKind::Empty);
    }
    if (p[0] == '+' || p[0] == '-') && n == 1 {
        return Err(IntErrorKind::InvalidDigit);
    }
    let from: usize = if p[0] == '+' {
        1
    } else {
        0
    };
    assert(p@.skip(1) =~= p@.drop_first());
    assert(p@.skip(0) =~= p@);
    let r = parse_uint_digits(p, from, radix, max);
    proof {
        lemma_uint_digits_bound(p@.skip(from as int), radix as nat, max as nat);
    }
    r
}

/// Reads a `u8` as `str::parse::<u8>` does.
pub fn parse_u8(p: &Vec<char>) -> (r: Result<u8, IntErrorKind>)
    ensures
        r == u8_text(p@),
{
    match parse_uint(p, 10, 255) {
        Ok(v) => Ok(v as u8),
        Err(e) => Err(e),
    }
}

} // verus!
