//! Photon Protocol18 value deserialization.
//!
//! The wire format is a tagged encoding: every value starts with (or is
//! preceded by a known) one-byte type code, integers use little-endian
//! fixed widths or zig-zag "compressed" base-128 varints, and containers
//! carry a varint element count.  The specification functions below read a
//! byte sequence `d` from position `p` and give the decoded value together
//! with the position after it, or `None` when the input is malformed or
//! truncated.  The executable readers are proved to compute exactly these.
use vstd::prelude::*;
use vstd::utf8::*;
use crate::text::{hex_lower, to_hex_lower};

verus! {

broadcast use vstd::string::group_string_axioms;

// ---------------------------------------------------------------------------
// Values
// ---------------------------------------------------------------------------

/// A decoded Protocol18 value.
///
/// Integers of every wire width are held as `Int`; floating-point values
/// are kept as their IEEE-754 bit patterns (non-finite ones decode to
/// `Null`); byte arrays decode to their lower-case hexadecimal text;
/// dictionaries and hashtables keep their non-null keys in wire order;
/// nested parameter tables keep their entries in wire order.
pub enum Value {
    Null,
    Bool(bool),
    Int(i64),
    Float32(u32),
    Float64(u64),
    Str(String),
    Array(Vec<Value>),
    Dict(Vec<(Value, Value)>),
    Table(Vec<(u8, Value)>),
    Custom(u8, Vec<u8>),
}

/// The mathematical counterpart of [`Value`].
pub enum SValue {
    Null,
    Bool(bool),
    Int(i64),
    Float32(u32),
    Float64(u64),
    Str(Seq<char>),
    Array(Seq<SValue>),
    Dict(Seq<(SValue, SValue)>),
    Table(Seq<(u8, SValue)>),
    Custom(u8, Seq<u8>),
}

pub open spec fn value_view(v: Value) -> SValue
    decreases v,
{
    match v {
        Value::Null => SValue::Null,
        Value::Bool(b) => SValue::Bool(b),
        Value::Int(i) => SValue::Int(i),
        Value::Float32(b) => SValue::Float32(b),
        Value::Float64(b) => SValue::Float64(b),
        Value::Str(s) => SValue::Str(s@),
        Value::Array(items) => SValue::Array(
            Seq::new(
                items@.len(),
                |i: int|
                    if 0 <= i < items@.len() {
                        value_view(items@[i])
                    } else {
                        SValue::Null
                    },
            ),
        ),
        Value::Dict(items) => SValue::Dict(
            Seq::new(
                items@.len(),
                |i: int|
                    if 0 <= i < items@.len() {
                        (value_view(items@[i].0), value_view(items@[i].1))
                    } else {
                        (SValue::Null, SValue::Null)
                    },
            ),
        ),
        Value::Table(items) => SValue::Table(
            Seq::new(
                items@.len(),
                |i: int|
                    if 0 <= i < items@.len() {
                        (items@[i].0, value_view(items@[i].1))
                    } else {
                        (0u8, SValue::Null)
                    },
            ),
        ),
        Value::Custom(code, data) => SValue::Custom(code, data@),
    }
}

impl View for Value {
    type V = SValue;

    open spec fn view(&self) -> SValue {
        value_view(*self)
    }
}

/// A parameter table: `(key, value)` entries in wire order.  A lookup
/// gives the last entry with the key, as inserting the entries one by one
/// into a map would.
pub open spec fn table_view(t: Seq<(u8, Value)>) -> Seq<(u8, SValue)> {
    Seq::new(t.len(), |i: int| (t[i].0, value_view(t[i].1)))
}

pub proof fn lemma_table_value_view(t: Vec<(u8, Value)>)
    ensures
        value_view(Value::Table(t)) == SValue::Table(table_view(t@)),
{
    assert(value_view(Value::Table(t))->Table_0 =~= table_view(t@));
}

/// The value stored under `key` in a parameter table (last entry wins).
pub open spec fn table_get(t: Seq<(u8, SValue)>, key: u8) -> Option<SValue>
    decreases t.len(),
{
    if t.len() == 0 {
        None
    } else if t.last().0 == key {
        Some(t.last().1)
    } else {
        table_get(t.drop_last(), key)
    }
}

// ---------------------------------------------------------------------------
// Primitive readers
// ---------------------------------------------------------------------------

pub open spec fn spec_u8(d: Seq<u8>, p: int) -> Option<(u8, int)> {
    if 0 <= p < d.len() {
        Some((d[p], p + 1))
    } else {
        None
    }
}

pub open spec fn spec_u16_le(d: Seq<u8>, p: int) -> Option<(u16, int)> {
    if 0 <= p && p + 2 <= d.len() {
        Some(((d[p] + 0x100 * d[p + 1]) as u16, p + 2))
    } else {
        None
    }
}

pub open spec fn spec_i16_le(d: Seq<u8>, p: int) -> Option<(i16, int)> {
    match spec_u16_le(d, p) {
        Some((u, q)) => Some(
            (
                if u < 0x8000 {
                    u as i16
                } else {
                    (u - 0x10000) as i16
                },
                q,
            ),
        ),
        None => None,
    }
}

pub open spec fn spec_u32_le(d: Seq<u8>, p: int) -> Option<(u32, int)> {
    if 0 <= p && p + 4 <= d.len() {
        Some(
            (
                (d[p] + 0x100 * d[p + 1] + 0x1_0000 * d[p + 2] + 0x100_0000 * d[p + 3]) as u32,
                p + 4,
            ),
        )
    } else {
        None
    }
}

pub open spec fn spec_u64_le(d: Seq<u8>, p: int) -> Option<(u64, int)> {
    if 0 <= p && p + 8 <= d.len() {
        Some(
            (
                (d[p] + 0x100 * d[p + 1] + 0x1_0000 * d[p + 2] + 0x100_0000 * d[p + 3]
                    + 0x1_0000_0000 * d[p + 4] + 0x100_0000_0000 * d[p + 5] + 0x1_0000_0000_0000
                    * d[p + 6] + 0x100_0000_0000_0000 * d[p + 7]) as u64,
                p + 8,
            ),
        )
    } else {
        None
    }
}

/// Base-128 varint into 32 bits: seven data bits per byte, least
/// significant group first, high bit set on every byte but the last, at
/// most five bytes; bits beyond the 32nd are dropped.
pub open spec fn varint32_from(d: Seq<u8>, p: int, shift: nat, acc: u32) -> Option<(u32, int)>
    decreases (if shift < 35 {
        35 - shift
    } else {
        0int
    }),
{
    if shift >= 35 {
        None
    } else {
        match spec_u8(d, p) {
            None => None,
            Some((b, q)) => {
                let acc2 = acc | (((b & 0x7f) as u32) << (shift as u32));
                if b & 0x80 == 0 {
                    Some((acc2, q))
                } else {
                    varint32_from(d, q, shift + 7, acc2)
                }
            },
        }
    }
}

pub open spec fn spec_varint32(d: Seq<u8>, p: int) -> Option<(u32, int)> {
    varint32_from(d, p, 0, 0)
}

/// Base-128 varint into 64 bits, at most ten bytes.
pub open spec fn varint64_from(d: Seq<u8>, p: int, shift: nat, acc: u64) -> Option<(u64, int)>
    decreases (if shift < 70 {
        70 - shift
    } else {
        0int
    }),
{
    if shift >= 70 {
        None
    } else {
        match spec_u8(d, p) {
            None => None,
            Some((b, q)) => {
                let acc2 = acc | (((b & 0x7f) as u64) << (shift as u32));
                if b & 0x80 == 0 {
                    Some((acc2, q))
                } else {
                    varint64_from(d, q, shift + 7, acc2)
                }
            },
        }
    }
}

pub open spec fn spec_varint64(d: Seq<u8>, p: int) -> Option<(u64, int)> {
    varint64_from(d, p, 0, 0)
}

/// Zig-zag decoding: even codes are the non-negative values, odd codes the
/// negative ones (0, -1, 1, -2, ...).
pub open spec fn zigzag32(v: u32) -> i64 {
    if v % 2 == 0 {
        (v / 2) as i64
    } else {
        (-(v / 2) - 1) as i64
    }
}

pub open spec fn zigzag64(v: u64) -> i64 {
    if v % 2 == 0 {
        (v / 2) as i64
    } else {
        (-(v / 2) - 1) as i64
    }
}

/// An element count.
pub open spec fn spec_count(d: Seq<u8>, p: int) -> Option<(nat, int)> {
    match spec_varint32(d, p) {
        Some((v, q)) => Some((v as nat, q)),
        None => None,
    }
}

pub open spec fn spec_take(d: Seq<u8>, p: int, n: nat) -> Option<(Seq<u8>, int)> {
    if 0 <= p && p + n <= d.len() {
        Some((d.subrange(p, p + n), p + n))
    } else {
        None
    }
}

/// A count followed by that many raw bytes.
pub open spec fn counted_bytes(d: Seq<u8>, p: int) -> Option<(Seq<u8>, int)> {
    match spec_count(d, p) {
        Some((n, q)) => spec_take(d, q, n),
        None => None,
    }
}

/// `String::from_utf8_lossy` as a function of the bytes alone.
pub uninterp spec fn lossy_utf8(bytes: Seq<u8>) -> Seq<char>;

/// Calls `String::from_utf8_lossy`. Valid UTF-8 decodes to its characters;
/// what replaces invalid sequences (U+FFFD) is named, not restated.
#[verifier::external_body]
fn utf8_lossy_string(bytes: &[u8]) -> (s: String)
    ensures
        s@ == lossy_utf8(bytes@),
        valid_utf8(bytes@) ==> s@ == decode_utf8(bytes@),
{
    String::from_utf8_lossy(bytes).into_owned()
}

/// The text of a string's bytes: valid UTF-8 decodes to its characters;
/// other bytes read as `String::from_utf8_lossy` reads them.
pub open spec fn text_of_bytes(b: Seq<u8>) -> Seq<char> {
    if valid_utf8(b) {
        decode_utf8(b)
    } else {
        lossy_utf8(b)
    }
}

pub open spec fn f32_value(bits: u32) -> SValue {
    if (bits >> 23u32) & 0xff == 0xff {
        SValue::Null
    } else {
        SValue::Float32(bits)
    }
}

pub open spec fn f64_value(bits: u64) -> SValue {
    if (bits >> 52u64) & 0x7ff == 0x7ff {
        SValue::Null
    } else {
        SValue::Float64(bits)
    }
}

/// A custom-type payload: counted raw bytes tagged with the custom code.
pub open spec fn custom_payload(d: Seq<u8>, p: int, code: u8) -> Option<(SValue, int)> {
    match counted_bytes(d, p) {
        Some((b, q)) => Some((SValue::Custom(code, b), q)),
        None => None,
    }
}

/// Key and value type codes of a dictionary header.  A nested dictionary
/// value type (20) is followed by its own header, which is skipped; an
/// array value type (0x40) is followed by further array markers ending in
/// one element type, all skipped, and the values then carry their own type
/// codes (value type 0).
pub open spec fn dict_type(d: Seq<u8>, p: int) -> Option<((u8, u8), int)>
    decreases d.len() - p,
{
    match spec_u8(d, p) {
        None => None,
        Some((kt, q)) => match spec_u8(d, q) {
            None => None,
            Some((vt, r)) => if vt == 20 {
                match dict_type(d, r) {
                    None => None,
                    Some((_, s)) => Some(((kt, 20u8), s)),
                }
            } else if vt == 0x40 {
                match skip_array_types(d, r) {
                    None => None,
                    Some(s) => Some(((kt, 0u8), s)),
                }
            } else {
                Some(((kt, vt), r))
            },
        },
    }
}

pub open spec fn skip_array_types(d: Seq<u8>, p: int) -> Option<int>
    decreases d.len() - p,
{
    match spec_u8(d, p) {
        None => None,
        Some((b, q)) => if b == 0x40 {
            skip_array_types(d, q)
        } else {
            Some(q)
        },
    }
}

/// `None` for type code 0 (each element carries its own code), else the code.
pub open spec fn type_opt(t: u8) -> Option<u8> {
    if t == 0 {
        None
    } else {
        Some(t)
    }
}

/// How the elements of an array are encoded.
#[derive(Clone, Copy)]
pub enum ElemKind {
    /// Each element carries its own type code.
    Any,
    /// Every element has the given type code, not repeated on the wire.
    Typed(u8),
    /// Every element is a dictionary body with the given key/value types.
    DictBody(u8, u8),
    /// Every element is a custom payload with the given custom code.
    CustomBody(u8),
}

/// `p < q <= d.len()`: a reader advanced and stayed inside the input.
pub open spec fn advanced(d: Seq<u8>, p: int, q: int) -> bool {
    p < q && q <= d.len()
}

/// Values that need no nested value decoding.
pub open spec fn scalar(d: Seq<u8>, p: int, t: u8) -> Option<(SValue, int)> {
    if 0x80 <= t && t <= 228 {
        custom_payload(d, p, (t - 0x80) as u8)
    } else if t == 0 || t == 8 {
        Some((SValue::Null, p))
    } else if t == 2 {
        match spec_u8(d, p) {
            Some((b, q)) => Some((SValue::Bool(b != 0), q)),
            None => None,
        }
    } else if t == 3 || t == 11 || t == 15 {
        match spec_u8(d, p) {
            Some((b, q)) => Some((SValue::Int(b as i64), q)),
            None => None,
        }
    } else if t == 12 || t == 16 {
        match spec_u8(d, p) {
            Some((b, q)) => Some((SValue::Int((-b) as i64), q)),
            None => None,
        }
    } else if t == 4 {
        match spec_i16_le(d, p) {
            Some((v, q)) => Some((SValue::Int(v as i64), q)),
            None => None,
        }
    } else if t == 13 || t == 17 {
        match spec_u16_le(d, p) {
            Some((v, q)) => Some((SValue::Int(v as i64), q)),
            None => None,
        }
    } else if t == 14 || t == 18 {
        match spec_u16_le(d, p) {
            Some((v, q)) => Some((SValue::Int((-v) as i64), q)),
            None => None,
        }
    } else if t == 5 {
        match spec_u32_le(d, p) {
            Some((b, q)) => Some((f32_value(b), q)),
            None => None,
        }
    } else if t == 6 {
        match spec_u64_le(d, p) {
            Some((b, q)) => Some((f64_value(b), q)),
            None => None,
        }
    } else if t == 7 {
        match counted_bytes(d, p) {
            Some((b, q)) => Some((SValue::Str(text_of_bytes(b)), q)),
            None => None,
        }
    } else if t == 9 {
        match spec_varint32(d, p) {
            Some((v, q)) => Some((SValue::Int(zigzag32(v)), q)),
            None => None,
        }
    } else if t == 10 {
        match spec_varint64(d, p) {
            Some((v, q)) => Some((SValue::Int(zigzag64(v)), q)),
            None => None,
        }
    } else if t == 19 {
        match spec_u8(d, p) {
            Some((code, q)) => custom_payload(d, q, code),
            None => None,
        }
    } else if t == 27 {
        Some((SValue::Bool(false), p))
    } else if t == 28 {
        Some((SValue::Bool(true), p))
    } else if t == 29 || t == 30 || t == 31 || t == 34 {
        Some((SValue::Int(0), p))
    } else if t == 32 || t == 33 {
        Some((SValue::Float64(0), p))
    } else if t == 66 {
        match spec_count(d, p) {
            Some((n, q)) => {
                let nb = n / 8 + if n % 8 == 0 {
                    0nat
                } else {
                    1nat
                };
                if q + nb <= d.len() {
                    Some(
                        (
                            SValue::Array(
                                Seq::new(
                                    n,
                                    |i: int| SValue::Bool(d[q + i / 8] & (1u8 << ((i % 8) as u8)) != 0),
                                ),
                            ),
                            q + nb,
                        ),
                    )
                } else {
                    None
                }
            },
            None => None,
        }
    } else if t == 67 {
        match counted_bytes(d, p) {
            Some((b, q)) => Some((SValue::Str(hex_lower(b)), q)),
            None => None,
        }
    } else {
        None
    }
}

/// Type codes whose values contain further encoded values.
pub open spec fn is_container_type(t: u8) -> bool {
    t == 20 || t == 21 || t == 23 || t == 0x40 || t == 24 || t == 25 || t == 26 || t == 68 || t
        == 69 || t == 70 || t == 71 || t == 73 || t == 74 || t == 83 || t == 84 || t == 85
}

/// Element type of a typed array code.
pub open spec fn typed_array_elem(t: u8) -> ElemKind {
    if t == 68 {
        ElemKind::Typed(4)
    } else if t == 69 {
        ElemKind::Typed(5)
    } else if t == 70 {
        ElemKind::Typed(6)
    } else if t == 71 {
        ElemKind::Typed(7)
    } else if t == 73 {
        ElemKind::Typed(9)
    } else if t == 74 {
        ElemKind::Typed(10)
    } else if t == 85 {
        ElemKind::Typed(21)
    } else {
        ElemKind::Any
    }
}

/// A value of type `tc`, or of the type whose code comes first when `tc`
/// is `None`.
pub open spec fn deser(d: Seq<u8>, p: int, tc: Option<u8>) -> Option<(SValue, int)>
    decreases d.len() - p, (if tc is None {
        3int
    } else {
        2int
    }),
{
    match tc {
        None => match spec_u8(d, p) {
            None => None,
            Some((t, q)) => deser(d, q, Some(t)),
        },
        Some(t) => if is_container_type(t) {
            if 0 <= p <= d.len() {
                container(d, p, t)
            } else {
                None
            }
        } else {
            scalar(d, p, t)
        },
    }
}

/// Values of the container type codes.
pub open spec fn container(d: Seq<u8>, p: int, t: u8) -> Option<(SValue, int)>
    decreases d.len() - p, 1int,
{
    if t == 20 {
        match dict_type(d, p) {
            None => None,
            Some(((kt, vt), q)) => if advanced(d, p, q) {
                dict_body(d, q, kt, vt)
            } else {
                None
            },
        }
    } else if t == 21 {
        dict_body(d, p, 0, 0)
    } else if t == 24 || t == 26 {
        op_request(d, p)
    } else if t == 25 {
        op_response(d, p)
    } else if t == 83 {
        custom_array(d, p)
    } else if t == 84 {
        match dict_type(d, p) {
            None => None,
            Some(((kt, vt), q)) => if advanced(d, p, q) {
                array_of(d, q, ElemKind::DictBody(kt, vt))
            } else {
                None
            },
        }
    } else {
        array_of(d, p, typed_array_elem(t))
    }
}

/// An operation request or event body: a code byte, then a parameter
/// table; the value takes up the rest of the input.
pub open spec fn op_request(d: Seq<u8>, p: int) -> Option<(SValue, int)>
    decreases d.len() - p, 0int,
{
    match spec_u8(d, p) {
        None => None,
        Some((code, q)) => match param_table(d, q) {
            None => None,
            Some((params, _)) => Some(
                (SValue::Array(seq![SValue::Int(code as i64), SValue::Table(params)]), d.len() as int),
            ),
        },
    }
}

/// An operation response: a code byte, a 16-bit return code, an optional
/// typed debug message (kept when it is a string), then a parameter table;
/// the value takes up the rest of the input.
pub open spec fn op_response(d: Seq<u8>, p: int) -> Option<(SValue, int)>
    decreases d.len() - p, 0int,
{
    match spec_u8(d, p) {
        None => None,
        Some((code, q1)) => match spec_i16_le(d, q1) {
            None => None,
            Some((rc, q2)) => {
                let msg_end: Option<(Seq<char>, int)> = if q2 < d.len() {
                    match deser(d, q2 + 1, Some(d[q2])) {
                        None => None,
                        Some((msg, q3)) => if q2 + 1 <= q3 && q3 <= d.len() {
                            Some(
                                (
                                    match msg {
                                        SValue::Str(s) => s,
                                        _ => Seq::empty(),
                                    },
                                    q3,
                                ),
                            )
                        } else {
                            None
                        },
                    }
                } else {
                    Some((Seq::empty(), q2))
                };
                match msg_end {
                    None => None,
                    Some((msg, q3)) => match param_table(d, q3) {
                        None => None,
                        Some((params, _)) => Some(
                            (
                                SValue::Array(
                                    seq![
                                        SValue::Int(code as i64),
                                        SValue::Int(rc as i64),
                                        SValue::Str(msg),
                                        SValue::Table(params),
                                    ],
                                ),
                                d.len() as int,
                            ),
                        ),
                    },
                }
            },
        },
    }
}

/// A custom-type array: a count, one custom code, then that many payloads.
pub open spec fn custom_array(d: Seq<u8>, p: int) -> Option<(SValue, int)>
    decreases d.len() - p, 0int,
{
    match spec_count(d, p) {
        None => None,
        Some((n, q)) => match spec_u8(d, q) {
            None => None,
            Some((code, r)) => if advanced(d, p, r) {
                match elems(d, r, n, ElemKind::CustomBody(code)) {
                    None => None,
                    Some((vs, s)) => Some((SValue::Array(vs), s)),
                }
            } else {
                None
            },
        },
    }
}

/// A counted array of elements encoded as `kind` says.
pub open spec fn array_of(d: Seq<u8>, p: int, kind: ElemKind) -> Option<(SValue, int)>
    decreases d.len() - p, 0int,
{
    match spec_count(d, p) {
        None => None,
        Some((n, q)) => if advanced(d, p, q) {
            match elems(d, q, n, kind) {
                None => None,
                Some((vs, r)) => Some((SValue::Array(vs), r)),
            }
        } else {
            None
        },
    }
}

/// A counted sequence of key/value pairs; pairs whose key is null are
/// dropped.
pub open spec fn dict_body(d: Seq<u8>, p: int, kt: u8, vt: u8) -> Option<(SValue, int)>
    decreases d.len() - p, 0int,
{
    match spec_count(d, p) {
        None => None,
        Some((n, q)) => if advanced(d, p, q) {
            match pairs(d, q, n, kt, vt) {
                None => None,
                Some((ps, r)) => Some((SValue::Dict(ps), r)),
            }
        } else {
            None
        },
    }
}

/// One array element of the given kind.
pub open spec fn elem_at(d: Seq<u8>, p: int, kind: ElemKind) -> Option<(SValue, int)>
    decreases d.len() - p, 4int,
{
    if 0 <= p <= d.len() {
        match kind {
            ElemKind::Any => deser(d, p, None),
            ElemKind::Typed(t) => deser(d, p, Some(t)),
            ElemKind::DictBody(kt, vt) => dict_body(d, p, kt, vt),
            ElemKind::CustomBody(code) => custom_payload(d, p, code),
        }
    } else {
        None
    }
}

/// `n` consecutive elements of the given kind.
pub open spec fn elems(d: Seq<u8>, p: int, n: nat, kind: ElemKind) -> Option<(Seq<SValue>, int)>
    decreases d.len() - p, 4 + n,
{
    if n == 0 {
        Some((Seq::empty(), p))
    } else if !(0 <= p <= d.len()) {
        None
    } else {
        match elem_at(d, p, kind) {
            None => None,
            Some((v, q)) => if p <= q && q <= d.len() {
                match elems(d, q, (n - 1) as nat, kind) {
                    None => None,
                    Some((rest, r)) => Some((seq![v] + rest, r)),
                }
            } else {
                None
            },
        }
    }
}

/// `n` consecutive key/value pairs; null keys drop their pair.
pub open spec fn pairs(d: Seq<u8>, p: int, n: nat, kt: u8, vt: u8) -> Option<
    (Seq<(SValue, SValue)>, int),
>
    decreases d.len() - p, 4 + n,
{
    if n == 0 {
        Some((Seq::empty(), p))
    } else if !(0 <= p <= d.len()) {
        None
    } else {
        match deser(d, p, type_opt(kt)) {
            None => None,
            Some((k, q)) => if p <= q && q <= d.len() {
                match deser(d, q, type_opt(vt)) {
                    None => None,
                    Some((v, r)) => if q <= r && r <= d.len() {
                        match pairs(d, r, (n - 1) as nat, kt, vt) {
                            None => None,
                            Some((rest, s)) => Some(
                                (
                                    if k is Null {
                                        rest
                                    } else {
                                        seq![(k, v)] + rest
                                    },
                                    s,
                                ),
                            ),
                        }
                    } else {
                        None
                    },
                }
            } else {
                None
            },
        }
    }
}

/// A parameter table: a one-byte entry count, then per entry a key byte, a
/// type byte and a value of that type.
pub open spec fn param_table(d: Seq<u8>, p: int) -> Option<(Seq<(u8, SValue)>, int)>
    decreases d.len() - p, 0int,
{
    match spec_u8(d, p) {
        None => None,
        Some((n, q)) => param_entries(d, q, n as nat),
    }
}

pub open spec fn param_entries(d: Seq<u8>, p: int, n: nat) -> Option<(Seq<(u8, SValue)>, int)>
    decreases d.len() - p, 0int,
{
    if n == 0 {
        Some((Seq::empty(), p))
    } else if !(0 <= p && p + 2 <= d.len()) {
        None
    } else {
        match deser(d, p + 2, Some(d[p + 1])) {
            None => None,
            Some((v, q)) => if p + 2 <= q && q <= d.len() {
                match param_entries(d, q, (n - 1) as nat) {
                    None => None,
                    Some((rest, r)) => Some((seq![(d[p], v)] + rest, r)),
                }
            } else {
                None
            },
        }
    }
}

// ---------------------------------------------------------------------------
// Executable readers
// ---------------------------------------------------------------------------

pub open spec fn at_pos<T>(r: Option<(T, usize)>) -> Option<(T, int)> {
    match r {
        Some((v, q)) => Some((v, q as int)),
        None => None,
    }
}

pub open spec fn val_at(r: Option<(Value, usize)>) -> Option<(SValue, int)> {
    match r {
        Some((v, q)) => Some((value_view(v), q as int)),
        None => None,
    }
}

/// A successful read ends at or after `p` and inside the input.
pub open spec fn ends_within<T>(r: Option<(T, usize)>, p: int, len: int) -> bool {
    r matches Some((_, q)) ==> p <= q && q <= len
}

/// Reads one byte.
pub fn read_u8(d: &[u8], p: usize) -> (r: Option<(u8, usize)>)
    ensures
        at_pos(r) == spec_u8(d@, p as int),
{
    if p < d.len() {
        Some((d[p], p + 1))
    } else {
        None
    }
}

fn read_u16_le(d: &[u8], p: usize) -> (r: Option<(u16, usize)>)
    ensures
        at_pos(r) == spec_u16_le(d@, p as int),
{
    if p <= d.len() && d.len() - p >= 2 {
        let v: u16 = d[p] as u16 + (d[p + 1] as u16) * 0x100;
        Some((v, p + 2))
    } else {
        None
    }
}

fn read_i16_le(d: &[u8], p: usize) -> (r: Option<(i16, usize)>)
    ensures
        at_pos(r) == spec_i16_le(d@, p as int),
{
    match read_u16_le(d, p) {
        Some((u, q)) => {
            let v: i16 = if u < 0x8000 {
                u as i16
            } else {
                (u as i32 - 0x10000) as i16
            };
            Some((v, q))
        },
        None => None,
    }
}

fn read_u32_le(d: &[u8], p: usize) -> (r: Option<(u32, usize)>)
    ensures
        at_pos(r) == spec_u32_le(d@, p as int),
{
    if p <= d.len() && d.len() - p >= 4 {
        let v: u32 = d[p] as u32 + (d[p + 1] as u32) * 0x100 + (d[p + 2] as u32) * 0x1_0000 + (d[p
            + 3] as u32) * 0x100_0000;
        Some((v, p + 4))
    } else {
        None
    }
}

fn read_u64_le(d: &[u8], p: usize) -> (r: Option<(u64, usize)>)
    ensures
        at_pos(r) == spec_u64_le(d@, p as int),
{
    if p <= d.len() && d.len() - p >= 8 {
        let v: u64 = d[p] as u64 + (d[p + 1] as u64) * 0x100 + (d[p + 2] as u64) * 0x1_0000 + (d[p
            + 3] as u64) * 0x100_0000 + (d[p + 4] as u64) * 0x1_0000_0000 + (d[p + 5] as u64)
            * 0x100_0000_0000 + (d[p + 6] as u64) * 0x1_0000_0000_0000 + (d[p + 7] as u64)
            * 0x100_0000_0000_0000;
        Some((v, p + 8))
    } else {
        None
    }
}

/// Reads a base-128 varint of at most 32 bits (low groups first).
pub fn read_varint32(d: &[u8], p: usize) -> (r: Option<(u32, usize)>)
    ensures
        at_pos(r) == spec_varint32(d@, p as int),
        r matches Some((_, q)) ==> p < q && q <= d@.len(),
{
    let mut value: u32 = 0;
    let mut shift: u32 = 0;
    let mut pos: usize = p;
    while shift < 35
        invariant
            shift % 7 == 0,
            shift <= 35,
            p <= pos,
            pos as int == p + shift / 7,
            pos <= p || pos <= d@.len(),
            varint32_from(d@, p as int, 0, 0) == varint32_from(d@, pos as int, shift as nat, value),
        decreases 35 - shift,
    {
        let current = match read_u8(d, pos) {
            None => return None,
            Some((b, q)) => {
                pos = q;
                b
            },
        };
        value = value | (((current & 0x7f) as u32) << shift);
        if current & 0x80 == 0 {
            return Some((value, pos));
        }
        shift += 7;
    }
    None
}

/// Reads a base-128 varint of at most 64 bits (low groups first).
pub fn read_varint64(d: &[u8], p: usize) -> (r: Option<(u64, usize)>)
    ensures
        at_pos(r) == spec_varint64(d@, p as int),
        r matches Some((_, q)) ==> p < q && q <= d@.len(),
{
    let mut value: u64 = 0;
    let mut shift: u32 = 0;
    let mut pos: usize = p;
    while shift < 70
        invariant
            shift % 7 == 0,
            shift <= 70,
            p <= pos,
            pos as int == p + shift / 7,
            pos <= p || pos <= d@.len(),
            varint64_from(d@, p as int, 0, 0) == varint64_from(d@, pos as int, shift as nat, value),
        decreases 70 - shift,
    {
        let current = match read_u8(d, pos) {
            None => return None,
            Some((b, q)) => {
                pos = q;
                b
            },
        };
        value = value | (((current & 0x7f) as u64) << shift);
        if current & 0x80 == 0 {
            return Some((value, pos));
        }
        shift += 7;
    }
    None
}

/// Zig-zag decoding of a 32-bit varint.
pub fn zigzag_i32(v: u32) -> (r: i64)
    ensures
        r == zigzag32(v),
{
    if v % 2 == 0 {
        (v / 2) as i64
    } else {
        -((v / 2) as i64) - 1
    }
}

/// Zig-zag decoding of a 64-bit varint.
pub fn zigzag_i64(v: u64) -> (r: i64)
    ensures
        r == zigzag64(v),
{
    if v % 2 == 0 {
        (v / 2) as i64
    } else {
        -((v / 2) as i64) - 1
    }
}

/// Reads an element count (a 32-bit varint).
pub fn read_count(d: &[u8], p: usize) -> (r: Option<(usize, usize)>)
    ensures
        match r {
            Some((n, q)) => spec_count(d@, p as int) == Some((n as nat, q as int)),
            None => spec_count(d@, p as int) is None,
        },
        r matches Some((_, q)) ==> p < q && q <= d@.len(),
{
    match read_varint32(d, p) {
        Some((v, q)) => Some((v as usize, q)),
        None => None,
    }
}

fn read_counted_bytes<'a>(d: &'a [u8], p: usize) -> (r: Option<(&'a [u8], usize)>)
    ensures
        match r {
            Some((b, q)) => counted_bytes(d@, p as int) == Some((b@, q as int)),
            None => counted_bytes(d@, p as int) is None,
        },
        r matches Some((_, q)) ==> p < q && q <= d@.len(),
{
    match read_count(d, p) {
        None => None,
        Some((n, q)) => {
            if n <= d.len() - q {
                Some((&d[q..q + n], q + n))
            } else {
                None
            }
        },
    }
}

fn read_custom_payload(d: &[u8], p: usize, code: u8) -> (r: Option<(Value, usize)>)
    ensures
        val_at(r) == custom_payload(d@, p as int, code),
        r matches Some((_, q)) ==> p < q && q <= d@.len(),
{
    match read_counted_bytes(d, p) {
        None => None,
        Some((b, q)) => {
            let mut v: Vec<u8> = Vec::new();
            let mut i: usize = 0;
            while i < b.len()
                invariant
                    i <= b@.len(),
                    v@ == b@.take(i as int),
                decreases b@.len() - i,
            {
                v.push(b[i]);
                i += 1;
                assert(v@ =~= b@.take(i as int));
            }
            assert(b@.take(b@.len() as int) =~= b@);
            Some((Value::Custom(code, v), q))
        },
    }
}

fn read_dict_type(d: &[u8], p: usize) -> (r: Option<((u8, u8), usize)>)
    ensures
        at_pos(r) == dict_type(d@, p as int),
        r matches Some((_, q)) ==> p < q && q <= d@.len(),
    decreases d@.len() - p,
{
    let (kt, q) = match read_u8(d, p) {
        None => return None,
        Some(x) => x,
    };
    let (vt, r) = match read_u8(d, q) {
        None => return None,
        Some(x) => x,
    };
    if vt == 20 {
        match read_dict_type(d, r) {
            None => None,
            Some((_, s)) => Some(((kt, 20u8), s)),
        }
    } else if vt == 0x40 {
        match skip_array_markers(d, r) {
            None => None,
            Some(s) => Some(((kt, 0u8), s)),
        }
    } else {
        Some(((kt, vt), r))
    }
}

fn skip_array_markers(d: &[u8], p: usize) -> (r: Option<usize>)
    ensures
        match r {
            Some(q) => skip_array_types(d@, p as int) == Some(q as int) && p < q <= d@.len(),
            None => skip_array_types(d@, p as int) is None,
        },
    decreases d@.len() - p,
{
    match read_u8(d, p) {
        None => None,
        Some((b, q)) => {
            if b == 0x40 {
                match skip_array_markers(d, q) {
                    None => None,
                    Some(s) => Some(s),
                }
            } else {
                Some(q)
            }
        },
    }
}

/// Values that need no nested value decoding.
fn read_scalar(d: &[u8], p: usize, t: u8) -> (r: Option<(Value, usize)>)
    requires
        !is_container_type(t),
    ensures
        val_at(r) == scalar(d@, p as int, t),
        ends_within(r, p as int, d@.len() as int) || p > d@.len(),
{
    if 0x80 <= t && t <= 228 {
        read_custom_payload(d, p, t - 0x80)
    } else if t == 0 || t == 8 {
        Some((Value::Null, p))
    } else if t == 2 {
        match read_u8(d, p) {
            Some((b, q)) => Some((Value::Bool(b != 0), q)),
            None => None,
        }
    } else if t == 3 || t == 11 || t == 15 {
        match read_u8(d, p) {
            Some((b, q)) => Some((Value::Int(b as i64), q)),
            None => None,
        }
    } else if t == 12 || t == 16 {
        match read_u8(d, p) {
            Some((b, q)) => Some((Value::Int(-(b as i64)), q)),
            None => None,
        }
    } else if t == 4 {
        match read_i16_le(d, p) {
            Some((v, q)) => Some((Value::Int(v as i64), q)),
            None => None,
        }
    } else if t == 13 || t == 17 {
        match read_u16_le(d, p) {
            Some((v, q)) => Some((Value::Int(v as i64), q)),
            None => None,
        }
    } else if t == 14 || t == 18 {
        match read_u16_le(d, p) {
            Some((v, q)) => Some((Value::Int(-(v as i64)), q)),
            None => None,
        }
    } else if t == 5 {
        match read_u32_le(d, p) {
            Some((b, q)) => {
                if (b >> 23u32) & 0xff == 0xff {
                    Some((Value::Null, q))
                } else {
                    Some((Value::Float32(b), q))
                }
            },
            None => None,
        }
    } else if t == 6 {
        match read_u64_le(d, p) {
            Some((b, q)) => {
                if (b >> 52u64) & 0x7ff == 0x7ff {
                    Some((Value::Null, q))
                } else {
                    Some((Value::Float64(b), q))
                }
            },
            None => None,
        }
    } else if t == 7 {
        match read_counted_bytes(d, p) {
            Some((b, q)) => Some((Value::Str(utf8_lossy_string(b)), q)),
            None => None,
        }
    } else if t == 9 {
        match read_varint32(d, p) {
            Some((v, q)) => Some((Value::Int(zigzag_i32(v)), q)),
            None => None,
        }
    } else if t == 10 {
        match read_varint64(d, p) {
            Some((v, q)) => Some((Value::Int(zigzag_i64(v)), q)),
            None => None,
        }
    } else if t == 19 {
        match read_u8(d, p) {
            Some((code, q)) => read_custom_payload(d, q, code),
            None => None,
        }
    } else if t == 27 {
        Some((Value::Bool(false), p))
    } else if t == 28 {
        Some((Value::Bool(true), p))
    } else if t == 29 || t == 30 || t == 31 || t == 34 {
        Some((Value::Int(0), p))
    } else if t == 32 || t == 33 {
        Some((Value::Float64(0), p))
    } else if t == 66 {
        read_bool_array(d, p)
    } else if t == 67 {
        match read_counted_bytes(d, p) {
            Some((b, q)) => Some((Value::Str(to_hex_lower(b)), q)),
            None => None,
        }
    } else {
        None
    }
}

/// Booleans packed eight to a byte, least significant bit first.
fn read_bool_array(d: &[u8], p: usize) -> (r: Option<(Value, usize)>)
    ensures
        val_at(r) == scalar(d@, p as int, 66),
        r matches Some((_, q)) ==> p < q && q <= d@.len(),
{
    let (n, q) = match read_count(d, p) {
        None => return None,
        Some(x) => x,
    };
    let nb: usize = n / 8 + if n % 8 == 0 {
        0
    } else {
        1
    };
    let dlen = d.len();
    if nb > dlen - q {
        return None;
    }
    let ghost spec_vals = Seq::new(
        n as nat,
        |i: int| SValue::Bool(d@[q + i / 8] & (1u8 << ((i % 8) as u8)) != 0),
    );
    let mut out: Vec<Value> = Vec::new();
    let mut i: usize = 0;
    while i < n
        invariant
            i <= n,
            dlen == d@.len(),
            q + nb <= d@.len(),
            nb == n / 8 + if n % 8 == 0 {
                0nat
            } else {
                1nat
            },
            spec_vals == Seq::new(
                n as nat,
                |i: int| SValue::Bool(d@[q + i / 8] & (1u8 << ((i % 8) as u8)) != 0),
            ),
            out@.len() == i,
            forall|k: int| 0 <= k < i ==> value_view(#[trigger] out@[k]) == spec_vals[k],
        decreases n - i,
    {
        assert(i / 8 < nb) by (nonlinear_arith)
            requires
                i < n,
                nb == n / 8 + if n % 8 == 0 {
                    0nat
                } else {
                    1nat
                },
        ;
        assert(q + i / 8 < d@.len());
        let byte = d[q + i / 8];
        let bit: u8 = (i % 8) as u8;
        out.push(Value::Bool(byte & (1u8 << bit) != 0));
        i += 1;
    }
    let ghost v = Value::Array(out);
    assert(value_view(Value::Array(out))->Array_0 =~= spec_vals);
    Some((Value::Array(out), q + nb))
}

/// A value of type `tc`, or of the type whose code comes first.
pub fn deserialize(d: &[u8], p: usize, tc: Option<u8>) -> (r: Option<(Value, usize)>)
    requires
        p <= d@.len(),
    ensures
        val_at(r) == deser(d@, p as int, tc),
        ends_within(r, p as int, d@.len() as int),
    decreases d@.len() - p, (if tc is None {
        3int
    } else {
        2int
    }),
{
    match tc {
        None => match read_u8(d, p) {
            None => None,
            Some((t, q)) => deserialize(d, q, Some(t)),
        },
        Some(t) => {
            if is_container(t) {
                read_container(d, p, t)
            } else {
                read_scalar(d, p, t)
            }
        },
    }
}

fn is_container(t: u8) -> (b: bool)
    ensures
        b == is_container_type(t),
{
    t == 20 || t == 21 || t == 23 || t == 0x40 || t == 24 || t == 25 || t == 26 || t == 68 || t
        == 69 || t == 70 || t == 71 || t == 73 || t == 74 || t == 83 || t == 84 || t == 85
}

fn typed_array_kind(t: u8) -> (k: ElemKind)
    ensures
        k == typed_array_elem(t),
{
    if t == 68 {
        ElemKind::Typed(4)
    } else if t == 69 {
        ElemKind::Typed(5)
    } else if t == 70 {
        ElemKind::Typed(6)
    } else if t == 71 {
        ElemKind::Typed(7)
    } else if t == 73 {
        ElemKind::Typed(9)
    } else if t == 74 {
        ElemKind::Typed(10)
    } else if t == 85 {
        ElemKind::Typed(21)
    } else {
        ElemKind::Any
    }
}

fn read_container(d: &[u8], p: usize, t: u8) -> (r: Option<(Value, usize)>)
    requires
        p <= d@.len(),
        is_container_type(t),
    ensures
        val_at(r) == container(d@, p as int, t),
        ends_within(r, p as int, d@.len() as int),
    decreases d@.len() - p, 1int,
{
    if t == 20 {
        match read_dict_type(d, p) {
            None => None,
            Some(((kt, vt), q)) => read_dict_body(d, q, kt, vt),
        }
    } else if t == 21 {
        read_dict_body(d, p, 0, 0)
    } else if t == 24 || t == 26 {
        read_operation_request(d, p)
    } else if t == 25 {
        read_operation_response(d, p)
    } else if t == 83 {
        read_custom_array(d, p)
    } else if t == 84 {
        match read_dict_type(d, p) {
            None => None,
            Some(((kt, vt), q)) => read_array(d, q, ElemKind::DictBody(kt, vt)),
        }
    } else {
        read_array(d, p, typed_array_kind(t))
    }
}

fn read_operation_request(d: &[u8], p: usize) -> (r: Option<(Value, usize)>)
    requires
        p <= d@.len(),
    ensures
        val_at(r) == op_request(d@, p as int),
        ends_within(r, p as int, d@.len() as int),
    decreases d@.len() - p, 0int,
{
    match read_u8(d, p) {
        None => None,
        Some((code, q)) => match read_param_table(d, q) {
            None => None,
            Some((params, _)) => {
                let mut items: Vec<Value> = Vec::new();
                items.push(Value::Int(code as i64));
                items.push(Value::Table(params));
                proof {
                    lemma_table_value_view(params);
                    assert(value_view(items@[0]) == SValue::Int(code as i64));
                    assert(value_view(Value::Array(items))->Array_0 =~= seq![
                        SValue::Int(code as i64),
                        value_view(items@[1]),
                    ]);
                }
                Some((Value::Array(items), d.len()))
            },
        },
    }
}

#[verifier::rlimit(30)]
fn read_operation_response(d: &[u8], p: usize) -> (r: Option<(Value, usize)>)
    requires
        p <= d@.len(),
    ensures
        val_at(r) == op_response(d@, p as int),
        ends_within(r, p as int, d@.len() as int),
    decreases d@.len() - p, 0int,
{
    let (code, q1) = match read_u8(d, p) {
        None => return None,
        Some(x) => x,
    };
    let (rc, q2) = match read_i16_le(d, q1) {
        None => return None,
        Some(x) => x,
    };
    let mut message = String::new();
    let mut pos = q2;
    if q2 < d.len() {
        let tc = d[q2];
        match deserialize(d, q2 + 1, Some(tc)) {
            None => return None,
            Some((v, q3)) => {
                match v {
                    Value::Str(s) => {
                        message = s;
                    },
                    _ => {},
                }
                pos = q3;
            },
        }
    }
    let ghost msg = message@;
    match read_param_table(d, pos) {
        None => None,
        Some((params, _)) => {
            let mut items: Vec<Value> = Vec::new();
            items.push(Value::Int(code as i64));
            items.push(Value::Int(rc as i64));
            items.push(Value::Str(message));
            items.push(Value::Table(params));
            proof {
                lemma_table_value_view(params);
                assert(value_view(items@[0]) == SValue::Int(code as i64));
                assert(value_view(items@[1]) == SValue::Int(rc as i64));
                assert(value_view(items@[2]) == SValue::Str(msg));
                assert(value_view(Value::Array(items))->Array_0 =~= seq![
                    SValue::Int(code as i64),
                    SValue::Int(rc as i64),
                    SValue::Str(msg),
                    value_view(items@[3]),
                ]);
            }
            Some((Value::Array(items), d.len()))
        },
    }
}

#[verifier::rlimit(40)]
fn read_custom_array(d: &[u8], p: usize) -> (r: Option<(Value, usize)>)
    requires
        p <= d@.len(),
    ensures
        val_at(r) == custom_array(d@, p as int),
        ends_within(r, p as int, d@.len() as int),
    decreases d@.len() - p, 0int,
{
    let (n, q) = match read_count(d, p) {
        None => return None,
        Some(x) => x,
    };
    let (code, r) = match read_u8(d, q) {
        None => return None,
        Some(x) => x,
    };
    let kind = ElemKind::CustomBody(code);
    let ghost total = elems(d@, r as int, n as nat, kind);
    assert(custom_array(d@, p as int) == match total {
        Some((vs, e)) => Some((SValue::Array(vs), e)),
        None => None,
    });
    let mut out: Vec<Value> = Vec::new();
    let ghost mut acc: Seq<SValue> = Seq::empty();
    let mut pos = r;
    let mut i: usize = 0;
    while i < n
        invariant
            custom_array(d@, p as int) == match total {
                Some((vs, e)) => Some((SValue::Array(vs), e)),
                None => None,
            },
            kind == ElemKind::CustomBody(code),
            p < r <= pos <= d@.len(),
            i <= n,
            out@.len() == acc.len(),
            forall|k: int| 0 <= k < acc.len() ==> value_view(#[trigger] out@[k]) == acc[k],
            total == prepend(acc, elems(d@, pos as int, (n - i) as nat, kind)),
        decreases n - i,
    {
        match read_elem(d, pos, kind) {
            None => {
                return None;
            },
            Some((v, next)) => {
                proof {
                    let rest = elems(d@, next as int, (n - i - 1) as nat, kind);
                    assert(prepend(acc, elems(d@, pos as int, (n - i) as nat, kind)) == prepend(
                        acc.push(value_view(v)),
                        rest,
                    )) by {
                        match rest {
                            Some((s, e)) => {
                                assert(acc + (seq![value_view(v)] + s) =~= acc.push(value_view(v))
                                    + s);
                            },
                            None => {},
                        }
                    }
                    acc = acc.push(value_view(v));
                }
                out.push(v);
                pos = next;
                i += 1;
            },
        }
    }
    assert(acc =~= acc + Seq::<SValue>::empty());
    assert(value_view(Value::Array(out))->Array_0 =~= acc);
    Some((Value::Array(out), pos))
}

/// `acc` followed by the elements of `r`, when `r` succeeded.
pub open spec fn prepend<A>(acc: Seq<A>, r: Option<(Seq<A>, int)>) -> Option<(Seq<A>, int)> {
    match r {
        Some((s, q)) => Some((acc + s, q)),
        None => None,
    }
}

fn read_elem(d: &[u8], p: usize, kind: ElemKind) -> (r: Option<(Value, usize)>)
    requires
        p <= d@.len(),
    ensures
        val_at(r) == elem_at(d@, p as int, kind),
        ends_within(r, p as int, d@.len() as int),
    decreases d@.len() - p, 4int,
{
    match kind {
        ElemKind::Any => deserialize(d, p, None),
        ElemKind::Typed(t) => deserialize(d, p, Some(t)),
        ElemKind::DictBody(kt, vt) => read_dict_body(d, p, kt, vt),
        ElemKind::CustomBody(code) => read_custom_payload(d, p, code),
    }
}

fn read_array(d: &[u8], p: usize, kind: ElemKind) -> (r: Option<(Value, usize)>)
    requires
        p <= d@.len(),
    ensures
        val_at(r) == array_of(d@, p as int, kind),
        ends_within(r, p as int, d@.len() as int),
    decreases d@.len() - p, 0int,
{
    let (n, q) = match read_count(d, p) {
        None => return None,
        Some(x) => x,
    };
    let ghost total = elems(d@, q as int, n as nat, kind);
    assert(array_of(d@, p as int, kind) == match total {
        Some((vs, e)) => Some((SValue::Array(vs), e)),
        None => None,
    });
    let mut out: Vec<Value> = Vec::new();
    let ghost mut acc: Seq<SValue> = Seq::empty();
    let mut pos = q;
    let mut i: usize = 0;
    while i < n
        invariant
            array_of(d@, p as int, kind) == match total {
                Some((vs, e)) => Some((SValue::Array(vs), e)),
                None => None,
            },
            p < q <= pos <= d@.len(),
            i <= n,
            out@.len() == acc.len(),
            forall|k: int| 0 <= k < acc.len() ==> value_view(#[trigger] out@[k]) == acc[k],
            total == prepend(acc, elems(d@, pos as int, (n - i) as nat, kind)),
        decreases n - i,
    {
        match read_elem(d, pos, kind) {
            None => {
                return None;
            },
            Some((v, next)) => {
                proof {
                    let rest = elems(d@, next as int, (n - i - 1) as nat, kind);
                    assert(prepend(acc, elems(d@, pos as int, (n - i) as nat, kind)) == prepend(
                        acc.push(value_view(v)),
                        rest,
                    )) by {
                        match rest {
                            Some((s, e)) => {
                                assert(acc + (seq![value_view(v)] + s) =~= acc.push(value_view(v))
                                    + s);
                            },
                            None => {},
                        }
                    }
                    acc = acc.push(value_view(v));
                }
                out.push(v);
                pos = next;
                i += 1;
            },
        }
    }
    assert(acc =~= acc + Seq::<SValue>::empty());
    assert(value_view(Value::Array(out))->Array_0 =~= acc);
    Some((Value::Array(out), pos))
}

fn read_dict_body(d: &[u8], p: usize, kt: u8, vt: u8) -> (r: Option<(Value, usize)>)
    requires
        p <= d@.len(),
    ensures
        val_at(r) == dict_body(d@, p as int, kt, vt),
        ends_within(r, p as int, d@.len() as int),
    decreases d@.len() - p, 0int,
{
    let (n, q) = match read_count(d, p) {
        None => return None,
        Some(x) => x,
    };
    let ghost total = pairs(d@, q as int, n as nat, kt, vt);
    let key_type = if kt == 0 {
        None
    } else {
        Some(kt)
    };
    let value_type = if vt == 0 {
        None
    } else {
        Some(vt)
    };
    assert(dict_body(d@, p as int, kt, vt) == match total {
        Some((ps, e)) => Some((SValue::Dict(ps), e)),
        None => None,
    });
    let mut out: Vec<(Value, Value)> = Vec::new();
    let ghost mut acc: Seq<(SValue, SValue)> = Seq::empty();
    let mut pos = q;
    let mut i: usize = 0;
    while i < n
        invariant
            dict_body(d@, p as int, kt, vt) == match total {
                Some((ps, e)) => Some((SValue::Dict(ps), e)),
                None => None,
            },
            p < q <= pos <= d@.len(),
            i <= n,
            key_type == type_opt(kt),
            value_type == type_opt(vt),
            out@.len() == acc.len(),
            forall|k: int|
                0 <= k < acc.len() ==> (value_view(#[trigger] out@[k].0), value_view(out@[k].1))
                    == acc[k],
            total == prepend(acc, pairs(d@, pos as int, (n - i) as nat, kt, vt)),
        decreases n - i,
    {
        let (key, after_key) = match deserialize(d, pos, key_type) {
            None => return None,
            Some(x) => x,
        };
        let (value, after_value) = match deserialize(d, after_key, value_type) {
            None => return None,
            Some(x) => x,
        };
        proof {
            let rest = pairs(d@, after_value as int, (n - i - 1) as nat, kt, vt);
            let kv = value_view(key);
            let vv = value_view(value);
            if kv is Null {
                assert(prepend(acc, pairs(d@, pos as int, (n - i) as nat, kt, vt)) == prepend(
                    acc,
                    rest,
                ));
            } else {
                assert(prepend(acc, pairs(d@, pos as int, (n - i) as nat, kt, vt)) == prepend(
                    acc.push((kv, vv)),
                    rest,
                )) by {
                    match rest {
                        Some((s, e)) => {
                            assert(acc + (seq![(kv, vv)] + s) =~= acc.push((kv, vv)) + s);
                        },
                        None => {},
                    }
                }
                acc = acc.push((kv, vv));
            }
        }
        match key {
            Value::Null => {},
            _ => {
                out.push((key, value));
            },
        }
        pos = after_value;
        i += 1;
    }
    assert(acc =~= acc + Seq::<(SValue, SValue)>::empty());
    assert(value_view(Value::Dict(out))->Dict_0 =~= acc);
    Some((Value::Dict(out), pos))
}

/// Reads a parameter table.
pub fn read_param_table(d: &[u8], p: usize) -> (r: Option<(Vec<(u8, Value)>, usize)>)
    requires
        p <= d@.len(),
    ensures
        match r {
            Some((t, q)) => param_table(d@, p as int) == Some((table_view(t@), q as int)),
            None => param_table(d@, p as int) is None,
        },
        r matches Some((_, q)) ==> p <= q && q <= d@.len(),
    decreases d@.len() - p, 0int,
{
    let (n, q) = match read_u8(d, p) {
        None => return None,
        Some(x) => x,
    };
    let ghost total = param_entries(d@, q as int, n as nat);
    assert(param_table(d@, p as int) == total);
    let mut out: Vec<(u8, Value)> = Vec::new();
    let ghost mut acc: Seq<(u8, SValue)> = Seq::empty();
    let mut pos = q;
    let mut i: u8 = 0;
    while i < n
        invariant
            param_table(d@, p as int) == total,
            p < q <= pos <= d@.len(),
            i <= n,
            table_view(out@) == acc,
            total == prepend(acc, param_entries(d@, pos as int, (n - i) as nat)),
        decreases n - i,
    {
        if pos > d.len() || d.len() - pos < 2 {
            return None;
        }
        let key = d[pos];
        let vt = d[pos + 1];
        let (value, next) = match deserialize(d, pos + 2, Some(vt)) {
            None => return None,
            Some(x) => x,
        };
        proof {
            let rest = param_entries(d@, next as int, (n - i - 1) as nat);
            let e = (key, value_view(value));
            assert(prepend(acc, param_entries(d@, pos as int, (n - i) as nat)) == prepend(
                acc.push(e),
                rest,
            )) by {
                match rest {
                    Some((s, x)) => {
                        assert(acc + (seq![e] + s) =~= acc.push(e) + s);
                    },
                    None => {},
                }
            }
            acc = acc.push(e);
        }
        out.push((key, value));
        assert(table_view(out@) =~= acc);
        pos = next;
        i += 1;
    }
    assert(acc =~= acc + Seq::<(u8, SValue)>::empty());
    Some((out, pos))
}

} // verus!
