use vstd::prelude::*;
use crate::domain::{
    AnyValue, EntryModel, EnvelopeModel, GetListResponseBody, GetOpenResponseBody, SmlListEntry,
    SmlMessageEnvelope, SmlMessages, ValueModel, entries_view, envelopes_view,
};
use crate::transport::{start_seq, end_prefix};

verus! {

/// The one error of the body parser: the bytes are no well-formed SML body.
#[derive(PartialEq, Eq, Debug, Clone, Copy)]
#[non_exhaustive]
pub enum ParseError {
    Unknown,
}

pub type ParseResult<T> = Result<T, ParseError>;

// ---------------------------------------------------------------------------
// Integer atoms
// ---------------------------------------------------------------------------

/// `256` raised to `w`.
pub open spec fn pow256(w: nat) -> nat
    decreases w,
{
    if w == 0 {
        1
    } else {
        256 * pow256((w - 1) as nat)
    }
}

/// The unsigned big-endian number written by the bytes `b`.
pub open spec fn be_nat(b: Seq<u8>) -> nat
    decreases b.len(),
{
    if b.len() == 0 {
        0
    } else {
        be_nat(b.drop_last()) * 256 + b.last() as nat
    }
}

/// The two's-complement reading of the `w`-byte unsigned number `x`.
pub open spec fn to_signed(x: nat, w: nat) -> int {
    if x >= pow256(w) / 2 {
        x - pow256(w)
    } else {
        x as int
    }
}

/// The tags of the unsigned integer atoms, by width in bytes.
pub open spec fn unsigned_tag(tag: u8, w: nat) -> bool {
    (tag == 0x62 && w == 1) || (tag == 0x63 && w == 2) || (tag == 0x65 && w == 4) || (tag == 0x69
        && w == 8)
}

/// The tags of the signed integer atoms, by width in bytes.
pub open spec fn signed_tag(tag: u8, w: nat) -> bool {
    (tag == 0x52 && w == 1) || (tag == 0x53 && w == 2) || (tag == 0x55 && w == 4) || (tag == 0x59
        && w == 8)
}

/// An unsigned integer atom with tag `tag` and `w` big-endian bytes at `p`:
/// its value and the position after it.
pub open spec fn uint_atom(s: Seq<u8>, p: int, tag: u8, w: nat) -> Option<(nat, int)> {
    if 0 <= p && p + 1 + w <= s.len() && s[p] == tag {
        Some((be_nat(s.subrange(p + 1, p + 1 + w)), p + 1 + w))
    } else {
        None
    }
}

/// A signed (two's-complement) integer atom with tag `tag` and `w` bytes at `p`.
pub open spec fn sint_atom(s: Seq<u8>, p: int, tag: u8, w: nat) -> Option<(int, int)> {
    match uint_atom(s, p, tag, w) {
        Some((x, q)) => Some((to_signed(x, w), q)),
        None => None,
    }
}

proof fn lemma_be_nat_bound(b: Seq<u8>)
    ensures
        be_nat(b) < pow256(b.len()),
    decreases b.len(),
{
    if b.len() > 0 {
        lemma_be_nat_bound(b.drop_last());
        let x = be_nat(b.drop_last());
        let y = b.last() as nat;
        let m = pow256(b.drop_last().len());
        assert(x * 256 + y < 256 * m) by (nonlinear_arith)
            requires
                x < m,
                y < 256,
        ;
    }
}

proof fn lemma_pow256_values()
    ensures
        pow256(1) == 0x100,
        pow256(2) == 0x1_0000,
        pow256(4) == 0x1_0000_0000,
        pow256(8) == 0x1_0000_0000_0000_0000,
{
    assert(pow256(0) == 1);
    assert(pow256(1) == 0x100);
    assert(pow256(2) == 0x1_0000);
    assert(pow256(3) == 0x100_0000);
    assert(pow256(4) == 0x1_0000_0000);
    assert(pow256(5) == 0x100_0000_0000);
    assert(pow256(6) == 0x1_0000_0000_0000);
    assert(pow256(7) == 0x100_0000_0000_0000);
    assert(pow256(8) == 0x1_0000_0000_0000_0000);
}

/// The `w` bytes at `p` as an unsigned big-endian number.
fn read_be(s: &[u8], p: usize, w: usize) -> (r: u64)
    requires
        p + w <= s@.len(),
        w <= 8,
    ensures
        r as nat == be_nat(s@.subrange(p as int, p + w)),
{
    let mut acc: u64 = 0;
    let mut i: usize = 0;
    let n = s.len();
    proof {
        assert(s@.subrange(p as int, p as int).len() == 0);
        assert(pow256(0) == 1);
    }
    while i < w
        invariant
            0 <= i <= w <= 8,
            p + w <= s@.len(),
            n == s@.len(),
            acc as nat == be_nat(s@.subrange(p as int, p + i)),
            (acc as nat) < pow256(i as nat),
        decreases w - i,
    {
        let b = s[p + i];
        proof {
            lemma_pow256_values();
            let m = pow256(i as nat);
            assert(m <= pow256(7)) by {
                if i < 7 {
                    lemma_pow256_monotone(i as nat, 7);
                }
            }
            assert(acc * 256 + b < 256 * m) by (nonlinear_arith)
                requires
                    acc < m,
                    b < 256,
            ;
            let t = s@.subrange(p as int, p + i + 1);
            assert(t.drop_last() =~= s@.subrange(p as int, p + i));
            assert(t.last() == b);
        }
        acc = acc * 256 + b as u64;
        i = i + 1;
    }
    acc
}

proof fn lemma_pow256_monotone(a: nat, b: nat)
    requires
        a <= b,
    ensures
        pow256(a) <= pow256(b),
    decreases b - a,
{
    if a < b {
        lemma_pow256_monotone(a, (b - 1) as nat);
        assert(pow256(b) == 256 * pow256((b - 1) as nat));
    }
}

/// Reads an unsigned integer atom with tag `tag` and width `w` at `p`.
fn parse_uint(s: &[u8], p: usize, tag: u8, w: usize) -> (r: Option<(u64, usize)>)
    requires
        unsigned_tag(tag, w as nat) || signed_tag(tag, w as nat),
    ensures
        match (r, uint_atom(s@, p as int, tag, w as nat)) {
            (None, None) => true,
            (Some((v, q)), Some((m, k))) => v as nat == m && q as int == k,
            _ => false,
        },
{
    if p < s.len() && w < s.len() - p && s[p] == tag {
        let v = read_be(s, p + 1, w);
        Some((v, p + 1 + w))
    } else {
        None
    }
}

/// Reads a signed integer atom with tag `tag` and width `w` at `p`.
fn parse_sint(s: &[u8], p: usize, tag: u8, w: usize) -> (r: Option<(i64, usize)>)
    requires
        signed_tag(tag, w as nat),
    ensures
        match (r, sint_atom(s@, p as int, tag, w as nat)) {
            (None, None) => true,
            (Some((v, q)), Some((m, k))) => v as int == m && q as int == k,
            _ => false,
        },
{
    match parse_uint(s, p, tag, w) {
        None => None,
        Some((x, q)) => {
            proof {
                lemma_pow256_values();
                lemma_be_nat_bound(s@.subrange(p + 1, p + 1 + w));
            }
            let v: i64 = if w == 8 {
                if x >= 0x8000_0000_0000_0000u64 {
                    ((x - 0x8000_0000_0000_0000u64) as i64) + i64::MIN
                } else {
                    x as i64
                }
            } else {
                let full: u64 = if w == 1 {
                    0x100
                } else if w == 2 {
                    0x1_0000
                } else {
                    0x1_0000_0000
                };
                if x >= full / 2 {
                    (x as i64) - (full as i64)
                } else {
                    x as i64
                }
            };
            Some((v, q))
        },
    }
}


// ---------------------------------------------------------------------------
// Grammar of a message body
// ---------------------------------------------------------------------------

/// The byte at `p` exists and is `b`.
pub open spec fn byte_is(s: Seq<u8>, p: int, b: u8) -> bool {
    0 <= p < s.len() && s[p] == b
}

/// The header of a string atom at `p`: the payload length and the number of
/// header bytes. A one-byte tag `T` in `01..=11` announces `T - 1` bytes (so
/// `01` is the empty, or null, string); a two-byte header `8X 0Y` announces
/// `0xXY` bytes, from 17 up to 48.
pub open spec fn string_header(s: Seq<u8>, p: int) -> Option<(int, int)> {
    if 0 <= p < s.len() && 0x01 <= s[p] <= 0x11 {
        Some((s[p] - 1, 1))
    } else if 0 <= p && p + 1 < s.len() && 0x81 <= s[p] <= 0x83 && s[p + 1] <= 0x0f && 17 <= (
    s[p] - 0x80) * 16 + s[p + 1] <= 48 {
        Some(((s[p] - 0x80) * 16 + s[p + 1], 2))
    } else {
        None
    }
}

/// A string atom at `p`: its payload and the position after it.
pub open spec fn string_atom(s: Seq<u8>, p: int) -> Option<(Seq<u8>, int)> {
    match string_header(s, p) {
        Some((len, h)) => if p + h + len <= s.len() {
            Some((s.subrange(p + h, p + h + len), p + h + len))
        } else {
            None
        },
        None => None,
    }
}

/// An optional unsigned 32-bit atom: the atom, or `01` for absent.
pub open spec fn opt_u32_atom(s: Seq<u8>, p: int) -> Option<(Option<u32>, int)> {
    match uint_atom(s, p, 0x65, 4) {
        Some((v, q)) => Some((Some(v as u32), q)),
        None => if byte_is(s, p, 0x01) {
            Some((None, p + 1))
        } else {
            None
        },
    }
}

/// An optional unsigned 8-bit atom: the atom, or `01` for absent.
pub open spec fn opt_u8_atom(s: Seq<u8>, p: int) -> Option<(Option<u8>, int)> {
    match uint_atom(s, p, 0x62, 1) {
        Some((v, q)) => Some((Some(v as u8), q)),
        None => if byte_is(s, p, 0x01) {
            Some((None, p + 1))
        } else {
            None
        },
    }
}

/// An optional signed 8-bit atom: the atom, or `01` for absent.
pub open spec fn opt_i8_atom(s: Seq<u8>, p: int) -> Option<(Option<i8>, int)> {
    match sint_atom(s, p, 0x52, 1) {
        Some((v, q)) => Some((Some(v as i8), q)),
        None => if byte_is(s, p, 0x01) {
            Some((None, p + 1))
        } else {
            None
        },
    }
}

/// A value atom: the first of string, unsigned 16, signed 16, signed 64,
/// signed 32 and unsigned 32 that parses at `p`.
pub open spec fn any_value_atom(s: Seq<u8>, p: int) -> Option<(ValueModel, int)> {
    match string_atom(s, p) {
        Some((b, q)) => Some((ValueModel::Bytes(b), q)),
        None => match uint_atom(s, p, 0x63, 2) {
            Some((v, q)) => Some((ValueModel::Unsigned(v as u64), q)),
            None => match sint_atom(s, p, 0x53, 2) {
                Some((v, q)) => Some((ValueModel::Signed(v as i64), q)),
                None => match sint_atom(s, p, 0x59, 8) {
                    Some((v, q)) => Some((ValueModel::Signed(v as i64), q)),
                    None => match sint_atom(s, p, 0x55, 4) {
                        Some((v, q)) => Some((ValueModel::Signed(v as i64), q)),
                        None => match uint_atom(s, p, 0x65, 4) {
                            Some((v, q)) => Some((ValueModel::Unsigned(v as u64), q)),
                            None => None,
                        },
                    },
                },
            },
        },
    }
}

/// A list entry: `77`, object name, status, value time, unit, scaler, value
/// and an absent value signature `01`.
pub open spec fn entry_atom(s: Seq<u8>, p: int) -> Option<(EntryModel, int)> {
    if !byte_is(s, p, 0x77) {
        None
    } else {
        match string_atom(s, p + 1) {
            None => None,
            Some((object_name, q1)) => match opt_u32_atom(s, q1) {
                None => None,
                Some((status, q2)) => match string_atom(s, q2) {
                    None => None,
                    Some((value_time, q3)) => match opt_u8_atom(s, q3) {
                        None => None,
                        Some((unit, q4)) => match opt_i8_atom(s, q4) {
                            None => None,
                            Some((scaler, q5)) => match any_value_atom(s, q5) {
                                None => None,
                                Some((value, q6)) => if byte_is(s, q6, 0x01) {
                                    Some(
                                        (
                                            EntryModel {
                                                object_name,
                                                status,
                                                value_time,
                                                unit,
                                                scaler,
                                                value,
                                            },
                                            q6 + 1,
                                        ),
                                    )
                                } else {
                                    None
                                },
                            },
                        },
                    },
                },
            },
        }
    }
}

/// Exactly `n` list entries, one after the other, from `p`.
pub open spec fn entries_atom(s: Seq<u8>, p: int, n: nat) -> Option<(Seq<EntryModel>, int)>
    decreases n,
{
    if n == 0 {
        Some((Seq::empty(), p))
    } else {
        match entry_atom(s, p) {
            None => None,
            Some((e, q)) => match entries_atom(s, q, (n - 1) as nat) {
                None => None,
                Some((es, r)) => Some((seq![e] + es, r)),
            },
        }
    }
}

/// A value list: tag `70 + N` with `N` in `1..=15`, then `N` entries.
pub open spec fn value_list_atom(s: Seq<u8>, p: int) -> Option<(Seq<EntryModel>, int)> {
    if 0 <= p < s.len() && 0x71 <= s[p] <= 0x7f {
        entries_atom(s, p + 1, (s[p] - 0x70) as nat)
    } else {
        None
    }
}

/// Payload of a `GetOpenResponse`.
pub open spec fn open_payload(s: Seq<u8>, p: int) -> Option<(EnvelopeModel, int)> {
    if byte_is(s, p, 0x76) && byte_is(s, p + 1, 0x01) && byte_is(s, p + 2, 0x01) {
        match string_atom(s, p + 3) {
            None => None,
            Some((req_file_id, q1)) => match string_atom(s, q1) {
                None => None,
                Some((server_id, q2)) => if byte_is(s, q2, 0x01) && byte_is(s, q2 + 1, 0x01) {
                    Some((EnvelopeModel::Open { server_id, req_file_id }, q2 + 2))
                } else {
                    None
                },
            },
        }
    } else {
        None
    }
}

/// Payload of a `GetCloseResponse`.
pub open spec fn close_payload(s: Seq<u8>, p: int) -> Option<(EnvelopeModel, int)> {
    if byte_is(s, p, 0x71) && byte_is(s, p + 1, 0x01) {
        Some((EnvelopeModel::Close, p + 2))
    } else {
        None
    }
}

/// The sub-structure before the value list of a `GetListResponse`:
/// `72 62 ?? 65 ?? ?? ?? ??`.
pub open spec fn list_prefix_ok(s: Seq<u8>, p: int) -> bool {
    byte_is(s, p, 0x72) && byte_is(s, p + 1, 0x62) && byte_is(s, p + 3, 0x65) && p + 8 <= s.len()
}

/// Payload of a `GetListResponse`; the gateway time at its end is one or no `01`.
pub open spec fn list_payload(s: Seq<u8>, p: int) -> Option<(EnvelopeModel, int)> {
    if byte_is(s, p, 0x77) && byte_is(s, p + 1, 0x01) {
        match string_atom(s, p + 2) {
            None => None,
            Some((server_id, q1)) => match string_atom(s, q1) {
                None => None,
                Some((list_name, q2)) => if list_prefix_ok(s, q2) {
                    match value_list_atom(s, q2 + 8) {
                        None => None,
                        Some((value_list, q3)) => if byte_is(s, q3, 0x01) {
                            let q4 = if byte_is(s, q3 + 1, 0x01) {
                                q3 + 2
                            } else {
                                q3 + 1
                            };
                            Some((EnvelopeModel::List { server_id, list_name, value_list }, q4))
                        } else {
                            None
                        },
                    }
                } else {
                    None
                },
            },
        }
    } else {
        None
    }
}

/// A message body: `72 63 SS 01`, then the payload of the kind `SS` selects.
pub open spec fn message_body(s: Seq<u8>, p: int) -> Option<(EnvelopeModel, int)> {
    if byte_is(s, p, 0x72) && byte_is(s, p + 1, 0x63) && p + 2 < s.len() && byte_is(
        s,
        p + 3,
        0x01,
    ) {
        if s[p + 2] == 0x01 {
            open_payload(s, p + 4)
        } else if s[p + 2] == 0x02 {
            close_payload(s, p + 4)
        } else if s[p + 2] == 0x07 {
            list_payload(s, p + 4)
        } else {
            None
        }
    } else {
        None
    }
}

/// A message envelope: `76`, a 4-byte transaction id `05 ?? ?? ?? ??`, group
/// number `62 ??`, abort flag `62 00`, body, CRC `63 ?? ??` and end `00`.
pub open spec fn envelope_atom(s: Seq<u8>, p: int) -> Option<(EnvelopeModel, int)> {
    if byte_is(s, p, 0x76) && byte_is(s, p + 1, 0x05) && byte_is(s, p + 6, 0x62) && p + 7 < s.len()
        && byte_is(s, p + 8, 0x62) && byte_is(s, p + 9, 0x00) {
        match message_body(s, p + 10) {
            None => None,
            Some((e, q)) => if byte_is(s, q, 0x63) && q + 2 < s.len() && byte_is(s, q + 3, 0x00) {
                Some((e, q + 4))
            } else {
                None
            },
        }
    } else {
        None
    }
}

/// As many envelopes as parse one after the other from `p`, and the position
/// where the first that does not parse would start.
pub open spec fn envelope_run(s: Seq<u8>, p: int) -> (Seq<EnvelopeModel>, int)
    decreases s.len() - p,
{
    match envelope_atom(s, p) {
        Some((e, q)) => if p < q <= s.len() {
            let (es, r) = envelope_run(s, q);
            (seq![e] + es, r)
        } else {
            (Seq::empty(), p)
        },
        None => (Seq::empty(), p),
    }
}

/// The messages of a body: envelopes that cover the bytes exactly.
pub open spec fn body_spec(s: Seq<u8>) -> Option<Seq<EnvelopeModel>> {
    let (es, q) = envelope_run(s, 0);
    if q == s.len() {
        Some(es)
    } else {
        None
    }
}

/// The messages of a whole telegram: the start sequence, a body, and the end
/// sequence with its three trailer bytes.
pub open spec fn message_spec(s: Seq<u8>) -> Option<Seq<EnvelopeModel>> {
    if s.len() >= 16 && s.take(8) == start_seq() && s.subrange(s.len() - 8, s.len() - 3)
        == end_prefix() {
        body_spec(s.subrange(8, s.len() - 8))
    } else {
        None
    }
}


// ---------------------------------------------------------------------------
// Executable parser
// ---------------------------------------------------------------------------

fn has_byte(s: &[u8], p: usize, b: u8) -> (r: bool)
    ensures
        r == byte_is(s@, p as int, b),
        s@.len() <= usize::MAX,
{
    p < s.len() && s[p] == b
}

/// Reads a string atom at `p`.
pub fn parse_string(s: &[u8], p: usize) -> (r: Option<(Vec<u8>, usize)>)
    ensures
        match (r, string_atom(s@, p as int)) {
            (None, None) => true,
            (Some((v, q)), Some((m, k))) => v@ == m && q as int == k,
            _ => false,
        },
{
    if p >= s.len() {
        return None;
    }
    let t = s[p];
    let len: usize;
    let h: usize;
    if 0x01 <= t && t <= 0x11 {
        len = (t - 1) as usize;
        h = 1;
    } else if 0x81 <= t && t <= 0x83 && p + 1 < s.len() && s[p + 1] <= 0x0f {
        let n = (t - 0x80) as usize * 16 + s[p + 1] as usize;
        if n < 17 || n > 48 {
            return None;
        }
        len = n;
        h = 2;
    } else {
        return None;
    }
    if len > s.len() - p - h {
        return None;
    }
    let v = crate::transport::copy_range(s, p + h, p + h + len);
    Some((v, p + h + len))
}

fn parse_opt_u32(s: &[u8], p: usize) -> (r: Option<(Option<u32>, usize)>)
    ensures
        match (r, opt_u32_atom(s@, p as int)) {
            (None, None) => true,
            (Some((v, q)), Some((m, k))) => v == m && q as int == k,
            _ => false,
        },
{
    match parse_uint(s, p, 0x65, 4) {
        Some((v, q)) => {
            proof {
                lemma_pow256_values();
                lemma_be_nat_bound(s@.subrange(p + 1, p + 5));
            }
            Some((Some(v as u32), q))
        },
        None => if has_byte(s, p, 0x01) {
            Some((None, p + 1))
        } else {
            None
        },
    }
}

fn parse_opt_u8(s: &[u8], p: usize) -> (r: Option<(Option<u8>, usize)>)
    ensures
        match (r, opt_u8_atom(s@, p as int)) {
            (None, None) => true,
            (Some((v, q)), Some((m, k))) => v == m && q as int == k,
            _ => false,
        },
{
    match parse_uint(s, p, 0x62, 1) {
        Some((v, q)) => {
            proof {
                lemma_pow256_values();
                lemma_be_nat_bound(s@.subrange(p + 1, p + 2));
            }
            Some((Some(v as u8), q))
        },
        None => if has_byte(s, p, 0x01) {
            Some((None, p + 1))
        } else {
            None
        },
    }
}

fn parse_opt_i8(s: &[u8], p: usize) -> (r: Option<(Option<i8>, usize)>)
    ensures
        match (r, opt_i8_atom(s@, p as int)) {
            (None, None) => true,
            (Some((v, q)), Some((m, k))) => v == m && q as int == k,
            _ => false,
        },
{
    match parse_sint(s, p, 0x52, 1) {
        Some((v, q)) => {
            proof {
                lemma_pow256_values();
                lemma_be_nat_bound(s@.subrange(p + 1, p + 2));
            }
            Some((Some(v as i8), q))
        },
        None => if has_byte(s, p, 0x01) {
            Some((None, p + 1))
        } else {
            None
        },
    }
}

/// Reads a value atom at `p`, trying string, unsigned 16, signed 16, signed
/// 64, signed 32 and unsigned 32 in this order.
pub fn parse_any_value(s: &[u8], p: usize) -> (r: Option<(AnyValue, usize)>)
    ensures
        match (r, any_value_atom(s@, p as int)) {
            (None, None) => true,
            (Some((v, q)), Some((m, k))) => v@ == m && q as int == k,
            _ => false,
        },
{
    proof {
        lemma_pow256_values();
    }
    if let Some((b, q)) = parse_string(s, p) {
        return Some((AnyValue::String(b), q));
    }
    if let Some((v, q)) = parse_uint(s, p, 0x63, 2) {
        proof {
            lemma_be_nat_bound(s@.subrange(p + 1, p + 3));
        }
        return Some((AnyValue::Unsigned(v), q));
    }
    if let Some((v, q)) = parse_sint(s, p, 0x53, 2) {
        return Some((AnyValue::Signed(v), q));
    }
    if let Some((v, q)) = parse_sint(s, p, 0x59, 8) {
        return Some((AnyValue::Signed(v), q));
    }
    if let Some((v, q)) = parse_sint(s, p, 0x55, 4) {
        return Some((AnyValue::Signed(v), q));
    }
    if let Some((v, q)) = parse_uint(s, p, 0x65, 4) {
        proof {
            lemma_be_nat_bound(s@.subrange(p + 1, p + 5));
        }
        return Some((AnyValue::Unsigned(v), q));
    }
    None
}

/// Reads one list entry at `p`.
pub fn parse_entry(s: &[u8], p: usize) -> (r: Option<(SmlListEntry, usize)>)
    ensures
        match (r, entry_atom(s@, p as int)) {
            (None, None) => true,
            (Some((v, q)), Some((m, k))) => v@ == m && q as int == k,
            _ => false,
        },
{
    if !has_byte(s, p, 0x77) {
        return None;
    }
    let (object_name, q1) = match parse_string(s, p + 1) {
        Some(x) => x,
        None => return None,
    };
    let (status, q2) = match parse_opt_u32(s, q1) {
        Some(x) => x,
        None => return None,
    };
    let (value_time, q3) = match parse_string(s, q2) {
        Some(x) => x,
        None => return None,
    };
    let (unit, q4) = match parse_opt_u8(s, q3) {
        Some(x) => x,
        None => return None,
    };
    let (scaler, q5) = match parse_opt_i8(s, q4) {
        Some(x) => x,
        None => return None,
    };
    let (value, q6) = match parse_any_value(s, q5) {
        Some(x) => x,
        None => return None,
    };
    if !has_byte(s, q6, 0x01) {
        return None;
    }
    Some((SmlListEntry { object_name, status, value_time, unit, scaler, value }, q6 + 1))
}

proof fn lemma_entries_push(v: Seq<SmlListEntry>, e: SmlListEntry)
    ensures
        entries_view(v.push(e)) == entries_view(v).push(e@),
{
    assert(entries_view(v.push(e)) =~= entries_view(v).push(e@));
}

/// Reads exactly `n` list entries from `p`.
fn parse_entries(s: &[u8], p: usize, n: usize) -> (r: Option<(Vec<SmlListEntry>, usize)>)
    ensures
        match (r, entries_atom(s@, p as int, n as nat)) {
            (None, None) => true,
            (Some((v, q)), Some((m, k))) => entries_view(v@) == m && q as int == k,
            _ => false,
        },
{
    let mut out: Vec<SmlListEntry> = Vec::new();
    let mut pos: usize = p;
    let mut i: usize = 0;
    proof {
        assert(entries_view(out@) =~= Seq::<EntryModel>::empty());
    }
    while i < n
        invariant
            0 <= i <= n,
            match entries_atom(s@, pos as int, (n - i) as nat) {
                None => entries_atom(s@, p as int, n as nat) is None,
                Some((es, k)) => entries_atom(s@, p as int, n as nat) == Some(
                    (entries_view(out@) + es, k),
                ),
            },
        decreases n - i,
    {
        let ghost rem = (n - i) as nat;
        match parse_entry(s, pos) {
            None => {
                return None;
            },
            Some((e, q)) => {
                proof {
                    lemma_entries_push(out@, e);
                    match entries_atom(s@, q as int, (rem - 1) as nat) {
                        None => {},
                        Some((es, k)) => {
                            assert(entries_view(out@) + (seq![e@] + es) =~= entries_view(
                                out@.push(e),
                            ) + es);
                        },
                    }
                }
                out.push(e);
                pos = q;
            },
        }
        i = i + 1;
    }
    proof {
        assert(entries_view(out@) + Seq::<EntryModel>::empty() =~= entries_view(out@));
    }
    Some((out, pos))
}

/// Reads a value list at `p`: its tag gives the number of entries.
fn parse_value_list(s: &[u8], p: usize) -> (r: Option<(Vec<SmlListEntry>, usize)>)
    ensures
        match (r, value_list_atom(s@, p as int)) {
            (None, None) => true,
            (Some((v, q)), Some((m, k))) => entries_view(v@) == m && q as int == k,
            _ => false,
        },
{
    if p < s.len() && 0x71 <= s[p] && s[p] <= 0x7f {
        parse_entries(s, p + 1, (s[p] - 0x70) as usize)
    } else {
        None
    }
}

fn parse_open_payload(s: &[u8], p: usize) -> (r: Option<(SmlMessageEnvelope, usize)>)
    ensures
        match (r, open_payload(s@, p as int)) {
            (None, None) => true,
            (Some((v, q)), Some((m, k))) => v@ == m && q as int == k,
            _ => false,
        },
{
    if !(has_byte(s, p, 0x76) && has_byte(s, p + 1, 0x01) && has_byte(s, p + 2, 0x01)) {
        return None;
    }
    let (req_file_id, q1) = match parse_string(s, p + 3) {
        Some(x) => x,
        None => return None,
    };
    let (server_id, q2) = match parse_string(s, q1) {
        Some(x) => x,
        None => return None,
    };
    if has_byte(s, q2, 0x01) && has_byte(s, q2 + 1, 0x01) {
        Some(
            (
                SmlMessageEnvelope::GetOpenResponse(GetOpenResponseBody { server_id, req_file_id }),
                q2 + 2,
            ),
        )
    } else {
        None
    }
}

fn parse_close_payload(s: &[u8], p: usize) -> (r: Option<(SmlMessageEnvelope, usize)>)
    ensures
        match (r, close_payload(s@, p as int)) {
            (None, None) => true,
            (Some((v, q)), Some((m, k))) => v@ == m && q as int == k,
            _ => false,
        },
{
    if has_byte(s, p, 0x71) && has_byte(s, p + 1, 0x01) {
        Some((SmlMessageEnvelope::GetCloseResponse, p + 2))
    } else {
        None
    }
}

fn parse_list_payload(s: &[u8], p: usize) -> (r: Option<(SmlMessageEnvelope, usize)>)
    ensures
        match (r, list_payload(s@, p as int)) {
            (None, None) => true,
            (Some((v, q)), Some((m, k))) => v@ == m && q as int == k,
            _ => false,
        },
{
    if !(has_byte(s, p, 0x77) && has_byte(s, p + 1, 0x01)) {
        return None;
    }
    let (server_id, q1) = match parse_string(s, p + 2) {
        Some(x) => x,
        None => return None,
    };
    let (list_name, q2) = match parse_string(s, q1) {
        Some(x) => x,
        None => return None,
    };
    if !(has_byte(s, q2, 0x72) && 8 <= s.len() - q2 && has_byte(s, q2 + 1, 0x62) && has_byte(
        s,
        q2 + 3,
        0x65,
    )) {
        return None;
    }
    let (value_list, q3) = match parse_value_list(s, q2 + 8) {
        Some(x) => x,
        None => return None,
    };
    if !has_byte(s, q3, 0x01) {
        return None;
    }
    let q4 = if has_byte(s, q3 + 1, 0x01) {
        q3 + 2
    } else {
        q3 + 1
    };
    Some(
        (
            SmlMessageEnvelope::GetListResponse(
                GetListResponseBody { server_id, list_name, value_list },
            ),
            q4,
        ),
    )
}

fn parse_message_body(s: &[u8], p: usize) -> (r: Option<(SmlMessageEnvelope, usize)>)
    ensures
        match (r, message_body(s@, p as int)) {
            (None, None) => true,
            (Some((v, q)), Some((m, k))) => v@ == m && q as int == k,
            _ => false,
        },
{
    if !(has_byte(s, p, 0x72) && has_byte(s, p + 1, 0x63) && 2 < s.len() - p && has_byte(
        s,
        p + 3,
        0x01,
    )) {
        return None;
    }
    let selector = s[p + 2];
    if selector == 0x01 {
        parse_open_payload(s, p + 4)
    } else if selector == 0x02 {
        parse_close_payload(s, p + 4)
    } else if selector == 0x07 {
        parse_list_payload(s, p + 4)
    } else {
        None
    }
}

/// Reads one message envelope at `p`.
pub fn parse_envelope(s: &[u8], p: usize) -> (r: Option<(SmlMessageEnvelope, usize)>)
    ensures
        match (r, envelope_atom(s@, p as int)) {
            (None, None) => true,
            (Some((v, q)), Some((m, k))) => v@ == m && q as int == k,
            _ => false,
        },
{
    if !(has_byte(s, p, 0x76) && 7 < s.len() - p && has_byte(s, p + 1, 0x05) && has_byte(
        s,
        p + 6,
        0x62,
    ) && has_byte(s, p + 8, 0x62) && has_byte(s, p + 9, 0x00)) {
        return None;
    }
    let (e, q) = match parse_message_body(s, p + 10) {
        Some(x) => x,
        None => return None,
    };
    if has_byte(s, q, 0x63) && q < s.len() && 2 < s.len() - q && has_byte(s, q + 3, 0x00) {
        Some((e, q + 4))
    } else {
        None
    }
}


proof fn lemma_envelopes_push(v: Seq<SmlMessageEnvelope>, e: SmlMessageEnvelope)
    ensures
        envelopes_view(v.push(e)) == envelopes_view(v).push(e@),
{
    assert(envelopes_view(v.push(e)) =~= envelopes_view(v).push(e@));
}

/// Parses the body of an SML message (omitting header and footer).
///
/// Succeeds exactly when the bytes are a sequence of message envelopes, and
/// then yields their messages in order; any other input is
/// `ParseError::Unknown`.
pub fn parse_body(input: &[u8]) -> (r: ParseResult<SmlMessages>)
    ensures
        match (r, body_spec(input@)) {
            (Ok(m), Some(es)) => m@ == es,
            (Err(e), None) => e == ParseError::Unknown,
            _ => false,
        },
{
    let mut out: Vec<SmlMessageEnvelope> = Vec::new();
    let mut p: usize = 0;
    proof {
        assert(envelopes_view(out@) =~= Seq::<EnvelopeModel>::empty());
        assert(envelope_run(input@, 0).0 =~= envelopes_view(out@) + envelope_run(input@, 0).0);
    }
    while p < input.len()
        invariant
            p <= input@.len(),
            envelope_run(input@, 0) == (
                envelopes_view(out@) + envelope_run(input@, p as int).0,
                envelope_run(input@, p as int).1,
            ),
        decreases input@.len() - p,
    {
        match parse_envelope(input, p) {
            None => {
                return Err(ParseError::Unknown);
            },
            Some((e, q)) => {
                if q <= p || q > input.len() {
                    return Err(ParseError::Unknown);
                }
                proof {
                    lemma_envelopes_push(out@, e);
                    let rest = envelope_run(input@, q as int);
                    assert(envelopes_view(out@) + (seq![e@] + rest.0) =~= envelopes_view(
                        out@.push(e),
                    ) + rest.0);
                }
                out.push(e);
                p = q;
            },
        }
    }
    proof {
        assert(envelope_run(input@, p as int) == (Seq::<EnvelopeModel>::empty(), p as int));
        assert(envelopes_view(out@) + Seq::<EnvelopeModel>::empty() =~= envelopes_view(out@));
    }
    Ok(SmlMessages { messages: out })
}

/// Parses a whole SML telegram: start sequence, body, end sequence with its
/// padding byte and CRC.
pub fn parse_message(input: &[u8]) -> (r: ParseResult<SmlMessages>)
    ensures
        match (r, message_spec(input@)) {
            (Ok(m), Some(es)) => m@ == es,
            (Err(e), None) => e == ParseError::Unknown,
            _ => false,
        },
{
    let n = input.len();
    if n < 16 {
        return Err(ParseError::Unknown);
    }
    let mut i: usize = 0;
    while i < 8
        invariant
            0 <= i <= 8,
            n == input@.len(),
            n >= 16,
            forall|j: int| 0 <= j < i ==> input@[j] == start_seq()[j],
        decreases 8 - i,
    {
        let expected: u8 = if i < 4 {
            0x1b
        } else {
            0x01
        };
        if input[i] != expected {
            proof {
                assert(input@.take(8)[i as int] != start_seq()[i as int]);
            }
            return Err(ParseError::Unknown);
        }
        i = i + 1;
    }
    let e = n - 8;
    if !(input[e] == 0x1b && input[e + 1] == 0x1b && input[e + 2] == 0x1b && input[e + 3] == 0x1b
        && input[e + 4] == 0x1a) {
        proof {
            let t = input@.subrange(e as int, e + 5);
            if t == end_prefix() {
                assert(t[0] == input@[e as int] && t[1] == input@[e + 1] && t[2] == input@[e + 2]
                    && t[3] == input@[e + 3] && t[4] == input@[e + 4]);
            }
        }
        return Err(ParseError::Unknown);
    }
    proof {
        assert(input@.take(8) =~= start_seq());
        assert(input@.subrange(e as int, e + 5) =~= end_prefix());
    }
    let body = crate::transport::copy_range(input, 8, e);
    parse_body(body.as_slice())
}


// ---------------------------------------------------------------------------
// Laws of the atoms
// ---------------------------------------------------------------------------

/// The `w` big-endian bytes of the number `v`.
pub open spec fn be_bytes(v: nat, w: nat) -> Seq<u8>
    decreases w,
{
    if w == 0 {
        Seq::empty()
    } else {
        be_bytes(v / 256, (w - 1) as nat).push((v % 256) as u8)
    }
}

/// The `w` bytes that encode `v` in two's complement.
pub open spec fn twos_bytes(v: int, w: nat) -> Seq<u8> {
    if v < 0 {
        be_bytes((v + pow256(w)) as nat, w)
    } else {
        be_bytes(v as nat, w)
    }
}

/// Reading back the big-endian bytes of a number that fits gives the number.
pub proof fn lemma_be_round_trip(v: nat, w: nat)
    requires
        v < pow256(w),
    ensures
        be_bytes(v, w).len() == w,
        be_nat(be_bytes(v, w)) == v,
    decreases w,
{
    if w > 0 {
        let m = pow256((w - 1) as nat);
        assert(v / 256 < m) by (nonlinear_arith)
            requires
                v < 256 * m,
        ;
        lemma_be_round_trip(v / 256, (w - 1) as nat);
        let b = be_bytes(v, w);
        assert(b.drop_last() =~= be_bytes(v / 256, (w - 1) as nat));
        assert((v / 256) * 256 + v % 256 == v) by (nonlinear_arith);
    }
}

proof fn lemma_atom_bytes(tag: u8, w: nat, v: nat, rest: Seq<u8>)
    requires
        v < pow256(w),
    ensures
        0 < pow256(w),
        (seq![tag] + be_bytes(v, w) + rest).len() >= 1 + w,
        (seq![tag] + be_bytes(v, w) + rest)[0] == tag,
        be_nat((seq![tag] + be_bytes(v, w) + rest).subrange(1, 1 + w as int)) == v,
{
    lemma_be_round_trip(v, w);
    let s = seq![tag] + be_bytes(v, w) + rest;
    assert(s.subrange(1, 1 + w as int) =~= be_bytes(v, w));
}

/// An unsigned integer atom written with its tag and big-endian bytes decodes
/// to the same number, whatever follows it.
pub proof fn lemma_unsigned_round_trip(tag: u8, w: nat, v: nat, rest: Seq<u8>)
    requires
        unsigned_tag(tag, w),
        v < pow256(w),
    ensures
        uint_atom(seq![tag] + be_bytes(v, w) + rest, 0, tag, w) == Some((v, 1 + w as int)),
{
    lemma_atom_bytes(tag, w, v, rest);
}

/// A signed integer atom written with its tag and two's-complement bytes
/// decodes to the same number, whatever follows it.
pub proof fn lemma_signed_round_trip(tag: u8, w: nat, v: int, rest: Seq<u8>)
    requires
        signed_tag(tag, w),
        -(pow256(w) / 2) <= v < pow256(w) / 2,
    ensures
        sint_atom(seq![tag] + twos_bytes(v, w) + rest, 0, tag, w) == Some((v, 1 + w as int)),
{
    lemma_pow256_values();
    let x: nat = if v < 0 {
        (v + pow256(w)) as nat
    } else {
        v as nat
    };
    lemma_atom_bytes(tag, w, x, rest);
}

/// In an optional slot, the null marker `01` reads as absent, and a full atom
/// as present with its value.
pub proof fn lemma_optional_atoms(s: Seq<u8>, p: int)
    ensures
        byte_is(s, p, 0x01) ==> opt_u32_atom(s, p) == Some((None::<u32>, p + 1))
            && opt_u8_atom(s, p) == Some((None::<u8>, p + 1)) && opt_i8_atom(s, p) == Some(
            (None::<i8>, p + 1),
        ),
        uint_atom(s, p, 0x65, 4) matches Some((v, q)) ==> opt_u32_atom(s, p) == Some(
            (Some(v as u32), q),
        ),
        uint_atom(s, p, 0x62, 1) matches Some((v, q)) ==> opt_u8_atom(s, p) == Some(
            (Some(v as u8), q),
        ),
        sint_atom(s, p, 0x52, 1) matches Some((v, q)) ==> opt_i8_atom(s, p) == Some(
            (Some(v as i8), q),
        ),
{
}

/// A value slot takes the first atom kind that parses, in the order string,
/// unsigned 16, signed 16, signed 64, signed 32, unsigned 32.
pub proof fn lemma_any_value_order(s: Seq<u8>, p: int)
    ensures
        string_atom(s, p) matches Some((b, q)) ==> any_value_atom(s, p) == Some(
            (ValueModel::Bytes(b), q),
        ),
        string_atom(s, p) is None ==> (uint_atom(s, p, 0x63, 2) matches Some((v, q))
            ==> any_value_atom(s, p) == Some((ValueModel::Unsigned(v as u64), q))),
        string_atom(s, p) is None && uint_atom(s, p, 0x63, 2) is None ==> (sint_atom(
            s,
            p,
            0x53,
            2,
        ) matches Some((v, q)) ==> any_value_atom(s, p) == Some(
            (ValueModel::Signed(v as i64), q),
        )),
        string_atom(s, p) is None && uint_atom(s, p, 0x63, 2) is None && sint_atom(s, p, 0x53, 2)
            is None ==> (sint_atom(s, p, 0x59, 8) matches Some((v, q)) ==> any_value_atom(s, p)
            == Some((ValueModel::Signed(v as i64), q))),
        string_atom(s, p) is None && uint_atom(s, p, 0x63, 2) is None && sint_atom(s, p, 0x53, 2)
            is None && sint_atom(s, p, 0x59, 8) is None ==> (sint_atom(s, p, 0x55, 4) matches Some(
            (v, q),
        ) ==> any_value_atom(s, p) == Some((ValueModel::Signed(v as i64), q))),
        string_atom(s, p) is None && uint_atom(s, p, 0x63, 2) is None && sint_atom(s, p, 0x53, 2)
            is None && sint_atom(s, p, 0x59, 8) is None && sint_atom(s, p, 0x55, 4) is None ==> (
        uint_atom(s, p, 0x65, 4) matches Some((v, q)) ==> any_value_atom(s, p) == Some(
            (ValueModel::Unsigned(v as u64), q),
        )),
{
}

} // verus!
