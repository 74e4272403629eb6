//! The reader of binary character maps.
//!
//! A binary map is one header byte, whose lowest bit is the writing mode,
//! and then records.  A record starts with a byte that holds its kind, a
//! flag and the size of its numbers, and a count of items.  The items of a
//! record are written as differences from the item before: a range starts
//! where the last one ended, a code follows the last code.

use crate::bytes::{be_value, lemma_be_value_bound, lemma_be_value_prepend, pow256};
use crate::cmap::{wrap32, CMap, CMapView};
use crate::hex::{add_hex, field, field_value, hex_to_int, hex_to_str, inc_hex};
use crate::stream::{
    lemma_number_end_bounds, number_at, raw_at, signed_at, string_at, string_from, wide_at,
    wide_signed_at, BinaryCMapStream, MAX_NUM_SIZE,
};
use vstd::prelude::*;

verus! {

/// The size of a two-byte source code, as the records count sizes: one less
/// than the number of bytes.
pub const UCS2_DATA_SIZE: usize = 1;

/// Why a binary character map is refused.
pub enum Fault {
    /// There is no header byte.
    NoHeader,
    /// The data end inside a record.
    Truncated,
    /// A record is of a kind that does not exist.
    UnknownKind,
}

/// What the reader says of a fault.
pub open spec fn fault_text(fault: Fault) -> Seq<char> {
    match fault {
        Fault::NoHeader => "unexpected EOF in bcmap header"@,
        Fault::Truncated => "unexpected EOF in bcmap"@,
        Fault::UnknownKind => "BinaryCMapReader.process - unknown type: 6"@,
    }
}

/// The low 32 bits of a number: the code that its last four bytes pack.
pub open spec fn low32(x: nat) -> u32 {
    (x % 0x1_0000_0000) as u32
}

/// The sum of two numbers of `size + 1` bytes, as far as it fits in them.
pub open spec fn plus(a: nat, b: nat, size: int) -> nat {
    (a + b) % pow256((size + 1) as nat)
}

/// The most significant byte of a number of `size + 1` bytes.
pub open spec fn leading_byte(x: nat, size: int) -> u32 {
    (x / pow256(size as nat)) as u32
}

/// How many items follow the first of a record of `count` items.  A record
/// always has a first item.
pub open spec fn following(count: u32) -> nat {
    if count > 0 {
        (count - 1) as nat
    } else {
        0
    }
}

/// The number that the `size + 1` raw bytes at `pos` spell, and where they
/// end.
pub open spec fn raw_value_at(data: Seq<u8>, pos: int, size: int) -> Option<(nat, int)> {
    match raw_at(data, pos, size) {
        Some((bytes, end)) => Some((be_value(bytes), end)),
        None => None,
    }
}

/// The first range of a record: its start in raw bytes, then its length.
/// Gives the start, the end and where the reading stops.
pub open spec fn first_range_at(data: Seq<u8>, pos: int, size: int) -> Option<(nat, nat, int)> {
    match raw_value_at(data, pos, size) {
        Some((start, p1)) => match wide_at(data, p1, size) {
            Some((len, p2)) => Some((start, plus(len, start, size), p2)),
            None => None,
        },
        None => None,
    }
}

/// The range that follows one that ended at `end`.  In a sequence it starts
/// right behind `end`; else the gap in between is read first.  Then comes its
/// length.
pub open spec fn next_range_at(data: Seq<u8>, pos: int, size: int, sequence: bool, end: nat)
    -> Option<(nat, nat, int)> {
    let after = plus(end, 1, size);
    if sequence {
        match wide_at(data, pos, size) {
            Some((len, p)) => Some((after, plus(len, after, size), p)),
            None => None,
        }
    } else {
        match wide_at(data, pos, size) {
            Some((gap, p1)) => {
                let start = plus(gap, after, size);
                match wide_at(data, p1, size) {
                    Some((len, p2)) => Some((start, plus(len, start, size), p2)),
                    None => None,
                }
            },
            None => None,
        }
    }
}

/// The source code that follows `code`.  In a sequence it is the next one;
/// else the gap in between is read.
pub open spec fn next_char_at(data: Seq<u8>, pos: int, size: int, sequence: bool, code: nat)
    -> Option<(nat, int)> {
    let after = plus(code, 1, size);
    if sequence {
        Some((after, pos))
    } else {
        match wide_at(data, pos, size) {
            Some((gap, p)) => Some((plus(gap, after, size), p)),
            None => None,
        }
    }
}

/// The map with the codes `start..=end` mapped to consecutive values, left
/// as it is where the span is too wide.
pub open spec fn with_cid_range(m: CMapView, start: nat, end: nat, code: u32) -> CMapView {
    match m.map_cid_range(low32(start), low32(end), code) {
        Some(mapped) => mapped,
        None => m,
    }
}

/// The map with the codes `start..=end` mapped to the destinations from
/// `dst` on, left as it is where the span is too wide.
pub open spec fn with_bf_range(m: CMapView, start: nat, end: nat, dst: Seq<u8>) -> CMapView {
    match m.map_bf_range(low32(start), low32(end), dst) {
        Some(mapped) => mapped,
        None => m,
    }
}

/// The `count` codespace ranges that follow one that ended at `end`.
pub open spec fn codespace_rest(
    data: Seq<u8>,
    pos: int,
    size: int,
    count: nat,
    end: nat,
    m: CMapView,
) -> Option<(CMapView, int)>
    decreases count,
{
    if count == 0 {
        Some((m, pos))
    } else {
        match next_range_at(data, pos, size, false, end) {
            Some((s, e, p)) => codespace_rest(
                data,
                p,
                size,
                (count - 1) as nat,
                e,
                m.add_codespace_range(size + 1, low32(s), low32(e)),
            ),
            None => None,
        }
    }
}

/// A record of codespace ranges for codes of `size + 1` bytes.
pub open spec fn codespace_record(data: Seq<u8>, pos: int, size: int, count: u32, m: CMapView)
    -> Option<(CMapView, int)> {
    match first_range_at(data, pos, size) {
        Some((s, e, p)) => codespace_rest(
            data,
            p,
            size,
            following(count),
            e,
            m.add_codespace_range(size + 1, low32(s), low32(e)),
        ),
        None => None,
    }
}

/// The `count` ranges of undefined codes that follow one that ended at
/// `end`.  They are read and dropped.
pub open spec fn notdef_rest(data: Seq<u8>, pos: int, size: int, count: nat, end: nat) -> Option<
    int,
>
    decreases count,
{
    if count == 0 {
        Some(pos)
    } else {
        match next_range_at(data, pos, size, false, end) {
            Some((s, e, p1)) => match number_at(data, p1) {
                Some((code, p2)) => notdef_rest(data, p2, size, (count - 1) as nat, e),
                None => None,
            },
            None => None,
        }
    }
}

/// A record of ranges of undefined codes.
pub open spec fn notdef_record(data: Seq<u8>, pos: int, size: int, count: u32) -> Option<int> {
    match first_range_at(data, pos, size) {
        Some((s, e, p1)) => match number_at(data, p1) {
            Some((code, p2)) => notdef_rest(data, p2, size, following(count), e),
            None => None,
        },
        None => None,
    }
}

/// The `count` single codes that follow `code`, which was mapped to
/// `value`.  Each is mapped to the value before it, plus one, plus a signed
/// difference.
pub open spec fn cid_char_rest(
    data: Seq<u8>,
    pos: int,
    size: int,
    sequence: bool,
    count: nat,
    code: nat,
    value: u32,
    m: CMapView,
) -> Option<(CMapView, int)>
    decreases count,
{
    if count == 0 {
        Some((m, pos))
    } else {
        match next_char_at(data, pos, size, sequence, code) {
            Some((c, p1)) => match signed_at(data, p1) {
                Some((delta, p2)) => {
                    let v = wrap32(value + delta + 1);
                    cid_char_rest(
                        data,
                        p2,
                        size,
                        sequence,
                        (count - 1) as nat,
                        c,
                        v,
                        m.map_one(low32(c), v),
                    )
                },
                None => None,
            },
            None => None,
        }
    }
}

/// A record of single codes mapped to character identifiers.
pub open spec fn cid_char_record(
    data: Seq<u8>,
    pos: int,
    size: int,
    sequence: bool,
    count: u32,
    m: CMapView,
) -> Option<(CMapView, int)> {
    match raw_value_at(data, pos, size) {
        Some((c, p1)) => match number_at(data, p1) {
            Some((v, p2)) => cid_char_rest(
                data,
                p2,
                size,
                sequence,
                following(count),
                c,
                v,
                m.map_one(low32(c), v),
            ),
            None => None,
        },
        None => None,
    }
}

/// The `count` ranges that follow one that ended at `end`, each mapped
/// to consecutive character identifiers from a value of its own.
pub open spec fn cid_range_rest(
    data: Seq<u8>,
    pos: int,
    size: int,
    sequence: bool,
    count: nat,
    end: nat,
    m: CMapView,
) -> Option<(CMapView, int)>
    decreases count,
{
    if count == 0 {
        Some((m, pos))
    } else {
        match next_range_at(data, pos, size, sequence, end) {
            Some((s, e, p1)) => match number_at(data, p1) {
                Some((v, p2)) => cid_range_rest(
                    data,
                    p2,
                    size,
                    sequence,
                    (count - 1) as nat,
                    e,
                    with_cid_range(m, s, e, v),
                ),
                None => None,
            },
            None => None,
        }
    }
}

/// A record of ranges mapped to character identifiers.
pub open spec fn cid_range_record(
    data: Seq<u8>,
    pos: int,
    size: int,
    sequence: bool,
    count: u32,
    m: CMapView,
) -> Option<(CMapView, int)> {
    match first_range_at(data, pos, size) {
        Some((s, e, p1)) => match number_at(data, p1) {
            Some((v, p2)) => cid_range_rest(
                data,
                p2,
                size,
                sequence,
                following(count),
                e,
                with_cid_range(m, s, e, v),
            ),
            None => None,
        },
        None => None,
    }
}

/// The `count` two-byte codes that follow `code`, whose destination was
/// `dst`.  The destination of each is the one before it, plus one, plus a
/// signed difference; the code is mapped to its leading byte.
pub open spec fn bf_char_rest(
    data: Seq<u8>,
    pos: int,
    size: int,
    sequence: bool,
    count: nat,
    code: nat,
    dst: nat,
    m: CMapView,
) -> Option<(CMapView, int)>
    decreases count,
{
    if count == 0 {
        Some((m, pos))
    } else {
        match next_char_at(data, pos, UCS2_DATA_SIZE as int, sequence, code) {
            Some((c, p1)) => match wide_signed_at(data, p1, size) {
                Some((delta, p2)) => {
                    let d = plus(plus(dst, 1, size), delta, size);
                    bf_char_rest(
                        data,
                        p2,
                        size,
                        sequence,
                        (count - 1) as nat,
                        c,
                        d,
                        m.map_one(low32(c), leading_byte(d, size)),
                    )
                },
                None => None,
            },
            None => None,
        }
    }
}

/// A record of two-byte codes with destinations of `size + 1` bytes.
pub open spec fn bf_char_record(
    data: Seq<u8>,
    pos: int,
    size: int,
    sequence: bool,
    count: u32,
    m: CMapView,
) -> Option<(CMapView, int)> {
    match raw_value_at(data, pos, UCS2_DATA_SIZE as int) {
        Some((c, p1)) => match raw_value_at(data, p1, size) {
            Some((d, p2)) => bf_char_rest(
                data,
                p2,
                size,
                sequence,
                following(count),
                c,
                d,
                m.map_one(low32(c), leading_byte(d, size)),
            ),
            None => None,
        },
        None => None,
    }
}

/// The `count` ranges of two-byte codes that follow one that ended at `end`,
/// each with a first destination of `size + 1` raw bytes.
pub open spec fn bf_range_rest(
    data: Seq<u8>,
    pos: int,
    size: int,
    sequence: bool,
    count: nat,
    end: nat,
    m: CMapView,
) -> Option<(CMapView, int)>
    decreases count,
{
    if count == 0 {
        Some((m, pos))
    } else {
        match next_range_at(data, pos, UCS2_DATA_SIZE as int, sequence, end) {
            Some((s, e, p1)) => match raw_at(data, p1, size) {
                Some((dst, p2)) => bf_range_rest(
                    data,
                    p2,
                    size,
                    sequence,
                    (count - 1) as nat,
                    e,
                    with_bf_range(m, s, e, dst),
                ),
                None => None,
            },
            None => None,
        }
    }
}

/// A record of ranges of two-byte codes with destinations of `size + 1`
/// bytes.
pub open spec fn bf_range_record(
    data: Seq<u8>,
    pos: int,
    size: int,
    sequence: bool,
    count: u32,
    m: CMapView,
) -> Option<(CMapView, int)> {
    match first_range_at(data, pos, UCS2_DATA_SIZE as int) {
        Some((s, e, p1)) => match raw_at(data, p1, size) {
            Some((dst, p2)) => bf_range_rest(
                data,
                p2,
                size,
                sequence,
                following(count),
                e,
                with_bf_range(m, s, e, dst),
            ),
            None => None,
        },
        None => None,
    }
}

/// The items of a record of the given kind: the map with them and where
/// they end.
#[verifier::opaque]
pub open spec fn record_at(
    kind: int,
    data: Seq<u8>,
    pos: int,
    size: int,
    sequence: bool,
    count: u32,
    m: CMapView,
) -> Result<(CMapView, int), Fault> {
    let items = if kind == 0 {
        codespace_record(data, pos, size, count, m)
    } else if kind == 1 {
        match notdef_record(data, pos, size, count) {
            Some(p) => Some((m, p)),
            None => None,
        }
    } else if kind == 2 {
        cid_char_record(data, pos, size, sequence, count, m)
    } else if kind == 3 {
        cid_range_record(data, pos, size, sequence, count, m)
    } else if kind == 4 {
        bf_char_record(data, pos, size, sequence, count, m)
    } else {
        bf_range_record(data, pos, size, sequence, count, m)
    };
    if kind < 0 || kind > 5 {
        Err(Fault::UnknownKind)
    } else {
        match items {
            Some(done) => Ok(done),
            None => Err(Fault::Truncated),
        }
    }
}

/// A range is read forwards.
pub proof fn lemma_range_advances(data: Seq<u8>, pos: int, size: int, sequence: bool, end: nat)
    requires
        0 <= size,
    ensures
        first_range_at(data, pos, size) matches Some((s, e, p)) ==> pos <= p <= data.len(),
        next_range_at(data, pos, size, sequence, end) matches Some((s, e, p)) ==> pos <= p <= data.len(),
        next_char_at(data, pos, size, sequence, end) matches Some((c, p)) ==> pos <= p && (pos
            <= data.len() ==> p <= data.len()),
{
    lemma_number_end_bounds(data, pos);
    if let Some((gap, p)) = wide_at(data, pos, size) {
        lemma_number_end_bounds(data, p);
    }
    lemma_number_end_bounds(data, pos + size + 1);
}

/// A string is read forwards.
pub proof fn lemma_string_items_advance(data: Seq<u8>, pos: int, count: nat, text: Seq<u8>)
    ensures
        string_from(data, pos, count, text) matches Some((t, p)) ==> pos <= p && (pos
            <= data.len() ==> p <= data.len()),
    decreases count,
{
    lemma_number_end_bounds(data, pos);
    if count > 0 {
        if let Some((n, end)) = number_at(data, pos) {
            lemma_string_items_advance(
                data,
                end,
                (count - 1) as nat,
                if n <= 0xff {
                    text.push(n as u8)
                } else {
                    text
                },
            );
        }
    }
}

/// A string with its count is read forwards, within the data.
pub proof fn lemma_string_advances(data: Seq<u8>, pos: int)
    ensures
        string_at(data, pos) matches Some((t, p)) ==> pos <= p <= data.len(),
{
    lemma_number_end_bounds(data, pos);
    if let Some((n, end)) = number_at(data, pos) {
        lemma_string_items_advance(data, end, n as nat, Seq::empty());
    }
}

/// Codespace ranges are read forwards.
pub proof fn lemma_codespace_advances(
    data: Seq<u8>,
    pos: int,
    size: int,
    count: nat,
    end: nat,
    m: CMapView,
)
    requires
        0 <= size,
    ensures
        codespace_rest(data, pos, size, count, end, m) matches Some((done, p)) ==> pos <= p && (
        pos <= data.len() ==> p <= data.len()),
    decreases count,
{
    lemma_range_advances(data, pos, size, false, end);
    if count > 0 {
        if let Some((s, e, p)) = next_range_at(data, pos, size, false, end) {
            lemma_codespace_advances(
                data,
                p,
                size,
                (count - 1) as nat,
                e,
                m.add_codespace_range(size + 1, low32(s), low32(e)),
            );
        }
    }
}

/// Undefined ranges are read forwards.
pub proof fn lemma_notdef_advances(data: Seq<u8>, pos: int, size: int, count: nat, end: nat)
    requires
        0 <= size,
    ensures
        notdef_rest(data, pos, size, count, end) matches Some(p) ==> pos <= p && (pos
            <= data.len() ==> p <= data.len()),
    decreases count,
{
    lemma_range_advances(data, pos, size, false, end);
    if count > 0 {
        if let Some((s, e, p1)) = next_range_at(data, pos, size, false, end) {
            lemma_number_end_bounds(data, p1);
            if let Some((code, p2)) = number_at(data, p1) {
                lemma_notdef_advances(data, p2, size, (count - 1) as nat, e);
            }
        }
    }
}

/// Single codes are read forwards.
pub proof fn lemma_cid_char_advances(
    data: Seq<u8>,
    pos: int,
    size: int,
    sequence: bool,
    count: nat,
    code: nat,
    value: u32,
    m: CMapView,
)
    requires
        0 <= size,
    ensures
        cid_char_rest(data, pos, size, sequence, count, code, value, m) matches Some((done, p))
            ==> pos <= p && (pos <= data.len() ==> p <= data.len()),
    decreases count,
{
    lemma_range_advances(data, pos, size, sequence, code);
    if count > 0 {
        if let Some((c, p1)) = next_char_at(data, pos, size, sequence, code) {
            lemma_number_end_bounds(data, p1);
            if let Some((delta, p2)) = signed_at(data, p1) {
                let v = wrap32(value + delta + 1);
                lemma_cid_char_advances(
                    data,
                    p2,
                    size,
                    sequence,
                    (count - 1) as nat,
                    c,
                    v,
                    m.map_one(low32(c), v),
                );
            }
        }
    }
}

/// Ranges of codes are read forwards.
pub proof fn lemma_cid_range_advances(
    data: Seq<u8>,
    pos: int,
    size: int,
    sequence: bool,
    count: nat,
    end: nat,
    m: CMapView,
)
    requires
        0 <= size,
    ensures
        cid_range_rest(data, pos, size, sequence, count, end, m) matches Some((done, p)) ==> pos
            <= p && (pos <= data.len() ==> p <= data.len()),
    decreases count,
{
    lemma_range_advances(data, pos, size, sequence, end);
    if count > 0 {
        if let Some((s, e, p1)) = next_range_at(data, pos, size, sequence, end) {
            lemma_number_end_bounds(data, p1);
            if let Some((v, p2)) = number_at(data, p1) {
                lemma_cid_range_advances(
                    data,
                    p2,
                    size,
                    sequence,
                    (count - 1) as nat,
                    e,
                    with_cid_range(m, s, e, v),
                );
            }
        }
    }
}

/// Two-byte codes are read forwards.
pub proof fn lemma_bf_char_advances(
    data: Seq<u8>,
    pos: int,
    size: int,
    sequence: bool,
    count: nat,
    code: nat,
    dst: nat,
    m: CMapView,
)
    requires
        0 <= size,
    ensures
        bf_char_rest(data, pos, size, sequence, count, code, dst, m) matches Some((done, p))
            ==> pos <= p && (pos <= data.len() ==> p <= data.len()),
    decreases count,
{
    lemma_range_advances(data, pos, UCS2_DATA_SIZE as int, sequence, code);
    if count > 0 {
        if let Some((c, p1)) = next_char_at(data, pos, UCS2_DATA_SIZE as int, sequence, code) {
            lemma_number_end_bounds(data, p1);
            if let Some((delta, p2)) = wide_signed_at(data, p1, size) {
                let d = plus(plus(dst, 1, size), delta, size);
                lemma_bf_char_advances(
                    data,
                    p2,
                    size,
                    sequence,
                    (count - 1) as nat,
                    c,
                    d,
                    m.map_one(low32(c), leading_byte(d, size)),
                );
            }
        }
    }
}

/// Ranges of two-byte codes are read forwards.
pub proof fn lemma_bf_range_advances(
    data: Seq<u8>,
    pos: int,
    size: int,
    sequence: bool,
    count: nat,
    end: nat,
    m: CMapView,
)
    requires
        0 <= size,
    ensures
        bf_range_rest(data, pos, size, sequence, count, end, m) matches Some((done, p)) ==> pos
            <= p && (pos <= data.len() ==> p <= data.len()),
    decreases count,
{
    lemma_range_advances(data, pos, UCS2_DATA_SIZE as int, sequence, end);
    if count > 0 {
        if let Some((s, e, p1)) = next_range_at(data, pos, UCS2_DATA_SIZE as int, sequence, end) {
            if let Some((dst, p2)) = raw_at(data, p1, size) {
                lemma_bf_range_advances(
                    data,
                    p2,
                    size,
                    sequence,
                    (count - 1) as nat,
                    e,
                    with_bf_range(m, s, e, dst),
                );
            }
        }
    }
}

/// A record of codespace ranges ends behind where it starts.
pub proof fn lemma_codespace_record_advances(
    data: Seq<u8>,
    pos: int,
    size: int,
    count: u32,
    m: CMapView,
)
    requires
        0 <= size,
    ensures
        codespace_record(data, pos, size, count, m) matches Some((done, p)) ==> pos <= p
            <= data.len(),
{
    lemma_range_advances(data, pos, size, false, 0);
    if let Some((s, e, p)) = first_range_at(data, pos, size) {
        lemma_codespace_advances(
            data,
            p,
            size,
            following(count),
            e,
            m.add_codespace_range(size + 1, low32(s), low32(e)),
        );
    }
}

/// A record of undefined ranges ends behind where it starts.
pub proof fn lemma_notdef_record_advances(data: Seq<u8>, pos: int, size: int, count: u32)
    requires
        0 <= size,
    ensures
        notdef_record(data, pos, size, count) matches Some(p) ==> pos <= p <= data.len(),
{
    lemma_range_advances(data, pos, size, false, 0);
    if let Some((s, e, p1)) = first_range_at(data, pos, size) {
        lemma_number_end_bounds(data, p1);
        if let Some((v, p2)) = number_at(data, p1) {
            lemma_notdef_advances(data, p2, size, following(count), e);
        }
    }
}

/// A record of single codes ends behind where it starts.
pub proof fn lemma_cid_char_record_advances(
    data: Seq<u8>,
    pos: int,
    size: int,
    sequence: bool,
    count: u32,
    m: CMapView,
)
    requires
        0 <= size,
    ensures
        cid_char_record(data, pos, size, sequence, count, m) matches Some((done, p)) ==> pos
            <= p <= data.len(),
{
    if let Some((c, p1)) = raw_value_at(data, pos, size) {
        lemma_number_end_bounds(data, p1);
        if let Some((v, p2)) = number_at(data, p1) {
            lemma_cid_char_advances(
                data,
                p2,
                size,
                sequence,
                following(count),
                c,
                v,
                m.map_one(low32(c), v),
            );
        }
    }
}

/// A record of ranges ends behind where it starts.
pub proof fn lemma_cid_range_record_advances(
    data: Seq<u8>,
    pos: int,
    size: int,
    sequence: bool,
    count: u32,
    m: CMapView,
)
    requires
        0 <= size,
    ensures
        cid_range_record(data, pos, size, sequence, count, m) matches Some((done, p)) ==> pos
            <= p <= data.len(),
{
    lemma_range_advances(data, pos, size, false, 0);
    if let Some((s, e, p1)) = first_range_at(data, pos, size) {
        lemma_number_end_bounds(data, p1);
        if let Some((v, p2)) = number_at(data, p1) {
            lemma_cid_range_advances(
                data,
                p2,
                size,
                sequence,
                following(count),
                e,
                with_cid_range(m, s, e, v),
            );
        }
    }
}

/// A record of two-byte codes ends behind where it starts.
pub proof fn lemma_bf_char_record_advances(
    data: Seq<u8>,
    pos: int,
    size: int,
    sequence: bool,
    count: u32,
    m: CMapView,
)
    requires
        0 <= size,
    ensures
        bf_char_record(data, pos, size, sequence, count, m) matches Some((done, p)) ==> pos <= p
            <= data.len(),
{
    if let Some((c, p1)) = raw_value_at(data, pos, UCS2_DATA_SIZE as int) {
        if let Some((d, p2)) = raw_value_at(data, p1, size) {
            lemma_bf_char_advances(
                data,
                p2,
                size,
                sequence,
                following(count),
                c,
                d,
                m.map_one(low32(c), leading_byte(d, size)),
            );
        }
    }
}

/// A record of ranges of two-byte codes ends behind where it starts.
pub proof fn lemma_bf_range_record_advances(
    data: Seq<u8>,
    pos: int,
    size: int,
    sequence: bool,
    count: u32,
    m: CMapView,
)
    requires
        0 <= size,
    ensures
        bf_range_record(data, pos, size, sequence, count, m) matches Some((done, p)) ==> pos
            <= p <= data.len(),
{
    lemma_range_advances(data, pos, UCS2_DATA_SIZE as int, false, 0);
    if let Some((s, e, p1)) = first_range_at(data, pos, UCS2_DATA_SIZE as int) {
        if let Some((dst, p2)) = raw_at(data, p1, size) {
            lemma_bf_range_advances(
                data,
                p2,
                size,
                sequence,
                following(count),
                e,
                with_bf_range(m, s, e, dst),
            );
        }
    }
}

/// The items of a record end behind where they start, within the data.
pub proof fn lemma_record_advances(
    kind: int,
    data: Seq<u8>,
    pos: int,
    size: int,
    sequence: bool,
    count: u32,
    m: CMapView,
)
    requires
        0 <= size,
    ensures
        record_at(kind, data, pos, size, sequence, count, m) matches Ok((done, p)) ==> pos <= p
            <= data.len(),
{
    reveal(record_at);
    if kind == 0 {
        lemma_codespace_record_advances(data, pos, size, count, m);
    } else if kind == 1 {
        lemma_notdef_record_advances(data, pos, size, count);
    } else if kind == 2 {
        lemma_cid_char_record_advances(data, pos, size, sequence, count, m);
    } else if kind == 3 {
        lemma_cid_range_record_advances(data, pos, size, sequence, count, m);
    } else if kind == 4 {
        lemma_bf_char_record_advances(data, pos, size, sequence, count, m);
    } else if kind == 5 {
        lemma_bf_range_record_advances(data, pos, size, sequence, count, m);
    }
}

/// The records from `pos` to the end of the data, read into `m`.
///
/// The byte at the head of a record holds its kind in the high three bits,
/// the sequence flag in the next and the size of its numbers in the low
/// four.  With all three high bits set the record is a note: a comment or
/// the name of another map, each a string that is read and dropped, or
/// nothing at all.  The other kinds start with the count of their items.
pub open spec fn records(data: Seq<u8>, pos: int, m: CMapView) -> Result<CMapView, Fault>
    decreases data.len() - pos,
    via records_decreases
{
    if pos < 0 || pos >= data.len() {
        Ok(m)
    } else {
        let head = data[pos];
        if head / 32 == 7 {
            if head % 32 == 0 || head % 32 == 1 {
                match string_at(data, pos + 1) {
                    Some((text, p)) => records(data, p, m),
                    None => Err(Fault::Truncated),
                }
            } else {
                records(data, pos + 1, m)
            }
        } else {
            match number_at(data, pos + 1) {
                Some((count, p1)) => match record_at(
                    head as int / 32,
                    data,
                    p1,
                    head as int % 16,
                    (head / 16) % 2 == 1,
                    count,
                    m,
                ) {
                    Ok((done, p2)) => records(data, p2, done),
                    Err(fault) => Err(fault),
                },
                None => Err(Fault::Truncated),
            }
        }
    }
}

/// Every record ends behind the byte at its head.
#[via_fn]
proof fn records_decreases(data: Seq<u8>, pos: int, m: CMapView) {
    if 0 <= pos < data.len() {
        let head = data[pos];
        lemma_string_advances(data, pos + 1);
        lemma_number_end_bounds(data, pos + 1);
        if let Some((count, p1)) = number_at(data, pos + 1) {
            lemma_record_advances(
                head as int / 32,
                data,
                p1,
                head as int % 16,
                (head / 16) % 2 == 1,
                count,
                m,
            );
        }
    }
}

/// A whole binary character map, read into `m`: the header byte, whose
/// lowest bit says whether the map is vertical, and then the records.
pub open spec fn binary_cmap(data: Seq<u8>, m: CMapView) -> Result<CMapView, Fault> {
    if data.len() == 0 {
        Err(Fault::NoHeader)
    } else {
        records(data, 1, m.with_vertical(data[0] % 2 == 1))
    }
}

/// The first byte of a number is its most significant.
pub proof fn lemma_leading_byte(bytes: Seq<u8>)
    requires
        bytes.len() >= 1,
    ensures
        leading_byte(be_value(bytes), bytes.len() - 1) == bytes[0],
{
    let rest = bytes.subrange(1, bytes.len() as int);
    assert(bytes =~= seq![bytes[0]] + rest);
    lemma_be_value_prepend(bytes[0], rest);
    lemma_be_value_bound(rest);
    vstd::arithmetic::div_mod::lemma_fundamental_div_mod_converse(
        be_value(bytes) as int,
        pow256(rest.len()) as int,
        bytes[0] as int,
        be_value(rest) as int,
    );
}

/// How many items are left when `seen` of `count` have been read.
pub open spec fn left(count: u32, seen: u32) -> nat {
    if count > seen {
        (count - seen) as nat
    } else {
        0
    }
}

/// Copies the number in `src` into `dst`.
fn copy_hex(dst: &mut Vec<u8>, src: &Vec<u8>, size: usize)
    requires
        size < old(dst).len(),
        size < src.len(),
    ensures
        final(dst).len() == old(dst).len(),
        field(final(dst)@, size as int) == field(src@, size as int),
        forall|j: int| size < j < old(dst).len() ==> final(dst)@[j] == old(dst)@[j],
{
    let mut i: usize = 0;
    while i <= size
        invariant
            i <= size + 1,
            size < dst.len(),
            size < src.len(),
            dst.len() == old(dst).len(),
            dst@.subrange(0, i as int) == src@.subrange(0, i as int),
            forall|j: int| size < j < dst.len() ==> dst@[j] == old(dst)@[j],
        decreases size + 1 - i,
    {
        let ghost before = dst@;
        dst[i] = src[i];
        assert(dst@.subrange(0, i + 1) =~= before.subrange(0, i as int).push(src@[i as int]));
        assert(src@.subrange(0, i + 1) =~= src@.subrange(0, i as int).push(src@[i as int]));
        i += 1;
    }
}

/// Reads the first range of a record into `start` and `end`.
fn first_range(
    stream: &mut BinaryCMapStream,
    start: &mut Vec<u8>,
    end: &mut Vec<u8>,
    size: usize,
) -> (r: Result<(), String>)
    requires
        size < old(start).len(),
        size < old(end).len(),
    ensures
        final(stream).data() == old(stream).data(),
        final(start).len() == old(start).len(),
        final(end).len() == old(end).len(),
        match first_range_at(old(stream).data(), old(stream).position(), size as int) {
            Some((s, e, p)) => r is Ok && field_value(final(start)@, size as int) == s
                && field_value(final(end)@, size as int) == e && final(stream).position() == p,
            None => r is Err && r->Err_0@ == fault_text(Fault::Truncated),
        },
{
    stream.read_hex(start, size)?;
    stream.read_hex_number(end, size)?;
    add_hex(end, start.as_slice(), size);
    Ok(())
}

/// Reads the range that follows the one in `start` and `end`.
fn next_range(
    stream: &mut BinaryCMapStream,
    start: &mut Vec<u8>,
    end: &mut Vec<u8>,
    size: usize,
    sequence: bool,
) -> (r: Result<(), String>)
    requires
        size < old(start).len(),
        size < old(end).len(),
    ensures
        final(stream).data() == old(stream).data(),
        final(start).len() == old(start).len(),
        final(end).len() == old(end).len(),
        match next_range_at(
            old(stream).data(),
            old(stream).position(),
            size as int,
            sequence,
            field_value(old(end)@, size as int),
        ) {
            Some((s, e, p)) => r is Ok && field_value(final(start)@, size as int) == s
                && field_value(final(end)@, size as int) == e && final(stream).position() == p,
            None => r is Err && r->Err_0@ == fault_text(Fault::Truncated),
        },
{
    inc_hex(end, size);
    if !sequence {
        stream.read_hex_number(start, size)?;
        add_hex(start, end.as_slice(), size);
    } else {
        copy_hex(start, end, size);
    }
    stream.read_hex_number(end, size)?;
    add_hex(end, start.as_slice(), size);
    Ok(())
}

/// Reads the source code that follows the one in `code`.
fn next_char(
    stream: &mut BinaryCMapStream,
    code: &mut Vec<u8>,
    tmp: &mut Vec<u8>,
    size: usize,
    sequence: bool,
) -> (r: Result<(), String>)
    requires
        size < old(code).len(),
        size < old(tmp).len(),
    ensures
        final(stream).data() == old(stream).data(),
        final(code).len() == old(code).len(),
        final(tmp).len() == old(tmp).len(),
        match next_char_at(
            old(stream).data(),
            old(stream).position(),
            size as int,
            sequence,
            field_value(old(code)@, size as int),
        ) {
            Some((c, p)) => r is Ok && field_value(final(code)@, size as int) == c && final(stream).position() == p,
            None => r is Err && r->Err_0@ == fault_text(Fault::Truncated),
        },
{
    inc_hex(code, size);
    if !sequence {
        stream.read_hex_number(tmp, size)?;
        add_hex(code, tmp.as_slice(), size);
    }
    Ok(())
}

/// Reads the items of a record of codespace ranges.
fn read_codespace_ranges(
    stream: &mut BinaryCMapStream,
    cmap: &mut CMap,
    start: &mut Vec<u8>,
    end: &mut Vec<u8>,
    size: usize,
    count: u32,
) -> (r: Result<(), String>)
    requires
        size < old(start).len(),
        size < old(end).len(),
    ensures
        final(stream).data() == old(stream).data(),
        final(start).len() == old(start).len(),
        final(end).len() == old(end).len(),
        match codespace_record(
            old(stream).data(),
            old(stream).position(),
            size as int,
            count,
            old(cmap)@,
        ) {
            Some((m, p)) => r is Ok && final(cmap)@ == m && final(stream).position() == p,
            None => r is Err && r->Err_0@ == fault_text(Fault::Truncated),
        },
{
    first_range(stream, start, end, size)?;
    cmap.add_codespace_range(
        size + 1,
        hex_to_int(start.as_slice(), size),
        hex_to_int(end.as_slice(), size),
    );
    let mut i: u32 = 1;
    while i < count
        invariant
            1 <= i,
            size < start.len(),
            size < end.len(),
            start.len() == old(start).len(),
            end.len() == old(end).len(),
            stream.data() == old(stream).data(),
            codespace_record(
                old(stream).data(),
                old(stream).position(),
                size as int,
                count,
                old(cmap)@,
            ) == codespace_rest(
                stream.data(),
                stream.position(),
                size as int,
                left(count, i),
                field_value(end@, size as int),
                cmap@,
            ),
        decreases count - i,
    {
        next_range(stream, start, end, size, false)?;
        cmap.add_codespace_range(
            size + 1,
            hex_to_int(start.as_slice(), size),
            hex_to_int(end.as_slice(), size),
        );
        i += 1;
    }
    Ok(())
}

/// Reads and drops the items of a record of undefined ranges.
fn read_notdef_ranges(
    stream: &mut BinaryCMapStream,
    start: &mut Vec<u8>,
    end: &mut Vec<u8>,
    size: usize,
    count: u32,
) -> (r: Result<(), String>)
    requires
        size < old(start).len(),
        size < old(end).len(),
    ensures
        final(stream).data() == old(stream).data(),
        final(start).len() == old(start).len(),
        final(end).len() == old(end).len(),
        match notdef_record(old(stream).data(), old(stream).position(), size as int, count) {
            Some(p) => r is Ok && final(stream).position() == p,
            None => r is Err && r->Err_0@ == fault_text(Fault::Truncated),
        },
{
    first_range(stream, start, end, size)?;
    stream.read_number()?;
    let mut i: u32 = 1;
    while i < count
        invariant
            1 <= i,
            size < start.len(),
            size < end.len(),
            start.len() == old(start).len(),
            end.len() == old(end).len(),
            stream.data() == old(stream).data(),
            notdef_record(old(stream).data(), old(stream).position(), size as int, count)
                == notdef_rest(
                stream.data(),
                stream.position(),
                size as int,
                left(count, i),
                field_value(end@, size as int),
            ),
        decreases count - i,
    {
        next_range(stream, start, end, size, false)?;
        stream.read_number()?;
        i += 1;
    }
    Ok(())
}

/// The value that follows `value` at the signed distance `delta`.
fn next_value(value: u32, delta: i32) -> (next: u32)
    ensures
        next == wrap32(value + delta + 1),
{
    let sum: i64 = value as i64 + delta as i64 + 1;
    if sum < 0 {
        (sum + 0x1_0000_0000) as u32
    } else if sum >= 0x1_0000_0000 {
        (sum - 0x1_0000_0000) as u32
    } else {
        sum as u32
    }
}

/// Reads the items of a record of single codes.
fn read_cid_chars(
    stream: &mut BinaryCMapStream,
    cmap: &mut CMap,
    code: &mut Vec<u8>,
    tmp: &mut Vec<u8>,
    size: usize,
    sequence: bool,
    count: u32,
) -> (r: Result<(), String>)
    requires
        size < old(code).len(),
        size < old(tmp).len(),
    ensures
        final(stream).data() == old(stream).data(),
        final(code).len() == old(code).len(),
        final(tmp).len() == old(tmp).len(),
        match cid_char_record(
            old(stream).data(),
            old(stream).position(),
            size as int,
            sequence,
            count,
            old(cmap)@,
        ) {
            Some((m, p)) => r is Ok && final(cmap)@ == m && final(stream).position() == p,
            None => r is Err && r->Err_0@ == fault_text(Fault::Truncated),
        },
{
    stream.read_hex(code, size)?;
    let mut value = stream.read_number()?;
    cmap.map_one(hex_to_int(code.as_slice(), size), value);
    let mut i: u32 = 1;
    while i < count
        invariant
            1 <= i,
            size < code.len(),
            size < tmp.len(),
            code.len() == old(code).len(),
            tmp.len() == old(tmp).len(),
            stream.data() == old(stream).data(),
            cid_char_record(
                old(stream).data(),
                old(stream).position(),
                size as int,
                sequence,
                count,
                old(cmap)@,
            ) == cid_char_rest(
                stream.data(),
                stream.position(),
                size as int,
                sequence,
                left(count, i),
                field_value(code@, size as int),
                value,
                cmap@,
            ),
        decreases count - i,
    {
        next_char(stream, code, tmp, size, sequence)?;
        let delta = stream.read_signed()?;
        value = next_value(value, delta);
        cmap.map_one(hex_to_int(code.as_slice(), size), value);
        i += 1;
    }
    Ok(())
}

/// Reads the items of a record of ranges of codes.
fn read_cid_ranges(
    stream: &mut BinaryCMapStream,
    cmap: &mut CMap,
    start: &mut Vec<u8>,
    end: &mut Vec<u8>,
    size: usize,
    sequence: bool,
    count: u32,
) -> (r: Result<(), String>)
    requires
        size < old(start).len(),
        size < old(end).len(),
    ensures
        final(stream).data() == old(stream).data(),
        final(start).len() == old(start).len(),
        final(end).len() == old(end).len(),
        match cid_range_record(
            old(stream).data(),
            old(stream).position(),
            size as int,
            sequence,
            count,
            old(cmap)@,
        ) {
            Some((m, p)) => r is Ok && final(cmap)@ == m && final(stream).position() == p,
            None => r is Err && r->Err_0@ == fault_text(Fault::Truncated),
        },
{
    first_range(stream, start, end, size)?;
    let value = stream.read_number()?;
    let _ = cmap.map_cid_range(
        hex_to_int(start.as_slice(), size),
        hex_to_int(end.as_slice(), size),
        value,
    );
    let mut i: u32 = 1;
    while i < count
        invariant
            1 <= i,
            size < start.len(),
            size < end.len(),
            start.len() == old(start).len(),
            end.len() == old(end).len(),
            stream.data() == old(stream).data(),
            cid_range_record(
                old(stream).data(),
                old(stream).position(),
                size as int,
                sequence,
                count,
                old(cmap)@,
            ) == cid_range_rest(
                stream.data(),
                stream.position(),
                size as int,
                sequence,
                left(count, i),
                field_value(end@, size as int),
                cmap@,
            ),
        decreases count - i,
    {
        next_range(stream, start, end, size, sequence)?;
        let value = stream.read_number()?;
        let _ = cmap.map_cid_range(
            hex_to_int(start.as_slice(), size),
            hex_to_int(end.as_slice(), size),
            value,
        );
        i += 1;
    }
    Ok(())
}

/// Reads the items of a record of two-byte codes with destinations.
fn read_bf_chars(
    stream: &mut BinaryCMapStream,
    cmap: &mut CMap,
    code: &mut Vec<u8>,
    dst: &mut Vec<u8>,
    tmp: &mut Vec<u8>,
    size: usize,
    sequence: bool,
    count: u32,
) -> (r: Result<(), String>)
    requires
        UCS2_DATA_SIZE < old(code).len(),
        size < old(dst).len(),
        UCS2_DATA_SIZE < old(tmp).len(),
        size < old(tmp).len(),
    ensures
        final(stream).data() == old(stream).data(),
        final(code).len() == old(code).len(),
        final(dst).len() == old(dst).len(),
        final(tmp).len() == old(tmp).len(),
        match bf_char_record(
            old(stream).data(),
            old(stream).position(),
            size as int,
            sequence,
            count,
            old(cmap)@,
        ) {
            Some((m, p)) => r is Ok && final(cmap)@ == m && final(stream).position() == p,
            None => r is Err && r->Err_0@ == fault_text(Fault::Truncated),
        },
{
    stream.read_hex(code, UCS2_DATA_SIZE)?;
    stream.read_hex(dst, size)?;
    proof {
        lemma_leading_byte(field(dst@, size as int));
    }
    cmap.map_one(hex_to_int(code.as_slice(), UCS2_DATA_SIZE), dst[0] as u32);
    let mut i: u32 = 1;
    while i < count
        invariant
            1 <= i,
            UCS2_DATA_SIZE < code.len(),
            size < dst.len(),
            UCS2_DATA_SIZE < tmp.len(),
            size < tmp.len(),
            code.len() == old(code).len(),
            dst.len() == old(dst).len(),
            tmp.len() == old(tmp).len(),
            stream.data() == old(stream).data(),
            bf_char_record(
                old(stream).data(),
                old(stream).position(),
                size as int,
                sequence,
                count,
                old(cmap)@,
            ) == bf_char_rest(
                stream.data(),
                stream.position(),
                size as int,
                sequence,
                left(count, i),
                field_value(code@, UCS2_DATA_SIZE as int),
                field_value(dst@, size as int),
                cmap@,
            ),
        decreases count - i,
    {
        next_char(stream, code, tmp, UCS2_DATA_SIZE, sequence)?;
        inc_hex(dst, size);
        stream.read_hex_signed(tmp, size)?;
        add_hex(dst, tmp.as_slice(), size);
        proof {
            lemma_leading_byte(field(dst@, size as int));
        }
        cmap.map_one(hex_to_int(code.as_slice(), UCS2_DATA_SIZE), dst[0] as u32);
        i += 1;
    }
    Ok(())
}

/// Reads the items of a record of ranges of two-byte codes with
/// destinations.
fn read_bf_ranges(
    stream: &mut BinaryCMapStream,
    cmap: &mut CMap,
    start: &mut Vec<u8>,
    end: &mut Vec<u8>,
    dst: &mut Vec<u8>,
    size: usize,
    sequence: bool,
    count: u32,
) -> (r: Result<(), String>)
    requires
        UCS2_DATA_SIZE < old(start).len(),
        UCS2_DATA_SIZE < old(end).len(),
        size < old(dst).len(),
    ensures
        final(stream).data() == old(stream).data(),
        final(start).len() == old(start).len(),
        final(end).len() == old(end).len(),
        final(dst).len() == old(dst).len(),
        match bf_range_record(
            old(stream).data(),
            old(stream).position(),
            size as int,
            sequence,
            count,
            old(cmap)@,
        ) {
            Some((m, p)) => r is Ok && final(cmap)@ == m && final(stream).position() == p,
            None => r is Err && r->Err_0@ == fault_text(Fault::Truncated),
        },
{
    first_range(stream, start, end, UCS2_DATA_SIZE)?;
    stream.read_hex(dst, size)?;
    let _ = cmap.map_bf_range(
        hex_to_int(start.as_slice(), UCS2_DATA_SIZE),
        hex_to_int(end.as_slice(), UCS2_DATA_SIZE),
        hex_to_str(dst.as_slice(), size),
    );
    let mut i: u32 = 1;
    while i < count
        invariant
            1 <= i,
            UCS2_DATA_SIZE < start.len(),
            UCS2_DATA_SIZE < end.len(),
            size < dst.len(),
            start.len() == old(start).len(),
            end.len() == old(end).len(),
            dst.len() == old(dst).len(),
            stream.data() == old(stream).data(),
            bf_range_record(
                old(stream).data(),
                old(stream).position(),
                size as int,
                sequence,
                count,
                old(cmap)@,
            ) == bf_range_rest(
                stream.data(),
                stream.position(),
                size as int,
                sequence,
                left(count, i),
                field_value(end@, UCS2_DATA_SIZE as int),
                cmap@,
            ),
        decreases count - i,
    {
        next_range(stream, start, end, UCS2_DATA_SIZE, sequence)?;
        stream.read_hex(dst, size)?;
        let _ = cmap.map_bf_range(
            hex_to_int(start.as_slice(), UCS2_DATA_SIZE),
            hex_to_int(end.as_slice(), UCS2_DATA_SIZE),
            hex_to_str(dst.as_slice(), size),
        );
        i += 1;
    }
    Ok(())
}

/// The error that stands for a fault.
fn fault_error(fault: Fault) -> (e: String)
    ensures
        e@ == fault_text(fault),
{
    match fault {
        Fault::NoHeader => "unexpected EOF in bcmap header".to_owned(),
        Fault::Truncated => "unexpected EOF in bcmap".to_owned(),
        Fault::UnknownKind => "BinaryCMapReader.process - unknown type: 6".to_owned(),
    }
}

/// The reader of binary character maps.
pub struct BinaryCMapReader;

impl BinaryCMapReader {
    /// A reader; it holds nothing between two maps.
    pub fn new() -> Self {
        BinaryCMapReader
    }

    /// Reads the binary character map `data` into `cmap`.
    ///
    /// On success `cmap` holds what it held before and what the records
    /// add, and the writing mode of the header.  On a fault the error says
    /// which, and `cmap` may hold a part of the records.
    pub fn process(&self, data: Vec<u8>, cmap: &mut CMap) -> (r: Result<(), String>)
        ensures
            match binary_cmap(data@, old(cmap)@) {
                Ok(m) => r is Ok && final(cmap)@ == m,
                Err(fault) => r is Err && r->Err_0@ == fault_text(fault),
            },
    {
        let mut stream = BinaryCMapStream::new(data);
        let header = stream.read_byte();
        if header < 0 {
            return Err(fault_error(Fault::NoHeader));
        }
        cmap.set_vertical(header % 2 == 1);

        let mut start: Vec<u8> = vec![0u8; MAX_NUM_SIZE];
        let mut end: Vec<u8> = vec![0u8; MAX_NUM_SIZE];
        let mut code: Vec<u8> = vec![0u8; MAX_NUM_SIZE];
        let mut dst: Vec<u8> = vec![0u8; MAX_NUM_SIZE];
        let mut tmp: Vec<u8> = vec![0u8; MAX_NUM_SIZE];

        loop
            invariant
                stream.data() == data@,
                0 <= stream.position() <= data@.len(),
                start.len() == MAX_NUM_SIZE,
                end.len() == MAX_NUM_SIZE,
                code.len() == MAX_NUM_SIZE,
                dst.len() == MAX_NUM_SIZE,
                tmp.len() == MAX_NUM_SIZE,
                binary_cmap(data@, old(cmap)@) == records(data@, stream.position(), cmap@),
            decreases data@.len() - stream.position(),
        {
            let ghost at = stream.position();
            let ghost before = cmap@;
            let b = stream.read_byte();
            if b < 0 {
                return Ok(());
            }
            let head = b as u8;
            assert(head >> 5 == head / 32) by (bit_vector);
            assert(head & 0x1f == head % 32) by (bit_vector);
            assert((head & 0x10 != 0) == ((head / 16) % 2 == 1)) by (bit_vector);
            assert(head & 15 == head % 16) by (bit_vector);
            let kind = head >> 5;
            if kind == 7 {
                let note = head & 0x1f;
                proof {
                    lemma_string_advances(data@, at + 1);
                }
                if note == 0 || note == 1 {
                    let _text = stream.read_string()?;
                }
                continue ;
            }
            let sequence = head & 0x10 != 0;
            let size = (head & 15) as usize;
            // Four bits hold the size, so every number fits in its buffer.
            assert(size + 1 <= MAX_NUM_SIZE);
            let count = stream.read_number()?;
            proof {
                reveal(record_at);
                lemma_number_end_bounds(data@, at + 1);
                lemma_record_advances(
                    kind as int,
                    data@,
                    stream.position(),
                    size as int,
                    sequence,
                    count,
                    before,
                );
            }
            if kind == 0 {
                read_codespace_ranges(&mut stream, cmap, &mut start, &mut end, size, count)?;
            } else if kind == 1 {
                read_notdef_ranges(&mut stream, &mut start, &mut end, size, count)?;
            } else if kind == 2 {
                read_cid_chars(&mut stream, cmap, &mut code, &mut tmp, size, sequence, count)?;
            } else if kind == 3 {
                read_cid_ranges(&mut stream, cmap, &mut start, &mut end, size, sequence, count)?;
            } else if kind == 4 {
                read_bf_chars(
                    &mut stream,
                    cmap,
                    &mut code,
                    &mut dst,
                    &mut tmp,
                    size,
                    sequence,
                    count,
                )?;
            } else if kind == 5 {
                read_bf_ranges(
                    &mut stream,
                    cmap,
                    &mut start,
                    &mut end,
                    &mut dst,
                    size,
                    sequence,
                    count,
                )?;
            } else {
                return Err(fault_error(Fault::UnknownKind));
            }
        }
    }
}

/// Reads a binary character map; `None` on any fault.
pub fn parse_binary_cmap(data: Vec<u8>) -> (parsed: Option<CMap>)
    ensures
        match binary_cmap(data@, CMapView::empty()) {
            Ok(m) => parsed is Some && parsed->0@ == m,
            Err(fault) => parsed is None,
        },
{
    let mut cmap = CMap::new();
    let reader = BinaryCMapReader::new();
    match reader.process(data, &mut cmap) {
        Ok(()) => Some(cmap),
        Err(_) => None,
    }
}

} // verus!
