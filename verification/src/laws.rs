//! What holds of the character maps that this crate builds and reads.

use crate::binary::{binary_cmap, record_at, records, Fault};
use crate::bytes::{
    be_bytes, be_value, lemma_be_bytes_len, lemma_be_bytes_prefix, lemma_be_bytes_value,
    lemma_pow256_adds, lemma_pow256_positive, lemma_pow256_small, pack, pow256,
};
use crate::cmap::{in_range, wrap32, CMapView, MAX_MAP_RANGE};
use crate::lexer::{head, tail, Lexeme};
use crate::stream::{base128_value, number_end};
use crate::text::{
    cid_ranges, directives, is_command, is_name, lemma_bf_chars_behind, lemma_bf_ranges_behind,
    lemma_cid_chars_behind, lemma_cid_ranges_behind, lemma_codespace_ranges_behind,
    lemma_no_wmode_tail, no_wmode,
};
use vstd::prelude::*;
use vstd::string::StringSliceAdditionalSpecFns;

verus! {

/// An identity map gives every code of up to 16 bits back as its value,
/// and has no value for a longer code.
pub proof fn lemma_identity_lookup(code: u32)
    ensures
        CMapView::identity_h().lookup(code) == (if code <= 0xFFFF {
            Some(code)
        } else {
            None
        }),
        CMapView::identity_v().lookup(code) == (if code <= 0xFFFF {
            Some(code)
        } else {
            None
        }),
        !CMapView::identity_h().vertical,
        CMapView::identity_v().vertical,
{
    assert(CMapView::identity_h().map.dom() =~= Set::<u32>::empty());
    assert(CMapView::identity_v().map.dom() =~= Set::<u32>::empty());
}

/// A map that holds nothing but one range of character identifiers has a
/// value exactly for the codes `low..=high`: the first value plus the
/// distance of the code from `low`, reduced to 32 bits.
pub proof fn lemma_single_cid_range(low: u32, high: u32, dst_low: u32, code: u32)
    requires
        high - low <= MAX_MAP_RANGE,
    ensures
        CMapView::empty().map_cid_range(low, high, dst_low) matches Some(m) && m.lookup(code) == (
        if low <= code <= high {
            Some(wrap32(dst_low + (code - low)))
        } else {
            None
        }),
        dst_low + (high - low) <= u32::MAX && low <= code <= high ==> wrap32(
            dst_low + (code - low),
        ) == dst_low + (code - low),
{
    let m = CMapView::empty().map_cid_range(low, high, dst_low)->0;
    if !(low <= code <= high) {
        assert(!m.map.contains_key(code));
        assert(m.name.len() == 0);
        reveal_strlit("Identity-H");
        reveal_strlit("Identity-V");
        vstd::string::is_ascii_spec_bytes("Identity-H");
        vstd::string::is_ascii_spec_bytes("Identity-V");
        assert(!m.is_identity());
    }
}

/// The tokens of a single `begincidrange` directive make the map of that
/// one range.
pub proof fn lemma_cid_range_directive(low: Seq<u8>, high: Seq<u8>, dst_low: i32)
    ensures
        directives(
            seq![
                Lexeme::Command("begincidrange".spec_bytes()),
                Lexeme::HexStr(low),
                Lexeme::HexStr(high),
                Lexeme::Integer(dst_low),
                Lexeme::Command("endcidrange".spec_bytes()),
            ],
            CMapView::empty(),
        ) == CMapView::empty().map_cid_range(pack(low), pack(high), wrap32(dst_low as int)),
{
    let tokens = seq![
        Lexeme::Command("begincidrange".spec_bytes()),
        Lexeme::HexStr(low),
        Lexeme::HexStr(high),
        Lexeme::Integer(dst_low),
        Lexeme::Command("endcidrange".spec_bytes()),
    ];
    let m = CMapView::empty();
    lemma_keyword_lengths();
    let entries = tail(tokens);
    assert(entries =~= seq![
        Lexeme::HexStr(low),
        Lexeme::HexStr(high),
        Lexeme::Integer(dst_low),
        Lexeme::Command("endcidrange".spec_bytes()),
    ]);
    assert(tail(entries) =~= seq![
        Lexeme::HexStr(high),
        Lexeme::Integer(dst_low),
        Lexeme::Command("endcidrange".spec_bytes()),
    ]);
    assert(tail(tail(entries)) =~= seq![
        Lexeme::Integer(dst_low),
        Lexeme::Command("endcidrange".spec_bytes()),
    ]);
    let closing = tail(tail(tail(entries)));
    assert(closing =~= seq![Lexeme::Command("endcidrange".spec_bytes())]);
    assert(tail(closing) =~= Seq::<Lexeme>::empty());
    match m.map_cid_range(pack(low), pack(high), wrap32(dst_low as int)) {
        Some(mapped) => {
            assert(cid_ranges(closing, mapped) == Some((mapped, tail(closing))));
            assert(cid_ranges(entries, m) == Some((mapped, tail(closing))));
            assert(directives(tail(closing), mapped) == Some(mapped));
        },
        None => {
            assert(cid_ranges(entries, m) is None);
        },
    }
}

/// The words of the directives differ in length from `begincidrange`.
pub proof fn lemma_keyword_lengths()
    ensures
        "endcmap".spec_bytes().len() == 7,
        "begincodespacerange".spec_bytes().len() == 19,
        "beginbfchar".spec_bytes().len() == 11,
        "begincidchar".spec_bytes().len() == 12,
        "beginbfrange".spec_bytes().len() == 12,
        "begincidrange".spec_bytes().len() == 13,
        "endcidrange".spec_bytes().len() == 11,
{
    reveal_strlit("endcmap");
    reveal_strlit("begincodespacerange");
    reveal_strlit("beginbfchar");
    reveal_strlit("begincidchar");
    reveal_strlit("beginbfrange");
    reveal_strlit("begincidrange");
    reveal_strlit("endcidrange");
    vstd::string::is_ascii_spec_bytes("endcmap");
    vstd::string::is_ascii_spec_bytes("begincodespacerange");
    vstd::string::is_ascii_spec_bytes("beginbfchar");
    vstd::string::is_ascii_spec_bytes("begincidchar");
    vstd::string::is_ascii_spec_bytes("beginbfrange");
    vstd::string::is_ascii_spec_bytes("begincidrange");
    vstd::string::is_ascii_spec_bytes("endcidrange");
}

/// Whether no codespace range of a length under `n` holds the first bytes
/// of the `n`-byte code `code`.
pub open spec fn prefixes_unclaimed(v: CMapView, code: u32, n: int) -> bool {
    forall|m: int| 1 <= m < n ==> !v.claims(m, #[trigger] prefix_code(code, n, m))
}

/// The code made of the first `m` of the `n` bytes of `code`.
pub open spec fn prefix_code(code: u32, n: int, m: int) -> u32 {
    (code as nat / pow256((n - m) as nat)) as u32
}

/// A code that lies in a codespace range of length `n`, fits in `n`
/// bytes and has no shorter start in a range of its own length, is read
/// back from its `n` bytes, with the length `n`.
pub proof fn lemma_read_code_in_range(v: CMapView, n: int, i: int, code: u32)
    requires
        v.wf(),
        1 <= n <= 4,
        0 <= i < v.ranges(n).len(),
        in_range(v.ranges(n)[i], code),
        code < pow256(n as nat),
        prefixes_unclaimed(v, code, n),
    ensures
        v.read_code(be_bytes(code as nat, n as nat), 0) == (code, n),
{
    lemma_be_bytes_len(code as nat, n as nat);
    lemma_read_code_cases(v, n, code, 1);
}

/// The first `m` bytes of a code pack to the code without its last bytes.
proof fn lemma_prefix_code(code: u32, n: int, m: int)
    requires
        1 <= m <= n <= 4,
        code < pow256(n as nat),
    ensures
        CMapView::code_at(be_bytes(code as nat, n as nat), 0, m) == prefix_code(code, n, m),
        m == n ==> prefix_code(code, n, m) == code,
{
    let cut = pow256((n - m) as nat);
    let head = code as nat / cut;
    lemma_be_bytes_prefix(code as nat, n as nat, m as nat);
    lemma_be_bytes_value(head, m as nat);
    lemma_pow256_small();
    lemma_pow256_positive((n - m) as nat);
    lemma_pow256_adds(m as nat, (n - m) as nat);
    if m == n {
        assert(head == code) by (nonlinear_arith)
            requires
                cut == 1,
                head == code as nat / cut,
        ;
    }
    assert(head < pow256(m as nat)) by (nonlinear_arith)
        requires
            code < pow256(m as nat) * cut,
            head == code as nat / cut,
            cut > 0,
    ;
    vstd::arithmetic::div_mod::lemma_small_mod(head, pow256(m as nat));
}

/// Each bound of a codespace range, where the bounds are in order and fit
/// in the bytes of the range's length, is read back from its bytes, unless
/// a range for shorter codes holds its first bytes.
pub proof fn lemma_read_code_range_bounds(v: CMapView, n: int, i: int)
    requires
        v.wf(),
        1 <= n <= 4,
        0 <= i < v.ranges(n).len(),
        CMapView::range_fits(n, v.ranges(n)[i]),
    ensures
        prefixes_unclaimed(v, v.ranges(n)[i].0, n) ==> v.read_code(
            be_bytes(v.ranges(n)[i].0 as nat, n as nat),
            0,
        ) == (v.ranges(n)[i].0, n),
        prefixes_unclaimed(v, v.ranges(n)[i].1, n) ==> v.read_code(
            be_bytes(v.ranges(n)[i].1 as nat, n as nat),
            0,
        ) == (v.ranges(n)[i].1, n),
{
    let (low, high) = v.ranges(n)[i];
    if prefixes_unclaimed(v, low, n) {
        lemma_read_code_in_range(v, n, i, low);
    }
    if prefixes_unclaimed(v, high, n) {
        lemma_read_code_in_range(v, n, i, high);
    }
}

/// `/WMode` and an integer at the head of the tokens set the writing mode,
/// vertical unless the integer is 0, and the rest is read as it would be
/// without them.
pub proof fn lemma_wmode_directive(mode: i32, rest: Seq<Lexeme>, m: CMapView)
    ensures
        directives(
            seq![Lexeme::Name("WMode".spec_bytes()), Lexeme::Integer(mode)] + rest,
            m,
        ) == directives(rest, m.with_vertical(mode != 0)),
{
    let tokens = seq![Lexeme::Name("WMode".spec_bytes()), Lexeme::Integer(mode)] + rest;
    assert(tail(tokens) =~= seq![Lexeme::Integer(mode)] + rest);
    assert(tail(tail(tokens)) =~= rest);
}

/// Tokens among which `/WMode` does not occur leave the writing mode as it
/// is.
pub proof fn lemma_mode_kept(rest: Seq<Lexeme>, m: CMapView)
    requires
        no_wmode(rest),
    ensures
        directives(rest, m) matches Some(done) ==> done.vertical == m.vertical,
    decreases rest.len(),
{
    let first = head(rest);
    let after = tail(rest);
    lemma_no_wmode_tail(rest);
    if first is Eof || is_command(first, "endcmap") {
    } else if is_name(first, "WMode") {
    } else if is_name(first, "CMapName") {
        lemma_mode_kept(tail(after), crate::text::with_cmap_name(m, head(after)));
    } else if is_command(first, "begincodespacerange") {
        lemma_codespace_ranges_behind(after, m);
        if let Some((done, behind)) = crate::text::codespace_ranges(after, m) {
            lemma_mode_kept(behind, done);
        }
    } else if is_command(first, "beginbfchar") {
        lemma_bf_chars_behind(after, m);
        if let Some((done, behind)) = crate::text::bf_chars(after, m) {
            lemma_mode_kept(behind, done);
        }
    } else if is_command(first, "begincidchar") {
        lemma_cid_chars_behind(after, m);
        if let Some((done, behind)) = crate::text::cid_chars(after, m) {
            lemma_mode_kept(behind, done);
        }
    } else if is_command(first, "beginbfrange") {
        lemma_bf_ranges_behind(after, m);
        if let Some((done, behind)) = crate::text::bf_ranges(after, m) {
            lemma_mode_kept(behind, done);
        }
    } else if is_command(first, "begincidrange") {
        lemma_cid_ranges_behind(after, m);
        if let Some((done, behind)) = cid_ranges(after, m) {
            lemma_mode_kept(behind, done);
        }
    } else {
        lemma_mode_kept(after, m);
    }
}

/// Where `/WMode 1 def` stands in front of tokens among which `/WMode`
/// does not occur, the map that is read is vertical.
pub proof fn lemma_wmode_makes_vertical(rest: Seq<Lexeme>, m: CMapView)
    requires
        no_wmode(rest),
    ensures
        directives(
            seq![
                Lexeme::Name("WMode".spec_bytes()),
                Lexeme::Integer(1),
                Lexeme::Command("def".spec_bytes()),
            ] + rest,
            m,
        ) matches Some(done) ==> done.vertical,
{
    let def = Lexeme::Command("def".spec_bytes());
    let tokens = seq![Lexeme::Name("WMode".spec_bytes()), Lexeme::Integer(1), def] + rest;
    let tail_tokens = seq![def] + rest;
    assert(tokens =~= seq![Lexeme::Name("WMode".spec_bytes()), Lexeme::Integer(1)]
        + tail_tokens);
    lemma_wmode_directive(1, tail_tokens, m);
    assert(tail_tokens.skip(1) =~= rest);
    assert(no_wmode(tail_tokens));
    lemma_mode_kept(tail_tokens, m.with_vertical(true));
}

/// A number behind other bytes ends where it ends alone, that many bytes
/// further on.
pub proof fn lemma_number_end_shift(front: Seq<u8>, back: Seq<u8>, k: int)
    requires
        0 <= k,
    ensures
        number_end(front + back, front.len() + k) == (match number_end(back, k) {
            Some(end) => Some(front.len() + end),
            None => None,
        }),
    decreases back.len() - k,
{
    if k < back.len() {
        assert((front + back)[front.len() + k] == back[k]);
        if back[k] >= 0x80 {
            lemma_number_end_shift(front, back, k + 1);
        }
    }
}

/// The byte at the head of a record of single codes.
pub open spec fn cid_char_head(size: int, sequence: bool) -> u8 {
    (0x40 + (if sequence {
        0x10int
    } else {
        0int
    }) + size) as u8
}

/// A binary map of one record of single codes with one item, a source
/// code `source` and the value that the bytes `value` spell, holds exactly
/// one mapping: of that code to that value.
pub proof fn lemma_single_cid_char(
    header: u8,
    size: int,
    sequence: bool,
    source: Seq<u8>,
    value: Seq<u8>,
)
    requires
        0 <= size <= 15,
        source.len() == size + 1,
        number_end(value, 0) == Some(value.len() as int),
    ensures
        binary_cmap(
            seq![header, cid_char_head(size, sequence), 1u8] + source + value,
            CMapView::empty(),
        ) matches Ok(done) && done == CMapView::empty().with_vertical(header % 2 == 1).map_one(
            pack(source),
            (base128_value(value) % 0x1_0000_0000) as u32,
        ) && done.map.dom() =~= set![pack(source)],
{
    let front = seq![header, cid_char_head(size, sequence), 1u8] + source;
    let data = front + value;
    let m = CMapView::empty().with_vertical(header % 2 == 1);
    let v = (base128_value(value) % 0x1_0000_0000) as u32;
    let head = data[1];
    assert(head == cid_char_head(size, sequence));
    assert(head as int / 32 == 2);
    assert(head as int % 16 == size);
    assert(((head / 16) % 2 == 1) == sequence);
    // The count of items.
    assert(data[2] == 1u8);
    assert(number_end(data, 2) == Some(3int));
    assert(data.subrange(2, 3) =~= seq![1u8]);
    assert(seq![1u8].drop_last() =~= Seq::<u8>::empty());
    assert(base128_value(Seq::<u8>::empty()) == 0);
    assert(base128_value(seq![1u8]) == 1);
    assert(crate::stream::number_at(data, 2) == Some((1u32, 3int)));
    // The source code.
    assert(data.subrange(3, 3 + size + 1) =~= source);
    // The value.
    lemma_number_end_shift(front, value, 0);
    assert(front.len() == 4 + size);
    assert(data.subrange(4 + size, data.len() as int) =~= value);
    assert(crate::stream::number_at(data, 4 + size) == Some((v, data.len() as int)));
    let done = m.map_one(pack(source), v);
    assert(crate::binary::cid_char_rest(
        data,
        data.len() as int,
        size,
        sequence,
        0,
        be_value(source),
        v,
        done,
    ) == Some((done, data.len() as int)));
    assert(crate::binary::cid_char_record(data, 3, size, sequence, 1, m) == Some(
        (done, data.len() as int),
    ));
    reveal(record_at);
    assert(record_at(2, data, 3, size, sequence, 1, m) == Ok::<(CMapView, int), Fault>(
        (done, data.len() as int),
    ));
    assert(records(data, data.len() as int, done) == Ok::<CMapView, Fault>(done));
    assert(records(data, 1, m) == Ok::<CMapView, Fault>(done));
    assert(done.map.dom() =~= set![pack(source)]);
}

/// The maps that the constructors make have codespace ranges that are in
/// order and fit, and a range that is in order and fits keeps a map so.
pub proof fn lemma_codespace_fits(v: CMapView, n: int, low: u32, high: u32)
    requires
        v.wf(),
        v.codespace_fits(),
        1 <= n <= 4 ==> CMapView::range_fits(n, (low, high)),
    ensures
        CMapView::empty().wf() && CMapView::empty().codespace_fits(),
        CMapView::identity_h().wf() && CMapView::identity_h().codespace_fits(),
        CMapView::identity_v().wf() && CMapView::identity_v().codespace_fits(),
        v.add_codespace_range(n, low, high).wf(),
        v.add_codespace_range(n, low, high).codespace_fits(),
{
    lemma_pow256_small();
    let added = v.add_codespace_range(n, low, high);
    assert forall|k: int, i: int| 1 <= k <= 4 && 0 <= i < added.ranges(k).len() implies CMapView::range_fits(
        k,
        #[trigger] added.ranges(k)[i],
    ) by {
        if k == n && i == v.ranges(k).len() {
        } else {
            assert(added.ranges(k)[i] == v.ranges(k)[i]);
        }
    }
    let h = CMapView::identity_h();
    assert forall|k: int, i: int| 1 <= k <= 4 && 0 <= i < h.ranges(k).len() implies CMapView::range_fits(
        k,
        #[trigger] h.ranges(k)[i],
    ) by {
        assert(k == 2 && i == 0);
    }
    let w = CMapView::identity_v();
    assert forall|k: int, i: int| 1 <= k <= 4 && 0 <= i < w.ranges(k).len() implies CMapView::range_fits(
        k,
        #[trigger] w.ranges(k)[i],
    ) by {
        assert(k == 2 && i == 0);
    }
}

/// What is read from the `n` bytes of a code that fits in them: the code
/// itself, with the length `n`, where a range of that length holds it and
/// no range for shorter codes holds its first bytes; a shorter code where
/// such a range does; `(0, 1)` where no range holds anything.
pub proof fn lemma_read_code_cases(v: CMapView, n: int, code: u32, m: int)
    requires
        v.wf(),
        1 <= m <= n <= 4,
        code < pow256(n as nat),
    ensures
        ({
            let read = v.read_code_from(be_bytes(code as nat, n as nat), 0, m);
            let free = forall|j: int| m <= j < n ==> !v.claims(j, #[trigger] prefix_code(code, n, j));
            &&& free && v.claims(n, code) ==> read == (code, n)
            &&& free && !v.claims(n, code) ==> read == (0u32, 1int)
            &&& !free ==> read.1 < n
        }),
    decreases n - m,
{
    let bytes = be_bytes(code as nat, n as nat);
    let read = v.read_code_from(bytes, 0, m);
    let here = prefix_code(code, n, m);
    let free = forall|j: int| m <= j < n ==> !v.claims(j, #[trigger] prefix_code(code, n, j));
    lemma_be_bytes_len(code as nat, n as nat);
    lemma_prefix_code(code, n, m);
    assert(CMapView::code_at(bytes, 0, m) == here);
    if v.claims(m, here) {
        assert(read == (here, m));
        if m < n {
            assert(!free);
        } else {
            assert(here == code);
            assert(free);
        }
    } else {
        assert(read == v.read_code_from(bytes, 0, m + 1));
        if m < n {
            lemma_read_code_cases(v, n, code, m + 1);
            let free_behind = forall|j: int|
                m + 1 <= j < n ==> !v.claims(j, #[trigger] prefix_code(code, n, j));
            if free_behind {
                assert forall|j: int| m <= j < n implies !v.claims(
                    j,
                    #[trigger] prefix_code(code, n, j),
                ) by {
                    if j > m {
                        assert(m + 1 <= j);
                    }
                }
            }
            assert(free == free_behind);
        } else {
            assert(here == code);
            assert(v.read_code_from(bytes, 0, m + 1) == (0u32, 1int));
            assert(free);
        }
    }
}

/// A code is read back from its `n` bytes, with the length `n`, exactly
/// if it fits in them and either a codespace range of that length holds it
/// while no range for shorter codes holds its first bytes, or it is the
/// one-byte code 0, which also stands for no match.
pub proof fn lemma_read_code_round_trip(v: CMapView, n: int, code: u32)
    requires
        v.wf(),
        1 <= n <= 4,
    ensures
        v.read_code(be_bytes(code as nat, n as nat), 0) == (code, n) <==> code < pow256(n as nat)
            && ((v.claims(n, code) && prefixes_unclaimed(v, code, n)) || (n == 1 && code == 0)),
{
    let bytes = be_bytes(code as nat, n as nat);
    lemma_be_bytes_len(code as nat, n as nat);
    lemma_pow256_small();
    if code < pow256(n as nat) {
        lemma_read_code_cases(v, n, code, 1);
    } else {
        // Bytes that cannot hold the code spell a smaller one.
        lemma_read_code_within(v, bytes, 1);
        lemma_be_bytes_value(code as nat, n as nat);
        lemma_pow256_positive(n as nat);
        assert(bytes.subrange(0, n) =~= bytes);
    }
}

/// What is read is `(0, 1)` or the code of some first bytes, with their
/// number as its length.
proof fn lemma_read_code_within(v: CMapView, bytes: Seq<u8>, m: int)
    requires
        1 <= m,
    ensures
        ({
            let read = v.read_code_from(bytes, 0, m);
            read == (0u32, 1int) || (m <= read.1 <= 4 && read.1 <= bytes.len() && read.0
                == CMapView::code_at(bytes, 0, read.1))
        }),
    decreases 5 - m,
{
    if m <= 4 && m <= bytes.len() {
        if !v.claims(m, CMapView::code_at(bytes, 0, m)) {
            lemma_read_code_within(v, bytes, m + 1);
        }
    }
}

/// Whether a token takes no part in any directive: a string or an integer
/// by itself, a name other than `/WMode` and `/CMapName`, or a command that
/// neither starts a directive nor ends the map.
pub open spec fn is_noise(token: Lexeme) -> bool {
    match token {
        Lexeme::Eof => false,
        Lexeme::Name(_) => !is_name(token, "WMode") && !is_name(token, "CMapName"),
        Lexeme::Command(_) => !is_command(token, "endcmap") && !is_command(
            token,
            "begincodespacerange",
        ) && !is_command(token, "beginbfchar") && !is_command(token, "begincidchar")
            && !is_command(token, "beginbfrange") && !is_command(token, "begincidrange"),
        _ => true,
    }
}

/// A token that takes no part in any directive is passed over: the map is
/// read as it would be without it.
pub proof fn lemma_noise_passed_over(token: Lexeme, rest: Seq<Lexeme>, m: CMapView)
    requires
        is_noise(token),
    ensures
        directives(seq![token] + rest, m) == directives(rest, m),
{
    assert(tail(seq![token] + rest) =~= rest);
}

} // verus!
