//! The reader of textual character maps.
//!
//! A textual map is a run of tokens.  The names `/CMapName` and `/WMode`
//! give the name and the writing mode.  A directive is a command such as
//! `beginbfchar`, then its entries, then the command that ends it.  All
//! other tokens are passed over.

use crate::bytes::{bytes_are, first_char, pack};
use crate::cmap::{bf_string_char, str_to_int, wrap32, CMap, CMapView};
use crate::lexer::{head, tail, tokens_from, CMapLexer, Lexeme, Token};
use vstd::prelude::*;
use vstd::slice::slice_to_vec;
use vstd::string::StringSliceAdditionalSpecFns;

verus! {

/// The bytes of a string token of either kind.
pub open spec fn string_of(token: Lexeme) -> Option<Seq<u8>> {
    match token {
        Lexeme::HexStr(bytes) => Some(bytes),
        Lexeme::Str(bytes) => Some(bytes),
        _ => None,
    }
}

/// The number of an integer token.
pub open spec fn integer_in(token: Lexeme) -> Option<i32> {
    match token {
        Lexeme::Integer(i) => Some(i),
        _ => None,
    }
}

/// Whether `token` is the command `word`.
pub open spec fn is_command(token: Lexeme, word: &str) -> bool {
    token matches Lexeme::Command(bytes) && bytes == word.spec_bytes()
}

/// Whether `token` is the name `word`.
pub open spec fn is_name(token: Lexeme, word: &str) -> bool {
    token matches Lexeme::Name(bytes) && bytes == word.spec_bytes()
}

/// Whether `c` is a Unicode scalar value: a code point that is no
/// surrogate.
pub open spec fn is_scalar(c: u32) -> bool {
    c < 0xD800 || (0xDFFF < c && c <= 0x10FFFF)
}

/// The value of a single destination string: a string of up to two bytes
/// that packs to a Unicode scalar value stands for that value; any other
/// for its first character.
pub open spec fn bf_char_value(dst: Seq<u8>) -> u32 {
    if dst.len() <= 2 && is_scalar(pack(dst)) {
        pack(dst)
    } else {
        first_char(dst)
    }
}

/// The entries of a `beginbfchar` directive: pairs of a source string and a
/// destination string, up to `endbfchar` or the end of the input.
/// Gives the map with the entries and the tokens behind the directive, or
/// `None` where a string is missing.
pub open spec fn bf_chars(rest: Seq<Lexeme>, m: CMapView) -> Option<(CMapView, Seq<Lexeme>)>
    decreases rest.len(),
{
    let first = head(rest);
    let after = tail(rest);
    if first is Eof || is_command(first, "endbfchar") {
        Some((m, after))
    } else {
        match (string_of(first), string_of(head(after))) {
            (Some(src), Some(dst)) => bf_chars(
                tail(after),
                m.map_one(pack(src), bf_char_value(dst)),
            ),
            _ => None,
        }
    }
}

/// The values of a destination array, from behind its `[` up to `]` or the
/// end of the input: an integer is a value, a string gives its first
/// character, any other token is passed over.
pub open spec fn array_values(rest: Seq<Lexeme>, values: Seq<u32>) -> (Seq<u32>, Seq<Lexeme>)
    decreases rest.len(),
{
    let first = head(rest);
    let after = tail(rest);
    if first is Eof || is_command(first, "]") {
        (values, after)
    } else {
        array_values(
            after,
            match first {
                Lexeme::Integer(i) => values.push(wrap32(i as int)),
                Lexeme::Str(bytes) => values.push(first_char(bytes)),
                Lexeme::HexStr(bytes) => values.push(first_char(bytes)),
                _ => values,
            },
        )
    }
}

/// The entries of a `beginbfrange` directive, up to `endbfrange` or the end
/// of the input.  An entry is two source strings and a destination: an
/// integer, which stands for the string of that one byte, or a string, or an
/// array of values in brackets.  `None` where a string is missing, the
/// destination is anything else, or the range is too wide.
pub open spec fn bf_ranges(rest: Seq<Lexeme>, m: CMapView) -> Option<(CMapView, Seq<Lexeme>)>
    decreases rest.len(),
    via bf_ranges_decreases
{
    let first = head(rest);
    let after = tail(rest);
    if first is Eof || is_command(first, "endbfrange") {
        Some((m, after))
    } else {
        match (string_of(first), string_of(head(after))) {
            (Some(low), Some(high)) => {
                let third = head(tail(after));
                let behind = tail(tail(after));
                match third {
                    Lexeme::Integer(i) => match m.map_bf_range(
                        pack(low),
                        pack(high),
                        seq![(i as int % 256) as u8],
                    ) {
                        Some(mapped) => bf_ranges(behind, mapped),
                        None => None,
                    },
                    Lexeme::Str(dst) => match m.map_bf_range(pack(low), pack(high), dst) {
                        Some(mapped) => bf_ranges(behind, mapped),
                        None => None,
                    },
                    Lexeme::HexStr(dst) => match m.map_bf_range(pack(low), pack(high), dst) {
                        Some(mapped) => bf_ranges(behind, mapped),
                        None => None,
                    },
                    Lexeme::Command(word) => if word == "[".spec_bytes() {
                        let (values, end) = array_values(behind, Seq::empty());
                        match m.map_bf_range_to_array(pack(low), pack(high), values) {
                            Some(mapped) => bf_ranges(end, mapped),
                            None => None,
                        }
                    } else {
                        None
                    },
                    _ => None,
                }
            },
            _ => None,
        }
    }
}

/// An array leaves no more tokens behind than it was given.
#[via_fn]
proof fn bf_ranges_decreases(rest: Seq<Lexeme>, m: CMapView) {
    lemma_array_values_behind(tail(tail(tail(rest))), Seq::empty());
}

/// The entries of a `begincidchar` directive: pairs of a source string and
/// an integer, up to `endcidchar` or the end of the input.
pub open spec fn cid_chars(rest: Seq<Lexeme>, m: CMapView) -> Option<(CMapView, Seq<Lexeme>)>
    decreases rest.len(),
{
    let first = head(rest);
    let after = tail(rest);
    if first is Eof || is_command(first, "endcidchar") {
        Some((m, after))
    } else {
        match (string_of(first), integer_in(head(after))) {
            (Some(src), Some(dst)) => cid_chars(
                tail(after),
                m.map_one(pack(src), wrap32(dst as int)),
            ),
            _ => None,
        }
    }
}

/// The entries of a `begincidrange` directive: two source strings and an
/// integer each, up to `endcidrange` or the end of the input.
pub open spec fn cid_ranges(rest: Seq<Lexeme>, m: CMapView) -> Option<(CMapView, Seq<Lexeme>)>
    decreases rest.len(),
{
    let first = head(rest);
    let after = tail(rest);
    if first is Eof || is_command(first, "endcidrange") {
        Some((m, after))
    } else {
        match (string_of(first), string_of(head(after)), integer_in(head(tail(after)))) {
            (Some(low), Some(high), Some(dst)) => match m.map_cid_range(
                pack(low),
                pack(high),
                wrap32(dst as int),
            ) {
                Some(mapped) => cid_ranges(tail(tail(after)), mapped),
                None => None,
            },
            _ => None,
        }
    }
}

/// The entries of a `begincodespacerange` directive: pairs of strings, up
/// to `endcodespacerange` or the end of the input.  The length of the
/// second string is the length of the codes.  An empty first string is
/// passed over; an empty second string is refused.
pub open spec fn codespace_ranges(rest: Seq<Lexeme>, m: CMapView) -> Option<
    (CMapView, Seq<Lexeme>),
>
    decreases rest.len(),
{
    let first = head(rest);
    let after = tail(rest);
    if first is Eof || is_command(first, "endcodespacerange") {
        Some((m, after))
    } else {
        match string_of(first) {
            Some(low) => if low.len() == 0 {
                codespace_ranges(after, m)
            } else {
                match string_of(head(after)) {
                    Some(high) => if high.len() == 0 {
                        None
                    } else {
                        codespace_ranges(
                            tail(after),
                            m.add_codespace_range(high.len() as int, pack(low), pack(high)),
                        )
                    },
                    None => None,
                }
            },
            None => None,
        }
    }
}

/// The map after `/WMode` and the token behind it: an integer sets the
/// writing mode, vertical unless it is 0; any other token changes nothing.
pub open spec fn with_wmode(m: CMapView, token: Lexeme) -> CMapView {
    match token {
        Lexeme::Integer(i) => m.with_vertical(i != 0),
        _ => m,
    }
}

/// The map after `/CMapName` and the token behind it: a name is the name of
/// the map; any other token changes nothing.
pub open spec fn with_cmap_name(m: CMapView, token: Lexeme) -> CMapView {
    match token {
        Lexeme::Name(name) => m.with_name(name),
        _ => m,
    }
}

/// The map that the tokens `rest` make of `m`, or `None` where a directive
/// among them is refused.
pub open spec fn directives(rest: Seq<Lexeme>, m: CMapView) -> Option<CMapView>
    decreases rest.len(),
    via directives_decreases
{
    let first = head(rest);
    let after = tail(rest);
    if first is Eof || is_command(first, "endcmap") {
        Some(m)
    } else if is_name(first, "WMode") {
        directives(tail(after), with_wmode(m, head(after)))
    } else if is_name(first, "CMapName") {
        directives(tail(after), with_cmap_name(m, head(after)))
    } else if is_command(first, "begincodespacerange") {
        match codespace_ranges(after, m) {
            Some((done, behind)) => directives(behind, done),
            None => None,
        }
    } else if is_command(first, "beginbfchar") {
        match bf_chars(after, m) {
            Some((done, behind)) => directives(behind, done),
            None => None,
        }
    } else if is_command(first, "begincidchar") {
        match cid_chars(after, m) {
            Some((done, behind)) => directives(behind, done),
            None => None,
        }
    } else if is_command(first, "beginbfrange") {
        match bf_ranges(after, m) {
            Some((done, behind)) => directives(behind, done),
            None => None,
        }
    } else if is_command(first, "begincidrange") {
        match cid_ranges(after, m) {
            Some((done, behind)) => directives(behind, done),
            None => None,
        }
    } else {
        directives(after, m)
    }
}

/// A directive leaves no more tokens behind than it was given.
#[via_fn]
proof fn directives_decreases(rest: Seq<Lexeme>, m: CMapView) {
    lemma_codespace_ranges_behind(tail(rest), m);
    lemma_bf_chars_behind(tail(rest), m);
    lemma_cid_chars_behind(tail(rest), m);
    lemma_bf_ranges_behind(tail(rest), m);
    lemma_cid_ranges_behind(tail(rest), m);
}

/// Whether none of the tokens is the name `/WMode`.
pub open spec fn no_wmode(rest: Seq<Lexeme>) -> bool
    decreases rest.len(),
{
    rest.len() == 0 || (!is_name(rest[0], "WMode") && no_wmode(rest.skip(1)))
}

/// The map that a textual character map describes.
pub open spec fn text_cmap(input: Seq<u8>) -> Option<CMapView> {
    directives(tokens_from(input, 0), CMapView::empty())
}

/// Tokens without `/WMode` stay so when the first is taken away.
pub proof fn lemma_no_wmode_tail(rest: Seq<Lexeme>)
    ensures
        no_wmode(rest) ==> no_wmode(tail(rest)) && no_wmode(tail(tail(rest))) && no_wmode(
            tail(tail(tail(rest))),
        ),
{
    if rest.len() > 0 {
        let after = tail(rest);
        if after.len() > 0 {
            let behind = tail(after);
            if behind.len() > 0 {
                assert(no_wmode(behind) ==> no_wmode(tail(behind)));
            }
            assert(no_wmode(after) ==> no_wmode(behind));
        }
        assert(no_wmode(rest) ==> no_wmode(after));
    }
}

/// What the values of an array leave behind: no more tokens than were
/// given, and none of them `/WMode` unless one was among those.  The same
/// holds of every directive, which also leaves the writing mode as it was.
pub proof fn lemma_array_values_behind(rest: Seq<Lexeme>, values: Seq<u32>)
    ensures
        array_values(rest, values).1.len() <= rest.len(),
        no_wmode(rest) ==> no_wmode(array_values(rest, values).1),
    decreases rest.len(),
{
    lemma_no_wmode_tail(rest);
    let first = head(rest);
    if !(first is Eof || is_command(first, "]")) {
        lemma_array_values_behind(
            tail(rest),
            match first {
                Lexeme::Integer(i) => values.push(wrap32(i as int)),
                Lexeme::Str(bytes) => values.push(first_char(bytes)),
                Lexeme::HexStr(bytes) => values.push(first_char(bytes)),
                _ => values,
            },
        );
    }
}

/// What `beginbfchar` leaves behind, as above.
pub proof fn lemma_bf_chars_behind(rest: Seq<Lexeme>, m: CMapView)
    ensures
        bf_chars(rest, m) matches Some((done, behind)) ==> behind.len() <= rest.len()
            && done.vertical == m.vertical && (no_wmode(rest) ==> no_wmode(behind)),
    decreases rest.len(),
{
    lemma_no_wmode_tail(rest);
    let first = head(rest);
    let after = tail(rest);
    if !(first is Eof || is_command(first, "endbfchar")) {
        if let (Some(src), Some(dst)) = (string_of(first), string_of(head(after))) {
            lemma_bf_chars_behind(tail(after), m.map_one(pack(src), bf_char_value(dst)));
        }
    }
}

/// What `begincidchar` leaves behind, as above.
pub proof fn lemma_cid_chars_behind(rest: Seq<Lexeme>, m: CMapView)
    ensures
        cid_chars(rest, m) matches Some((done, behind)) ==> behind.len() <= rest.len()
            && done.vertical == m.vertical && (no_wmode(rest) ==> no_wmode(behind)),
    decreases rest.len(),
{
    lemma_no_wmode_tail(rest);
    let first = head(rest);
    let after = tail(rest);
    if !(first is Eof || is_command(first, "endcidchar")) {
        if let (Some(src), Some(dst)) = (string_of(first), integer_in(head(after))) {
            lemma_cid_chars_behind(tail(after), m.map_one(pack(src), wrap32(dst as int)));
        }
    }
}

/// What `begincidrange` leaves behind, as above.
pub proof fn lemma_cid_ranges_behind(rest: Seq<Lexeme>, m: CMapView)
    ensures
        cid_ranges(rest, m) matches Some((done, behind)) ==> behind.len() <= rest.len()
            && done.vertical == m.vertical && (no_wmode(rest) ==> no_wmode(behind)),
    decreases rest.len(),
{
    lemma_no_wmode_tail(rest);
    let first = head(rest);
    let after = tail(rest);
    if !(first is Eof || is_command(first, "endcidrange")) {
        if let (Some(low), Some(high), Some(dst)) = (
            string_of(first),
            string_of(head(after)),
            integer_in(head(tail(after))),
        ) {
            if let Some(mapped) = m.map_cid_range(pack(low), pack(high), wrap32(dst as int)) {
                lemma_cid_ranges_behind(tail(tail(after)), mapped);
            }
        }
    }
}

/// What `begincodespacerange` leaves behind, as above.
pub proof fn lemma_codespace_ranges_behind(rest: Seq<Lexeme>, m: CMapView)
    ensures
        codespace_ranges(rest, m) matches Some((done, behind)) ==> behind.len() <= rest.len()
            && done.vertical == m.vertical && (no_wmode(rest) ==> no_wmode(behind)),
    decreases rest.len(),
{
    lemma_no_wmode_tail(rest);
    let first = head(rest);
    let after = tail(rest);
    if !(first is Eof || is_command(first, "endcodespacerange")) {
        if let Some(low) = string_of(first) {
            if low.len() == 0 {
                lemma_codespace_ranges_behind(after, m);
            } else if let Some(high) = string_of(head(after)) {
                if high.len() > 0 {
                    lemma_codespace_ranges_behind(
                        tail(after),
                        m.add_codespace_range(high.len() as int, pack(low), pack(high)),
                    );
                }
            }
        }
    }
}

/// What `beginbfrange` leaves behind, as above.
pub proof fn lemma_bf_ranges_behind(rest: Seq<Lexeme>, m: CMapView)
    ensures
        bf_ranges(rest, m) matches Some((done, behind)) ==> behind.len() <= rest.len()
            && done.vertical == m.vertical && (no_wmode(rest) ==> no_wmode(behind)),
    decreases rest.len(),
{
    lemma_no_wmode_tail(rest);
    let first = head(rest);
    let after = tail(rest);
    if !(first is Eof || is_command(first, "endbfrange")) {
        if let (Some(low), Some(high)) = (string_of(first), string_of(head(after))) {
            let third = head(tail(after));
            let behind = tail(tail(after));
            lemma_array_values_behind(behind, Seq::empty());
            match third {
                Lexeme::Integer(i) => {
                    if let Some(mapped) = m.map_bf_range(
                        pack(low),
                        pack(high),
                        seq![(i as int % 256) as u8],
                    ) {
                        lemma_bf_ranges_behind(behind, mapped);
                    }
                },
                Lexeme::Str(dst) => {
                    if let Some(mapped) = m.map_bf_range(pack(low), pack(high), dst) {
                        lemma_bf_ranges_behind(behind, mapped);
                    }
                },
                Lexeme::HexStr(dst) => {
                    if let Some(mapped) = m.map_bf_range(pack(low), pack(high), dst) {
                        lemma_bf_ranges_behind(behind, mapped);
                    }
                },
                Lexeme::Command(word) => {
                    if word == "[".spec_bytes() {
                        let (values, end) = array_values(behind, Seq::empty());
                        if let Some(mapped) = m.map_bf_range_to_array(
                            pack(low),
                            pack(high),
                            values,
                        ) {
                            lemma_bf_ranges_behind(end, mapped);
                        }
                    }
                },
                _ => {},
            }
        }
    }
}

/// The bytes of a string token of either kind, or `None` for another
/// token.
pub fn expect_string(obj: &Token) -> (bytes: Option<Vec<u8>>)
    ensures
        match string_of(obj@) {
            Some(b) => bytes is Some && bytes->0@ == b,
            None => bytes is None,
        },
{
    match obj {
        Token::HexStr(bytes) => Some(slice_to_vec(bytes.as_slice())),
        Token::Str(bytes) => Some(slice_to_vec(bytes.as_slice())),
        _ => None,
    }
}

/// The number of an integer token, or `None` for another token.
pub fn expect_int(obj: &Token) -> (number: Option<i32>)
    ensures
        number == integer_in(obj@),
{
    match obj {
        Token::Integer(i) => Some(*i),
        _ => None,
    }
}

/// Whether `obj` is the command `word`.
fn command_is(obj: &Token, word: &str) -> (same: bool)
    ensures
        same == is_command(obj@, word),
{
    match obj {
        Token::Command(bytes) => bytes_are(bytes.as_slice(), word),
        _ => false,
    }
}

/// Whether `obj` is the name `word`.
fn name_is(obj: &Token, word: &str) -> (same: bool)
    ensures
        same == is_name(obj@, word),
{
    match obj {
        Token::Name(bytes) => bytes_are(bytes.as_slice(), word),
        _ => false,
    }
}

/// Whether `obj` marks the end of the input.
fn at_end(obj: &Token) -> (end: bool)
    ensures
        end == (obj@ is Eof),
{
    match obj {
        Token::Eof => true,
        _ => false,
    }
}

/// An integer as a 32-bit value: a negative one counts from the top.
fn as_value(i: i32) -> (value: u32)
    ensures
        value == wrap32(i as int),
{
    if i < 0 {
        (i as i64 + 0x1_0000_0000) as u32
    } else {
        i as u32
    }
}

/// The lowest byte of an integer, as a string of its own.
fn low_byte_string(i: i32) -> (s: Vec<u8>)
    ensures
        s@ == seq![(i as int % 256) as u8],
{
    let low: i64 = if i < 0 {
        i as i64 + 0x1_0000_0000
    } else {
        i as i64
    };
    let mut s: Vec<u8> = Vec::new();
    s.push((low % 256) as u8);
    assert(s@ =~= seq![(i as int % 256) as u8]);
    s
}

/// The value of a single destination string.
fn single_value(dst: &[u8]) -> (value: u32)
    ensures
        value == bf_char_value(dst@),
{
    if dst.len() <= 2 {
        let code = str_to_int(dst);
        if code < 0xD800 || (0xDFFF < code && code <= 0x10FFFF) {
            return code;
        }
    }
    bf_string_char(dst)
}

/// Reads the entries of a `beginbfchar` directive.
pub fn parse_bf_char(cmap: &mut CMap, lexer: &mut CMapLexer) -> (done: Option<()>)
    ensures
        final(lexer).input() == old(lexer).input(),
        match bf_chars(old(lexer).remaining(), old(cmap)@) {
            Some((m, rest)) => done is Some && final(cmap)@ == m && final(lexer).remaining()
                == rest,
            None => done is None,
        },
{
    loop
        invariant
            lexer.input() == old(lexer).input(),
            bf_chars(old(lexer).remaining(), old(cmap)@) == bf_chars(lexer.remaining(), cmap@),
        decreases lexer.remaining().len(),
    {
        let obj = lexer.get_obj();
        if at_end(&obj) || command_is(&obj, "endbfchar") {
            return Some(());
        }
        let src = match expect_string(&obj) {
            Some(s) => s,
            None => {
                return None;
            },
        };
        let dst_obj = lexer.get_obj();
        let dst = match expect_string(&dst_obj) {
            Some(s) => s,
            None => {
                return None;
            },
        };
        cmap.map_one(str_to_int(src.as_slice()), single_value(dst.as_slice()));
    }
}

/// Reads the values of a destination array, behind its `[`.
fn parse_array_values(lexer: &mut CMapLexer) -> (values: Vec<u32>)
    ensures
        final(lexer).input() == old(lexer).input(),
        (values@, final(lexer).remaining()) == array_values(
            old(lexer).remaining(),
            Seq::empty(),
        ),
{
    let mut values: Vec<u32> = Vec::new();
    loop
        invariant
            lexer.input() == old(lexer).input(),
            array_values(old(lexer).remaining(), Seq::empty()) == array_values(
                lexer.remaining(),
                values@,
            ),
        decreases lexer.remaining().len(),
    {
        let obj = lexer.get_obj();
        if at_end(&obj) || command_is(&obj, "]") {
            return values;
        }
        match obj {
            Token::Integer(i) => {
                values.push(as_value(i));
            },
            Token::Str(bytes) => {
                values.push(bf_string_char(bytes.as_slice()));
            },
            Token::HexStr(bytes) => {
                values.push(bf_string_char(bytes.as_slice()));
            },
            _ => {},
        }
    }
}

/// Reads the entries of a `beginbfrange` directive.
pub fn parse_bf_range(cmap: &mut CMap, lexer: &mut CMapLexer) -> (done: Option<()>)
    ensures
        final(lexer).input() == old(lexer).input(),
        match bf_ranges(old(lexer).remaining(), old(cmap)@) {
            Some((m, rest)) => done is Some && final(cmap)@ == m && final(lexer).remaining()
                == rest,
            None => done is None,
        },
{
    loop
        invariant
            lexer.input() == old(lexer).input(),
            bf_ranges(old(lexer).remaining(), old(cmap)@) == bf_ranges(lexer.remaining(), cmap@),
        decreases lexer.remaining().len(),
    {
        let obj = lexer.get_obj();
        if at_end(&obj) || command_is(&obj, "endbfrange") {
            return Some(());
        }
        let low = match expect_string(&obj) {
            Some(s) => str_to_int(s.as_slice()),
            None => {
                return None;
            },
        };
        let high_obj = lexer.get_obj();
        let high = match expect_string(&high_obj) {
            Some(s) => str_to_int(s.as_slice()),
            None => {
                return None;
            },
        };
        let dst_obj = lexer.get_obj();
        let mapped = match dst_obj {
            Token::Integer(i) => cmap.map_bf_range(low, high, low_byte_string(i)),
            Token::Str(dst) => cmap.map_bf_range(low, high, dst),
            Token::HexStr(dst) => cmap.map_bf_range(low, high, dst),
            Token::Command(word) => {
                if bytes_are(word.as_slice(), "[") {
                    proof {
                        lemma_array_values_behind(lexer.remaining(), Seq::empty());
                    }
                    let array = parse_array_values(lexer);
                    cmap.map_bf_range_to_array(low, high, array)
                } else {
                    return None;
                }
            },
            _ => {
                return None;
            },
        };
        if mapped.is_none() {
            return None;
        }
    }
}

/// Reads the entries of a `begincidchar` directive.
pub fn parse_cid_char(cmap: &mut CMap, lexer: &mut CMapLexer) -> (done: Option<()>)
    ensures
        final(lexer).input() == old(lexer).input(),
        match cid_chars(old(lexer).remaining(), old(cmap)@) {
            Some((m, rest)) => done is Some && final(cmap)@ == m && final(lexer).remaining()
                == rest,
            None => done is None,
        },
{
    loop
        invariant
            lexer.input() == old(lexer).input(),
            cid_chars(old(lexer).remaining(), old(cmap)@) == cid_chars(lexer.remaining(), cmap@),
        decreases lexer.remaining().len(),
    {
        let obj = lexer.get_obj();
        if at_end(&obj) || command_is(&obj, "endcidchar") {
            return Some(());
        }
        let src = match expect_string(&obj) {
            Some(s) => str_to_int(s.as_slice()),
            None => {
                return None;
            },
        };
        let dst_obj = lexer.get_obj();
        let dst = match expect_int(&dst_obj) {
            Some(i) => i,
            None => {
                return None;
            },
        };
        cmap.map_one(src, as_value(dst));
    }
}

/// Reads the entries of a `begincidrange` directive.
pub fn parse_cid_range(cmap: &mut CMap, lexer: &mut CMapLexer) -> (done: Option<()>)
    ensures
        final(lexer).input() == old(lexer).input(),
        match cid_ranges(old(lexer).remaining(), old(cmap)@) {
            Some((m, rest)) => done is Some && final(cmap)@ == m && final(lexer).remaining()
                == rest,
            None => done is None,
        },
{
    loop
        invariant
            lexer.input() == old(lexer).input(),
            cid_ranges(old(lexer).remaining(), old(cmap)@) == cid_ranges(
                lexer.remaining(),
                cmap@,
            ),
        decreases lexer.remaining().len(),
    {
        let obj = lexer.get_obj();
        if at_end(&obj) || command_is(&obj, "endcidrange") {
            return Some(());
        }
        let low = match expect_string(&obj) {
            Some(s) => str_to_int(s.as_slice()),
            None => {
                return None;
            },
        };
        let high_obj = lexer.get_obj();
        let high = match expect_string(&high_obj) {
            Some(s) => str_to_int(s.as_slice()),
            None => {
                return None;
            },
        };
        let dst_obj = lexer.get_obj();
        let dst_low = match expect_int(&dst_obj) {
            Some(i) => i,
            None => {
                return None;
            },
        };
        if cmap.map_cid_range(low, high, as_value(dst_low)).is_none() {
            return None;
        }
    }
}

/// Reads the entries of a `begincodespacerange` directive.
pub fn parse_codespace_range(cmap: &mut CMap, lexer: &mut CMapLexer) -> (done: Option<()>)
    ensures
        final(lexer).input() == old(lexer).input(),
        match codespace_ranges(old(lexer).remaining(), old(cmap)@) {
            Some((m, rest)) => done is Some && final(cmap)@ == m && final(lexer).remaining()
                == rest,
            None => done is None,
        },
{
    loop
        invariant
            lexer.input() == old(lexer).input(),
            codespace_ranges(old(lexer).remaining(), old(cmap)@) == codespace_ranges(
                lexer.remaining(),
                cmap@,
            ),
        decreases lexer.remaining().len(),
    {
        let obj = lexer.get_obj();
        if at_end(&obj) || command_is(&obj, "endcodespacerange") {
            return Some(());
        }
        let low_str = match expect_string(&obj) {
            Some(s) => s,
            None => {
                return None;
            },
        };
        if low_str.len() == 0 {
            continue ;
        }
        let low = str_to_int(low_str.as_slice());
        let high_obj = lexer.get_obj();
        let high_str = match expect_string(&high_obj) {
            Some(s) => s,
            None => {
                return None;
            },
        };
        if high_str.len() == 0 {
            return None;
        }
        let high = str_to_int(high_str.as_slice());
        cmap.add_codespace_range(high_str.len(), low, high);
    }
}

/// Reads the token behind `/WMode` and sets the writing mode by it.
pub fn parse_wmode(cmap: &mut CMap, lexer: &mut CMapLexer) -> (done: Option<()>)
    ensures
        done is Some,
        final(lexer).input() == old(lexer).input(),
        final(cmap)@ == with_wmode(old(cmap)@, head(old(lexer).remaining())),
        final(lexer).remaining() == tail(old(lexer).remaining()),
{
    let obj = lexer.get_obj();
    match expect_int(&obj) {
        Some(val) => {
            cmap.set_vertical(val != 0);
        },
        None => {},
    }
    Some(())
}

/// Reads the token behind `/CMapName` and names the map by it.
pub fn parse_cmap_name(cmap: &mut CMap, lexer: &mut CMapLexer) -> (done: Option<()>)
    ensures
        done is Some,
        final(lexer).input() == old(lexer).input(),
        final(cmap)@ == with_cmap_name(old(cmap)@, head(old(lexer).remaining())),
        final(lexer).remaining() == tail(old(lexer).remaining()),
{
    let obj = lexer.get_obj();
    match obj {
        Token::Name(name) => {
            cmap.set_name(name);
        },
        _ => {},
    }
    Some(())
}

/// Reads a textual character map.
///
/// Gives the map that the directives of `input` describe: an empty map
/// where there is none.  Gives `None` where a directive is refused: an
/// entry lacks a string or an integer, a range is wider than
/// `MAX_MAP_RANGE`, a codespace range has an empty upper bound, or the
/// destination of a `beginbfrange` entry is neither integer, string nor
/// array.
pub fn parse_cmap(input: &[u8]) -> (parsed: Option<CMap>)
    ensures
        match text_cmap(input@) {
            Some(m) => parsed is Some && parsed->0@ == m,
            None => parsed is None,
        },
{
    let mut cmap = CMap::new();
    let mut lexer = CMapLexer::new(input);
    loop
        invariant
            lexer.input() == input@,
            text_cmap(input@) == directives(lexer.remaining(), cmap@),
        decreases lexer.remaining().len(),
    {
        let ghost before = cmap@;
        let obj = lexer.get_obj();
        let ghost after = lexer.remaining();
        proof {
            lemma_codespace_ranges_behind(after, before);
            lemma_bf_chars_behind(after, before);
            lemma_cid_chars_behind(after, before);
            lemma_bf_ranges_behind(after, before);
            lemma_cid_ranges_behind(after, before);
        }
        if at_end(&obj) || command_is(&obj, "endcmap") {
            return Some(cmap);
        }
        let done = if name_is(&obj, "WMode") {
            parse_wmode(&mut cmap, &mut lexer)
        } else if name_is(&obj, "CMapName") {
            parse_cmap_name(&mut cmap, &mut lexer)
        } else if command_is(&obj, "begincodespacerange") {
            parse_codespace_range(&mut cmap, &mut lexer)
        } else if command_is(&obj, "beginbfchar") {
            parse_bf_char(&mut cmap, &mut lexer)
        } else if command_is(&obj, "begincidchar") {
            parse_cid_char(&mut cmap, &mut lexer)
        } else if command_is(&obj, "beginbfrange") {
            parse_bf_range(&mut cmap, &mut lexer)
        } else if command_is(&obj, "begincidrange") {
            parse_cid_range(&mut cmap, &mut lexer)
        } else {
            Some(())
        };
        if done.is_none() {
            return None;
        }
    }
}

} // verus!
