//! The tokens of the textual form of a character map.
//!
//! The textual form is a small part of PostScript.  Its tokens are
//! integers, names, strings in parentheses, strings of hexadecimal digits
//! and commands.  White space separates them, and a comment, from `%` to the
//! end of its line, counts as white space.

use vstd::prelude::*;
use vstd::slice::{slice_subrange, slice_to_vec};

verus! {

/// A horizontal tab.
pub const TAB: u8 = 0x09;

/// A line feed.
pub const LINE_FEED: u8 = 0x0a;

/// A form feed.
pub const FORM_FEED: u8 = 0x0c;

/// A carriage return.
pub const CARRIAGE_RETURN: u8 = 0x0d;

/// A space.
pub const SPACE: u8 = 0x20;

/// `%`, which starts a comment.
pub const PERCENT: u8 = 0x25;

/// `(`, which opens a string.
pub const LEFT_PAREN: u8 = 0x28;

/// `)`, which closes a string.
pub const RIGHT_PAREN: u8 = 0x29;

/// `+`, the sign of a positive integer.
pub const PLUS: u8 = 0x2b;

/// `-`, the sign of a negative integer.
pub const MINUS: u8 = 0x2d;

/// `/`, which starts a name.
pub const SLASH: u8 = 0x2f;

/// `<`, which opens a string of hexadecimal digits or, doubled, a dictionary.
pub const LESS: u8 = 0x3c;

/// `>`, which closes a string of hexadecimal digits or, doubled, a dictionary.
pub const GREATER: u8 = 0x3e;

/// `[`, which opens an array.
pub const LEFT_BRACKET: u8 = 0x5b;

/// `\\`, which keeps the byte behind it from closing a string.
pub const BACKSLASH: u8 = 0x5c;

/// `]`, which closes an array.
pub const RIGHT_BRACKET: u8 = 0x5d;

/// `{`, which opens a procedure.
pub const LEFT_BRACE: u8 = 0x7b;

/// `}`, which closes a procedure.
pub const RIGHT_BRACE: u8 = 0x7d;

/// A token as a mathematical value.
pub enum Lexeme {
    /// A string in parentheses.
    Str(Seq<u8>),
    /// A string of hexadecimal digits, as the bytes they spell.
    HexStr(Seq<u8>),
    /// A signed decimal integer.
    Integer(i32),
    /// A bare word, or one of `<<`, `>>`, `[`, `]`.
    Command(Seq<u8>),
    /// A name, without its slash.
    Name(Seq<u8>),
    /// The end of the input.
    Eof,
}

/// A token.
#[derive(Debug, PartialEq, Eq)]
pub enum Token {
    /// A string in parentheses.
    Str(Vec<u8>),
    /// A string of hexadecimal digits, as the bytes they spell.
    HexStr(Vec<u8>),
    /// A signed decimal integer.
    Integer(i32),
    /// A bare word, or one of `<<`, `>>`, `[`, `]`.
    Command(Vec<u8>),
    /// A name, without its slash.
    Name(Vec<u8>),
    /// The end of the input.
    Eof,
}

impl View for Token {
    type V = Lexeme;

    open spec fn view(&self) -> Lexeme {
        match self {
            Token::Str(bytes) => Lexeme::Str(bytes@),
            Token::HexStr(bytes) => Lexeme::HexStr(bytes@),
            Token::Integer(i) => Lexeme::Integer(*i),
            Token::Command(bytes) => Lexeme::Command(bytes@),
            Token::Name(bytes) => Lexeme::Name(bytes@),
            Token::Eof => Lexeme::Eof,
        }
    }
}

/// White space: space, tab, line feed, form feed, carriage return.
pub open spec fn is_space(b: u8) -> bool {
    b == SPACE || b == TAB || b == LINE_FEED || b == FORM_FEED || b == CARRIAGE_RETURN
}

/// The bytes that end a name or a word without being white space.
pub open spec fn is_delimiter(b: u8) -> bool {
    b == LEFT_BRACKET || b == RIGHT_BRACKET || b == LESS || b == GREATER || b == LEFT_PAREN || b
        == RIGHT_PAREN || b == LEFT_BRACE || b == RIGHT_BRACE || b == SLASH || b == PERCENT
}

/// A decimal digit.
pub open spec fn is_digit(b: u8) -> bool {
    0x30 <= b <= 0x39
}

/// A hexadecimal digit, in either case.
pub open spec fn is_hex_digit(b: u8) -> bool {
    is_digit(b) || 0x41 <= b <= 0x46 || 0x61 <= b <= 0x66
}

/// The number that a hexadecimal digit stands for; 0 for another byte.
pub open spec fn hex_value(b: u8) -> int {
    if is_digit(b) {
        b - 0x30
    } else if 0x41 <= b <= 0x46 {
        b - 0x41 + 10
    } else if 0x61 <= b <= 0x66 {
        b - 0x61 + 10
    } else {
        0
    }
}

/// Where the white space and the comments that start at `pos` end.
/// `in_comment` says whether `pos` lies inside a comment.
pub open spec fn skip_blank(s: Seq<u8>, pos: int, in_comment: bool) -> int
    decreases s.len() - pos,
{
    if pos < 0 || pos >= s.len() {
        pos
    } else if in_comment {
        skip_blank(s, pos + 1, !(s[pos] == LINE_FEED || s[pos] == CARRIAGE_RETURN))
    } else if is_space(s[pos]) {
        skip_blank(s, pos + 1, false)
    } else if s[pos] == PERCENT {
        skip_blank(s, pos + 1, true)
    } else {
        pos
    }
}

/// Where the run of bytes that are neither white space nor delimiters, from
/// `pos` on, ends.
pub open spec fn run_end(s: Seq<u8>, pos: int) -> int
    decreases s.len() - pos,
{
    if pos < 0 || pos >= s.len() || is_space(s[pos]) || is_delimiter(s[pos]) {
        pos
    } else {
        run_end(s, pos + 1)
    }
}

/// The place of the first `>` from `pos` on, or the end of the input.
pub open spec fn hex_close(s: Seq<u8>, pos: int) -> int
    decreases s.len() - pos,
{
    if pos < 0 || pos >= s.len() || s[pos] == GREATER {
        pos
    } else {
        hex_close(s, pos + 1)
    }
}

/// The hexadecimal digits among `s[from..to]`, in their order.
pub open spec fn hex_digits(s: Seq<u8>, from: int, to: int) -> Seq<u8>
    decreases to - from,
{
    if to <= from {
        Seq::empty()
    } else if is_hex_digit(s[to - 1]) {
        hex_digits(s, from, to - 1).push(s[to - 1])
    } else {
        hex_digits(s, from, to - 1)
    }
}

/// The bytes that hexadecimal digits spell, two digits to a byte.  A last
/// digit without a partner counts as if a `0` followed it.
pub open spec fn hex_bytes(digits: Seq<u8>) -> Seq<u8>
    decreases digits.len(),
{
    if digits.len() == 0 {
        Seq::empty()
    } else if digits.len() == 1 {
        seq![(hex_value(digits[0]) * 16) as u8]
    } else {
        seq![(hex_value(digits[0]) * 16 + hex_value(digits[1])) as u8] + hex_bytes(
            digits.subrange(2, digits.len() as int),
        )
    }
}

/// The text of a string in parentheses and where it ends, read from `pos`
/// at nesting depth `depth` with `text` already gathered.
///
/// An inner pair of parentheses belongs to the text; the parenthesis that
/// closes the string does not.  A backslash and the byte behind it are both
/// kept as they are, whatever that byte is.
pub open spec fn ps_scan(s: Seq<u8>, pos: int, depth: nat, text: Seq<u8>) -> (Seq<u8>, int)
    decreases s.len() - pos,
{
    if pos < 0 || pos >= s.len() || depth == 0 {
        (text, pos)
    } else if s[pos] == LEFT_PAREN {
        ps_scan(s, pos + 1, depth + 1, text.push(s[pos]))
    } else if s[pos] == RIGHT_PAREN {
        ps_scan(
            s,
            pos + 1,
            (depth - 1) as nat,
            if depth > 1 {
                text.push(s[pos])
            } else {
                text
            },
        )
    } else if s[pos] == BACKSLASH {
        if pos + 1 < s.len() {
            ps_scan(s, pos + 2, depth, text.push(s[pos]).push(s[pos + 1]))
        } else {
            (text, pos + 1)
        }
    } else {
        ps_scan(s, pos + 1, depth, text.push(s[pos]))
    }
}

/// Whether all of `s` are decimal digits.
pub open spec fn all_digits(s: Seq<u8>) -> bool {
    forall|i: int| 0 <= i < s.len() ==> is_digit(#[trigger] s[i])
}

/// The number that decimal digits spell.
pub open spec fn decimal_value(digits: Seq<u8>) -> nat
    decreases digits.len(),
{
    if digits.len() == 0 {
        0
    } else {
        decimal_value(digits.drop_last()) * 10 + (digits.last() - 0x30) as nat
    }
}

/// The integer that a word spells, if it spells one: an optional sign, then
/// decimal digits, at least one, for a number that fits in 32 bits.
pub open spec fn integer_of(word: Seq<u8>) -> Option<i32> {
    let signed = word.len() > 0 && (word[0] == MINUS || word[0] == PLUS);
    let digits = if signed {
        word.subrange(1, word.len() as int)
    } else {
        word
    };
    let value = if word.len() > 0 && word[0] == MINUS {
        -(decimal_value(digits) as int)
    } else {
        decimal_value(digits) as int
    };
    if digits.len() > 0 && all_digits(digits) && -0x8000_0000 <= value <= 0x7fff_ffff {
        Some(value as i32)
    } else {
        None
    }
}

/// The token that starts with the `<` at `p`: `<<`, or a string of
/// hexadecimal digits up to the next `>`, in which other bytes are passed
/// over.
pub open spec fn hex_string_at(s: Seq<u8>, p: int) -> (Lexeme, int) {
    if p + 1 < s.len() && s[p + 1] == LESS {
        (Lexeme::Command(s.subrange(p, p + 2)), p + 2)
    } else {
        let close = hex_close(s, p + 1);
        (
            Lexeme::HexStr(hex_bytes(hex_digits(s, p + 1, close))),
            if close < s.len() {
                close + 1
            } else {
                close
            },
        )
    }
}

/// The string that starts with the `(` at `p`.
pub open spec fn ps_string_at(s: Seq<u8>, p: int) -> (Lexeme, int) {
    let (text, end) = ps_scan(s, p + 1, 1, Seq::empty());
    (Lexeme::Str(text), end)
}

/// The name that starts with the `/` at `p`.
pub open spec fn name_at(s: Seq<u8>, p: int) -> (Lexeme, int) {
    let end = run_end(s, p + 1);
    (Lexeme::Name(s.subrange(p + 1, end)), end)
}

/// The word at `p`: an integer where it spells one, else a command.  Where
/// no word starts at `p`, because a delimiter stands there that opens no
/// token, the input counts as ended.
pub open spec fn word_at(s: Seq<u8>, p: int) -> (Lexeme, int) {
    let end = run_end(s, p);
    if end <= p {
        (Lexeme::Eof, p)
    } else {
        match integer_of(s.subrange(p, end)) {
            Some(i) => (Lexeme::Integer(i), end),
            None => (Lexeme::Command(s.subrange(p, end)), end),
        }
    }
}

/// The token that follows `pos`, and where it ends.
pub open spec fn next_token(s: Seq<u8>, pos: int) -> (Lexeme, int) {
    let p = skip_blank(s, pos, false);
    if p < 0 || p >= s.len() {
        (Lexeme::Eof, p)
    } else if s[p] == GREATER && p + 1 < s.len() && s[p + 1] == GREATER {
        (Lexeme::Command(s.subrange(p, p + 2)), p + 2)
    } else if s[p] == LESS {
        hex_string_at(s, p)
    } else if s[p] == LEFT_PAREN {
        ps_string_at(s, p)
    } else if s[p] == LEFT_BRACKET || s[p] == RIGHT_BRACKET {
        (Lexeme::Command(s.subrange(p, p + 1)), p + 1)
    } else if s[p] == SLASH {
        name_at(s, p)
    } else {
        word_at(s, p)
    }
}

/// The first of the tokens to come; `Eof` where none is left.
pub open spec fn head(rest: Seq<Lexeme>) -> Lexeme {
    if rest.len() > 0 {
        rest[0]
    } else {
        Lexeme::Eof
    }
}

/// The tokens that come after the first.
pub open spec fn tail(rest: Seq<Lexeme>) -> Seq<Lexeme> {
    if rest.len() > 0 {
        rest.skip(1)
    } else {
        rest
    }
}

/// The tokens from `pos` to the end of the input.
pub open spec fn tokens_from(s: Seq<u8>, pos: int) -> Seq<Lexeme>
    decreases s.len() - pos,
    via tokens_from_decreases
{
    let (token, end) = next_token(s, pos);
    if token is Eof {
        Seq::empty()
    } else {
        seq![token] + tokens_from(s, end)
    }
}

/// Every token ends behind where it starts.
#[via_fn]
proof fn tokens_from_decreases(s: Seq<u8>, pos: int) {
    lemma_next_token_advances(s, pos);
}

/// Blanks end at or behind where they start, within the input.
pub proof fn lemma_skip_blank_bounds(s: Seq<u8>, pos: int, in_comment: bool)
    requires
        0 <= pos <= s.len(),
    ensures
        pos <= skip_blank(s, pos, in_comment) <= s.len(),
    decreases s.len() - pos,
{
    if pos < s.len() {
        lemma_skip_blank_bounds(s, pos + 1, true);
        lemma_skip_blank_bounds(s, pos + 1, false);
    }
}

/// Where blanks end, no blank starts.
pub proof fn lemma_skip_blank_settled(s: Seq<u8>, pos: int, in_comment: bool)
    ensures
        skip_blank(s, skip_blank(s, pos, in_comment), false) == skip_blank(s, pos, in_comment),
    decreases s.len() - pos,
{
    if 0 <= pos < s.len() {
        lemma_skip_blank_settled(s, pos + 1, true);
        lemma_skip_blank_settled(s, pos + 1, false);
    }
}

/// A run ends at or behind where it starts, within the input.
pub proof fn lemma_run_end_bounds(s: Seq<u8>, pos: int)
    requires
        0 <= pos <= s.len(),
    ensures
        pos <= run_end(s, pos) <= s.len(),
    decreases s.len() - pos,
{
    if pos < s.len() {
        lemma_run_end_bounds(s, pos + 1);
    }
}

/// The closing `>` is looked for forwards, within the input.
pub proof fn lemma_hex_close_bounds(s: Seq<u8>, pos: int)
    requires
        0 <= pos <= s.len(),
    ensures
        pos <= hex_close(s, pos) <= s.len(),
    decreases s.len() - pos,
{
    if pos < s.len() {
        lemma_hex_close_bounds(s, pos + 1);
    }
}

/// A string in parentheses ends at or behind where it starts, within the
/// input.
pub proof fn lemma_ps_scan_bounds(s: Seq<u8>, pos: int, depth: nat, text: Seq<u8>)
    requires
        0 <= pos <= s.len(),
    ensures
        pos <= ps_scan(s, pos, depth, text).1 <= s.len(),
    decreases s.len() - pos,
{
    if pos < s.len() && depth > 0 {
        if s[pos] == LEFT_PAREN {
            lemma_ps_scan_bounds(s, pos + 1, depth + 1, text.push(s[pos]));
        } else if s[pos] == RIGHT_PAREN {
            lemma_ps_scan_bounds(
                s,
                pos + 1,
                (depth - 1) as nat,
                if depth > 1 {
                    text.push(s[pos])
                } else {
                    text
                },
            );
        } else if s[pos] == BACKSLASH {
            if pos + 1 < s.len() {
                lemma_ps_scan_bounds(s, pos + 2, depth, text.push(s[pos]).push(s[pos + 1]));
            }
        } else {
            lemma_ps_scan_bounds(s, pos + 1, depth, text.push(s[pos]));
        }
    }
}

/// A token ends behind where it starts, within the input.
pub proof fn lemma_next_token_advances(s: Seq<u8>, pos: int)
    ensures
        !(next_token(s, pos).0 is Eof) ==> 0 <= pos < next_token(s, pos).1 <= s.len(),
{
    if 0 <= pos <= s.len() {
        lemma_skip_blank_bounds(s, pos, false);
        let p = skip_blank(s, pos, false);
        if p < s.len() {
            lemma_hex_close_bounds(s, p + 1);
            lemma_ps_scan_bounds(s, p + 1, 1, Seq::empty());
            lemma_run_end_bounds(s, p + 1);
            lemma_run_end_bounds(s, p);
        }
    }
}

/// After the last token the input stays ended.
pub proof fn lemma_eof_stays(s: Seq<u8>, pos: int)
    requires
        next_token(s, pos).0 is Eof,
    ensures
        next_token(s, next_token(s, pos).1) == next_token(s, pos),
        tokens_from(s, pos) == Seq::<Lexeme>::empty(),
        tokens_from(s, next_token(s, pos).1) == Seq::<Lexeme>::empty(),
{
    lemma_skip_blank_settled(s, pos, false);
}

/// More digits do not make a number smaller.
pub proof fn lemma_decimal_value_grows(digits: Seq<u8>, k: int)
    requires
        0 <= k <= digits.len(),
        all_digits(digits),
    ensures
        decimal_value(digits.subrange(0, k)) <= decimal_value(digits),
    decreases digits.len() - k,
{
    if k < digits.len() {
        let shorter = digits.drop_last();
        assert(all_digits(shorter));
        assert(is_digit(digits[digits.len() - 1]));
        if k < shorter.len() {
            lemma_decimal_value_grows(shorter, k);
        }
        assert(shorter.subrange(0, k) =~= digits.subrange(0, k));
    } else {
        assert(digits.subrange(0, k) =~= digits);
    }
}

/// Whether `b` is white space.
pub fn space(b: u8) -> (r: bool)
    ensures
        r == is_space(b),
{
    b == SPACE || b == TAB || b == LINE_FEED || b == FORM_FEED || b == CARRIAGE_RETURN
}

/// Whether `b` ends a name or a word without being white space.
pub fn delimiter(b: u8) -> (r: bool)
    ensures
        r == is_delimiter(b),
{
    b == LEFT_BRACKET || b == RIGHT_BRACKET || b == LESS || b == GREATER || b == LEFT_PAREN || b
        == RIGHT_PAREN || b == LEFT_BRACE || b == RIGHT_BRACE || b == SLASH || b == PERCENT
}

/// Whether `b` is a hexadecimal digit.
pub fn hex_digit(b: u8) -> (r: bool)
    ensures
        r == is_hex_digit(b),
{
    (0x30 <= b && b <= 0x39) || (0x41 <= b && b <= 0x46) || (0x61 <= b && b <= 0x66)
}

/// The number that the hexadecimal digit `b` stands for.
pub fn hex_digit_value(b: u8) -> (v: u8)
    ensures
        v == hex_value(b),
        v <= 15,
{
    if 0x30 <= b && b <= 0x39 {
        b - 0x30
    } else if 0x41 <= b && b <= 0x46 {
        b - 0x41 + 10
    } else if 0x61 <= b && b <= 0x66 {
        b - 0x61 + 10
    } else {
        0
    }
}

/// The bytes that hexadecimal digits spell.
pub fn hex_pairs(digits: &[u8]) -> (bytes: Vec<u8>)
    ensures
        bytes@ == hex_bytes(digits@),
{
    let n = digits.len();
    let mut bytes: Vec<u8> = Vec::new();
    let mut i: usize = 0;
    assert(digits@.subrange(0, n as int) =~= digits@);
    while i < n
        invariant
            i <= n,
            n == digits.len(),
            hex_bytes(digits@) == bytes@ + hex_bytes(digits@.subrange(i as int, n as int)),
        decreases n - i,
    {
        let ghost rest = digits@.subrange(i as int, n as int);
        let high = hex_digit_value(digits[i]);
        if i + 1 < n {
            let low = hex_digit_value(digits[i + 1]);
            bytes.push(high * 16 + low);
            assert(rest.subrange(2, rest.len() as int) =~= digits@.subrange(i + 2, n as int));
            i += 2;
        } else {
            bytes.push(high * 16);
            i += 1;
        }
        assert(hex_bytes(digits@) =~= bytes@ + hex_bytes(digits@.subrange(i as int, n as int)));
    }
    assert(hex_bytes(digits@.subrange(n as int, n as int)) =~= Seq::<u8>::empty());
    bytes
}

/// The integer that `word` spells, if it spells one.
pub fn parse_integer(word: &[u8]) -> (value: Option<i32>)
    ensures
        value == integer_of(word@),
{
    let n = word.len();
    if n == 0 {
        return None;
    }
    let negative = word[0] == MINUS;
    let start: usize = if word[0] == MINUS || word[0] == PLUS {
        1
    } else {
        0
    };
    if start == n {
        return None;
    }
    let ghost digits = word@.subrange(start as int, n as int);
    let mut total: i64 = 0;
    let mut i: usize = start;
    proof {
        assert(digits.subrange(0, 0) =~= Seq::<u8>::empty());
        if start == 0 {
            assert(digits =~= word@);
        }
    }
    while i < n
        invariant
            start <= i <= n,
            start < n,
            n == word.len(),
            negative == (word@[0] == MINUS),
            start == (if word@[0] == MINUS || word@[0] == PLUS {
                1int
            } else {
                0int
            }),
            digits == word@.subrange(start as int, n as int),
            start == 0 ==> digits == word@,
            all_digits(digits.subrange(0, i - start)),
            0 <= total <= 0x8000_0000,
            total == decimal_value(digits.subrange(0, i - start)),
        decreases n - i,
    {
        let b = word[i];
        let ghost seen = digits.subrange(0, i - start);
        let ghost more = digits.subrange(0, i + 1 - start);
        proof {
            assert(more.drop_last() =~= seen);
            assert(more.last() == b);
        }
        if !(0x30 <= b && b <= 0x39) {
            assert(!is_digit(digits[i - start]));
            return None;
        }
        assert(all_digits(more)) by {
            assert forall|j: int| 0 <= j < more.len() implies is_digit(#[trigger] more[j]) by {
                if j < seen.len() {
                    assert(more[j] == seen[j]);
                }
            }
        }
        total = total * 10 + (b - 0x30) as i64;
        if total > 0x8000_0000 {
            proof {
                if all_digits(digits) {
                    lemma_decimal_value_grows(digits, i + 1 - start);
                }
            }
            return None;
        }
        i += 1;
    }
    proof {
        assert(digits.subrange(0, n - start) =~= digits);
    }
    if negative {
        Some((-total) as i32)
    } else if total > 0x7fff_ffff {
        None
    } else {
        Some(total as i32)
    }
}

/// A reader of tokens over the bytes of a textual character map.
pub struct CMapLexer<'a> {
    input: &'a [u8],
    position: usize,
}

impl<'a> CMapLexer<'a> {
    /// The reader never passes the end of its input.
    #[verifier::type_invariant]
    spec fn within_input(&self) -> bool {
        self.position <= self.input@.len()
    }

    /// The bytes that are read.
    pub closed spec fn input(&self) -> Seq<u8> {
        self.input@
    }

    /// How many bytes have been read.
    pub closed spec fn position(&self) -> int {
        self.position as int
    }

    /// The tokens that are still to come.
    pub open spec fn remaining(&self) -> Seq<Lexeme> {
        tokens_from(self.input(), self.position())
    }

    /// A reader at the start of `input`.
    pub fn new(input: &'a [u8]) -> (lexer: Self)
        ensures
            lexer.input() == input@,
            lexer.position() == 0,
    {
        CMapLexer { input, position: 0 }
    }

    /// Reads the next token.  At the end of the input the token is `Eof`,
    /// however often it is asked for.
    pub fn get_obj(&mut self) -> (token: Token)
        ensures
            final(self).input() == old(self).input(),
            (token@, final(self).position()) == next_token(old(self).input(), old(self).position()),
            token@ == head(old(self).remaining()),
            final(self).remaining() == tail(old(self).remaining()),
    {
        proof {
            lemma_next_token_advances(self.input@, self.position as int);
            if next_token(self.input@, self.position as int).0 is Eof {
                lemma_eof_stays(self.input@, self.position as int);
            } else {
                let (first, end) = next_token(self.input@, self.position as int);
                assert((seq![first] + tokens_from(self.input@, end)).skip(1) =~= tokens_from(
                    self.input@,
                    end,
                ));
            }
        }
        self.skip_whitespace();
        proof {
            use_type_invariant(&*self);
        }
        if self.position >= self.input.len() {
            return Token::Eof;
        }
        let b = self.input[self.position];
        if b == GREATER && self.position + 1 < self.input.len() && self.input[self.position + 1]
            == GREATER {
            let word = slice_to_vec(slice_subrange(self.input, self.position, self.position + 2));
            self.position += 2;
            Token::Command(word)
        } else if b == LESS {
            self.parse_hex_string()
        } else if b == LEFT_PAREN {
            self.parse_ps_string()
        } else if b == LEFT_BRACKET {
            self.parse_array()
        } else if b == RIGHT_BRACKET {
            let word = slice_to_vec(slice_subrange(self.input, self.position, self.position + 1));
            self.position += 1;
            Token::Command(word)
        } else if b == SLASH {
            self.parse_name()
        } else {
            self.parse_token()
        }
    }

    /// Passes over white space and comments.
    pub fn skip_whitespace(&mut self)
        ensures
            final(self).input() == old(self).input(),
            final(self).position() == skip_blank(old(self).input(), old(self).position(), false),
    {
        proof {
            use_type_invariant(&*self);
        }
        let mut in_comment = false;
        let mut settled = false;
        while !settled && self.position < self.input.len()
            invariant
                self.input@ == old(self).input@,
                self.position <= self.input.len(),
                skip_blank(old(self).input@, old(self).position as int, false) == skip_blank(
                    self.input@,
                    self.position as int,
                    in_comment,
                ),
                settled ==> !in_comment && skip_blank(self.input@, self.position as int, false)
                    == self.position,
            decreases self.input.len() - self.position + (if settled { 0int } else { 1int }),
        {
            let b = self.input[self.position];
            if in_comment {
                in_comment = !(b == LINE_FEED || b == CARRIAGE_RETURN);
                self.position += 1;
            } else if space(b) {
                self.position += 1;
            } else if b == PERCENT {
                in_comment = true;
                self.position += 1;
            } else {
                settled = true;
            }
        }
    }

    /// Reads the token that starts with `<`: the command `<<`, or a string
    /// of hexadecimal digits.
    fn parse_hex_string(&mut self) -> (token: Token)
        requires
            old(self).position() < old(self).input().len(),
            old(self).input()[old(self).position()] == LESS,
        ensures
            final(self).input() == old(self).input(),
            (token@, final(self).position()) == hex_string_at(
                old(self).input(),
                old(self).position(),
            ),
    {
        let n = self.input.len();
        if self.position + 1 < n && self.input[self.position + 1] == LESS {
            let word = slice_to_vec(slice_subrange(self.input, self.position, self.position + 2));
            self.position += 2;
            return Token::Command(word);
        }
        self.position += 1;
        let ghost start = self.position as int;
        let mut digits: Vec<u8> = Vec::new();
        let mut closed = false;
        while !closed && self.position < self.input.len()
            invariant
                self.input@ == old(self).input@,
                start == old(self).position + 1,
                start <= self.position <= self.input.len(),
                !closed ==> hex_close(self.input@, start) == hex_close(
                    self.input@,
                    self.position as int,
                ) && digits@ == hex_digits(self.input@, start, self.position as int),
                closed ==> hex_close(self.input@, start) == self.position - 1 && digits@
                    == hex_digits(self.input@, start, self.position - 1),
            decreases self.input.len() - self.position,
        {
            let b = self.input[self.position];
            if b == GREATER {
                closed = true;
            } else if hex_digit(b) {
                digits.push(b);
            }
            self.position += 1;
        }
        Token::HexStr(hex_pairs(digits.as_slice()))
    }

    /// Reads the string that starts with `(`.
    fn parse_ps_string(&mut self) -> (token: Token)
        requires
            old(self).position() < old(self).input().len(),
            old(self).input()[old(self).position()] == LEFT_PAREN,
        ensures
            final(self).input() == old(self).input(),
            (token@, final(self).position()) == ps_string_at(
                old(self).input(),
                old(self).position(),
            ),
    {
        let n = self.input.len();
        self.position += 1;
        let ghost start = self.position as int;
        let mut text: Vec<u8> = Vec::new();
        let mut depth: usize = 1;
        while self.position < self.input.len() && depth > 0
            invariant
                self.input@ == old(self).input@,
                1 <= start <= self.position <= self.input.len(),
                depth <= self.position - start + 1,
                ps_scan(self.input@, start, 1, Seq::empty()) == ps_scan(
                    self.input@,
                    self.position as int,
                    depth as nat,
                    text@,
                ),
            decreases self.input.len() - self.position,
        {
            let b = self.input[self.position];
            if b == LEFT_PAREN {
                depth += 1;
                text.push(b);
                self.position += 1;
            } else if b == RIGHT_PAREN {
                depth -= 1;
                if depth > 0 {
                    text.push(b);
                }
                self.position += 1;
            } else if b == BACKSLASH {
                if self.position + 1 < self.input.len() {
                    text.push(b);
                    text.push(self.input[self.position + 1]);
                    self.position += 2;
                } else {
                    self.position += 1;
                }
            } else {
                text.push(b);
                self.position += 1;
            }
        }
        Token::Str(text)
    }

    /// Reads the command `[`.
    fn parse_array(&mut self) -> (token: Token)
        requires
            old(self).position() < old(self).input().len(),
        ensures
            final(self).input() == old(self).input(),
            token@ == Lexeme::Command(
                old(self).input().subrange(old(self).position(), old(self).position() + 1),
            ),
            final(self).position() == old(self).position() + 1,
    {
        let n = self.input.len();
        let word = slice_to_vec(slice_subrange(self.input, self.position, self.position + 1));
        self.position += 1;
        Token::Command(word)
    }

    /// Moves behind the run of bytes that are neither white space nor
    /// delimiters.
    fn skip_run(&mut self)
        ensures
            final(self).input() == old(self).input(),
            final(self).position() == run_end(old(self).input(), old(self).position()),
    {
        proof {
            use_type_invariant(&*self);
        }
        let mut ended = false;
        while !ended && self.position < self.input.len()
            invariant
                self.input@ == old(self).input@,
                self.position <= self.input.len(),
                run_end(old(self).input@, old(self).position as int) == run_end(
                    self.input@,
                    self.position as int,
                ),
                ended ==> run_end(self.input@, self.position as int) == self.position,
            decreases self.input.len() - self.position + (if ended { 0int } else { 1int }),
        {
            let b = self.input[self.position];
            if space(b) || delimiter(b) {
                ended = true;
            } else {
                self.position += 1;
            }
        }
    }

    /// Reads the name that starts with `/`.
    fn parse_name(&mut self) -> (token: Token)
        requires
            old(self).position() < old(self).input().len(),
        ensures
            final(self).input() == old(self).input(),
            (token@, final(self).position()) == name_at(old(self).input(), old(self).position()),
    {
        let n = self.input.len();
        self.position += 1;
        let start = self.position;
        proof {
            lemma_run_end_bounds(self.input@, start as int);
        }
        self.skip_run();
        Token::Name(slice_to_vec(slice_subrange(self.input, start, self.position)))
    }

    /// Reads a word: an integer or a command.
    fn parse_token(&mut self) -> (token: Token)
        ensures
            final(self).input() == old(self).input(),
            (token@, final(self).position()) == word_at(old(self).input(), old(self).position()),
    {
        let start = self.position;
        proof {
            use_type_invariant(&*self);
            lemma_run_end_bounds(self.input@, start as int);
        }
        self.skip_run();
        if self.position == start {
            return Token::Eof;
        }
        let word = slice_subrange(self.input, start, self.position);
        match parse_integer(word) {
            Some(i) => Token::Integer(i),
            None => Token::Command(slice_to_vec(word)),
        }
    }
}

} // verus!
