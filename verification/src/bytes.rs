//! Byte strings read as numbers, most significant byte first.

use vstd::prelude::*;
use vstd::string::StringSliceAdditionalSpecFns;

verus! {

/// 256 to the power `n`.
pub open spec fn pow256(n: nat) -> nat
    decreases n,
{
    if n == 0 {
        1
    } else {
        256 * pow256((n - 1) as nat)
    }
}

/// The number that `bytes` spell in base 256, most significant byte first.
pub open spec fn be_value(bytes: Seq<u8>) -> nat
    decreases bytes.len(),
{
    if bytes.len() == 0 {
        0
    } else {
        be_value(bytes.drop_last()) * 256 + bytes.last() as nat
    }
}

/// The `n` bytes that spell the low `n` bytes of `x`, most significant byte
/// first.
pub open spec fn be_bytes(x: nat, n: nat) -> Seq<u8>
    decreases n,
{
    if n == 0 {
        Seq::empty()
    } else {
        be_bytes(x / 256, (n - 1) as nat).push((x % 256) as u8)
    }
}

/// The 32-bit code of a byte string: every byte shifts the code left by
/// eight bits and fills the low eight, so only the last four bytes remain.
pub open spec fn pack(bytes: Seq<u8>) -> u32 {
    (be_value(bytes) % 0x1_0000_0000) as u32
}

/// The code point of the first character of a destination string, where a
/// character is one byte; 0 for the empty string.
pub open spec fn first_char(bytes: Seq<u8>) -> u32 {
    if bytes.len() == 0 {
        0
    } else {
        bytes[0] as u32
    }
}

/// A power of 256 is at least 1.
pub proof fn lemma_pow256_positive(n: nat)
    ensures
        pow256(n) >= 1,
    decreases n,
{
    if n > 0 {
        lemma_pow256_positive((n - 1) as nat);
    }
}

/// Powers of 256 multiply as their exponents add.
pub proof fn lemma_pow256_adds(a: nat, b: nat)
    ensures
        pow256(a + b) == pow256(a) * pow256(b),
    decreases a,
{
    if a == 0 {
        assert(1 * pow256(b) == pow256(b)) by (nonlinear_arith);
    } else {
        lemma_pow256_adds((a - 1) as nat, b);
        assert(256 * (pow256((a - 1) as nat) * pow256(b)) == (256 * pow256((a - 1) as nat))
            * pow256(b)) by (nonlinear_arith);
    }
}

/// The powers of 256 up to the fourth.
pub proof fn lemma_pow256_small()
    ensures
        pow256(0) == 1,
        pow256(1) == 0x100,
        pow256(2) == 0x1_0000,
        pow256(3) == 0x100_0000,
        pow256(4) == 0x1_0000_0000,
{
    reveal_with_fuel(pow256, 5);
}

/// One more byte at the end is one more digit of the number.
pub proof fn lemma_be_value_push(bytes: Seq<u8>, b: u8)
    ensures
        be_value(bytes.push(b)) == be_value(bytes) * 256 + b as nat,
{
    assert(bytes.push(b).drop_last() =~= bytes);
}

/// A number of `n` bytes is less than 256 to the power `n`.
pub proof fn lemma_be_value_bound(bytes: Seq<u8>)
    ensures
        be_value(bytes) < pow256(bytes.len()),
    decreases bytes.len(),
{
    if bytes.len() > 0 {
        lemma_be_value_bound(bytes.drop_last());
    }
}

/// A leading byte weighs 256 to the number of bytes behind it.
pub proof fn lemma_be_value_prepend(b: u8, rest: Seq<u8>)
    ensures
        be_value(seq![b] + rest) == b as nat * pow256(rest.len()) + be_value(rest),
    decreases rest.len(),
{
    let whole = seq![b] + rest;
    if rest.len() == 0 {
        assert(whole.drop_last() =~= Seq::<u8>::empty());
        assert(be_value(Seq::<u8>::empty()) == 0);
        assert(whole.last() == b);
        assert(be_value(whole) == b as nat);
        assert(b as nat * pow256(0) == b as nat) by (nonlinear_arith)
            requires
                pow256(0) == 1,
        ;
    } else {
        let shorter = rest.drop_last();
        let weight = pow256(shorter.len());
        assert(whole.drop_last() =~= seq![b] + shorter);
        assert(whole.last() == rest.last());
        lemma_be_value_prepend(b, shorter);
        assert(be_value(whole) == (b as nat * weight + be_value(shorter)) * 256 + rest.last() as nat);
        assert(pow256(rest.len()) == 256 * weight);
        assert((b as nat * weight + be_value(shorter)) * 256 == b as nat * (256 * weight)
            + be_value(shorter) * 256) by (nonlinear_arith);
    }
}

/// The number of two strings joined: the first weighs 256 to the length of
/// the second.
pub proof fn lemma_be_value_concat(front: Seq<u8>, back: Seq<u8>)
    ensures
        be_value(front + back) == be_value(front) * pow256(back.len()) + be_value(back),
    decreases back.len(),
{
    if back.len() == 0 {
        assert(front + back =~= front);
        assert(be_value(front) * pow256(0) == be_value(front)) by (nonlinear_arith)
            requires
                pow256(0) == 1,
        ;
    } else {
        let shorter = back.drop_last();
        let weight = pow256(shorter.len());
        assert((front + back).drop_last() =~= front + shorter);
        assert((front + back).last() == back.last());
        lemma_be_value_concat(front, shorter);
        assert(pow256(back.len()) == 256 * weight);
        assert((be_value(front) * weight + be_value(shorter)) * 256 == be_value(front) * (256
            * weight) + be_value(shorter) * 256) by (nonlinear_arith);
    }
}

/// One more byte of a window of `s` is one more digit of its number.
pub proof fn lemma_be_value_extend(s: Seq<u8>, from: int, to: int)
    requires
        0 <= from <= to < s.len(),
    ensures
        be_value(s.subrange(from, to + 1)) == be_value(s.subrange(from, to)) * 256 + s[to] as nat,
{
    assert(s.subrange(from, to + 1).drop_last() =~= s.subrange(from, to));
}

/// The bytes of a number are as many as were asked for.
pub proof fn lemma_be_bytes_len(x: nat, n: nat)
    ensures
        be_bytes(x, n).len() == n,
    decreases n,
{
    if n > 0 {
        lemma_be_bytes_len(x / 256, (n - 1) as nat);
    }
}

/// The bytes of a number spell the number again, as far as they reach.
pub proof fn lemma_be_bytes_value(x: nat, n: nat)
    ensures
        be_value(be_bytes(x, n)) == x % pow256(n),
    decreases n,
{
    if n > 0 {
        let shorter = (n - 1) as nat;
        lemma_be_bytes_value(x / 256, shorter);
        lemma_be_value_push(be_bytes(x / 256, shorter), (x % 256) as u8);
        lemma_pow256_positive(shorter);
        let high = (x / 256) % pow256(shorter);
        let q = (x / 256) / pow256(shorter);
        vstd::arithmetic::div_mod::lemma_fundamental_div_mod(
            (x / 256) as int,
            pow256(shorter) as int,
        );
        assert(x == (q * pow256(shorter) + high) * 256 + x % 256) by (nonlinear_arith)
            requires
                x / 256 == pow256(shorter) * q + high,
        ;
        assert(x == q * (256 * pow256(shorter)) + (high * 256 + x % 256)) by (nonlinear_arith)
            requires
                x == (q * pow256(shorter) + high) * 256 + x % 256,
        ;
        assert(high * 256 + x % 256 < 256 * pow256(shorter)) by (nonlinear_arith)
            requires
                high < pow256(shorter),
                x % 256 < 256,
        ;
        vstd::arithmetic::div_mod::lemma_fundamental_div_mod_converse(
            x as int,
            pow256(n) as int,
            q as int,
            (high * 256 + x % 256) as int,
        );
    }
}

/// The first `m` of the `n` bytes of a number are the bytes of the number
/// without its last `n - m` bytes.
pub proof fn lemma_be_bytes_prefix(x: nat, n: nat, m: nat)
    requires
        m <= n,
    ensures
        be_bytes(x, n).subrange(0, m as int) == be_bytes(x / pow256((n - m) as nat), m),
    decreases n - m,
{
    lemma_be_bytes_len(x, n);
    if m == n {
        assert(be_bytes(x, n).subrange(0, m as int) =~= be_bytes(x, n));
    } else {
        let shorter = (n - 1) as nat;
        lemma_be_bytes_len(x / 256, shorter);
        lemma_be_bytes_prefix(x / 256, shorter, m);
        assert(be_bytes(x, n).subrange(0, m as int) =~= be_bytes(x / 256, shorter).subrange(
            0,
            m as int,
        ));
        lemma_pow256_positive((shorter - m) as nat);
        vstd::arithmetic::div_mod::lemma_div_denominator(
            x as int,
            256,
            pow256((shorter - m) as nat) as int,
        );
    }
}

/// The code of a byte string with one more byte follows from the code of
/// the string alone.
pub proof fn lemma_pack_push(bytes: Seq<u8>, b: u8)
    ensures
        pack(bytes.push(b)) == (pack(bytes) as int * 256 + b as int) % 0x1_0000_0000,
{
    lemma_be_value_push(bytes, b);
}

/// Shifts one more byte into a code.
pub fn shift_in(code: u32, b: u8) -> (next: u32)
    ensures
        next == (code as int * 256 + b as int) % 0x1_0000_0000,
{
    assert((code << 8) | (b as u32) == ((code as u64 * 256 + b as u64) % 0x1_0000_0000) as u32)
        by (bit_vector);
    (code << 8) | (b as u32)
}

/// Packs a byte string into its 32-bit code.
pub fn pack_bytes(bytes: &[u8]) -> (code: u32)
    ensures
        code == pack(bytes@),
{
    let mut code: u32 = 0;
    let mut i: usize = 0;
    while i < bytes.len()
        invariant
            i <= bytes.len(),
            code == pack(bytes@.subrange(0, i as int)),
        decreases bytes.len() - i,
    {
        proof {
            lemma_pack_push(bytes@.subrange(0, i as int), bytes@[i as int]);
            assert(bytes@.subrange(0, i + 1) =~= bytes@.subrange(0, i as int).push(bytes@[i as int]));
        }
        code = shift_in(code, bytes[i]);
        i += 1;
    }
    assert(bytes@.subrange(0, i as int) =~= bytes@);
    code
}

/// Whether `bytes` are the bytes of `word`.
pub fn bytes_are(bytes: &[u8], word: &str) -> (same: bool)
    ensures
        same == (bytes@ == word.spec_bytes()),
{
    let other = word.as_bytes();
    if other.len() != bytes.len() {
        return false;
    }
    let mut i: usize = 0;
    while i < bytes.len()
        invariant
            i <= bytes.len(),
            other.len() == bytes.len(),
            other@ == word.spec_bytes(),
            bytes@.subrange(0, i as int) == other@.subrange(0, i as int),
        decreases bytes.len() - i,
    {
        if bytes[i] != other[i] {
            return false;
        }
        assert(bytes@.subrange(0, i + 1) =~= bytes@.subrange(0, i as int).push(bytes@[i as int]));
        assert(other@.subrange(0, i + 1) =~= other@.subrange(0, i as int).push(other@[i as int]));
        i += 1;
    }
    assert(bytes@.subrange(0, i as int) =~= bytes@);
    assert(other@.subrange(0, i as int) =~= other@);
    true
}

} // verus!
