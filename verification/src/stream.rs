//! The byte stream of a binary character map and its number formats.

use crate::bytes::{
    be_value, lemma_be_value_bound, lemma_be_value_extend, lemma_be_value_prepend, pow256,
};
use crate::hex::{field, field_value};
use vstd::arithmetic::power2::{lemma2_to64, lemma_pow2_adds, pow2};
use vstd::prelude::*;

verus! {

/// The longest number, in bytes, that a record may hold.
pub const MAX_NUM_SIZE: usize = 16;

/// The most seven-bit groups of a multi-byte number that are kept.
pub const MAX_ENCODED_NUM_SIZE: usize = 16;

/// 128 to the power `n`.
pub open spec fn pow128(n: nat) -> nat
    decreases n,
{
    if n == 0 {
        1
    } else {
        128 * pow128((n - 1) as nat)
    }
}

/// The number that the low seven bits of `bytes` spell in base 128, most
/// significant group first.
pub open spec fn base128_value(bytes: Seq<u8>) -> nat
    decreases bytes.len(),
{
    if bytes.len() == 0 {
        0
    } else {
        base128_value(bytes.drop_last()) * 128 + (bytes.last() % 128) as nat
    }
}

/// Where the number that starts at `pos` ends: behind the first byte from
/// `pos` on whose top bit is clear.  `None` where the data end before.
pub open spec fn number_end(data: Seq<u8>, pos: int) -> Option<int>
    decreases data.len() - pos,
{
    if pos < 0 || pos >= data.len() {
        None
    } else if data[pos] < 0x80 {
        Some(pos + 1)
    } else {
        number_end(data, pos + 1)
    }
}

/// The 32-bit number at `pos` and where it ends.
pub open spec fn number_at(data: Seq<u8>, pos: int) -> Option<(u32, int)> {
    match number_end(data, pos) {
        Some(end) => Some(((base128_value(data.subrange(pos, end)) % 0x1_0000_0000) as u32, end)),
        None => None,
    }
}

/// The signed number that `n` stands for: an even `n` is `n / 2`, an odd
/// one is `-(n / 2) - 1`.
pub open spec fn zigzag(n: u32) -> i32 {
    if n % 2 == 1 {
        (-(n / 2) - 1) as i32
    } else {
        (n / 2) as i32
    }
}

/// The signed 32-bit number at `pos` and where it ends.
pub open spec fn signed_at(data: Seq<u8>, pos: int) -> Option<(i32, int)> {
    match number_at(data, pos) {
        Some((n, end)) => Some((zigzag(n), end)),
        None => None,
    }
}

/// The `size + 1` raw bytes at `pos` and where they end.
pub open spec fn raw_at(data: Seq<u8>, pos: int, size: int) -> Option<(Seq<u8>, int)> {
    if 0 <= pos && pos + size + 1 <= data.len() {
        Some((data.subrange(pos, pos + size + 1), pos + size + 1))
    } else {
        None
    }
}

/// The groups of the number in `data[pos..end]` that are kept: the first
/// `MAX_ENCODED_NUM_SIZE` of them.
pub open spec fn kept_groups(data: Seq<u8>, pos: int, end: int) -> Seq<u8> {
    if end - pos <= MAX_ENCODED_NUM_SIZE {
        data.subrange(pos, end)
    } else {
        data.subrange(pos, pos + MAX_ENCODED_NUM_SIZE)
    }
}

/// The number of `size + 1` bytes at `pos`, written in groups of seven
/// bits, and where it ends.  What does not fit in `size + 1` bytes is lost.
pub open spec fn wide_at(data: Seq<u8>, pos: int, size: int) -> Option<(nat, int)> {
    match number_end(data, pos) {
        Some(end) => Some(
            (base128_value(kept_groups(data, pos, end)) % pow256((size + 1) as nat), end),
        ),
        None => None,
    }
}

/// The number of `size + 1` bytes that `n` stands for when its lowest bit is
/// a sign: an even `n` is `n / 2`; an odd one is `-(n / 2) - 1`, held as the
/// complement of `n / 2` in `size + 1` bytes.
pub open spec fn wide_zigzag(n: nat, size: int) -> nat {
    if n % 2 == 1 {
        (pow256((size + 1) as nat) - 1 - n / 2) as nat
    } else {
        n / 2
    }
}

/// The signed number of `size + 1` bytes at `pos` and where it ends.
pub open spec fn wide_signed_at(data: Seq<u8>, pos: int, size: int) -> Option<(nat, int)> {
    match wide_at(data, pos, size) {
        Some((n, end)) => Some((wide_zigzag(n, size), end)),
        None => None,
    }
}

/// The rest of a string of which `count` numbers are still to be read at
/// `pos`: each number up to 255 is one more byte behind `text`.
pub open spec fn string_from(data: Seq<u8>, pos: int, count: nat, text: Seq<u8>) -> Option<
    (Seq<u8>, int),
>
    decreases count,
{
    if count == 0 {
        Some((text, pos))
    } else {
        match number_at(data, pos) {
            Some((n, end)) => string_from(
                data,
                end,
                (count - 1) as nat,
                if n <= 0xff {
                    text.push(n as u8)
                } else {
                    text
                },
            ),
            None => None,
        }
    }
}

/// The string at `pos`, which starts with the count of its numbers, and
/// where it ends.
pub open spec fn string_at(data: Seq<u8>, pos: int) -> Option<(Seq<u8>, int)> {
    match number_at(data, pos) {
        Some((count, end)) => string_from(data, end, count as nat, Seq::empty()),
        None => None,
    }
}

/// What a reader says when the data end inside a number.
pub open spec fn eof_text() -> Seq<char> {
    "unexpected EOF in bcmap"@
}

/// One more byte at the end is one more group of the number.
pub proof fn lemma_base128_push(bytes: Seq<u8>, b: u8)
    ensures
        base128_value(bytes.push(b)) == base128_value(bytes) * 128 + (b % 128) as nat,
{
    assert(bytes.push(b).drop_last() =~= bytes);
}

/// The low 32 bits of a number with one more group follow from the low 32
/// bits of the number alone.
pub proof fn lemma_base128_push_low(bytes: Seq<u8>, b: u8)
    ensures
        base128_value(bytes.push(b)) % 0x1_0000_0000 == ((base128_value(bytes) % 0x1_0000_0000)
            * 128 + (b % 128) as nat) % 0x1_0000_0000,
{
    lemma_base128_push(bytes, b);
}

/// The number of two runs of groups joined: the first weighs 128 to the
/// length of the second.
pub proof fn lemma_base128_concat(front: Seq<u8>, back: Seq<u8>)
    ensures
        base128_value(front + back) == base128_value(front) * pow128(back.len()) + base128_value(
            back,
        ),
    decreases back.len(),
{
    if back.len() == 0 {
        assert(front + back =~= front);
        assert(base128_value(front) * pow128(0) == base128_value(front)) by (nonlinear_arith)
            requires
                pow128(0) == 1,
        ;
    } else {
        let shorter = back.drop_last();
        let weight = pow128(shorter.len());
        assert((front + back).drop_last() =~= front + shorter);
        assert((front + back).last() == back.last());
        lemma_base128_concat(front, shorter);
        assert(pow128(back.len()) == 128 * weight);
        assert((base128_value(front) * weight + base128_value(shorter)) * 128 == base128_value(
            front,
        ) * (128 * weight) + base128_value(shorter) * 128) by (nonlinear_arith);
    }
}

/// Only the low seven bits of each byte count.
pub proof fn lemma_base128_masked(bytes: Seq<u8>, groups: Seq<u8>)
    requires
        groups.len() == bytes.len(),
        forall|j: int| 0 <= j < bytes.len() ==> groups[j] == bytes[j] % 128,
    ensures
        base128_value(groups) == base128_value(bytes),
    decreases bytes.len(),
{
    if bytes.len() > 0 {
        lemma_base128_masked(bytes.drop_last(), groups.drop_last());
    }
}

/// Where a number ends does not depend on where in it one starts.
pub proof fn lemma_number_end_skip(data: Seq<u8>, start: int, pos: int)
    requires
        0 <= start <= pos <= data.len(),
        forall|j: int| start <= j < pos ==> data[j] >= 0x80,
    ensures
        number_end(data, start) == number_end(data, pos),
    decreases pos - start,
{
    if start < pos {
        lemma_number_end_skip(data, start + 1, pos);
    }
}

/// A number ends behind where it starts, within the data.
pub proof fn lemma_number_end_bounds(data: Seq<u8>, pos: int)
    ensures
        number_end(data, pos) matches Some(end) ==> 0 <= pos < end <= data.len(),
    decreases data.len() - pos,
{
    if 0 <= pos < data.len() && data[pos] >= 0x80 {
        lemma_number_end_bounds(data, pos + 1);
    }
}

/// The error of a read past the end of the data.
pub fn eof_error() -> (e: String)
    ensures
        e@ == eof_text(),
{
    "unexpected EOF in bcmap".to_owned()
}

/// A cursor over the bytes of a binary character map.
pub struct BinaryCMapStream {
    buffer: Vec<u8>,
    pos: usize,
}

impl BinaryCMapStream {
    /// The cursor never passes the end of the data.
    #[verifier::type_invariant]
    spec fn within_data(&self) -> bool {
        self.pos <= self.buffer.len()
    }

    /// The bytes of the stream.
    pub closed spec fn data(&self) -> Seq<u8> {
        self.buffer@
    }

    /// How many bytes have been read.
    pub closed spec fn position(&self) -> int {
        self.pos as int
    }

    /// A stream over `data`, at its first byte.
    pub fn new(data: Vec<u8>) -> (stream: Self)
        ensures
            stream.data() == data@,
            stream.position() == 0,
    {
        BinaryCMapStream { buffer: data, pos: 0 }
    }

    /// The next byte, or -1 at the end of the data.
    pub fn read_byte(&mut self) -> (b: i32)
        ensures
            final(self).data() == old(self).data(),
            old(self).position() < old(self).data().len() ==> b == old(self).data()[old(self).position()] && final(self).position() == old(self).position() + 1,
            old(self).position() >= old(self).data().len() ==> b == -1 && final(self).position()
                == old(self).position(),
    {
        proof {
            use_type_invariant(&*self);
        }
        if self.pos >= self.buffer.len() {
            return -1;
        }
        let b = self.buffer[self.pos] as i32;
        self.pos += 1;
        b
    }

    /// Reads an unsigned number: seven bits from each byte, most significant
    /// first, up to the first byte whose top bit is clear.  Bits beyond 32
    /// are lost.
    pub fn read_number(&mut self) -> (r: Result<u32, String>)
        ensures
            final(self).data() == old(self).data(),
            match number_at(old(self).data(), old(self).position()) {
                Some((n, end)) => r == Ok::<u32, String>(n) && final(self).position() == end,
                None => r is Err && r->Err_0@ == eof_text() && final(self).position() == old(self).data().len(),
            },
    {
        let ghost start = self.pos as int;
        let mut n: u32 = 0;
        proof {
            use_type_invariant(&*self);
            assert(self.buffer@.subrange(start, start) =~= Seq::<u8>::empty());
        }
        loop
            invariant
                self.buffer@ == old(self).buffer@,
                start == old(self).pos,
                start <= self.pos,
                self.pos <= self.buffer.len(),
                forall|j: int| start <= j < self.pos ==> self.buffer@[j] >= 0x80,
                n == base128_value(self.buffer@.subrange(start, self.pos as int)) % 0x1_0000_0000,
            decreases self.buffer.len() - self.pos,
        {
            let ghost at = self.pos as int;
            let b = self.read_byte();
            if b < 0 {
                proof {
                    lemma_number_end_skip(self.buffer@, start, at);
                }
                return Err(eof_error());
            }
            let byte = b as u8;
            let ghost seen = self.buffer@.subrange(start, at);
            assert((n << 7) | ((byte & 0x7f) as u32) == ((n as u64 * 128 + (byte % 128) as u64)
                % 0x1_0000_0000) as u32) by (bit_vector);
            n = (n << 7) | ((byte & 0x7f) as u32);
            proof {
                lemma_base128_push_low(seen, byte);
                assert(self.buffer@.subrange(start, at + 1) =~= seen.push(byte));
            }
            if byte < 0x80 {
                proof {
                    lemma_number_end_skip(self.buffer@, start, at);
                }
                return Ok(n);
            }
        }
    }

    /// Reads a signed number: an unsigned one whose lowest bit is the sign.
    pub fn read_signed(&mut self) -> (r: Result<i32, String>)
        ensures
            final(self).data() == old(self).data(),
            match signed_at(old(self).data(), old(self).position()) {
                Some((n, end)) => r == Ok::<i32, String>(n) && final(self).position() == end,
                None => r is Err && r->Err_0@ == eof_text() && final(self).position() == old(self).data().len(),
            },
    {
        match self.read_number() {
            Ok(n) => {
                if n % 2 == 1 {
                    Ok(-((n / 2) as i32) - 1)
                } else {
                    Ok((n / 2) as i32)
                }
            },
            Err(e) => Err(e),
        }
    }

    /// Copies the next `size + 1` bytes into the front of `num`.  Nothing is
    /// read or written where fewer bytes are left.
    pub fn read_hex(&mut self, num: &mut Vec<u8>, size: usize) -> (r: Result<(), String>)
        requires
            size < old(num).len(),
        ensures
            final(self).data() == old(self).data(),
            final(num).len() == old(num).len(),
            forall|j: int| size < j < old(num).len() ==> final(num)@[j] == old(num)@[j],
            match raw_at(old(self).data(), old(self).position(), size as int) {
                Some((bytes, end)) => r is Ok && field(final(num)@, size as int) == bytes && final(self).position() == end,
                None => r is Err && r->Err_0@ == eof_text() && final(num)@ == old(num)@ && final(self).position() == old(self).position(),
            },
    {
        proof {
            use_type_invariant(&*self);
        }
        if self.buffer.len() - self.pos <= size {
            return Err(eof_error());
        }
        let mut i: usize = 0;
        while i <= size
            invariant
                i <= size + 1,
                size < num.len(),
                num.len() == old(num).len(),
                self.pos + size < self.buffer.len(),
                num@.subrange(0, i as int) == self.buffer@.subrange(
                    self.pos as int,
                    self.pos + i,
                ),
                forall|j: int| size < j < num.len() ==> num@[j] == old(num)@[j],
            decreases size + 1 - i,
        {
            let ghost before = num@;
            num[i] = self.buffer[self.pos + i];
            assert(num@.subrange(0, i + 1) =~= before.subrange(0, i as int).push(
                self.buffer@[self.pos + i],
            ));
            assert(self.buffer@.subrange(self.pos as int, self.pos + i + 1)
                =~= self.buffer@.subrange(self.pos as int, self.pos + i).push(
                self.buffer@[self.pos + i],
            ));
            i += 1;
        }
        self.pos += size + 1;
        Ok(())
    }

    /// Reads a number of `size + 1` bytes that is written in groups of seven
    /// bits, and stores it in the front of `num`, most significant byte
    /// first.
    ///
    /// The groups are stacked as they come, the first `MAX_ENCODED_NUM_SIZE`
    /// of them, and then taken from the top, seven bits at a time, to fill
    /// the bytes from `num[size]` down to `num[0]`.
    pub fn read_hex_number(&mut self, num: &mut Vec<u8>, size: usize) -> (r: Result<(), String>)
        requires
            size < old(num).len(),
        ensures
            final(self).data() == old(self).data(),
            final(num).len() == old(num).len(),
            forall|j: int| size < j < old(num).len() ==> final(num)@[j] == old(num)@[j],
            match wide_at(old(self).data(), old(self).position(), size as int) {
                Some((value, end)) => r is Ok && field_value(final(num)@, size as int) == value
                    && final(self).position() == end,
                None => r is Err && r->Err_0@ == eof_text() && final(num)@ == old(num)@ && final(self).position() == old(self).data().len(),
            },
    {
        let ghost start = self.pos as int;
        let mut stack = [0u8; 16];
        let mut sp: usize = 0;
        proof {
            use_type_invariant(&*self);
        }
        loop
            invariant_except_break
                forall|j: int| start <= j < self.pos ==> self.buffer@[j] >= 0x80,
            invariant
                self.buffer@ == old(self).buffer@,
                start == old(self).pos,
                start <= self.pos <= self.buffer.len(),
                num@ == old(num)@,
                sp <= MAX_ENCODED_NUM_SIZE,
                sp == self.pos - start || (sp == MAX_ENCODED_NUM_SIZE && self.pos - start
                    > MAX_ENCODED_NUM_SIZE),
                forall|j: int| 0 <= j < sp ==> stack@[j] == self.buffer@[start + j] % 128,
            ensures
                self.buffer@ == old(self).buffer@,
                start == old(self).pos,
                start < self.pos <= self.buffer.len(),
                num@ == old(num)@,
                number_end(self.buffer@, start) == Some(self.pos as int),
                sp == kept_groups(self.buffer@, start, self.pos as int).len(),
                forall|j: int| 0 <= j < sp ==> stack@[j] == self.buffer@[start + j] % 128,
            decreases self.buffer.len() - self.pos,
        {
            let ghost at = self.pos as int;
            let b = self.read_byte();
            if b < 0 {
                proof {
                    lemma_number_end_skip(self.buffer@, start, at);
                }
                return Err(eof_error());
            }
            let byte = b as u8;
            if sp < MAX_ENCODED_NUM_SIZE {
                assert(byte & 0x7f == byte % 128) by (bit_vector);
                stack[sp] = byte & 0x7f;
                sp += 1;
            }
            if byte < 0x80 {
                proof {
                    lemma_number_end_skip(self.buffer@, start, at);
                }
                break ;
            }
        }
        let ghost groups = stack@.subrange(0, sp as int);
        let ghost count = sp as int;
        let ghost value = base128_value(groups);
        proof {
            lemma_base128_masked(kept_groups(self.buffer@, start, self.pos as int), groups);
            lemma2_to64();
            assert(groups.subrange(count, count) =~= Seq::<u8>::empty());
            assert(num@.subrange(size + 1, size + 1) =~= Seq::<u8>::empty());
            assert(0nat * pow256(0) == 0) by (nonlinear_arith);
        }
        let mut k: usize = size + 1;
        let mut bits: u32 = 0;
        let mut pending: u32 = 0;
        while k > 0
            invariant
                self.buffer@ == old(self).buffer@,
                self.pos <= self.buffer.len(),
                k <= size + 1,
                size < num.len(),
                num.len() == old(num).len(),
                count == groups.len(),
                count <= MAX_ENCODED_NUM_SIZE,
                sp <= count,
                forall|j: int| 0 <= j < count ==> groups[j] < 128 && stack@[j] == groups[j],
                bits <= 14,
                pending < pow2(bits as nat),
                base128_value(groups.subrange(sp as int, count)) == pending * pow256(
                    (size + 1 - k) as nat,
                ) + be_value(num@.subrange(k as int, size + 1)),
                sp == 0 || pow128((count - sp) as nat) == pow2(bits as nat) * pow256(
                    (size + 1 - k) as nat,
                ),
                forall|j: int| 0 <= j < k ==> num@[j] == old(num)@[j],
                forall|j: int| size < j < num.len() ==> num@[j] == old(num)@[j],
            decreases k,
        {
            while bits < 8 && sp > 0
                invariant
                    self.buffer@ == old(self).buffer@,
                    self.pos <= self.buffer.len(),
                    0 < k <= size + 1,
                    size < num.len(),
                    num.len() == old(num).len(),
                    count == groups.len(),
                    count <= MAX_ENCODED_NUM_SIZE,
                    sp <= count,
                    forall|j: int| 0 <= j < count ==> groups[j] < 128 && stack@[j] == groups[j],
                    bits <= 14,
                    pending < pow2(bits as nat),
                    base128_value(groups.subrange(sp as int, count)) == pending * pow256(
                        (size + 1 - k) as nat,
                    ) + be_value(num@.subrange(k as int, size + 1)),
                    sp == 0 || pow128((count - sp) as nat) == pow2(bits as nat) * pow256(
                        (size + 1 - k) as nat,
                    ),
                    forall|j: int| 0 <= j < k ==> num@[j] == old(num)@[j],
                    forall|j: int| size < j < num.len() ==> num@[j] == old(num)@[j],
                decreases sp,
            {
                let ghost top = sp as int;
                let ghost scale = pow256((size + 1 - k) as nat);
                let ghost low = pow2(bits as nat);
                let ghost done = be_value(num@.subrange(k as int, size + 1));
                sp -= 1;
                let g = stack[sp];
                proof {
                    assert(g == groups[top - 1]);
                    assert(groups[top - 1] < 128);
                    lemma2_to64();
                    lemma_pow2_adds(bits as nat, 7);
                    vstd::bits::lemma_u32_shl_is_mul(1, bits);
                    assert(pending | ((g as u32) << bits) == pending + (g as u32) * (1u32 << bits))
                        by (bit_vector)
                        requires
                            bits < 8,
                            g < 128,
                            pending < (1u32 << bits),
                    ;
                    assert(pending + g as nat * low < 128 * low) by (nonlinear_arith)
                        requires
                            pending < low,
                            g < 128,
                    ;
                    // The group that comes off the stack weighs what the
                    // groups below it in the number weigh.
                    let below = groups.subrange(top, count);
                    assert(groups.subrange(top - 1, count) =~= seq![g] + below);
                    lemma_base128_concat(seq![g], below);
                    assert(seq![g].drop_last() =~= Seq::<u8>::empty());
                    assert(base128_value(Seq::<u8>::empty()) == 0);
                    assert(base128_value(seq![g]) == g as nat);
                    assert(pow128((count - top + 1) as nat) == 128 * pow128((count - top) as nat));
                    let weight = pow128((count - top) as nat);
                    assert(weight == low * scale);
                    assert(g as nat * weight + (pending * scale + done) == (pending + g as nat
                        * low) * scale + done) by (nonlinear_arith)
                        requires
                            weight == low * scale,
                    ;
                    assert(128 * weight == (128 * low) * scale) by (nonlinear_arith)
                        requires
                            weight == low * scale,
                    ;
                }
                pending = pending | ((g as u32) << bits);
                bits += 7;
            }
            let ghost before = num@;
            let ghost scale = pow256((size + 1 - k) as nat);
            let ghost low = pow2(bits as nat);
            let ghost done = be_value(num@.subrange(k as int, size + 1));
            let ghost was_pending = pending;
            let ghost was_bits = bits;
            k -= 1;
            assert(pending & 255 == pending % 256) by (bit_vector);
            assert(pending >> 8 == pending / 256) by (bit_vector);
            num[k] = (pending & 255) as u8;
            pending = pending >> 8;
            bits = if bits >= 8 {
                bits - 8
            } else {
                0
            };
            proof {
                lemma2_to64();
                let byte = (was_pending % 256) as u8;
                assert(num@.subrange(k + 1, size + 1) =~= before.subrange(k + 1, size + 1));
                assert(num@.subrange(k as int, size + 1) =~= seq![byte] + num@.subrange(
                    k + 1,
                    size + 1,
                ));
                lemma_be_value_prepend(byte, num@.subrange(k + 1, size + 1));
                assert(pow256((size + 1 - k) as nat) == 256 * scale);
                assert(pending * (256 * scale) + (byte as nat * scale + done) == was_pending
                    * scale + done) by (nonlinear_arith)
                    requires
                        was_pending == 256 * pending + byte,
                ;
                if was_bits >= 8 {
                    lemma_pow2_adds(bits as nat, 8);
                    assert(low == 256 * pow2(bits as nat));
                    assert(low * scale == pow2(bits as nat) * (256 * scale)) by (nonlinear_arith)
                        requires
                            low == 256 * pow2(bits as nat),
                    ;
                } else {
                    assert(sp == 0);
                    vstd::arithmetic::power2::lemma_pow2_strictly_increases(was_bits as nat, 8);
                }
            }
        }
        proof {
            let top = sp as int;
            let modulus = pow256((size + 1) as nat);
            let stored = field_value(num@, size as int);
            let above = base128_value(groups.subrange(0, top));
            let below = base128_value(groups.subrange(top, count));
            assert(groups =~= groups.subrange(0, top) + groups.subrange(top, count));
            lemma_base128_concat(groups.subrange(0, top), groups.subrange(top, count));
            lemma_be_value_bound(field(num@, size as int));
            assert(base128_value(Seq::<u8>::empty()) == 0);
            let weight = pow128((count - top) as nat);
            let low = pow2(bits as nat);
            assert(value == above * weight + below);
            if top == 0 {
                assert(above == 0);
                assert(above * weight == 0) by (nonlinear_arith)
                    requires
                        above == 0,
                ;
                vstd::arithmetic::div_mod::lemma_fundamental_div_mod_converse(
                    value as int,
                    modulus as int,
                    pending as int,
                    stored as int,
                );
            } else {
                assert(above * weight + (pending * modulus + stored) == (above * low + pending)
                    * modulus + stored) by (nonlinear_arith)
                    requires
                        weight == low * modulus,
                ;
                vstd::arithmetic::div_mod::lemma_fundamental_div_mod_converse(
                    value as int,
                    modulus as int,
                    (above * low + pending) as int,
                    stored as int,
                );
            }
        }
        Ok(())
    }

    /// Reads a signed number of `size + 1` bytes: one written in groups of
    /// seven bits whose lowest bit is the sign.  The number is halved in
    /// place, each byte taking the lowest bit of the byte before it as its
    /// highest, and every bit is turned over where the sign was set.
    pub fn read_hex_signed(&mut self, num: &mut Vec<u8>, size: usize) -> (r: Result<(), String>)
        requires
            size < old(num).len(),
        ensures
            final(self).data() == old(self).data(),
            final(num).len() == old(num).len(),
            forall|j: int| size < j < old(num).len() ==> final(num)@[j] == old(num)@[j],
            match wide_signed_at(old(self).data(), old(self).position(), size as int) {
                Some((value, end)) => r is Ok && field_value(final(num)@, size as int) == value
                    && final(self).position() == end,
                None => r is Err && r->Err_0@ == eof_text() && final(num)@ == old(num)@ && final(self).position() == old(self).data().len(),
            },
    {
        match self.read_hex_number(num, size) {
            Ok(()) => {},
            Err(e) => {
                return Err(e);
            },
        }
        let ghost read = num@;
        let ghost whole = field_value(read, size as int);
        let negative = num[size] % 2 == 1;
        let sign: u8 = if negative {
            0xff
        } else {
            0
        };
        proof {
            lemma_be_value_extend(read, 0, size as int);
            assert(read.subrange(0, 0) =~= Seq::<u8>::empty());
            assert(pow256(0) == 1);
        }
        let mut c: u32 = 0;
        let mut i: usize = 0;
        while i <= size
            invariant
                i <= size + 1,
                size < num.len(),
                num.len() == read.len(),
                negative == (whole % 2 == 1),
                sign == (if negative {
                    0xffu8
                } else {
                    0u8
                }),
                forall|j: int| i <= j < num.len() ==> num@[j] == read[j],
                c <= 511,
                c % 2 == be_value(read.subrange(0, i as int)) % 2,
                be_value(num@.subrange(0, i as int)) == (if negative {
                    pow256(i as nat) - 1 - be_value(read.subrange(0, i as int)) / 2
                } else {
                    (be_value(read.subrange(0, i as int)) / 2) as int
                }),
            decreases size + 1 - i,
        {
            let ghost before = num@;
            let x = num[i];
            proof {
                let t: u32 = ((c % 2) * 256 + x as u32) as u32;
                let half: u32 = t / 2;
                assert(((c & 1) << 8) | (x as u32) == (c % 2) * 256 + x as u32) by (bit_vector);
                assert(t >> 1 == t / 2) by (bit_vector);
                assert((half ^ (sign as u32)) as u8 == (if sign == 0xffu8 {
                    (255 - half) as u8
                } else {
                    half as u8
                })) by (bit_vector)
                    requires
                        half < 256,
                        sign == 0xffu8 || sign == 0u8,
                ;
            }
            c = ((c & 1) << 8) | (x as u32);
            num[i] = ((c >> 1) ^ (sign as u32)) as u8;
            proof {
                lemma_be_value_extend(read, 0, i as int);
                lemma_be_value_extend(num@, 0, i as int);
                assert(num@.subrange(0, i as int) =~= before.subrange(0, i as int));
                lemma_be_value_bound(read.subrange(0, i as int));
                assert(pow256((i + 1) as nat) == 256 * pow256(i as nat));
            }
            i += 1;
        }
        Ok(())
    }

    /// Reads a string: a count, then that many numbers, of which each up to
    /// 255 is one byte of the string.
    pub fn read_string(&mut self) -> (r: Result<Vec<u8>, String>)
        ensures
            final(self).data() == old(self).data(),
            match string_at(old(self).data(), old(self).position()) {
                Some((text, end)) => r is Ok && r->Ok_0@ == text && final(self).position() == end,
                None => r is Err && r->Err_0@ == eof_text() && final(self).position() == old(self).data().len(),
            },
    {
        let len = match self.read_number() {
            Ok(n) => n,
            Err(e) => {
                return Err(e);
            },
        };
        let mut buf: Vec<u8> = Vec::new();
        let mut i: u32 = 0;
        while i < len
            invariant
                i <= len,
                self.buffer@ == old(self).buffer@,
                string_at(old(self).data(), old(self).position()) == string_from(
                    self.buffer@,
                    self.pos as int,
                    (len - i) as nat,
                    buf@,
                ),
            decreases len - i,
        {
            let val = match self.read_number() {
                Ok(n) => n,
                Err(e) => {
                    return Err(e);
                },
            };
            if val <= 0xff {
                buf.push(val as u8);
            }
            i += 1;
        }
        Ok(buf)
    }
}

} // verus!
