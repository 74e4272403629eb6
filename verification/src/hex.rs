//! Arithmetic on numbers of up to sixteen bytes, held most significant byte
//! first in the leading `size + 1` bytes of a buffer.

use crate::bytes::{be_value, lemma_be_value_bound, lemma_be_value_concat, pack, pack_bytes, pow256};
use vstd::prelude::*;
use vstd::slice::slice_subrange;

verus! {

/// The bytes of a buffer that hold its number.
pub open spec fn field(buf: Seq<u8>, size: int) -> Seq<u8> {
    buf.subrange(0, size + 1)
}

/// The number that a buffer holds.
pub open spec fn field_value(buf: Seq<u8>, size: int) -> nat {
    be_value(field(buf, size))
}

/// The low 32 bits of the number in `a`.
pub fn hex_to_int(a: &[u8], size: usize) -> (n: u32)
    requires
        size < a.len(),
    ensures
        n == pack(field(a@, size as int)),
        n == field_value(a@, size as int) % 0x1_0000_0000,
{
    pack_bytes(slice_subrange(a, 0, size + 1))
}

/// The bytes of the number in `a`, as a string of their own.
pub fn hex_to_str(a: &[u8], size: usize) -> (s: Vec<u8>)
    requires
        size < a.len(),
    ensures
        s@ == field(a@, size as int),
{
    let mut s: Vec<u8> = Vec::new();
    let mut i: usize = 0;
    while i <= size
        invariant
            i <= size + 1,
            size < a.len(),
            s@ == a@.subrange(0, i as int),
        decreases size + 1 - i,
    {
        s.push(a[i]);
        assert(a@.subrange(0, i + 1) =~= a@.subrange(0, i as int).push(a@[i as int]));
        i += 1;
    }
    s
}

/// Adds the number in `b` to the number in `a`; what does not fit in
/// `size + 1` bytes is lost.  The bytes of `a` behind the number stay.
pub fn add_hex(a: &mut Vec<u8>, b: &[u8], size: usize)
    requires
        size < old(a).len(),
        size < b.len(),
    ensures
        final(a).len() == old(a).len(),
        field_value(final(a)@, size as int) == (field_value(old(a)@, size as int) + field_value(
            b@,
            size as int,
        )) % pow256((size + 1) as nat),
        forall|j: int| size < j < old(a).len() ==> final(a)@[j] == old(a)@[j],
{
    let mut c: u32 = 0;
    let mut k: usize = size + 1;
    proof {
        assert(a@.subrange(k as int, size + 1) =~= Seq::<u8>::empty());
        assert(b@.subrange(k as int, size + 1) =~= Seq::<u8>::empty());
        assert(pow256(0) == 1);
    }
    while k > 0
        invariant
            k <= size + 1,
            size < b.len(),
            a.len() == old(a).len(),
            size < a.len(),
            c <= 1,
            forall|j: int| 0 <= j < k ==> a@[j] == old(a)@[j],
            forall|j: int| size < j < a.len() ==> a@[j] == old(a)@[j],
            be_value(a@.subrange(k as int, size + 1)) + c * pow256((size + 1 - k) as nat)
                == be_value(old(a)@.subrange(k as int, size + 1)) + be_value(
                b@.subrange(k as int, size + 1),
            ),
        decreases k,
    {
        let ghost before = a@;
        let ghost p = pow256((size + 1 - k) as nat);
        let i = k - 1;
        let t: u32 = c + a[i] as u32 + b[i] as u32;
        a[i] = (t % 256) as u8;
        proof {
            assert(a@.subrange(k as int, size + 1) =~= before.subrange(k as int, size + 1));
            assert(a@.subrange(i as int, size + 1) =~= seq![(t % 256) as u8] + a@.subrange(
                k as int,
                size + 1,
            ));
            assert(old(a)@.subrange(i as int, size + 1) =~= seq![old(a)@[i as int]] + old(a)@.subrange(k as int, size + 1));
            assert(b@.subrange(i as int, size + 1) =~= seq![b@[i as int]] + b@.subrange(
                k as int,
                size + 1,
            ));
            crate::bytes::lemma_be_value_prepend((t % 256) as u8, a@.subrange(k as int, size + 1));
            crate::bytes::lemma_be_value_prepend(
                old(a)@[i as int],
                old(a)@.subrange(k as int, size + 1),
            );
            crate::bytes::lemma_be_value_prepend(b@[i as int], b@.subrange(k as int, size + 1));
            assert(pow256((size + 1 - i) as nat) == 256 * p);
            let x = old(a)@[i as int] as nat;
            let y = b@[i as int] as nat;
            assert(((t % 256) as nat) * p + ((t / 256) as nat) * (256 * p) == (x + y + c as nat)
                * p) by (nonlinear_arith)
                requires
                    t == x + y + c,
            ;
            assert((x + y + c as nat) * p == x * p + y * p + c as nat * p) by (nonlinear_arith);
        }
        c = t / 256;
        k = i;
    }
    proof {
        let m = pow256((size + 1) as nat) as int;
        let sum = field_value(old(a)@, size as int) + field_value(b@, size as int);
        lemma_be_value_bound(field(a@, size as int));
        vstd::arithmetic::div_mod::lemma_fundamental_div_mod_converse(
            sum as int,
            m,
            c as int,
            field_value(a@, size as int) as int,
        );
    }
}

/// Adds one to the number in `a`; from all bytes `0xFF` it turns to zero.
/// The bytes of `a` behind the number stay.
pub fn inc_hex(a: &mut Vec<u8>, size: usize)
    requires
        size < old(a).len(),
    ensures
        final(a).len() == old(a).len(),
        field_value(final(a)@, size as int) == (field_value(old(a)@, size as int) + 1) % pow256(
            (size + 1) as nat,
        ),
        forall|j: int| size < j < old(a).len() ==> final(a)@[j] == old(a)@[j],
{
    let mut c: u32 = 1;
    let mut k: usize = size + 1;
    proof {
        assert(a@.subrange(k as int, size + 1) =~= Seq::<u8>::empty());
        assert(pow256(0) == 1);
    }
    while k > 0 && c > 0
        invariant
            k <= size + 1,
            a.len() == old(a).len(),
            size < a.len(),
            c <= 1,
            forall|j: int| 0 <= j < k ==> a@[j] == old(a)@[j],
            forall|j: int| size < j < a.len() ==> a@[j] == old(a)@[j],
            be_value(a@.subrange(k as int, size + 1)) + c * pow256((size + 1 - k) as nat)
                == be_value(old(a)@.subrange(k as int, size + 1)) + 1,
        decreases k,
    {
        let ghost before = a@;
        let ghost p = pow256((size + 1 - k) as nat);
        let i = k - 1;
        let t: u32 = c + a[i] as u32;
        a[i] = (t % 256) as u8;
        proof {
            assert(a@.subrange(k as int, size + 1) =~= before.subrange(k as int, size + 1));
            assert(a@.subrange(i as int, size + 1) =~= seq![(t % 256) as u8] + a@.subrange(
                k as int,
                size + 1,
            ));
            assert(old(a)@.subrange(i as int, size + 1) =~= seq![old(a)@[i as int]] + old(a)@.subrange(k as int, size + 1));
            crate::bytes::lemma_be_value_prepend((t % 256) as u8, a@.subrange(k as int, size + 1));
            crate::bytes::lemma_be_value_prepend(
                old(a)@[i as int],
                old(a)@.subrange(k as int, size + 1),
            );
            assert(pow256((size + 1 - i) as nat) == 256 * p);
            let x = old(a)@[i as int] as nat;
            assert(((t % 256) as nat) * p + ((t / 256) as nat) * (256 * p) == (x + c as nat) * p)
                by (nonlinear_arith)
                requires
                    t == x + c,
            ;
            assert((x + c as nat) * p == x * p + c as nat * p) by (nonlinear_arith);
        }
        c = t / 256;
        k = i;
    }
    proof {
        // The bytes in front of the last carry are as they were.
        let m = pow256((size + 1) as nat) as int;
        let head = a@.subrange(0, k as int);
        assert(head =~= old(a)@.subrange(0, k as int));
        assert(field(a@, size as int) =~= head + a@.subrange(k as int, size + 1));
        assert(field(old(a)@, size as int) =~= head + old(a)@.subrange(k as int, size + 1));
        lemma_be_value_concat(head, a@.subrange(k as int, size + 1));
        lemma_be_value_concat(head, old(a)@.subrange(k as int, size + 1));
        lemma_be_value_bound(field(a@, size as int));
        let q = pow256((size + 1 - k) as nat);
        if c > 0 {
            assert(k == 0);
        }
        vstd::arithmetic::div_mod::lemma_fundamental_div_mod_converse(
            field_value(old(a)@, size as int) as int + 1,
            m,
            c as int,
            field_value(a@, size as int) as int,
        );
    }
}

} // verus!
