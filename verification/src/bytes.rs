//! Little-endian byte strings for the fixed-width integer encodings.
//!
//! A fixed-width value is encoded as its `n` little-endian bytes; `le_bytes`
//! is the encoding, `le_val` reads a byte string back as a number, and the
//! two executable helpers write and read such a string inside a byte buffer.

use vstd::prelude::*;

verus! {

/// `256^n`: the number of distinct `n`-byte strings.
pub open spec fn p256(n: nat) -> nat
    decreases n,
{
    if n == 0 {
        1
    } else {
        256 * p256((n - 1) as nat)
    }
}

/// The `n` little-endian bytes of `v`, least significant first.
pub open spec fn le_bytes(v: nat, n: nat) -> Seq<u8>
    decreases n,
{
    if n == 0 {
        Seq::empty()
    } else {
        seq![(v % 256) as u8].add(le_bytes(v / 256, (n - 1) as nat))
    }
}

/// The number held by a little-endian byte string.
pub open spec fn le_val(s: Seq<u8>) -> nat
    decreases s.len(),
{
    if s.len() == 0 {
        0
    } else {
        (s[0] + 256 * le_val(s.skip(1))) as nat
    }
}

/// The values of `p256` at the widths in use.
pub proof fn lemma_p256_vals()
    ensures
        p256(1) == 0x100,
        p256(2) == 0x1_0000,
        p256(4) == 0x1_0000_0000,
        p256(8) == 0x1_0000_0000_0000_0000,
        p256(16) == 0x1_0000_0000_0000_0000_0000_0000_0000_0000,
{
    assert(p256(0) == 1);
    assert(p256(1) == 0x100);
    assert(p256(2) == 0x1_0000);
    assert(p256(3) == 0x100_0000);
    assert(p256(4) == 0x1_0000_0000);
    assert(p256(5) == 0x100_0000_0000);
    assert(p256(6) == 0x1_0000_0000_0000);
    assert(p256(7) == 0x100_0000_0000_0000);
    assert(p256(8) == 0x1_0000_0000_0000_0000);
    assert(p256(9) == 0x100_0000_0000_0000_0000);
    assert(p256(10) == 0x1_0000_0000_0000_0000_0000);
    assert(p256(11) == 0x100_0000_0000_0000_0000_0000);
    assert(p256(12) == 0x1_0000_0000_0000_0000_0000_0000);
    assert(p256(13) == 0x100_0000_0000_0000_0000_0000_0000);
    assert(p256(14) == 0x1_0000_0000_0000_0000_0000_0000_0000);
    assert(p256(15) == 0x100_0000_0000_0000_0000_0000_0000_0000);
    assert(p256(16) == 0x1_0000_0000_0000_0000_0000_0000_0000_0000);
}

/// `p256` grows with the width.
pub proof fn lemma_p256_mono(i: nat, j: nat)
    requires
        i <= j,
    ensures
        p256(i) <= p256(j),
        p256(i) >= 1,
    decreases j,
{
    if i < j {
        lemma_p256_mono(i, (j - 1) as nat);
    } else {
        if i > 0 {
            lemma_p256_mono((i - 1) as nat, (i - 1) as nat);
        }
    }
}

/// An `n`-byte string has `n` bytes.
pub proof fn lemma_le_bytes_len(v: nat, n: nat)
    ensures
        le_bytes(v, n).len() == n,
    decreases n,
{
    if n > 0 {
        lemma_le_bytes_len(v / 256, (n - 1) as nat);
    }
}

/// Reading back the little-endian bytes of `v` yields `v` again,
/// provided `v` fits in `n` bytes.
pub proof fn lemma_le_val_le_bytes(v: nat, n: nat)
    requires
        v < p256(n),
    ensures
        le_val(le_bytes(v, n)) == v,
    decreases n,
{
    if n == 0 {
        assert(le_bytes(v, 0).len() == 0);
    } else {
        let s = le_bytes(v, n);
        assert(v / 256 < p256((n - 1) as nat)) by {
            if v / 256 >= p256((n - 1) as nat) {
                assert(v >= 256 * (v / 256)) by (nonlinear_arith);
                assert(256 * (v / 256) >= 256 * p256((n - 1) as nat)) by (nonlinear_arith)
                    requires v / 256 >= p256((n - 1) as nat);
            }
        }
        lemma_le_val_le_bytes(v / 256, (n - 1) as nat);
        lemma_le_bytes_len(v / 256, (n - 1) as nat);
        assert(s.skip(1) =~= le_bytes(v / 256, (n - 1) as nat));
        assert(le_val(s) == v % 256 + 256 * (v / 256));
    }
}

/// A byte string holds a number smaller than `256^len`.
pub proof fn lemma_le_val_bound(s: Seq<u8>)
    ensures
        le_val(s) < p256(s.len()),
    decreases s.len(),
{
    if s.len() == 0 {
    } else {
        lemma_le_val_bound(s.skip(1));
        assert(256 * le_val(s.skip(1)) <= 256 * (p256((s.len() - 1) as nat) - 1))
            by (nonlinear_arith)
            requires le_val(s.skip(1)) <= p256((s.len() - 1) as nat) - 1;
    }
}

/// Two numbers with the same little-endian bytes are the same number.
pub proof fn lemma_le_bytes_injective(a: nat, b: nat, n: nat)
    requires
        a < p256(n),
        b < p256(n),
        le_bytes(a, n) == le_bytes(b, n),
    ensures
        a == b,
{
    lemma_le_val_le_bytes(a, n);
    lemma_le_val_le_bytes(b, n);
}

/// Writes the `n` little-endian bytes of `v` at `buf[pos]`, touching no
/// other byte.
pub fn write_le(buf: &mut Vec<u8>, pos: usize, v: u128, n: usize)
    requires
        pos + n <= old(buf).len(),
        v < p256(n as nat),
    ensures
        final(buf).len() == old(buf).len(),
        final(buf)@.subrange(pos as int, pos + n) == le_bytes(v as nat, n as nat),
        forall|k: int| 0 <= k < pos ==> final(buf)@[k] == old(buf)@[k],
        forall|k: int| pos + n <= k < old(buf)@.len() ==> final(buf)@[k] == old(buf)@[k],
{
    let ghost whole = le_bytes(v as nat, n as nat);
    let buf_len = buf.len();
    proof {
        lemma_le_bytes_len(v as nat, n as nat);
    }
    let mut k: usize = 0;
    let mut cur: u128 = v;
    while k < n
        invariant
            k <= n,
            pos + n <= buf@.len(),
            buf@.len() == buf_len,
            buf@.len() == old(buf)@.len(),
            whole == le_bytes(v as nat, n as nat),
            whole.len() == n,
            whole.skip(k as int) == le_bytes(cur as nat, (n - k) as nat),
            forall|j: int| 0 <= j < k ==> buf@[pos + j] == whole[j],
            forall|j: int| 0 <= j < pos ==> buf@[j] == old(buf)@[j],
            forall|j: int| pos + n <= j < old(buf)@.len() ==> buf@[j] == old(buf)@[j],
        decreases n - k,
    {
        let b: u8 = (cur % 256) as u8;
        proof {
            let rest = le_bytes(cur as nat, (n - k) as nat);
            assert(rest[0] == b);
            assert(whole[k as int] == whole.skip(k as int)[0]);
            lemma_le_bytes_len(cur as nat / 256, (n - k - 1) as nat);
            assert(rest.skip(1) =~= le_bytes(cur as nat / 256, (n - k - 1) as nat));
            assert(whole.skip(k + 1) =~= whole.skip(k as int).skip(1));
        }
        buf.set(pos + k, b);
        cur = cur / 256;
        k = k + 1;
    }
    proof {
        assert(final(buf)@.subrange(pos as int, pos + n) =~= whole);
    }
}

/// Reads the number held by the `n` little-endian bytes at `buf[pos]`.
pub fn read_le(buf: &Vec<u8>, pos: usize, n: usize) -> (r: u128)
    requires
        pos + n <= buf.len(),
        n <= 16,
    ensures
        r == le_val(buf@.subrange(pos as int, pos + n)),
{
    let ghost s = buf@.subrange(pos as int, pos + n);
    let buf_len = buf.len();
    let mut k: usize = n;
    let mut acc: u128 = 0;
    proof {
        assert(s.subrange(n as int, n as int) =~= Seq::<u8>::empty());
        assert(le_val(s.subrange(n as int, n as int)) == 0);
    }
    while k > 0
        invariant
            k <= n,
            n <= 16,
            pos + n <= buf@.len(),
            buf@.len() == buf_len,
            s == buf@.subrange(pos as int, pos + n),
            s.len() == n,
            acc == le_val(s.subrange(k as int, n as int)),
        decreases k,
    {
        proof {
            lemma_le_val_bound(s.subrange(k as int, n as int));
            lemma_p256_mono((n - k) as nat, 15);
            lemma_p256_vals();
            assert(256 * le_val(s.subrange(k as int, n as int)) <= 256 * (p256(15) - 1))
                by (nonlinear_arith)
                requires le_val(s.subrange(k as int, n as int)) <= p256(15) - 1;
        }
        k = k - 1;
        let b: u8 = buf[pos + k];
        proof {
            let t = s.subrange(k as int, n as int);
            assert(t[0] == s[k as int]);
            assert(s[k as int] == b);
            assert(t.skip(1) =~= s.subrange(k + 1, n as int));
            assert(le_val(t) == b + 256 * le_val(s.subrange(k + 1, n as int)));
        }
        acc = acc * 256 + (b as u128);
    }
    proof {
        assert(s.subrange(0, n as int) =~= s);
    }
    acc
}

} // verus!
