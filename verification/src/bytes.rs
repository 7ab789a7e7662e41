//! Integers as bytes: little-endian for what crosses the kernel boundary, big-endian for
//! packets and frames.

use vstd::prelude::*;
use vstd::slice::*;

verus! {

/// 256 to the power `k`.
pub open spec fn pow256(k: nat) -> nat
    decreases k,
{
    if k == 0 {
        1
    } else {
        256 * pow256((k - 1) as nat)
    }
}

/// The number that bytes hold, least significant first.
pub open spec fn le_nat(b: Seq<u8>) -> nat
    decreases b.len(),
{
    if b.len() == 0 {
        0
    } else {
        b[0] as nat + 256 * le_nat(b.skip(1))
    }
}

/// The low `k` bytes of `n`, least significant first.
pub open spec fn le_bytes(n: nat, k: nat) -> Seq<u8>
    decreases k,
{
    if k == 0 {
        Seq::empty()
    } else {
        seq![(n % 256) as u8] + le_bytes(n / 256, (k - 1) as nat)
    }
}

/// The number that two bytes hold, most significant first.
pub open spec fn be16(hi: u8, lo: u8) -> int {
    hi * 256 + lo
}

/// The number that bytes hold, most significant first.
pub open spec fn be_nat(b: Seq<u8>) -> nat
    decreases b.len(),
{
    if b.len() == 0 {
        0
    } else {
        256 * be_nat(b.drop_last()) + b.last() as nat
    }
}

/// A little-endian number is below the power of its length.
pub proof fn lemma_le_nat_bound(b: Seq<u8>)
    ensures
        le_nat(b) < pow256(b.len()),
    decreases b.len(),
{
    if b.len() > 0 {
        lemma_le_nat_bound(b.skip(1));
    }
}

/// A big-endian number is below the power of its length.
pub proof fn lemma_be_nat_bound(b: Seq<u8>)
    ensures
        be_nat(b) < pow256(b.len()),
    decreases b.len(),
{
    if b.len() > 0 {
        lemma_be_nat_bound(b.drop_last());
    }
}

/// The low `k` bytes of a number are `k` bytes.
pub proof fn lemma_le_bytes_len(n: nat, k: nat)
    ensures
        le_bytes(n, k).len() == k,
    decreases k,
{
    if k > 0 {
        lemma_le_bytes_len(n / 256, (k - 1) as nat);
    }
}

/// Reading back the `k` low bytes of a number that fits in them gives the number.
pub proof fn lemma_le_roundtrip(n: nat, k: nat)
    requires
        n < pow256(k),
    ensures
        le_bytes(n, k).len() == k,
        le_nat(le_bytes(n, k)) == n,
    decreases k,
{
    if k > 0 {
        assert(n / 256 < pow256((k - 1) as nat));
        lemma_le_roundtrip(n / 256, (k - 1) as nat);
        assert(le_bytes(n, k).skip(1) =~= le_bytes(n / 256, (k - 1) as nat));
    }
}

/// The powers at the widths of the integer types.
pub proof fn lemma_pow256_small()
    ensures
        pow256(1) == 0x100,
        pow256(2) == 0x1_0000,
        pow256(4) == 0x1_0000_0000,
        pow256(8) == 0x1_0000_0000_0000_0000,
        pow256(16) == 0x1_0000_0000_0000_0000_0000_0000_0000_0000,
{
    reveal_with_fuel(pow256, 17);
}

/// The power grows with its exponent.
pub proof fn lemma_pow256_monotonic(i: nat, j: nat)
    requires
        i <= j,
    ensures
        pow256(i) <= pow256(j),
    decreases j,
{
    if i < j {
        lemma_pow256_monotonic(i, (j - 1) as nat);
    }
}

/// The little-endian number in the `k` bytes from `off` on.
pub fn read_le(b: &[u8], off: usize, k: usize) -> (r: u64)
    requires
        k <= 8,
        off + k <= b@.len(),
    ensures
        r == le_nat(b@.subrange(off as int, off + k)),
        r < pow256(k as nat),
    decreases k,
{
    let ghost s = b@.subrange(off as int, off + k);
    proof {
        lemma_le_nat_bound(s);
    }
    if k == 0 {
        return 0;
    }
    assert(off < b.len());
    let rest: u64 = read_le(b, off + 1, k - 1);
    proof {
        assert(s.skip(1) =~= b@.subrange(off + 1, off + k));
        lemma_pow256_monotonic(k as nat, 8);
        lemma_pow256_small();
    }
    b[off] as u64 + 256 * rest
}

/// Appends the low `k` bytes of `n`, least significant first.
pub fn append_le(out: &mut Vec<u8>, n: u64, k: usize)
    ensures
        final(out)@ == old(out)@ + le_bytes(n as nat, k as nat),
    decreases k,
{
    if k == 0 {
        assert(out@ =~= old(out)@ + le_bytes(n as nat, 0));
        return;
    }
    out.push((n % 256) as u8);
    append_le(out, n / 256, k - 1);
    assert(out@ =~= old(out)@ + le_bytes(n as nat, k as nat));
}

/// Appends the bytes of a slice.
pub fn append_slice(out: &mut Vec<u8>, b: &[u8])
    ensures
        final(out)@ == old(out)@ + b@,
{
    let mut i: usize = 0;
    while i < b.len()
        invariant
            i <= b@.len(),
            out@ == old(out)@ + b@.take(i as int),
        decreases b@.len() - i,
    {
        out.push(b[i]);
        i += 1;
        assert(out@ =~= old(out)@ + b@.take(i as int));
    }
    assert(b@.take(b@.len() as int) =~= b@);
}

/// Sixteen bytes out of a slice.
pub fn read_16(b: &[u8], off: usize) -> (r: [u8; 16])
    requires
        off + 16 <= b@.len(),
    ensures
        r@ == b@.subrange(off as int, off + 16),
{
    let r: [u8; 16] = [
        b[off],
        b[off + 1],
        b[off + 2],
        b[off + 3],
        b[off + 4],
        b[off + 5],
        b[off + 6],
        b[off + 7],
        b[off + 8],
        b[off + 9],
        b[off + 10],
        b[off + 11],
        b[off + 12],
        b[off + 13],
        b[off + 14],
        b[off + 15],
    ];
    assert(r@ =~= b@.subrange(off as int, off + 16));
    r
}

/// The byte at a place of a little-endian number is that digit of the number in base 256.
pub proof fn lemma_le_byte(n: nat, k: nat, i: nat)
    requires
        i < k,
    ensures
        le_bytes(n, k).len() == k,
        le_bytes(n, k)[i as int] as nat == (n / pow256(i)) % 256,
        pow256(0) == 1,
        pow256(i + 1) == 256 * pow256(i),
    decreases k,
{
    lemma_le_bytes_len(n, k);
    lemma_le_bytes_len(n / 256, (k - 1) as nat);
    assert(pow256(0) == 1);
    if i > 0 {
        lemma_le_byte(n / 256, (k - 1) as nat, (i - 1) as nat);
        assert(le_bytes(n, k)[i as int] == le_bytes(n / 256, (k - 1) as nat)[i - 1]);
        let p = pow256((i - 1) as nat);
        lemma_pow256_positive((i - 1) as nat);
        vstd::arithmetic::div_mod::lemma_div_denominator(n as int, 256, p as int);
    }
}

proof fn lemma_pow256_positive(i: nat)
    ensures
        pow256(i) > 0,
    decreases i,
{
    if i > 0 {
        lemma_pow256_positive((i - 1) as nat);
    }
}

/// What the first bytes of a little-endian number weigh.
pub proof fn lemma_le_weights(b: Seq<u8>)
    ensures
        b.len() == 2 ==> le_nat(b) == b[0] + 256 * b[1],
        b.len() == 4 ==> le_nat(b) == b[0] + 256 * b[1] + 0x1_0000 * b[2] + 0x100_0000 * b[3],
        b.len() == 8 ==> le_nat(b) == b[0] + 256 * b[1] + 0x1_0000 * b[2] + 0x100_0000 * b[3]
            + 0x1_0000_0000 * b[4] + 0x100_0000_0000 * b[5] + 0x1_0000_0000_0000 * b[6]
            + 0x100_0000_0000_0000 * b[7],
{
    reveal_with_fuel(le_nat, 9);
}

/// What the bytes of a big-endian number weigh: each is worth 256 of the next.
pub proof fn lemma_be_weights(b: Seq<u8>)
    ensures
        b.len() == 2 ==> be_nat(b) == 256 * b[0] + b[1],
        b.len() == 4 ==> be_nat(b) == 0x100_0000 * b[0] + 0x1_0000 * b[1] + 256 * b[2] + b[3],
        b.len() > 0 ==> be_nat(b) == 256 * be_nat(b.take(b.len() - 1)) + b[b.len() - 1],
        be16(1, 0) == 256,
        be16(0, 1) == 1,
{
    reveal_with_fuel(be_nat, 5);
    if b.len() > 0 {
        assert(b.take(b.len() - 1) =~= b.drop_last());
    }
}

/// A word of four bytes has them in their order.
pub proof fn lemma_word_bytes(w: u32, a: u8, b: u8, c: u8, d: u8)
    requires
        w == a + 0x100 * b + 0x1_0000 * c + 0x100_0000 * d,
    ensures
        le_bytes(w as nat, 4) == seq![a, b, c, d],
{
    let n3 = d as nat;
    let n2 = (c + 256 * n3) as nat;
    let n1 = (b + 256 * n2) as nat;
    let n = (a + 256 * n1) as nat;
    assert(n == w);
    assert(n % 256 == a && n / 256 == n1);
    assert(n1 % 256 == b && n1 / 256 == n2);
    assert(n2 % 256 == c && n2 / 256 == n3);
    assert(n3 % 256 == d);
    assert(le_bytes(n3 / 256, 0) =~= Seq::<u8>::empty());
    assert(le_bytes(n3, 1) =~= seq![d]);
    assert(le_bytes(n2, 2) =~= seq![c, d]);
    assert(le_bytes(n1, 3) =~= seq![b, c, d]);
    assert(le_bytes(n, 4) =~= seq![a, b, c, d]);
}

/// Numbers of as many bytes are the same only if their bytes are.
pub proof fn lemma_be_tells_apart(a: Seq<u8>, b: Seq<u8>)
    requires
        a.len() == b.len(),
        be_nat(a) == be_nat(b),
    ensures
        a == b,
    decreases a.len(),
{
    if a.len() > 0 {
        lemma_be_tells_apart(a.drop_last(), b.drop_last());
        assert(a =~= a.drop_last().push(a.last()));
        assert(b =~= b.drop_last().push(b.last()));
    } else {
        assert(a =~= b);
    }
}

} // verus!
