//! IP addresses: their numbers and their text.

use vstd::prelude::*;
use vstd::string::*;

use crate::bytes;
use crate::text;

verus! {

/// An IP address by its number, the first byte on the wire being the most significant.
#[derive(Copy, Clone, Debug, PartialEq, Eq, Structural)]
pub enum IpAddr {
    V4(u32),
    V6(u128),
}

/// The four address bytes of an IPv4 address kept in network byte order.
pub open spec fn v4_octets(daddr_v4: u32) -> Seq<u8> {
    bytes::le_bytes(daddr_v4 as nat, 4)
}

/// The dotted form of four address bytes.
pub open spec fn ipv4_text(o: Seq<u8>) -> Seq<char> {
    text::decimal(o[0] as nat) + seq!['.'] + text::decimal(o[1] as nat) + seq!['.'] + text::decimal(
        o[2] as nat,
    ) + seq!['.'] + text::decimal(o[3] as nat)
}

/// The eight 16-bit groups of sixteen address bytes.
pub open spec fn groups(b: Seq<u8>) -> Seq<int> {
    Seq::new(8, |i: int| bytes::be16(b[2 * i], b[2 * i + 1]))
}

/// Groups in hexadecimal without leading zeros, with colons between them.
pub open spec fn joined_groups(g: Seq<int>) -> Seq<char>
    decreases g.len(),
{
    if g.len() == 0 {
        Seq::empty()
    } else if g.len() == 1 {
        text::digits(g[0] as nat, 16)
    } else {
        joined_groups(g.drop_last()) + seq![':'] + text::digits(g.last() as nat, 16)
    }
}

/// The number of zero groups in a row from position `s` on.
pub open spec fn zeros_at(g: Seq<int>, s: int) -> int
    decreases g.len() - s,
{
    if 0 <= s < g.len() && g[s] == 0 {
        1 + zeros_at(g, s + 1)
    } else {
        0
    }
}

/// The first of the positions before `k` from which the most zero groups follow.
pub open spec fn longest_zeros(g: Seq<int>, k: nat) -> int
    decreases k,
{
    if k == 0 {
        0
    } else {
        let best = longest_zeros(g, (k - 1) as nat);
        if zeros_at(g, k - 1) > zeros_at(g, best) {
            k - 1
        } else {
            best
        }
    }
}

/// The address is an IPv4 address mapped into IPv6.
pub open spec fn is_v4_mapped(b: Seq<u8>) -> bool {
    (forall|i: int| 0 <= i < 10 ==> b[i] == 0) && b[10] == 0xff && b[11] == 0xff
}

/// The compact form of sixteen address bytes: a mapped IPv4 address in dotted form behind
/// `::ffff:`, any other address in groups, of which the first longest run of at least two
/// zero groups gives way to `::`.
pub open spec fn ipv6_text(b: Seq<u8>) -> Seq<char> {
    let g = groups(b);
    let s = longest_zeros(g, 8);
    let n = zeros_at(g, s);
    if is_v4_mapped(b) {
        "::ffff:"@ + ipv4_text(b.subrange(12, 16))
    } else if n > 1 {
        joined_groups(g.take(s)) + "::"@ + joined_groups(g.skip(s + n))
    } else {
        joined_groups(g)
    }
}

proof fn lemma_zeros_at(g: Seq<int>, s: int)
    requires
        0 <= s <= g.len(),
    ensures
        0 <= zeros_at(g, s),
        s + zeros_at(g, s) <= g.len(),
        forall|i: int| s <= i < s + zeros_at(g, s) ==> g[i] == 0,
        s + zeros_at(g, s) < g.len() ==> g[s + zeros_at(g, s)] != 0,
    decreases g.len() - s,
{
    if s < g.len() && g[s] == 0 {
        lemma_zeros_at(g, s + 1);
    }
}

proof fn lemma_longest_zeros(g: Seq<int>, k: nat)
    requires
        k <= g.len(),
    ensures
        0 <= longest_zeros(g, k) <= k,
        k > 0 ==> longest_zeros(g, k) < k,
    decreases k,
{
    if k > 0 {
        lemma_longest_zeros(g, (k - 1) as nat);
    }
}

/// No run of zero groups is longer than the one that the compact form leaves out, and none
/// of the same length begins before it.
pub proof fn lemma_compact_form_is_leftmost_longest(g: Seq<int>, k: nat, s: int)
    requires
        0 <= s < k <= g.len(),
    ensures
        zeros_at(g, s) <= zeros_at(g, longest_zeros(g, k)),
        s < longest_zeros(g, k) ==> zeros_at(g, s) < zeros_at(g, longest_zeros(g, k)),
    decreases k,
{
    let best = longest_zeros(g, (k - 1) as nat);
    if s < k - 1 {
        lemma_compact_form_is_leftmost_longest(g, (k - 1) as nat, s);
    } else if k >= 2 {
        lemma_longest_zeros(g, (k - 1) as nat);
    }
}

/// Every address has a text.
pub proof fn lemma_ipv6_text_not_empty(b: Seq<u8>)
    ensures
        ipv6_text(b).len() > 0,
{
    reveal_strlit("::ffff:");
    reveal_strlit("::");
}

/// Appends the dotted form of four address bytes.
pub fn append_ipv4(out: &mut String, a: u8, b: u8, c: u8, d: u8)
    ensures
        final(out)@ == old(out)@ + ipv4_text(seq![a, b, c, d]),
{
    text::append_digits(out, a as u128, 10);
    out.push('.');
    text::append_digits(out, b as u128, 10);
    out.push('.');
    text::append_digits(out, c as u128, 10);
    out.push('.');
    text::append_digits(out, d as u128, 10);
    assert(out@ =~= old(out)@ + ipv4_text(seq![a, b, c, d]));
}

/// The text of an IPv4 address kept in network byte order.
pub fn ipv4_string(daddr_v4: u32) -> (r: String)
    ensures
        r@ == ipv4_text(v4_octets(daddr_v4)),
{
    let mut b: Vec<u8> = Vec::new();
    bytes::append_le(&mut b, daddr_v4 as u64, 4);
    proof {
        bytes::lemma_le_bytes_len(daddr_v4 as nat, 4);
        assert(b@ =~= v4_octets(daddr_v4));
        assert(b@ =~= seq![b@[0], b@[1], b@[2], b@[3]]);
    }
    let mut out = String::new();
    append_ipv4(&mut out, b[0], b[1], b[2], b[3]);
    assert(out@ =~= ipv4_text(v4_octets(daddr_v4)));
    out
}

fn append_groups(out: &mut String, g: &[u16], from: usize, to: usize)
    requires
        from <= to <= g@.len(),
    ensures
        final(out)@ == old(out)@ + joined_groups(
            g@.map_values(|x: u16| x as int).subrange(from as int, to as int),
        ),
{
    let ghost all = g@.map_values(|x: u16| x as int);
    let mut i: usize = from;
    assert(all.subrange(from as int, from as int) =~= Seq::<int>::empty());
    assert(out@ =~= old(out)@ + joined_groups(all.subrange(from as int, from as int)));
    while i < to
        invariant
            from <= i <= to <= g@.len(),
            all == g@.map_values(|x: u16| x as int),
            out@ == old(out)@ + joined_groups(all.subrange(from as int, i as int)),
        decreases to - i,
    {
        let ghost before = out@;
        if i > from {
            out.push(':');
        }
        text::append_digits(out, g[i] as u128, 16);
        proof {
            let next = all.subrange(from as int, i + 1);
            assert(next.drop_last() =~= all.subrange(from as int, i as int));
            assert(next.last() == g@[i as int]);
            if i == from {
                assert(all.subrange(from as int, i as int) =~= Seq::<int>::empty());
                assert(out@ =~= old(out)@ + joined_groups(next));
            } else {
                assert(out@ =~= old(out)@ + joined_groups(next));
            }
        }
        i += 1;
    }
}

fn count_zeros(g: &[u16], s: usize) -> (n: usize)
    requires
        s <= g@.len(),
    ensures
        n == zeros_at(g@.map_values(|x: u16| x as int), s as int),
        s + n <= g@.len(),
    decreases g@.len() - s,
{
    proof {
        lemma_zeros_at(g@.map_values(|x: u16| x as int), s as int);
    }
    if s < g.len() && g[s] == 0 {
        let rest: usize = count_zeros(g, s + 1);
        1 + rest
    } else {
        0
    }
}

/// The text of an IPv6 address.
pub fn ipv6_string(b: &[u8; 16]) -> (r: String)
    ensures
        r@ == ipv6_text(b@),
{
    let mut out = String::new();
    if b[0] == 0 && b[1] == 0 && b[2] == 0 && b[3] == 0 && b[4] == 0 && b[5] == 0 && b[6] == 0
        && b[7] == 0 && b[8] == 0 && b[9] == 0 && b[10] == 0xff && b[11] == 0xff {
        out.append("::ffff:");
        append_ipv4(&mut out, b[12], b[13], b[14], b[15]);
        assert(b@.subrange(12, 16) =~= seq![b@[12], b@[13], b@[14], b@[15]]);
        assert(is_v4_mapped(b@));
        assert(out@ =~= ipv6_text(b@));
        return out;
    }
    let mut g: Vec<u16> = Vec::new();
    let mut i: usize = 0;
    while i < 8
        invariant
            i <= 8,
            g@.len() == i,
            forall|j: int| 0 <= j < i ==> #[trigger] g@[j] == groups(b@)[j],
        decreases 8 - i,
    {
        g.push((b[2 * i] as u16) * 256 + b[2 * i + 1] as u16);
        i += 1;
    }
    let ghost all = g@.map_values(|x: u16| x as int);
    assert(all =~= groups(b@));
    let mut best: usize = 0;
    let mut best_len: usize = count_zeros(g.as_slice(), 0);
    let mut k: usize = 0;
    assert(longest_zeros(all, 0) == 0);
    while k < 8
        invariant
            k <= 8,
            g@.len() == 8,
            all == g@.map_values(|x: u16| x as int),
            best <= 8,
            best == longest_zeros(all, k as nat),
            best_len == zeros_at(all, best as int),
            best + best_len <= 8,
        decreases 8 - k,
    {
        let n: usize = count_zeros(g.as_slice(), k);
        if n > best_len {
            best = k;
            best_len = n;
        }
        k += 1;
    }
    assert(!is_v4_mapped(b@));
    if best_len > 1 {
        append_groups(&mut out, g.as_slice(), 0, best);
        out.append("::");
        append_groups(&mut out, g.as_slice(), best + best_len, 8);
        assert(all.subrange(0, best as int) =~= all.take(best as int));
        assert(all.subrange(best + best_len, 8) =~= all.skip(best + best_len));
    } else {
        append_groups(&mut out, g.as_slice(), 0, 8);
        assert(all.subrange(0, 8) =~= all);
    }
    assert(out@ =~= ipv6_text(b@));
    out
}

/// The number of an IPv4 address kept in network byte order.
pub fn ipv4_number(daddr_v4: u32) -> (r: u32)
    ensures
        r == bytes::be_nat(v4_octets(daddr_v4)),
{
    let mut b: Vec<u8> = Vec::new();
    bytes::append_le(&mut b, daddr_v4 as u64, 4);
    proof {
        bytes::lemma_le_bytes_len(daddr_v4 as nat, 4);
        assert(b@ =~= v4_octets(daddr_v4));
        reveal_with_fuel(bytes::be_nat, 5);
        let s = b@;
        assert(s.drop_last().drop_last().drop_last().drop_last().len() == 0);
    }
    ((b[0] as u32 * 256 + b[1] as u32) * 256 + b[2] as u32) * 256 + b[3] as u32
}

/// The number of an IPv6 address.
pub fn ipv6_number(b: &[u8; 16]) -> (r: u128)
    ensures
        r == bytes::be_nat(b@),
{
    let mut n: u128 = 0;
    let mut i: usize = 0;
    assert(b@.take(0) =~= Seq::<u8>::empty());
    while i < 16
        invariant
            i <= 16,
            n == bytes::be_nat(b@.take(i as int)),
        decreases 16 - i,
    {
        proof {
            assert(b@.take(i + 1).drop_last() =~= b@.take(i as int));
            bytes::lemma_be_nat_bound(b@.take(i + 1));
            bytes::lemma_pow256_small();
            bytes::lemma_pow256_monotonic((i + 1) as nat, 16);
        }
        n = n * 256 + b[i] as u128;
        i += 1;
    }
    assert(b@.take(16) =~= b@);
    n
}

/// An IPv4 address in network byte order is written byte by byte in decimal, with dots
/// between them, and its first byte weighs most in its number.
pub proof fn lemma_ipv4_by_octets(a: u8, b: u8, c: u8, d: u8, daddr_v4: u32)
    requires
        daddr_v4 == a + 0x100 * b + 0x1_0000 * c + 0x100_0000 * d,
    ensures
        v4_octets(daddr_v4) == seq![a, b, c, d],
        ipv4_text(v4_octets(daddr_v4)) == text::decimal(a as nat) + seq!['.'] + text::decimal(b as nat) + seq!['.']
            + text::decimal(c as nat) + seq!['.'] + text::decimal(d as nat),
        bytes::be_nat(v4_octets(daddr_v4)) == 0x100_0000 * a + 0x1_0000 * b + 0x100 * c + d,
{
    bytes::lemma_word_bytes(daddr_v4, a, b, c, d);
    bytes::lemma_be_weights(v4_octets(daddr_v4));
}

/// A group of an IPv6 address is two of its bytes, the first weighing more.
pub proof fn lemma_group(b: Seq<u8>, i: int)
    requires
        b.len() == 16,
        0 <= i < 8,
    ensures
        groups(b).len() == 8,
        groups(b)[i] == 256 * b[2 * i] + b[2 * i + 1],
{
}

/// Groups stand in their order with a colon between each two.
pub proof fn lemma_joined(g: Seq<int>, x: int)
    ensures
        joined_groups(Seq::empty()) == Seq::<char>::empty(),
        joined_groups(seq![x]) == text::digits(x as nat, 16),
        g.len() > 0 ==> joined_groups(g.push(x)) == joined_groups(g) + seq![':'] + text::digits(x as nat, 16),
{
    assert(g.push(x).drop_last() =~= g);
}

/// From place `s` on `n` groups are zero, at least two.
pub open spec fn is_zero_run(g: Seq<int>, s: int, n: int) -> bool {
    &&& 0 <= s
    &&& 2 <= n
    &&& s + n <= g.len()
    &&& forall|i: int| s <= i < s + n ==> #[trigger] g[i] == 0
}

/// A text shows the groups with the run of zeros from `s` on left out.
pub open spec fn leaves_out(t: Seq<char>, g: Seq<int>, s: int, n: int) -> bool {
    &&& is_zero_run(g, s, n)
    &&& t == joined_groups(g.take(s)) + seq![':', ':'] + joined_groups(g.skip(s + n))
    &&& forall|s2: int, n2: int| #[trigger] is_zero_run(g, s2, n2) ==> n2 < n || (n2 == n && s <= s2)
}

proof fn lemma_run_is_counted(g: Seq<int>, s: int, n: int)
    requires
        0 <= s,
        0 <= n,
        s + n <= g.len(),
        forall|i: int| s <= i < s + n ==> #[trigger] g[i] == 0,
    ensures
        zeros_at(g, s) >= n,
    decreases n,
{
    lemma_zeros_at(g, s);
    if n > 0 {
        assert(g[s] == 0);
        lemma_run_is_counted(g, s + 1, n - 1);
    }
}

/// An IPv6 address without two zero groups in a row is written group by group; in any other
/// the longest run of them, the first if there are several, gives way to two colons.
pub proof fn lemma_ipv6_text(b: Seq<u8>, g: Seq<int>)
    requires
        b.len() == 16,
        !((forall|i: int| 0 <= i < 10 ==> #[trigger] b[i] == 0) && b[10] == 0xff && b[11] == 0xff),
        g.len() == 8,
        forall|i: int| 0 <= i < 8 ==> #[trigger] g[i] == 256 * b[2 * i] + b[2 * i + 1],
    ensures
        (exists|s: int, n: int| is_zero_run(g, s, n)) ==> exists|s: int, n: int| leaves_out(ipv6_text(b), g, s, n),
        !(exists|s: int, n: int| is_zero_run(g, s, n)) ==> ipv6_text(b) == joined_groups(g),
{
    reveal_strlit("::");
    assert("::"@ =~= seq![':', ':']);
    assert(g =~= groups(b));
    assert(!is_v4_mapped(b));
    let s = longest_zeros(g, 8);
    let n = zeros_at(g, s);
    lemma_longest_zeros(g, 8);
    lemma_zeros_at(g, s);
    assert forall|s2: int, n2: int| #[trigger] is_zero_run(g, s2, n2) implies n2 < n || (n2 == n && s <= s2) by {
        lemma_run_is_counted(g, s2, n2);
        lemma_compact_form_is_leftmost_longest(g, 8, s2);
        lemma_zeros_at(g, s2);
    }
    if n > 1 {
        assert(is_zero_run(g, s, n));
        assert(leaves_out(ipv6_text(b), g, s, n));
    }
}

/// An IPv4 address mapped into IPv6 is written in dotted form.
pub proof fn lemma_mapped_text(b: Seq<u8>)
    requires
        b.len() == 16,
        forall|i: int| 0 <= i < 10 ==> #[trigger] b[i] == 0,
        b[10] == 0xff,
        b[11] == 0xff,
    ensures
        ipv6_text(b) == seq![':', ':', 'f', 'f', 'f', 'f', ':'] + text::decimal(b[12] as nat) + seq!['.']
            + text::decimal(b[13] as nat) + seq!['.'] + text::decimal(b[14] as nat) + seq!['.'] + text::decimal(
            b[15] as nat,
        ),
{
    reveal_strlit("::ffff:");
    assert("::ffff:"@ =~= seq![':', ':', 'f', 'f', 'f', 'f', ':']);
    let o = b.subrange(12, 16);
    assert(o[0] == b[12] && o[1] == b[13] && o[2] == b[14] && o[3] == b[15]);
    assert(is_v4_mapped(b));
    assert(ipv6_text(b) =~= seq![':', ':', 'f', 'f', 'f', 'f', ':'] + text::decimal(b[12] as nat) + seq!['.']
        + text::decimal(b[13] as nat) + seq!['.'] + text::decimal(b[14] as nat) + seq!['.'] + text::decimal(
        b[15] as nat,
    ));
}

} // verus!
