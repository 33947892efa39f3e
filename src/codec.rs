//! Fixed-width unsigned integers as bytes: little-endian encoding of item
//! sequences, decoding in either byte order, and byte-order reversal.

use vstd::prelude::*;
use vstd::arithmetic::power::pow;

verus! {

/// The `n` little-endian bytes of `v` (the low `8 * n` bits).
pub open spec fn le_bytes(v: nat, n: nat) -> Seq<u8> {
    Seq::new(n, |j: int| ((v as int / pow(256, j as nat)) % 256) as u8)
}

/// The value of bytes read least significant first.
pub open spec fn le_value(b: Seq<u8>) -> nat
    decreases b.len(),
{
    if b.len() == 0 { 0 } else { b[0] as nat + 256 * le_value(b.drop_first()) }
}

/// The value of bytes read most significant first.
pub open spec fn be_value(b: Seq<u8>) -> nat
    decreases b.len(),
{
    if b.len() == 0 { 0 } else { be_value(b.drop_last()) * 256 + b.last() as nat }
}

/// Each item as `n` little-endian bytes, one after the other.
pub open spec fn encode(items: Seq<u64>, n: nat) -> Seq<u8>
    decreases items.len(),
{
    if items.len() == 0 { Seq::empty() } else { encode(items.drop_last(), n) + le_bytes(items.last() as nat, n) }
}

/// Bytes cut into chunks of `n`, each read as a little-endian item.
pub open spec fn decode(bytes: Seq<u8>, n: nat) -> Seq<u64> {
    Seq::new(bytes.len() / n, |i: int| le_value(bytes.subrange(i * n, i * n + n)) as u64)
}

/// An `n`-byte item with its bytes in the opposite order.
pub open spec fn swapped(v: nat, n: nat) -> nat {
    be_value(le_bytes(v, n))
}

pub proof fn lemma_pow_step(j: nat)
    ensures
        pow(256, j + 1) == 256 * pow(256, j),
        pow(256, j) > 0,
{
    vstd::arithmetic::power::lemma_pow_positive(256, j);
    assert(pow(256, j + 1) == 256 * pow(256, j)) by {
        reveal(pow);
    }
}

/// Bytes always read back below `256^len`.
pub proof fn lemma_le_value_bound(b: Seq<u8>)
    ensures
        le_value(b) < pow(256, b.len()),
    decreases b.len(),
{
    if b.len() == 0 {
        reveal(pow);
    } else {
        lemma_le_value_bound(b.drop_first());
        lemma_pow_step((b.len() - 1) as nat);
    }
}

pub proof fn lemma_be_value_bound(b: Seq<u8>)
    ensures
        be_value(b) < pow(256, b.len()),
    decreases b.len(),
{
    if b.len() == 0 {
        reveal(pow);
    } else {
        lemma_be_value_bound(b.drop_last());
        lemma_pow_step((b.len() - 1) as nat);
    }
}

/// Reading back the little-endian bytes of a value gives the value.
pub proof fn lemma_le_round_trip(v: nat, n: nat)
    requires
        v < pow(256, n),
    ensures
        le_value(le_bytes(v, n)) == v,
    decreases n,
{
    if n == 0 {
        reveal(pow);
    } else {
        let b = le_bytes(v, n);
        let w = v / 256;
        lemma_pow_step((n - 1) as nat);
        assert forall|j: int| 0 <= j < n - 1 implies #[trigger] b.drop_first()[j] == le_bytes(w, (n - 1) as nat)[j] by {
            lemma_pow_step(j as nat);
            vstd::arithmetic::div_mod::lemma_div_denominator(v as int, 256, pow(256, j as nat));
            assert(256 * pow(256, j as nat) == pow(256, (j + 1) as nat));
        }
        assert(b.drop_first() =~= le_bytes(w, (n - 1) as nat));
        assert(w < pow(256, (n - 1) as nat)) by {
            vstd::arithmetic::div_mod::lemma_div_by_multiple_is_strongly_ordered(v as int, pow(256, n) as int, pow(256, (n - 1) as nat), 256);
        }
        lemma_le_round_trip(w, (n - 1) as nat);
        assert(b[0] == v % 256) by {
            reveal(pow);
        }
        vstd::arithmetic::div_mod::lemma_fundamental_div_mod(v as int, 256);
    }
}

/// The encoding of a sequence holds the bytes of item `i` at `i * n`.
pub proof fn lemma_encode_chunk(items: Seq<u64>, n: nat, i: int)
    requires
        0 <= i < items.len(),
    ensures
        encode(items, n).len() == items.len() * n,
        encode(items, n).subrange(i * n, i * n + n) == le_bytes(items[i] as nat, n),
    decreases items.len(),
{
    let p = items.drop_last();
    lemma_encode_len(p, n);
    assert(items.len() * n == p.len() * n + n) by (nonlinear_arith)
        requires items.len() == p.len() + 1;
    if i < items.len() - 1 {
        lemma_encode_chunk(p, n, i);
        assert(i * n + n <= p.len() * n) by (nonlinear_arith)
            requires i < p.len(), n >= 0;
        assert(encode(items, n).subrange(i * n, i * n + n) =~= encode(p, n).subrange(i * n, i * n + n));
    } else {
        assert(i * n == p.len() * n);
        assert(encode(items, n).subrange(i * n, i * n + n) =~= le_bytes(items[i] as nat, n));
    }
}

pub proof fn lemma_encode_len(items: Seq<u64>, n: nat)
    ensures
        encode(items, n).len() == items.len() * n,
    decreases items.len(),
{
    if items.len() > 0 {
        lemma_encode_len(items.drop_last(), n);
        assert(items.len() * n == (items.len() - 1) * n + n) by (nonlinear_arith);
    }
}

/// Decoding the encoding of items that fit `n` bytes gives the items back.
pub proof fn lemma_decode_encode(items: Seq<u64>, n: nat)
    requires
        n > 0,
        forall|i: int| 0 <= i < items.len() ==> (#[trigger] items[i] as nat) < pow(256, n),
    ensures
        decode(encode(items, n), n) == items,
{
    lemma_encode_len(items, n);
    let e = encode(items, n);
    assert(e.len() as int / (n as int) == items.len()) by {
        vstd::arithmetic::div_mod::lemma_div_multiples_vanish(items.len() as int, n as int);
        assert(items.len() * n == n * items.len()) by (nonlinear_arith);
    }
    assert forall|i: int| 0 <= i < items.len() implies #[trigger] decode(e, n)[i] == items[i] by {
        lemma_encode_chunk(items, n, i);
        lemma_le_round_trip(items[i] as nat, n);
    }
    assert(decode(e, n) =~= items);
}

/// Appends the `n` little-endian bytes of `v` to `out`.
pub fn push_le_bytes(out: &mut Vec<u8>, v: u64, n: usize)
    requires
        n <= 8,
    ensures
        final(out)@ == old(out)@ + le_bytes(v as nat, n as nat),
{
    let mut x: u64 = v;
    let mut j: usize = 0;
    proof {
        vstd::arithmetic::power::lemma_pow0(256);
        assert(old(out)@ + le_bytes(v as nat, 0) =~= old(out)@);
    }
    while j < n
        invariant
            j <= n,
            n <= 8,
            x == v as int / pow(256, j as nat),
            out@ == old(out)@ + le_bytes(v as nat, j as nat),
        decreases n - j,
    {
        proof {
            lemma_pow_step(j as nat);
            vstd::arithmetic::div_mod::lemma_div_denominator(v as int, pow(256, j as nat), 256);
            assert(pow(256, j as nat) * 256 == pow(256, (j + 1) as nat));
        }
        out.push((x % 256) as u8);
        x = x / 256;
        j = j + 1;
        proof {
            assert(out@ =~= old(out)@ + le_bytes(v as nat, j as nat));
        }
    }
    proof {
        reveal(pow);
    }
}

/// The little-endian value of `b[start .. start + n]`.
pub fn read_le(b: &[u8], start: usize, n: usize) -> (r: u64)
    requires
        n <= 8,
        start + n <= b@.len(),
        start + n <= usize::MAX,
    ensures
        r == le_value(b@.subrange(start as int, start + n)),
{
    let mut acc: u128 = 0;
    let mut j: usize = n;
    proof {
        vstd::arithmetic::power::lemma_pow0(256);
    }
    while j > 0
        invariant
            j <= n,
            n <= 8,
            start + n <= b@.len(),
            start + n <= usize::MAX,
            acc == le_value(b@.subrange(start + j, start + n)),
            acc < pow(256, (n - j) as nat),
        decreases j,
    {
        j = j - 1;
        proof {
            let s = b@.subrange(start + j, start + n);
            assert(s.drop_first() =~= b@.subrange(start + j + 1, start + n));
            lemma_pow_step((n - j - 1) as nat);
            lemma_pow_bound_8((n - j) as nat);
        }
        acc = (b[start + j] as u128) + 256 * acc;
    }
    proof {
        lemma_pow_bound_8(n as nat);
    }
    acc as u64
}

/// The big-endian value of `b[start .. start + n]`.
pub fn read_be(b: &[u8], start: usize, n: usize) -> (r: u64)
    requires
        n <= 8,
        start + n <= b@.len(),
        start + n <= usize::MAX,
    ensures
        r == be_value(b@.subrange(start as int, start + n)),
{
    let mut acc: u128 = 0;
    let mut j: usize = 0;
    proof {
        vstd::arithmetic::power::lemma_pow0(256);
    }
    while j < n
        invariant
            j <= n,
            n <= 8,
            start + n <= b@.len(),
            start + n <= usize::MAX,
            acc == be_value(b@.subrange(start as int, start + j)),
            acc < pow(256, j as nat),
        decreases n - j,
    {
        proof {
            let s = b@.subrange(start as int, start + j + 1);
            assert(s.drop_last() =~= b@.subrange(start as int, start + j));
            lemma_pow_step(j as nat);
            lemma_pow_bound_8((j + 1) as nat);
        }
        acc = acc * 256 + (b[start + j] as u128);
        j = j + 1;
    }
    proof {
        lemma_pow_bound_8(n as nat);
    }
    acc as u64
}

pub proof fn lemma_pow_bound_8(n: nat)
    requires
        n <= 8,
    ensures
        pow(256, n) <= 0x1_0000_0000_0000_0000,
{
    vstd::arithmetic::power::lemma_pow_increases(256, n, 8);
    assert(pow(256, 8) == 0x1_0000_0000_0000_0000) by {
        reveal_with_fuel(pow, 9);
    }
}

/// `v` with its `n` bytes in the opposite order.
pub fn swap_bytes(v: u64, n: usize) -> (r: u64)
    requires
        n <= 8,
    ensures
        r == swapped(v as nat, n as nat),
        r < pow(256, n as nat),
{
    let mut b: Vec<u8> = Vec::new();
    push_le_bytes(&mut b, v, n);
    proof {
        assert(b@ =~= le_bytes(v as nat, n as nat));
        assert(b@.subrange(0, n as int) =~= b@);
        lemma_be_value_bound(b@);
    }
    read_be(b.as_slice(), 0, n)
}

/// Reading reversed bytes most significant first is reading the original
/// bytes least significant first.
pub proof fn lemma_be_reverse(b: Seq<u8>)
    ensures
        be_value(b.reverse()) == le_value(b),
    decreases b.len(),
{
    if b.len() > 0 {
        let t = b.reverse();
        assert(t.last() == b[0]);
        assert(t.drop_last() =~= b.drop_first().reverse());
        lemma_be_reverse(b.drop_first());
    }
}

} // verus!
