//! Big-endian integers as byte sequences.

use vstd::prelude::*;

verus! {

/// `256` to the power `n`.
pub open spec fn pow256(n: nat) -> nat
    decreases n,
{
    if n == 0 {
        1
    } else {
        256 * pow256((n - 1) as nat)
    }
}

/// The `n` low bytes of `v`, most significant first.
pub open spec fn be(v: nat, n: nat) -> Seq<u8>
    decreases n,
{
    if n == 0 {
        Seq::empty()
    } else {
        be(v / 256, (n - 1) as nat).push((v % 256) as u8)
    }
}

/// The integer that a big-endian byte sequence stands for.
pub open spec fn be_value(s: Seq<u8>) -> nat
    decreases s.len(),
{
    if s.len() == 0 {
        0
    } else {
        be_value(s.drop_last()) * 256 + s.last() as nat
    }
}

pub proof fn lemma_pow256_values()
    ensures
        pow256(0) == 1,
        pow256(1) == 0x100,
        pow256(2) == 0x1_0000,
        pow256(3) == 0x100_0000,
        pow256(4) == 0x1_0000_0000,
        pow256(5) == 0x100_0000_0000,
        pow256(6) == 0x1_0000_0000_0000,
        pow256(7) == 0x100_0000_0000_0000,
        pow256(8) == 0x1_0000_0000_0000_0000,
{
    reveal_with_fuel(pow256, 9);
}

pub proof fn lemma_pow256_mono(m: nat, n: nat)
    requires
        m <= n,
    ensures
        1 <= pow256(m) <= pow256(n),
    decreases n,
{
    if n > m {
        lemma_pow256_mono(m, (n - 1) as nat);
    } else if n > 0 {
        lemma_pow256_mono((m - 1) as nat, (n - 1) as nat);
    }
}

pub proof fn lemma_be_len(v: nat, n: nat)
    ensures
        be(v, n).len() == n,
    decreases n,
{
    if n > 0 {
        lemma_be_len(v / 256, (n - 1) as nat);
    }
}

pub proof fn lemma_be_value_bound(s: Seq<u8>)
    ensures
        be_value(s) < pow256(s.len()),
    decreases s.len(),
{
    if s.len() > 0 {
        lemma_be_value_bound(s.drop_last());
    }
}

/// Writing a number in `n` bytes and reading it back gives the number modulo
/// `256` to the power `n`.
pub proof fn be_round_trip(v: nat, n: nat)
    ensures
        be_value(be(v, n)) == v % pow256(n),
    decreases n,
{
    if n > 0 {
        let m = (n - 1) as nat;
        be_round_trip(v / 256, m);
        lemma_be_len(v / 256, m);
        assert(be(v, n).drop_last() =~= be(v / 256, m));
        lemma_pow256_mono(0, m);
        let p = pow256(m) as int;
        let q = (v / 256) as int;
        assert(v as int % (256 * p) == (q % p) * 256 + v as int % 256) by {
            vstd::arithmetic::div_mod::lemma_mod_breakdown(v as int, 256, p);
            vstd::arithmetic::mul::lemma_mul_is_commutative(256, q % p);
        }
    }
}

/// Reading a byte sequence and writing the number back in as many bytes gives
/// the sequence.
pub proof fn be_of_value(s: Seq<u8>)
    ensures
        be(be_value(s), s.len()) == s,
    decreases s.len(),
{
    if s.len() > 0 {
        be_of_value(s.drop_last());
        assert(be(be_value(s), s.len()) =~= s);
    }
}

/// Append the `n` low bytes of `v`, most significant first.
pub fn push_be(out: &mut Vec<u8>, v: u64, n: usize)
    ensures
        final(out)@ == old(out)@ + be(v as nat, n as nat),
    decreases n,
{
    if n > 0 {
        push_be(out, v / 256, n - 1);
        out.push((v % 256) as u8);
    }
}

/// Read the `n` bytes at `at` as a big-endian integer.
pub fn read_be(bytes: &[u8], at: usize, n: usize) -> (r: u64)
    requires
        n <= 8,
        at + n <= bytes@.len(),
    ensures
        r as nat == be_value(bytes@.subrange(at as int, at + n)),
{
    let total: usize = bytes.len();
    let mut acc: u64 = 0;
    let mut i: usize = 0;
    proof {
        lemma_pow256_values();
        assert(bytes@.subrange(at as int, at as int) =~= Seq::<u8>::empty());
    }
    while i < n
        invariant
            i <= n <= 8,
            at + n <= total,
            total == bytes@.len(),
            acc as nat == be_value(bytes@.subrange(at as int, at + i)),
            acc < pow256(i as nat),
            pow256(8) == 0x1_0000_0000_0000_0000,
        decreases n - i,
    {
        let ghost s = bytes@.subrange(at as int, at + i + 1);
        proof {
            lemma_pow256_mono((i + 1) as nat, 8);
            assert(s.drop_last() =~= bytes@.subrange(at as int, at + i));
            assert(pow256((i + 1) as nat) == 256 * pow256(i as nat));
        }
        acc = acc * 256 + bytes[at + i] as u64;
        i += 1;
    }
    acc
}

} // verus!
