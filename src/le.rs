//! Little-endian unsigned integers as bytes.
use vstd::prelude::*;

verus! {

/// `256` raised to the power `n`.
pub open spec fn pow256(n: nat) -> nat
    decreases n,
{
    if n == 0 {
        1
    } else {
        256 * pow256((n - 1) as nat)
    }
}

/// The value of the little-endian bytes `b`.
pub open spec fn le_value(b: Seq<u8>) -> nat
    decreases b.len(),
{
    if b.len() == 0 {
        0
    } else {
        b[0] as nat + 256 * le_value(b.drop_first())
    }
}

/// The `n` low bytes of `v`, least significant first.
pub open spec fn le_bytes(v: nat, n: nat) -> Seq<u8>
    decreases n,
{
    if n == 0 {
        Seq::empty()
    } else {
        seq![(v % 256) as u8] + le_bytes(v / 256, (n - 1) as nat)
    }
}

/// Writing `n` bytes gives `n` bytes.
pub proof fn lemma_le_bytes_len(v: nat, n: nat)
    ensures
        le_bytes(v, n).len() == n,
    decreases n,
{
    if n > 0 {
        lemma_le_bytes_len(v / 256, (n - 1) as nat);
    }
}

/// `n` bytes hold a value below `256^n`.
pub proof fn lemma_le_value_bound(b: Seq<u8>)
    ensures
        le_value(b) < pow256(b.len()),
    decreases b.len(),
{
    if b.len() > 0 {
        lemma_le_value_bound(b.drop_first());
    }
}

/// Reading back the bytes written for a value that fits gives the value.
pub proof fn lemma_le_round_trip(v: nat, n: nat)
    requires
        v < pow256(n),
    ensures
        le_value(le_bytes(v, n)) == v,
    decreases n,
{
    if n > 0 {
        let s = le_bytes(v, n);
        assert(s.drop_first() =~= le_bytes(v / 256, (n - 1) as nat));
        lemma_le_round_trip(v / 256, (n - 1) as nat);
    }
}

/// Reads the `n` bytes at `at` as a little-endian unsigned integer.
pub fn read_le(b: &[u8], at: usize, n: usize) -> (r: u64)
    requires
        n <= 8,
        at + n <= b@.len(),
    ensures
        r as nat == le_value(b@.subrange(at as int, at + n)),
{
    let len: usize = b.len();
    let mut k: usize = n;
    let mut v: u64 = 0;
    proof {
        assert(b@.subrange(at + k, at + n) =~= Seq::<u8>::empty());
    }
    while k > 0
        invariant
            k <= n <= 8,
            at + n <= b@.len(),
            len == b@.len(),
            v as nat == le_value(b@.subrange(at + k, at + n)),
        decreases k,
    {
        let ghost tail = b@.subrange(at + k, at + n);
        let ghost whole = b@.subrange(at + k - 1, at + n);
        proof {
            assert(whole.drop_first() =~= tail);
            lemma_le_value_bound(tail);
            assert(pow256(tail.len()) <= pow256(7)) by {
                lemma_pow256_mono(tail.len(), 7);
            }
            lemma_pow256_seven();
        }
        let i: usize = at + (k - 1);
        v = (b[i] as u64) + 256 * v;
        k = k - 1;
    }
    v
}

pub proof fn lemma_pow256_four()
    ensures
        pow256(4) == 0x1_0000_0000,
{
    reveal_with_fuel(pow256, 5);
}

pub proof fn lemma_pow256_eight()
    ensures
        pow256(8) == 0x1_0000_0000_0000_0000,
{
    reveal_with_fuel(pow256, 9);
}

pub proof fn lemma_pow256_seven()
    ensures
        pow256(7) == 0x100000000000000,
{
    reveal_with_fuel(pow256, 8);
}

/// `256^a <= 256^b` when `a <= b`.
pub proof fn lemma_pow256_mono(a: nat, b: nat)
    requires
        a <= b,
    ensures
        pow256(a) <= pow256(b),
    decreases b,
{
    if a < b {
        lemma_pow256_mono(a, (b - 1) as nat);
    }
}

/// Appends the `n` low bytes of `v` to `out`, least significant first.
pub fn push_le(out: &mut Vec<u8>, v: u64, n: usize)
    ensures
        final(out)@ == old(out)@ + le_bytes(v as nat, n as nat),
{
    let ghost start = out@;
    let mut x: u64 = v;
    let mut k: usize = 0;
    while k < n
        invariant
            k <= n,
            out@ + le_bytes(x as nat, (n - k) as nat) == start + le_bytes(v as nat, n as nat),
        decreases n - k,
    {
        let ghost before = out@;
        proof {
            let rest = le_bytes(x as nat, (n - k) as nat);
            assert(rest == seq![(x % 256) as u8] + le_bytes(x as nat / 256, (n - k - 1) as nat));
            assert(before + rest =~= before.push((x % 256) as u8) + le_bytes(x as nat / 256, (n - k - 1) as nat));
        }
        out.push((x % 256) as u8);
        x = x / 256;
        k = k + 1;
    }
    proof {
        assert(out@ + le_bytes(x as nat, 0) =~= out@);
    }
}

} // verus!
