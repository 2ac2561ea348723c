//! Big-endian fixed-width integers inside byte buffers.
use vstd::prelude::*;

verus! {

/// `256` to the power `n`.
pub open spec fn pow256(n: nat) -> nat
    decreases n,
{
    if n == 0 {
        1
    } else {
        256 * pow256((n - 1) as nat)
    }
}

/// The unsigned big-endian integer held in the `n` bytes at `pos`.
pub open spec fn be_uint(s: Seq<u8>, pos: int, n: nat) -> int
    decreases n,
{
    if n == 0 {
        0
    } else {
        be_uint(s, pos, (n - 1) as nat) * 256 + s[pos + n - 1]
    }
}

/// The two's-complement reading of the `n` bytes at `pos`.
pub open spec fn be_int(s: Seq<u8>, pos: int, n: nat) -> int {
    let u = be_uint(s, pos, n);
    if n > 0 && u >= pow256(n) / 2 {
        u - pow256(n)
    } else {
        u
    }
}

pub proof fn lemma_be_uint_bound(s: Seq<u8>, pos: int, n: nat)
    ensures
        0 <= be_uint(s, pos, n) < pow256(n),
    decreases n,
{
    if n > 0 {
        lemma_be_uint_bound(s, pos, (n - 1) as nat);
        let p = be_uint(s, pos, (n - 1) as nat);
        let q = pow256((n - 1) as nat);
        let b = s[pos + n - 1];
        assert(p * 256 + b < q * 256) by (nonlinear_arith)
            requires
                0 <= p < q,
                0 <= b < 256,
        ;
    }
}

pub proof fn lemma_pow256_values()
    ensures
        pow256(1) == 0x100,
        pow256(2) == 0x1_0000,
        pow256(3) == 0x100_0000,
        pow256(4) == 0x1_0000_0000,
        pow256(6) == 0x1_0000_0000_0000,
        pow256(8) == 0x1_0000_0000_0000_0000,
{
    reveal_with_fuel(pow256, 9);
}

proof fn lemma_pow256_mono(a: nat, b: nat)
    requires
        a <= b,
    ensures
        pow256(a) <= pow256(b),
    decreases b,
{
    if a < b {
        lemma_pow256_mono(a, (b - 1) as nat);
    }
}

/// Reads the unsigned big-endian integer of `n` bytes at `pos`.
pub fn read_be_uint(buffer: &[u8], pos: usize, n: usize) -> (r: u64)
    requires
        n <= 8,
        pos + n <= buffer@.len(),
    ensures
        r == be_uint(buffer@, pos as int, n as nat),
{
    let mut acc: u64 = 0;
    let mut i: usize = 0;
    proof {
        lemma_pow256_values();
        assert(buffer@.len() == buffer.len());
    }
    while i < n
        invariant
            buffer@.len() <= usize::MAX,
            i <= n <= 8,
            pos + n <= buffer@.len(),
            acc == be_uint(buffer@, pos as int, i as nat),
            pow256(8) == 0x1_0000_0000_0000_0000,
        decreases n - i,
    {
        proof {
            lemma_be_uint_bound(buffer@, pos as int, (i + 1) as nat);
            lemma_pow256_mono((i + 1) as nat, 8);
        }
        acc = acc * 256 + buffer[pos + i] as u64;
        i = i + 1;
    }
    acc
}

/// Reads the big-endian `u16` at `pos`.
pub fn read_be_u16(buffer: &[u8], pos: usize) -> (r: u16)
    requires
        pos + 2 <= buffer@.len(),
    ensures
        r == be_uint(buffer@, pos as int, 2),
{
    proof {
        lemma_be_uint_bound(buffer@, pos as int, 2);
        lemma_pow256_values();
    }
    read_be_uint(buffer, pos, 2) as u16
}

/// Reads the big-endian `u32` at `pos`.
pub fn read_be_u32(buffer: &[u8], pos: usize) -> (r: u32)
    requires
        pos + 4 <= buffer@.len(),
    ensures
        r == be_uint(buffer@, pos as int, 4),
{
    proof {
        lemma_be_uint_bound(buffer@, pos as int, 4);
        lemma_pow256_values();
    }
    read_be_uint(buffer, pos, 4) as u32
}

} // verus!
