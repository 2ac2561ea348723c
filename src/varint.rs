//! The format's variable-length integer: one to nine bytes, most significant first.
use vstd::prelude::*;

use crate::error::DbError;
use vstd::arithmetic::div_mod::{lemma_fundamental_div_mod, lemma_mod_breakdown, lemma_small_mod};

verus! {

/// `128` to the power `n`.
pub open spec fn pow128(n: nat) -> nat
    decreases n,
{
    if n == 0 {
        1
    } else {
        128 * pow128((n - 1) as nat)
    }
}

/// How many bytes the varint at `pos` occupies, counting from its `i`-th byte.
/// A byte past the end of `s` is taken as the last one, so that a varint cut short
/// by the end of the buffer ends beyond it.
pub open spec fn varint_len_from(s: Seq<u8>, pos: int, i: nat) -> nat
    decreases 8 - i,
{
    if i >= 8 {
        9
    } else if pos + i >= s.len() || s[pos + i] < 0x80 {
        i + 1
    } else {
        varint_len_from(s, pos, i + 1)
    }
}

/// How many bytes the varint that starts at `pos` occupies (1 to 9).
pub open spec fn varint_len(s: Seq<u8>, pos: int) -> nat {
    varint_len_from(s, pos, 0)
}

/// The varint that starts at `pos` ends within `s`.
pub open spec fn varint_fits(s: Seq<u8>, pos: int) -> bool {
    0 <= pos && pos + varint_len(s, pos) <= s.len()
}

/// The low seven bits of the first `n` bytes at `pos`, most significant first.
pub open spec fn varint_prefix(s: Seq<u8>, pos: int, n: nat) -> int
    decreases n,
{
    if n == 0 {
        0
    } else {
        varint_prefix(s, pos, (n - 1) as nat) * 128 + s[pos + n - 1] % 128
    }
}

/// The unsigned 64-bit value of the varint at `pos`: the seven-bit groups of its
/// first bytes, and for a nine-byte varint the ninth byte in the most significant
/// byte position.
pub open spec fn varint_value(s: Seq<u8>, pos: int) -> int {
    let n = varint_len(s, pos);
    if n == 9 {
        varint_prefix(s, pos, 8) + s[pos + 8] * 0x100_0000_0000_0000
    } else {
        varint_prefix(s, pos, n)
    }
}

proof fn lemma_len_from_bounds(s: Seq<u8>, pos: int, i: nat)
    requires
        i <= 8,
    ensures
        i + 1 <= varint_len_from(s, pos, i) <= 9,
    decreases 8 - i,
{
    if i < 8 && !(pos + i >= s.len() || s[pos + i] < 0x80) {
        lemma_len_from_bounds(s, pos, i + 1);
    }
}

/// A varint occupies one to nine bytes.
pub proof fn lemma_varint_len_bounds(s: Seq<u8>, pos: int)
    ensures
        1 <= varint_len(s, pos) <= 9,
{
    lemma_len_from_bounds(s, pos, 0);
}

proof fn lemma_len_from_prefix(s: Seq<u8>, k: int, pos: int, i: nat)
    requires
        i <= 8,
        0 <= pos,
        pos + varint_len_from(s, pos, i) <= k <= s.len(),
    ensures
        varint_len_from(s.subrange(0, k), pos, i) == varint_len_from(s, pos, i),
    decreases 8 - i,
{
    lemma_len_from_bounds(s, pos, i);
    if i < 8 && !(pos + i >= s.len() || s[pos + i] < 0x80) {
        lemma_len_from_prefix(s, k, pos, i + 1);
    }
}

proof fn lemma_prefix_prefix(s: Seq<u8>, k: int, pos: int, n: nat)
    requires
        0 <= pos,
        pos + n <= k <= s.len(),
    ensures
        varint_prefix(s.subrange(0, k), pos, n) == varint_prefix(s, pos, n),
    decreases n,
{
    if n > 0 {
        lemma_prefix_prefix(s, k, pos, (n - 1) as nat);
    }
}

/// A varint reads the same in any prefix of the buffer that still holds it whole.
pub proof fn lemma_varint_in_prefix(s: Seq<u8>, k: int, pos: int)
    requires
        varint_fits(s, pos),
        pos + varint_len(s, pos) <= k <= s.len(),
    ensures
        varint_fits(s.subrange(0, k), pos),
        varint_len(s.subrange(0, k), pos) == varint_len(s, pos),
        varint_value(s.subrange(0, k), pos) == varint_value(s, pos),
{
    lemma_len_from_prefix(s, k, pos, 0);
    lemma_varint_len_bounds(s, pos);
    if varint_len(s, pos) == 9 {
        lemma_prefix_prefix(s, k, pos, 8);
    } else {
        lemma_prefix_prefix(s, k, pos, varint_len(s, pos));
    }
}

proof fn lemma_prefix_bound(s: Seq<u8>, pos: int, n: nat)
    ensures
        0 <= varint_prefix(s, pos, n) < pow128(n),
    decreases n,
{
    if n > 0 {
        lemma_prefix_bound(s, pos, (n - 1) as nat);
        let p = varint_prefix(s, pos, (n - 1) as nat);
        let q = pow128((n - 1) as nat);
        assert(p * 128 + s[pos + n - 1] % 128 < q * 128) by (nonlinear_arith)
            requires
                0 <= p < q,
                0 <= s[pos + n - 1] % 128 < 128,
        ;
    }
}

proof fn lemma_pow128_mono(a: nat, b: nat)
    requires
        a <= b,
    ensures
        pow128(a) <= pow128(b),
    decreases b,
{
    if a < b {
        lemma_pow128_mono(a, (b - 1) as nat);
    }
}

proof fn lemma_pow128_8()
    ensures
        pow128(7) == 0x2_0000_0000_0000,
        pow128(8) == 0x100_0000_0000_0000,
{
    reveal_with_fuel(pow128, 9);
}

/// Decodes the varint that starts at `pos` in `buffer`, as a signed 64-bit integer.
/// Returns the value and the position just after the varint.
pub fn parse_varint(buffer: &[u8], pos: usize) -> (r: Result<(i64, usize), DbError>)
    requires
        pos <= buffer@.len(),
    ensures
        match r {
            Ok((v, end)) => {
                &&& varint_fits(buffer@, pos as int)
                &&& v == varint_value(buffer@, pos as int) as i64
                &&& end == pos + varint_len(buffer@, pos as int)
            },
            Err(e) => !varint_fits(buffer@, pos as int) && e == DbError::FormatTruncated,
        },
{
    let n = buffer.len();
    let mut acc: u64 = 0;
    let mut length: usize = 0;
    proof {
        lemma_pow128_8();
    }
    loop
        invariant_except_break
            length <= 8,
            varint_len(buffer@, pos as int) == varint_len_from(buffer@, pos as int, length as nat),
            acc == varint_prefix(buffer@, pos as int, length as nat),
            acc < pow128(length as nat),
        invariant
            n == buffer@.len(),
            pos <= buffer@.len(),
            pos + length <= buffer@.len(),
            pow128(7) == 0x2_0000_0000_0000,
            pow128(8) == 0x100_0000_0000_0000,
        ensures
            1 <= length <= 9,
            pos + length <= buffer@.len(),
            length == varint_len(buffer@, pos as int),
            length < 9 ==> acc == varint_prefix(buffer@, pos as int, length as nat),
            length == 9 ==> acc == varint_prefix(buffer@, pos as int, 8) + buffer@[pos + 8]
                * 0x100_0000_0000_0000,
        decreases 9 - length,
    {
        if length >= n - pos {
            return Err(DbError::FormatTruncated);
        }
        let byte = buffer[pos + length];
        if length == 8 {
            acc = acc + (byte as u64) * 0x100_0000_0000_0000;
            length = 9;
            break ;
        }
        proof {
            lemma_pow128_mono(length as nat, 7);
            lemma_prefix_bound(buffer@, pos as int, (length + 1) as nat);
        }
        acc = acc * 128 + (byte % 128) as u64;
        length = length + 1;
        if byte < 0x80 {
            break ;
        }
    }
    Ok((#[verifier::truncate] (acc as i64), pos + length))
}

/// The `j` lowest seven-bit groups of `m`, most significant first, each with its
/// continuation bit set.
pub open spec fn continued_groups(m: nat, j: nat) -> Seq<u8>
    decreases j,
{
    if j == 0 {
        Seq::empty()
    } else {
        continued_groups(m / 128, (j - 1) as nat).push((128 + m % 128) as u8)
    }
}

/// How many seven-bit groups `n` needs (at least one).
pub open spec fn group_count(n: nat) -> nat
    decreases n,
{
    if n < 128 {
        1
    } else {
        1 + group_count(n / 128)
    }
}

/// The shortest varint that encodes `n` (`0 <= n < 2^64`): its seven-bit groups
/// when it fits in 56 bits, else eight groups for the low 56 bits and a ninth byte
/// for the top eight.
pub open spec fn varint_encode(n: nat) -> Seq<u8> {
    if n < 0x100_0000_0000_0000 {
        continued_groups(n / 128, (group_count(n) - 1) as nat).push((n % 128) as u8)
    } else {
        continued_groups(n % 0x100_0000_0000_0000, 8).push((n / 0x100_0000_0000_0000) as u8)
    }
}

proof fn lemma_groups_continue(m: nat, j: nat)
    ensures
        continued_groups(m, j).len() == j,
        forall|i: int| 0 <= i < j ==> #[trigger] continued_groups(m, j)[i] >= 0x80,
    decreases j,
{
    if j > 0 {
        lemma_groups_continue(m / 128, (j - 1) as nat);
    }
}

proof fn lemma_groups_prefix(m: nat, j: nat)
    ensures
        varint_prefix(continued_groups(m, j), 0, j) == m % pow128(j),
    decreases j,
{
    if j > 0 {
        let s = continued_groups(m, j);
        lemma_groups_continue(m, j);
        lemma_groups_continue(m / 128, (j - 1) as nat);
        lemma_groups_prefix(m / 128, (j - 1) as nat);
        lemma_prefix_prefix(s, j - 1, 0, (j - 1) as nat);
        assert(s.subrange(0, j - 1) =~= continued_groups(m / 128, (j - 1) as nat));
        assert(s[j - 1] % 128 == m % 128);
        lemma_pow128_mono(0, (j - 1) as nat);
        lemma_mod_breakdown(m as int, 128, pow128((j - 1) as nat) as int);
    }
}

proof fn lemma_len_from_continued(s: Seq<u8>, j: nat, i: nat)
    requires
        i <= j <= 8,
        j < s.len(),
        forall|k: int| 0 <= k < j ==> s[k] >= 0x80,
        j < 8 ==> s[j as int] < 0x80,
    ensures
        varint_len_from(s, 0, i) == if j < 8 {
            j + 1
        } else {
            9
        },
    decreases j - i,
{
    if i < j {
        lemma_len_from_continued(s, j, i + 1);
    }
}

proof fn lemma_group_count(n: nat)
    ensures
        1 <= group_count(n),
        n < pow128(group_count(n)),
    decreases n,
{
    reveal_with_fuel(pow128, 2);
    if n >= 128 {
        lemma_group_count(n / 128);
        lemma_fundamental_div_mod(n as int, 128);
        let q = n / 128;
        let p = pow128(group_count(q));
        assert(n < 128 * p) by (nonlinear_arith)
            requires
                n == 128 * q + n % 128,
                n % 128 < 128,
                q < p,
        ;
    }
}

proof fn lemma_group_count_at_most(n: nat, j: nat)
    requires
        1 <= j,
        n < pow128(j),
    ensures
        group_count(n) <= j,
    decreases j,
{
    reveal_with_fuel(pow128, 2);
    if n >= 128 && j > 1 {
        lemma_fundamental_div_mod(n as int, 128);
        let p = pow128((j - 1) as nat);
        assert(n / 128 < p) by (nonlinear_arith)
            requires
                n == 128 * (n / 128) + n % 128,
                0 <= n % 128,
                n < 128 * p,
        ;
        lemma_group_count_at_most(n / 128, (j - 1) as nat);
    }
}

/// Decoding undoes encoding: for every 64-bit value `n`, the varint that encodes it
/// decodes to `n` and ends exactly where the encoding ends.
pub proof fn lemma_varint_round_trip(n: nat)
    requires
        n < 0x1_0000_0000_0000_0000,
    ensures
        varint_fits(varint_encode(n), 0),
        varint_len(varint_encode(n), 0) == varint_encode(n).len(),
        varint_value(varint_encode(n), 0) == n,
{
    lemma_pow128_8();
    let e = varint_encode(n);
    if n < 0x100_0000_0000_0000 {
        let k = group_count(n);
        lemma_group_count(n);
        lemma_group_count_at_most(n, 8);
        let g = continued_groups(n / 128, (k - 1) as nat);
        lemma_groups_continue(n / 128, (k - 1) as nat);
        assert(e == g.push((n % 128) as u8));
        assert forall|i: int| 0 <= i < k - 1 implies e[i] >= 0x80 by {
            assert(e[i] == g[i]);
        }
        lemma_len_from_continued(e, (k - 1) as nat, 0);
        lemma_groups_prefix(n / 128, (k - 1) as nat);
        lemma_prefix_prefix(e, k - 1, 0, (k - 1) as nat);
        assert(e.subrange(0, k - 1) =~= g);
        lemma_mod_breakdown(n as int, 128, pow128((k - 1) as nat) as int);
        lemma_small_mod(n, pow128(k));
    } else {
        let g = continued_groups(n % 0x100_0000_0000_0000, 8);
        lemma_groups_continue(n % 0x100_0000_0000_0000, 8);
        assert(e == g.push((n / 0x100_0000_0000_0000) as u8));
        assert forall|i: int| 0 <= i < 8 implies e[i] >= 0x80 by {
            assert(e[i] == g[i]);
        }
        lemma_len_from_continued(e, 8, 0);
        lemma_groups_prefix(n % 0x100_0000_0000_0000, 8);
        lemma_prefix_prefix(e, 8, 0, 8);
        assert(e.subrange(0, 8) =~= g);
        lemma_small_mod((n % 0x100_0000_0000_0000) as nat, pow128(8));
        lemma_fundamental_div_mod(n as int, 0x100_0000_0000_0000);
    }
}

} // verus!
