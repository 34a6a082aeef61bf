//! Bits of a byte and bytes assembled from sampled line levels.

use vstd::prelude::*;

verus! {

/// Whether bit `i` (0 = least significant) of `b` is set.
pub open spec fn bit(b: u8, i: u8) -> bool {
    (b >> i) & 1u8 == 1u8
}

/// The value of a level as a bit.
pub open spec fn level_bit(level: bool) -> u8 {
    if level {
        1u8
    } else {
        0u8
    }
}

/// The byte obtained by shifting the levels in one after another from the
/// right: the first level ends up in the most significant position.
pub open spec fn shift_in(levels: Seq<bool>) -> u8
    decreases levels.len(),
{
    if levels.len() == 0 {
        0u8
    } else {
        (shift_in(levels.drop_last()) << 1u8) | level_bit(levels.last())
    }
}

/// The byte whose bit `k` is the `k`-th level: the first level is the least
/// significant bit.
pub open spec fn lsb_first(levels: Seq<bool>) -> u8
    decreases levels.len(),
{
    if levels.len() == 0 {
        0u8
    } else {
        lsb_first(levels.drop_last()) | (level_bit(levels.last()) << ((levels.len() - 1) as u8))
    }
}

/// The `n` bytes shifted in from consecutive groups of eight levels.
pub open spec fn shifted_bytes(levels: Seq<bool>, n: nat) -> Seq<u8> {
    Seq::new(n, |j: int| shift_in(levels.subrange(8 * j, 8 * j + 8)))
}

/// The `n` bytes placed least significant bit first from consecutive
/// groups of eight levels.
pub open spec fn placed_bytes(levels: Seq<bool>, n: nat) -> Seq<u8> {
    Seq::new(n, |j: int| lsb_first(levels.subrange(8 * j, 8 * j + 8)))
}

proof fn lemma_shift_step(x: u8, v: u8, j: u8)
    by (bit_vector)
    requires
        v <= 1,
        j < 7,
    ensures
        (((x << 1u8) | v) >> (j + 1) as u8) & 1u8 == (x >> j) & 1u8,
        ((x << 1u8) | v) & 1u8 == v,
{
}

proof fn lemma_shift_bound(x: u8, v: u8, n: u8)
    by (bit_vector)
    requires
        v <= 1,
        n < 8,
        x < (1u8 << n),
    ensures
        ((x << 1u8) | v) < (1u16 << (n + 1) as u16),
{
}

/// Shifting in `n <= 8` levels puts the `k`-th level at bit `n - 1 - k`.
pub proof fn lemma_shift_in_bits(levels: Seq<bool>)
    requires
        levels.len() <= 8,
    ensures
        forall|k: int|
            0 <= k < levels.len() ==> #[trigger] bit(shift_in(levels), (levels.len() - 1 - k) as u8)
                == levels[k],
        (shift_in(levels) as int) < (1u16 << (levels.len() as u16)) as int,
    decreases levels.len(),
{
    if levels.len() == 0 {
        assert((1u16 << 0u16) == 1u16) by (bit_vector);
    } else {
        let prefix = levels.drop_last();
        lemma_shift_in_bits(prefix);
        let x = shift_in(prefix);
        let v = level_bit(levels.last());
        let n = prefix.len();
        assert(n < 8);
        assert(shift_in(levels) == (x << 1u8) | v);
        if n == 0 {
            assert(x == 0);
        }
        assert forall|k: int| 0 <= k < levels.len() implies #[trigger] bit(
            shift_in(levels),
            (levels.len() - 1 - k) as u8,
        ) == levels[k] by {
            let y = (x << 1u8) | v;
            if k == n {
                lemma_shift_step(x, v, 0);
                assert(y >> 0u8 == y) by (bit_vector);
                assert((levels.len() - 1 - k) as u8 == 0u8);
                assert(levels.last() == levels[k]);
                assert(bit(y, 0u8) == levels[k]);
            } else {
                let j = (n - 1 - k) as u8;
                lemma_shift_step(x, v, j);
                assert(prefix[k] == levels[k]);
                assert(bit(x, j) == prefix[k]);
                assert((levels.len() - 1 - k) as u8 == (j + 1) as u8);
                assert(bit(y, (j + 1) as u8) == levels[k]);
            }
        }
        assert(x < (1u8 << (n as u8))) by {
            if n < 8 {
                let nn = n as u8;
                assert(nn < 8 ==> (1u16 << nn as u16) as int == (1u8 << nn) as int) by (bit_vector);
            }
        }
        lemma_shift_bound(x, v, n as u8);
    }
}

proof fn lemma_place_step(x: u8, v: u8, n: u8, k: u8)
    by (bit_vector)
    requires
        v <= 1,
        n < 8,
        (x as u16) < (1u16 << n as u16),
        k < 8,
    ensures
        k < n ==> ((x | (v << n)) >> k) & 1u8 == (x >> k) & 1u8,
        ((x | (v << n)) >> n) & 1u8 == v,
        ((x | (v << n)) as u16) < (1u16 << (n + 1) as u16),
{
}

/// Placing `n <= 8` levels from the least significant bit up puts the
/// `k`-th level at bit `k`.
pub proof fn lemma_lsb_first_bits(levels: Seq<bool>)
    requires
        levels.len() <= 8,
    ensures
        forall|k: int| 0 <= k < levels.len() ==> #[trigger] bit(lsb_first(levels), k as u8) == levels[k],
        (lsb_first(levels) as u16) < (1u16 << (levels.len() as u16)),
    decreases levels.len(),
{
    if levels.len() == 0 {
        assert((1u16 << 0u16) == 1u16) by (bit_vector);
    } else {
        let prefix = levels.drop_last();
        lemma_lsb_first_bits(prefix);
        let x = lsb_first(prefix);
        let v = level_bit(levels.last());
        let n = prefix.len() as u8;
        assert(lsb_first(levels) == x | (v << n));
        assert forall|k: int| 0 <= k < levels.len() implies #[trigger] bit(lsb_first(levels), k as u8)
            == levels[k] by {
            let y = x | (v << n);
            if k == n {
                lemma_place_step(x, v, n, 0);
                assert(levels.last() == levels[k]);
                assert(k as u8 == n);
                assert(bit(y, n) == levels[k]);
            } else {
                lemma_place_step(x, v, n, k as u8);
                assert(prefix[k] == levels[k]);
                assert(bit(x, k as u8) == prefix[k]);
                assert(bit(y, k as u8) == bit(x, k as u8));
            }
        }
        lemma_place_step(x, v, n, 0);
    }
}

/// Two bytes with the same eight bits are equal.
pub proof fn lemma_bits_determine_byte(x: u8, y: u8)
    requires
        forall|k: u8| k < 8 ==> bit(x, k) == bit(y, k),
    ensures
        x == y,
{
    assert(bit(x, 0) == bit(y, 0));
    assert(bit(x, 1) == bit(y, 1));
    assert(bit(x, 2) == bit(y, 2));
    assert(bit(x, 3) == bit(y, 3));
    assert(bit(x, 4) == bit(y, 4));
    assert(bit(x, 5) == bit(y, 5));
    assert(bit(x, 6) == bit(y, 6));
    assert(bit(x, 7) == bit(y, 7));
    assert(x == y) by (bit_vector)
        requires
            ((x >> 0u8) & 1u8 == 1u8) == ((y >> 0u8) & 1u8 == 1u8),
            ((x >> 1u8) & 1u8 == 1u8) == ((y >> 1u8) & 1u8 == 1u8),
            ((x >> 2u8) & 1u8 == 1u8) == ((y >> 2u8) & 1u8 == 1u8),
            ((x >> 3u8) & 1u8 == 1u8) == ((y >> 3u8) & 1u8 == 1u8),
            ((x >> 4u8) & 1u8 == 1u8) == ((y >> 4u8) & 1u8 == 1u8),
            ((x >> 5u8) & 1u8 == 1u8) == ((y >> 5u8) & 1u8 == 1u8),
            ((x >> 6u8) & 1u8 == 1u8) == ((y >> 6u8) & 1u8 == 1u8),
            ((x >> 7u8) & 1u8 == 1u8) == ((y >> 7u8) & 1u8 == 1u8),
    ;
}

/// The byte shifted in from eight levels that the given `levels[start..]`
/// begin with.
fn shift_in_at(levels: &Vec<bool>, start: usize) -> (b: u8)
    requires
        start + 8 <= levels.len(),
    ensures
        b == shift_in(levels@.subrange(start as int, start + 8)),
{
    let mut b: u8 = 0;
    let mut k: usize = 0;
    while k < 8
        invariant
            k <= 8,
            start + 8 <= levels.len(),
            b == shift_in(levels@.subrange(start as int, start + k)),
        decreases 8 - k,
    {
        let level = levels[start + k];
        let v: u8 = if level {
            1
        } else {
            0
        };
        assert(levels@.subrange(start as int, start + k + 1).drop_last() =~= levels@.subrange(
            start as int,
            start + k,
        ));
        b = (b << 1u8) | v;
        k = k + 1;
    }
    b
}

/// The `n` bytes shifted in from consecutive groups of eight levels.
pub fn shift_in_bytes(levels: &Vec<bool>, n: usize) -> (bytes: Vec<u8>)
    requires
        8 * n <= levels.len(),
    ensures
        bytes@ == shifted_bytes(levels@, n as nat),
{
    let mut bytes: Vec<u8> = Vec::new();
    let mut j: usize = 0;
    while j < n
        invariant
            j <= n,
            8 * n <= levels.len(),
            bytes@ == shifted_bytes(levels@, j as nat),
        decreases n - j,
    {
        let b = shift_in_at(levels, 8 * j);
        bytes.push(b);
        j = j + 1;
        assert(bytes@ =~= shifted_bytes(levels@, j as nat));
    }
    bytes
}

/// The byte whose bit `k` is `levels[k]`, for the first eight levels.
pub fn lsb_first_byte(levels: &Vec<bool>) -> (b: u8)
    requires
        8 <= levels.len(),
    ensures
        b == lsb_first(levels@.subrange(0, 8)),
{
    let mut b: u8 = 0;
    let mut k: usize = 0;
    while k < 8
        invariant
            k <= 8,
            8 <= levels.len(),
            b == lsb_first(levels@.subrange(0, k as int)),
        decreases 8 - k,
    {
        let v: u8 = if levels[k] {
            1
        } else {
            0
        };
        assert(levels@.subrange(0, k + 1).drop_last() =~= levels@.subrange(0, k as int));
        b = b | (v << (k as u8));
        k = k + 1;
    }
    b
}

/// The byte whose bit `k` is `levels[start + k]`, for eight levels.
fn lsb_first_at(levels: &Vec<bool>, start: usize) -> (b: u8)
    requires
        start + 8 <= levels.len(),
    ensures
        b == lsb_first(levels@.subrange(start as int, start + 8)),
{
    let mut b: u8 = 0;
    let mut k: usize = 0;
    while k < 8
        invariant
            k <= 8,
            start + 8 <= levels.len(),
            b == lsb_first(levels@.subrange(start as int, start + k)),
        decreases 8 - k,
    {
        let v: u8 = if levels[start + k] {
            1
        } else {
            0
        };
        assert(levels@.subrange(start as int, start + k + 1).drop_last() =~= levels@.subrange(
            start as int,
            start + k,
        ));
        b = b | (v << (k as u8));
        k = k + 1;
    }
    b
}

/// The `n` bytes placed least significant bit first from consecutive
/// groups of eight levels.
pub fn lsb_first_bytes(levels: &Vec<bool>, n: usize) -> (bytes: Vec<u8>)
    requires
        8 * n <= levels.len(),
    ensures
        bytes@ == placed_bytes(levels@, n as nat),
{
    let mut bytes: Vec<u8> = Vec::new();
    let mut j: usize = 0;
    while j < n
        invariant
            j <= n,
            8 * n <= levels.len(),
            bytes@ == placed_bytes(levels@, j as nat),
        decreases n - j,
    {
        let b = lsb_first_at(levels, 8 * j);
        bytes.push(b);
        j = j + 1;
        assert(bytes@ =~= placed_bytes(levels@, j as nat));
    }
    bytes
}

} // verus!
