use vstd::prelude::*;

verus! {

/// Whether bit `i` of `x` is set.
pub open spec fn bit(x: u64, i: nat) -> bool {
    i < 64 && (x >> (i as u64)) & 1 == 1
}

/// The number of set bits of `x` among bits `0..n`.
pub open spec fn bits_below(x: u64, n: nat) -> nat
    decreases n,
{
    if n == 0 {
        0
    } else {
        bits_below(x, (n - 1) as nat) + if bit(x, (n - 1) as nat) {
            1nat
        } else {
            0nat
        }
    }
}

/// The indices of the set bits of `x` among bits `0..n`, in increasing order.
pub open spec fn set_indices(x: u64, n: nat) -> Seq<u8>
    decreases n,
{
    if n == 0 {
        seq![]
    } else {
        let rest = set_indices(x, (n - 1) as nat);
        if bit(x, (n - 1) as nat) {
            rest.push((n - 1) as u8)
        } else {
            rest
        }
    }
}

pub proof fn lemma_bits_below_bound(x: u64, n: nat)
    ensures
        bits_below(x, n) <= n,
    decreases n,
{
    if n > 0 {
        lemma_bits_below_bound(x, (n - 1) as nat);
    }
}

/// `set_indices` lists exactly the set bits below `n`, each below `n`.
pub proof fn lemma_set_indices(x: u64, n: nat)
    requires
        n <= 64,
    ensures
        set_indices(x, n).len() == bits_below(x, n),
        forall|k: int| 0 <= k < set_indices(x, n).len() ==> (set_indices(x, n)[k] as nat) < n
            && bit(x, set_indices(x, n)[k] as nat),
        forall|i: nat| i < n && bit(x, i) ==> set_indices(x, n).contains(i as u8),
        forall|i: int, j: int| 0 <= i < j < set_indices(x, n).len() ==> set_indices(x, n)[i] < set_indices(x, n)[j],
    decreases n,
{
    if n > 0 {
        let m = (n - 1) as nat;
        lemma_set_indices(x, m);
        let s = set_indices(x, n);
        let rest = set_indices(x, m);
        assert forall|i: nat| i < n && bit(x, i) implies s.contains(i as u8) by {
            if i < m {
                let k = choose|k: int| 0 <= k < rest.len() && rest[k] == i as u8;
                assert(s[k] == i as u8);
            } else {
                assert(s[s.len() - 1] == i as u8);
            }
        }
    }
}

/// The number of set bits of `x` among bits `0..n`.
pub fn count_bits_below(x: u64, n: u64) -> (r: u32)
    requires
        n <= 64,
    ensures
        r as nat == bits_below(x, n as nat),
{
    let mut r: u32 = 0;
    let mut i: u64 = 0;
    while i < n
        invariant
            n <= 64,
            i <= n,
            r as nat == bits_below(x, i as nat),
        decreases n - i,
    {
        proof {
            lemma_bits_below_bound(x, i as nat);
        }
        if (x >> i) & 1 == 1 {
            r = r + 1;
        }
        i = i + 1;
    }
    r
}

/// The indices of the set bits of `x`, in increasing order.
pub fn one_idxs(x: u64) -> (r: Vec<u8>)
    ensures
        r@ == set_indices(x, 64),
        r@.len() <= 64,
{
    let mut r: Vec<u8> = Vec::new();
    let mut i: u64 = 0;
    while i < 64
        invariant
            i <= 64,
            r@ == set_indices(x, i as nat),
        decreases 64 - i,
    {
        if (x >> i) & 1 == 1 {
            r.push(i as u8);
        }
        i = i + 1;
    }
    proof {
        lemma_set_indices(x, 64);
        lemma_bits_below_bound(x, 64);
    }
    r
}

/// The `randomness % k`-th lowest set bit of `mask`, as a one-bit mask,
/// where `k` is the number of set bits.
pub fn random_bit_from_mask(mask: u64, randomness: u8) -> (r: u64)
    requires
        mask != 0,
    ensures
        ({
            let cells = set_indices(mask, 64);
            &&& cells.len() > 0
            &&& r == 1u64 << (cells[(randomness as int) % (cells.len() as int)] as u64)
        }),
{
    let cells = one_idxs(mask);
    proof {
        lemma_set_indices(mask, 64);
        vstd::std_specs::bits::axiom_u64_trailing_zeros(mask);
        let t = vstd::std_specs::bits::u64_trailing_zeros(mask);
        assert(bit(mask, t as nat));
        assert(cells@.contains(t as u8));
    }
    let k = cells.len();
    let i = (randomness as usize) % k;
    1u64 << (cells[i] as u64)
}

/// Flipping one bit changes the count below `n` by one when the bit is below `n`.
pub proof fn lemma_flip(x: u64, a: u64, n: nat)
    requires
        a < 64,
        n <= 64,
    ensures
        bits_below(x ^ (1u64 << a), n) == bits_below(x, n) + (if a < n {
            if bit(x, a as nat) {
                -1int
            } else {
                1int
            }
        } else {
            0int
        }),
    decreases n,
{
    if n > 0 {
        lemma_flip(x, a, (n - 1) as nat);
        let i = (n - 1) as u64;
        assert(i < 64 && a < 64 ==> (i != a ==> ((x ^ (1u64 << a)) >> i) & 1 == (x >> i) & 1)) by (bit_vector);
        assert(a < 64 ==> (((x ^ (1u64 << a)) >> a) & 1 == 1 <==> (x >> a) & 1 != 1)) by (bit_vector);
    }
}

} // verus!
