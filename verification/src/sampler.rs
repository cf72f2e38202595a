use vstd::prelude::*;

use crate::rng::{chacha_draw, draw_in_range, gen_seed, gen_taken, rng_from_seed};

verus! {

/// The bounds `[i, domain)` that the first `n` steps of a partial
/// Fisher-Yates shuffle over `domain` slots hand to the generator.
pub open spec fn shuffle_ranges(domain: int, n: int) -> Seq<(int, int)> {
    Seq::new(n as nat, |i: int| (i, domain))
}

/// The generator's draw at step `i` of the shuffle, forced into the range
/// `[i, domain)` that the generator contract promises. The executable
/// sampler never sees the fallback arm, but having the bound hold at the
/// specification level keeps every property of the model provable.
pub open spec fn draw_at(seed: Seq<u8>, domain: int, i: int) -> int {
    let r = chacha_draw(seed, shuffle_ranges(domain, i), i, domain);
    if i <= r < domain {
        r
    } else {
        i
    }
}

/// The slot array after the first `n` steps of the shuffle seeded with
/// `seed`: the array starts as the identity over `[0, domain)`, and step `i`
/// swaps slot `i` with slot `draw_at(seed, domain, i)`.
pub open spec fn shuffle_slots(seed: Seq<u8>, domain: int, n: int) -> Seq<int>
    decreases n,
{
    if n <= 0 {
        Seq::new(domain as nat, |k: int| k)
    } else {
        let prev = shuffle_slots(seed, domain, n - 1);
        let i = n - 1;
        let j = draw_at(seed, domain, i);
        prev.update(i, prev[j]).update(j, prev[i])
    }
}

/// The ordered sample of `len` unique positions over `[0, domain)` that the
/// generator seeded with `seed` produces.
pub open spec fn sample_spec(seed: Seq<u8>, domain: int, len: int) -> Seq<int> {
    shuffle_slots(seed, domain, len).take(len)
}

proof fn lemma_shuffle_slots_len(seed: Seq<u8>, domain: int, n: int)
    requires
        0 <= n <= domain,
    ensures
        shuffle_slots(seed, domain, n).len() == domain,
    decreases n,
{
    if n > 0 {
        lemma_shuffle_slots_len(seed, domain, n - 1);
        let prev = shuffle_slots(seed, domain, n - 1);
        let i = n - 1;
        let j = draw_at(seed, domain, i);
        assert(shuffle_slots(seed, domain, n) == prev.update(i, prev[j]).update(j, prev[i]));
    } else {
        assert(shuffle_slots(seed, domain, n) == Seq::new(domain as nat, |k: int| k));
    }
}

/// After any number of steps up to the domain size, the slot array is still
/// a permutation: its entries are pairwise distinct and lie in `[0, domain)`.
proof fn lemma_shuffle_slots_permutation(seed: Seq<u8>, domain: int, n: int)
    requires
        0 <= n <= domain,
    ensures
        shuffle_slots(seed, domain, n).len() == domain,
        forall|k: int|
            0 <= k < domain ==> 0 <= #[trigger] shuffle_slots(seed, domain, n)[k] < domain,
        forall|a: int, b: int|
            0 <= a < b < domain ==> shuffle_slots(seed, domain, n)[a] != shuffle_slots(
                seed,
                domain,
                n,
            )[b],
    decreases n,
{
    lemma_shuffle_slots_len(seed, domain, n);
    if n > 0 {
        lemma_shuffle_slots_permutation(seed, domain, n - 1);
        let prev = shuffle_slots(seed, domain, n - 1);
        let cur = shuffle_slots(seed, domain, n);
        let i = n - 1;
        let j = draw_at(seed, domain, i);
        assert(i <= j < domain);
        assert(forall|k: int| 0 <= k < domain ==> 0 <= #[trigger] cur[k] < domain);
        assert forall|a: int, b: int| 0 <= a < b < domain implies cur[a] != cur[b] by {
            assert(cur[a] == if a == i {
                prev[j]
            } else if a == j {
                prev[i]
            } else {
                prev[a]
            });
            assert(cur[b] == if b == i {
                prev[j]
            } else if b == j {
                prev[i]
            } else {
                prev[b]
            });
        }
    }
}

/// Index uniqueness and bounds: a sample of length `len` over `[0, domain)`
/// consists of `len` pairwise-distinct positions, each within the domain.
pub proof fn lemma_sample_unique_and_bounded(seed: Seq<u8>, domain: int, len: int)
    requires
        0 <= len <= domain,
    ensures
        sample_spec(seed, domain, len).len() == len,
        forall|k: int| 0 <= k < len ==> 0 <= #[trigger] sample_spec(seed, domain, len)[k] < domain,
        forall|a: int, b: int|
            0 <= a < b < len ==> sample_spec(seed, domain, len)[a] != sample_spec(
                seed,
                domain,
                len,
            )[b],
{
    lemma_shuffle_slots_permutation(seed, domain, len);
}

/// Prefix consistency: under the same seed and domain, a shorter sample is
/// exactly the prefix of a longer one, because the swap at each step only
/// moves slots at or beyond that step's index.
pub proof fn lemma_sample_prefix_consistent(seed: Seq<u8>, domain: int, l1: int, l2: int)
    requires
        0 <= l1 <= l2 <= domain,
    ensures
        sample_spec(seed, domain, l1) == sample_spec(seed, domain, l2).take(l1),
    decreases l2 - l1,
{
    lemma_shuffle_slots_len(seed, domain, l1);
    lemma_shuffle_slots_len(seed, domain, l2);
    if l1 == l2 {
        assert(sample_spec(seed, domain, l1) =~= sample_spec(seed, domain, l2).take(l1));
    } else {
        lemma_sample_prefix_consistent(seed, domain, l1, l2 - 1);
        lemma_shuffle_slots_len(seed, domain, l2 - 1);
        let prev = shuffle_slots(seed, domain, l2 - 1);
        let cur = shuffle_slots(seed, domain, l2);
        let i = l2 - 1;
        let j = draw_at(seed, domain, i);
        assert(i <= j);
        assert(forall|k: int| 0 <= k < l1 ==> cur[k] == prev[k]);
        assert(sample_spec(seed, domain, l1) =~= sample_spec(seed, domain, l2).take(l1));
    }
}

/// One partial Fisher-Yates pass: for each step `i` below `amount`, swaps
/// slot `i` with a slot drawn from `[i, length)`, and returns the first
/// `amount` slots in the order produced.
pub fn sample_inplace(rng: &mut rand_chacha::ChaCha20Rng, length: u32, amount: u32) -> (r: Vec<u32>)
    requires
        amount <= length,
        gen_taken(*old(rng)) == Seq::<(int, int)>::empty(),
    ensures
        r@.map_values(|v: u32| v as int) == sample_spec(
            gen_seed(*old(rng)),
            length as int,
            amount as int,
        ),
        r@.len() == amount,
{
    let ghost seed = gen_seed(*old(rng));
    let ghost domain = length as int;
    let mut indices: Vec<u32> = Vec::new();
    let mut k: u32 = 0;
    while k < length
        invariant
            0 <= k <= length,
            indices@.len() == k,
            forall|m: int| 0 <= m < k ==> indices@[m] == m,
        decreases length - k,
    {
        indices.push(k);
        k = k + 1;
    }
    proof {
        lemma_shuffle_slots_len(seed, domain, 0);
        assert(indices@.map_values(|v: u32| v as int) =~= shuffle_slots(seed, domain, 0));
    }
    let mut i: u32 = 0;
    while i < amount
        invariant
            0 <= i <= amount <= length,
            seed == gen_seed(*old(rng)),
            domain == length as int,
            indices@.len() == length,
            gen_seed(*rng) == seed,
            gen_taken(*rng) == shuffle_ranges(domain, i as int),
            indices@.map_values(|v: u32| v as int) == shuffle_slots(seed, domain, i as int),
        decreases amount - i,
    {
        proof {
            lemma_shuffle_slots_permutation(seed, domain, i as int);
        }
        let j: u32 = draw_in_range(rng, i, length);
        proof {
            assert(gen_taken(*rng) =~= shuffle_ranges(domain, i as int + 1));
            assert(j == draw_at(seed, domain, i as int));
        }
        let ghost prev = indices@.map_values(|v: u32| v as int);
        let tmp = indices[i as usize];
        let drawn = indices[j as usize];
        indices.set(i as usize, drawn);
        indices.set(j as usize, tmp);
        proof {
            assert(indices@.map_values(|v: u32| v as int) =~= prev.update(
                i as int,
                prev[j as int],
            ).update(j as int, prev[i as int]));
            assert(indices@.map_values(|v: u32| v as int) == shuffle_slots(
                seed,
                domain,
                i as int + 1,
            ));
        }
        i = i + 1;
    }
    indices.truncate(amount as usize);
    proof {
        assert(indices@.map_values(|v: u32| v as int) =~= sample_spec(
            seed,
            domain,
            amount as int,
        ));
    }
    indices
}

/// Seeds a fresh generator from a 32-byte key and draws `length` unique
/// positions over `[0, max)`, in the order the shuffle produces them.
pub fn create_sequence(seed: [u8; 32], length: usize, max: usize) -> (r: Vec<usize>)
    requires
        length <= max,
        max <= u32::MAX as usize,
    ensures
        r@.map_values(|v: usize| v as int) == sample_spec(seed@, max as int, length as int),
        r@.len() == length,
        forall|k: int| 0 <= k < length ==> #[trigger] r@[k] < max,
        forall|a: int, b: int| 0 <= a < b < length ==> r@[a] != r@[b],
{
    let mut rng = rng_from_seed(seed);
    let drawn32 = sample_inplace(&mut rng, max as u32, length as u32);
    let ghost drawn_model = sample_spec(seed@, max as int, length as int);
    proof {
        lemma_sample_unique_and_bounded(seed@, max as int, length as int);
    }
    let mut r: Vec<usize> = Vec::new();
    let mut k: usize = 0;
    while k < drawn32.len()
        invariant
            0 <= k <= drawn32@.len(),
            drawn32@.len() == length,
            drawn32@.map_values(|v: u32| v as int) == drawn_model,
            r@.len() == k,
            forall|m: int| 0 <= m < k ==> #[trigger] r@[m] as int == drawn_model[m],
        decreases drawn32@.len() - k,
    {
        let v = drawn32[k];
        r.push(v as usize);
        k = k + 1;
    }
    proof {
        assert(r@.map_values(|v: usize| v as int) =~= drawn_model);
        assert(forall|a: int, b: int| 0 <= a < b < length ==> r@[a] != r@[b]) by {
            assert(forall|a: int, b: int|
                0 <= a < b < length ==> drawn_model[a] != drawn_model[b]);
        }
    }
    r
}

} // verus!
