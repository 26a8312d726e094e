use vstd::prelude::*;
use rand::seq::SliceRandom;
use crate::models::GalaxyObject;

verus! {

/// Relies on rand::random: one sample of the Standard distribution over
/// u32. Nothing is promised of the value.
#[verifier::external_body]
pub(crate) fn random_u32() -> u32 {
    rand::random::<u32>()
}

/// Relies on rand's SliceRandom::shuffle: a Fisher-Yates pass that
/// permutes the slice in place, so the contents are preserved as a
/// multiset.
#[verifier::external_body]
pub(crate) fn shuffle_pairs(v: &mut Vec<(GalaxyObject, u32)>)
    ensures
        final(v)@.len() == old(v)@.len(),
        final(v)@.to_multiset() == old(v)@.to_multiset(),
{
    v.shuffle(&mut rand::thread_rng());
}

/// Relies on rand's WeightedIndex::new and Distribution::sample: when the
/// distribution can be built (some weight is nonzero), sampling yields an
/// index of the weight list, with probability proportional to its weight;
/// building it on all-zero weights fails, which is answered with None.
/// The length bound keeps the u64 weight total from overflowing.
#[verifier::external_body]
pub(crate) fn pick_weighted(weights: &Vec<u32>) -> (r: Option<usize>)
    requires
        1 <= weights@.len() <= 0x4000_0000,
    ensures
        match r {
            Some(i) => i < weights@.len(),
            None => true,
        },
{
    match rand::distributions::WeightedIndex::new(weights.iter().map(|w| *w as u64)) {
        Ok(d) => Some(rand::distributions::Distribution::sample(&d, &mut rand::thread_rng())),
        Err(_) => None,
    }
}

/// Sum of a list of normalized weights.
pub open spec fn weight_sum(s: Seq<u32>) -> int
    decreases s.len(),
{
    if s.len() == 0 {
        0
    } else {
        weight_sum(s.drop_last()) + s.last()
    }
}

/// Sum of a list of raw draws.
spec fn raw_sum(s: Seq<u64>) -> int
    decreases s.len(),
{
    if s.len() == 0 {
        0
    } else {
        raw_sum(s.drop_last()) + s.last()
    }
}

/// Random weights for a sibling batch, normalized so that the weights
/// sum to at most half the u32 range (the budget), and so no single
/// weight tops it. Each raw weight is a power of two whose exponent is
/// drawn geometrically (each further doubling needs one more set low
/// bit in a uniform draw), which yields a few heavy hub nodes and many
/// light ones.
pub fn exp_weights(amount: usize) -> (r: Vec<u32>)
    requires
        amount <= 0x4000_0000,
    ensures
        r@.len() == amount,
        forall|i: int| 0 <= i < r@.len() ==> #[trigger] r@[i] <= 0x7fff_ffffu32,
        weight_sum(r@) <= 0x7fff_ffff,
{
    let mut raw: Vec<u64> = Vec::new();
    let mut sum: u64 = 0;
    let mut k: usize = 0;
    while k < amount
        invariant
            amount <= 0x4000_0000,
            k <= amount,
            raw@.len() == k,
            sum <= (k as u64) * 0x8000_0000u64,
            sum == raw_sum(raw@),
            forall|i: int| 0 <= i < raw@.len() ==> 1 <= #[trigger] raw@[i] <= sum,
            forall|i: int| 0 <= i < raw@.len() ==> #[trigger] raw@[i] <= 0x8000_0000u64,
        decreases amount - k,
    {
        let d = random_u32();
        let mut w: u64 = 1;
        let mut dd: u32 = d;
        while dd % 2 == 1 && w <= 0x4000_0000u64
            invariant
                1 <= w <= 0x8000_0000u64,
            decreases 0x8000_0000u64 - w,
        {
            w = w * 2;
            dd = dd / 2;
        }
        let ghost raw0 = raw@;
        raw.push(w);
        sum = sum + w;
        k = k + 1;
        proof {
            assert(raw@.drop_last() =~= raw0);
            assert(raw@.last() == w);
        }
    }
    let mut out: Vec<u32> = Vec::new();
    let mut j: usize = 0;
    proof {
        assert(raw@.take(0) =~= Seq::<u64>::empty());
    }
    while j < amount
        invariant
            amount == raw@.len(),
            j <= amount,
            out@.len() == j,
            sum == raw_sum(raw@),
            forall|i: int| 0 <= i < raw@.len() ==> 1 <= #[trigger] raw@[i] <= sum,
            forall|i: int| 0 <= i < raw@.len() ==> #[trigger] raw@[i] <= 0x8000_0000u64,
            forall|i: int| 0 <= i < out@.len() ==> #[trigger] out@[i] <= 0x7fff_ffffu32,
            weight_sum(out@) * (sum as int) <= raw_sum(raw@.take(j as int)) * 0x7fff_ffff,
        decreases amount - j,
    {
        let w = raw[j];
        let q: u64 = (w * 0x7fff_ffffu64) / sum;
        proof {
            let wi = w as int;
            let si = sum as int;
            assert(wi * 0x7fff_ffff / si <= 0x7fff_ffff) by (nonlinear_arith)
                requires
                    1 <= wi && wi <= si,
            ;
            // floor division never returns more than its share:
            // q * sum stays at or below w * budget
            let x = wi * 0x7fff_ffff;
            vstd::arithmetic::div_mod::lemma_fundamental_div_mod(x, si);
            vstd::arithmetic::div_mod::lemma_mod_division_less_than_divisor(x, si);
            assert(q as int == x / si);
            assert(si * (x / si) <= x);
            assert((q as int) * si == si * (x / si)) by (nonlinear_arith)
                requires
                    q as int == x / si,
            ;
            assert((q as int) * si <= x);
        }
        let ghost out0 = out@;
        let ghost used0 = raw_sum(raw@.take(j as int));
        out.push(q as u32);
        j = j + 1;
        proof {
            assert(out@.drop_last() =~= out0);
            assert(out@.last() == q as u32);
            assert(weight_sum(out@) == weight_sum(out0) + q);
            assert(raw@.take(j as int).drop_last() =~= raw@.take(j as int - 1));
            assert(raw@.take(j as int).last() == w);
            assert(raw_sum(raw@.take(j as int)) == used0 + w);
            assert((weight_sum(out0) + q) * (sum as int) <= (used0 + w) * 0x7fff_ffff)
                by (nonlinear_arith)
                requires
                    weight_sum(out0) * (sum as int) <= used0 * 0x7fff_ffff,
                    (q as int) * (sum as int) <= (w as int) * 0x7fff_ffff,
            ;
        }
    }
    proof {
        assert(raw@.take(amount as int) =~= raw@);
        if amount > 0 {
            assert(1 <= sum);
            assert(weight_sum(out@) <= 0x7fff_ffff) by (nonlinear_arith)
                requires
                    weight_sum(out@) * (sum as int) <= (sum as int) * 0x7fff_ffff,
                    1 <= sum as int,
            ;
        } else {
            assert(out@ =~= Seq::<u32>::empty());
        }
    }
    out
}

} // verus!
