use vstd::prelude::*;
use rand::Rng;

verus! {

/// Sum of the weights in a keyed weight list.
pub open spec fn weight_total(w: Seq<(u32, u64)>) -> int
    decreases w.len(),
{
    if w.len() == 0 {
        0
    } else {
        w[0].1 + weight_total(w.drop_first())
    }
}

pub proof fn lemma_weight_total_nonneg(w: Seq<(u32, u64)>)
    ensures
        weight_total(w) >= 0,
    decreases w.len(),
{
    if w.len() > 0 {
        lemma_weight_total_nonneg(w.drop_first());
    }
}

pub proof fn lemma_weight_total_le(w: Seq<(u32, u64)>)
    ensures
        weight_total(w) <= w.len() * (u64::MAX as int),
    decreases w.len(),
{
    if w.len() > 0 {
        lemma_weight_total_le(w.drop_first());
        assert(w.len() * (u64::MAX as int) == (w.len() - 1) * (u64::MAX as int) + (
        u64::MAX as int)) by (nonlinear_arith);
    }
}

/// The key a draw selects: walking the entries, each spans an interval as
/// wide as its weight, and the key whose interval contains the draw is
/// chosen. An entry with zero weight spans an empty interval and is skipped.
pub open spec fn picked_key(w: Seq<(u32, u64)>, draw: int) -> u32
    decreases w.len(),
{
    if w.len() == 0 {
        0
    } else if draw < w[0].1 {
        w[0].0
    } else {
        picked_key(w.drop_first(), draw - w[0].1)
    }
}

pub proof fn lemma_picked_key_in_list(w: Seq<(u32, u64)>, draw: int)
    requires
        0 <= draw < weight_total(w),
    ensures
        exists|i: int| 0 <= i < w.len() && w[i].0 == picked_key(w, draw) && w[i].1 > 0,
    decreases w.len(),
{
    if w.len() == 0 {
    } else if draw < w[0].1 {
        assert(w[0].0 == picked_key(w, draw) && w[0].1 > 0);
    } else {
        lemma_picked_key_in_list(w.drop_first(), draw - w[0].1);
        let j = choose|j: int|
            0 <= j < w.drop_first().len() && w.drop_first()[j].0 == picked_key(
                w.drop_first(),
                draw - w[0].1,
            ) && w.drop_first()[j].1 > 0;
        assert(w[j + 1].0 == picked_key(w, draw) && w[j + 1].1 > 0);
    }
}

/// Walks the weight list with a running offset, returning the key whose
/// interval contains the externally supplied draw. The caller guarantees a
/// positive total weight and a draw below it.
pub fn pick_weighted(w: &Vec<(u32, u64)>, draw: u128) -> (r: u32)
    requires
        draw < weight_total(w@),
    ensures
        r == picked_key(w@, draw as int),
{
    proof {
        assert(w@.skip(0) =~= w@);
    }
    proof {
        lemma_weight_total_le(w@);
    }
    let mut i: usize = 0;
    let mut offset: u128 = 0;
    while i < w.len()
        invariant
            i <= w.len(),
            weight_total(w@) <= w@.len() * (u64::MAX as int),
            offset <= draw,
            offset + weight_total(w@.skip(i as int)) == weight_total(w@),
            draw - offset < weight_total(w@.skip(i as int)),
            picked_key(w@, draw as int) == picked_key(w@.skip(i as int), draw - offset),
        decreases w.len() - i,
    {
        proof {
            assert(w@.skip(i as int).drop_first() =~= w@.skip(i as int + 1));
            assert(w@.skip(i as int)[0] == w@[i as int]);
            lemma_weight_total_nonneg(w@.skip(i as int + 1));
            assert(weight_total(w@.skip(i as int)) == w@[i as int].1 + weight_total(
                w@.skip(i as int + 1),
            ));
        }
        let wi = w[i].1;
        if draw < offset + (wi as u128) {
            return w[i].0;
        }
        offset = offset + (wi as u128);
        i = i + 1;
    }
    proof {
        assert(w@.skip(w@.len() as int) =~= Seq::<(u32, u64)>::empty());
        assert(false);
    }
    0
}

/// Relies on rand::Rng::gen_range over rand::thread_rng: returns an integer
/// drawn uniformly from the half-open range below `bound`. Nothing more is
/// assumed of the draw than its range.
#[verifier::external_body]
fn random_below(bound: u128) -> (r: u128)
    requires
        bound > 0,
    ensures
        r < bound,
{
    rand::thread_rng().gen_range(0..bound)
}

/// Samples one organization id at random, proportionally to its weight in the
/// list. The caller guarantees at least one positive weight; whatever the
/// draw, the returned key is one of the listed keys with positive weight.
pub fn sample_org_by_neighbor_count(org_weights: &Vec<(u32, u64)>) -> (r: u32)
    requires
        weight_total(org_weights@) > 0,
    ensures
        exists|i: int|
            0 <= i < org_weights@.len() && org_weights@[i].0 == r && (#[trigger] org_weights@[i]).1
                > 0,
{
    proof {
        assert(org_weights@.skip(0) =~= org_weights@);
        lemma_weight_total_le(org_weights@);
    }
    let mut i: usize = 0;
    let mut total: u128 = 0;
    while i < org_weights.len()
        invariant
            i <= org_weights.len(),
            total + weight_total(org_weights@.skip(i as int)) == weight_total(org_weights@),
            weight_total(org_weights@) <= org_weights@.len() * (u64::MAX as int),
        decreases org_weights.len() - i,
    {
        proof {
            assert(org_weights@.skip(i as int).drop_first() =~= org_weights@.skip(i as int + 1));
            assert(org_weights@.skip(i as int)[0] == org_weights@[i as int]);
            lemma_weight_total_nonneg(org_weights@.skip(i as int + 1));
        }
        total = total + (org_weights[i].1 as u128);
        i = i + 1;
    }
    proof {
        assert(org_weights@.skip(org_weights@.len() as int) =~= Seq::<(u32, u64)>::empty());
    }
    let draw = random_below(total);
    let r = pick_weighted(org_weights, draw);
    proof {
        lemma_picked_key_in_list(org_weights@, draw as int);
    }
    r
}

} // verus!
