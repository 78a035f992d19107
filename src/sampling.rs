//! The rule that turns a scan over measurement outcomes into one outcome.
use vstd::prelude::*;

verus! {

/// The last scanned outcome whose probability is not negligible: the outcome
/// a sampler selects. `supported[i]` says whether the probability of the
/// `i`-th scanned outcome reaches the tolerance.
pub open spec fn last_supported(supported: Seq<bool>) -> Option<int>
    decreases supported.len(),
{
    if supported.len() == 0 {
        None
    } else if supported.last() {
        Some(supported.len() - 1)
    } else {
        last_supported(supported.drop_last())
    }
}

/// The selected outcome is one of the scanned outcomes, and is supported.
pub proof fn lemma_last_supported(supported: Seq<bool>)
    ensures
        last_supported(supported) matches Some(j) ==> 0 <= j < supported.len() && supported[j],
    decreases supported.len(),
{
    if supported.len() > 0 && !supported.last() {
        lemma_last_supported(supported.drop_last());
    }
}

/// Selects the last scanned outcome whose probability is not negligible.
/// When the draw falls where two outcomes are consistent with it, the later
/// one is selected.
pub fn pick_outcome(supported: &Vec<bool>) -> (r: Option<usize>)
    ensures
        match last_supported(supported@) {
            None => r is None,
            Some(j) => r == Some(j as usize),
        },
        r matches Some(j) ==> j < supported.len() && supported@[j as int],
        last_supported(supported@) matches Some(j) ==> 0 <= j < supported.len(),
{
    proof {
        lemma_last_supported(supported@);
    }
    let mut i: usize = supported.len();
    proof {
        assert(supported@.take(i as int) == supported@);
    }
    while i > 0
        invariant
            i <= supported.len(),
            last_supported(supported@) == last_supported(supported@.take(i as int)),
        decreases i,
    {
        proof {
            assert(supported@.take(i as int).drop_last() == supported@.take(i - 1));
        }
        i = i - 1;
        if supported[i] {
            return Some(i);
        }
    }
    None
}

} // verus!
