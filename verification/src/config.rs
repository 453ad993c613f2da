//! The run's fixed terms: the insured asset value, the roster of insureds a run starts
//! with, and how many insurers each request solicits.
use vstd::prelude::*;

use crate::events::{Peril, Risk};
use crate::types::InsuredId;

verus! {

/// Insured asset value: 25M USD in cents.
pub const ASSET_VALUE: u64 = 2_500_000_000;

/// Insured `k` (counting from 0) of a roster over `territories`: id `k + 1`, a risk of
/// `ASSET_VALUE` against windstorm and attritional losses, placed in the territories in
/// turn (in "US-SE" when there are none).
pub open spec fn roster_entry(k: int, territories: Seq<String>, e: (InsuredId, Risk)) -> bool {
    &&& e.0 == InsuredId((k + 1) as u64)
    &&& e.1.sum_insured == ASSET_VALUE
    &&& e.1.perils_covered@ == seq![Peril::WindstormAtlantic, Peril::Attritional]
    &&& e.1.territory@ == if territories.len() == 0 {
        "US-SE"@
    } else {
        territories[k % (territories.len() as int)]@
    }
}

/// The `n` insureds a run starts with, in id order (see `roster_entry`).
pub fn roster(n: usize, territories: &Vec<String>) -> (r: Vec<(InsuredId, Risk)>)
    ensures
        r@.len() == n,
        forall|k: int| 0 <= k < n ==> roster_entry(k, territories@, #[trigger] r@[k]),
{
    let mut r: Vec<(InsuredId, Risk)> = Vec::new();
    let mut k: usize = 0;
    while k < n
        invariant
            k <= n,
            r@.len() == k,
            forall|j: int| 0 <= j < k ==> roster_entry(j, territories@, #[trigger] r@[j]),
        decreases n - k,
    {
        let territory = if territories.len() == 0 {
            "US-SE".to_owned()
        } else {
            territories[k % territories.len()].clone()
        };
        let mut perils: Vec<Peril> = Vec::new();
        perils.push(Peril::WindstormAtlantic);
        perils.push(Peril::Attritional);
        proof {
            assert(perils@ =~= seq![Peril::WindstormAtlantic, Peril::Attritional]);
        }
        let ghost before = r@;
        r.push((InsuredId(k as u64 + 1), Risk { sum_insured: ASSET_VALUE, territory, perils_covered: perils }));
        proof {
            assert forall|j: int| 0 <= j < k + 1 implies roster_entry(j, territories@, #[trigger] r@[j]) by {
                if j < k {
                    assert(r@[j] == before[j]);
                }
            }
        }
        k = k + 1;
    }
    r
}

/// How many insurers each request solicits: the configured number (all of them when none
/// is configured), at most all `n_insurers`, at least one.
pub fn quotes_per_submission(configured: Option<usize>, n_insurers: usize) -> (k: usize)
    ensures
        k == ({
            let c = match configured {
                Some(q) => q,
                None => n_insurers,
            };
            let m = if c < n_insurers { c } else { n_insurers };
            if m < 1 { 1 } else { m }
        }),
{
    let c = match configured {
        Some(q) => q,
        None => n_insurers,
    };
    let m = if c < n_insurers { c } else { n_insurers };
    if m < 1 { 1 } else { m }
}

} // verus!
