//! What the console listing of a hierarchy needs: names to show and the
//! SBOMs of a hierarchy grouped by rank.

use vstd::prelude::*;
use crate::correlation::SbomWithRank;
use crate::sbom::TpaSbom;

verus! {

/// The name of the component an SBOM describes, `Unknown` when there is none.
pub open spec fn shown_name(s: TpaSbom) -> Seq<char> {
    match s.metadata.component {
        Some(c) => match c.name {
            Some(n) => n@,
            None => "Unknown"@,
        },
        None => "Unknown"@,
    }
}

/// The name of the component an SBOM describes, `Unknown` when there is none.
pub fn display_name(sbom: &TpaSbom) -> (r: String)
    ensures
        r@ == shown_name(*sbom),
{
    match &sbom.metadata.component {
        Some(c) => match &c.name {
            Some(n) => n.clone(),
            None => "Unknown".to_owned(),
        },
        None => "Unknown".to_owned(),
    }
}

/// The least and the greatest rank in a hierarchy; both 0 when it is empty.
pub fn rank_range(h: &[&SbomWithRank]) -> (r: (usize, usize))
    ensures
        h@.len() == 0 ==> r == (0usize, 0usize),
        h@.len() > 0 ==> {
            &&& exists|i: int| 0 <= i < h@.len() && h@[i].rank == r.0
            &&& exists|i: int| 0 <= i < h@.len() && h@[i].rank == r.1
            &&& forall|i: int| 0 <= i < h@.len() ==> r.0 <= #[trigger] h@[i].rank <= r.1
        },
{
    if h.len() == 0 {
        return (0, 0);
    }
    let mut lo = h[0].rank;
    let mut hi = h[0].rank;
    let mut k: usize = 1;
    while k < h.len()
        invariant
            1 <= k <= h@.len(),
            exists|i: int| 0 <= i < k && h@[i].rank == lo,
            exists|i: int| 0 <= i < k && h@[i].rank == hi,
            forall|i: int| 0 <= i < k ==> lo <= #[trigger] h@[i].rank <= hi,
        decreases h.len() - k,
    {
        let r = h[k].rank;
        if r < lo {
            lo = r;
        }
        if r > hi {
            hi = r;
        }
        k += 1;
    }
    (lo, hi)
}

/// The SBOMs of a hierarchy with rank `rank`, in order.
pub fn nodes_at_rank<'a>(h: &[&'a SbomWithRank], rank: usize) -> (r: Vec<&'a SbomWithRank>)
    ensures
        r@ == h@.filter(|n: &SbomWithRank| n.rank == rank),
{
    let mut r: Vec<&'a SbomWithRank> = Vec::new();
    let mut k: usize = 0;
    while k < h.len()
        invariant
            k <= h@.len(),
            r@ == h@.take(k as int).filter(|n: &SbomWithRank| n.rank == rank),
        decreases h.len() - k,
    {
        proof {
            h@.take(k as int).lemma_filter_push(h@[k as int], |n: &SbomWithRank| n.rank == rank);
        }
        assert(h@.take(k + 1) =~= h@.take(k as int).push(h@[k as int]));
        if h[k].rank == rank {
            r.push(h[k]);
        }
        k += 1;
    }
    assert(h@.take(h@.len() as int) =~= h@);
    r
}

} // verus!
