//! The correlation of a set of SBOMs: each SBOM with its rank and the SBOMs
//! it refers to and is referred to by, and the queries over it.

use vstd::prelude::*;
use crate::graph::{
    as_ints, children, has_rank, is_root, lemma_parents_below,
    lemma_reached_mono_le, parents, rank_levels, reached, reference_graph, refers,
};
use crate::purl::{purls_match, purls_match_by_sha256};
use crate::sbom::{
    TpaSbom, TpaSbomComponents, TpaSbomComponentsPedigreeVariant,
    TpaSbomMetadataComponentEvidenceIdentity,
};
use crate::text::{
    chars_of, lemma_lex_irreflexive, lemma_lex_lt_trans, lemma_lex_total, lex_le, lex_lt, lex_lt_exec,
    str_eq,
};

verus! {

/// An SBOM placed in the reference graph.
#[derive(Debug)]
pub struct SbomWithRank {
    /// The SBOM.
    pub sbom: TpaSbom,
    /// Its rank: 1 for an SBOM that nothing refers to, one more than the
    /// nearest such SBOM above it otherwise, 0 when there is none.
    pub rank: usize,
    /// Serial numbers of the SBOMs that refer to it.
    pub referenced_by: Vec<String>,
    /// Serial numbers of the SBOMs it refers to.
    pub references: Vec<String>,
}

/// All SBOMs, each with its place in the reference graph.
#[derive(Debug)]
pub struct SbomCorrelation {
    /// The ranked SBOMs; no two have the same serial number.
    pub nodes: Vec<SbomWithRank>,
}

/// The serial number of an SBOM.
pub open spec fn serial(s: TpaSbom) -> Seq<char> {
    s.serial_number@
}

/// The characters of each string.
pub open spec fn strings(v: Seq<String>) -> Seq<Seq<char>> {
    v.map_values(|s: String| s@)
}

/// The serial numbers of the SBOMs at the given positions.
pub open spec fn serials_at(sboms: Seq<TpaSbom>, idx: Seq<int>) -> Seq<Seq<char>> {
    idx.map_values(|j: int| serial(sboms[j]))
}

/// No two SBOMs share a serial number.
pub open spec fn distinct_serials(sboms: Seq<TpaSbom>) -> bool {
    forall|i: int, j: int|
        0 <= i < sboms.len() && 0 <= j < sboms.len() && i != j ==> serial(#[trigger] sboms[i])
            != serial(#[trigger] sboms[j])
}

/// The first position of an SBOM with serial number `s`.
pub open spec fn index_of_serial(sboms: Seq<TpaSbom>, s: Seq<char>, k: int) -> Option<int>
    decreases sboms.len() - k,
{
    if k < 0 || k >= sboms.len() {
        None
    } else if serial(sboms[k]) == s {
        Some(k)
    } else {
        index_of_serial(sboms, s, k + 1)
    }
}

/// `acc` with `x` added, replacing an SBOM with the same serial number.
pub open spec fn insert_by_serial(acc: Seq<TpaSbom>, x: TpaSbom) -> Seq<TpaSbom> {
    match index_of_serial(acc, serial(x), 0) {
        Some(k) => acc.remove(k).push(x),
        None => acc.push(x),
    }
}

/// The SBOMs keyed by serial number, a later one replacing an earlier one.
pub open spec fn by_serial(list: Seq<TpaSbom>) -> Seq<TpaSbom>
    decreases list.len(),
{
    if list.len() == 0 {
        Seq::empty()
    } else {
        insert_by_serial(by_serial(list.drop_last()), list.last())
    }
}

proof fn lemma_index_of_serial(sboms: Seq<TpaSbom>, s: Seq<char>, k: int)
    requires
        0 <= k,
    ensures
        index_of_serial(sboms, s, k) matches Some(j) ==> k <= j < sboms.len() && serial(sboms[j])
            == s,
        index_of_serial(sboms, s, k) is None ==> forall|j: int|
            k <= j < sboms.len() ==> serial(#[trigger] sboms[j]) != s,
    decreases sboms.len() - k,
{
    if !(k < 0 || k >= sboms.len()) && serial(sboms[k]) != s {
        lemma_index_of_serial(sboms, s, k + 1);
    }
}

/// Keying by serial number leaves no two SBOMs with one serial number, and
/// keeps one SBOM for each serial number of the list.
pub proof fn lemma_by_serial(list: Seq<TpaSbom>)
    ensures
        distinct_serials(by_serial(list)),
        forall|i: int|
            0 <= i < list.len() ==> exists|j: int|
                0 <= j < by_serial(list).len() && serial(#[trigger] by_serial(list)[j]) == serial(
                    #[trigger] list[i],
                ),
    decreases list.len(),
{
    if list.len() > 0 {
        let prev = by_serial(list.drop_last());
        lemma_by_serial(list.drop_last());
        lemma_index_of_serial(prev, serial(list.last()), 0);
        let res = by_serial(list);
        match index_of_serial(prev, serial(list.last()), 0) {
            Some(k) => {
                assert(res == prev.remove(k).push(list.last()));
                assert forall|i: int| 0 <= i < list.len() implies exists|j: int|
                    0 <= j < res.len() && serial(#[trigger] res[j]) == serial(#[trigger] list[i]) by {
                    if i == list.len() - 1 {
                        assert(serial(res[res.len() - 1]) == serial(list[i]));
                    } else {
                        assert(list.drop_last()[i] == list[i]);
                        let j0 = choose|j: int|
                            0 <= j < prev.len() && serial(#[trigger] prev[j]) == serial(
                                list.drop_last()[i],
                            );
                        if j0 == k {
                            assert(serial(res[res.len() - 1]) == serial(list[i]));
                        } else if j0 < k {
                            assert(res[j0] == prev[j0]);
                        } else {
                            assert(res[j0 - 1] == prev[j0]);
                        }
                    }
                }
            },
            None => {
                assert forall|i: int| 0 <= i < list.len() implies exists|j: int|
                    0 <= j < res.len() && serial(#[trigger] res[j]) == serial(#[trigger] list[i]) by {
                    if i == list.len() - 1 {
                        assert(serial(res[res.len() - 1]) == serial(list[i]));
                    } else {
                        assert(list.drop_last()[i] == list[i]);
                        let j0 = choose|j: int|
                            0 <= j < prev.len() && serial(#[trigger] prev[j]) == serial(
                                list.drop_last()[i],
                            );
                        assert(res[j0] == prev[j0]);
                    }
                }
            },
        }
    }
}

/// The position of the SBOM with serial number `s` among `sboms`, from `k` on.
fn index_of_serial_exec(sboms: &Vec<TpaSbom>, s: &String) -> (r: Option<usize>)
    ensures
        match r {
            Some(j) => index_of_serial(sboms@, s@, 0) == Some(j as int),
            None => index_of_serial(sboms@, s@, 0) is None,
        },
{
    let mut k: usize = 0;
    while k < sboms.len()
        invariant
            k <= sboms@.len(),
            index_of_serial(sboms@, s@, 0) == index_of_serial(sboms@, s@, k as int),
        decreases sboms.len() - k,
    {
        if crate::text::str_eq(sboms[k].serial_number.as_str(), s.as_str()) {
            return Some(k);
        }
        k += 1;
    }
    None
}

/// The SBOMs keyed by serial number, a later one replacing an earlier one
/// with the same serial number.
pub fn index_by_serial(list: Vec<TpaSbom>) -> (r: Vec<TpaSbom>)
    ensures
        r@ == by_serial(list@),
{
    let ghost whole = list@;
    let ghost n = whole.len();
    let mut acc: Vec<TpaSbom> = Vec::new();
    let mut rest = list;
    while rest.len() > 0
        invariant
            n == whole.len(),
            rest@.len() <= n,
            rest@ == whole.skip(n - rest@.len()),
            acc@ == by_serial(whole.take(n - rest@.len())),
        decreases rest@.len(),
    {
        let ghost m = n - rest@.len();
        let x = rest.remove(0);
        assert(x == whole[m]);
        assert(rest@ =~= whole.skip(m + 1));
        assert(whole.take(m + 1).drop_last() =~= whole.take(m));
        assert(whole.take(m + 1).last() == x);
        proof {
            lemma_index_of_serial(acc@, serial(x), 0);
        }
        match index_of_serial_exec(&acc, &x.serial_number) {
            Some(k) => {
                acc.remove(k);
                acc.push(x);
            },
            None => {
                acc.push(x);
            },
        }
    }
    assert(whole.take(n as int) =~= whole);
    acc
}

/// `nodes` places each of `sboms`, in order: the SBOM itself, its rank, and
/// the serial numbers of the SBOMs it refers to and that refer to it.
pub open spec fn placed(sboms: Seq<TpaSbom>, nodes: Seq<SbomWithRank>) -> bool {
    &&& nodes.len() == sboms.len()
    &&& forall|i: int|
        0 <= i < sboms.len() ==> {
            &&& (#[trigger] nodes[i]).sbom == sboms[i]
            &&& has_rank(sboms, i, nodes[i].rank as nat)
            &&& strings(nodes[i].references@) == serials_at(sboms, children(sboms, i))
            &&& strings(nodes[i].referenced_by@) == serials_at(sboms, parents(sboms, i))
        }
}

/// The SBOMs of the nodes.
pub open spec fn sboms_of(nodes: Seq<SbomWithRank>) -> Seq<TpaSbom> {
    nodes.map_values(|n: SbomWithRank| n.sbom)
}

/// The serial numbers of the SBOMs at `idx`, as strings.
fn serials_for(serials: &Vec<String>, idx: &Vec<usize>) -> (r: Vec<String>)
    requires
        forall|x: int| 0 <= x < idx@.len() ==> #[trigger] idx@[x] < serials@.len(),
    ensures
        strings(r@) == as_ints(idx@).map_values(|j: int| strings(serials@)[j]),
{
    let mut r: Vec<String> = Vec::new();
    let mut k: usize = 0;
    while k < idx.len()
        invariant
            k <= idx@.len(),
            forall|x: int| 0 <= x < idx@.len() ==> #[trigger] idx@[x] < serials@.len(),
            strings(r@) =~= as_ints(idx@).take(k as int).map_values(|j: int| strings(serials@)[j]),
        decreases idx.len() - k,
    {
        let ghost old_r = r@;
        r.push(serials[idx[k]].clone());
        assert(strings(r@) =~= strings(old_r).push(serials@[idx@[k as int] as int]@));
        assert(as_ints(idx@).take(k + 1) =~= as_ints(idx@).take(k as int).push(
            idx@[k as int] as int,
        ));
        k += 1;
    }
    assert(as_ints(idx@).take(idx@.len() as int) =~= as_ints(idx@));
    r
}

impl SbomCorrelation {
    /// No two ranked SBOMs share a serial number.
    pub open spec fn wf(&self) -> bool {
        distinct_serials(sboms_of(self.nodes@))
    }

    /// Ranks the SBOMs: builds the reference graph between them and assigns
    /// each its breadth-first level from the SBOMs that nothing refers to.
    fn build_correlation(sboms: Vec<TpaSbom>) -> (r: Self)
        requires
            distinct_serials(sboms@),
        ensures
            placed(sboms@, r.nodes@),
    {
        let n = sboms.len();
        let (forward, backward) = reference_graph(&sboms);
        let ranks = rank_levels(&sboms, &forward, &backward);
        let mut serials: Vec<String> = Vec::new();
        let mut i: usize = 0;
        while i < n
            invariant
                n == sboms@.len(),
                i <= n,
                serials@.len() == i,
                forall|a: int| 0 <= a < i ==> #[trigger] serials@[a]@ == serial(sboms@[a]),
            decreases n - i,
        {
            serials.push(sboms[i].serial_number.clone());
            i += 1;
        }
        let ghost whole = sboms@;
        let mut rest = sboms;
        let mut nodes: Vec<SbomWithRank> = Vec::new();
        while rest.len() > 0
            invariant
                n == whole.len(),
                forward@.len() == n,
                backward@.len() == n,
                ranks@.len() == n,
                serials@.len() == n,
                forall|a: int| 0 <= a < n ==> #[trigger] serials@[a]@ == serial(whole[a]),
                forall|a: int| 0 <= a < n ==> #[trigger] as_ints(forward@[a]@) == children(whole, a),
                forall|a: int| 0 <= a < n ==> #[trigger] as_ints(backward@[a]@) == parents(whole, a),
                forall|a: int| 0 <= a < n ==> has_rank(whole, a, #[trigger] ranks@[a] as nat),
                rest@.len() <= n,
                rest@ == whole.skip(n - rest@.len()),
                nodes@.len() == n - rest@.len(),
                forall|a: int|
                    0 <= a < nodes@.len() ==> {
                        &&& (#[trigger] nodes@[a]).sbom == whole[a]
                        &&& has_rank(whole, a, nodes@[a].rank as nat)
                        &&& strings(nodes@[a].references@) == serials_at(whole, children(whole, a))
                        &&& strings(nodes@[a].referenced_by@) == serials_at(whole, parents(whole, a))
                    },
            decreases rest@.len(),
        {
            let k = nodes.len();
            let sbom = rest.remove(0);
            assert(rest@ =~= whole.skip(k + 1));
            proof {
                crate::graph::lemma_children_below(whole, k as int, n as int);
                crate::graph::lemma_parents_below(whole, k as int, n as int);
                assert forall|x: int| 0 <= x < forward@[k as int]@.len() implies #[trigger] forward@[k as int]@[x] < serials@.len() by {
                    assert(as_ints(forward@[k as int]@)[x] == forward@[k as int]@[x] as int);
                }
                assert forall|x: int| 0 <= x < backward@[k as int]@.len() implies #[trigger] backward@[k as int]@[x] < serials@.len() by {
                    assert(as_ints(backward@[k as int]@)[x] == backward@[k as int]@[x] as int);
                }
            }
            let references = serials_for(&serials, &forward[k]);
            let referenced_by = serials_for(&serials, &backward[k]);
            proof {
                assert(strings(references@) =~= serials_at(whole, children(whole, k as int)));
                assert(strings(referenced_by@) =~= serials_at(whole, parents(whole, k as int)));
            }
            nodes.push(SbomWithRank { sbom, rank: ranks[k], referenced_by, references });
        }
        SbomCorrelation { nodes }
    }

    /// Correlates SBOMs read from a directory: keyed by serial number (a
    /// later SBOM replacing an earlier one with the same serial number), then
    /// ranked.
    pub fn build_from_dir(sbom_list: Vec<TpaSbom>) -> (r: Self)
        ensures
            r.wf(),
            placed(by_serial(sbom_list@), r.nodes@),
    {
        let sboms = index_by_serial(sbom_list);
        proof {
            lemma_by_serial(sbom_list@);
        }
        let r = Self::build_correlation(sboms);
        assert(sboms_of(r.nodes@) =~= by_serial(sbom_list@));
        r
    }
}

/// A rank satisfies `has_rank` for at most one value.
proof fn lemma_rank_unique(sboms: Seq<TpaSbom>, i: int, a: nat, b: nat)
    requires
        has_rank(sboms, i, a),
        has_rank(sboms, i, b),
    ensures
        a == b,
{
    if a != 0 && b != 0 {
        if a < b {
            lemma_reached_mono_le(sboms, a, (b - 1) as nat, i);
        } else if b < a {
            lemma_reached_mono_le(sboms, b, (a - 1) as nat, i);
        }
    } else if a != 0 {
        assert(reached(sboms, a, i));
    } else if b != 0 {
        assert(reached(sboms, b, i));
    }
}

/// Law: an SBOM has rank 1 exactly when no SBOM refers to it.
pub proof fn law_rank_one_iff_unreferenced(sboms: Seq<TpaSbom>, nodes: Seq<SbomWithRank>, i: int)
    requires
        placed(sboms, nodes),
        0 <= i < sboms.len(),
    ensures
        nodes[i].rank == 1 <==> nodes[i].referenced_by@.len() == 0,
        nodes[i].referenced_by@.len() == 0 <==> forall|p: int| !#[trigger] refers(sboms, p, i),
{
    lemma_parents_below(sboms, i, sboms.len() as int);
    assert(strings(nodes[i].referenced_by@).len() == nodes[i].referenced_by@.len());
    if nodes[i].referenced_by@.len() > 0 {
        let p0 = parents(sboms, i)[0];
        assert(parents(sboms, i).contains(p0));
        assert(refers(sboms, p0, i));
    } else {
        assert forall|p: int| !#[trigger] refers(sboms, p, i) by {
            if refers(sboms, p, i) {
                assert(parents(sboms, i).contains(p));
            }
        }
    }
    reveal_with_fuel(reached, 2);
    if nodes[i].rank == 1 {
        assert(is_root(sboms, i));
    } else if is_root(sboms, i) {
        assert(reached(sboms, 1, i));
        lemma_rank_unique(sboms, i, nodes[i].rank as nat, 1);
    }
}

/// Law: an SBOM of rank `r >= 2` is referred to by an SBOM of rank `r - 1`.
pub proof fn law_rank_has_parent_one_above(sboms: Seq<TpaSbom>, nodes: Seq<SbomWithRank>, i: int)
    requires
        placed(sboms, nodes),
        0 <= i < sboms.len(),
        nodes[i].rank >= 2,
    ensures
        exists|p: int| 0 <= p < sboms.len() && #[trigger] refers(sboms, p, i) && nodes[p].rank + 1 == nodes[i].rank,
{
    let r = nodes[i].rank as nat;
    assert(reached(sboms, r, i) && !reached(sboms, (r - 1) as nat, i));
    if is_root(sboms, i) {
        reveal_with_fuel(reached, 2);
        lemma_reached_mono_le(sboms, 1, (r - 1) as nat, i);
    }
    let p = choose|p: int| reached(sboms, (r - 1) as nat, p) && refers(sboms, p, i);
    let rp = nodes[p].rank as nat;
    assert(has_rank(sboms, p, rp));
    if rp == 0 {
        assert(!reached(sboms, (r - 1) as nat, p));
    } else if rp > r - 1 {
        lemma_reached_mono_le(sboms, (r - 1) as nat, (rp - 1) as nat, p);
    } else if rp < r - 1 {
        assert(reached(sboms, rp + 1, i));
        lemma_reached_mono_le(sboms, rp + 1, (r - 1) as nat, i);
    }
}

/// Law: when SBOM `p` refers to SBOM `c` and `p` is ranked, `c` is ranked
/// and its rank is at most one more than `p`'s.
pub proof fn law_reference_bounds_rank(sboms: Seq<TpaSbom>, nodes: Seq<SbomWithRank>, p: int, c: int)
    requires
        placed(sboms, nodes),
        refers(sboms, p, c),
        nodes[p].rank >= 1,
    ensures
        1 <= nodes[c].rank <= nodes[p].rank + 1,
{
    let rp = nodes[p].rank as nat;
    assert(has_rank(sboms, p, rp));
    assert(reached(sboms, rp + 1, c));
    let rc = nodes[c].rank as nat;
    assert(has_rank(sboms, c, rc));
    if rc == 0 {
        assert(!reached(sboms, rp + 1, c));
    } else if rc > rp + 1 {
        lemma_reached_mono_le(sboms, rp + 1, (rc - 1) as nat, c);
    }
}

/// Law: rank 0 marks the SBOMs that no chain of references from an
/// unreferenced SBOM reaches; what refers to such an SBOM has rank 0 too.
pub proof fn law_unranked_closed_upward(sboms: Seq<TpaSbom>, nodes: Seq<SbomWithRank>, p: int, c: int)
    requires
        placed(sboms, nodes),
        refers(sboms, p, c),
        nodes[c].rank == 0,
    ensures
        nodes[p].rank == 0,
{
    if nodes[p].rank >= 1 {
        law_reference_bounds_rank(sboms, nodes, p, c);
    }
}

/// Law: an SBOM refers to another SBOM whenever a pedigree variant of one
/// of its components carries the SHA-256 digest of the package URL of the
/// component that the other describes, whatever its components' own
/// package URLs are: the other's serial number is among its references,
/// its serial number among the other's referrers, and the other's rank is
/// at most one more than its own.
pub proof fn law_variant_makes_reference(
    sboms: Seq<TpaSbom>,
    nodes: Seq<SbomWithRank>,
    p: int,
    c: int,
    k: int,
    v: int,
)
    requires
        placed(sboms, nodes),
        distinct_serials(sboms),
        0 <= p < sboms.len(),
        0 <= c < sboms.len(),
        p != c,
        0 <= k < sboms[p].components@.len(),
        sboms[p].components@[k].pedigree is Some,
        sboms[p].components@[k].pedigree->0.variants is Some,
        0 <= v < sboms[p].components@[k].pedigree->0.variants->0@.len(),
        sboms[p].components@[k].pedigree->0.variants->0@[v].purl is Some,
        sboms[c].metadata.component is Some,
        sboms[c].metadata.component->0.purl is Some,
        purls_match(
            sboms[p].components@[k].pedigree->0.variants->0@[v].purl->0@,
            sboms[c].metadata.component->0.purl->0@,
        ),
    ensures
        refers(sboms, p, c),
        strings(nodes[p].references@).contains(serial(sboms[c])),
        strings(nodes[c].referenced_by@).contains(serial(sboms[p])),
        nodes[p].rank >= 1 ==> 1 <= nodes[c].rank <= nodes[p].rank + 1,
{
    let comp = sboms[p].components@[k];
    let target = crate::graph::own_purl(sboms[c])->0;
    let vs = comp.pedigree->0.variants->0;
    assert(crate::graph::variant_matches(vs@[v], target));
    assert(crate::graph::variant_refers(comp, target));
    assert(crate::graph::component_refers(comp, crate::graph::own_purl(sboms[p]), target));
    assert(refers(sboms, p, c));
    law_references_mirror(sboms, nodes, p, c);
    if nodes[p].rank >= 1 {
        law_reference_bounds_rank(sboms, nodes, p, c);
    }
}

/// An optional package URL is present and carries the SHA-256 digest of
/// `target`.
pub open spec fn purl_carries(o: Option<String>, target: Seq<char>) -> bool {
    match o {
        Some(x) => purls_match(x@, target),
        None => false,
    }
}

/// Component `c` points at `target` through its own package URL: that URL
/// carries `target`'s digest, and not the digest of `own`, the package URL
/// of the component its SBOM describes.
pub open spec fn points_directly(c: TpaSbomComponents, own: Option<Seq<char>>, target: Seq<char>) -> bool {
    purl_carries(c.purl, target) && !(own matches Some(o) && purl_carries(c.purl, o))
}

/// Component `c` points at `target` through one of its pedigree variants.
pub open spec fn points_by_variant(c: TpaSbomComponents, target: Seq<char>) -> bool {
    &&& c.pedigree is Some
    &&& c.pedigree->0.variants is Some
    &&& exists|v: int|
        0 <= v < c.pedigree->0.variants->0@.len() && purl_carries(
            (#[trigger] c.pedigree->0.variants->0@[v]).purl,
            target,
        )
}

/// Law: SBOM `p` lists SBOM `c` among its references, and `c` lists `p`
/// among its referrers, exactly when they are different SBOMs, `c`
/// describes a component with a package URL, and some component of `p`
/// carries that URL's SHA-256 digest, in its own package URL (unless that
/// URL carries the digest of `p`'s own described component too) or in one
/// of its pedigree variants.
pub proof fn law_reference_iff_digest(sboms: Seq<TpaSbom>, nodes: Seq<SbomWithRank>, p: int, c: int)
    requires
        placed(sboms, nodes),
        distinct_serials(sboms),
        0 <= p < sboms.len(),
        0 <= c < sboms.len(),
    ensures
        strings(nodes[p].references@).contains(serial(sboms[c])) <==> (p != c && sboms[c].metadata.component
            is Some && sboms[c].metadata.component->0.purl is Some && exists|k: int|
            0 <= k < sboms[p].components@.len() && (points_directly(
                #[trigger] sboms[p].components@[k],
                crate::graph::own_purl(sboms[p]),
                sboms[c].metadata.component->0.purl->0@,
            ) || points_by_variant(sboms[p].components@[k], sboms[c].metadata.component->0.purl->0@))),
        strings(nodes[c].referenced_by@).contains(serial(sboms[p])) <==> strings(nodes[p].references@).contains(
            serial(sboms[c]),
        ),
{
    law_references_mirror(sboms, nodes, p, c);
    let own = crate::graph::own_purl(sboms[p]);
    if sboms[c].metadata.component is Some && sboms[c].metadata.component->0.purl is Some {
        let target = sboms[c].metadata.component->0.purl->0@;
        assert(crate::graph::own_purl(sboms[c]) == Some(target));
        assert forall|k: int| 0 <= k < sboms[p].components@.len() implies #[trigger] crate::graph::component_refers(
            sboms[p].components@[k],
            own,
            target,
        ) == (points_directly(sboms[p].components@[k], own, target) || points_by_variant(
            sboms[p].components@[k],
            target,
        )) by {
            let comp = sboms[p].components@[k];
            if comp.pedigree is Some && comp.pedigree->0.variants is Some {
                let vs = comp.pedigree->0.variants->0;
                assert forall|v: int| 0 <= v < vs@.len() implies #[trigger] crate::graph::variant_matches(vs@[v], target)
                    == purl_carries(vs@[v].purl, target) by {}
                if points_by_variant(comp, target) {
                    let v = choose|v: int| 0 <= v < vs@.len() && purl_carries((#[trigger] vs@[v]).purl, target);
                    assert(crate::graph::variant_matches(vs@[v], target));
                }
                if crate::graph::variant_refers(comp, target) {
                    let v = choose|v: int| 0 <= v < vs@.len() && #[trigger] crate::graph::variant_matches(vs@[v], target);
                    assert(purl_carries(vs@[v].purl, target));
                }
            }
        }
        if strings(nodes[p].references@).contains(serial(sboms[c])) {
            let k = choose|k: int|
                0 <= k < sboms[p].components@.len() && #[trigger] crate::graph::component_refers(
                    sboms[p].components@[k],
                    own,
                    target,
                );
            assert(points_directly(sboms[p].components@[k], own, target) || points_by_variant(
                sboms[p].components@[k],
                target,
            ));
        }
        if p != c && exists|k: int|
            0 <= k < sboms[p].components@.len() && (points_directly(
                #[trigger] sboms[p].components@[k],
                own,
                target,
            ) || points_by_variant(sboms[p].components@[k], target)) {
            let k = choose|k: int|
                0 <= k < sboms[p].components@.len() && (points_directly(
                    #[trigger] sboms[p].components@[k],
                    own,
                    target,
                ) || points_by_variant(sboms[p].components@[k], target));
            assert(crate::graph::component_refers(sboms[p].components@[k], own, target));
            assert(crate::graph::own_purl(sboms[c])->0 == target);
            assert(crate::graph::component_refers(
                sboms[p].components@[k],
                crate::graph::own_purl(sboms[p]),
                crate::graph::own_purl(sboms[c])->0,
            ));
            assert(refers(sboms, p, c));
        }
    }
}

proof fn lemma_serials_at_contains(sboms: Seq<TpaSbom>, idx: Seq<int>, c: int)
    requires
        distinct_serials(sboms),
        0 <= c < sboms.len(),
        forall|a: int| 0 <= a < idx.len() ==> 0 <= #[trigger] idx[a] < sboms.len(),
    ensures
        serials_at(sboms, idx).contains(serial(sboms[c])) <==> idx.contains(c),
{
    if serials_at(sboms, idx).contains(serial(sboms[c])) {
        let k = choose|k: int| 0 <= k < serials_at(sboms, idx).len() && serials_at(sboms, idx)[k] == serial(sboms[c]);
        assert(serial(sboms[idx[k]]) == serial(sboms[c]));
        assert(idx[k] == c);
        assert(idx.contains(c));
    }
    if idx.contains(c) {
        let k = choose|k: int| 0 <= k < idx.len() && idx[k] == c;
        assert(serials_at(sboms, idx)[k] == serial(sboms[c]));
    }
}

/// Law: references mirror each other. The serial number of `c` is among
/// the references of `p` exactly when `p` refers to `c`, and exactly then
/// the serial number of `p` is among those that refer to `c`.
pub proof fn law_references_mirror(sboms: Seq<TpaSbom>, nodes: Seq<SbomWithRank>, p: int, c: int)
    requires
        placed(sboms, nodes),
        distinct_serials(sboms),
        0 <= p < sboms.len(),
        0 <= c < sboms.len(),
    ensures
        strings(nodes[p].references@).contains(serial(sboms[c])) <==> refers(sboms, p, c),
        strings(nodes[c].referenced_by@).contains(serial(sboms[p])) <==> refers(sboms, p, c),
{
    let n = sboms.len() as int;
    crate::graph::lemma_children_below(sboms, p, n);
    lemma_parents_below(sboms, c, n);
    lemma_serials_at_contains(sboms, children(sboms, p), c);
    lemma_serials_at_contains(sboms, parents(sboms, c), p);
}

/// The positions below `m` that satisfy `pred`, in increasing order.
pub open spec fn select_below(pred: spec_fn(int) -> bool, m: int) -> Seq<int>
    decreases m,
{
    if m <= 0 {
        Seq::empty()
    } else if pred(m - 1) {
        select_below(pred, m - 1).push(m - 1)
    } else {
        select_below(pred, m - 1)
    }
}

/// `r` refers to the nodes at positions `idx`, in that order.
pub open spec fn refs_at(r: Seq<&SbomWithRank>, nodes: Seq<SbomWithRank>, idx: Seq<int>) -> bool {
    &&& r.len() == idx.len()
    &&& forall|k: int| 0 <= k < r.len() ==> 0 <= idx[k] < nodes.len() && *(#[trigger] r[k]) == nodes[idx[k]]
}

/// The positions of the nodes of rank `rank`.
pub open spec fn with_rank(nodes: Seq<SbomWithRank>, rank: usize) -> Seq<int> {
    select_below(rank_is(nodes, rank), nodes.len() as int)
}

/// The node at a position has rank `rank`.
pub open spec fn rank_is(nodes: Seq<SbomWithRank>, rank: usize) -> spec_fn(int) -> bool {
    |i: int| nodes[i].rank == rank
}

/// An identity whose concluded value is `cpe`.
pub open spec fn concludes(id: TpaSbomMetadataComponentEvidenceIdentity, cpe: Seq<char>) -> bool {
    match id.concluded_value {
        Some(v) => v@ == cpe,
        None => false,
    }
}

/// The SBOM describes a component one of whose identities concludes `cpe`.
pub open spec fn has_cpe(s: TpaSbom, cpe: Seq<char>) -> bool {
    match s.metadata.component {
        Some(c) => match c.evidence {
            Some(e) => match e.identity {
                Some(ids) => exists|k: int| 0 <= k < ids@.len() && #[trigger] concludes(ids@[k], cpe),
                None => false,
            },
            None => false,
        },
        None => false,
    }
}

/// The positions of the nodes whose SBOM has the CPE `cpe`.
pub open spec fn with_cpe(nodes: Seq<SbomWithRank>, cpe: Seq<char>) -> Seq<int> {
    select_below(cpe_is(nodes, cpe), nodes.len() as int)
}

/// The node at a position has the CPE `cpe`.
pub open spec fn cpe_is(nodes: Seq<SbomWithRank>, cpe: Seq<char>) -> spec_fn(int) -> bool {
    |i: int| has_cpe(nodes[i].sbom, cpe)
}

/// A package URL query matches a candidate: same digest, or the same text.
pub open spec fn purl_matches(query: Seq<char>, candidate: Seq<char>) -> bool {
    purls_match(query, candidate) || query == candidate
}

/// The package URL of a variant matches the query.
pub open spec fn variant_purl_matches(var: TpaSbomComponentsPedigreeVariant, q: Seq<char>) -> bool {
    match var.purl {
        Some(p) => purl_matches(q, p@),
        None => false,
    }
}

/// A pedigree variant of `comp` matches the query.
pub open spec fn variant_hit(comp: TpaSbomComponents, q: Seq<char>) -> bool {
    match comp.pedigree {
        Some(pd) => match pd.variants {
            Some(vs) => exists|v: int| 0 <= v < vs@.len() && #[trigger] variant_purl_matches(vs@[v], q),
            None => false,
        },
        None => false,
    }
}

/// How many times the components from `k` on match the query: a component
/// whose own package URL matches counts once and ends the count; before it,
/// each component with a matching variant counts once.
pub open spec fn component_hits(comps: Seq<TpaSbomComponents>, q: Seq<char>, k: int) -> nat
    decreases comps.len() - k,
{
    if k < 0 || k >= comps.len() {
        0
    } else if comps[k].purl matches Some(p) && purl_matches(q, p@) {
        1
    } else {
        (if variant_hit(comps[k], q) {
            1nat
        } else {
            0nat
        }) + component_hits(comps, q, k + 1)
    }
}

/// How many times an SBOM is listed for a package URL query: once when the
/// component it describes matches, else as its components count.
pub open spec fn purl_hits(s: TpaSbom, q: Seq<char>) -> nat {
    match crate::graph::own_purl(s) {
        Some(p) => if purl_matches(q, p) {
            1
        } else {
            component_hits(s.components@, q, 0)
        },
        None => component_hits(s.components@, q, 0),
    }
}

/// The positions of the nodes below `m` listed for a package URL query, each
/// repeated as often as it is hit.
pub open spec fn purl_hit_list(nodes: Seq<SbomWithRank>, q: Seq<char>, m: int) -> Seq<int>
    decreases m,
{
    if m <= 0 {
        Seq::empty()
    } else {
        purl_hit_list(nodes, q, m - 1) + Seq::new(purl_hits(nodes[m - 1].sbom, q), |x: int| m - 1)
    }
}

/// The positions of the nodes listed for a package URL query.
pub open spec fn with_purl(nodes: Seq<SbomWithRank>, q: Seq<char>) -> Seq<int> {
    purl_hit_list(nodes, q, nodes.len() as int)
}

/// The package URL of the component that an SBOM describes matches the
/// query.
pub open spec fn described_purl_hit(s: TpaSbom, q: Seq<char>) -> bool {
    match crate::graph::own_purl(s) {
        Some(p) => purl_matches(q, p),
        None => false,
    }
}

/// The package URL of a component matches the query.
pub open spec fn component_purl_hit(c: TpaSbomComponents, q: Seq<char>) -> bool {
    match c.purl {
        Some(p) => purl_matches(q, p@),
        None => false,
    }
}

/// The SBOM names the package URL query somewhere: in the component it
/// describes, in one of its components, or in a pedigree variant of one of
/// its components (each matched by digest or by text).
pub open spec fn mentions_purl(s: TpaSbom, q: Seq<char>) -> bool {
    ||| described_purl_hit(s, q)
    ||| exists|k: int| 0 <= k < s.components@.len() && component_purl_hit(#[trigger] s.components@[k], q)
    ||| exists|k: int| 0 <= k < s.components@.len() && variant_hit(#[trigger] s.components@[k], q)
}

proof fn lemma_component_hits_positive(comps: Seq<TpaSbomComponents>, q: Seq<char>, k: int)
    requires
        0 <= k,
    ensures
        component_hits(comps, q, k) > 0 <==> exists|l: int|
            k <= l < comps.len() && (component_purl_hit(#[trigger] comps[l], q)
                || variant_hit(comps[l], q)),
    decreases comps.len() - k,
{
    if k < comps.len() {
        lemma_component_hits_positive(comps, q, k + 1);
        if component_hits(comps, q, k + 1) > 0 {
            let l = choose|l: int|
                k + 1 <= l < comps.len() && (component_purl_hit(#[trigger] comps[l], q)
                    || variant_hit(comps[l], q));
            assert(k <= l);
        }
        if exists|l: int|
            k <= l < comps.len() && (component_purl_hit(#[trigger] comps[l], q)
                || variant_hit(comps[l], q)) {
            let l = choose|l: int|
                k <= l < comps.len() && (component_purl_hit(#[trigger] comps[l], q)
                    || variant_hit(comps[l], q));
            if l > k {
                assert(component_hits(comps, q, k + 1) > 0);
            }
        }
    }
}

proof fn lemma_component_hits_variants(comps: Seq<TpaSbomComponents>, q: Seq<char>, k: int)
    requires
        0 <= k <= comps.len(),
        forall|l: int|
            k <= l < comps.len() ==> !component_purl_hit(#[trigger] comps[l], q),
    ensures
        component_hits(comps, q, k) == comps.skip(k).filter(|c: TpaSbomComponents| variant_hit(c, q)).len(),
    decreases comps.len() - k,
{
    let pred = |c: TpaSbomComponents| variant_hit(c, q);
    if k < comps.len() {
        lemma_component_hits_variants(comps, q, k + 1);
        assert(comps.skip(k) =~= seq![comps[k]] + comps.skip(k + 1));
        Seq::filter_distributes_over_add(seq![comps[k]], comps.skip(k + 1), pred);
        reveal_with_fuel(Seq::filter, 2);
        assert(seq![comps[k]].drop_last() =~= Seq::<TpaSbomComponents>::empty());
    } else {
        reveal_with_fuel(Seq::filter, 1);
        assert(comps.skip(k) =~= Seq::<TpaSbomComponents>::empty());
    }
}

proof fn lemma_purl_hit_list_contains(nodes: Seq<SbomWithRank>, q: Seq<char>, m: int, i: int)
    requires
        m <= nodes.len(),
    ensures
        purl_hit_list(nodes, q, m).contains(i) <==> (0 <= i < m && purl_hits(nodes[i].sbom, q) > 0),
    decreases m,
{
    if m > 0 {
        lemma_purl_hit_list_contains(nodes, q, m - 1, i);
        let prev = purl_hit_list(nodes, q, m - 1);
        let tail = Seq::new(purl_hits(nodes[m - 1].sbom, q), |x: int| m - 1);
        let cur = prev + tail;
        if cur.contains(i) {
            let x = choose|x: int| 0 <= x < cur.len() && cur[x] == i;
            if x < prev.len() {
                assert(prev[x] == i);
            } else {
                assert(tail[x - prev.len()] == i);
            }
        }
        if 0 <= i < m && purl_hits(nodes[i].sbom, q) > 0 {
            if i < m - 1 {
                let x = choose|x: int| 0 <= x < prev.len() && prev[x] == i;
                assert(cur[x] == i);
            } else {
                assert(cur[prev.len() as int] == i);
            }
        }
    }
}

/// Law: a package URL query lists an SBOM exactly when the SBOM names the
/// query in the component it describes, in one of its components or in a
/// pedigree variant of one of them. Where the query matches neither the
/// described component nor any component's own package URL, the SBOM is
/// listed once for each component with a matching variant.
pub proof fn law_purl_query_finds_mentions(nodes: Seq<SbomWithRank>, q: Seq<char>, i: int)
    requires
        0 <= i < nodes.len(),
    ensures
        with_purl(nodes, q).contains(i) <==> mentions_purl(nodes[i].sbom, q),
        purl_hits(nodes[i].sbom, q) > 0 <==> mentions_purl(nodes[i].sbom, q),
        !described_purl_hit(nodes[i].sbom, q) && (forall|k: int|
            0 <= k < nodes[i].sbom.components@.len()
                ==> !component_purl_hit(#[trigger] nodes[i].sbom.components@[k], q))
            ==> purl_hits(nodes[i].sbom, q)
            == nodes[i].sbom.components@.filter(|c: TpaSbomComponents| variant_hit(c, q)).len(),
{
    let s = nodes[i].sbom;
    let comps = s.components@;
    lemma_purl_hit_list_contains(nodes, q, nodes.len() as int, i);
    lemma_component_hits_positive(comps, q, 0);
    if component_hits(comps, q, 0) > 0 {
        let l = choose|l: int|
            0 <= l < comps.len() && (component_purl_hit(#[trigger] comps[l], q)
                || variant_hit(comps[l], q));
        if component_purl_hit(comps[l], q) {
            assert(exists|k: int|
                0 <= k < comps.len() && component_purl_hit(#[trigger] comps[k], q));
        } else {
            assert(exists|k: int| 0 <= k < comps.len() && variant_hit(#[trigger] comps[k], q));
        }
    }
    if mentions_purl(s, q) && !described_purl_hit(s, q) {
        if exists|k: int|
            0 <= k < comps.len() && component_purl_hit(#[trigger] comps[k], q) {
            let k = choose|k: int|
                0 <= k < comps.len() && component_purl_hit(#[trigger] comps[k], q);
            assert(component_purl_hit(comps[k], q) || variant_hit(comps[k], q));
        } else {
            let k = choose|k: int| 0 <= k < comps.len() && variant_hit(#[trigger] comps[k], q);
            assert(component_purl_hit(comps[k], q) || variant_hit(comps[k], q));
        }
    }
    if !described_purl_hit(s, q) && (forall|k: int|
        0 <= k < comps.len() ==> !component_purl_hit(#[trigger] comps[k], q)) {
        lemma_component_hits_variants(comps, q, 0);
        assert(comps.skip(0) =~= comps);
    }
}

proof fn lemma_component_hits_until(comps: Seq<TpaSbomComponents>, q: Seq<char>, i: int, k: int)
    requires
        0 <= i <= k < comps.len(),
        component_purl_hit(comps[k], q),
        forall|l: int| i <= l < k ==> !component_purl_hit(#[trigger] comps[l], q),
    ensures
        component_hits(comps, q, i) == 1 + comps.subrange(i, k).filter(|c: TpaSbomComponents| variant_hit(c, q)).len(),
    decreases k - i,
{
    let pred = |c: TpaSbomComponents| variant_hit(c, q);
    if i < k {
        lemma_component_hits_until(comps, q, i + 1, k);
        assert(!component_purl_hit(comps[i], q));
        assert(comps.subrange(i, k) =~= seq![comps[i]] + comps.subrange(i + 1, k));
        Seq::filter_distributes_over_add(seq![comps[i]], comps.subrange(i + 1, k), pred);
        reveal_with_fuel(Seq::filter, 2);
        assert(seq![comps[i]].drop_last() =~= Seq::<TpaSbomComponents>::empty());
    } else {
        reveal_with_fuel(Seq::filter, 1);
        assert(comps.subrange(i, k) =~= Seq::<TpaSbomComponents>::empty());
    }
}

/// Law: how often a package URL query lists an SBOM. Once when the
/// component the SBOM describes matches; otherwise, when its `k`-th
/// component is the first whose own package URL matches, once for it and
/// once for each earlier component with a matching pedigree variant.
pub proof fn law_purl_query_count(s: TpaSbom, q: Seq<char>, k: int)
    ensures
        described_purl_hit(s, q) ==> purl_hits(s, q) == 1,
        !described_purl_hit(s, q) && 0 <= k < s.components@.len() && component_purl_hit(s.components@[k], q)
            && (forall|l: int| 0 <= l < k ==> !component_purl_hit(#[trigger] s.components@[l], q))
            ==> purl_hits(s, q) == 1 + s.components@.take(k).filter(|c: TpaSbomComponents| variant_hit(c, q)).len(),
{
    if !described_purl_hit(s, q) && 0 <= k < s.components@.len() && component_purl_hit(s.components@[k], q)
        && (forall|l: int| 0 <= l < k ==> !component_purl_hit(#[trigger] s.components@[l], q)) {
        lemma_component_hits_until(s.components@, q, 0, k);
        assert(s.components@.subrange(0, k) =~= s.components@.take(k));
    }
}

fn has_cpe_exec(s: &TpaSbom, cpe: &str) -> (r: bool)
    ensures
        r == has_cpe(*s, cpe@),
{
    if let Some(component) = &s.metadata.component {
        if let Some(evidence) = &component.evidence {
            if let Some(identity) = &evidence.identity {
                let mut k: usize = 0;
                while k < identity.len()
                    invariant
                        k <= identity@.len(),
                        s.metadata.component == Some(*component),
                        component.evidence == Some(*evidence),
                        evidence.identity == Some(*identity),
                        forall|x: int| 0 <= x < k ==> !#[trigger] concludes(identity@[x], cpe@),
                    decreases identity.len() - k,
                {
                    if let Some(sbom_cpe) = &identity[k].concluded_value {
                        if str_eq(sbom_cpe.as_str(), cpe) {
                            let ghost all = s.metadata.component->0.evidence->0.identity->0;
                            assert(all@ == identity@);
                            assert(concludes(all@[k as int], cpe@));
                            return true;
                        }
                    }
                    k += 1;
                }
            }
        }
    }
    false
}

fn purl_matches_exec(query: &str, candidate: &str) -> (r: bool)
    ensures
        r == purl_matches(query@, candidate@),
{
    purls_match_by_sha256(query, candidate) || str_eq(query, candidate)
}

fn variant_hit_exec(comp: &TpaSbomComponents, q: &str) -> (r: bool)
    ensures
        r == variant_hit(*comp, q@),
{
    if let Some(pd) = &comp.pedigree {
        if let Some(vs) = &pd.variants {
            let mut v: usize = 0;
            while v < vs.len()
                invariant
                    v <= vs@.len(),
                    comp.pedigree == Some(*pd),
                    pd.variants == Some(*vs),
                    forall|w: int| 0 <= w < v ==> !#[trigger] variant_purl_matches(vs@[w], q@),
                decreases vs.len() - v,
            {
                if let Some(vp) = &vs[v].purl {
                    if purl_matches_exec(q, vp.as_str()) {
                        let ghost all = comp.pedigree->0.variants->0;
                        assert(all@ == vs@);
                        assert(variant_purl_matches(all@[v as int], q@));
                        return true;
                    }
                }
                v += 1;
            }
        }
    }
    false
}

fn purl_hits_exec(s: &TpaSbom, q: &str) -> (r: usize)
    ensures
        r as nat == purl_hits(*s, q@),
        r <= 1 + s.components@.len(),
{
    if let Some(own) = crate::graph::own_purl_exec(s) {
        if purl_matches_exec(q, own.as_str()) {
            return 1;
        }
    }
    let comps = &s.components;
    let mut count: usize = 0;
    let mut k: usize = 0;
    while k < comps.len()
        invariant
            k <= comps@.len(),
            count <= k,
            comps@ == s.components@,
            purl_hits(*s, q@) == component_hits(comps@, q@, 0),
            count + component_hits(comps@, q@, k as int) == component_hits(comps@, q@, 0),
        decreases comps.len() - k,
    {
        if let Some(p) = &comps[k].purl {
            if purl_matches_exec(q, p.as_str()) {
                assert(component_hits(comps@, q@, k as int) == 1);
                return count + 1;
            }
        }
        if variant_hit_exec(&comps[k], q) {
            count += 1;
        }
        k += 1;
    }
    count
}

impl SbomCorrelation {
    /// The SBOMs of rank `rank`.
    pub fn get_by_rank(&self, rank: usize) -> (r: Vec<&SbomWithRank>)
        ensures
            refs_at(r@, self.nodes@, with_rank(self.nodes@, rank)),
    {
        let mut pos: Vec<usize> = Vec::new();
        let mut i: usize = 0;
        while i < self.nodes.len()
            invariant
                i <= self.nodes@.len(),
                as_ints(pos@) == select_below(rank_is(self.nodes@, rank), i as int),
                forall|k: int| 0 <= k < pos@.len() ==> #[trigger] pos@[k] < i,
            decreases self.nodes@.len() - i,
        {
            let ghost old_pos = pos@;
            if self.nodes[i].rank == rank {
                pos.push(i);
                assert(as_ints(pos@) =~= as_ints(old_pos).push(i as int));
            }
            i += 1;
        }
        self.refs_for(&pos)
    }

    /// The highest rank of any SBOM, 0 when there is none.
    pub fn max_rank(&self) -> (r: usize)
        ensures
            forall|i: int| 0 <= i < self.nodes@.len() ==> #[trigger] self.nodes@[i].rank <= r,
            r == 0 || exists|i: int| 0 <= i < self.nodes@.len() && #[trigger] self.nodes@[i].rank == r,
    {
        let mut m: usize = 0;
        let mut i: usize = 0;
        while i < self.nodes.len()
            invariant
                i <= self.nodes@.len(),
                forall|j: int| 0 <= j < i ==> #[trigger] self.nodes@[j].rank <= m,
                m == 0 || exists|j: int| 0 <= j < i && #[trigger] self.nodes@[j].rank == m,
            decreases self.nodes@.len() - i,
        {
            if self.nodes[i].rank > m {
                m = self.nodes[i].rank;
            }
            i += 1;
        }
        m
    }

    fn cpe_positions(&self, cpe: &str) -> (r: Vec<usize>)
        ensures
            as_ints(r@) == with_cpe(self.nodes@, cpe@),
            forall|k: int| 0 <= k < r@.len() ==> #[trigger] r@[k] < self.nodes@.len(),
    {
        let mut r: Vec<usize> = Vec::new();
        let mut i: usize = 0;
        while i < self.nodes.len()
            invariant
                i <= self.nodes@.len(),
                as_ints(r@) == select_below(cpe_is(self.nodes@, cpe@), i as int),
                forall|k: int| 0 <= k < r@.len() ==> #[trigger] r@[k] < i,
            decreases self.nodes@.len() - i,
        {
            let ghost old_r = r@;
            if has_cpe_exec(&self.nodes[i].sbom, cpe) {
                r.push(i);
                assert(as_ints(r@) =~= as_ints(old_r).push(i as int));
            }
            i += 1;
        }
        r
    }

    fn purl_positions(&self, purl: &str) -> (r: Vec<usize>)
        ensures
            as_ints(r@) == with_purl(self.nodes@, purl@),
            forall|k: int| 0 <= k < r@.len() ==> #[trigger] r@[k] < self.nodes@.len(),
    {
        let mut r: Vec<usize> = Vec::new();
        let mut i: usize = 0;
        while i < self.nodes.len()
            invariant
                i <= self.nodes@.len(),
                as_ints(r@) == purl_hit_list(self.nodes@, purl@, i as int),
                forall|k: int| 0 <= k < r@.len() ==> #[trigger] r@[k] < i,
            decreases self.nodes@.len() - i,
        {
            let hits = purl_hits_exec(&self.nodes[i].sbom, purl);
            let ghost base = r@;
            let mut h: usize = 0;
            while h < hits
                invariant
                    i < self.nodes@.len(),
                    h <= hits,
                    as_ints(r@) == as_ints(base) + Seq::new(h as nat, |x: int| i as int),
                    forall|k: int| 0 <= k < base.len() ==> #[trigger] base[k] < i,
                    r@.len() == base.len() + h,
                    forall|k: int| 0 <= k < r@.len() ==> #[trigger] r@[k] <= i,
                decreases hits - h,
            {
                let ghost old_r = r@;
                r.push(i);
                assert(as_ints(r@) =~= as_ints(base) + Seq::new((h + 1) as nat, |x: int| i as int)) by {
                    assert(as_ints(r@) =~= as_ints(old_r).push(i as int));
                }
                h += 1;
            }
            assert(as_ints(r@) =~= purl_hit_list(self.nodes@, purl@, i + 1));
            i += 1;
        }
        r
    }

    /// The SBOMs that describe a component with the CPE `cpe`.
    pub fn get_sbom_node_by_cpe(&self, cpe: &str) -> (r: Vec<&SbomWithRank>)
        ensures
            refs_at(r@, self.nodes@, with_cpe(self.nodes@, cpe@)),
    {
        let pos = self.cpe_positions(cpe);
        self.refs_for(&pos)
    }

    /// The SBOMs listed for the package URL `purl` (matched by digest or
    /// text): an SBOM whose described component matches once, else once for
    /// a matching component (which ends the search in it) and once for each
    /// earlier component with a matching variant.
    pub fn get_sbom_node_by_purl(&self, purl: &str) -> (r: Vec<&SbomWithRank>)
        ensures
            refs_at(r@, self.nodes@, with_purl(self.nodes@, purl@)),
    {
        let pos = self.purl_positions(purl);
        self.refs_for(&pos)
    }

    fn refs_for(&self, pos: &Vec<usize>) -> (r: Vec<&SbomWithRank>)
        requires
            forall|k: int| 0 <= k < pos@.len() ==> #[trigger] pos@[k] < self.nodes@.len(),
        ensures
            refs_at(r@, self.nodes@, as_ints(pos@)),
    {
        let mut r: Vec<&SbomWithRank> = Vec::new();
        let mut k: usize = 0;
        while k < pos.len()
            invariant
                k <= pos@.len(),
                forall|x: int| 0 <= x < pos@.len() ==> #[trigger] pos@[x] < self.nodes@.len(),
                refs_at(r@, self.nodes@, as_ints(pos@).take(k as int)),
            decreases pos@.len() - k,
        {
            r.push(&self.nodes[pos[k]]);
            k += 1;
        }
        assert(as_ints(pos@).take(pos@.len() as int) =~= as_ints(pos@));
        r
    }
}

/// The serial numbers a node lists: those it refers to when going down,
/// those that refer to it when going up.
pub open spec fn listed(n: SbomWithRank, down: bool) -> Seq<String> {
    if down {
        n.references@
    } else {
        n.referenced_by@
    }
}

/// The node that the `k`-th serial number listed by node `i` names, if any
/// (the first node with that serial number).
pub open spec fn target(nodes: Seq<SbomWithRank>, down: bool, i: int, k: int) -> Option<int> {
    index_of_serial(sboms_of(nodes), listed(nodes[i], down)[k]@, 0)
}

/// Node `i` lists the serial number of node `j`.
pub open spec fn link(nodes: Seq<SbomWithRank>, down: bool, i: int, j: int) -> bool {
    &&& 0 <= i < nodes.len()
    &&& exists|k: int| 0 <= k < listed(nodes[i], down).len() && #[trigger] target(nodes, down, i, k) == Some(j)
}

/// Node `j` lies within `k` links of node `s`.
pub open spec fn linked_within(nodes: Seq<SbomWithRank>, down: bool, s: int, k: nat, j: int) -> bool
    decreases k,
{
    (j == s && 0 <= s < nodes.len()) || (k > 0 && exists|i: int|
        #![trigger link(nodes, down, i, j)]
        linked_within(nodes, down, s, (k - 1) as nat, i) && link(nodes, down, i, j))
}

/// Node `j` can be reached from node `s` by following links.
pub open spec fn linked(nodes: Seq<SbomWithRank>, down: bool, s: int, j: int) -> bool {
    exists|k: nat| #[trigger] linked_within(nodes, down, s, k, j)
}

/// `idx` is a walk from `s`: it starts at `s`, holds each node that links
/// lead to from `s`, once, and each node after the first is linked from
/// one before it.
pub open spec fn walk_from(nodes: Seq<SbomWithRank>, down: bool, s: int, idx: Seq<int>) -> bool {
    &&& idx.len() > 0
    &&& idx[0] == s
    &&& idx.no_duplicates()
    &&& forall|j: int| idx.contains(j) <==> linked(nodes, down, s, j)
    &&& forall|x: int| 0 < x < idx.len() ==> #[trigger] linked_from_earlier(nodes, down, idx, x)
}

/// The `x`-th node of `idx` is linked from a node before it.
pub open spec fn linked_from_earlier(nodes: Seq<SbomWithRank>, down: bool, idx: Seq<int>, x: int) -> bool {
    exists|y: int| 0 <= y < x && #[trigger] link(nodes, down, idx[y], idx[x])
}

/// Each of `hs` walks from the node at the same position of `starts`, and
/// refers to the nodes of its walk in walking order.
pub open spec fn walks(
    hs: Seq<Vec<&SbomWithRank>>,
    nodes: Seq<SbomWithRank>,
    down: bool,
    starts: Seq<int>,
) -> bool {
    &&& hs.len() == starts.len()
    &&& forall|h: int| 0 <= h < hs.len() ==> walk_refs(#[trigger] hs[h]@, nodes, down, starts[h])
}

/// `h` refers to the nodes that links lead to from `s`, in depth-first
/// preorder (see `preorder`).
pub open spec fn walk_refs(h: Seq<&SbomWithRank>, nodes: Seq<SbomWithRank>, down: bool, s: int) -> bool {
    refs_at(h, nodes, preorder(nodes, down, s))
}

proof fn lemma_linked_step(nodes: Seq<SbomWithRank>, down: bool, s: int, i: int, j: int)
    requires
        linked(nodes, down, s, i),
        link(nodes, down, i, j),
    ensures
        linked(nodes, down, s, j),
{
    let k = choose|k: nat| #[trigger] linked_within(nodes, down, s, k, i);
    assert(linked_within(nodes, down, s, k + 1, j));
}

/// Depth-first visit of node `v`: nothing when it was visited (in `vis`),
/// else `v` appended, then the nodes its list leads to visited in list
/// order. `fuel` bounds the depth; the walks below start with enough.
pub open spec fn dfs_visit(nodes: Seq<SbomWithRank>, down: bool, v: int, vis: Seq<int>, fuel: nat) -> Seq<int>
    decreases fuel, 0int, 0int,
{
    if fuel == 0 || vis.contains(v) {
        vis
    } else {
        dfs_follow(nodes, down, v, 0, vis.push(v), (fuel - 1) as nat)
    }
}

/// Visits, in order, the nodes that the `k`-th and later serial numbers of
/// node `v`'s list name.
pub open spec fn dfs_follow(nodes: Seq<SbomWithRank>, down: bool, v: int, k: int, vis: Seq<int>, fuel: nat) -> Seq<
    int,
>
    decreases fuel, 1int, listed(nodes[v], down).len() - k,
{
    if k < 0 || k >= listed(nodes[v], down).len() {
        vis
    } else {
        let next = match target(nodes, down, v, k) {
            Some(w) => dfs_visit(nodes, down, w, vis, fuel),
            None => vis,
        };
        dfs_follow(nodes, down, v, k + 1, next, fuel)
    }
}

/// The nodes that links lead to from `s`, in depth-first preorder: each
/// node's list followed in order, a node visited once.
pub open spec fn preorder(nodes: Seq<SbomWithRank>, down: bool, s: int) -> Seq<int> {
    dfs_visit(nodes, down, s, Seq::empty(), (nodes.len() + 1) as nat)
}

/// Every position of `vis` holds a node.
pub open spec fn in_range(vis: Seq<int>, n: int) -> bool {
    forall|i: int| 0 <= i < vis.len() ==> 0 <= #[trigger] vis[i] < n
}

/// Every node that node `u`'s list names is in `vis`.
pub open spec fn closed_at(nodes: Seq<SbomWithRank>, down: bool, vis: Seq<int>, u: int) -> bool {
    forall|k: int|
        0 <= k < listed(nodes[u], down).len() && (#[trigger] target(nodes, down, u, k)) is Some ==> vis.contains(
            target(nodes, down, u, k)->0,
        )
}

proof fn lemma_distinct_len(vis: Seq<int>, n: int)
    requires
        0 <= n,
        vis.no_duplicates(),
        in_range(vis, n),
    ensures
        vis.len() <= n,
{
    vis.unique_seq_to_set();
    vstd::set_lib::lemma_int_range(0, n);
    assert(vis.to_set().subset_of(vstd::set_lib::set_int_range(0, n))) by {
        assert forall|x: int| vis.to_set().contains(x) implies vstd::set_lib::set_int_range(0, n).contains(x) by {
            assert(vis.contains(x));
            let i = choose|i: int| 0 <= i < vis.len() && vis[i] == x;
            assert(0 <= vis[i] < n);
        }
    }
    vstd::set_lib::lemma_len_subset(vis.to_set(), vstd::set_lib::set_int_range(0, n));
}

proof fn lemma_target_in_range(nodes: Seq<SbomWithRank>, down: bool, u: int, k: int)
    ensures
        target(nodes, down, u, k) matches Some(w) ==> 0 <= w < nodes.len(),
{
    lemma_index_of_serial(sboms_of(nodes), listed(nodes[u], down)[k]@, 0);
}

proof fn lemma_dfs_visit(nodes: Seq<SbomWithRank>, down: bool, v: int, vis: Seq<int>, fuel: nat)
    requires
        0 <= v < nodes.len(),
        vis.no_duplicates(),
        in_range(vis, nodes.len() as int),
        vis.len() + fuel >= nodes.len() + 1,
    ensures
        ({
            let r = dfs_visit(nodes, down, v, vis, fuel);
            &&& r.len() >= vis.len()
            &&& r.take(vis.len() as int) == vis
            &&& r.no_duplicates()
            &&& in_range(r, nodes.len() as int)
            &&& r.contains(v)
            &&& forall|x: int| vis.len() <= x < r.len() ==> closed_at(nodes, down, r, #[trigger] r[x])
            &&& (vis.contains(v) || vis.len() == 0 || (exists|y: int|
                0 <= y < vis.len() && #[trigger] link(nodes, down, vis[y], v))) ==> forall|x: int|
                vis.len() <= x < r.len() && x > 0 ==> #[trigger] linked_from_earlier(nodes, down, r, x)
        }),
    decreases fuel, 0int, 0int,
{
    if !vis.contains(v) {
        let vis1 = vis.push(v);
        assert(vis1.no_duplicates()) by {
            assert forall|i: int, j: int| 0 <= i < j < vis1.len() implies vis1[i] != vis1[j] by {
                if j == vis.len() {
                    assert(vis.contains(vis[i]));
                } else {
                    assert(vis1[i] == vis[i] && vis1[j] == vis[j]);
                }
            }
        }
        lemma_distinct_len(vis1, nodes.len() as int);
        assert(vis1[vis.len() as int] == v);
        lemma_dfs_follow(nodes, down, v, 0, vis1, (fuel - 1) as nat);
        let r = dfs_visit(nodes, down, v, vis, fuel);
        assert(r == dfs_follow(nodes, down, v, 0, vis1, (fuel - 1) as nat));
        assert(r.take(vis1.len() as int) == vis1);
        assert(r.take(vis.len() as int) =~= vis) by {
            assert forall|i: int| 0 <= i < vis.len() implies r[i] == vis[i] by {
                assert(r.take(vis1.len() as int)[i] == vis1[i]);
            }
        }
        assert(r[vis.len() as int] == v) by {
            assert(r.take(vis1.len() as int)[vis.len() as int] == vis1[vis.len() as int]);
        }
        assert(r.contains(v));
        assert forall|x: int| vis.len() <= x < r.len() implies closed_at(nodes, down, r, #[trigger] r[x]) by {
            if x == vis.len() {
            }
        }
        if vis.len() == 0 || (exists|y: int| 0 <= y < vis.len() && #[trigger] link(nodes, down, vis[y], v)) {
            assert forall|x: int| vis.len() <= x < r.len() && x > 0 implies #[trigger] linked_from_earlier(nodes, down, r, x) by {
                if x == vis.len() {
                    let y = choose|y: int| 0 <= y < vis.len() && #[trigger] link(nodes, down, vis[y], v);
                    assert(r[y] == vis[y]) by {
                        assert(r.take(vis.len() as int)[y] == vis[y]);
                    }
                    assert(link(nodes, down, r[y], r[x]));
                }
            }
        }
    }
}

proof fn lemma_dfs_follow(nodes: Seq<SbomWithRank>, down: bool, v: int, k: int, vis: Seq<int>, fuel: nat)
    requires
        0 <= v < nodes.len(),
        0 <= k,
        vis.contains(v),
        vis.no_duplicates(),
        in_range(vis, nodes.len() as int),
        vis.len() + fuel >= nodes.len() + 1,
    ensures
        ({
            let r = dfs_follow(nodes, down, v, k, vis, fuel);
            &&& r.len() >= vis.len()
            &&& r.take(vis.len() as int) == vis
            &&& r.no_duplicates()
            &&& in_range(r, nodes.len() as int)
            &&& forall|x: int| vis.len() <= x < r.len() ==> closed_at(nodes, down, r, #[trigger] r[x])
            &&& forall|j: int|
                k <= j < listed(nodes[v], down).len() && (#[trigger] target(nodes, down, v, j)) is Some ==> r.contains(
                    target(nodes, down, v, j)->0,
                )
            &&& forall|x: int| vis.len() <= x < r.len() && x > 0 ==> #[trigger] linked_from_earlier(nodes, down, r, x)
        }),
    decreases fuel, 1int, listed(nodes[v], down).len() - k,
{
    let r = dfs_follow(nodes, down, v, k, vis, fuel);
    if k < listed(nodes[v], down).len() {
        lemma_target_in_range(nodes, down, v, k);
        let next = match target(nodes, down, v, k) {
            Some(w) => dfs_visit(nodes, down, w, vis, fuel),
            None => vis,
        };
        if let Some(w) = target(nodes, down, v, k) {
            lemma_dfs_visit(nodes, down, w, vis, fuel);
            let y = choose|y: int| 0 <= y < vis.len() && vis[y] == v;
            assert(link(nodes, down, vis[y], w));
        }
        lemma_dfs_follow(nodes, down, v, k + 1, next, fuel);
        assert(r == dfs_follow(nodes, down, v, k + 1, next, fuel));
        assert(next.take(vis.len() as int) == vis);
        assert(r.take(next.len() as int) == next);
        assert(r.take(vis.len() as int) =~= vis) by {
            assert forall|i: int| 0 <= i < vis.len() implies r[i] == vis[i] by {
                assert(r.take(next.len() as int)[i] == next[i]);
                assert(next.take(vis.len() as int)[i] == vis[i]);
            }
        }
        assert(next.contains(v)) by {
            let y = choose|y: int| 0 <= y < vis.len() && vis[y] == v;
            assert(next.take(vis.len() as int)[y] == vis[y]);
        }
        assert forall|x: int| vis.len() <= x < r.len() implies closed_at(nodes, down, r, #[trigger] r[x]) by {
            if x < next.len() {
                assert(r[x] == next[x]) by {
                    assert(r.take(next.len() as int)[x] == next[x]);
                }
                assert forall|j: int|
                    0 <= j < listed(nodes[r[x]], down).len() && (#[trigger] target(nodes, down, r[x], j)) is Some implies r.contains(
                        target(nodes, down, r[x], j)->0,
                    ) by {
                    let t = target(nodes, down, r[x], j)->0;
                    assert(next.contains(t));
                    let i = choose|i: int| 0 <= i < next.len() && next[i] == t;
                    assert(r[i] == t) by {
                        assert(r.take(next.len() as int)[i] == next[i]);
                    }
                }
            }
        }
        assert forall|j: int|
            k <= j < listed(nodes[v], down).len() && (#[trigger] target(nodes, down, v, j)) is Some implies r.contains(
                target(nodes, down, v, j)->0,
            ) by {
            if j == k {
                let t = target(nodes, down, v, j)->0;
                assert(next.contains(t));
                let i = choose|i: int| 0 <= i < next.len() && next[i] == t;
                assert(r[i] == t) by {
                    assert(r.take(next.len() as int)[i] == next[i]);
                }
            }
        }
        assert forall|x: int| vis.len() <= x < r.len() && x > 0 implies #[trigger] linked_from_earlier(nodes, down, r, x) by {
            if x < next.len() {
                assert(linked_from_earlier(nodes, down, next, x));
                let y = choose|y: int| 0 <= y < x && #[trigger] link(nodes, down, next[y], next[x]);
                assert(r[y] == next[y] && r[x] == next[x]) by {
                    assert(r.take(next.len() as int)[y] == next[y]);
                    assert(r.take(next.len() as int)[x] == next[x]);
                }
                assert(link(nodes, down, r[y], r[x]));
            }
        }
    } else {
        assert(r.take(vis.len() as int) =~= vis);
    }
}

/// Law: a walk from `s` starts at `s`, holds each node that links lead to
/// from `s` once and no other node, and reaches each node after the first
/// through a link from a node before it.
pub proof fn law_walk_reaches_exactly(nodes: Seq<SbomWithRank>, down: bool, s: int)
    requires
        0 <= s < nodes.len(),
    ensures
        walk_from(nodes, down, s, preorder(nodes, down, s)),
{
    let r = preorder(nodes, down, s);
    let e = Seq::<int>::empty();
    lemma_dfs_visit(nodes, down, s, e, (nodes.len() + 1) as nat);
    let vis1 = e.push(s);
    assert(vis1[0] == s);
    lemma_dfs_follow(nodes, down, s, 0, vis1, nodes.len() as nat);
    assert(r == dfs_follow(nodes, down, s, 0, vis1, nodes.len() as nat));
    assert(r[0] == s) by {
        assert(r.take(1)[0] == vis1[0]);
    }
    assert forall|x: int| 0 <= x < r.len() implies linked(nodes, down, s, #[trigger] r[x]) by {
        lemma_walk_prefix_linked(nodes, down, s, r, x);
    }
    assert forall|j: int| r.contains(j) <==> linked(nodes, down, s, j) by {
        if r.contains(j) {
            let x = choose|x: int| 0 <= x < r.len() && r[x] == j;
        }
        if linked(nodes, down, s, j) {
            let k = choose|k: nat| #[trigger] linked_within(nodes, down, s, k, j);
            lemma_walk_covers(nodes, down, s, r, k, j);
        }
    }
}

proof fn lemma_walk_prefix_linked(nodes: Seq<SbomWithRank>, down: bool, s: int, r: Seq<int>, x: int)
    requires
        0 <= x < r.len(),
        r[0] == s,
        0 <= s < nodes.len(),
        forall|y: int| 0 < y < r.len() ==> #[trigger] linked_from_earlier(nodes, down, r, y),
    ensures
        linked(nodes, down, s, r[x]),
    decreases x,
{
    if x == 0 {
        assert(linked_within(nodes, down, s, 0, s));
    } else {
        assert(linked_from_earlier(nodes, down, r, x));
        let y = choose|y: int| 0 <= y < x && #[trigger] link(nodes, down, r[y], r[x]);
        lemma_walk_prefix_linked(nodes, down, s, r, y);
        lemma_linked_step(nodes, down, s, r[y], r[x]);
    }
}

proof fn lemma_walk_covers(nodes: Seq<SbomWithRank>, down: bool, s: int, r: Seq<int>, k: nat, j: int)
    requires
        r.contains(s),
        forall|x: int| 0 <= x < r.len() ==> closed_at(nodes, down, r, #[trigger] r[x]),
        linked_within(nodes, down, s, k, j),
    ensures
        r.contains(j),
    decreases k,
{
    if j != s {
        let i = choose|i: int| linked_within(nodes, down, s, (k - 1) as nat, i) && link(nodes, down, i, j);
        lemma_walk_covers(nodes, down, s, r, (k - 1) as nat, i);
        let x = choose|x: int| 0 <= x < r.len() && r[x] == i;
        assert(closed_at(nodes, down, r, r[x]));
        let kk = choose|kk: int| 0 <= kk < listed(nodes[i], down).len() && #[trigger] target(nodes, down, i, kk) == Some(j);
        assert(target(nodes, down, r[x], kk) is Some);
    }
}

impl SbomCorrelation {
    fn find_node(&self, s: &String) -> (r: Option<usize>)
        ensures
            match r {
                Some(j) => index_of_serial(sboms_of(self.nodes@), s@, 0) == Some(j as int) && j < self.nodes@.len(),
                None => index_of_serial(sboms_of(self.nodes@), s@, 0) is None,
            },
    {
        let ghost all = sboms_of(self.nodes@);
        let mut k: usize = 0;
        while k < self.nodes.len()
            invariant
                k <= self.nodes@.len(),
                all == sboms_of(self.nodes@),
                index_of_serial(all, s@, 0) == index_of_serial(all, s@, k as int),
            decreases self.nodes@.len() - k,
        {
            assert(all[k as int] == self.nodes@[k as int].sbom);
            if str_eq(self.nodes[k].sbom.serial_number.as_str(), s.as_str()) {
                return Some(k);
            }
            k += 1;
        }
        None
    }

    fn visit_exec(
        &self,
        v: usize,
        down: bool,
        visited: &mut Vec<bool>,
        result: &mut Vec<usize>,
        Ghost(fuel): Ghost<nat>,
    )
        requires
            v < self.nodes@.len(),
            old(visited)@.len() == self.nodes@.len(),
            forall|a: int|
                0 <= a < self.nodes@.len() ==> (old(visited)@[a] <==> as_ints(old(result)@).contains(a)),
            as_ints(old(result)@).no_duplicates(),
            in_range(as_ints(old(result)@), self.nodes@.len() as int),
            old(result)@.len() + fuel >= self.nodes@.len() + 1,
        ensures
            final(visited)@.len() == self.nodes@.len(),
            forall|a: int|
                0 <= a < self.nodes@.len() ==> (final(visited)@[a] <==> as_ints(final(result)@).contains(a)),
            as_ints(final(result)@) == dfs_visit(self.nodes@, down, v as int, as_ints(old(result)@), fuel),
        decreases fuel, 0int, 0int,
    {
        let ghost nodes = self.nodes@;
        let ghost n = nodes.len();
        let ghost vis0 = as_ints(result@);
        if visited[v] {
            assert(vis0.contains(v as int));
            return;
        }
        proof {
            lemma_dfs_visit(nodes, down, v as int, vis0, fuel);
            let vis1 = vis0.push(v as int);
            assert(vis1.no_duplicates()) by {
                assert forall|i: int, j: int| 0 <= i < j < vis1.len() implies vis1[i] != vis1[j] by {
                    if j == vis0.len() {
                        assert(vis0.contains(vis0[i]));
                    } else {
                        assert(vis1[i] == vis0[i] && vis1[j] == vis0[j]);
                    }
                }
            }
            lemma_distinct_len(vis1, n as int);
        }
        visited.set(v, true);
        result.push(v);
        let ghost vis1 = as_ints(result@);
        assert(vis1 =~= vis0.push(v as int));
        assert(vis1.no_duplicates()) by {
            assert forall|i: int, j: int| 0 <= i < j < vis1.len() implies vis1[i] != vis1[j] by {
                if j == vis0.len() {
                    assert(vis0.contains(vis0[i]));
                } else {
                    assert(vis1[i] == vis0[i] && vis1[j] == vis0[j]);
                }
            }
        }
        assert forall|a: int| 0 <= a < n implies (visited@[a] <==> as_ints(result@).contains(a)) by {
            if a == v as int {
                assert(vis1[vis0.len() as int] == a);
            } else if vis0.contains(a) {
                let i = choose|i: int| 0 <= i < vis0.len() && vis0[i] == a;
                assert(vis1[i] == a);
            } else if vis1.contains(a) {
                let i = choose|i: int| 0 <= i < vis1.len() && vis1[i] == a;
                assert(i < vis0.len());
                assert(vis0[i] == a);
            }
        }
        let f = Ghost((fuel - 1) as nat);
        let list = if down {
            &self.nodes[v].references
        } else {
            &self.nodes[v].referenced_by
        };
        assert(list@ == listed(nodes[v as int], down));
        assert(as_ints(result@)[vis0.len() as int] == v as int);
        let mut k: usize = 0;
        while k < list.len()
            invariant
                fuel >= 1,
                nodes == self.nodes@,
                n == nodes.len(),
                v < n,
                list@ == listed(nodes[v as int], down),
                k <= list@.len(),
                f@ == (fuel - 1) as nat,
                visited@.len() == n,
                forall|a: int| 0 <= a < n ==> (visited@[a] <==> as_ints(result@).contains(a)),
                as_ints(result@).no_duplicates(),
                in_range(as_ints(result@), n as int),
                as_ints(result@).contains(v as int),
                result@.len() + f@ >= n + 1,
                dfs_follow(nodes, down, v as int, 0, vis1, f@) == dfs_follow(
                    nodes,
                    down,
                    v as int,
                    k as int,
                    as_ints(result@),
                    f@,
                ),
            decreases list@.len() - k,
        {
            let ghost cur = as_ints(result@);
            let found = self.find_node(&list[k]);
            assert(target(nodes, down, v as int, k as int) == match found {
                Some(j) => Some(j as int),
                None => None::<int>,
            });
            if let Some(w) = found {
                proof {
                    lemma_dfs_visit(nodes, down, w as int, cur, f@);
                }
                self.visit_exec(w, down, visited, result, f);
                assert(as_ints(result@).take(cur.len() as int) == cur);
                assert(as_ints(result@).contains(v as int)) by {
                    let i = choose|i: int| 0 <= i < cur.len() && cur[i] == v as int;
                    assert(as_ints(result@).take(cur.len() as int)[i] == cur[i]);
                }
            }
            k += 1;
        }
        assert(as_ints(result@) == dfs_follow(nodes, down, v as int, 0, vis1, f@));
    }

    /// The nodes that links lead to from node `start`, in depth-first
    /// preorder: each node's list followed in order, each node once.
    fn walk(&self, start: usize, down: bool) -> (r: Vec<usize>)
        requires
            start < self.nodes@.len(),
        ensures
            as_ints(r@) == preorder(self.nodes@, down, start as int),
            forall|x: int| 0 <= x < r@.len() ==> #[trigger] r@[x] < self.nodes@.len(),
    {
        let n = self.nodes.len();
        let mut visited: Vec<bool> = Vec::new();
        let mut i: usize = 0;
        while i < n
            invariant
                n == self.nodes@.len(),
                i <= n,
                visited@.len() == i,
                forall|a: int| 0 <= a < i ==> !visited@[a],
            decreases n - i,
        {
            visited.push(false);
            i += 1;
        }
        let mut result: Vec<usize> = Vec::new();
        assert(as_ints(result@) =~= Seq::<int>::empty());
        self.visit_exec(start, down, &mut visited, &mut result, Ghost((n + 1) as nat));
        proof {
            lemma_dfs_visit(self.nodes@, down, start as int, Seq::empty(), (n + 1) as nat);
            assert forall|x: int| 0 <= x < result@.len() implies #[trigger] result@[x] < self.nodes@.len() by {
                assert(as_ints(result@)[x] == result@[x] as int);
            }
        }
        result
    }
}

impl SbomCorrelation {
    fn walks_from(&self, starts: &Vec<usize>, down: bool) -> (r: Vec<Vec<&SbomWithRank>>)
        requires
            forall|k: int| 0 <= k < starts@.len() ==> #[trigger] starts@[k] < self.nodes@.len(),
        ensures
            walks(r@, self.nodes@, down, as_ints(starts@)),
    {
        let mut r: Vec<Vec<&SbomWithRank>> = Vec::new();
        let mut h: usize = 0;
        while h < starts.len()
            invariant
                h <= starts@.len(),
                forall|k: int| 0 <= k < starts@.len() ==> #[trigger] starts@[k] < self.nodes@.len(),
                walks(r@, self.nodes@, down, as_ints(starts@).take(h as int)),
            decreases starts@.len() - h,
        {
            let idx = self.walk(starts[h], down);
            let refs = self.refs_for(&idx);
            let ghost old_r = r@;
            r.push(refs);
            proof {
                assert forall|g: int| 0 <= g < r@.len() implies walk_refs(#[trigger] r@[g]@, self.nodes@, down, as_ints(starts@).take(h + 1)[g]) by {
                    if g == h as int {
                        assert(as_ints(starts@).take(h + 1)[g] == starts@[h as int] as int);
                        assert(refs_at(r@[g]@, self.nodes@, as_ints(idx@)));
                    } else {
                        assert(r@[g] == old_r[g]);
                        assert(as_ints(starts@).take(h + 1)[g] == as_ints(starts@).take(h as int)[g]);
                    }
                }
                assert(r@.len() == as_ints(starts@).take(h + 1).len());
                assert(walks(r@, self.nodes@, down, as_ints(starts@).take(h + 1)));
            }
            h += 1;
        }
        assert(as_ints(starts@).take(starts@.len() as int) =~= as_ints(starts@));
        r
    }

    /// For each SBOM with the CPE `cpe`, the SBOMs it leads to through the
    /// references, itself first, in depth-first order.
    pub fn get_sbom_hierarchy_by_cpe(&self, cpe: &str) -> (r: Vec<Vec<&SbomWithRank>>)
        ensures
            walks(r@, self.nodes@, true, with_cpe(self.nodes@, cpe@)),
    {
        let starts = self.cpe_positions(cpe);
        self.walks_from(&starts, true)
    }

    /// For each SBOM listed for the package URL `purl`, the SBOMs it leads to
    /// through the references, itself first, in depth-first order.
    pub fn get_sbom_hierarchy_by_purl(&self, purl: &str) -> (r: Vec<Vec<&SbomWithRank>>)
        ensures
            walks(r@, self.nodes@, true, with_purl(self.nodes@, purl@)),
    {
        let starts = self.purl_positions(purl);
        self.walks_from(&starts, true)
    }

    /// For each SBOM listed for the package URL `purl`, the SBOMs that refer
    /// to it, directly or through others, itself first, in depth-first order.
    pub fn get_sbom_ancestors_by_purl(&self, purl: &str) -> (r: Vec<Vec<&SbomWithRank>>)
        ensures
            walks(r@, self.nodes@, false, with_purl(self.nodes@, purl@)),
    {
        let starts = self.purl_positions(purl);
        self.walks_from(&starts, false)
    }
}

/// The name under which a hierarchy is grouped: the name of the component
/// that its first SBOM describes, or that SBOM's serial number.
pub open spec fn root_key(h: Seq<&SbomWithRank>) -> Seq<char> {
    match h[0].sbom.metadata.component {
        Some(c) => match c.name {
            Some(nm) => nm@,
            None => serial(h[0].sbom),
        },
        None => serial(h[0].sbom),
    }
}

/// The timestamp of a hierarchy's first SBOM, empty when it has none.
pub open spec fn root_time(h: Seq<&SbomWithRank>) -> Seq<char> {
    match h[0].sbom.metadata.timestamp {
        Some(t) => t@,
        None => Seq::empty(),
    }
}

/// Hierarchy `j` is non-empty and grouped under `key`.
pub open spec fn in_group(hs: Seq<Vec<&SbomWithRank>>, j: int, key: Seq<char>) -> bool {
    0 <= j < hs.len() && hs[j]@.len() > 0 && root_key(hs[j]@) == key
}

/// Hierarchy `i` is the first of its group.
pub open spec fn first_of_group(hs: Seq<Vec<&SbomWithRank>>, i: int) -> bool {
    &&& 0 <= i < hs.len()
    &&& hs[i]@.len() > 0
    &&& forall|j: int| 0 <= j < i ==> !#[trigger] in_group(hs, j, root_key(hs[i]@))
}

/// The positions of the hierarchies that come first in their groups.
pub open spec fn group_firsts(hs: Seq<Vec<&SbomWithRank>>) -> Seq<int> {
    select_below(first_pred(hs), hs.len() as int)
}

/// Whether the hierarchy at a position is the first of its group.
pub open spec fn first_pred(hs: Seq<Vec<&SbomWithRank>>) -> spec_fn(int) -> bool {
    |i: int| first_of_group(hs, i)
}

/// Hierarchy `b` is the latest of the group `key`: no other has a later
/// root timestamp, and any before it has an earlier one.
pub open spec fn latest_of_group(hs: Seq<Vec<&SbomWithRank>>, key: Seq<char>, b: int) -> bool {
    &&& in_group(hs, b, key)
    &&& forall|j: int|
        #[trigger] in_group(hs, j, key) ==> lex_le(root_time(hs[j]@), root_time(hs[b]@)) && (j < b
            ==> lex_lt(root_time(hs[j]@), root_time(hs[b]@)))
}

/// `h` is the latest hierarchy of the group `key`.
pub open spec fn picks(hs: Seq<Vec<&SbomWithRank>>, key: Seq<char>, h: Seq<&SbomWithRank>) -> bool {
    exists|b: int| latest_of_group(hs, key, b) && h == hs[b]@
}

fn root_key_exec(h: &Vec<&SbomWithRank>) -> (r: Vec<char>)
    requires
        h@.len() > 0,
    ensures
        r@ == root_key(h@),
{
    let root = h[0];
    match &root.sbom.metadata.component {
        Some(c) => match &c.name {
            Some(nm) => chars_of(nm.as_str()),
            None => chars_of(root.sbom.serial_number.as_str()),
        },
        None => chars_of(root.sbom.serial_number.as_str()),
    }
}

fn root_time_exec(h: &Vec<&SbomWithRank>) -> (r: Vec<char>)
    requires
        h@.len() > 0,
    ensures
        r@ == root_time(h@),
{
    match &h[0].sbom.metadata.timestamp {
        Some(t) => chars_of(t.as_str()),
        None => Vec::new(),
    }
}

fn copy_refs<'a>(h: &Vec<&'a SbomWithRank>) -> (r: Vec<&'a SbomWithRank>)
    ensures
        r@ == h@,
{
    let mut r: Vec<&SbomWithRank> = Vec::new();
    let mut k: usize = 0;
    while k < h.len()
        invariant
            k <= h@.len(),
            r@ == h@.take(k as int),
        decreases h@.len() - k,
    {
        r.push(h[k]);
        assert(h@.take(k + 1) =~= h@.take(k as int).push(h@[k as int]));
        k += 1;
    }
    assert(h@.take(h@.len() as int) =~= h@);
    r
}

fn in_group_exec(hs: &Vec<Vec<&SbomWithRank>>, j: usize, key: &Vec<char>) -> (r: bool)
    requires
        j < hs@.len(),
    ensures
        r == in_group(hs@, j as int, key@),
{
    if hs[j].len() == 0 {
        return false;
    }
    let kj = root_key_exec(&hs[j]);
    crate::text::chars_eq(kj.as_slice(), key.as_slice())
}

/// `r` is what keeping the latest hierarchy of each group of `hs` gives:
/// `hs` itself when it holds one hierarchy or none, else for each group,
/// in order of first appearance, its latest hierarchy.
pub open spec fn keeps_latest(hs: Seq<Vec<&SbomWithRank>>, r: Seq<Vec<&SbomWithRank>>) -> bool {
    if hs.len() <= 1 {
        r == hs
    } else {
        &&& r.len() == group_firsts(hs).len()
        &&& forall|k: int|
            0 <= k < r.len() ==> picks(hs, root_key(hs[group_firsts(hs)[k]]@), (#[trigger] r[k])@)
    }
}

proof fn lemma_select_below(pred: spec_fn(int) -> bool, m: int)
    ensures
        forall|k: int| 0 <= k < select_below(pred, m).len() ==> pred(#[trigger] select_below(pred, m)[k])
            && 0 <= select_below(pred, m)[k] < m,
        forall|i: int, j: int| 0 <= i < j < select_below(pred, m).len() ==> #[trigger] select_below(pred, m)[i]
            < #[trigger] select_below(pred, m)[j],
        (forall|i: int| 0 <= i < m ==> #[trigger] pred(i)) ==> select_below(pred, m) == Seq::new(
            (if m > 0 { m } else { 0 }) as nat,
            |k: int| k,
        ),
    decreases m,
{
    if m > 0 {
        lemma_select_below(pred, m - 1);
        let prev = select_below(pred, m - 1);
        let cur = select_below(pred, m);
        if pred(m - 1) {
            assert(cur == prev.push(m - 1));
            assert forall|k: int| 0 <= k < cur.len() implies pred(#[trigger] cur[k]) && 0 <= cur[k] < m by {
                if k < prev.len() {
                    assert(cur[k] == prev[k]);
                }
            }
            assert forall|i: int, j: int| 0 <= i < j < cur.len() implies #[trigger] cur[i] < #[trigger] cur[j] by {
                assert(cur[i] == prev[i]);
                if j < prev.len() {
                    assert(cur[j] == prev[j]);
                }
            }
        }
        if forall|i: int| 0 <= i < m ==> #[trigger] pred(i) {
            assert(pred(m - 1));
            assert(select_below(pred, m) =~= Seq::new(m as nat, |k: int| k));
        }
    } else {
        assert(select_below(pred, m) =~= Seq::new(0, |k: int| k));
    }
}

/// Law: keeping the latest hierarchies twice keeps them all the second
/// time: the second result is exactly the first, the same hierarchies of
/// the same SBOMs in the same order (each hierarchy taken as the sequence
/// of SBOM references it holds).
pub proof fn law_filter_latest_idempotent(
    hs: Seq<Vec<&SbomWithRank>>,
    r: Seq<Vec<&SbomWithRank>>,
    r2: Seq<Vec<&SbomWithRank>>,
)
    requires
        keeps_latest(hs, r),
        keeps_latest(r, r2),
    ensures
        r2.len() == r.len(),
        forall|k: int| 0 <= k < r.len() ==> (#[trigger] r2[k])@ == r[k]@,
        r2.map_values(|h: Vec<&SbomWithRank>| h@) == r.map_values(|h: Vec<&SbomWithRank>| h@),
{
    if hs.len() > 1 && r.len() > 1 {
        let g = group_firsts(hs);
        lemma_select_below(first_pred(hs), hs.len() as int);
        assert forall|k: int| 0 <= k < r.len() implies (#[trigger] r[k])@.len() > 0 && root_key(r[k]@)
            == root_key(hs[g[k]]@) by {
            assert(picks(hs, root_key(hs[g[k]]@), r[k]@));
            let b = choose|b: int| latest_of_group(hs, root_key(hs[g[k]]@), b) && r[k]@ == hs[b]@;
            assert(in_group(hs, b, root_key(hs[g[k]]@)));
        }
        assert forall|k: int, l: int| 0 <= k < r.len() && 0 <= l < r.len() && k != l implies root_key(
            (#[trigger] r[k])@,
        ) != root_key((#[trigger] r[l])@) by {
            let (lo, hi) = if k < l { (k, l) } else { (l, k) };
            assert(first_pred(hs)(g[hi]));
            assert(first_of_group(hs, g[hi]));
            assert(g[lo] < g[hi]);
            assert(first_pred(hs)(g[lo]));
            if root_key(hs[g[lo]]@) == root_key(hs[g[hi]]@) {
                assert(in_group(hs, g[lo], root_key(hs[g[hi]]@)));
            }
            assert(r[lo]@.len() > 0 && r[hi]@.len() > 0);
        }
        assert forall|i: int| 0 <= i < r.len() implies #[trigger] first_pred(r)(i) by {
            assert forall|j: int| 0 <= j < i implies !#[trigger] in_group(r, j, root_key(r[i]@)) by {
                assert(r[j]@.len() > 0);
            }
        }
        lemma_select_below(first_pred(r), r.len() as int);
        let g2 = group_firsts(r);
        assert(g2 == Seq::new(r.len(), |k: int| k));
        assert forall|k: int| 0 <= k < r.len() implies (#[trigger] r2[k])@ == r[k]@ by {
            assert(g2[k] == k);
            assert(picks(r, root_key(r[g2[k]]@), r2[k]@));
            let b = choose|b: int| latest_of_group(r, root_key(r[k]@), b) && r2[k]@ == r[b]@;
            assert(in_group(r, b, root_key(r[k]@)));
            if b != k {
                assert(root_key(r[b]@) != root_key(r[k]@));
            }
        }
    }
    assert(r2.map_values(|h: Vec<&SbomWithRank>| h@) =~= r.map_values(|h: Vec<&SbomWithRank>| h@));
}

impl SbomCorrelation {
    /// Keeps, of each group of hierarchies whose first SBOMs describe a
    /// component of one name (or have one serial number), the hierarchy with
    /// the latest root timestamp; groups in order of first appearance,
    /// empty hierarchies dropped. One hierarchy or none is kept as it is.
    pub fn filter_latest_hierarchy<'a>(&self, hierarchies: Vec<Vec<&'a SbomWithRank>>) -> (r: Vec<
        Vec<&'a SbomWithRank>,
    >)
        ensures
            keeps_latest(hierarchies@, r@),
    {
        if hierarchies.len() <= 1 {
            return hierarchies;
        }
        let hs = &hierarchies;
        let ghost hv = hierarchies@;
        let n = hs.len();
        let mut r: Vec<Vec<&SbomWithRank>> = Vec::new();
        let ghost mut firsts: Seq<int> = Seq::empty();
        let mut i: usize = 0;
        while i < n
            invariant
                n == hv.len(),
                hs@ == hv,
                i <= n,
                firsts == select_below(first_pred(hv), i as int),
                r@.len() == firsts.len(),
                forall|k: int|
                    0 <= k < r@.len() ==> picks(hv, root_key(hv[firsts[k]]@), (#[trigger] r@[k])@),
                forall|k: int| 0 <= k < firsts.len() ==> 0 <= #[trigger] firsts[k] < n,
            decreases n - i,
        {
            if hs[i].len() > 0 {
                let key = root_key_exec(&hs[i]);
                let mut first = true;
                let mut j: usize = 0;
                while j < i
                    invariant
                        n == hv.len(),
                        hs@ == hv,
                        i < n,
                        j <= i,
                        key@ == root_key(hv[i as int]@),
                        first == forall|x: int| 0 <= x < j ==> !#[trigger] in_group(hv, x, key@),
                    decreases i - j,
                {
                    if in_group_exec(hs, j, &key) {
                        first = false;
                    }
                    j += 1;
                }
                if first {
                    let mut best: usize = i;
                    let mut best_time = root_time_exec(&hs[i]);
                    proof {
                        lemma_lex_irreflexive(best_time@);
                    }
                    let mut j: usize = i + 1;
                    while j < n
                        invariant
                            n == hv.len(),
                            hs@ == hv,
                            i < n,
                            i <= best < j <= n,
                            key@ == root_key(hv[i as int]@),
                            in_group(hv, best as int, key@),
                            best_time@ == root_time(hv[best as int]@),
                            forall|x: int| 0 <= x < i ==> !#[trigger] in_group(hv, x, key@),
                            forall|x: int|
                                0 <= x < j && #[trigger] in_group(hv, x, key@) ==> lex_le(
                                    root_time(hv[x]@),
                                    best_time@,
                                ) && (x < best ==> lex_lt(root_time(hv[x]@), best_time@)),
                        decreases n - j,
                    {
                        if in_group_exec(hs, j, &key) {
                            let t = root_time_exec(&hs[j]);
                            if lex_lt_exec(best_time.as_slice(), t.as_slice()) {
                                proof {
                                    assert forall|x: int|
                                        0 <= x < j + 1 && #[trigger] in_group(hv, x, key@) implies lex_le(
                                            root_time(hv[x]@),
                                            t@,
                                        ) && (x < j ==> lex_lt(root_time(hv[x]@), t@)) by {
                                        if x < j {
                                            if root_time(hv[x]@) != best_time@ {
                                                lemma_lex_lt_trans(root_time(hv[x]@), best_time@, t@);
                                            }
                                        } else {
                                            lemma_lex_irreflexive(t@);
                                        }
                                    }
                                }
                                best = j;
                                best_time = t;
                            } else {
                                proof {
                                    lemma_lex_total(best_time@, t@);
                                }
                            }
                        }
                        j += 1;
                    }
                    let ghost old_r = r@;
                    let ghost old_firsts = firsts;
                    r.push(copy_refs(&hs[best]));
                    proof {
                        assert(first_of_group(hv, i as int));
                        firsts = firsts.push(i as int);
                        assert forall|k: int| 0 <= k < r@.len() implies picks(hv, root_key(hv[firsts[k]]@), (#[trigger] r@[k])@) by {
                            if k == r@.len() - 1 {
                                assert(latest_of_group(hv, root_key(hv[firsts[k]]@), best as int) && r@[k]@ == hv[best as int]@);
                            } else {
                                assert(r@[k] == old_r[k]);
                                assert(firsts[k] == old_firsts[k]);
                            }
                        }
                    }
                } else {
                    proof {
                        assert(!first_of_group(hv, i as int));
                    }
                }
            } else {
                assert(!first_of_group(hv, i as int));
            }
            i += 1;
        }
        r
    }
}

} // verus!
