//! The reference graph between SBOMs and the ranks of its nodes.
//!
//! SBOM `p` refers to SBOM `c` when one of `p`'s components (other than one
//! that names `p` itself) or one of their pedigree variants carries the same
//! SHA-256 digest as the package URL of the component that `c` describes.
//! Ranks are levels of a breadth-first walk from the SBOMs that no SBOM
//! refers to: those have rank 1, and an SBOM that no such walk reaches has
//! rank 0.

use vstd::prelude::*;
use crate::purl::{purls_match, purls_match_by_sha256};
use crate::sbom::{TpaSbom, TpaSbomComponents, TpaSbomComponentsPedigreeVariant};

verus! {

/// Indices as integers.
pub open spec fn as_ints(s: Seq<usize>) -> Seq<int> {
    s.map_values(|j: usize| j as int)
}

/// The package URL of the component that an SBOM describes.
pub open spec fn own_purl(s: TpaSbom) -> Option<Seq<char>> {
    match s.metadata.component {
        Some(c) => match c.purl {
            Some(p) => Some(p@),
            None => None,
        },
        None => None,
    }
}

/// `var` carries the digest of `target`.
pub open spec fn variant_matches(var: TpaSbomComponentsPedigreeVariant, target: Seq<char>) -> bool {
    match var.purl {
        Some(p) => purls_match(p@, target),
        None => false,
    }
}

/// A pedigree variant of `comp` carries the digest of `target`.
pub open spec fn variant_refers(comp: TpaSbomComponents, target: Seq<char>) -> bool {
    match comp.pedigree {
        Some(pd) => match pd.variants {
            Some(vs) => exists|v: int| 0 <= v < vs@.len() && #[trigger] variant_matches(vs@[v], target),
            None => false,
        },
        None => false,
    }
}

/// `comp` is not its SBOM's own component and carries the digest of
/// `target`, or one of its variants does.
pub open spec fn component_refers(
    comp: TpaSbomComponents,
    own: Option<Seq<char>>,
    target: Seq<char>,
) -> bool {
    (match comp.purl {
        Some(p) => !(match own {
            Some(o) => purls_match(p@, o),
            None => false,
        }) && purls_match(p@, target),
        None => false,
    }) || variant_refers(comp, target)
}

/// SBOM `p` refers to SBOM `c`.
pub open spec fn refers(sboms: Seq<TpaSbom>, p: int, c: int) -> bool {
    &&& 0 <= p < sboms.len()
    &&& 0 <= c < sboms.len()
    &&& p != c
    &&& own_purl(sboms[c]) is Some
    &&& exists|k: int|
        0 <= k < sboms[p].components@.len() && #[trigger] component_refers(
            sboms[p].components@[k],
            own_purl(sboms[p]),
            own_purl(sboms[c])->0,
        )
}

/// No SBOM refers to SBOM `i`.
pub open spec fn is_root(sboms: Seq<TpaSbom>, i: int) -> bool {
    &&& 0 <= i < sboms.len()
    &&& forall|p: int| !#[trigger] refers(sboms, p, i)
}

/// SBOM `i` lies within `k - 1` references of a root.
pub open spec fn reached(sboms: Seq<TpaSbom>, k: nat, i: int) -> bool
    decreases k,
{
    if k == 0 {
        false
    } else {
        is_root(sboms, i) || exists|p: int|
            #![trigger refers(sboms, p, i)]
            reached(sboms, (k - 1) as nat, p) && refers(sboms, p, i)
    }
}

/// `r` is the rank of SBOM `i`: one more than the length of the shortest
/// chain of references from a root to it, or 0 when there is none.
pub open spec fn has_rank(sboms: Seq<TpaSbom>, i: int, r: nat) -> bool {
    if r == 0 {
        forall|k: nat| !#[trigger] reached(sboms, k, i)
    } else {
        reached(sboms, r, i) && !reached(sboms, (r - 1) as nat, i)
    }
}

/// The SBOMs among the first `m` that SBOM `i` refers to, in order.
pub open spec fn children_below(sboms: Seq<TpaSbom>, i: int, m: int) -> Seq<int>
    decreases m,
{
    if m <= 0 {
        Seq::empty()
    } else if refers(sboms, i, m - 1) {
        children_below(sboms, i, m - 1).push(m - 1)
    } else {
        children_below(sboms, i, m - 1)
    }
}

/// The SBOMs that SBOM `i` refers to, in order.
pub open spec fn children(sboms: Seq<TpaSbom>, i: int) -> Seq<int> {
    children_below(sboms, i, sboms.len() as int)
}

/// The SBOMs among the first `m` that refer to SBOM `i`, in order.
pub open spec fn parents_below(sboms: Seq<TpaSbom>, i: int, m: int) -> Seq<int>
    decreases m,
{
    if m <= 0 {
        Seq::empty()
    } else if refers(sboms, m - 1, i) {
        parents_below(sboms, i, m - 1).push(m - 1)
    } else {
        parents_below(sboms, i, m - 1)
    }
}

/// The SBOMs that refer to SBOM `i`, in order.
pub open spec fn parents(sboms: Seq<TpaSbom>, i: int) -> Seq<int> {
    parents_below(sboms, i, sboms.len() as int)
}

/// The members of `children_below` are exactly the SBOMs below `m` that `i`
/// refers to, each once, in increasing order.
pub proof fn lemma_children_below(sboms: Seq<TpaSbom>, i: int, m: int)
    ensures
        forall|j: int| children_below(sboms, i, m).contains(j) <==> (j < m && refers(sboms, i, j)),
        forall|a: int, b: int|
            0 <= a < b < children_below(sboms, i, m).len() ==> children_below(sboms, i, m)[a]
                < children_below(sboms, i, m)[b],
        forall|a: int|
            0 <= a < children_below(sboms, i, m).len() ==> 0 <= #[trigger] children_below(sboms, i, m)[a]
                < m,
    decreases m,
{
    if m > 0 {
        lemma_children_below(sboms, i, m - 1);
        let prev = children_below(sboms, i, m - 1);
        if refers(sboms, i, m - 1) {
            let q = prev.push(m - 1);
            assert forall|j: int| q.contains(j) <==> (j < m && refers(sboms, i, j)) by {
                if q.contains(j) {
                    let x = choose|x: int| 0 <= x < q.len() && q[x] == j;
                    if x < prev.len() {
                        assert(prev.contains(j));
                    }
                }
                if j < m && refers(sboms, i, j) && j != m - 1 {
                    assert(prev.contains(j));
                    let x = choose|x: int| 0 <= x < prev.len() && prev[x] == j;
                    assert(q[x] == j);
                }
                if j == m - 1 {
                    assert(q[prev.len() as int] == j);
                }
            }
        } else {
            assert forall|j: int| prev.contains(j) <==> (j < m && refers(sboms, i, j)) by {
                if j == m - 1 && prev.contains(j) {
                    let x = choose|x: int| 0 <= x < prev.len() && prev[x] == j;
                }
            }
        }
    }
}

/// The members of `parents_below` are exactly the SBOMs below `m` that refer
/// to `i`, each once, in increasing order.
pub proof fn lemma_parents_below(sboms: Seq<TpaSbom>, i: int, m: int)
    ensures
        forall|j: int| parents_below(sboms, i, m).contains(j) <==> (j < m && refers(sboms, j, i)),
        forall|a: int, b: int|
            0 <= a < b < parents_below(sboms, i, m).len() ==> parents_below(sboms, i, m)[a]
                < parents_below(sboms, i, m)[b],
        forall|a: int|
            0 <= a < parents_below(sboms, i, m).len() ==> 0 <= #[trigger] parents_below(sboms, i, m)[a] < m,
    decreases m,
{
    if m > 0 {
        lemma_parents_below(sboms, i, m - 1);
        let prev = parents_below(sboms, i, m - 1);
        if refers(sboms, m - 1, i) {
            let q = prev.push(m - 1);
            assert forall|j: int| q.contains(j) <==> (j < m && refers(sboms, j, i)) by {
                if q.contains(j) {
                    let x = choose|x: int| 0 <= x < q.len() && q[x] == j;
                    if x < prev.len() {
                        assert(prev.contains(j));
                    }
                }
                if j < m && refers(sboms, j, i) && j != m - 1 {
                    assert(prev.contains(j));
                    let x = choose|x: int| 0 <= x < prev.len() && prev[x] == j;
                    assert(q[x] == j);
                }
                if j == m - 1 {
                    assert(q[prev.len() as int] == j);
                }
            }
        } else {
            assert forall|j: int| prev.contains(j) <==> (j < m && refers(sboms, j, i)) by {
                if j == m - 1 && prev.contains(j) {
                    let x = choose|x: int| 0 <= x < prev.len() && prev[x] == j;
                }
            }
        }
    }
}

/// Reaching within `k` steps implies reaching within `k + 1`.
pub proof fn lemma_reached_mono(sboms: Seq<TpaSbom>, k: nat, i: int)
    ensures
        reached(sboms, k, i) ==> reached(sboms, k + 1, i),
    decreases k,
{
    if k > 0 && reached(sboms, k, i) && !is_root(sboms, i) {
        let p = choose|p: int| reached(sboms, (k - 1) as nat, p) && refers(sboms, p, i);
        lemma_reached_mono(sboms, (k - 1) as nat, p);
    }
}

/// Reaching within `a` steps implies reaching within any `b >= a`.
pub proof fn lemma_reached_mono_le(sboms: Seq<TpaSbom>, a: nat, b: nat, i: int)
    requires
        a <= b,
        reached(sboms, a, i),
    ensures
        reached(sboms, b, i),
    decreases b - a,
{
    if a < b {
        lemma_reached_mono(sboms, a, i);
        lemma_reached_mono_le(sboms, a + 1, b, i);
    }
}

/// Once a level adds nothing, no later level does.
pub proof fn lemma_reached_stable(sboms: Seq<TpaSbom>, k: nat, m: nat, i: int)
    requires
        forall|j: int| reached(sboms, k + 1, j) ==> reached(sboms, k, j),
        k <= m,
    ensures
        reached(sboms, m, i) ==> reached(sboms, k, i),
    decreases m - k,
{
    if k < m && reached(sboms, m, i) {
        if !is_root(sboms, i) {
            let p = choose|p: int| reached(sboms, (m - 1) as nat, p) && refers(sboms, p, i);
            lemma_reached_stable(sboms, k, (m - 1) as nat, p);
            lemma_reached_mono_le(sboms, k, (m - 1) as nat, p);
            if m - 1 == k {
            } else {
                assert(reached(sboms, k + 1, i));
            }
        } else {
            assert(reached(sboms, k + 1, i));
        }
    }
}

/// The number of `true` entries.
pub open spec fn num_true(s: Seq<bool>) -> nat
    decreases s.len(),
{
    if s.len() == 0 {
        0
    } else {
        num_true(s.drop_last()) + if s.last() {
            1nat
        } else {
            0nat
        }
    }
}

pub proof fn lemma_num_true_bound(s: Seq<bool>)
    ensures
        num_true(s) <= s.len(),
    decreases s.len(),
{
    if s.len() > 0 {
        lemma_num_true_bound(s.drop_last());
    }
}

pub proof fn lemma_num_true_set(s: Seq<bool>, i: int)
    requires
        0 <= i < s.len(),
        !s[i],
    ensures
        num_true(s.update(i, true)) == num_true(s) + 1,
    decreases s.len(),
{
    let t = s.update(i, true);
    if i == s.len() - 1 {
        assert(t.drop_last() =~= s.drop_last());
    } else {
        lemma_num_true_set(s.drop_last(), i);
        assert(t.drop_last() =~= s.drop_last().update(i, true));
    }
}

/// No entry of an all-`false` sequence is `true`.
pub proof fn lemma_num_true_zero(s: Seq<bool>)
    requires
        forall|i: int| 0 <= i < s.len() ==> !s[i],
    ensures
        num_true(s) == 0,
    decreases s.len(),
{
    if s.len() > 0 {
        lemma_num_true_zero(s.drop_last());
    }
}

/// A pedigree variant of `comp` carries the digest of `target`.
fn variant_refers_exec(comp: &TpaSbomComponents, target: &String) -> (r: bool)
    ensures
        r == variant_refers(*comp, target@),
{
    if let Some(pd) = &comp.pedigree {
        if let Some(vs) = &pd.variants {
            let mut v: usize = 0;
            while v < vs.len()
                invariant
                    v <= vs@.len(),
                    comp.pedigree is Some,
                    comp.pedigree->0.variants == Some(*vs),
                    forall|w: int| 0 <= w < v ==> !#[trigger] variant_matches(vs@[w], target@),
                decreases vs.len() - v,
            {
                if let Some(vp) = &vs[v].purl {
                    if purls_match_by_sha256(vp.as_str(), target.as_str()) {
                        let ghost all = comp.pedigree->0.variants->0;
                        assert(all@ == vs@);
                        assert(variant_matches(all@[v as int], target@));
                        return true;
                    }
                }
                v += 1;
            }
        }
    }
    false
}

/// `comp` refers to `target` on behalf of an SBOM whose own package URL is `own`.
fn component_refers_exec(comp: &TpaSbomComponents, own: Option<&String>, target: &String) -> (r:
    bool)
    ensures
        r == component_refers(
            *comp,
            match own {
                Some(o) => Some(o@),
                None => None,
            },
            target@,
        ),
{
    let direct = match &comp.purl {
        Some(p) => {
            let is_self = match own {
                Some(o) => purls_match_by_sha256(p.as_str(), o.as_str()),
                None => false,
            };
            !is_self && purls_match_by_sha256(p.as_str(), target.as_str())
        },
        None => false,
    };
    direct || variant_refers_exec(comp, target)
}

/// The package URL of the component that `s` describes.
pub fn own_purl_exec(s: &TpaSbom) -> (r: Option<&String>)
    ensures
        match r {
            Some(p) => own_purl(*s) == Some(p@),
            None => own_purl(*s) is None,
        },
{
    match &s.metadata.component {
        Some(c) => match &c.purl {
            Some(p) => Some(p),
            None => None,
        },
        None => None,
    }
}

/// SBOM `p` refers to SBOM `c`.
fn refers_exec(sboms: &Vec<TpaSbom>, p: usize, c: usize) -> (r: bool)
    requires
        p < sboms@.len(),
        c < sboms@.len(),
    ensures
        r == refers(sboms@, p as int, c as int),
{
    if p == c {
        return false;
    }
    let target = match own_purl_exec(&sboms[c]) {
        Some(t) => t,
        None => return false,
    };
    let own = own_purl_exec(&sboms[p]);
    let comps = &sboms[p].components;
    let mut k: usize = 0;
    while k < comps.len()
        invariant
            k <= comps@.len(),
            p < sboms@.len(),
            c < sboms@.len(),
            p != c,
            comps@ == sboms@[p as int].components@,
            own_purl(sboms@[c as int]) == Some(target@),
            match own {
                Some(o) => own_purl(sboms@[p as int]) == Some(o@),
                None => own_purl(sboms@[p as int]) is None,
            },
            forall|x: int|
                0 <= x < k ==> !#[trigger] component_refers(
                    comps@[x],
                    own_purl(sboms@[p as int]),
                    target@,
                ),
        decreases comps.len() - k,
    {
        if component_refers_exec(&comps[k], own, target) {
            assert(component_refers(
                sboms@[p as int].components@[k as int],
                own_purl(sboms@[p as int]),
                own_purl(sboms@[c as int])->0,
            ));
            return true;
        }
        k += 1;
    }
    false
}

/// `row` tells, for each SBOM, whether SBOM `a` refers to it.
pub open spec fn row_ok(sboms: Seq<TpaSbom>, row: Seq<bool>, a: int) -> bool {
    row.len() == sboms.len() && forall|b: int| 0 <= b < sboms.len() ==> row[b] == refers(sboms, a, b)
}

/// The reference graph as index lists: for each SBOM the SBOMs it refers to
/// and the SBOMs that refer to it, both in increasing order.
pub fn reference_graph(sboms: &Vec<TpaSbom>) -> (r: (Vec<Vec<usize>>, Vec<Vec<usize>>))
    ensures
        r.0@.len() == sboms@.len(),
        r.1@.len() == sboms@.len(),
        forall|i: int|
            0 <= i < sboms@.len() ==> #[trigger] as_ints(r.0@[i]@)
                == children(sboms@, i),
        forall|i: int|
            0 <= i < sboms@.len() ==> #[trigger] as_ints(r.1@[i]@)
                == parents(sboms@, i),
{
    let n = sboms.len();
    let mut matrix: Vec<Vec<bool>> = Vec::new();
    let mut p: usize = 0;
    while p < n
        invariant
            n == sboms@.len(),
            p <= n,
            matrix@.len() == p,
            forall|a: int| 0 <= a < p ==> #[trigger] row_ok(sboms@, matrix@[a]@, a),
        decreases n - p,
    {
        let mut row: Vec<bool> = Vec::new();
        let mut c: usize = 0;
        while c < n
            invariant
                n == sboms@.len(),
                p < n,
                c <= n,
                row@.len() == c,
                forall|b: int| 0 <= b < c ==> row@[b] == refers(sboms@, p as int, b),
            decreases n - c,
        {
            row.push(refers_exec(sboms, p, c));
            c += 1;
        }
        matrix.push(row);
        p += 1;
    }
    let mut forward: Vec<Vec<usize>> = Vec::new();
    let mut backward: Vec<Vec<usize>> = Vec::new();
    let mut i: usize = 0;
    while i < n
        invariant
            n == sboms@.len(),
            i <= n,
            matrix@.len() == n,
            forall|a: int| 0 <= a < n ==> #[trigger] row_ok(sboms@, matrix@[a]@, a),
            forward@.len() == i,
            backward@.len() == i,
            forall|a: int|
                0 <= a < i ==> #[trigger] as_ints(forward@[a]@) == children(
                    sboms@,
                    a,
                ),
            forall|a: int|
                0 <= a < i ==> #[trigger] as_ints(backward@[a]@) == parents(
                    sboms@,
                    a,
                ),
        decreases n - i,
    {
        let mut kids: Vec<usize> = Vec::new();
        let mut pars: Vec<usize> = Vec::new();
        let mut j: usize = 0;
        while j < n
            invariant
                n == sboms@.len(),
                i < n,
                j <= n,
                matrix@.len() == n,
                forall|a: int| 0 <= a < n ==> #[trigger] row_ok(sboms@, matrix@[a]@, a),
                as_ints(kids@) == children_below(sboms@, i as int, j as int),
                as_ints(pars@) == parents_below(sboms@, i as int, j as int),
            decreases n - j,
        {
            let ghost old_kids = kids@;
            let ghost old_pars = pars@;
            assert(row_ok(sboms@, matrix@[i as int]@, i as int));
            assert(row_ok(sboms@, matrix@[j as int]@, j as int));
            if matrix[i][j] {
                kids.push(j);
            }
            if matrix[j][i] {
                pars.push(j);
            }
            assert(as_ints(kids@) =~= children_below(
                sboms@,
                i as int,
                j + 1,
            )) by {
                if matrix@[i as int]@[j as int] {
                    assert(kids@ == old_kids.push(j));
                    assert(as_ints(kids@) =~= as_ints(old_kids).push(j as int));
                }
            }
            assert(as_ints(pars@) =~= parents_below(
                sboms@,
                i as int,
                j + 1,
            )) by {
                if matrix@[j as int]@[i as int] {
                    assert(pars@ == old_pars.push(j));
                    assert(as_ints(pars@) =~= as_ints(old_pars).push(j as int));
                }
            }
            j += 1;
        }
        forward.push(kids);
        backward.push(pars);
        i += 1;
    }
    (forward, backward)
}

/// Reaching SBOM `i` at all means `i` is an SBOM.
pub proof fn lemma_reached_in_range(sboms: Seq<TpaSbom>, k: nat, i: int)
    ensures
        reached(sboms, k, i) ==> 0 <= i < sboms.len(),
{
    if k > 0 && reached(sboms, k, i) && !is_root(sboms, i) {
        let p = choose|p: int| reached(sboms, (k - 1) as nat, p) && refers(sboms, p, i);
    }
}

/// The index list of an SBOM's children holds exactly the SBOMs it refers to.
proof fn lemma_adjacency(sboms: Seq<TpaSbom>, kids: Seq<usize>, p: int)
    requires
        as_ints(kids) == children(sboms, p),
    ensures
        forall|x: int| 0 <= x < kids.len() ==> refers(sboms, p, #[trigger] kids[x] as int),
        forall|c: int| #[trigger] refers(sboms, p, c) ==> exists|x: int| 0 <= x < kids.len() && kids[x] == c,
{
    lemma_children_below(sboms, p, sboms.len() as int);
    assert forall|x: int| 0 <= x < kids.len() implies refers(sboms, p, #[trigger] kids[x] as int) by {
        assert(as_ints(kids)[x] == kids[x] as int);
        assert(children(sboms, p).contains(kids[x] as int));
    }
    assert forall|c: int| #[trigger] refers(sboms, p, c) implies exists|x: int|
        0 <= x < kids.len() && kids[x] == c by {
        assert(children(sboms, p).contains(c));
        let x = choose|x: int| 0 <= x < children(sboms, p).len() && children(sboms, p)[x] == c;
        assert(as_ints(kids)[x] == kids[x] as int);
    }
}

/// The rank of each SBOM (see `has_rank`), found level by level from the
/// roots: the SBOMs that no SBOM refers to.
pub fn rank_levels(sboms: &Vec<TpaSbom>, forward: &Vec<Vec<usize>>, backward: &Vec<Vec<usize>>) -> (ranks: Vec<usize>)
    requires
        forward@.len() == sboms@.len(),
        backward@.len() == sboms@.len(),
        forall|i: int|
            0 <= i < sboms@.len() ==> #[trigger] as_ints(forward@[i]@) == children(sboms@, i),
        forall|i: int|
            0 <= i < sboms@.len() ==> #[trigger] as_ints(backward@[i]@) == parents(sboms@, i),
    ensures
        ranks@.len() == sboms@.len(),
        forall|i: int| 0 <= i < sboms@.len() ==> has_rank(sboms@, i, #[trigger] ranks@[i] as nat),
{
    let n = sboms.len();
    let mut visited: Vec<bool> = Vec::new();
    let mut ranks: Vec<usize> = Vec::new();
    let mut frontier: Vec<usize> = Vec::new();
    let mut count: usize = 0;
    let mut i: usize = 0;
    while i < n
        invariant
            n == sboms@.len(),
            backward@.len() == n,
            forall|a: int| 0 <= a < n ==> #[trigger] as_ints(backward@[a]@) == parents(sboms@, a),
            i <= n,
            visited@.len() == i,
            ranks@.len() == i,
            count == num_true(visited@),
            count == frontier@.len(),
            forall|a: int| 0 <= a < i ==> visited@[a] == is_root(sboms@, a),
            forall|a: int| 0 <= a < i ==> ranks@[a] == if visited@[a] { 1usize } else { 0usize },
            forall|x: int| 0 <= x < frontier@.len() ==> #[trigger] frontier@[x] < i && is_root(sboms@, frontier@[x] as int),
            forall|a: int| 0 <= a < i && is_root(sboms@, a) ==> frontier@.contains(a as usize),
        decreases n - i,
    {
        proof {
            lemma_parents_below(sboms@, i as int, n as int);
            assert(as_ints(backward@[i as int]@).len() == backward@[i as int]@.len());
            if backward@[i as int]@.len() > 0 {
                let p0 = parents(sboms@, i as int)[0];
                assert(parents(sboms@, i as int).contains(p0));
                assert(refers(sboms@, p0, i as int));
            } else {
                assert forall|p: int| !#[trigger] refers(sboms@, p, i as int) by {
                    if refers(sboms@, p, i as int) {
                        assert(parents(sboms@, i as int).contains(p));
                    }
                }
            }
            lemma_num_true_bound(visited@);
        }
        let root = backward[i].len() == 0;
        let ghost old_visited = visited@;
        let ghost old_frontier = frontier@;
        visited.push(root);
        assert(visited@.drop_last() == old_visited);
        if root {
            ranks.push(1);
            frontier.push(i);
            count += 1;
            assert(frontier@[frontier@.len() - 1] == i);
        } else {
            ranks.push(0);
        }
        proof {
            assert forall|a: int| 0 <= a < i + 1 && is_root(sboms@, a) implies frontier@.contains(a as usize) by {
                if a < i {
                    assert(old_frontier.contains(a as usize));
                    let y = choose|y: int| 0 <= y < old_frontier.len() && old_frontier[y] == a as usize;
                    assert(frontier@[y] == a as usize);
                }
            }
        }
        i += 1;
    }
    proof {
        reveal_with_fuel(reached, 2);
        assert forall|a: int| 0 <= a < n implies visited@[a] == reached(sboms@, 1, a) by {}
    }
    let mut level: usize = 1;
    let ghost mut lvl: nat = 1;
    while frontier.len() > 0
        invariant
            n == sboms@.len(),
            forward@.len() == n,
            forall|a: int| 0 <= a < n ==> #[trigger] as_ints(forward@[a]@) == children(sboms@, a),
            visited@.len() == n,
            ranks@.len() == n,
            1 <= lvl,
            frontier@.len() > 0 ==> level == lvl && level <= count,
            count == num_true(visited@),
            forall|a: int| 0 <= a < n ==> visited@[a] == reached(sboms@, lvl, a),
            forall|a: int|
                0 <= a < n && visited@[a] ==> ranks@[a] >= 1 && has_rank(sboms@, a, ranks@[a] as nat),
            forall|a: int| 0 <= a < n && !visited@[a] ==> ranks@[a] == 0,
            forall|x: int|
                0 <= x < frontier@.len() ==> #[trigger] frontier@[x] < n && reached(sboms@, lvl, frontier@[x] as int)
                    && !reached(sboms@, (lvl - 1) as nat, frontier@[x] as int),
            forall|a: int|
                reached(sboms@, lvl, a) && !reached(sboms@, (lvl - 1) as nat, a)
                    ==> frontier@.contains(a as usize),
        decreases n - count + if frontier@.len() > 0 { 1int } else { 0int },
    {
        proof {
            lemma_num_true_bound(visited@);
        }
        let ghost start_count = count;
        let mut next: Vec<usize> = Vec::new();
        let mut idx: usize = 0;
        while idx < frontier.len()
            invariant
                n == sboms@.len(),
                forward@.len() == n,
                forall|a: int| 0 <= a < n ==> #[trigger] as_ints(forward@[a]@) == children(sboms@, a),
                visited@.len() == n,
                ranks@.len() == n,
                1 <= level <= start_count,
                level == lvl,
                idx <= frontier@.len(),
                count == num_true(visited@),
                count == start_count + next@.len(),
                forall|a: int|
                    0 <= a < n ==> visited@[a] == (reached(sboms@, lvl, a) || next@.contains(a as usize)),
                forall|x: int|
                    0 <= x < next@.len() ==> #[trigger] next@[x] < n && !reached(sboms@, lvl, next@[x] as int)
                        && reached(sboms@, lvl + 1, next@[x] as int),
                forall|a: int|
                    0 <= a < n && visited@[a] ==> ranks@[a] >= 1 && has_rank(sboms@, a, ranks@[a] as nat),
                forall|a: int| 0 <= a < n && !visited@[a] ==> ranks@[a] == 0,
                forall|x: int|
                    0 <= x < frontier@.len() ==> #[trigger] frontier@[x] < n && reached(sboms@, lvl, frontier@[x] as int)
                        && !reached(sboms@, (lvl - 1) as nat, frontier@[x] as int),
                forall|x: int, c: int|
                    0 <= x < idx && #[trigger] refers(sboms@, #[trigger] frontier@[x] as int, c) ==> 0 <= c < n && visited@[c],
            decreases frontier@.len() - idx,
        {
            let p = frontier[idx];
            let kids = &forward[p];
            proof {
                lemma_adjacency(sboms@, kids@, p as int);
            }
            let mut j: usize = 0;
            while j < kids.len()
                invariant
                    n == sboms@.len(),
                    visited@.len() == n,
                    ranks@.len() == n,
                    1 <= level <= start_count,
                    level == lvl,
                    idx < frontier@.len(),
                    frontier@.len() > 0,
                    forall|x: int, c: int|
                        0 <= x < idx && #[trigger] refers(sboms@, #[trigger] frontier@[x] as int, c) ==> 0 <= c < n && visited@[c],
                    p == frontier@[idx as int],
                    p < n,
                    reached(sboms@, lvl, p as int),
                    j <= kids@.len(),
                    forall|x: int| 0 <= x < kids@.len() ==> refers(sboms@, p as int, #[trigger] kids@[x] as int),
                    count == num_true(visited@),
                    count == start_count + next@.len(),
                    forall|a: int|
                        0 <= a < n ==> visited@[a] == (reached(sboms@, lvl, a) || next@.contains(a as usize)),
                    forall|x: int|
                        0 <= x < next@.len() ==> #[trigger] next@[x] < n && !reached(sboms@, lvl, next@[x] as int)
                            && reached(sboms@, lvl + 1, next@[x] as int),
                    forall|a: int|
                        0 <= a < n && visited@[a] ==> ranks@[a] >= 1 && has_rank(sboms@, a, ranks@[a] as nat),
                    forall|a: int| 0 <= a < n && !visited@[a] ==> ranks@[a] == 0,
                    forall|x: int| 0 <= x < j ==> visited@[#[trigger] kids@[x] as int],
                decreases kids@.len() - j,
            {
                let c = kids[j];
                proof {
                    assert(refers(sboms@, p as int, c as int));
                }
                if !visited[c] {
                    proof {
                        lemma_num_true_set(visited@, c as int);
                        lemma_num_true_bound(visited@.update(c as int, true));
                        assert(reached(sboms@, lvl + 1, c as int));
                    }
                    let ghost old_next = next@;
                    visited.set(c, true);
                    ranks.set(c, level + 1);
                    next.push(c);
                    count += 1;
                    proof {
                        assert forall|a: int| 0 <= a < n implies visited@[a] == (reached(sboms@, lvl, a) || next@.contains(a as usize)) by {
                            if a == c as int {
                                assert(next@[next@.len() - 1] == c);
                            } else if old_next.contains(a as usize) {
                                let y = choose|y: int| 0 <= y < old_next.len() && old_next[y] == a as usize;
                                assert(next@[y] == a as usize);
                            } else if next@.contains(a as usize) {
                                let y = choose|y: int| 0 <= y < next@.len() && next@[y] == a as usize;
                                if y < old_next.len() {
                                    assert(old_next[y] == a as usize);
                                }
                            }
                        }
                    }
                }
                j += 1;
            }
            idx += 1;
            proof {
                assert forall|x: int, c: int|
                    0 <= x < idx && #[trigger] refers(sboms@, #[trigger] frontier@[x] as int, c) implies 0 <= c < n && visited@[c] by {
                    if x == idx - 1 {
                        let y = choose|y: int| 0 <= y < kids@.len() && kids@[y] == c;
                        assert(visited@[kids@[y] as int]);
                    }
                }
            }
        }
        proof {
            assert forall|a: int| 0 <= a < n implies visited@[a] == reached(sboms@, lvl + 1, a) by {
                lemma_reached_mono(sboms@, lvl, a);
                if reached(sboms@, lvl + 1, a) && !reached(sboms@, lvl, a) {
                    assert(!is_root(sboms@, a)) by {
                        if is_root(sboms@, a) {
                            reveal_with_fuel(reached, 2);
                            lemma_reached_mono_le(sboms@, 1, lvl, a);
                        }
                    }
                    let q = choose|q: int| reached(sboms@, lvl, q) && refers(sboms@, q, a);
                    if reached(sboms@, (lvl - 1) as nat, q) {
                        assert(reached(sboms@, lvl, a));
                    } else {
                        lemma_reached_in_range(sboms@, lvl, q);
                        assert(frontier@.contains(q as usize));
                        let x = choose|x: int| 0 <= x < frontier@.len() && frontier@[x] == q as usize;
                        assert(refers(sboms@, frontier@[x] as int, a));
                    }
                }
                if next@.contains(a as usize) {
                    let y = choose|y: int| 0 <= y < next@.len() && next@[y] == a as usize;
                }
            }
            assert forall|a: int|
                reached(sboms@, lvl + 1, a) && !reached(sboms@, lvl, a)
                    implies next@.contains(a as usize) by {
                lemma_reached_in_range(sboms@, lvl + 1, a);
                assert(visited@[a] == reached(sboms@, lvl + 1, a));
                assert(visited@[a] == (reached(sboms@, lvl, a) || next@.contains(a as usize)));
            }
            lemma_num_true_bound(visited@);
        }
        if next.len() > 0 {
            level = level + 1;
        }
        frontier = next;
        proof {
            lvl = lvl + 1;
        }
    }
    proof {
        assert forall|a: int| 0 <= a < n && !visited@[a] implies forall|k: nat| !#[trigger] reached(sboms@, k, a) by {
            assert forall|k: nat| !#[trigger] reached(sboms@, k, a) by {
                assert forall|b: int| reached(sboms@, lvl, b) implies reached(sboms@, (lvl - 1) as nat, b) by {
                    if !reached(sboms@, (lvl - 1) as nat, b) {
                        assert(frontier@.contains(b as usize));
                    }
                }
                if k >= (lvl - 1) as nat {
                    lemma_reached_stable(sboms@, (lvl - 1) as nat, k, a);
                    if reached(sboms@, k, a) {
                        lemma_reached_mono(sboms@, (lvl - 1) as nat, a);
                    }
                } else if reached(sboms@, k, a) {
                    lemma_reached_mono_le(sboms@, k, lvl, a);
                }
            }
        }
    }
    ranks
}

} // verus!
