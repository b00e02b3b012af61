//! The JSON-shaped hierarchy that the library reports.

use vstd::prelude::*;
use crate::correlation::{SbomCorrelation, SbomWithRank, serial};
use crate::graph::{own_purl, own_purl_exec};
use crate::purl::{extract_name_version_from_purl, name_version_of, purls_match, purls_match_by_sha256};
use crate::sbom::{
    TpaSbom, TpaSbomComponents, TpaSbomDependency, TpaSbomMetadataComponentEvidenceIdentity,
};
use crate::text::{clone_opt, clone_strings, opt_str, str_eq, strs};

verus! {

/// What a hierarchy node holds, as characters.
pub struct NodeView {
    pub node_id: Seq<char>,
    pub purl: Seq<Seq<char>>,
    pub cpe: Seq<Seq<char>>,
    pub name: Seq<char>,
    pub version: Seq<char>,
    pub published: Option<Seq<char>>,
    pub relationship: Option<Seq<char>>,
    pub descendants: Seq<NodeView>,
    pub warnings: Seq<Seq<char>>,
}

/// A node of a reported hierarchy.
#[derive(Debug)]
pub struct HierarchyNode {
    pub node_id: String,
    pub purl: Vec<String>,
    pub cpe: Vec<String>,
    pub name: String,
    pub version: String,
    pub published: Option<String>,
    pub relationship: Option<String>,
    pub descendants: Vec<HierarchyNode>,
    pub warnings: Vec<String>,
}

impl HierarchyNode {
    /// The node as characters, its descendants included.
    pub open spec fn node_view(self) -> NodeView
        decreases self,
    {
        NodeView {
            node_id: self.node_id@,
            purl: strs(self.purl@),
            cpe: strs(self.cpe@),
            name: self.name@,
            version: self.version@,
            published: opt_str(self.published),
            relationship: opt_str(self.relationship),
            descendants: Seq::new(
                self.descendants@.len(),
                |i: int|
                    if 0 <= i < self.descendants@.len() {
                        proof {
                            vstd::std_specs::vec::axiom_vec_index_decreases(self.descendants, i);
                            assert(decreases_to!(self => self.descendants));
                        }
                        self.descendants[i].node_view()
                    } else {
                        arbitrary()
                    },
            ),
            warnings: strs(self.warnings@),
        }
    }
}

/// The hierarchies of a report.
#[derive(Debug)]
pub struct HierarchyJsonOutput {
    pub items: Vec<HierarchyNode>,
}

/// The nodes as characters.
pub open spec fn node_views(v: Seq<HierarchyNode>) -> Seq<NodeView> {
    v.map_values(|n: HierarchyNode| n.node_view())
}

/// `Unknown`, the name or version of what has none.
pub open spec fn unknown() -> Seq<char> {
    seq!['U', 'n', 'k', 'n', 'o', 'w', 'n']
}

/// `generates`, the relationship of a component to the SBOM that lists it.
pub open spec fn generates() -> Seq<char> {
    seq!['g', 'e', 'n', 'e', 'r', 'a', 't', 'e', 's']
}

/// `dependency`, the relationship of a dependency to what depends on it.
pub open spec fn dependency() -> Seq<char> {
    seq!['d', 'e', 'p', 'e', 'n', 'd', 'e', 'n', 'c', 'y']
}

/// `package`, the relationship of a child SBOM to the component that names it.
pub open spec fn package() -> Seq<char> {
    seq!['p', 'a', 'c', 'k', 'a', 'g', 'e']
}

/// The concluded values among the identities, in order.
pub open spec fn concluded(ids: Seq<TpaSbomMetadataComponentEvidenceIdentity>) -> Seq<Seq<char>>
    decreases ids.len(),
{
    if ids.len() == 0 {
        Seq::empty()
    } else {
        concluded(ids.drop_last()) + match ids.last().concluded_value {
            Some(v) => seq![v@],
            None => Seq::empty(),
        }
    }
}

/// The CPEs of the component that an SBOM describes.
pub open spec fn sbom_cpes(s: TpaSbom) -> Seq<Seq<char>> {
    match s.metadata.component {
        Some(c) => match c.evidence {
            Some(e) => match e.identity {
                Some(ids) => concluded(ids@),
                None => Seq::empty(),
            },
            None => Seq::empty(),
        },
        None => Seq::empty(),
    }
}

/// The name of the component that an SBOM describes, or `Unknown`.
pub open spec fn sbom_name(s: TpaSbom) -> Seq<char> {
    match s.metadata.component {
        Some(c) => match c.name {
            Some(n) => n@,
            None => unknown(),
        },
        None => unknown(),
    }
}

/// The first component from `k` on whose package URL has the digest of `mp`.
pub open spec fn first_matching_component(comps: Seq<TpaSbomComponents>, mp: Seq<char>, k: int) -> Option<int>
    decreases comps.len() - k,
{
    if k < 0 || k >= comps.len() {
        None
    } else if comps[k].purl matches Some(p) && purls_match(p@, mp) {
        Some(k)
    } else {
        first_matching_component(comps, mp, k + 1)
    }
}

/// The version of the component that an SBOM describes; failing that, the
/// version of the first component that carries its digest; else `Unknown`.
pub open spec fn sbom_version(s: TpaSbom) -> Seq<char> {
    match s.metadata.component {
        Some(c) => match c.version {
            Some(v) => v@,
            None => match c.purl {
                Some(mp) => match first_matching_component(s.components@, mp@, 0) {
                    Some(k) => match s.components@[k].version {
                        Some(v) => v@,
                        None => unknown(),
                    },
                    None => unknown(),
                },
                None => unknown(),
            },
        },
        None => unknown(),
    }
}

/// The node that stands for an SBOM.
pub open spec fn sbom_node(s: TpaSbom, node_id: Seq<char>) -> NodeView {
    NodeView {
        node_id,
        purl: match own_purl(s) {
            Some(p) => seq![p],
            None => Seq::empty(),
        },
        cpe: sbom_cpes(s),
        name: sbom_name(s),
        version: sbom_version(s),
        published: opt_str(s.metadata.timestamp),
        relationship: None,
        descendants: Seq::empty(),
        warnings: Seq::empty(),
    }
}

/// The node that stands for a component of an SBOM.
pub open spec fn component_node(c: TpaSbomComponents, s: TpaSbom, node_id: Seq<char>) -> NodeView {
    NodeView {
        node_id,
        purl: match c.purl {
            Some(p) => seq![p@],
            None => Seq::empty(),
        },
        cpe: Seq::empty(),
        name: match c.name {
            Some(n) => n@,
            None => unknown(),
        },
        version: match c.version {
            Some(v) => v@,
            None => Seq::empty(),
        },
        published: opt_str(s.metadata.timestamp),
        relationship: Some(generates()),
        descendants: Seq::empty(),
        warnings: Seq::empty(),
    }
}

/// The node that stands for a dependency named by its package URL.
pub open spec fn dependency_node(purl: Seq<char>, published: Option<Seq<char>>) -> NodeView {
    NodeView {
        node_id: purl,
        purl: seq![purl],
        cpe: Seq::empty(),
        name: name_version_of(purl).0,
        version: name_version_of(purl).1,
        published,
        relationship: Some(dependency()),
        descendants: Seq::empty(),
        warnings: Seq::empty(),
    }
}

fn unknown_string() -> (r: String)
    ensures
        r@ == unknown(),
{
    let r = "Unknown".to_owned();
    proof {
        reveal_strlit("Unknown");
        assert(r@ =~= unknown());
    }
    r
}

fn first_matching_component_exec(comps: &Vec<TpaSbomComponents>, mp: &String) -> (r: Option<usize>)
    ensures
        match r {
            Some(k) => first_matching_component(comps@, mp@, 0) == Some(k as int) && k < comps@.len(),
            None => first_matching_component(comps@, mp@, 0) is None,
        },
{
    let mut k: usize = 0;
    while k < comps.len()
        invariant
            k <= comps@.len(),
            first_matching_component(comps@, mp@, 0) == first_matching_component(comps@, mp@, k as int),
        decreases comps.len() - k,
    {
        if let Some(p) = &comps[k].purl {
            if purls_match_by_sha256(p.as_str(), mp.as_str()) {
                return Some(k);
            }
        }
        k += 1;
    }
    None
}

fn sbom_version_exec(sbom: &TpaSbom) -> (r: String)
    ensures
        r@ == sbom_version(*sbom),
{
    match &sbom.metadata.component {
        Some(c) => match &c.version {
            Some(v) => v.clone(),
            None => match &c.purl {
                Some(mp) => match first_matching_component_exec(&sbom.components, mp) {
                    Some(k) => match &sbom.components[k].version {
                        Some(v) => v.clone(),
                        None => unknown_string(),
                    },
                    None => unknown_string(),
                },
                None => unknown_string(),
            },
        },
        None => unknown_string(),
    }
}

fn sbom_cpes_exec(sbom: &TpaSbom) -> (r: Vec<String>)
    ensures
        strs(r@) == sbom_cpes(*sbom),
{
    let mut cpe: Vec<String> = Vec::new();
    if let Some(c) = &sbom.metadata.component {
        if let Some(e) = &c.evidence {
            if let Some(ids) = &e.identity {
                let mut k: usize = 0;
                while k < ids.len()
                    invariant
                        k <= ids@.len(),
                        strs(cpe@) == concluded(ids@.take(k as int)),
                    decreases ids.len() - k,
                {
                    assert(ids@.take(k + 1).drop_last() =~= ids@.take(k as int));
                    if let Some(v) = &ids[k].concluded_value {
                        cpe.push(v.clone());
                        assert(strs(cpe@) =~= concluded(ids@.take(k as int)) + seq![v@]);
                    } else {
                        assert(concluded(ids@.take(k + 1)) =~= concluded(ids@.take(k as int)));
                    }
                    k += 1;
                }
                assert(ids@.take(ids@.len() as int) =~= ids@);
            }
        }
    }
    cpe
}

impl HierarchyNode {
    /// The node that stands for an SBOM: the CPEs, package URL, name and
    /// version of the component it describes (the version falling back to
    /// that of its first component with the same digest), and its timestamp.
    pub fn from_sbom(sbom: &TpaSbom, node_id: String) -> (r: Self)
        ensures
            r.node_view() == sbom_node(*sbom, node_id@),
    {
        let cpe = sbom_cpes_exec(sbom);
        let mut purl: Vec<String> = Vec::new();
        if let Some(p) = own_purl_exec(sbom) {
            purl.push(p.clone());
        }
        let name = match &sbom.metadata.component {
            Some(c) => match &c.name {
                Some(n) => n.clone(),
                None => unknown_string(),
            },
            None => unknown_string(),
        };
        let version = sbom_version_exec(sbom);
        let r = HierarchyNode {
            node_id,
            purl,
            cpe,
            name,
            version,
            published: clone_opt(&sbom.metadata.timestamp),
            relationship: None,
            descendants: Vec::new(),
            warnings: Vec::new(),
        };
        assert(strs(r.purl@) =~= sbom_node(*sbom, r.node_id@).purl);
        assert(r.node_view().descendants =~= Seq::<NodeView>::empty());
        assert(strs(r.warnings@) =~= Seq::<Seq<char>>::empty());
        r
    }
}

fn literal_string(lit: &str) -> (r: String)
    ensures
        r@ == lit@,
{
    lit.to_owned()
}

fn generates_string() -> (r: String)
    ensures
        r@ == generates(),
{
    let r = literal_string("generates");
    proof {
        reveal_strlit("generates");
        assert(r@ =~= generates());
    }
    r
}

fn dependency_string() -> (r: String)
    ensures
        r@ == dependency(),
{
    let r = literal_string("dependency");
    proof {
        reveal_strlit("dependency");
        assert(r@ =~= dependency());
    }
    r
}

fn package_string() -> (r: String)
    ensures
        r@ == package(),
{
    let r = literal_string("package");
    proof {
        reveal_strlit("package");
        assert(r@ =~= package());
    }
    r
}

impl HierarchyNode {
    /// The node that stands for a component listed by an SBOM: the
    /// component's package URL, name (or `Unknown`) and version (or empty),
    /// the SBOM's timestamp, and the relationship `generates`.
    pub fn from_component(component: &TpaSbomComponents, sbom: &TpaSbom, node_id: String) -> (r: Self)
        ensures
            r.node_view() == component_node(*component, *sbom, node_id@),
    {
        let mut purl: Vec<String> = Vec::new();
        if let Some(p) = &component.purl {
            purl.push(p.clone());
        }
        let name = match &component.name {
            Some(n) => n.clone(),
            None => unknown_string(),
        };
        let version = match &component.version {
            Some(v) => v.clone(),
            None => String::new(),
        };
        let r = HierarchyNode {
            node_id,
            purl,
            cpe: Vec::new(),
            name,
            version,
            published: clone_opt(&sbom.metadata.timestamp),
            relationship: Some(generates_string()),
            descendants: Vec::new(),
            warnings: Vec::new(),
        };
        assert(strs(r.purl@) =~= component_node(*component, *sbom, r.node_id@).purl);
        assert(strs(r.cpe@) =~= Seq::<Seq<char>>::empty());
        assert(r.node_view().descendants =~= Seq::<NodeView>::empty());
        assert(strs(r.warnings@) =~= Seq::<Seq<char>>::empty());
        r
    }

    /// The node that stands for a dependency: its package URL is its id,
    /// name and version come from that URL, relationship `dependency`.
    pub fn from_dependency_purl(purl: String, published: Option<String>) -> (r: Self)
        ensures
            r.node_view() == dependency_node(purl@, opt_str(published)),
    {
        let (name, version) = extract_name_version_from_purl(purl.as_str());
        let mut purls: Vec<String> = Vec::new();
        purls.push(purl.clone());
        let r = HierarchyNode {
            node_id: purl,
            purl: purls,
            cpe: Vec::new(),
            name,
            version,
            published,
            relationship: Some(dependency_string()),
            descendants: Vec::new(),
            warnings: Vec::new(),
        };
        assert(strs(r.purl@) =~= seq![r.node_id@]);
        assert(strs(r.cpe@) =~= Seq::<Seq<char>>::empty());
        assert(r.node_view().descendants =~= Seq::<NodeView>::empty());
        assert(strs(r.warnings@) =~= Seq::<Seq<char>>::empty());
        r
    }
}

/// The dependency map of an SBOM: each depending package URL with what it
/// depends on, a later entry replacing an earlier one for the same URL.
pub type DependencyMap = Vec<(String, Vec<String>)>;

/// The dependency map as characters.
pub open spec fn map_view(m: Seq<(String, Vec<String>)>) -> Seq<(Seq<char>, Seq<Seq<char>>)> {
    m.map_values(|e: (String, Vec<String>)| (e.0@, strs(e.1@)))
}

/// The first entry from `i` on for the package URL `k`.
pub open spec fn key_index(m: Seq<(Seq<char>, Seq<Seq<char>>)>, k: Seq<char>, i: int) -> Option<int>
    decreases m.len() - i,
{
    if i < 0 || i >= m.len() {
        None
    } else if m[i].0 == k {
        Some(i)
    } else {
        key_index(m, k, i + 1)
    }
}

/// The first entry from `i` on whose package URL has the digest of `p`.
pub open spec fn digest_key_index(m: Seq<(Seq<char>, Seq<Seq<char>>)>, p: Seq<char>, i: int) -> Option<int>
    decreases m.len() - i,
{
    if i < 0 || i >= m.len() {
        None
    } else if purls_match(p, m[i].0) {
        Some(i)
    } else {
        digest_key_index(m, p, i + 1)
    }
}

/// The dependency map of a list of dependency relations.
pub open spec fn dependency_map_of(deps: Seq<TpaSbomDependency>) -> Seq<(Seq<char>, Seq<Seq<char>>)>
    decreases deps.len(),
{
    if deps.len() == 0 {
        Seq::empty()
    } else {
        let m = dependency_map_of(deps.drop_last());
        let d = deps.last();
        match key_index(m, d.ref_purl@, 0) {
            Some(i) => m.update(i, (d.ref_purl@, strs(d.depends_on@))),
            None => m.push((d.ref_purl@, strs(d.depends_on@))),
        }
    }
}

/// What the package URL `p` depends on: the entry for `p` itself, else the
/// first entry with the same digest.
pub open spec fn deps_for(m: Seq<(Seq<char>, Seq<Seq<char>>)>, p: Seq<char>) -> Option<Seq<Seq<char>>> {
    match key_index(m, p, 0) {
        Some(i) => Some(m[i].1),
        None => match digest_key_index(m, p, 0) {
            Some(i) => Some(m[i].1),
            None => None,
        },
    }
}

proof fn lemma_key_index_first(m: Seq<(Seq<char>, Seq<Seq<char>>)>, k: Seq<char>, i: int)
    requires
        0 <= i,
    ensures
        match key_index(m, k, i) {
            Some(j) => i <= j < m.len() && m[j].0 == k && forall|l: int| i <= l < j ==> m[l].0 != k,
            None => forall|l: int| i <= l < m.len() ==> m[l].0 != k,
        },
    decreases m.len() - i,
{
    if i < m.len() && m[i].0 != k {
        lemma_key_index_first(m, k, i + 1);
    }
}

proof fn lemma_digest_key_index_first(m: Seq<(Seq<char>, Seq<Seq<char>>)>, p: Seq<char>, i: int)
    requires
        0 <= i,
    ensures
        match digest_key_index(m, p, i) {
            Some(j) => i <= j < m.len() && purls_match(p, m[j].0) && forall|l: int|
                i <= l < j ==> !purls_match(p, #[trigger] m[l].0),
            None => forall|l: int| i <= l < m.len() ==> !purls_match(p, #[trigger] m[l].0),
        },
    decreases m.len() - i,
{
    if i < m.len() && !purls_match(p, m[i].0) {
        lemma_digest_key_index_first(m, p, i + 1);
    }
}

/// Law: what a package URL depends on is the list of the first dependency
/// entry for that very URL; when there is none, that of the first entry
/// whose URL carries the same SHA-256 digest; when there is none either,
/// nothing.
pub proof fn law_deps_exact_then_by_digest(m: Seq<(Seq<char>, Seq<Seq<char>>)>, p: Seq<char>)
    ensures
        (exists|i: int| 0 <= i < m.len() && #[trigger] m[i].0 == p) ==> exists|j: int|
            0 <= j < m.len() && #[trigger] m[j].0 == p && (forall|l: int| 0 <= l < j ==> m[l].0 != p)
                && deps_for(m, p) == Some(m[j].1),
        (forall|i: int| 0 <= i < m.len() ==> #[trigger] m[i].0 != p) && (exists|i: int|
            0 <= i < m.len() && purls_match(p, #[trigger] m[i].0)) ==> exists|j: int|
            0 <= j < m.len() && purls_match(p, #[trigger] m[j].0) && (forall|l: int|
                0 <= l < j ==> !purls_match(p, #[trigger] m[l].0)) && deps_for(m, p) == Some(m[j].1),
        (forall|i: int| 0 <= i < m.len() ==> #[trigger] m[i].0 != p && !purls_match(p, m[i].0))
            ==> deps_for(m, p) is None,
{
    lemma_key_index_first(m, p, 0);
    lemma_digest_key_index_first(m, p, 0);
    if let Some(j) = key_index(m, p, 0) {
        assert(m[j].0 == p);
    } else if let Some(j) = digest_key_index(m, p, 0) {
        assert(purls_match(p, m[j].0));
    }
}

proof fn lemma_dmap_distinct(deps: Seq<TpaSbomDependency>)
    ensures
        forall|i: int, j: int|
            0 <= i < j < dependency_map_of(deps).len() ==> (#[trigger] dependency_map_of(deps)[i]).0
                != (#[trigger] dependency_map_of(deps)[j]).0,
    decreases deps.len(),
{
    if deps.len() > 0 {
        let prev = deps.drop_last();
        lemma_dmap_distinct(prev);
        let m = dependency_map_of(prev);
        let d = deps.last();
        let r = dependency_map_of(deps);
        let e = (d.ref_purl@, strs(d.depends_on@));
        lemma_key_index_first(m, d.ref_purl@, 0);
        match key_index(m, d.ref_purl@, 0) {
            Some(x) => {
                assert(r == m.update(x, e));
                assert forall|i: int, j: int| 0 <= i < j < r.len() implies (#[trigger] r[i]).0 != (#[trigger] r[j]).0 by {
                    assert(m[i].0 != m[j].0);
                }
            },
            None => {
                assert(r == m.push(e));
                assert forall|i: int, j: int| 0 <= i < j < r.len() implies (#[trigger] r[i]).0 != (#[trigger] r[j]).0 by {
                    if j < m.len() {
                        assert(m[i].0 != m[j].0);
                    } else {
                        assert(r[i] == m[i]);
                    }
                }
            },
        }
    }
}

/// The entry of a dependency map for `k` comes from the last relation
/// among `deps` that names `k`.
pub open spec fn from_last_relation(deps: Seq<TpaSbomDependency>, entry: (Seq<char>, Seq<Seq<char>>)) -> bool {
    exists|j: int|
        0 <= j < deps.len() && (#[trigger] deps[j]).ref_purl@ == entry.0 && entry.1 == strs(deps[j].depends_on@)
            && forall|l: int| j < l < deps.len() ==> (#[trigger] deps[l]).ref_purl@ != entry.0
}

proof fn lemma_from_last_relation_push(deps: Seq<TpaSbomDependency>, entry: (Seq<char>, Seq<Seq<char>>))
    requires
        deps.len() > 0,
        from_last_relation(deps.drop_last(), entry),
        deps.last().ref_purl@ != entry.0,
    ensures
        from_last_relation(deps, entry),
{
    let prev = deps.drop_last();
    let j = choose|j: int|
        0 <= j < prev.len() && (#[trigger] prev[j]).ref_purl@ == entry.0 && entry.1 == strs(prev[j].depends_on@)
            && forall|l: int| j < l < prev.len() ==> (#[trigger] prev[l]).ref_purl@ != entry.0;
    assert(deps[j] == prev[j]);
    assert forall|l: int| j < l < deps.len() implies (#[trigger] deps[l]).ref_purl@ != entry.0 by {
        if l < prev.len() {
            assert(deps[l] == prev[l]);
        }
    }
}

proof fn lemma_dmap_sources(deps: Seq<TpaSbomDependency>)
    ensures
        forall|i: int|
            0 <= i < dependency_map_of(deps).len() ==> from_last_relation(deps, #[trigger] dependency_map_of(deps)[i]),
    decreases deps.len(),
{
    if deps.len() > 0 {
        let prev = deps.drop_last();
        lemma_dmap_sources(prev);
        lemma_dmap_distinct(prev);
        let m = dependency_map_of(prev);
        let d = deps.last();
        let n = deps.len() - 1;
        let r = dependency_map_of(deps);
        let e = (d.ref_purl@, strs(d.depends_on@));
        assert(deps[n] == d);
        assert(from_last_relation(deps, e));
        lemma_key_index_first(m, d.ref_purl@, 0);
        match key_index(m, d.ref_purl@, 0) {
            Some(x) => {
                assert(r == m.update(x, e));
                assert forall|i: int| 0 <= i < r.len() implies from_last_relation(deps, #[trigger] r[i]) by {
                    if i != x {
                        assert(r[i] == m[i]);
                        if i < x {
                            assert(m[i].0 != m[x].0);
                        } else {
                            assert(m[x].0 != m[i].0);
                        }
                        lemma_from_last_relation_push(deps, m[i]);
                    }
                }
            },
            None => {
                assert(r == m.push(e));
                assert forall|i: int| 0 <= i < r.len() implies from_last_relation(deps, #[trigger] r[i]) by {
                    if i < m.len() {
                        assert(r[i] == m[i]);
                        lemma_from_last_relation_push(deps, m[i]);
                    }
                }
            },
        }
    }
}

/// Some entry of the dependency map is for the package URL `k`.
pub open spec fn has_key(m: Seq<(Seq<char>, Seq<Seq<char>>)>, k: Seq<char>) -> bool {
    exists|i: int| 0 <= i < m.len() && (#[trigger] m[i]).0 == k
}

proof fn lemma_dmap_covers(deps: Seq<TpaSbomDependency>)
    ensures
        forall|j: int| 0 <= j < deps.len() ==> has_key(dependency_map_of(deps), (#[trigger] deps[j]).ref_purl@),
    decreases deps.len(),
{
    if deps.len() > 0 {
        let prev = deps.drop_last();
        lemma_dmap_covers(prev);
        let m = dependency_map_of(prev);
        let d = deps.last();
        let n = deps.len() - 1;
        let r = dependency_map_of(deps);
        let e = (d.ref_purl@, strs(d.depends_on@));
        lemma_key_index_first(m, d.ref_purl@, 0);
        let pos = match key_index(m, d.ref_purl@, 0) {
            Some(x) => x,
            None => m.len() as int,
        };
        assert(r == match key_index(m, d.ref_purl@, 0) {
            Some(x) => m.update(x, e),
            None => m.push(e),
        });
        assert forall|i: int| 0 <= i < m.len() implies (#[trigger] r[i]).0 == m[i].0 by {}
        assert(r[pos].0 == d.ref_purl@);
        assert forall|j: int| 0 <= j < deps.len() implies has_key(r, (#[trigger] deps[j]).ref_purl@) by {
            if j == n {
                assert(deps[j] == d);
                assert(r[pos].0 == deps[j].ref_purl@);
            } else {
                assert(deps[j] == prev[j]);
                assert(has_key(m, prev[j].ref_purl@));
                let i = choose|i: int| 0 <= i < m.len() && (#[trigger] m[i]).0 == prev[j].ref_purl@;
                assert(r[i].0 == m[i].0);
            }
        }
    }
}

/// Law: the dependency map holds each depending package URL once, one for
/// each URL that some dependency relation names, and with it the list of
/// the last relation that names it.
pub proof fn law_dependency_map_last_wins(deps: Seq<TpaSbomDependency>)
    ensures
        forall|i: int, j: int|
            0 <= i < j < dependency_map_of(deps).len() ==> (#[trigger] dependency_map_of(deps)[i]).0
                != (#[trigger] dependency_map_of(deps)[j]).0,
        forall|i: int|
            0 <= i < dependency_map_of(deps).len() ==> from_last_relation(deps, #[trigger] dependency_map_of(deps)[i]),
        forall|j: int| 0 <= j < deps.len() ==> has_key(dependency_map_of(deps), (#[trigger] deps[j]).ref_purl@),
{
    lemma_dmap_distinct(deps);
    lemma_dmap_sources(deps);
    lemma_dmap_covers(deps);
}

proof fn lemma_key_index(m: Seq<(Seq<char>, Seq<Seq<char>>)>, k: Seq<char>, i: int)
    requires
        0 <= i,
    ensures
        key_index(m, k, i) matches Some(j) ==> i <= j < m.len() && m[j].0 == k,
    decreases m.len() - i,
{
    if i < m.len() && m[i].0 != k {
        lemma_key_index(m, k, i + 1);
    }
}

fn key_index_exec(m: &Vec<(String, Vec<String>)>, k: &String) -> (r: Option<usize>)
    ensures
        match r {
            Some(j) => key_index(map_view(m@), k@, 0) == Some(j as int) && j < m@.len(),
            None => key_index(map_view(m@), k@, 0) is None,
        },
{
    let mut i: usize = 0;
    while i < m.len()
        invariant
            i <= m@.len(),
            key_index(map_view(m@), k@, 0) == key_index(map_view(m@), k@, i as int),
        decreases m.len() - i,
    {
        if str_eq(m[i].0.as_str(), k.as_str()) {
            return Some(i);
        }
        i += 1;
    }
    None
}

fn digest_key_index_exec(m: &Vec<(String, Vec<String>)>, p: &String) -> (r: Option<usize>)
    ensures
        match r {
            Some(j) => digest_key_index(map_view(m@), p@, 0) == Some(j as int) && j < m@.len(),
            None => digest_key_index(map_view(m@), p@, 0) is None,
        },
{
    let mut i: usize = 0;
    while i < m.len()
        invariant
            i <= m@.len(),
            digest_key_index(map_view(m@), p@, 0) == digest_key_index(map_view(m@), p@, i as int),
        decreases m.len() - i,
    {
        if purls_match_by_sha256(p.as_str(), m[i].0.as_str()) {
            return Some(i);
        }
        i += 1;
    }
    None
}

/// The dependency map of an SBOM, for looking up what a package URL
/// depends on.
pub fn build_dependency_map(sbom: &TpaSbom) -> (r: DependencyMap)
    ensures
        map_view(r@) == dependency_map_of(sbom.dependencies@),
{
    let deps = &sbom.dependencies;
    let mut m: Vec<(String, Vec<String>)> = Vec::new();
    let mut k: usize = 0;
    while k < deps.len()
        invariant
            k <= deps@.len(),
            deps@ == sbom.dependencies@,
            map_view(m@) == dependency_map_of(deps@.take(k as int)),
        decreases deps.len() - k,
    {
        assert(deps@.take(k + 1).drop_last() =~= deps@.take(k as int));
        let d = &deps[k];
        let entry = (d.ref_purl.clone(), clone_strings(&d.depends_on));
        match key_index_exec(&m, &d.ref_purl) {
            Some(i) => {
                m.set(i, entry);
                assert(map_view(m@) =~= dependency_map_of(deps@.take(k + 1)));
            },
            None => {
                m.push(entry);
                assert(map_view(m@) =~= dependency_map_of(deps@.take(k + 1)));
            },
        }
        k += 1;
    }
    assert(deps@.take(deps@.len() as int) =~= deps@);
    m
}

fn deps_for_exec<'a>(m: &'a Vec<(String, Vec<String>)>, p: &String) -> (r: Option<&'a Vec<String>>)
    ensures
        match r {
            Some(ds) => deps_for(map_view(m@), p@) == Some(strs(ds@)),
            None => deps_for(map_view(m@), p@) is None,
        },
{
    match key_index_exec(m, p) {
        Some(i) => Some(&m[i].1),
        None => match digest_key_index_exec(m, p) {
            Some(i) => Some(&m[i].1),
            None => None,
        },
    }
}

/// The nodes of the dependencies named by `ds`.
pub open spec fn dependency_nodes(ds: Seq<Seq<char>>, published: Option<Seq<char>>) -> Seq<NodeView> {
    ds.map_values(|x: Seq<char>| dependency_node(x, published))
}

/// A node with the dependencies of its package URL (its id) added below it.
pub open spec fn with_deps(
    d: NodeView,
    m: Seq<(Seq<char>, Seq<Seq<char>>)>,
    published: Option<Seq<char>>,
) -> NodeView {
    match deps_for(m, d.node_id) {
        Some(ds) => NodeView { descendants: d.descendants + dependency_nodes(ds, published), ..d },
        None => d,
    }
}

/// Each node with its dependencies added below it.
pub open spec fn all_with_deps(
    ds: Seq<NodeView>,
    m: Seq<(Seq<char>, Seq<Seq<char>>)>,
    published: Option<Seq<char>>,
) -> Seq<NodeView> {
    ds.map_values(|d: NodeView| with_deps(d, m, published))
}

/// The number of positions of `h` whose serial number `v` does not hold.
pub open spec fn unvisited(h: Seq<&SbomWithRank>, v: Seq<Seq<char>>) -> nat
    decreases h.len(),
{
    if h.len() == 0 {
        0
    } else {
        unvisited(h.drop_last(), v) + if v.contains(serial(h.last().sbom)) {
            0nat
        } else {
            1nat
        }
    }
}

/// `w` holds every serial number that `v` holds.
pub open spec fn holds_all(w: Seq<Seq<char>>, v: Seq<Seq<char>>) -> bool {
    forall|x: Seq<char>| v.contains(x) ==> #[trigger] w.contains(x)
}

proof fn lemma_unvisited_mono(h: Seq<&SbomWithRank>, v: Seq<Seq<char>>, w: Seq<Seq<char>>)
    requires
        holds_all(w, v),
    ensures
        unvisited(h, w) <= unvisited(h, v),
    decreases h.len(),
{
    if h.len() > 0 {
        lemma_unvisited_mono(h.drop_last(), v, w);
    }
}

proof fn lemma_unvisited_drop(h: Seq<&SbomWithRank>, v: Seq<Seq<char>>, w: Seq<Seq<char>>, j: int)
    requires
        holds_all(w, v),
        0 <= j < h.len(),
        !v.contains(serial(h[j].sbom)),
        w.contains(serial(h[j].sbom)),
    ensures
        unvisited(h, w) < unvisited(h, v),
    decreases h.len(),
{
    if j == h.len() - 1 {
        lemma_unvisited_mono(h.drop_last(), v, w);
    } else {
        assert(h.drop_last()[j] == h[j]);
        lemma_unvisited_drop(h.drop_last(), v, w, j);
    }
}

/// The first position from `k` on of an SBOM with serial number `s`.
pub open spec fn find_in(h: Seq<&SbomWithRank>, s: Seq<char>, k: int) -> Option<int>
    decreases h.len() - k,
{
    if k < 0 || k >= h.len() {
        None
    } else if serial(h[k].sbom) == s {
        Some(k)
    } else {
        find_in(h, s, k + 1)
    }
}

/// The position in `h` of the SBOM that a package URL attaches below a
/// component: the first, from the `i`-th on, of the serial numbers that
/// `node` refers to that is not visited and names an SBOM of `h` that
/// describes a component with the same digest.
pub open spec fn attach_index(
    node: SbomWithRank,
    h: Seq<&SbomWithRank>,
    v: Seq<Seq<char>>,
    purl: Seq<char>,
    i: int,
) -> Option<int>
    decreases node.references@.len() - i,
{
    if i < 0 || i >= node.references@.len() {
        None
    } else {
        let r = node.references@[i]@;
        if !v.contains(r) && (match find_in(h, r, 0) {
            Some(j) => match own_purl(h[j].sbom) {
                Some(cp) => purls_match(purl, cp),
                None => false,
            },
            None => false,
        }) {
            find_in(h, r, 0)
        } else {
            attach_index(node, h, v, purl, i + 1)
        }
    }
}

/// The number of pedigree variants of a component.
pub open spec fn variant_count(c: TpaSbomComponents) -> int {
    match c.pedigree {
        Some(pd) => match pd.variants {
            Some(vs) => vs@.len() as int,
            None => 0,
        },
        None => 0,
    }
}

/// `base` with the SBOM that `purl` attaches to (if any) built below it as
/// a `package`; with the serial numbers visited after.
pub open spec fn attached(
    f: nat,
    node: SbomWithRank,
    h: Seq<&SbomWithRank>,
    v: Seq<Seq<char>>,
    base: NodeView,
    purl: Seq<char>,
) -> (NodeView, Seq<Seq<char>>)
    decreases f, 0int, 0int,
{
    match attach_index(node, h, v, purl, 0) {
        Some(j) => if f > 0 && 0 <= j < h.len() {
            let (child, v2) = tree((f - 1) as nat, *h[j], h, v);
            (
                NodeView {
                    descendants: base.descendants.push(
                        NodeView { relationship: Some(package()), ..child },
                    ),
                    ..base
                },
                v2,
            )
        } else {
            (base, v)
        },
        None => (base, v),
    }
}

/// The nodes for the pedigree variants of component `c` from the `j`-th on,
/// each with what it attaches to; with the serial numbers visited after.
pub open spec fn variants_tree(
    f: nat,
    node: SbomWithRank,
    h: Seq<&SbomWithRank>,
    v: Seq<Seq<char>>,
    c: TpaSbomComponents,
    j: int,
) -> (Seq<NodeView>, Seq<Seq<char>>)
    decreases f, 1int, variant_count(c) - j,
{
    if j < 0 || j >= variant_count(c) {
        (Seq::empty(), v)
    } else {
        let var = c.pedigree->0.variants->0@[j];
        match var.purl {
            Some(vp) => {
                let base = NodeView { purl: seq![vp@], ..component_node(c, node.sbom, vp@) };
                let (cn, va) = attached(f, node, h, v, base, vp@);
                let (rest, vb) = variants_tree(f, node, h, va, c, j + 1);
                (seq![cn] + rest, vb)
            },
            None => variants_tree(f, node, h, v, c, j + 1),
        }
    }
}

/// The node for component `c` of `node`, with what it attaches to, unless
/// it has no package URL or names `node` itself; with the serial numbers
/// visited after.
pub open spec fn component_part(
    f: nat,
    node: SbomWithRank,
    h: Seq<&SbomWithRank>,
    v: Seq<Seq<char>>,
    c: TpaSbomComponents,
) -> (Seq<NodeView>, Seq<Seq<char>>)
    decreases f, 1int, 0int,
{
    match c.purl {
        Some(p) => if !(match own_purl(node.sbom) {
            Some(o) => purls_match(p@, o),
            None => false,
        }) {
            let (cn, va) = attached(f, node, h, v, component_node(c, node.sbom, p@), p@);
            (seq![cn], va)
        } else {
            (Seq::empty(), v)
        },
        None => (Seq::empty(), v),
    }
}

/// The nodes for the components of `node` from the `k`-th on: each
/// component that does not name `node` itself with what it attaches to, then
/// its variants; with the serial numbers visited after.
pub open spec fn comps_tree(
    f: nat,
    node: SbomWithRank,
    h: Seq<&SbomWithRank>,
    v: Seq<Seq<char>>,
    k: int,
) -> (Seq<NodeView>, Seq<Seq<char>>)
    decreases f, 2int, node.sbom.components@.len() - k,
{
    if k < 0 || k >= node.sbom.components@.len() {
        (Seq::empty(), v)
    } else {
        let c = node.sbom.components@[k];
        let (p1, va) = component_part(f, node, h, v, c);
        let (p2, vb) = variants_tree(f, node, h, va, c, 0);
        let (p3, vc) = comps_tree(f, node, h, vb, k + 1);
        (p1 + p2 + p3, vc)
    }
}

/// The hierarchy node for `node`: the node for its SBOM with, below it, the
/// nodes of its components and variants (each with the SBOM it names, built
/// the same way, if not yet visited) and the dependencies of its own
/// package URL, each of these with its own dependencies below it; with the
/// serial numbers visited after.
pub open spec fn tree(f: nat, node: SbomWithRank, h: Seq<&SbomWithRank>, v: Seq<Seq<char>>) -> (
    NodeView,
    Seq<Seq<char>>,
)
    decreases f, 3int, 0int,
{
    let v1 = v.push(serial(node.sbom));
    let base = sbom_node(node.sbom, sbom_name(node.sbom));
    let (descs, v2) = comps_tree(f, node, h, v1, 0);
    let m = dependency_map_of(node.sbom.dependencies@);
    let published = opt_str(node.sbom.metadata.timestamp);
    let own_deps = match own_purl(node.sbom) {
        Some(op) => match deps_for(m, op) {
            Some(ds) => dependency_nodes(ds, published),
            None => Seq::empty(),
        },
        None => Seq::empty(),
    };
    (NodeView { descendants: all_with_deps(descs + own_deps, m, published), ..base }, v2)
}

fn contains_string(v: &Vec<String>, s: &String) -> (r: bool)
    ensures
        r == strs(v@).contains(s@),
{
    let mut k: usize = 0;
    while k < v.len()
        invariant
            k <= v@.len(),
            forall|x: int| 0 <= x < k ==> strs(v@)[x] != s@,
        decreases v.len() - k,
    {
        if str_eq(v[k].as_str(), s.as_str()) {
            assert(strs(v@)[k as int] == s@);
            return true;
        }
        k += 1;
    }
    false
}

fn find_in_exec(h: &[&SbomWithRank], s: &String) -> (r: Option<usize>)
    ensures
        match r {
            Some(j) => find_in(h@, s@, 0) == Some(j as int) && j < h@.len(),
            None => find_in(h@, s@, 0) is None,
        },
{
    let mut k: usize = 0;
    while k < h.len()
        invariant
            k <= h@.len(),
            find_in(h@, s@, 0) == find_in(h@, s@, k as int),
        decreases h.len() - k,
    {
        if str_eq(h[k].sbom.serial_number.as_str(), s.as_str()) {
            return Some(k);
        }
        k += 1;
    }
    None
}

fn attach_index_exec(node: &SbomWithRank, h: &[&SbomWithRank], visited: &Vec<String>, purl: &String) -> (r: Option<usize>)
    ensures
        match r {
            Some(j) => attach_index(*node, h@, strs(visited@), purl@, 0) == Some(j as int) && j < h@.len(),
            None => attach_index(*node, h@, strs(visited@), purl@, 0) is None,
        },
{
    let refs = &node.references;
    let mut i: usize = 0;
    while i < refs.len()
        invariant
            i <= refs@.len(),
            refs@ == node.references@,
            attach_index(*node, h@, strs(visited@), purl@, 0) == attach_index(*node, h@, strs(visited@), purl@, i as int),
        decreases refs.len() - i,
    {
        if !contains_string(visited, &refs[i]) {
            if let Some(j) = find_in_exec(h, &refs[i]) {
                if let Some(cp) = own_purl_exec(&h[j].sbom) {
                    if purls_match_by_sha256(purl.as_str(), cp.as_str()) {
                        return Some(j);
                    }
                }
            }
        }
        i += 1;
    }
    None
}

/// Pushing a node below another adds its view below the other's.
proof fn lemma_push_descendant(x: HierarchyNode, y: HierarchyNode, d: HierarchyNode)
    requires
        y.node_id == x.node_id,
        y.purl == x.purl,
        y.cpe == x.cpe,
        y.name == x.name,
        y.version == x.version,
        y.published == x.published,
        y.relationship == x.relationship,
        y.warnings == x.warnings,
        y.descendants@ == x.descendants@.push(d),
    ensures
        y.node_view() == (NodeView {
            descendants: x.node_view().descendants.push(d.node_view()),
            ..x.node_view()
        }),
{
    assert(y.node_view().descendants =~= x.node_view().descendants.push(d.node_view()));
}

proof fn lemma_push_holds(v: Seq<Seq<char>>, s: Seq<char>)
    ensures
        holds_all(v.push(s), v),
        v.push(s).contains(s),
{
    assert(v.push(s)[v.len() as int] == s);
    assert forall|x: Seq<char>| v.contains(x) implies #[trigger] v.push(s).contains(x) by {
        let i = choose|i: int| 0 <= i < v.len() && v[i] == x;
        assert(v.push(s)[i] == x);
    }
}

proof fn lemma_find_in(h: Seq<&SbomWithRank>, s: Seq<char>, k: int)
    requires
        0 <= k,
    ensures
        find_in(h, s, k) matches Some(j) ==> k <= j < h.len() && serial(h[j].sbom) == s,
    decreases h.len() - k,
{
    if k < h.len() && serial(h[k].sbom) != s {
        lemma_find_in(h, s, k + 1);
    }
}

proof fn lemma_attach_index(node: SbomWithRank, h: Seq<&SbomWithRank>, v: Seq<Seq<char>>, purl: Seq<char>, i: int)
    requires
        0 <= i,
    ensures
        attach_index(node, h, v, purl, i) matches Some(j) ==> 0 <= j < h.len() && !v.contains(serial(h[j].sbom)),
    decreases node.references@.len() - i,
{
    if i < node.references@.len() {
        let r = node.references@[i]@;
        lemma_find_in(h, r, 0);
        lemma_attach_index(node, h, v, purl, i + 1);
    }
}

/// Some SBOM of `h` has serial number `s`.
pub open spec fn names_sbom_of(h: Seq<&SbomWithRank>, s: Seq<char>) -> bool {
    exists|j: int| 0 <= j < h.len() && serial(h[j].sbom) == s
}

/// `w` is `v` followed by serial numbers of SBOMs of `h`, with no serial
/// number twice in `w`.
pub open spec fn extends_once(v: Seq<Seq<char>>, w: Seq<Seq<char>>, h: Seq<&SbomWithRank>) -> bool {
    &&& v.len() <= w.len()
    &&& w.take(v.len() as int) == v
    &&& w.no_duplicates()
    &&& forall|i: int| v.len() <= i < w.len() ==> names_sbom_of(h, #[trigger] w[i])
}

proof fn lemma_extends_refl(v: Seq<Seq<char>>, h: Seq<&SbomWithRank>)
    requires
        v.no_duplicates(),
    ensures
        extends_once(v, v, h),
{
    assert(v.take(v.len() as int) =~= v);
}

proof fn lemma_extends_trans(u: Seq<Seq<char>>, v: Seq<Seq<char>>, w: Seq<Seq<char>>, h: Seq<&SbomWithRank>)
    requires
        extends_once(u, v, h),
        extends_once(v, w, h),
    ensures
        extends_once(u, w, h),
{
    assert forall|i: int| 0 <= i < v.len() implies w[i] == v[i] by {
        assert(w.take(v.len() as int)[i] == w[i]);
    }
    assert forall|i: int| 0 <= i < u.len() implies w[i] == u[i] by {
        assert(v.take(u.len() as int)[i] == v[i]);
    }
    assert(w.take(u.len() as int) =~= u);
    assert forall|i: int| u.len() <= i < w.len() implies names_sbom_of(h, #[trigger] w[i]) by {
        if i < v.len() {
            assert(names_sbom_of(h, v[i]));
        }
    }
}

proof fn lemma_extends_push(v: Seq<Seq<char>>, s: Seq<char>, w: Seq<Seq<char>>, h: Seq<&SbomWithRank>)
    requires
        extends_once(v.push(s), w, h),
        names_sbom_of(h, s),
    ensures
        extends_once(v, w, h),
{
    let v1 = v.push(s);
    assert forall|i: int| 0 <= i < v1.len() implies w[i] == v1[i] by {
        assert(w.take(v1.len() as int)[i] == w[i]);
    }
    assert(w.take(v.len() as int) =~= v);
    assert forall|i: int| v.len() <= i < w.len() implies names_sbom_of(h, #[trigger] w[i]) by {
        if i == v.len() {
            assert(w[i] == s);
        }
    }
}

proof fn lemma_push_fresh(v: Seq<Seq<char>>, s: Seq<char>)
    requires
        v.no_duplicates(),
        !v.contains(s),
    ensures
        v.push(s).no_duplicates(),
{
    let v1 = v.push(s);
    assert forall|i: int, j: int| 0 <= i < v1.len() && 0 <= j < v1.len() && i != j implies v1[i] != v1[j] by {
        if i == v.len() {
            assert(v.contains(v1[j]));
        } else if j == v.len() {
            assert(v.contains(v1[i]));
        }
    }
}

proof fn lemma_attached_extends(
    f: nat,
    node: SbomWithRank,
    h: Seq<&SbomWithRank>,
    v: Seq<Seq<char>>,
    base: NodeView,
    purl: Seq<char>,
)
    requires
        v.no_duplicates(),
    ensures
        extends_once(v, attached(f, node, h, v, base, purl).1, h),
    decreases f, 0int, 0int,
{
    lemma_attach_index(node, h, v, purl, 0);
    match attach_index(node, h, v, purl, 0) {
        Some(j) => if f > 0 && 0 <= j < h.len() {
            let s = serial(h[j].sbom);
            lemma_tree_extends((f - 1) as nat, *h[j], h, v);
            assert(names_sbom_of(h, s));
            lemma_extends_push(v, s, tree((f - 1) as nat, *h[j], h, v).1, h);
        } else {
            lemma_extends_refl(v, h);
        },
        None => lemma_extends_refl(v, h),
    }
}

proof fn lemma_variants_extends(
    f: nat,
    node: SbomWithRank,
    h: Seq<&SbomWithRank>,
    v: Seq<Seq<char>>,
    c: TpaSbomComponents,
    j: int,
)
    requires
        v.no_duplicates(),
    ensures
        extends_once(v, variants_tree(f, node, h, v, c, j).1, h),
    decreases f, 1int, variant_count(c) - j,
{
    if j < 0 || j >= variant_count(c) {
        lemma_extends_refl(v, h);
    } else {
        let var = c.pedigree->0.variants->0@[j];
        match var.purl {
            Some(vp) => {
                let base = NodeView { purl: seq![vp@], ..component_node(c, node.sbom, vp@) };
                lemma_attached_extends(f, node, h, v, base, vp@);
                let va = attached(f, node, h, v, base, vp@).1;
                lemma_variants_extends(f, node, h, va, c, j + 1);
                lemma_extends_trans(v, va, variants_tree(f, node, h, va, c, j + 1).1, h);
            },
            None => lemma_variants_extends(f, node, h, v, c, j + 1),
        }
    }
}

proof fn lemma_part_extends(f: nat, node: SbomWithRank, h: Seq<&SbomWithRank>, v: Seq<Seq<char>>, c: TpaSbomComponents)
    requires
        v.no_duplicates(),
    ensures
        extends_once(v, component_part(f, node, h, v, c).1, h),
    decreases f, 1int, 0int,
{
    match c.purl {
        Some(p) => if !(match own_purl(node.sbom) {
            Some(o) => purls_match(p@, o),
            None => false,
        }) {
            lemma_attached_extends(f, node, h, v, component_node(c, node.sbom, p@), p@);
        } else {
            lemma_extends_refl(v, h);
        },
        None => lemma_extends_refl(v, h),
    }
}

proof fn lemma_comps_extends(f: nat, node: SbomWithRank, h: Seq<&SbomWithRank>, v: Seq<Seq<char>>, k: int)
    requires
        v.no_duplicates(),
    ensures
        extends_once(v, comps_tree(f, node, h, v, k).1, h),
    decreases f, 2int, node.sbom.components@.len() - k,
{
    if k < 0 || k >= node.sbom.components@.len() {
        lemma_extends_refl(v, h);
    } else {
        let c = node.sbom.components@[k];
        lemma_part_extends(f, node, h, v, c);
        let va = component_part(f, node, h, v, c).1;
        lemma_variants_extends(f, node, h, va, c, 0);
        let vb = variants_tree(f, node, h, va, c, 0).1;
        lemma_comps_extends(f, node, h, vb, k + 1);
        lemma_extends_trans(v, va, vb, h);
        lemma_extends_trans(v, vb, comps_tree(f, node, h, vb, k + 1).1, h);
    }
}

proof fn lemma_tree_extends(f: nat, node: SbomWithRank, h: Seq<&SbomWithRank>, v: Seq<Seq<char>>)
    requires
        v.no_duplicates(),
        !v.contains(serial(node.sbom)),
    ensures
        extends_once(v.push(serial(node.sbom)), tree(f, node, h, v).1, h),
    decreases f, 3int, 0int,
{
    let v1 = v.push(serial(node.sbom));
    lemma_push_fresh(v, serial(node.sbom));
    lemma_comps_extends(f, node, h, v1, 0);
    assert(tree(f, node, h, v).1 == comps_tree(f, node, h, v1, 0).1);
}

/// Law: building the hierarchy node of an SBOM whose serial number is not
/// yet visited expands each SBOM at most once. The visited serial numbers
/// after are exactly those before, then the SBOM's own serial number, then
/// the serial numbers of the SBOMs of the hierarchy expanded below it, in
/// the order they were expanded: none of them twice, and none visited
/// before.
pub proof fn law_tree_expands_each_once(f: nat, node: SbomWithRank, h: Seq<&SbomWithRank>, v: Seq<Seq<char>>)
    requires
        v.no_duplicates(),
        !v.contains(serial(node.sbom)),
    ensures
        tree(f, node, h, v).1.len() > v.len(),
        tree(f, node, h, v).1.take(v.len() as int) == v,
        tree(f, node, h, v).1[v.len() as int] == serial(node.sbom),
        tree(f, node, h, v).1.no_duplicates(),
        forall|i: int|
            v.len() < i < tree(f, node, h, v).1.len() ==> names_sbom_of(h, #[trigger] tree(f, node, h, v).1[i]),
{
    lemma_tree_extends(f, node, h, v);
    let w = tree(f, node, h, v).1;
    let v1 = v.push(serial(node.sbom));
    assert(w.take(v1.len() as int)[v.len() as int] == w[v.len() as int]);
    assert forall|i: int| 0 <= i < v.len() implies w[i] == v[i] by {
        assert(w.take(v1.len() as int)[i] == w[i]);
    }
    assert(w.take(v.len() as int) =~= v);
}

/// Law: building the hierarchy node of a hierarchy from its first SBOM
/// expands each SBOM at most once: the serial numbers visited, in order,
/// start with the first SBOM's own, hold none twice, and each names an
/// SBOM of the hierarchy.
pub proof fn law_hierarchy_expands_each_once(h: Seq<&SbomWithRank>)
    requires
        h.len() > 0,
    ensures
        tree((h.len() + 1) as nat, *h[0], h, Seq::empty()).1.len() > 0,
        tree((h.len() + 1) as nat, *h[0], h, Seq::empty()).1[0] == serial(h[0].sbom),
        tree((h.len() + 1) as nat, *h[0], h, Seq::empty()).1.no_duplicates(),
        forall|i: int|
            0 <= i < tree((h.len() + 1) as nat, *h[0], h, Seq::empty()).1.len() ==> names_sbom_of(
                h,
                #[trigger] tree((h.len() + 1) as nat, *h[0], h, Seq::empty()).1[i],
            ),
{
    let f = (h.len() + 1) as nat;
    let v = Seq::<Seq<char>>::empty();
    law_tree_expands_each_once(f, *h[0], h, v);
    assert(names_sbom_of(h, serial(h[0].sbom)));
}

impl SbomCorrelation {
    fn attach_below(
        &self,
        node: &SbomWithRank,
        hierarchy: &[&SbomWithRank],
        visited: &mut Vec<String>,
        base: HierarchyNode,
        purl: &String,
    ) -> (r: HierarchyNode)
        ensures
            holds_all(strs(final(visited)@), strs(old(visited)@)),
            forall|f: nat|
                f >= unvisited(hierarchy@, strs(old(visited)@)) + 1 ==> #[trigger] attached(
                    f,
                    *node,
                    hierarchy@,
                    strs(old(visited)@),
                    base.node_view(),
                    purl@,
                ) == (r.node_view(), strs(final(visited)@)),
        decreases unvisited(hierarchy@, strs(old(visited)@)) + 1, 0int, 0int,
    {
        let ghost v0 = strs(visited@);
        match attach_index_exec(node, hierarchy, visited, purl) {
            Some(j) => {
                let child_node = hierarchy[j];
                proof {
                    let s = serial(child_node.sbom);
                    lemma_attach_index(*node, hierarchy@, v0, purl@, 0);
                    lemma_push_holds(v0, s);
                    lemma_unvisited_drop(hierarchy@, v0, v0.push(s), j as int);
                }
                let mut child = self.build_hierarchy_node(child_node, hierarchy, visited);
                let ghost cv = child.node_view();
                child.relationship = Some(package_string());
                assert(child.node_view() == NodeView { relationship: Some(package()), ..cv });
                let mut b = base;
                let ghost before = b;
                b.descendants.push(child);
                proof {
                    lemma_push_descendant(before, b, child);
                    assert forall|f: nat|
                        f >= unvisited(hierarchy@, v0) + 1 implies #[trigger] attached(f, *node, hierarchy@, v0, before.node_view(), purl@)
                            == (b.node_view(), strs(visited@)) by {
                        assert(tree((f - 1) as nat, *child_node, hierarchy@, v0) == (cv, strs(visited@)));
                    }
                }
                b
            },
            None => base,
        }
    }

    fn build_variants(
        &self,
        node: &SbomWithRank,
        hierarchy: &[&SbomWithRank],
        visited: &mut Vec<String>,
        c: &TpaSbomComponents,
        j: usize,
    ) -> (r: Vec<HierarchyNode>)
        ensures
            holds_all(strs(final(visited)@), strs(old(visited)@)),
            forall|f: nat|
                f >= unvisited(hierarchy@, strs(old(visited)@)) + 1 ==> #[trigger] variants_tree(
                    f,
                    *node,
                    hierarchy@,
                    strs(old(visited)@),
                    *c,
                    j as int,
                ) == (node_views(r@), strs(final(visited)@)),
        decreases unvisited(hierarchy@, strs(old(visited)@)) + 1, 1int, variant_count(*c) - j,
    {
        let ghost v0 = strs(visited@);
        let vs = match &c.pedigree {
            Some(pd) => match &pd.variants {
                Some(vs) => vs,
                None => {
                    let r: Vec<HierarchyNode> = Vec::new();
                    assert(node_views(r@) =~= Seq::<NodeView>::empty());
                    return r;
                },
            },
            None => {
                let r: Vec<HierarchyNode> = Vec::new();
                assert(node_views(r@) =~= Seq::<NodeView>::empty());
                return r;
            },
        };
        if j >= vs.len() {
            let r: Vec<HierarchyNode> = Vec::new();
            assert(node_views(r@) =~= Seq::<NodeView>::empty());
            return r;
        }
        assert(vs@ == c.pedigree->0.variants->0@);
        match &vs[j].purl {
            Some(vp) => {
                let mut cn = HierarchyNode::from_component(c, &node.sbom, vp.clone());
                let mut one: Vec<String> = Vec::new();
                one.push(vp.clone());
                let ghost cv = cn.node_view();
                cn.purl = one;
                assert(strs(cn.purl@) =~= seq![vp@]);
                assert(cn.node_view() == NodeView { purl: seq![vp@], ..cv });
                let ghost base_view = cn.node_view();
                let first = self.attach_below(node, hierarchy, visited, cn, vp);
                let ghost va = strs(visited@);
                proof {
                    lemma_unvisited_mono(hierarchy@, v0, va);
                }
                let rest = self.build_variants(node, hierarchy, visited, c, j + 1);
                let mut r: Vec<HierarchyNode> = Vec::new();
                r.push(first);
                let mut rest = rest;
                let ghost rest_view = node_views(rest@);
                r.append(&mut rest);
                proof {
                    assert(node_views(r@) =~= seq![first.node_view()] + rest_view);
                    assert forall|f: nat|
                        f >= unvisited(hierarchy@, v0) + 1 implies #[trigger] variants_tree(f, *node, hierarchy@, v0, *c, j as int)
                            == (node_views(r@), strs(visited@)) by {
                        assert(attached(f, *node, hierarchy@, v0, base_view, vp@) == (first.node_view(), va));
                        assert(variants_tree(f, *node, hierarchy@, va, *c, j + 1) == (rest_view, strs(visited@)));
                    }
                }
                r
            },
            None => {
                let r = self.build_variants(node, hierarchy, visited, c, j + 1);
                proof {
                    assert forall|f: nat|
                        f >= unvisited(hierarchy@, v0) + 1 implies #[trigger] variants_tree(f, *node, hierarchy@, v0, *c, j as int)
                            == (node_views(r@), strs(visited@)) by {
                        assert(variants_tree(f, *node, hierarchy@, v0, *c, j + 1) == (node_views(r@), strs(visited@)));
                    }
                }
                r
            },
        }
    }

    fn build_component_part(
        &self,
        node: &SbomWithRank,
        hierarchy: &[&SbomWithRank],
        visited: &mut Vec<String>,
        c: &TpaSbomComponents,
    ) -> (r: Vec<HierarchyNode>)
        ensures
            holds_all(strs(final(visited)@), strs(old(visited)@)),
            forall|f: nat|
                f >= unvisited(hierarchy@, strs(old(visited)@)) + 1 ==> #[trigger] component_part(
                    f,
                    *node,
                    hierarchy@,
                    strs(old(visited)@),
                    *c,
                ) == (node_views(r@), strs(final(visited)@)),
        decreases unvisited(hierarchy@, strs(old(visited)@)) + 1, 1int, 0int,
    {
        let ghost v0 = strs(visited@);
        let mut r: Vec<HierarchyNode> = Vec::new();
        if let Some(p) = &c.purl {
            let is_self = match own_purl_exec(&node.sbom) {
                Some(o) => purls_match_by_sha256(p.as_str(), o.as_str()),
                None => false,
            };
            if !is_self {
                let cn = HierarchyNode::from_component(c, &node.sbom, p.clone());
                let ghost base_view = cn.node_view();
                let attached_node = self.attach_below(node, hierarchy, visited, cn, p);
                r.push(attached_node);
                proof {
                    assert(node_views(r@) =~= seq![attached_node.node_view()]);
                    assert forall|f: nat| f >= unvisited(hierarchy@, v0) + 1 implies #[trigger] component_part(f, *node, hierarchy@, v0, *c)
                        == (node_views(r@), strs(visited@)) by {
                        assert(attached(f, *node, hierarchy@, v0, base_view, p@) == (attached_node.node_view(), strs(visited@)));
                    }
                }
                return r;
            }
        }
        assert(node_views(r@) =~= Seq::<NodeView>::empty());
        r
    }

    fn build_components(
        &self,
        node: &SbomWithRank,
        hierarchy: &[&SbomWithRank],
        visited: &mut Vec<String>,
        k: usize,
    ) -> (r: Vec<HierarchyNode>)
        ensures
            holds_all(strs(final(visited)@), strs(old(visited)@)),
            forall|f: nat|
                f >= unvisited(hierarchy@, strs(old(visited)@)) + 1 ==> #[trigger] comps_tree(
                    f,
                    *node,
                    hierarchy@,
                    strs(old(visited)@),
                    k as int,
                ) == (node_views(r@), strs(final(visited)@)),
        decreases unvisited(hierarchy@, strs(old(visited)@)) + 1, 2int, node.sbom.components@.len() - k,
    {
        let ghost v0 = strs(visited@);
        let comps = &node.sbom.components;
        if k >= comps.len() {
            let r: Vec<HierarchyNode> = Vec::new();
            assert(node_views(r@) =~= Seq::<NodeView>::empty());
            return r;
        }
        let c = &comps[k];
        let mut r = self.build_component_part(node, hierarchy, visited, c);
        let ghost p1 = node_views(r@);
        let ghost va = strs(visited@);
        proof {
            lemma_unvisited_mono(hierarchy@, v0, va);
        }
        let mut vars = self.build_variants(node, hierarchy, visited, c, 0);
        let ghost vb = strs(visited@);
        let ghost p2 = node_views(vars@);
        proof {
            lemma_unvisited_mono(hierarchy@, va, vb);
        }
        let mut rest = self.build_components(node, hierarchy, visited, k + 1);
        let ghost p3 = node_views(rest@);
        r.append(&mut vars);
        r.append(&mut rest);
        proof {
            assert(node_views(r@) =~= p1 + p2 + p3);
            assert forall|f: nat|
                f >= unvisited(hierarchy@, v0) + 1 implies #[trigger] comps_tree(f, *node, hierarchy@, v0, k as int)
                    == (node_views(r@), strs(visited@)) by {
                assert(component_part(f, *node, hierarchy@, v0, *c) == (p1, va));
                assert(variants_tree(f, *node, hierarchy@, va, *c, 0) == (p2, vb));
                assert(comps_tree(f, *node, hierarchy@, vb, k + 1) == (p3, strs(visited@)));
            }
        }
        r
    }

    /// The hierarchy node for `node` within `hierarchy`, marking what it
    /// visits in `visited` (see `tree`).
    fn build_hierarchy_node(
        &self,
        node: &SbomWithRank,
        hierarchy: &[&SbomWithRank],
        visited: &mut Vec<String>,
    ) -> (r: HierarchyNode)
        ensures
            holds_all(strs(final(visited)@), strs(old(visited)@)),
            forall|f: nat|
                f >= unvisited(hierarchy@, strs(old(visited)@).push(serial(node.sbom))) + 1
                    ==> #[trigger] tree(f, *node, hierarchy@, strs(old(visited)@)) == (
                    r.node_view(),
                    strs(final(visited)@),
                ),
        decreases unvisited(hierarchy@, strs(old(visited)@).push(serial(node.sbom))) + 1, 3int, 0int,
    {
        let ghost v0 = strs(visited@);
        visited.push(node.sbom.serial_number.clone());
        let ghost v1 = strs(visited@);
        assert(v1 =~= v0.push(serial(node.sbom)));
        proof {
            lemma_push_holds(v0, serial(node.sbom));
        }
        let node_name = match &node.sbom.metadata.component {
            Some(c) => match &c.name {
                Some(n) => n.clone(),
                None => unknown_string(),
            },
            None => unknown_string(),
        };
        let mut hierarchy_node = HierarchyNode::from_sbom(&node.sbom, node_name);
        let descs = self.build_components(node, hierarchy, visited, 0);
        let ghost dv = node_views(descs@);
        let dependency_map = build_dependency_map(&node.sbom);
        let ghost m = dependency_map_of(node.sbom.dependencies@);
        let ghost published = opt_str(node.sbom.metadata.timestamp);
        let mut all = descs;
        if let Some(own) = own_purl_exec(&node.sbom) {
            if let Some(dep_purls) = deps_for_exec(&dependency_map, own) {
                let mut k: usize = 0;
                while k < dep_purls.len()
                    invariant
                        k <= dep_purls@.len(),
                        node_views(all@) == dv + dependency_nodes(strs(dep_purls@).take(k as int), published),
                        published == opt_str(node.sbom.metadata.timestamp),
                    decreases dep_purls.len() - k,
                {
                    let d = HierarchyNode::from_dependency_purl(
                        dep_purls[k].clone(),
                        clone_opt(&node.sbom.metadata.timestamp),
                    );
                    let ghost old_all = node_views(all@);
                    all.push(d);
                    assert(node_views(all@) =~= old_all.push(d.node_view()));
                    assert(strs(dep_purls@).take(k + 1) =~= strs(dep_purls@).take(k as int).push(dep_purls@[k as int]@));
                    assert(dependency_nodes(strs(dep_purls@).take(k + 1), published) =~= dependency_nodes(strs(dep_purls@).take(k as int), published).push(d.node_view()));
                    k += 1;
                }
                assert(strs(dep_purls@).take(dep_purls@.len() as int) =~= strs(dep_purls@));
            } else {
                assert(node_views(all@) =~= dv + Seq::<NodeView>::empty());
            }
        } else {
            assert(node_views(all@) =~= dv + Seq::<NodeView>::empty());
        }
        let ghost pre = node_views(all@);
        let mut finished: Vec<HierarchyNode> = Vec::new();
        let ghost total = all@.len();
        while all.len() > 0
            invariant
                total == pre.len(),
                all@.len() <= total,
                node_views(all@) == pre.skip(total - all@.len()),
                node_views(finished@) == all_with_deps(pre.take(total - all@.len()), m, published),
                map_view(dependency_map@) == m,
                published == opt_str(node.sbom.metadata.timestamp),
            decreases all@.len(),
        {
            let ghost done = total - all@.len();
            let ghost old_all = all@;
            let mut x = all.remove(0);
            assert(node_views(old_all)[0] == x.node_view());
            assert(node_views(all@) =~= node_views(old_all).skip(1));
            assert(x.node_view() == pre[done]);
            assert(node_views(all@) =~= pre.skip(done + 1));
            if let Some(dep_purls) = deps_for_exec(&dependency_map, &x.node_id) {
                let ghost xv = x.node_view();
                let mut k: usize = 0;
                while k < dep_purls.len()
                    invariant
                        k <= dep_purls@.len(),
                        x.node_view() == (NodeView {
                            descendants: xv.descendants + dependency_nodes(strs(dep_purls@).take(k as int), published),
                            ..xv
                        }),
                        published == opt_str(node.sbom.metadata.timestamp),
                    decreases dep_purls.len() - k,
                {
                    let d = HierarchyNode::from_dependency_purl(
                        dep_purls[k].clone(),
                        clone_opt(&node.sbom.metadata.timestamp),
                    );
                    let ghost before = x;
                    x.descendants.push(d);
                    proof {
                        lemma_push_descendant(before, x, d);
                        assert(strs(dep_purls@).take(k + 1) =~= strs(dep_purls@).take(k as int).push(dep_purls@[k as int]@));
                        assert(dependency_nodes(strs(dep_purls@).take(k + 1), published) =~= dependency_nodes(strs(dep_purls@).take(k as int), published).push(d.node_view()));
                        assert(xv.descendants + dependency_nodes(strs(dep_purls@).take(k + 1), published) =~= (xv.descendants + dependency_nodes(strs(dep_purls@).take(k as int), published)).push(d.node_view()));
                    }
                    k += 1;
                }
                assert(strs(dep_purls@).take(dep_purls@.len() as int) =~= strs(dep_purls@));
            }
            let ghost old_finished = node_views(finished@);
            finished.push(x);
            assert(node_views(finished@) =~= old_finished.push(x.node_view()));
            assert(pre.take(done + 1) =~= pre.take(done).push(pre[done]));
            assert(all_with_deps(pre.take(done + 1), m, published) =~= all_with_deps(pre.take(done), m, published).push(with_deps(pre[done], m, published)));
        }
        assert(pre.take(total as int) =~= pre);
        let ghost hv = hierarchy_node.node_view();
        hierarchy_node.descendants = finished;
        proof {
            assert(hierarchy_node.node_view().descendants =~= node_views(finished@));
            assert(hierarchy_node.node_view() == NodeView { descendants: all_with_deps(pre, m, published), ..hv });
            lemma_unvisited_mono(hierarchy@, v0, v1);
            assert forall|f: nat|
                f >= unvisited(hierarchy@, v0.push(serial(node.sbom))) + 1 implies #[trigger] tree(f, *node, hierarchy@, v0)
                    == (hierarchy_node.node_view(), strs(visited@)) by {
                assert(comps_tree(f, *node, hierarchy@, v1, 0) == (dv, strs(visited@)));
            }
        }
        hierarchy_node
    }
}

/// The hierarchy node built for a hierarchy from its first SBOM.
pub open spec fn tree_of(h: Seq<&SbomWithRank>) -> NodeView {
    tree((h.len() + 1) as nat, *h[0], h, Seq::empty()).0
}

/// The hierarchy nodes of the non-empty hierarchies, in order.
pub open spec fn json_items(hs: Seq<Vec<&SbomWithRank>>) -> Seq<NodeView>
    decreases hs.len(),
{
    if hs.len() == 0 {
        Seq::empty()
    } else {
        json_items(hs.drop_last()) + if hs.last()@.len() > 0 {
            seq![tree_of(hs.last()@)]
        } else {
            Seq::empty()
        }
    }
}

proof fn lemma_unvisited_le_len(h: Seq<&SbomWithRank>, v: Seq<Seq<char>>)
    ensures
        unvisited(h, v) <= h.len(),
    decreases h.len(),
{
    if h.len() > 0 {
        lemma_unvisited_le_len(h.drop_last(), v);
    }
}

impl SbomCorrelation {
    /// The report of the hierarchies: for each non-empty one, the hierarchy
    /// node of its first SBOM (see `tree`).
    pub fn hierarchies_to_json(&self, hierarchies: &[Vec<&SbomWithRank>]) -> (r: HierarchyJsonOutput)
        ensures
            node_views(r.items@) == json_items(hierarchies@),
    {
        let mut items: Vec<HierarchyNode> = Vec::new();
        let mut i: usize = 0;
        while i < hierarchies.len()
            invariant
                i <= hierarchies@.len(),
                node_views(items@) == json_items(hierarchies@.take(i as int)),
            decreases hierarchies@.len() - i,
        {
            assert(hierarchies@.take(i + 1).drop_last() =~= hierarchies@.take(i as int));
            let ghost old_items = node_views(items@);
            if hierarchies[i].len() > 0 {
                let h = hierarchies[i].as_slice();
                let root = h[0];
                let mut visited: Vec<String> = Vec::new();
                let json_node = self.build_hierarchy_node(root, h, &mut visited);
                proof {
                    let v0 = strs(Seq::<String>::empty());
                    assert(v0 =~= Seq::<Seq<char>>::empty());
                    lemma_unvisited_le_len(h@, v0.push(serial(root.sbom)));
                    assert(tree((h@.len() + 1) as nat, *root, h@, v0).0 == json_node.node_view());
                }
                items.push(json_node);
                assert(node_views(items@) =~= old_items.push(json_node.node_view()));
            } else {
                assert(node_views(items@) =~= old_items + Seq::<NodeView>::empty());
            }
            i += 1;
        }
        assert(hierarchies@.take(hierarchies@.len() as int) =~= hierarchies@);
        HierarchyJsonOutput { items }
    }
}

} // verus!
