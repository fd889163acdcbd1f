//! The package/class tree: symbol information from one or more bytecode
//! files merged into a single hierarchical, deobfuscated, statistics-bearing
//! tree.
//!
//! The tree is modelled twice: executable nodes ([`PackageNode`]) own their
//! children top-down through the children vector, and a mathematical model
//! ([`SpecNode`]) over sequences and character views is what every contract
//! speaks about. Aggregate counters are always derived by bottom-up
//! summation, never stored, so they cannot drift from the class data.

use crate::counts::{lemma_sat_absorb, sat_add_u64, sat_u64};
use crate::dex::{DexClass, DexFile};
use crate::names::{
    lemma_lex_le_total, lemma_lex_le_trans, lex_le, spec_split, split_name, str_lex_le, strs_view,
};
use crate::symbols::{count_for_class, ProguardMap, ProguardUsagesMap};
use vstd::prelude::*;

verus! {

// ---------------------------------------------------------------------------
// Mathematical model
// ---------------------------------------------------------------------------

/// Model of one class leaf: declared and referenced member counts plus the
/// identifier of the bytecode file it came from.
pub struct SpecClass {
    pub declared_methods: int,
    pub declared_fields: int,
    pub referenced_methods: int,
    pub referenced_fields: int,
    pub file_id: Seq<char>,
}

/// Model of a node's variant: an interior package or a class leaf.
pub enum SpecKind {
    Package,
    Class(SpecClass),
}

/// Model of one tree node.
pub struct SpecNode {
    pub name: Seq<char>,
    pub kind: SpecKind,
    pub children: Seq<SpecNode>,
}

/// The root every build starts from: a package named `root` with no
/// children.
pub open spec fn spec_initial_root() -> SpecNode {
    SpecNode { name: "root"@, kind: SpecKind::Package, children: Seq::empty() }
}

/// Index of the first child named `name`, or the length when there is none.
pub open spec fn snode_index(s: Seq<SpecNode>, name: Seq<char>) -> int
    decreases s.len(),
{
    if s.len() == 0 {
        0
    } else if s[0].name == name {
        0
    } else {
        1 + snode_index(s.drop_first(), name)
    }
}

/// `snode_index` points at the first child with the given name.
pub proof fn lemma_snode_index(s: Seq<SpecNode>, name: Seq<char>)
    ensures
        0 <= snode_index(s, name) <= s.len(),
        snode_index(s, name) < s.len() ==> s[snode_index(s, name)].name == name,
        forall|k: int| 0 <= k < snode_index(s, name) ==> s[k].name != name,
    decreases s.len(),
{
    if s.len() != 0 && s[0].name != name {
        lemma_snode_index(s.drop_first(), name);
        assert forall|k: int| 0 <= k < snode_index(s, name) implies s[k].name != name by {
            if k > 0 {
                assert(s.drop_first()[k - 1] == s[k]);
            }
        }
        if snode_index(s, name) < s.len() {
            assert(s.drop_first()[snode_index(s.drop_first(), name)] == s[snode_index(s, name)]);
        }
    }
}

/// One class inserted along its segment path, starting at segment `i`. The
/// final segment names the class leaf; every earlier segment names a package
/// level, reusing an existing package child or creating a missing one.
/// Returns the updated node and whether the class was a duplicate: a node
/// with the leaf's name already present at the final level, or a class node
/// standing where a package level is needed. Duplicates follow the
/// first-occurrence-wins policy: the tree is returned unchanged.
pub open spec fn spec_insert(n: SpecNode, segs: Seq<Seq<char>>, i: int, stats: SpecClass) -> (
    SpecNode,
    bool,
)
    decreases segs.len() - i,
{
    if i >= segs.len() - 1 {
        let leaf = segs[segs.len() - 1];
        let j = snode_index(n.children, leaf);
        if j < n.children.len() {
            (n, true)
        } else {
            (
                SpecNode {
                    name: n.name,
                    kind: n.kind,
                    children: n.children.push(
                        SpecNode { name: leaf, kind: SpecKind::Class(stats), children: Seq::empty() },
                    ),
                },
                false,
            )
        }
    } else {
        let seg = segs[i];
        let j = snode_index(n.children, seg);
        if j < n.children.len() {
            if n.children[j].kind is Package {
                let res = spec_insert(n.children[j], segs, i + 1, stats);
                (
                    SpecNode { name: n.name, kind: n.kind, children: n.children.update(j, res.0) },
                    res.1,
                )
            } else {
                (n, true)
            }
        } else {
            let res = spec_insert(
                SpecNode { name: seg, kind: SpecKind::Package, children: Seq::empty() },
                segs,
                i + 1,
                stats,
            );
            (SpecNode { name: n.name, kind: n.kind, children: n.children.push(res.0) }, res.1)
        }
    }
}

/// A well-formed tree: children carry unique names, class leaves have no
/// children, and every subtree is well-formed in turn. Every non-root node
/// has exactly one parent because the only ownership is the children
/// sequence.
pub open spec fn wf_snode(n: SpecNode) -> bool
    decreases n,
{
    &&& (n.kind is Class ==> n.children.len() == 0)
    &&& (forall|a: int, b: int|
        0 <= a < b < n.children.len() ==> n.children[a].name != n.children[b].name)
    &&& (forall|i: int| 0 <= i < n.children.len() ==> wf_snode(#[trigger] n.children[i]))
}

/// Law: inserting a class into a well-formed package node yields a
/// well-formed node with its own name and variant untouched.
pub proof fn lemma_insert_wf(n: SpecNode, segs: Seq<Seq<char>>, i: int, stats: SpecClass)
    requires
        wf_snode(n),
        n.kind is Package,
        0 <= i < segs.len(),
    ensures
        wf_snode(spec_insert(n, segs, i, stats).0),
        spec_insert(n, segs, i, stats).0.name == n.name,
        spec_insert(n, segs, i, stats).0.kind == n.kind,
    decreases segs.len() - i,
{
    let res = spec_insert(n, segs, i, stats);
    if i >= segs.len() - 1 {
        let leaf = segs[segs.len() - 1];
        lemma_snode_index(n.children, leaf);
        let j = snode_index(n.children, leaf);
        if j >= n.children.len() {
            let child = SpecNode { name: leaf, kind: SpecKind::Class(stats), children: Seq::empty() };
            let t = n.children.push(child);
            assert(wf_snode(child));
            assert forall|a: int, b: int|
                0 <= a < b < t.len() implies t[a].name != t[b].name by {
                if b < n.children.len() {
                    assert(t[a] == n.children[a] && t[b] == n.children[b]);
                } else {
                    assert(t[b] == child && t[a] == n.children[a]);
                }
            }
            assert forall|k: int| 0 <= k < t.len() implies wf_snode(#[trigger] t[k]) by {
                if k < n.children.len() {
                    assert(t[k] == n.children[k]);
                } else {
                    assert(t[k] == child);
                }
            }
        }
    } else {
        let seg = segs[i];
        lemma_snode_index(n.children, seg);
        let j = snode_index(n.children, seg);
        if j < n.children.len() {
            if n.children[j].kind is Package {
                lemma_insert_wf(n.children[j], segs, i + 1, stats);
                let c2 = spec_insert(n.children[j], segs, i + 1, stats).0;
                let t = n.children.update(j, c2);
                assert forall|a: int, b: int|
                    0 <= a < b < t.len() implies t[a].name != t[b].name by {
                    assert(t[a].name == n.children[a].name);
                    assert(t[b].name == n.children[b].name);
                }
                assert forall|k: int| 0 <= k < t.len() implies wf_snode(#[trigger] t[k]) by {
                    if k != j {
                        assert(t[k] == n.children[k]);
                    }
                }
            }
        } else {
            let fresh = SpecNode { name: seg, kind: SpecKind::Package, children: Seq::empty() };
            assert(wf_snode(fresh));
            lemma_insert_wf(fresh, segs, i + 1, stats);
            let c2 = spec_insert(fresh, segs, i + 1, stats).0;
            let t = n.children.push(c2);
            assert forall|a: int, b: int|
                0 <= a < b < t.len() implies t[a].name != t[b].name by {
                if b < n.children.len() {
                    assert(t[a] == n.children[a] && t[b] == n.children[b]);
                } else {
                    assert(t[b] == c2 && t[a] == n.children[a]);
                }
            }
            assert forall|k: int| 0 <= k < t.len() implies wf_snode(#[trigger] t[k]) by {
                if k < n.children.len() {
                    assert(t[k] == n.children[k]);
                } else {
                    assert(t[k] == c2);
                }
            }
        }
    }
}

/// The class-leaf model of one declared class resolved to `resolved`:
/// declared counts from its own symbol table, referenced counts from the
/// usage record (zero when nothing was recorded).
pub open spec fn spec_class_stats(
    class: DexClass,
    resolved: Seq<char>,
    usages: ProguardUsagesMap,
    file_id: Seq<char>,
) -> SpecClass {
    SpecClass {
        declared_methods: class.methods@.len() as int,
        declared_fields: class.fields@.len() as int,
        referenced_methods: count_for_class(usages.spec_methods(), resolved),
        referenced_fields: count_for_class(usages.spec_fields(), resolved),
        file_id: file_id,
    }
}

/// One class merged into the tree: its name is resolved through the rename
/// table (pass-through when absent), split at dots, and inserted. An empty
/// resolved name cannot be decomposed and yields the invalid-class outcome
/// with the tree unchanged; a duplicate yields a warning carrying the
/// resolved name and the file identifier.
pub open spec fn spec_add_class(
    root: SpecNode,
    class: DexClass,
    renames: ProguardMap,
    usages: ProguardUsagesMap,
    file_id: Seq<char>,
) -> (SpecNode, Option<(Seq<char>, Seq<char>)>, Option<Seq<char>>) {
    let resolved = renames.spec_resolve_class(class.name@);
    if resolved.len() == 0 {
        (root, None, Some(file_id))
    } else {
        let res = spec_insert(
            root,
            spec_split(resolved),
            0,
            spec_class_stats(class, resolved, usages, file_id),
        );
        if res.1 {
            (res.0, Some((resolved, file_id)), None)
        } else {
            (res.0, None, None)
        }
    }
}

/// Law: merging one class keeps a well-formed package node well-formed,
/// with its own name and variant untouched.
pub proof fn lemma_add_class_wf(
    root: SpecNode,
    class: DexClass,
    renames: ProguardMap,
    usages: ProguardUsagesMap,
    file_id: Seq<char>,
)
    requires
        wf_snode(root),
        root.kind is Package,
    ensures
        wf_snode(spec_add_class(root, class, renames, usages, file_id).0),
        spec_add_class(root, class, renames, usages, file_id).0.name == root.name,
        spec_add_class(root, class, renames, usages, file_id).0.kind == root.kind,
{
    let resolved = renames.spec_resolve_class(class.name@);
    if resolved.len() != 0 {
        crate::names::lemma_split_len(resolved);
        lemma_insert_wf(
            root,
            spec_split(resolved),
            0,
            spec_class_stats(class, resolved, usages, file_id),
        );
    }
}

/// An optional outcome as a run of zero or one entries.
pub open spec fn opt_seq<A>(o: Option<A>) -> Seq<A> {
    match o {
        Some(x) => seq![x],
        None => Seq::empty(),
    }
}

/// The classes of one file merged in declaration order from index `i` on,
/// with the duplicate warnings and invalid-name outcomes collected in
/// order. One malformed class does not stop the rest of the file.
pub open spec fn spec_add_classes(
    root: SpecNode,
    classes: Seq<DexClass>,
    i: int,
    renames: ProguardMap,
    usages: ProguardUsagesMap,
    file_id: Seq<char>,
) -> (SpecNode, Seq<(Seq<char>, Seq<char>)>, Seq<Seq<char>>)
    decreases classes.len() - i,
{
    if i >= classes.len() {
        (root, Seq::empty(), Seq::empty())
    } else {
        let one = spec_add_class(root, classes[i], renames, usages, file_id);
        let rest = spec_add_classes(one.0, classes, i + 1, renames, usages, file_id);
        (rest.0, opt_seq(one.1) + rest.1, opt_seq(one.2) + rest.2)
    }
}

/// Law: merging a run of classes keeps a well-formed package node
/// well-formed, with its own name and variant untouched.
pub proof fn lemma_add_classes_wf(
    root: SpecNode,
    classes: Seq<DexClass>,
    i: int,
    renames: ProguardMap,
    usages: ProguardUsagesMap,
    file_id: Seq<char>,
)
    requires
        wf_snode(root),
        root.kind is Package,
    ensures
        wf_snode(spec_add_classes(root, classes, i, renames, usages, file_id).0),
        spec_add_classes(root, classes, i, renames, usages, file_id).0.name == root.name,
        spec_add_classes(root, classes, i, renames, usages, file_id).0.kind == root.kind,
    decreases classes.len() - i,
{
    if i < classes.len() {
        lemma_add_class_wf(root, classes[i], renames, usages, file_id);
        lemma_add_classes_wf(
            spec_add_class(root, classes[i], renames, usages, file_id).0,
            classes,
            i + 1,
            renames,
            usages,
            file_id,
        );
    }
}

/// All files merged in caller-supplied order from index `i` on.
pub open spec fn spec_build_from(
    root: SpecNode,
    dexes: Seq<DexFile>,
    i: int,
    renames: ProguardMap,
    usages: ProguardUsagesMap,
) -> (SpecNode, Seq<(Seq<char>, Seq<char>)>, Seq<Seq<char>>)
    decreases dexes.len() - i,
{
    if i >= dexes.len() {
        (root, Seq::empty(), Seq::empty())
    } else {
        let one = spec_add_classes(root, dexes[i].classes@, 0, renames, usages, dexes[i].id@);
        let rest = spec_build_from(one.0, dexes, i + 1, renames, usages);
        (rest.0, one.1 + rest.1, one.2 + rest.2)
    }
}

/// Law: merging a run of files keeps a well-formed package node
/// well-formed, with its own name and variant untouched.
pub proof fn lemma_build_from_wf(
    root: SpecNode,
    dexes: Seq<DexFile>,
    i: int,
    renames: ProguardMap,
    usages: ProguardUsagesMap,
)
    requires
        wf_snode(root),
        root.kind is Package,
    ensures
        wf_snode(spec_build_from(root, dexes, i, renames, usages).0),
        spec_build_from(root, dexes, i, renames, usages).0.name == root.name,
        spec_build_from(root, dexes, i, renames, usages).0.kind == root.kind,
    decreases dexes.len() - i,
{
    if i < dexes.len() {
        lemma_add_classes_wf(root, dexes[i].classes@, 0, renames, usages, dexes[i].id@);
        lemma_build_from_wf(
            spec_add_classes(root, dexes[i].classes@, 0, renames, usages, dexes[i].id@).0,
            dexes,
            i + 1,
            renames,
            usages,
        );
    }
}

/// Law: every built tree is well-formed — children carry unique names and
/// class leaves have no children — and its root is still the package named
/// `root`.
pub proof fn lemma_build_wf(dexes: Seq<DexFile>, renames: ProguardMap, usages: ProguardUsagesMap)
    ensures
        wf_snode(spec_build(dexes, renames, usages).0),
        spec_build(dexes, renames, usages).0.name == "root"@,
        spec_build(dexes, renames, usages).0.kind is Package,
{
    assert(wf_snode(spec_initial_root()));
    lemma_build_from_wf(spec_initial_root(), dexes, 0, renames, usages);
}

/// The whole build: every file's classes merged into a fresh root.
pub open spec fn spec_build(
    dexes: Seq<DexFile>,
    renames: ProguardMap,
    usages: ProguardUsagesMap,
) -> (SpecNode, Seq<(Seq<char>, Seq<char>)>, Seq<Seq<char>>) {
    spec_build_from(spec_initial_root(), dexes, 0, renames, usages)
}

/// Derived aggregate: a class leaf contributes its declared method count,
/// a package the sum over its children.
pub open spec fn spec_node_methods(n: SpecNode) -> int
    decreases n,
{
    match n.kind {
        SpecKind::Class(c) => c.declared_methods,
        SpecKind::Package => spec_seq_methods(n.children),
    }
}

/// Sum of `spec_node_methods` over a run of nodes.
pub open spec fn spec_seq_methods(s: Seq<SpecNode>) -> int
    decreases s,
{
    if s.len() == 0 {
        0
    } else {
        spec_node_methods(s[0]) + spec_seq_methods(s.drop_first())
    }
}

/// Derived aggregate: declared field counts rolled up bottom-up.
pub open spec fn spec_node_fields(n: SpecNode) -> int
    decreases n,
{
    match n.kind {
        SpecKind::Class(c) => c.declared_fields,
        SpecKind::Package => spec_seq_fields(n.children),
    }
}

/// Sum of `spec_node_fields` over a run of nodes.
pub open spec fn spec_seq_fields(s: Seq<SpecNode>) -> int
    decreases s,
{
    if s.len() == 0 {
        0
    } else {
        spec_node_fields(s[0]) + spec_seq_fields(s.drop_first())
    }
}

/// The metric `largest_children` ranks by.
#[derive(Clone, Copy, PartialEq, Eq, Structural, Debug)]
pub enum SizeMetric {
    MethodCount,
    FieldCount,
}

/// A node's saturated aggregate under the chosen metric.
pub open spec fn spec_metric(m: SizeMetric, n: SpecNode) -> u64 {
    match m {
        SizeMetric::MethodCount => sat_u64(spec_node_methods(n)),
        SizeMetric::FieldCount => sat_u64(spec_node_fields(n)),
    }
}

/// Ranking order: descending by the chosen metric, ties broken by name in
/// ascending lexicographic order for determinism.
pub open spec fn ranked_before(m: SizeMetric, a: SpecNode, b: SpecNode) -> bool {
    spec_metric(m, a) > spec_metric(m, b) || (spec_metric(m, a) == spec_metric(m, b) && lex_le(
        a.name,
        b.name,
    ))
}

/// The ranking order is total.
pub proof fn lemma_ranked_before_total(m: SizeMetric, a: SpecNode, b: SpecNode)
    ensures
        ranked_before(m, a, b) || ranked_before(m, b, a),
{
    lemma_lex_le_total(a.name, b.name);
}

/// The ranking order is transitive.
pub proof fn lemma_ranked_before_trans(m: SizeMetric, a: SpecNode, b: SpecNode, c: SpecNode)
    requires
        ranked_before(m, a, b),
        ranked_before(m, b, c),
    ensures
        ranked_before(m, a, c),
{
    if spec_metric(m, a) == spec_metric(m, b) && spec_metric(m, b) == spec_metric(m, c) {
        lemma_lex_le_trans(a.name, b.name, c.name);
    }
}

/// Descent along package-path segments from segment `i` on: the node itself
/// when the path is exhausted, otherwise recursion into the child named by
/// the next segment.
pub open spec fn spec_find(n: SpecNode, path: Seq<Seq<char>>, i: int) -> Option<SpecNode>
    decreases path.len() - i,
{
    if i >= path.len() {
        Some(n)
    } else {
        let j = snode_index(n.children, path[i]);
        if j < n.children.len() {
            spec_find(n.children[j], path, i + 1)
        } else {
            None
        }
    }
}

// ---------------------------------------------------------------------------
// Executable tree
// ---------------------------------------------------------------------------

/// Per-class data carried by a class leaf: declared method and field counts
/// from the class's own symbol table, referenced counts from the usage
/// record, and the originating bytecode file identifier.
#[derive(Debug)]
pub struct ClassStats {
    pub declared_methods: u64,
    pub declared_fields: u64,
    pub referenced_methods: u64,
    pub referenced_fields: u64,
    pub file_id: String,
}

impl View for ClassStats {
    type V = SpecClass;

    open spec fn view(&self) -> SpecClass {
        SpecClass {
            declared_methods: self.declared_methods as int,
            declared_fields: self.declared_fields as int,
            referenced_methods: self.referenced_methods as int,
            referenced_fields: self.referenced_fields as int,
            file_id: self.file_id@,
        }
    }
}

/// A node's variant: an interior package or a class leaf.
#[derive(Debug)]
pub enum NodeKind {
    Package,
    Class(ClassStats),
}

/// One node of the aggregated tree: a single path segment, its variant, and
/// its children in insertion order (unique names; class leaves have none).
/// The tree owns its nodes top-down through this vector.
#[derive(Debug)]
pub struct PackageNode {
    pub name: String,
    pub kind: NodeKind,
    pub children: Vec<PackageNode>,
}

/// The model of a node's variant.
pub open spec fn kind_view(k: NodeKind) -> SpecKind {
    match k {
        NodeKind::Package => SpecKind::Package,
        NodeKind::Class(s) => SpecKind::Class(s@),
    }
}

/// The model of one executable node.
pub open spec fn node_view(n: PackageNode) -> SpecNode
    decreases n,
{
    SpecNode { name: n.name@, kind: kind_view(n.kind), children: nodes_view(n.children@) }
}

/// The models of a run of executable nodes.
pub open spec fn nodes_view(s: Seq<PackageNode>) -> Seq<SpecNode>
    decreases s,
{
    if s.len() == 0 {
        Seq::empty()
    } else {
        seq![node_view(s[0])] + nodes_view(s.drop_first())
    }
}

impl View for PackageNode {
    type V = SpecNode;

    open spec fn view(&self) -> SpecNode {
        node_view(*self)
    }
}

/// `nodes_view` maps the sequence pointwise.
pub proof fn lemma_nodes_view(s: Seq<PackageNode>)
    ensures
        nodes_view(s).len() == s.len(),
        forall|i: int| 0 <= i < s.len() ==> nodes_view(s)[i] == node_view(s[i]),
    decreases s.len(),
{
    if s.len() != 0 {
        lemma_nodes_view(s.drop_first());
        assert forall|i: int| 0 <= i < s.len() implies nodes_view(s)[i] == node_view(s[i]) by {
            if i > 0 {
                assert(s.drop_first()[i - 1] == s[i]);
                assert(nodes_view(s)[i] == nodes_view(s.drop_first())[i - 1]);
            }
        }
    }
}

/// Appending an executable node appends its model.
pub proof fn lemma_nodes_view_push(s: Seq<PackageNode>, x: PackageNode)
    ensures
        nodes_view(s.push(x)) == nodes_view(s).push(node_view(x)),
{
    lemma_nodes_view(s);
    lemma_nodes_view(s.push(x));
    assert(nodes_view(s.push(x)) =~= nodes_view(s).push(node_view(x)));
}

/// Replacing an executable node replaces its model.
pub proof fn lemma_nodes_view_update(s: Seq<PackageNode>, j: int, x: PackageNode)
    requires
        0 <= j < s.len(),
    ensures
        nodes_view(s.update(j, x)) == nodes_view(s).update(j, node_view(x)),
{
    lemma_nodes_view(s);
    lemma_nodes_view(s.update(j, x));
    assert(nodes_view(s.update(j, x)) =~= nodes_view(s).update(j, node_view(x)));
}

/// Every derived aggregate of a modelled node is non-negative.
pub proof fn lemma_view_totals_nonneg(n: PackageNode)
    ensures
        spec_node_methods(node_view(n)) >= 0,
        spec_node_fields(node_view(n)) >= 0,
    decreases n,
{
    lemma_seq_totals_nonneg(n.children@);
}

/// Sums of derived aggregates over modelled children are non-negative.
pub proof fn lemma_seq_totals_nonneg(s: Seq<PackageNode>)
    ensures
        spec_seq_methods(nodes_view(s)) >= 0,
        spec_seq_fields(nodes_view(s)) >= 0,
        forall|i: int|
            0 <= i < s.len() ==> spec_node_methods(node_view(s[i])) >= 0 && spec_node_fields(
                node_view(s[i]),
            ) >= 0,
    decreases s,
{
    lemma_nodes_view(s);
    if s.len() != 0 {
        lemma_view_totals_nonneg(s[0]);
        lemma_seq_totals_nonneg(s.drop_first());
        assert(nodes_view(s)[0] == node_view(s[0]));
        assert(nodes_view(s).drop_first() =~= nodes_view(s.drop_first()));
        assert forall|i: int|
            0 <= i < s.len() implies spec_node_methods(node_view(s[i])) >= 0 && spec_node_fields(
            node_view(s[i]),
        ) >= 0 by {
            if i > 0 {
                assert(s.drop_first()[i - 1] == s[i]);
            }
        }
    }
}

/// Index of the first child named `name`, scanning in insertion order;
/// `None` when no child carries that name.
fn find_child(children: &Vec<PackageNode>, name: &String) -> (r: Option<usize>)
    ensures
        match r {
            Some(j) => j < children@.len() && snode_index(nodes_view(children@), name@) == j,
            None => snode_index(nodes_view(children@), name@) == nodes_view(children@).len(),
        },
{
    let n = children.len();
    let mut i: usize = 0;
    while i < n
        invariant
            n == children@.len(),
            i <= n,
            forall|k: int| 0 <= k < i ==> children@[k].name@ != name@,
        decreases n - i,
    {
        if children[i].name == *name {
            proof {
                lemma_nodes_view(children@);
                let sv = nodes_view(children@);
                assert forall|k: int| 0 <= k < n implies sv[k].name == children@[k].name@ by {
                    assert(sv[k] == node_view(children@[k]));
                }
                lemma_snode_index(sv, name@);
                let si = snode_index(sv, name@);
                assert(sv[i as int].name == name@);
                if si < i {
                    assert(sv[si].name == name@);
                    assert(children@[si].name@ != name@);
                    assert(false);
                }
                if si > i {
                    assert(sv[i as int].name != name@);
                    assert(false);
                }
            }
            return Some(i);
        }
        i += 1;
    }
    proof {
        lemma_nodes_view(children@);
        lemma_snode_index(nodes_view(children@), name@);
        assert forall|k: int| 0 <= k < n implies nodes_view(children@)[k].name
            == children@[k].name@ by {
            assert(nodes_view(children@)[k] == node_view(children@[k]));
        }
    }
    None
}

/// Inserts one class along its segment path, starting at segment `i`;
/// returns the updated node and whether the class was a duplicate (tree
/// unchanged, first occurrence wins).
fn insert_rec(node: PackageNode, segs: &Vec<String>, i: usize, stats: ClassStats) -> (r: (
    PackageNode,
    bool,
))
    requires
        i < segs@.len(),
    ensures
        (r.0@, r.1) == spec_insert(node@, strs_view(segs@), i as int, stats@),
    decreases segs@.len() - i,
{
    let mut node = node;
    let last = segs.len() - 1;
    if i >= last {
        let leaf = &segs[last];
        match find_child(&node.children, leaf) {
            Some(_) => {
                proof {
                    lemma_nodes_view(node.children@);
                }
                (node, true)
            },
            None => {
                let child = PackageNode {
                    name: leaf.clone(),
                    kind: NodeKind::Class(stats),
                    children: Vec::new(),
                };
                proof {
                    lemma_nodes_view(node.children@);
                    lemma_nodes_view_push(node.children@, child);
                }
                node.children.push(child);
                (node, false)
            },
        }
    } else {
        let seg = &segs[i];
        match find_child(&node.children, seg) {
            Some(j) => {
                proof {
                    lemma_nodes_view(node.children@);
                }
                let is_package = match &node.children[j].kind {
                    NodeKind::Package => true,
                    NodeKind::Class(_) => false,
                };
                if is_package {
                    let ghost orig = node.children@;
                    let child = node.children.remove(j);
                    let (child2, dup) = insert_rec(child, segs, i + 1, stats);
                    node.children.insert(j, child2);
                    proof {
                        assert(node.children@ =~= orig.update(j as int, child2));
                        lemma_nodes_view_update(orig, j as int, child2);
                    }
                    (node, dup)
                } else {
                    (node, true)
                }
            },
            None => {
                let fresh = PackageNode {
                    name: seg.clone(),
                    kind: NodeKind::Package,
                    children: Vec::new(),
                };
                let (child2, dup) = insert_rec(fresh, segs, i + 1, stats);
                proof {
                    lemma_nodes_view_push(node.children@, child2);
                }
                node.children.push(child2);
                (node, dup)
            },
        }
    }
}

impl PackageNode {
    /// A fresh interior package node with no children.
    pub fn new_package(name: String) -> (r: PackageNode)
        ensures
            r@ == (SpecNode { name: name@, kind: SpecKind::Package, children: Seq::empty() }),
    {
        PackageNode { name, kind: NodeKind::Package, children: Vec::new() }
    }

    /// Whole-subtree declared method count, derived bottom-up and saturated
    /// at `u64::MAX`.
    pub fn total_method_count(&self) -> (r: u64)
        ensures
            r == sat_u64(spec_node_methods(self@)),
        decreases *self,
    {
        match &self.kind {
            NodeKind::Class(s) => s.declared_methods,
            NodeKind::Package => {
                let mut total: u64 = 0;
                let n = self.children.len();
                let mut i: usize = 0;
                proof {
                    assert(nodes_view(self.children@).skip(0) =~= nodes_view(self.children@));
                }
                while i < n
                    invariant
                        n == self.children@.len(),
                        i <= n,
                        spec_seq_methods(nodes_view(self.children@)) - spec_seq_methods(
                            nodes_view(self.children@).skip(i as int),
                        ) >= 0,
                        total == sat_u64(
                            spec_seq_methods(nodes_view(self.children@)) - spec_seq_methods(
                                nodes_view(self.children@).skip(i as int),
                            ),
                        ),
                    decreases n - i,
                {
                    proof {
                        lemma_nodes_view(self.children@);
                        lemma_seq_totals_nonneg(self.children@);
                        let sv = nodes_view(self.children@);
                        assert(sv.skip(i as int)[0] == sv[i as int]);
                        assert(sv.skip(i as int).drop_first() =~= sv.skip(i as int + 1));
                        lemma_sat_absorb(
                            spec_seq_methods(sv) - spec_seq_methods(sv.skip(i as int)),
                            spec_node_methods(sv[i as int]),
                        );
                    }
                    let c = self.children[i].total_method_count();
                    total = sat_add_u64(total, c);
                    i += 1;
                }
                proof {
                    lemma_nodes_view(self.children@);
                    assert(nodes_view(self.children@).skip(n as int) =~= Seq::<SpecNode>::empty());
                }
                total
            },
        }
    }

    /// Whole-subtree declared field count, derived bottom-up and saturated
    /// at `u64::MAX`.
    pub fn total_field_count(&self) -> (r: u64)
        ensures
            r == sat_u64(spec_node_fields(self@)),
        decreases *self,
    {
        match &self.kind {
            NodeKind::Class(s) => s.declared_fields,
            NodeKind::Package => {
                let mut total: u64 = 0;
                let n = self.children.len();
                let mut i: usize = 0;
                proof {
                    assert(nodes_view(self.children@).skip(0) =~= nodes_view(self.children@));
                }
                while i < n
                    invariant
                        n == self.children@.len(),
                        i <= n,
                        spec_seq_fields(nodes_view(self.children@)) - spec_seq_fields(
                            nodes_view(self.children@).skip(i as int),
                        ) >= 0,
                        total == sat_u64(
                            spec_seq_fields(nodes_view(self.children@)) - spec_seq_fields(
                                nodes_view(self.children@).skip(i as int),
                            ),
                        ),
                    decreases n - i,
                {
                    proof {
                        lemma_nodes_view(self.children@);
                        lemma_seq_totals_nonneg(self.children@);
                        let sv = nodes_view(self.children@);
                        assert(sv.skip(i as int)[0] == sv[i as int]);
                        assert(sv.skip(i as int).drop_first() =~= sv.skip(i as int + 1));
                        lemma_sat_absorb(
                            spec_seq_fields(sv) - spec_seq_fields(sv.skip(i as int)),
                            spec_node_fields(sv[i as int]),
                        );
                    }
                    let c = self.children[i].total_field_count();
                    total = sat_add_u64(total, c);
                    i += 1;
                }
                proof {
                    lemma_nodes_view(self.children@);
                    assert(nodes_view(self.children@).skip(n as int) =~= Seq::<SpecNode>::empty());
                }
                total
            },
        }
    }

    /// Whether this node ranks at or before `other` under `metric`.
    pub fn ranked_before(&self, metric: SizeMetric, other: &PackageNode) -> (r: bool)
        ensures
            r == ranked_before(metric, self@, other@),
    {
        let (ka, kb) = match metric {
            SizeMetric::MethodCount => (self.total_method_count(), other.total_method_count()),
            SizeMetric::FieldCount => (self.total_field_count(), other.total_field_count()),
        };
        if ka > kb {
            true
        } else if ka < kb {
            false
        } else {
            str_lex_le(self.name.as_str(), other.name.as_str())
        }
    }

    /// The indices of this node's `limit` largest children: descending by
    /// the chosen metric, ties broken by name. Every child left out ranks at
    /// or after every child chosen. Re-querying recomputes; the tree is not
    /// consumed.
    pub fn largest_children(&self, metric: SizeMetric, limit: usize) -> (r: Vec<usize>)
        ensures
            r@.len() == (if limit <= self.children@.len() {
                limit as int
            } else {
                self.children@.len() as int
            }),
            forall|t: int| 0 <= t < r@.len() ==> r@[t] < self.children@.len(),
            forall|a: int, b: int| 0 <= a < b < r@.len() ==> r@[a] != r@[b],
            forall|a: int, b: int|
                0 <= a < b < r@.len() ==> ranked_before(
                    metric,
                    node_view(self.children@[r@[a] as int]),
                    node_view(self.children@[r@[b] as int]),
                ),
            forall|c: int|
                #![trigger self.children@[c]]
                0 <= c < self.children@.len() && !r@.contains(c as usize) ==> forall|t: int|
                    #![trigger r@[t]]
                    0 <= t < r@.len() ==> ranked_before(
                        metric,
                        node_view(self.children@[r@[t] as int]),
                        node_view(self.children@[c]),
                    ),
    {
        let n = self.children.len();
        let mut rest: Vec<usize> = Vec::new();
        let mut i: usize = 0;
        while i < n
            invariant
                i <= n,
                rest@.len() == i,
                forall|t: int| 0 <= t < i ==> rest@[t] == t,
            decreases n - i,
        {
            rest.push(i);
            i += 1;
        }
        let mut out: Vec<usize> = Vec::new();
        proof {
            assert forall|c: int|
                #![trigger rest@.contains(c as usize)]
                0 <= c < n implies rest@.contains(c as usize) by {
                assert(rest@[c] == c as usize);
            }
        }
        while out.len() < limit && rest.len() > 0
            invariant
                n == self.children@.len(),
                out@.len() + rest@.len() == n,
                out@.len() <= limit,
                forall|t: int| 0 <= t < rest@.len() ==> rest@[t] < n,
                forall|t: int| 0 <= t < out@.len() ==> out@[t] < n,
                forall|a: int, b: int| 0 <= a < b < rest@.len() ==> rest@[a] != rest@[b],
                forall|a: int, b: int| 0 <= a < b < out@.len() ==> out@[a] != out@[b],
                forall|a: int, b: int|
                    0 <= a < out@.len() && 0 <= b < rest@.len() ==> out@[a] != rest@[b],
                forall|c: int|
                    #![trigger rest@.contains(c as usize)]
                    0 <= c < n ==> rest@.contains(c as usize) || out@.contains(c as usize),
                forall|a: int, b: int|
                    0 <= a < b < out@.len() ==> ranked_before(
                        metric,
                        node_view(self.children@[out@[a] as int]),
                        node_view(self.children@[out@[b] as int]),
                    ),
                forall|a: int, b: int|
                    0 <= a < out@.len() && 0 <= b < rest@.len() ==> ranked_before(
                        metric,
                        node_view(self.children@[out@[a] as int]),
                        node_view(self.children@[rest@[b] as int]),
                    ),
            decreases rest@.len(),
        {
            let m = rest.len();
            let mut bp: usize = 0;
            let mut k: usize = 1;
            proof {
                lemma_nodes_view(self.children@);
                lemma_ranked_before_total(
                    metric,
                    node_view(self.children@[rest@[0] as int]),
                    node_view(self.children@[rest@[0] as int]),
                );
            }
            while k < m
                invariant
                    n == self.children@.len(),
                    m == rest@.len(),
                    bp < m,
                    k <= m,
                    forall|t: int| 0 <= t < rest@.len() ==> rest@[t] < n,
                    forall|t: int|
                        0 <= t < k ==> ranked_before(
                            metric,
                            node_view(self.children@[rest@[bp as int] as int]),
                            node_view(self.children@[rest@[t] as int]),
                        ),
                decreases m - k,
            {
                let a = rest[k];
                let b = rest[bp];
                proof {
                    lemma_ranked_before_total(
                        metric,
                        node_view(self.children@[rest@[k as int] as int]),
                        node_view(self.children@[rest@[bp as int] as int]),
                    );
                }
                if !self.children[b].ranked_before(metric, &self.children[a]) {
                    proof {
                        assert forall|t: int|
                            0 <= t < k + 1 implies ranked_before(
                            metric,
                            node_view(self.children@[rest@[k as int] as int]),
                            node_view(self.children@[rest@[t] as int]),
                        ) by {
                            if t < k {
                                lemma_ranked_before_trans(
                                    metric,
                                    node_view(self.children@[rest@[k as int] as int]),
                                    node_view(self.children@[rest@[bp as int] as int]),
                                    node_view(self.children@[rest@[t] as int]),
                                );
                            } else {
                                lemma_ranked_before_total(
                                    metric,
                                    node_view(self.children@[rest@[k as int] as int]),
                                    node_view(self.children@[rest@[k as int] as int]),
                                );
                            }
                        }
                    }
                    bp = k;
                }
                k += 1;
            }
            let ghost pre_rest = rest@;
            let ghost pre_out = out@;
            let x = rest.remove(bp);
            out.push(x);
            proof {
                assert forall|c: int|
                    #![trigger rest@.contains(c as usize)]
                    0 <= c < n implies rest@.contains(c as usize) || out@.contains(c as usize) by {
                    if pre_rest.contains(c as usize) {
                        let w = choose|w: int| 0 <= w < pre_rest.len() && pre_rest[w] == c as usize;
                        if w == bp {
                            assert(out@[out@.len() - 1] == c as usize);
                            assert(out@.contains(c as usize));
                        } else if w < bp {
                            assert(rest@[w] == c as usize);
                            assert(rest@.contains(c as usize));
                        } else {
                            assert(rest@[w - 1] == c as usize);
                            assert(rest@.contains(c as usize));
                        }
                    } else {
                        let w = choose|w: int| 0 <= w < pre_out.len() && pre_out[w] == c as usize;
                        assert(out@[w] == c as usize);
                        assert(out@.contains(c as usize));
                    }
                }
            }
        }
        proof {
            assert forall|c: int|
                #![trigger self.children@[c]]
                0 <= c < self.children@.len() && !out@.contains(c as usize) implies forall|t: int|
                #![trigger out@[t]]
                0 <= t < out@.len() ==> ranked_before(
                    metric,
                    node_view(self.children@[out@[t] as int]),
                    node_view(self.children@[c]),
                ) by {
                assert(rest@.contains(c as usize));
                let w = choose|w: int| 0 <= w < rest@.len() && rest@[w] == c as usize;
                assert forall|t: int|
                    0 <= t < out@.len() implies ranked_before(
                    metric,
                    node_view(self.children@[out@[t] as int]),
                    node_view(self.children@[c]),
                ) by {
                    assert(ranked_before(
                        metric,
                        node_view(self.children@[out@[t] as int]),
                        node_view(self.children@[rest@[w] as int]),
                    ));
                }
            }
        }
        out
    }

    /// Descends by package-path segments; `None` when some segment names no
    /// child. Re-querying recomputes and never consumes tree state.
    pub fn find<'a>(&'a self, path: &Vec<String>) -> (r: Option<&'a PackageNode>)
        ensures
            match r {
                Some(n) => spec_find(self@, strs_view(path@), 0) == Some(n@),
                None => spec_find(self@, strs_view(path@), 0) is None,
            },
    {
        let mut cur: &PackageNode = self;
        let n = path.len();
        let mut i: usize = 0;
        while i < n
            invariant
                n == path@.len(),
                i <= n,
                spec_find(self@, strs_view(path@), 0) == spec_find(
                    cur@,
                    strs_view(path@),
                    i as int,
                ),
            decreases n - i,
        {
            match find_child(&cur.children, &path[i]) {
                Some(j) => {
                    proof {
                        lemma_nodes_view(cur.children@);
                    }
                    cur = &cur.children[j];
                },
                None => {
                    return None;
                },
            }
            i += 1;
        }
        Some(cur)
    }
}

// ---------------------------------------------------------------------------
// Builder
// ---------------------------------------------------------------------------

/// Non-fatal diagnostic: the same fully-qualified class (after renaming) was
/// seen again, and the first occurrence's data was kept. Duplication across
/// files is a data-quality signal the caller should see, not silently
/// resolved.
#[derive(Debug)]
pub struct DuplicateClassWarning {
    /// The resolved fully-qualified class name.
    pub class: String,
    /// The bytecode file whose occurrence was discarded.
    pub file: String,
}

/// Per-class failure collected during a build; the rest of the file's
/// classes are still attempted.
#[derive(Debug)]
pub enum TreeError {
    /// A class name resolved to the empty string and cannot be decomposed
    /// into tree-path segments; carries the file identifier.
    InvalidClassName { file: String },
}

impl TreeError {
    /// The file identifier the failure carries.
    pub open spec fn spec_file(self) -> Seq<char> {
        match self {
            TreeError::InvalidClassName { file } => file@,
        }
    }
}

/// The models of collected duplicate warnings.
pub open spec fn warns_view(s: Seq<DuplicateClassWarning>) -> Seq<(Seq<char>, Seq<char>)> {
    s.map_values(|w: DuplicateClassWarning| (w.class@, w.file@))
}

/// The models of collected per-class failures.
pub open spec fn errs_view(s: Seq<TreeError>) -> Seq<Seq<char>> {
    s.map_values(|e: TreeError| e.spec_file())
}

/// The views of a sequence of string pairs.
pub open spec fn str_pairs_view(s: Seq<(String, String)>) -> Seq<(Seq<char>, Seq<char>)> {
    s.map_values(|p: (String, String)| (p.0@, p.1@))
}

/// One class's members (methods or fields), each paired with the declaring
/// class's name.
pub open spec fn spec_class_members(c: DexClass, methods: bool) -> Seq<(Seq<char>, Seq<char>)> {
    (if methods {
        c.methods@
    } else {
        c.fields@
    }).map_values(|m: String| (c.name@, m@))
}

/// All `(class, member signature)` pairs of a run of classes from index `i`
/// on, in declaration order.
pub open spec fn spec_member_pairs(s: Seq<DexClass>, i: int, methods: bool) -> Seq<
    (Seq<char>, Seq<char>),
>
    decreases s.len() - i,
{
    if i >= s.len() {
        Seq::empty()
    } else {
        spec_class_members(s[i], methods) + spec_member_pairs(s, i + 1, methods)
    }
}

/// The durable output artifact: the aggregated tree plus the diagnostics
/// collected while building it.
#[derive(Debug)]
pub struct PackageTree {
    pub root: PackageNode,
    pub warnings: Vec<DuplicateClassWarning>,
    pub errors: Vec<TreeError>,
}

impl PackageTree {
    /// Whole-package declared method count at the root.
    pub fn total_method_count(&self) -> (r: u64)
        ensures
            r == sat_u64(spec_node_methods(self.root@)),
    {
        self.root.total_method_count()
    }

    /// Whole-package declared field count at the root.
    pub fn total_field_count(&self) -> (r: u64)
        ensures
            r == sat_u64(spec_node_fields(self.root@)),
    {
        self.root.total_field_count()
    }

    /// Descends from the root by package-path segments.
    pub fn find<'a>(&'a self, path: &Vec<String>) -> (r: Option<&'a PackageNode>)
        ensures
            match r {
                Some(n) => spec_find(self.root@, strs_view(path@), 0) == Some(n@),
                None => spec_find(self.root@, strs_view(path@), 0) is None,
            },
    {
        self.root.find(path)
    }
}

/// Merges symbol information from one or more bytecode files into one
/// hierarchical tree, optionally deobfuscating names through a rename table
/// and scoring referenced members through a usage record.
#[derive(Debug)]
pub struct PackageTreeCreator {
    proguard_map: ProguardMap,
    usages_map: ProguardUsagesMap,
}

impl PackageTreeCreator {
    /// The rename table this builder resolves names through.
    pub closed spec fn spec_renames(&self) -> ProguardMap {
        self.proguard_map
    }

    /// The usage record this builder scores referenced members from.
    pub closed spec fn spec_usages(&self) -> ProguardUsagesMap {
        self.usages_map
    }

    /// A builder without deobfuscation data: every name passes through
    /// unchanged and every referenced count is zero.
    pub fn new() -> (r: PackageTreeCreator)
        ensures
            r.spec_renames().spec_class_renames() == Seq::<(String, String)>::empty(),
            r.spec_renames().spec_member_renames() == Seq::<(String, String, String)>::empty(),
            r.spec_usages().spec_classes() == Seq::<String>::empty(),
            r.spec_usages().spec_methods() == Seq::<(String, String)>::empty(),
            r.spec_usages().spec_fields() == Seq::<(String, String)>::empty(),
    {
        PackageTreeCreator { proguard_map: ProguardMap::new(), usages_map: ProguardUsagesMap::new() }
    }

    /// A builder over a loaded rename table and usage record; both are only
    /// read during a build.
    pub fn with_maps(proguard_map: ProguardMap, usages_map: ProguardUsagesMap) -> (r:
        PackageTreeCreator)
        ensures
            r.spec_renames() == proguard_map,
            r.spec_usages() == usages_map,
    {
        PackageTreeCreator { proguard_map, usages_map }
    }

    /// Enumerates every `(class, method signature)` pair a file declares,
    /// class by class in declaration order.
    pub fn get_all_method(&self, dex: &DexFile) -> (r: Vec<(String, String)>)
        ensures
            str_pairs_view(r@) == spec_member_pairs(dex.classes@, 0, true),
    {
        Self::collect_members(dex, true)
    }

    /// Enumerates every `(class, field signature)` pair a file declares.
    pub fn get_all_field(&self, dex: &DexFile) -> (r: Vec<(String, String)>)
        ensures
            str_pairs_view(r@) == spec_member_pairs(dex.classes@, 0, false),
    {
        Self::collect_members(dex, false)
    }

    /// Enumerates the fully-qualified names of every class a file declares.
    pub fn get_all_type(&self, dex: &DexFile) -> (r: Vec<String>)
        ensures
            r@.len() == dex.classes@.len(),
            forall|i: int| 0 <= i < r@.len() ==> r@[i]@ == dex.classes@[i].name@,
    {
        let mut out: Vec<String> = Vec::new();
        let n = dex.classes.len();
        let mut i: usize = 0;
        while i < n
            invariant
                n == dex.classes@.len(),
                i <= n,
                out@.len() == i,
                forall|k: int| 0 <= k < i ==> out@[k]@ == dex.classes@[k].name@,
            decreases n - i,
        {
            out.push(dex.classes[i].name.clone());
            i += 1;
        }
        out
    }

    /// Walks one file's classes and collects either their method or their
    /// field signatures, paired with the declaring class's name.
    fn collect_members(dex: &DexFile, methods: bool) -> (r: Vec<(String, String)>)
        ensures
            str_pairs_view(r@) == spec_member_pairs(dex.classes@, 0, methods),
    {
        let mut out: Vec<(String, String)> = Vec::new();
        let n = dex.classes.len();
        let mut i: usize = 0;
        proof {
            assert(str_pairs_view(out@) + spec_member_pairs(dex.classes@, 0, methods)
                =~= spec_member_pairs(dex.classes@, 0, methods));
        }
        while i < n
            invariant
                n == dex.classes@.len(),
                i <= n,
                spec_member_pairs(dex.classes@, 0, methods) == str_pairs_view(out@)
                    + spec_member_pairs(dex.classes@, i as int, methods),
            decreases n - i,
        {
            let c = &dex.classes[i];
            let members = if methods {
                &c.methods
            } else {
                &c.fields
            };
            let ghost cls = spec_class_members(dex.classes@[i as int], methods);
            let m = members.len();
            let mut k: usize = 0;
            proof {
                assert(cls.skip(0) =~= cls);
                assert(str_pairs_view(out@) + (cls + spec_member_pairs(
                    dex.classes@,
                    i as int + 1,
                    methods,
                )) =~= (str_pairs_view(out@) + cls) + spec_member_pairs(
                    dex.classes@,
                    i as int + 1,
                    methods,
                ));
            }
            while k < m
                invariant
                    n == dex.classes@.len(),
                    i < n,
                    m == members@.len(),
                    k <= m,
                    *c == dex.classes@[i as int],
                    members@ == (if methods {
                        dex.classes@[i as int].methods@
                    } else {
                        dex.classes@[i as int].fields@
                    }),
                    cls == spec_class_members(dex.classes@[i as int], methods),
                    spec_member_pairs(dex.classes@, 0, methods) == (str_pairs_view(out@)
                        + cls.skip(k as int)) + spec_member_pairs(
                        dex.classes@,
                        i as int + 1,
                        methods,
                    ),
                decreases m - k,
            {
                let pair = (c.name.clone(), members[k].clone());
                proof {
                    assert(cls[k as int] == (dex.classes@[i as int].name@, members@[k as int]@));
                    assert(pair.0@ == dex.classes@[i as int].name@);
                    assert(pair.1@ == members@[k as int]@);
                    assert(str_pairs_view(out@.push(pair)) =~= str_pairs_view(out@).push(
                        cls[k as int],
                    ));
                    assert((str_pairs_view(out@) + cls.skip(k as int)) =~= (str_pairs_view(out@).push(
                        cls[k as int],
                    )) + cls.skip(k as int + 1));
                }
                out.push(pair);
                k += 1;
            }
            proof {
                assert(cls.skip(m as int) =~= Seq::<(Seq<char>, Seq<char>)>::empty());
                assert((str_pairs_view(out@) + cls.skip(m as int)) =~= str_pairs_view(out@));
            }
            i += 1;
        }
        proof {
            assert(str_pairs_view(out@) + spec_member_pairs(dex.classes@, n as int, methods)
                =~= str_pairs_view(out@));
        }
        out
    }

    /// Merges one class: resolves its name, splits it, and inserts it.
    fn add_class(&self, root: PackageNode, class: &DexClass, file_id: &String) -> (r: (
        PackageNode,
        Option<DuplicateClassWarning>,
        Option<TreeError>,
    ))
        ensures
            ({
                let m = spec_add_class(
                    root@,
                    *class,
                    self.spec_renames(),
                    self.spec_usages(),
                    file_id@,
                );
                r.0@ == m.0 && (match r.1 {
                    Some(w) => m.1 == Some((w.class@, w.file@)),
                    None => m.1 is None,
                }) && (match r.2 {
                    Some(e) => m.2 == Some(e.spec_file()),
                    None => m.2 is None,
                })
            }),
    {
        let resolved = self.proguard_map.resolve_class(&class.name);
        if resolved.as_str().unicode_len() == 0 {
            (root, None, Some(TreeError::InvalidClassName { file: file_id.clone() }))
        } else {
            let segs = split_name(&resolved);
            let stats = ClassStats {
                declared_methods: class.methods.len() as u64,
                declared_fields: class.fields.len() as u64,
                referenced_methods: self.usages_map.count_used_methods(&resolved),
                referenced_fields: self.usages_map.count_used_fields(&resolved),
                file_id: file_id.clone(),
            };
            proof {
                assert(stats@ == spec_class_stats(*class, resolved@, self.usages_map, file_id@));
            }
            let (root2, dup) = insert_rec(root, &segs, 0, stats);
            if dup {
                (
                    root2,
                    Some(DuplicateClassWarning { class: resolved, file: file_id.clone() }),
                    None,
                )
            } else {
                (root2, None, None)
            }
        }
    }

    /// Merges one decoded bytecode file into `root`, collecting duplicate
    /// warnings and per-class failures in declaration order.
    pub fn package_tree(&self, root: PackageNode, dex: &DexFile) -> (r: (
        PackageNode,
        Vec<DuplicateClassWarning>,
        Vec<TreeError>,
    ))
        ensures
            ({
                let m = spec_add_classes(
                    root@,
                    dex.classes@,
                    0,
                    self.spec_renames(),
                    self.spec_usages(),
                    dex.id@,
                );
                r.0@ == m.0 && warns_view(r.1@) == m.1 && errs_view(r.2@) == m.2
            }),
    {
        let ghost m = spec_add_classes(
            root@,
            dex.classes@,
            0,
            self.spec_renames(),
            self.spec_usages(),
            dex.id@,
        );
        let mut cur = root;
        let mut warnings: Vec<DuplicateClassWarning> = Vec::new();
        let mut errors: Vec<TreeError> = Vec::new();
        let n = dex.classes.len();
        let mut i: usize = 0;
        proof {
            assert(warns_view(warnings@) + m.1 =~= m.1);
            assert(errs_view(errors@) + m.2 =~= m.2);
        }
        while i < n
            invariant
                n == dex.classes@.len(),
                i <= n,
                m == spec_add_classes(
                    root@,
                    dex.classes@,
                    0,
                    self.spec_renames(),
                    self.spec_usages(),
                    dex.id@,
                ),
                spec_add_classes(
                    cur@,
                    dex.classes@,
                    i as int,
                    self.spec_renames(),
                    self.spec_usages(),
                    dex.id@,
                ).0 == m.0,
                m.1 == warns_view(warnings@) + spec_add_classes(
                    cur@,
                    dex.classes@,
                    i as int,
                    self.spec_renames(),
                    self.spec_usages(),
                    dex.id@,
                ).1,
                m.2 == errs_view(errors@) + spec_add_classes(
                    cur@,
                    dex.classes@,
                    i as int,
                    self.spec_renames(),
                    self.spec_usages(),
                    dex.id@,
                ).2,
            decreases n - i,
        {
            let ghost pre = cur@;
            let ghost one = spec_add_class(
                pre,
                dex.classes@[i as int],
                self.spec_renames(),
                self.spec_usages(),
                dex.id@,
            );
            let (c2, w, e) = self.add_class(cur, &dex.classes[i], &dex.id);
            cur = c2;
            match w {
                Some(wv) => {
                    proof {
                        assert(warns_view(warnings@.push(wv)) =~= warns_view(warnings@).push(
                            (wv.class@, wv.file@),
                        ));
                        assert(opt_seq(one.1) =~= seq![(wv.class@, wv.file@)]);
                        assert(warns_view(warnings@).push((wv.class@, wv.file@)) =~= warns_view(
                            warnings@,
                        ) + opt_seq(one.1));
                    }
                    warnings.push(wv);
                },
                None => {
                    proof {
                        assert(opt_seq(one.1) =~= Seq::<(Seq<char>, Seq<char>)>::empty());
                        assert(warns_view(warnings@) + opt_seq(one.1) =~= warns_view(warnings@));
                    }
                },
            }
            match e {
                Some(ev) => {
                    proof {
                        assert(errs_view(errors@.push(ev)) =~= errs_view(errors@).push(
                            ev.spec_file(),
                        ));
                        assert(opt_seq(one.2) =~= seq![ev.spec_file()]);
                        assert(errs_view(errors@).push(ev.spec_file()) =~= errs_view(errors@)
                            + opt_seq(one.2));
                    }
                    errors.push(ev);
                },
                None => {
                    proof {
                        assert(opt_seq(one.2) =~= Seq::<Seq<char>>::empty());
                        assert(errs_view(errors@) + opt_seq(one.2) =~= errs_view(errors@));
                    }
                },
            }
            proof {
                let rest = spec_add_classes(
                    cur@,
                    dex.classes@,
                    i as int + 1,
                    self.spec_renames(),
                    self.spec_usages(),
                    dex.id@,
                );
                assert((warns_view(warnings@) + opt_seq(one.1)) + rest.1 =~= warns_view(warnings@)
                    + (opt_seq(one.1) + rest.1));
                assert((errs_view(errors@) + opt_seq(one.2)) + rest.2 =~= errs_view(errors@) + (
                opt_seq(one.2) + rest.2));
            }
            i += 1;
        }
        proof {
            assert(warns_view(warnings@) + Seq::<(Seq<char>, Seq<char>)>::empty() =~= warns_view(
                warnings@,
            ));
            assert(errs_view(errors@) + Seq::<Seq<char>>::empty() =~= errs_view(errors@));
        }
        (cur, warnings, errors)
    }

    /// Builds the whole tree from the given decoded bytecode files, in
    /// caller-supplied order. Zero input files yield a valid tree holding
    /// only the root, with no children and zero derived totals.
    pub fn construct_package_tree(&self, dexes: &Vec<DexFile>) -> (r: PackageTree)
        ensures
            ({
                let m = spec_build(dexes@, self.spec_renames(), self.spec_usages());
                r.root@ == m.0 && warns_view(r.warnings@) == m.1 && errs_view(r.errors@) == m.2
            }),
            dexes@.len() == 0 ==> r.root@ == spec_initial_root() && r.root@.children.len() == 0
                && spec_node_methods(r.root@) == 0 && spec_node_fields(r.root@) == 0,
            wf_snode(r.root@),
            r.root@.name == "root"@,
            r.root@.kind is Package,
    {
        proof {
            lemma_build_wf(dexes@, self.spec_renames(), self.spec_usages());
        }
        let ghost m = spec_build(dexes@, self.spec_renames(), self.spec_usages());
        let mut cur = PackageNode::new_package("root".to_owned());
        let mut warnings: Vec<DuplicateClassWarning> = Vec::new();
        let mut errors: Vec<TreeError> = Vec::new();
        let n = dexes.len();
        let mut i: usize = 0;
        proof {
            assert(cur@ == spec_initial_root());
            assert(warns_view(warnings@) + m.1 =~= m.1);
            assert(errs_view(errors@) + m.2 =~= m.2);
        }
        while i < n
            invariant
                n == dexes@.len(),
                i <= n,
                m == spec_build(dexes@, self.spec_renames(), self.spec_usages()),
                spec_build_from(cur@, dexes@, i as int, self.spec_renames(), self.spec_usages()).0
                    == m.0,
                m.1 == warns_view(warnings@) + spec_build_from(
                    cur@,
                    dexes@,
                    i as int,
                    self.spec_renames(),
                    self.spec_usages(),
                ).1,
                m.2 == errs_view(errors@) + spec_build_from(
                    cur@,
                    dexes@,
                    i as int,
                    self.spec_renames(),
                    self.spec_usages(),
                ).2,
            decreases n - i,
        {
            let ghost one = spec_add_classes(
                cur@,
                dexes@[i as int].classes@,
                0,
                self.spec_renames(),
                self.spec_usages(),
                dexes@[i as int].id@,
            );
            let (c2, mut w, mut e) = self.package_tree(cur, &dexes[i]);
            cur = c2;
            let ghost pre_w = warnings@;
            let ghost pre_e = errors@;
            proof {
                assert(warns_view(pre_w + w@) =~= warns_view(pre_w) + warns_view(w@));
                assert(errs_view(pre_e + e@) =~= errs_view(pre_e) + errs_view(e@));
            }
            warnings.append(&mut w);
            errors.append(&mut e);
            proof {
                let rest = spec_build_from(
                    cur@,
                    dexes@,
                    i as int + 1,
                    self.spec_renames(),
                    self.spec_usages(),
                );
                assert(warns_view(pre_w) + (one.1 + rest.1) =~= (warns_view(pre_w) + one.1)
                    + rest.1);
                assert(errs_view(pre_e) + (one.2 + rest.2) =~= (errs_view(pre_e) + one.2) + rest.2);
            }
            i += 1;
        }
        proof {
            assert(warns_view(warnings@) + Seq::<(Seq<char>, Seq<char>)>::empty() =~= warns_view(
                warnings@,
            ));
            assert(errs_view(errors@) + Seq::<Seq<char>>::empty() =~= errs_view(errors@));
        }
        PackageTree { root: cur, warnings, errors }
    }
}

} // verus!
