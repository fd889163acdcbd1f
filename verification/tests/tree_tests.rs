use apk_analyzer::dex::{DexClass, DexFile};
use apk_analyzer::package_tree::{NodeKind, PackageNode, PackageTreeCreator, SizeMetric};
use apk_analyzer::symbols::{ProguardMap, ProguardUsagesMap};

fn class(name: &str, methods: usize, fields: usize) -> DexClass {
    DexClass {
        name: String::from(name),
        methods: (0..methods).map(|i| format!("m{}", i)).collect(),
        fields: (0..fields).map(|i| format!("f{}", i)).collect(),
    }
}

fn file(id: &str, classes: Vec<DexClass>) -> DexFile {
    DexFile {
        id: String::from(id),
        classes,
        method_refs: Vec::new(),
        field_refs: Vec::new(),
    }
}

fn class_stats(node: &PackageNode) -> (u64, u64, u64, u64) {
    match &node.kind {
        NodeKind::Class(s) => (
            s.declared_methods,
            s.declared_fields,
            s.referenced_methods,
            s.referenced_fields,
        ),
        NodeKind::Package => panic!("expected a class node"),
    }
}

fn path(segments: &[&str]) -> Vec<String> {
    segments.iter().map(|s| String::from(*s)).collect()
}

#[test]
fn zero_input_files_yield_an_empty_root() {
    let creator = PackageTreeCreator::new();
    let tree = creator.construct_package_tree(&Vec::new());

    assert_eq!(0, tree.root.children.len());
    assert_eq!("root", tree.root.name);
    assert_eq!(0, tree.total_method_count());
    assert_eq!(0, tree.total_field_count());
    assert!(tree.warnings.is_empty());
    assert!(tree.errors.is_empty());
}

#[test]
fn one_file_builds_packages_and_class_leaves() {
    let creator = PackageTreeCreator::new();
    let dexes = vec![file(
        "classes.dex",
        vec![class("a.b.C1", 2, 0), class("a.b.C2", 3, 1), class("a.d.C3", 4, 2)],
    )];
    let tree = creator.construct_package_tree(&dexes);

    // Exactly one package under root: `a`, holding packages `b` and `d`.
    assert_eq!(1, tree.root.children.len());
    let a = tree.find(&path(&["a"])).unwrap();
    assert_eq!("a", a.name);
    assert_eq!(2, a.children.len());
    assert_eq!("b", a.children[0].name);
    assert_eq!("d", a.children[1].name);
    // Three class leaves.
    let b = tree.find(&path(&["a", "b"])).unwrap();
    assert_eq!(2, b.children.len());
    let d = tree.find(&path(&["a", "d"])).unwrap();
    assert_eq!(1, d.children.len());
    // `a`'s aggregate method count is the sum of the three declared counts.
    assert_eq!(9, a.total_method_count());
    assert_eq!(3, a.total_field_count());
    assert_eq!(9, tree.total_method_count());
}

#[test]
fn duplicate_class_keeps_first_occurrence_and_warns() {
    let creator = PackageTreeCreator::new();
    let dexes = vec![
        file("classes.dex", vec![class("p.A", 2, 1)]),
        file("classes2.dex", vec![class("p.A", 5, 5)]),
    ];
    let tree = creator.construct_package_tree(&dexes);

    let p = tree.find(&path(&["p"])).unwrap();
    assert_eq!(1, p.children.len());
    let a = tree.find(&path(&["p", "A"])).unwrap();
    let (dm, df, _, _) = class_stats(a);
    assert_eq!((2, 1), (dm, df));
    assert_eq!(1, tree.warnings.len());
    assert_eq!("p.A", tree.warnings[0].class);
    assert_eq!("classes2.dex", tree.warnings[0].file);
    assert_eq!(2, tree.total_method_count());
}

#[test]
fn renamed_class_is_inserted_under_its_original_path() {
    let mut renames = ProguardMap::new();
    renames.add_class_rename(String::from("a.b.X"), String::from("com.example.Foo"));
    let creator = PackageTreeCreator::with_maps(renames, ProguardUsagesMap::new());
    let dexes = vec![file("classes.dex", vec![class("a.b.X", 1, 0)])];
    let tree = creator.construct_package_tree(&dexes);

    let foo = tree.find(&path(&["com", "example", "Foo"])).unwrap();
    assert_eq!("Foo", foo.name);
    let (dm, _, _, _) = class_stats(foo);
    assert_eq!(1, dm);
    assert!(tree.find(&path(&["a", "b", "X"])).is_none());
}

#[test]
fn usage_record_scores_referenced_methods() {
    let mut usages = ProguardUsagesMap::new();
    usages.record_usage(String::from("C1"), String::from("m1"));
    let creator = PackageTreeCreator::with_maps(ProguardMap::new(), usages);
    let dexes = vec![file("classes.dex", vec![class("C1", 7, 0)])];
    let tree = creator.construct_package_tree(&dexes);

    let c1 = tree.find(&path(&["C1"])).unwrap();
    let (dm, _, rm, rf) = class_stats(c1);
    assert_eq!(7, dm);
    assert_eq!(1, rm);
    assert_eq!(0, rf);
}

#[test]
fn two_files_roll_up_into_one_tree() {
    let creator = PackageTreeCreator::new();
    let dexes = vec![
        file("classes.dex", vec![class("p.A", 2, 0), class("p.B", 1, 0)]),
        file("classes2.dex", vec![class("q.C", 3, 0)]),
    ];
    let tree = creator.construct_package_tree(&dexes);

    assert_eq!(6, tree.total_method_count());
    let p = tree.find(&path(&["p"])).unwrap();
    assert_eq!(3, p.total_method_count());
    let c = tree.find(&path(&["q", "C"])).unwrap();
    let (dm, _, _, _) = class_stats(c);
    assert_eq!(3, dm);
    assert!(tree.warnings.is_empty());
    assert!(tree.errors.is_empty());
}

#[test]
fn empty_class_name_is_reported_and_skipped() {
    let creator = PackageTreeCreator::new();
    let dexes = vec![file("classes.dex", vec![class("", 2, 0), class("p.A", 1, 0)])];
    let tree = creator.construct_package_tree(&dexes);

    assert_eq!(1, tree.errors.len());
    // The malformed class is skipped; the rest of the file is processed.
    let a = tree.find(&path(&["p", "A"])).unwrap();
    let (dm, _, _, _) = class_stats(a);
    assert_eq!(1, dm);
    assert_eq!(1, tree.total_method_count());
}

#[test]
fn get_all_enumerations_walk_declared_symbols() {
    let creator = PackageTreeCreator::new();
    let dex = file("classes.dex", vec![class("p.A", 2, 1), class("q.B", 1, 0)]);

    let methods = creator.get_all_method(&dex);
    assert_eq!(
        vec![
            (String::from("p.A"), String::from("m0")),
            (String::from("p.A"), String::from("m1")),
            (String::from("q.B"), String::from("m0")),
        ],
        methods
    );
    let fields = creator.get_all_field(&dex);
    assert_eq!(vec![(String::from("p.A"), String::from("f0"))], fields);
    let types = creator.get_all_type(&dex);
    assert_eq!(vec![String::from("p.A"), String::from("q.B")], types);
}

#[test]
fn largest_children_rank_descending_with_name_ties() {
    let creator = PackageTreeCreator::new();
    let dexes = vec![file(
        "classes.dex",
        vec![
            class("p.A", 1, 0),
            class("q.B", 3, 0),
            class("r.C", 3, 0),
            class("s.D", 2, 0),
        ],
    )];
    let tree = creator.construct_package_tree(&dexes);

    let top = tree.root.largest_children(SizeMetric::MethodCount, 3);
    let names: Vec<&str> =
        top.iter().map(|&i| tree.root.children[i].name.as_str()).collect();
    // q and r tie on 3 methods; the tie breaks by name, then s with 2.
    assert_eq!(vec!["q", "r", "s"], names);

    let all = tree.root.largest_children(SizeMetric::MethodCount, 10);
    assert_eq!(4, all.len());
    let last = tree.root.children[all[3]].name.as_str();
    assert_eq!("p", last);
}

#[test]
fn largest_children_rank_by_field_count() {
    let creator = PackageTreeCreator::new();
    let dexes = vec![file(
        "classes.dex",
        vec![class("p.A", 0, 1), class("q.B", 0, 4), class("r.C", 0, 2)],
    )];
    let tree = creator.construct_package_tree(&dexes);

    let top = tree.root.largest_children(SizeMetric::FieldCount, 2);
    let names: Vec<&str> =
        top.iter().map(|&i| tree.root.children[i].name.as_str()).collect();
    assert_eq!(vec!["q", "r"], names);
}

#[test]
fn rename_table_passes_unknown_names_through() {
    let mut renames = ProguardMap::new();
    renames.add_class_rename(String::from("a.b.X"), String::from("com.example.Foo"));
    renames.add_member_rename(String::from("a.b.X"), String::from("a"), String::from("run"));

    assert_eq!("com.example.Foo", renames.resolve_class(&String::from("a.b.X")));
    assert_eq!("a.b.Y", renames.resolve_class(&String::from("a.b.Y")));
    assert_eq!("run", renames.resolve_member(&String::from("a.b.X"), &String::from("a")));
    assert_eq!("b", renames.resolve_member(&String::from("a.b.X"), &String::from("b")));
    assert_eq!("a", renames.resolve_member(&String::from("a.b.Z"), &String::from("a")));
}

#[test]
fn usage_record_is_idempotent() {
    let mut usages = ProguardUsagesMap::new();
    usages.record_usage(String::from("C1"), String::from("m1"));
    usages.record_usage(String::from("C1"), String::from("m1"));
    usages.record_usage(String::from("C1"), String::from("m2"));
    usages.record_field_usage(String::from("C1"), String::from("f1"));

    assert_eq!(2, usages.count_used_methods(&String::from("C1")));
    assert_eq!(1, usages.count_used_fields(&String::from("C1")));
    assert_eq!(0, usages.count_used_methods(&String::from("C2")));
    assert!(usages.is_class_used(&String::from("C1")));
    assert!(!usages.is_class_used(&String::from("C2")));
    assert!(usages.is_member_used(&String::from("C1"), &String::from("m1")));
    assert!(usages.is_member_used(&String::from("C1"), &String::from("f1")));
    assert!(!usages.is_member_used(&String::from("C1"), &String::from("m9")));
}
