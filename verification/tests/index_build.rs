use duplicated_deps::index::{DependencyIndex, UnresolvedDependency};
use duplicated_deps::names::{compare_names, same_text, Order};
use duplicated_deps::record::{make_label, Dependency, PackageRecord};

fn sample_records() -> Vec<PackageRecord> {
    vec![
        PackageRecord::new("A", "0.1.0").depends_on("B", "1.0.0").depends_on("C", "0.3.0"),
        PackageRecord::new("B", "1.0.0"),
        PackageRecord::new("B", "2.0.0"),
        PackageRecord::new("C", "0.3.0").depends_on("B", "2.0.0"),
    ]
}

#[test]
fn record_is_built_step_by_step() {
    let record = PackageRecord::new("left", "1.2.3").depends_on("right", "0.4.0");
    assert_eq!(record.name, "left");
    assert_eq!(record.version, "1.2.3");
    assert_eq!(
        record.dependencies,
        vec![Dependency { name: "right".to_string(), version: "0.4.0".to_string(), source: None }]
    );
    assert_eq!(record.source, None);
    assert_eq!(record.checksum, None);
    assert_eq!(record.replace, None);
    assert_eq!(record.clone(), record);
    assert_eq!(Dependency::new("right", "0.4.0"), record.dependencies[0]);
}

#[test]
fn a_copy_of_a_record_keeps_every_field() {
    let record = PackageRecord {
        name: "left".to_string(),
        version: "1.2.3".to_string(),
        source: Some("registry+https://example.org/index".to_string()),
        checksum: Some("ab".repeat(32)),
        dependencies: vec![Dependency {
            name: "right".to_string(),
            version: "0.4.0".to_string(),
            source: Some("git+https://example.org/right#0123".to_string()),
        }],
        replace: Some(Dependency::new("other", "1.0.0")),
    };
    let copy = record.clone();
    assert_eq!(copy, record);
    assert_eq!(copy.replace, Some(Dependency::new("other", "1.0.0")));
    assert_eq!(copy.dependencies[0].source, Some("git+https://example.org/right#0123".to_string()));
}

#[test]
fn label_is_name_space_v_version() {
    assert_eq!(PackageRecord::new("serde", "1.0.200").label(), "serde v1.0.200");
    assert_eq!(make_label("a", "0.0.1"), "a v0.0.1");
    assert_eq!(make_label("", ""), " v");
}

#[test]
fn names_compare_by_bytes() {
    assert_eq!(compare_names("a", "b"), Order::Less);
    assert_eq!(compare_names("b", "a"), Order::Greater);
    assert_eq!(compare_names("serde", "serde"), Order::Equal);
    assert_eq!(compare_names("", ""), Order::Equal);
    assert_eq!(compare_names("", "a"), Order::Less);
    assert_eq!(compare_names("serde", "serde_json"), Order::Less);
    assert_eq!(compare_names("serde_json", "serde"), Order::Greater);
    assert_eq!(compare_names("Zeta", "alpha"), Order::Less);
    assert_eq!(compare_names("z", "é"), Order::Less);
    assert_eq!(compare_names("é", "z"), Order::Greater);
}

#[test]
fn names_compare_as_strings_do() {
    let names = ["", "a", "A", "ab", "b", "serde", "serde-json", "serde_json", "é", "z", "日本"];
    for a in names {
        for b in names {
            let expected = match a.cmp(b) {
                std::cmp::Ordering::Less => Order::Less,
                std::cmp::Ordering::Equal => Order::Equal,
                std::cmp::Ordering::Greater => Order::Greater,
            };
            assert_eq!(compare_names(a, b), expected);
        }
    }
}

#[test]
fn same_text_is_equality() {
    assert!(same_text("1.0.0", "1.0.0"));
    assert!(!same_text("1.0.0", "1.0.1"));
    assert!(!same_text("1.0", "1.0.0"));
    assert!(same_text("", ""));
}

#[test]
fn index_of_the_sample_graph() {
    let (index, unresolved) = DependencyIndex::build(sample_records());
    assert!(unresolved.is_empty());
    assert_eq!(index.records, sample_records());
    let names: Vec<&str> = index.packages.iter().map(|p| p.name.as_str()).collect();
    assert_eq!(names, vec!["A", "B", "C"]);
    let b = &index.packages[1];
    assert_eq!(b.versions.len(), 2);
    assert_eq!(b.versions[0].version, "1.0.0");
    assert_eq!(b.versions[0].dependents, vec![0]);
    assert_eq!(b.versions[1].version, "2.0.0");
    assert_eq!(b.versions[1].dependents, vec![3]);
    assert_eq!(index.packages[0].versions[0].dependents, Vec::<usize>::new());
    assert_eq!(index.packages[2].versions[0].dependents, vec![0]);
}

#[test]
fn index_names_are_sorted_whatever_the_order_of_the_records() {
    let records = vec![
        PackageRecord::new("zlib", "1.0.0"),
        PackageRecord::new("alpha", "1.0.0"),
        PackageRecord::new("mid", "1.0.0"),
        PackageRecord::new("alpha", "2.0.0"),
        PackageRecord::new("Beta", "1.0.0"),
    ];
    let (index, _) = DependencyIndex::build(records);
    let names: Vec<&str> = index.packages.iter().map(|p| p.name.as_str()).collect();
    assert_eq!(names, vec!["Beta", "alpha", "mid", "zlib"]);
    let versions: Vec<&str> =
        index.packages[1].versions.iter().map(|v| v.version.as_str()).collect();
    assert_eq!(versions, vec!["1.0.0", "2.0.0"]);
}

#[test]
fn index_of_no_records_is_empty() {
    let (index, unresolved) = DependencyIndex::build(Vec::new());
    assert!(index.packages.is_empty());
    assert!(index.records.is_empty());
    assert!(unresolved.is_empty());
}

#[test]
fn same_name_and_version_twice_is_one_entry() {
    let records = vec![
        PackageRecord::new("dup", "1.0.0"),
        PackageRecord::new("dup", "1.0.0"),
        PackageRecord::new("user", "0.1.0").depends_on("dup", "1.0.0"),
    ];
    let (index, unresolved) = DependencyIndex::build(records);
    assert!(unresolved.is_empty());
    assert_eq!(index.packages.len(), 2);
    assert_eq!(index.packages[0].versions.len(), 1);
    assert_eq!(index.packages[0].versions[0].dependents, vec![2]);
}

#[test]
fn a_record_that_declares_a_dependency_twice_is_one_dependent() {
    let records = vec![
        PackageRecord::new("lib", "1.0.0"),
        PackageRecord::new("app", "0.1.0").depends_on("lib", "1.0.0").depends_on("lib", "1.0.0"),
        PackageRecord::new("tool", "0.1.0").depends_on("lib", "1.0.0"),
    ];
    let (index, _) = DependencyIndex::build(records);
    let lib = &index.packages[1];
    assert_eq!(lib.name, "lib");
    assert_eq!(lib.versions[0].dependents, vec![1, 2]);
}

#[test]
fn unresolved_edge_is_reported_and_the_rest_resolves() {
    let records = vec![
        PackageRecord::new("D", "1.0.0").depends_on("E", "9.0.0").depends_on("F", "1.0.0"),
        PackageRecord::new("F", "1.0.0"),
    ];
    let (index, unresolved) = DependencyIndex::build(records);
    assert_eq!(
        unresolved,
        vec![UnresolvedDependency {
            dependent: 0,
            name: "E".to_string(),
            version: "9.0.0".to_string(),
        }]
    );
    let names: Vec<&str> = index.packages.iter().map(|p| p.name.as_str()).collect();
    assert_eq!(names, vec!["D", "F"]);
    assert_eq!(index.packages[1].versions[0].dependents, vec![0]);
}

#[test]
fn a_known_name_at_an_unknown_version_is_unresolved() {
    let records = vec![
        PackageRecord::new("lib", "1.0.0"),
        PackageRecord::new("app", "0.1.0").depends_on("lib", "2.0.0"),
        PackageRecord::new("tool", "0.1.0").depends_on("gone", "0.1.0").depends_on("lib", "1.0.0"),
    ];
    let (index, unresolved) = DependencyIndex::build(records);
    assert_eq!(
        unresolved,
        vec![
            UnresolvedDependency {
                dependent: 1,
                name: "lib".to_string(),
                version: "2.0.0".to_string(),
            },
            UnresolvedDependency {
                dependent: 2,
                name: "gone".to_string(),
                version: "0.1.0".to_string(),
            },
        ]
    );
    assert_eq!(index.packages[1].versions[0].dependents, vec![2]);
}

#[test]
fn packages_and_versions_are_found() {
    let (index, _) = DependencyIndex::build(sample_records());
    assert_eq!(index.find("A", "0.1.0"), Some((0, 0)));
    assert_eq!(index.find("B", "1.0.0"), Some((1, 0)));
    assert_eq!(index.find("B", "2.0.0"), Some((1, 1)));
    assert_eq!(index.find("C", "0.3.0"), Some((2, 0)));
    assert_eq!(index.find("B", "0.3.0"), None);
    assert_eq!(index.find("Ab", "1.0.0"), None);
    assert_eq!(index.find("E", "1.0.0"), None);
    assert_eq!(index.find("", ""), None);
}
