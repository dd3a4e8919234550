use duplicated_deps::detect::{Detection, Duplicate, InvalidVersion, Lookup, Resolver, Response};
use duplicated_deps::index::DependencyIndex;
use duplicated_deps::record::PackageRecord;
use duplicated_deps::version::{first_invalid, local_maximum};

fn strings(texts: &[&str]) -> Vec<String> {
    texts.iter().map(|t| t.to_string()).collect()
}

fn graph_with_duplicate() -> Vec<PackageRecord> {
    vec![
        PackageRecord::new("A", "0.1.0").depends_on("B", "1.0.0").depends_on("C", "0.3.0"),
        PackageRecord::new("B", "1.0.0"),
        PackageRecord::new("B", "2.0.0"),
        PackageRecord::new("C", "0.3.0").depends_on("B", "2.0.0"),
    ]
}

fn online(answers: &[(&str, &str)]) -> Resolver {
    Resolver::Online(
        answers
            .iter()
            .map(|(package, newest)| Lookup {
                package: package.to_string(),
                newest: newest.to_string(),
            })
            .collect(),
    )
}

fn versions_reported(detection: &Detection, package: &str) -> Vec<String> {
    detection
        .response
        .duplicates
        .iter()
        .filter(|d| d.package == package)
        .map(|d| d.version.clone())
        .collect()
}

#[test]
fn local_maximum_follows_semantic_versions() {
    assert_eq!(local_maximum(&strings(&["1.5.0", "1.19.0"])), Some(1));
    assert_eq!(local_maximum(&strings(&["1.19.0", "1.5.0"])), Some(0));
    assert_eq!(local_maximum(&strings(&["0.9.0", "10.0.0", "2.0.0"])), Some(1));
    assert_eq!(local_maximum(&strings(&["1.0.0-alpha", "1.0.0"])), Some(1));
    assert_eq!(local_maximum(&strings(&["1.0.0", "1.0.0-rc.1"])), Some(0));
    assert_eq!(local_maximum(&strings(&["1.0.0-pre.8", "1.0.0-pre.12"])), Some(1));
    assert_eq!(local_maximum(&strings(&["3.1.4"])), Some(0));
}

#[test]
fn local_maximum_takes_the_last_of_equal_versions() {
    assert_eq!(local_maximum(&strings(&["1.0.0", "1.0.0"])), Some(1));
    assert_eq!(local_maximum(&strings(&["2.0.0", "1.0.0", "2.0.0", "0.1.0"])), Some(2));
}

#[test]
fn local_maximum_needs_versions() {
    assert_eq!(local_maximum(&Vec::new()), None);
    assert_eq!(local_maximum(&strings(&["1.0.0", "1.0"])), None);
    assert_eq!(local_maximum(&strings(&["latest"])), None);
}

#[test]
fn first_invalid_finds_what_semver_refuses() {
    assert_eq!(first_invalid(&strings(&["1.0.0", "2.3.4-beta.1+build.5"])), None);
    assert_eq!(first_invalid(&Vec::new()), None);
    assert_eq!(first_invalid(&strings(&["1.0.0", "1.0", "x"])), Some(1));
    assert_eq!(first_invalid(&strings(&["1.0.01"])), Some(0));
    assert_eq!(first_invalid(&strings(&["1.0.0", "1.0.0 "])), Some(1));
    assert_eq!(first_invalid(&strings(&["", "1.0.0"])), Some(0));
}

#[test]
fn resolver_answers_with_the_first_lookup_of_a_package() {
    let resolver = online(&[("a", "1.0.0"), ("b", "2.0.0"), ("a", "3.0.0")]);
    assert_eq!(resolver.find_answer("a"), Some("1.0.0".to_string()));
    assert_eq!(resolver.find_answer("b"), Some("2.0.0".to_string()));
    assert_eq!(resolver.find_answer("c"), None);
    assert_eq!(Resolver::Offline.find_answer("a"), None);
}

#[test]
fn offline_latest_is_the_greatest_version_at_hand() {
    let versions = strings(&["1.2.0", "1.10.0", "1.9.0"]);
    assert_eq!(Resolver::Offline.latest("x", &versions), Some("1.10.0".to_string()));
}

#[test]
fn online_latest_is_the_answer() {
    let versions = strings(&["1.2.0", "1.10.0"]);
    let resolver = online(&[("x", "4.0.0")]);
    assert_eq!(resolver.latest("x", &versions), Some("4.0.0".to_string()));
    let older = online(&[("x", "0.1.0")]);
    assert_eq!(older.latest("x", &versions), Some("0.1.0".to_string()));
}

#[test]
fn online_latest_falls_back_without_a_usable_answer() {
    let versions = strings(&["1.2.0", "1.10.0"]);
    let silent = online(&[("y", "4.0.0")]);
    assert_eq!(silent.latest("x", &versions), Some("1.10.0".to_string()));
    let garbled = online(&[("x", "not a version")]);
    assert_eq!(garbled.latest("x", &versions), Some("1.10.0".to_string()));
    let none = online(&[]);
    assert_eq!(none.latest("x", &versions), Some("1.10.0".to_string()));
}

#[test]
fn latest_needs_versions_at_hand() {
    let resolver = online(&[("x", "4.0.0")]);
    assert_eq!(resolver.latest("x", &Vec::new()), None);
    assert_eq!(resolver.latest("x", &strings(&["1.0.0", "oops"])), None);
    assert_eq!(Resolver::Offline.latest("x", &strings(&["oops"])), None);
}

#[test]
fn offline_detection_of_the_sample_graph() {
    let (index, _) = DependencyIndex::build(graph_with_duplicate());
    let detection = index.detect(&Resolver::Offline);
    assert_eq!(
        detection,
        Detection {
            response: Response {
                duplicates: vec![Duplicate {
                    package: "B".to_string(),
                    version: "1.0.0".to_string(),
                    latest: "2.0.0".to_string(),
                    users: vec![PackageRecord::new("A", "0.1.0")
                        .depends_on("B", "1.0.0")
                        .depends_on("C", "0.3.0")],
                }],
            },
            failures: Vec::new(),
        }
    );
}

#[test]
fn a_package_with_one_version_is_never_reported() {
    let (index, _) = DependencyIndex::build(graph_with_duplicate());
    let offline = index.detect(&Resolver::Offline);
    assert_eq!(versions_reported(&offline, "A"), Vec::<String>::new());
    assert_eq!(versions_reported(&offline, "C"), Vec::<String>::new());
    let answered = index.detect(&online(&[("A", "9.0.0"), ("C", "9.0.0"), ("B", "9.0.0")]));
    assert_eq!(versions_reported(&answered, "A"), Vec::<String>::new());
    assert_eq!(versions_reported(&answered, "C"), Vec::<String>::new());
}

#[test]
fn all_versions_but_the_reference_are_reported() {
    let records = vec![
        PackageRecord::new("p", "1.0.0"),
        PackageRecord::new("p", "3.0.0"),
        PackageRecord::new("p", "2.0.0"),
        PackageRecord::new("p", "0.5.0"),
    ];
    let (index, _) = DependencyIndex::build(records);
    let offline = index.detect(&Resolver::Offline);
    assert_eq!(versions_reported(&offline, "p"), strings(&["1.0.0", "2.0.0", "0.5.0"]));
    for d in &offline.response.duplicates {
        assert_eq!(d.latest, "3.0.0");
    }
    let present = index.detect(&online(&[("p", "2.0.0")]));
    assert_eq!(versions_reported(&present, "p"), strings(&["1.0.0", "3.0.0", "0.5.0"]));
    for d in &present.response.duplicates {
        assert_eq!(d.latest, "2.0.0");
    }
}

#[test]
fn an_answer_newer_than_all_versions_makes_them_all_duplicates() {
    let (index, _) = DependencyIndex::build(graph_with_duplicate());
    let detection = index.detect(&online(&[("B", "3.1.0")]));
    assert_eq!(versions_reported(&detection, "B"), strings(&["1.0.0", "2.0.0"]));
    assert_eq!(detection.response.duplicates[0].latest, "3.1.0");
    assert_eq!(detection.response.duplicates[1].latest, "3.1.0");
    assert_eq!(
        detection.response.duplicates[1].users,
        vec![PackageRecord::new("C", "0.3.0").depends_on("B", "2.0.0")]
    );
}

#[test]
fn an_unusable_answer_gives_the_offline_result() {
    let (index, _) = DependencyIndex::build(graph_with_duplicate());
    let offline = index.detect(&Resolver::Offline);
    assert_eq!(index.detect(&online(&[("B", "two")])), offline);
    assert_eq!(index.detect(&online(&[])), offline);
    assert_eq!(index.detect(&online(&[("other", "7.0.0")])), offline);
}

#[test]
fn duplicates_come_in_the_order_of_the_names() {
    let records = vec![
        PackageRecord::new("zeta", "1.0.0"),
        PackageRecord::new("zeta", "1.1.0"),
        PackageRecord::new("beta", "0.2.0"),
        PackageRecord::new("beta", "0.1.0"),
        PackageRecord::new("single", "1.0.0"),
    ];
    let (index, _) = DependencyIndex::build(records);
    let detection = index.detect(&Resolver::Offline);
    let found: Vec<(&str, &str, &str)> = detection
        .response
        .duplicates
        .iter()
        .map(|d| (d.package.as_str(), d.version.as_str(), d.latest.as_str()))
        .collect();
    assert_eq!(found, vec![("beta", "0.1.0", "0.2.0"), ("zeta", "1.0.0", "1.1.0")]);
    assert_eq!(index.duplicated_names(), strings(&["beta", "zeta"]));
}

#[test]
fn a_version_that_is_none_fails_its_package_only() {
    let records = vec![
        PackageRecord::new("bad", "1.0.0"),
        PackageRecord::new("bad", "1.x"),
        PackageRecord::new("bad", "also bad"),
        PackageRecord::new("good", "1.0.0"),
        PackageRecord::new("good", "1.0.1"),
        PackageRecord::new("lonely", "whatever"),
    ];
    let (index, _) = DependencyIndex::build(records);
    let detection = index.detect(&Resolver::Offline);
    assert_eq!(
        detection.failures,
        vec![InvalidVersion { package: "bad".to_string(), version: "1.x".to_string() }]
    );
    assert_eq!(versions_reported(&detection, "bad"), Vec::<String>::new());
    assert_eq!(versions_reported(&detection, "good"), strings(&["1.0.0"]));
    assert_eq!(index.duplicated_names(), strings(&["bad", "good"]));
}

#[test]
fn detection_of_an_empty_graph_finds_nothing() {
    let (index, _) = DependencyIndex::build(Vec::new());
    let detection = index.detect(&Resolver::Offline);
    assert!(detection.response.duplicates.is_empty());
    assert!(detection.failures.is_empty());
    assert!(index.duplicated_names().is_empty());
}

#[test]
fn versions_that_differ_in_build_metadata_are_different() {
    let records = vec![
        PackageRecord::new("m", "1.0.0+a"),
        PackageRecord::new("m", "1.0.0+b"),
    ];
    let (index, _) = DependencyIndex::build(records);
    let detection = index.detect(&Resolver::Offline);
    assert_eq!(versions_reported(&detection, "m"), strings(&["1.0.0+a"]));
    assert_eq!(detection.response.duplicates[0].latest, "1.0.0+b");
}
