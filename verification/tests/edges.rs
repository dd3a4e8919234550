use duplicated_deps::detect::{Duplicate, Resolver};
use duplicated_deps::index::DependencyIndex;
use duplicated_deps::lockfile::{parse_lockfile, plain};
use duplicated_deps::record::{Dependency, PackageRecord};
use duplicated_deps::registry::{newest_version, registry_url};
use duplicated_deps::report::{chain_line, decimal, listed_source, noun};

const REGISTRY: &str = "registry+https://github.com/rust-lang/crates.io-index";

fn from_registry(name: &str, version: &str, digit: &str) -> PackageRecord {
    let mut record = PackageRecord::new(name, version);
    record.source = Some(REGISTRY.to_string());
    record.checksum = Some(digit.repeat(64));
    record
}

fn on_registry(name: &str, version: &str) -> Dependency {
    Dependency {
        name: name.to_string(),
        version: version.to_string(),
        source: Some(REGISTRY.to_string()),
    }
}

const LOCK_TEXT: &str = r#"# This file is automatically @generated by Cargo.
version = 3

[[package]]
name = "app"
version = "0.1.0"
dependencies = [
 "helper",
 "shared 1.0.0",
]

[[package]]
name = "helper"
version = "0.2.0"
source = "registry+https://github.com/rust-lang/crates.io-index"
checksum = "0000000000000000000000000000000000000000000000000000000000000000"
dependencies = [
 "shared 2.1.0",
]

[[package]]
name = "shared"
version = "1.0.0"
source = "registry+https://github.com/rust-lang/crates.io-index"
checksum = "1111111111111111111111111111111111111111111111111111111111111111"

[[package]]
name = "shared"
version = "2.1.0"
source = "registry+https://github.com/rust-lang/crates.io-index"
checksum = "2222222222222222222222222222222222222222222222222222222222222222"
"#;

#[test]
fn lock_file_gives_its_packages() {
    let records = parse_lockfile(LOCK_TEXT).unwrap();
    let mut app = PackageRecord::new("app", "0.1.0");
    app.dependencies = vec![on_registry("helper", "0.2.0"), on_registry("shared", "1.0.0")];
    let mut helper = from_registry("helper", "0.2.0", "0");
    helper.dependencies = vec![on_registry("shared", "2.1.0")];
    assert_eq!(
        records,
        vec![
            app,
            helper,
            from_registry("shared", "1.0.0", "1"),
            from_registry("shared", "2.1.0", "2"),
        ]
    );
}

#[test]
fn plain_text_is_ascii_without_backslash() {
    assert!(plain(""));
    assert!(plain(LOCK_TEXT));
    assert!(!plain("name = \"caf\u{e9}\""));
    assert!(!plain("a\\b"));
    assert!(!plain("\\"));
    assert!(plain("~\u{7f}\t\r\n"));
    assert!(!plain("\u{80}"));
}

#[test]
fn lock_file_that_is_not_plain_is_refused_unread() {
    let escaped = format!(
        "[[package]]\nname = \"x\"\nversion = \"1.0.0\"\nchecksum = \"a\\u00e9{}\"\n",
        "0".repeat(61)
    );
    let failure = parse_lockfile(&escaped).unwrap_err();
    assert_eq!(failure.message, "the lock file holds a backslash or a character outside ASCII");
    let outright = format!(
        "[[package]]\nname = \"x\"\nversion = \"1.0.0\"\nchecksum = \"a\u{e9}{}\"\n",
        "0".repeat(61)
    );
    let failure = parse_lockfile(&outright).unwrap_err();
    assert_eq!(failure.message, "the lock file holds a backslash or a character outside ASCII");
    let comment = "# caf\u{e9}\n[[package]]\nname = \"x\"\nversion = \"1.0.0\"\n";
    assert!(parse_lockfile(comment).is_err());
}

#[test]
fn lock_file_with_a_checksum_that_is_none_is_refused() {
    let short = "[[package]]\nname = \"x\"\nversion = \"1.0.0\"\nchecksum = \"abc\"\n";
    assert!(parse_lockfile(short).is_err());
    let not_hex = format!(
        "[[package]]\nname = \"x\"\nversion = \"1.0.0\"\nchecksum = \"{}\"\n",
        "z".repeat(64)
    );
    let failure = parse_lockfile(&not_hex).unwrap_err();
    assert_ne!(failure.message, "the lock file holds a backslash or a character outside ASCII");
}

#[test]
fn source_of_a_path_is_not_listed() {
    assert_eq!(listed_source(&None), None);
    assert_eq!(listed_source(&Some(REGISTRY.to_string())), Some(REGISTRY.to_string()));
    assert_eq!(listed_source(&Some("path+file:///home/me/crate".to_string())), None);
    assert_eq!(listed_source(&Some("path+".to_string())), None);
    assert_eq!(listed_source(&Some("path".to_string())), Some("path".to_string()));
    assert_eq!(listed_source(&Some("".to_string())), Some("".to_string()));
    assert_eq!(
        listed_source(&Some("git+https://example.org/path+x".to_string())),
        Some("git+https://example.org/path+x".to_string())
    );
}

#[test]
fn lock_file_that_is_none_is_refused() {
    assert!(parse_lockfile("[[package]]\nname = ").is_err());
    assert!(parse_lockfile("[[package]]\nname = \"x\"\nversion = \"one\"\n").is_err());
    let failure = parse_lockfile("this is no lock file").unwrap_err();
    assert!(!failure.message.is_empty());
}

#[test]
fn lock_file_to_report() {
    let records = parse_lockfile(LOCK_TEXT).unwrap();
    let (index, unresolved) = DependencyIndex::build(records);
    assert!(unresolved.is_empty());
    let detection = index.detect(&Resolver::Offline);
    assert!(detection.failures.is_empty());
    assert_eq!(detection.response.duplicates.len(), 1);
    let duplicate = &detection.response.duplicates[0];
    assert_eq!(duplicate.headline(), "shared v1.0.0 used by 1 package (available: v2.1.0)");
    let chains: Vec<String> =
        duplicate.users.iter().map(|user| chain_line(&index.trace(user).render())).collect();
    assert_eq!(chains, vec!["  - app v0.1.0".to_string()]);
}

#[test]
fn registry_address_of_a_package() {
    assert_eq!(registry_url("serde"), "https://crates.io/api/v1/crates/serde");
    assert_eq!(registry_url(""), "https://crates.io/api/v1/crates/");
}

#[test]
fn newest_version_is_read_from_the_answer() {
    let answer = r#"{"crate": {"id": "serde", "newest_version": "1.0.219"}, "versions": []}"#;
    assert_eq!(newest_version(answer), Some("1.0.219".to_string()));
}

#[test]
fn newest_version_is_missing_from_other_answers() {
    assert_eq!(newest_version(r#"{"crate": {"id": "serde"}}"#), None);
    assert_eq!(newest_version(r#"{"crate": {"newest_version": 3}}"#), None);
    assert_eq!(newest_version(r#"{"errors": [{"detail": "Not Found"}]}"#), None);
    assert_eq!(newest_version(r#"{"newest_version": "1.0.0"}"#), None);
    assert_eq!(newest_version("not json"), None);
    assert_eq!(newest_version(""), None);
}

#[test]
fn numbers_are_written_in_decimal() {
    assert_eq!(decimal(0), "0");
    assert_eq!(decimal(7), "7");
    assert_eq!(decimal(10), "10");
    assert_eq!(decimal(42), "42");
    assert_eq!(decimal(1905), "1905");
    assert_eq!(decimal(usize::MAX), usize::MAX.to_string());
}

#[test]
fn noun_agrees_with_the_count() {
    assert_eq!(noun(0), "packages");
    assert_eq!(noun(1), "package");
    assert_eq!(noun(2), "packages");
}

#[test]
fn headline_of_a_duplicate() {
    let duplicate = Duplicate {
        package: "syn".to_string(),
        version: "1.0.109".to_string(),
        latest: "2.0.60".to_string(),
        users: vec![
            PackageRecord::new("a", "1.0.0"),
            PackageRecord::new("b", "1.0.0"),
            PackageRecord::new("c", "1.0.0"),
        ],
    };
    assert_eq!(duplicate.headline(), "syn v1.0.109 used by 3 packages (available: v2.0.60)");
    let unused = Duplicate {
        package: "old".to_string(),
        version: "0.1.0".to_string(),
        latest: "0.2.0".to_string(),
        users: Vec::new(),
    };
    assert_eq!(unused.headline(), "old v0.1.0 used by 0 packages (available: v0.2.0)");
}

#[test]
fn chain_line_is_indented() {
    assert_eq!(chain_line("a v1.0.0 -> b v2.0.0"), "  - a v1.0.0 -> b v2.0.0");
    assert_eq!(chain_line(""), "  - ");
}
