use ide_server::protocol::FileStat;
use ide_server::sizes::{ancestor_dirs, dir_byte_totals, dir_totals_fit, is_discounted_path};

fn file(path: &str, bytes: u64) -> FileStat {
    FileStat { path: path.to_string(), bytes }
}

#[test]
fn code_files_count_in_full() {
    assert!(!is_discounted_path("src/lib.rs"));
    assert!(!is_discounted_path("crates/app/src/Main.RS"));
    assert!(!is_discounted_path("web/index.tsx"));
    assert!(!is_discounted_path("x.c"));
}

#[test]
fn tests_docs_and_non_code_are_discounted() {
    assert!(is_discounted_path("tests/integration.rs"));
    assert!(is_discounted_path("src/__tests__/a.js"));
    assert!(is_discounted_path("Docs/intro.rs"));
    assert!(is_discounted_path("src/foo.test.ts"));
    assert!(is_discounted_path("src/foo.spec.js"));
    assert!(is_discounted_path("src/parser_test.rs"));
    assert!(is_discounted_path("README.md"));
    assert!(is_discounted_path("Makefile"));
    assert!(is_discounted_path("src/fixtures2/golden"));
}

#[test]
fn ancestors_walk_up_to_the_root() {
    assert_eq!(ancestor_dirs("a/b/c.rs"), vec!["a/b", "a", ""]);
    assert_eq!(ancestor_dirs("c.rs"), vec![""]);
    assert_eq!(ancestor_dirs("/x"), vec!["", ""]);
    assert_eq!(ancestor_dirs("a//b"), vec!["a/", "a", ""]);
}

#[test]
fn totals_sum_into_every_directory_in_path_order() {
    let files = vec![file("src/a.rs", 10), file("src/b/c.rs", 5), file("README.md", 1), file("src/b/d.rs", 2)];
    assert!(dir_totals_fit(&files));
    let totals: Vec<(String, u64)> = dir_byte_totals(&files).into_iter().map(|t| (t.path, t.bytes)).collect();
    assert_eq!(
        totals,
        vec![("".to_string(), 18), ("src".to_string(), 17), ("src/b".to_string(), 7)]
    );
}

#[test]
fn root_total_is_the_size_of_everything() {
    let files = vec![file("a/x", 3), file("b/y/z", 4), file("w", 5)];
    let totals = dir_byte_totals(&files);
    assert_eq!(totals[0].path, "");
    assert_eq!(totals[0].bytes, 12);
}

#[test]
fn totals_that_overflow_are_detected() {
    let files = vec![file("a/x", u64::MAX), file("b", 1)];
    assert!(!dir_totals_fit(&files));
    let fits = vec![file("a/x", u64::MAX - 1), file("b", 1)];
    assert!(dir_totals_fit(&fits));
    assert_eq!(dir_byte_totals(&fits)[0].bytes, u64::MAX);
}

#[test]
fn no_files_no_directories() {
    assert!(dir_byte_totals(&Vec::new()).is_empty());
}
