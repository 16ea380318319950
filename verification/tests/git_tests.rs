use ide_server::git::{
    branch_from_rev_parse, git_status_from, git_status_of, git_tree_of, parse_ls_tree,
    parse_porcelain_status, porcelain_parses,
};

fn changes(raw: &str) -> Vec<(String, String)> {
    parse_porcelain_status(raw).into_iter().map(|c| (c.path, c.status)).collect()
}

#[test]
fn porcelain_entries_give_path_and_trimmed_status() {
    let raw = " M src/lib.rs\0?? new.txt\0A  added.rs\0";
    assert!(porcelain_parses(raw));
    assert_eq!(
        changes(raw),
        vec![
            ("src/lib.rs".to_string(), "M".to_string()),
            ("new.txt".to_string(), "??".to_string()),
            ("added.rs".to_string(), "A".to_string()),
        ]
    );
}

#[test]
fn porcelain_rename_and_copy_drop_the_origin_field() {
    let raw = "R  new.rs\0old.rs\0C  copy.rs\0orig.rs\0 D gone.rs\0";
    assert_eq!(
        changes(raw),
        vec![
            ("new.rs".to_string(), "R".to_string()),
            ("copy.rs".to_string(), "C".to_string()),
            ("gone.rs".to_string(), "D".to_string()),
        ]
    );
}

#[test]
fn porcelain_rename_at_the_end_has_no_origin_to_drop() {
    assert_eq!(changes("RM a.rs"), vec![("a.rs".to_string(), "RM".to_string())]);
}

#[test]
fn porcelain_short_fields_are_skipped() {
    assert_eq!(changes(""), Vec::<(String, String)>::new());
    assert_eq!(changes("abc\0 M x"), vec![("x".to_string(), "M".to_string())]);
    assert_eq!(changes(" M \0"), Vec::<(String, String)>::new());
    assert_eq!(changes(" M é"), vec![("é".to_string(), "M".to_string())]);
}

#[test]
fn porcelain_field_split_inside_a_character_is_refused() {
    assert!(!porcelain_parses("aé bcd"));
    assert!(!porcelain_parses("ab€cd"));
    assert!(porcelain_parses("éa bcd"));
    assert_eq!(changes("éa bcd"), vec![(" bcd".to_string(), "é".to_string())]);
}

#[test]
fn branch_names() {
    assert_eq!(branch_from_rev_parse(Some("main\n")), Some("main".to_string()));
    assert_eq!(branch_from_rev_parse(Some("HEAD\n")), None);
    assert_eq!(branch_from_rev_parse(Some(" \n")), None);
    assert_eq!(branch_from_rev_parse(None), None);
    assert_eq!(branch_from_rev_parse(Some("feature/x")), Some("feature/x".to_string()));
}

#[test]
fn status_combines_branch_and_changes() {
    let status = git_status_from(Some("main\n"), " M a\0");
    assert_eq!(status.branch, Some("main".to_string()));
    assert_eq!(status.changed.len(), 1);
    assert_eq!(status.changed[0].path, "a");
}

#[test]
fn status_outside_a_repository_is_empty() {
    let status = git_status_of(None);
    assert_eq!(status.branch, None);
    assert!(status.changed.is_empty());
    let inside = git_status_of(Some((Some("HEAD\n"), "?? x\0")));
    assert_eq!(inside.branch, None);
    assert_eq!(inside.changed.len(), 1);
}

#[test]
fn ls_tree_lists_blobs_with_sizes() {
    let raw = "100644 blob 3b18e512dba79e4c8300dd08aeb37f8e728b8dad     1234\tsrc/main.rs\n\
               040000 tree 9bd2c5a2d8e2f5b1e0c4d5f6a7b8c9d0e1f2a3b4       -\tsrc\n\
               160000 commit 0123456789abcdef0123456789abcdef01234567       -\tvendor/lib\n\
               100644 blob aaaa     oops\tREADME.md\r\n\
               malformed line without tab\n\
               100644 blob bbbb\tshort.txt\n\
               100644 blob cccc 7\twith space.txt";
    let files: Vec<(String, u64)> = parse_ls_tree(raw).into_iter().map(|f| (f.path, f.bytes)).collect();
    assert_eq!(
        files,
        vec![
            ("src/main.rs".to_string(), 1234),
            ("README.md".to_string(), 0),
            ("with space.txt".to_string(), 7),
        ]
    );
}

#[test]
fn tree_outside_a_repository_is_empty() {
    assert!(git_tree_of(None).files.is_empty());
    assert_eq!(git_tree_of(Some("100644 blob a 5\tx\n")).files.len(), 1);
    assert_eq!(git_tree_of(Some("")).files.len(), 0);
}
