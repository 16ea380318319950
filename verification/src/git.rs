//! Parsers for the output of `git` plumbing commands: the porcelain status
//! listing, `rev-parse --abbrev-ref HEAD` and the long `ls-tree` listing, and
//! the per-directory size totals built from the latter.

use vstd::prelude::*;
use crate::protocol::{FileStat, GitChange, GitStatus, GitTree};
use crate::text::{
    byte_index, byte_index_exec, char_views, chars_eq_str, chars_of, find_char, find_char_exec,
    is_ws, leading_ws, lemma_leading_ws_bound, lemma_trailing_ws_bound, lemma_utf8_len_prefix_monotone, trailing_ws,
    lines, lines_of, parse_u64_chars, parse_u64_spec, split_chars, split_on, string_from_chars,
    string_from_range, sub_chars, trim, trim_range, utf8_len, utf8_len_below, words, words_of,
};

verus! {

/// The (path, status) pair that a change holds.
pub open spec fn change_view(c: GitChange) -> (Seq<char>, Seq<char>) {
    (c.path@, c.status@)
}

/// The (path, status) pairs of a list of changes, in order.
pub open spec fn change_views(v: Seq<GitChange>) -> Seq<(Seq<char>, Seq<char>)> {
    v.map_values(|c: GitChange| change_view(c))
}

/// Whether a status code names a rename or a copy, whose entry is followed by
/// a field holding the origin path.
pub open spec fn names_origin(status: Seq<char>) -> bool {
    status.len() > 0 && (status[0] == 'R' || status[0] == 'C')
}

/// The change that a porcelain field of at least four bytes describes: the
/// path after byte 3 and the trimmed code in bytes 0..2. `None` when byte 2 or
/// byte 3 falls inside a character, where slicing the field panics.
pub open spec fn change_of(field: Seq<char>) -> Option<(Seq<char>, Seq<char>)> {
    let code_end = byte_index(field, 2);
    let path_start = byte_index(field, 3);
    if code_end is Some && path_start is Some {
        Some((field.skip(path_start->0), trim(field.take(code_end->0))))
    } else {
        None
    }
}

/// `Some(prefix + r)` when `r` is `Some(r)`, else `None`.
pub open spec fn prefixed<A>(prefix: Seq<A>, r: Option<Seq<A>>) -> Option<Seq<A>> {
    match r {
        Some(rest) => Some(prefix + rest),
        None => None,
    }
}

/// The changes that `git status --porcelain=v1 -z` fields describe, in order:
/// fields under four bytes are skipped, and the field after a rename or copy
/// (its origin path) is dropped. `None` when a field cannot be sliced.
pub open spec fn status_changes(fields: Seq<Seq<char>>) -> Option<Seq<(Seq<char>, Seq<char>)>>
    decreases fields.len(),
{
    if fields.len() == 0 {
        Some(seq![])
    } else if utf8_len(fields[0]) < 4 {
        status_changes(fields.drop_first())
    } else {
        match change_of(fields[0]) {
            None => None,
            Some(change) => {
                let rest = if names_origin(change.1) {
                    if fields.len() >= 2 {
                        fields.skip(2)
                    } else {
                        seq![]
                    }
                } else {
                    fields.drop_first()
                };
                prefixed(seq![change], status_changes(rest))
            },
        }
    }
}

/// The changes that the raw NUL-separated porcelain output describes.
pub open spec fn porcelain_changes(raw: Seq<char>) -> Option<Seq<(Seq<char>, Seq<char>)>> {
    status_changes(split_on(raw, '\0'))
}

fn status_changes_exec(fields: &Vec<Vec<char>>) -> (r: Option<Vec<GitChange>>)
    ensures
        match r {
            Some(v) => status_changes(char_views(fields@)) == Some(change_views(v@)),
            None => status_changes(char_views(fields@)) is None,
        },
{
    let ghost fs = char_views(fields@);
    let n = fields.len();
    let mut out: Vec<GitChange> = Vec::new();
    let mut i: usize = 0;
    assert(fs.skip(0) =~= fs);
    assert(change_views(out@) =~= Seq::<(Seq<char>, Seq<char>)>::empty());
    assert(prefixed(change_views(out@), status_changes(fs)) =~= status_changes(fs)) by {
        match status_changes(fs) {
            Some(r) => {
                assert(change_views(out@) + r =~= r);
            },
            None => {},
        }
    }
    while i < n
        invariant
            n == fields@.len(),
            fs == char_views(fields@),
            fs.len() == n,
            i <= n,
            status_changes(fs) == prefixed(change_views(out@), status_changes(fs.skip(i as int))),
        decreases n - i,
    {
        let ghost rest = fs.skip(i as int);
        let f = &fields[i];
        assert(rest[0] == f@);
        if utf8_len_below(f, 4) {
            assert(rest.drop_first() =~= fs.skip(i + 1));
            i = i + 1;
        } else {
            let code_end = byte_index_exec(f, 2);
            let path_start = byte_index_exec(f, 3);
            match (code_end, path_start) {
                (Some(a), Some(b)) => {
                    proof {
                        assert(a <= f@.len() && b <= f@.len()) by {
                            let ca = choose|k: int|
                                0 <= k <= f@.len() && #[trigger] utf8_len(f@.take(k)) == 2;
                            let cb = choose|k: int|
                                0 <= k <= f@.len() && #[trigger] utf8_len(f@.take(k)) == 3;
                        }
                    }
                    let code = sub_chars(f, 0, a);
                    let (lo, hi) = trim_range(&code);
                    let status = string_from_range(&code, lo, hi);
                    let path = string_from_range(f, b, f.len());
                    assert(code@ =~= f@.take(a as int));
                    let origin = hi > lo && (code[lo] == 'R' || code[lo] == 'C');
                    assert(status@.len() > 0 ==> status@[0] == code@[lo as int]);
                    let ghost change = (path@, status@);
                    assert(change_of(f@) == Some(change));
                    let ghost old_out = change_views(out@);
                    out.push(GitChange { path, status });
                    assert(change_views(out@) =~= old_out + seq![change]);
                    let next = if origin {
                        if n - i >= 2 {
                            i + 2
                        } else {
                            n
                        }
                    } else {
                        i + 1
                    };
                    proof {
                        assert(origin == names_origin(change.1));
                        if origin {
                            if rest.len() >= 2 {
                                assert(rest.skip(2) =~= fs.skip(next as int));
                            } else {
                                assert(fs.skip(next as int) =~= Seq::<Seq<char>>::empty());
                            }
                        } else {
                            assert(rest.drop_first() =~= fs.skip(next as int));
                        }
                        match status_changes(fs.skip(next as int)) {
                            Some(r) => {
                                assert(old_out + (seq![change] + r) =~= (old_out + seq![change])
                                    + r);
                            },
                            None => {},
                        }
                    }
                    i = next;
                },
                _ => {
                    assert(change_of(f@) is None);
                    return None;
                },
            }
        }
    }
    assert(fs.skip(n as int) =~= Seq::<Seq<char>>::empty());
    assert(change_views(out@) + seq![] =~= change_views(out@));
    Some(out)
}

/// Whether every entry of a porcelain listing can be sliced as `git status`
/// output is (byte 2 and byte 3 of each entry of four or more bytes start a
/// character).
pub fn porcelain_parses(raw: &str) -> (r: bool)
    ensures
        r == porcelain_changes(raw@) is Some,
{
    let v = chars_of(raw);
    let fields = split_chars(&v, '\0');
    status_changes_exec(&fields).is_some()
}

/// The changes listed by `git status --porcelain=v1 -z`: each NUL-separated
/// entry `XY path` gives the path and the trimmed status letters; entries
/// shorter than four bytes are skipped, and a rename or copy drops the origin
/// path in the field after it.
pub fn parse_porcelain_status(raw: &str) -> (changes: Vec<GitChange>)
    requires
        porcelain_changes(raw@) is Some,
    ensures
        Some(change_views(changes@)) == porcelain_changes(raw@),
{
    let v = chars_of(raw);
    let fields = split_chars(&v, '\0');
    match status_changes_exec(&fields) {
        Some(changes) => changes,
        None => Vec::new(),
    }
}


/// Each character of an ASCII prefix takes one byte.
proof fn lemma_ascii_prefix_bytes(s: Seq<char>, k: int)
    requires
        0 <= k <= s.len(),
        forall|j: int| 0 <= j < k ==> (#[trigger] s[j] as u32) < 0x80,
    ensures
        utf8_len(s.take(k)) == k,
    decreases k,
{
    if k > 0 {
        lemma_ascii_prefix_bytes(s, k - 1);
        assert(s.take(k).drop_last() =~= s.take(k - 1));
    }
}

/// Every character takes at least one byte.
proof fn lemma_utf8_len_at_least_len(s: Seq<char>)
    ensures
        utf8_len(s) >= s.len(),
    decreases s.len(),
{
    if s.len() > 0 {
        lemma_utf8_len_at_least_len(s.drop_last());
    }
}

/// In a field whose first `k` characters are ASCII, byte `k` starts
/// character `k`.
proof fn lemma_ascii_byte_index(s: Seq<char>, k: int)
    requires
        0 <= k <= s.len(),
        forall|j: int| 0 <= j < k ==> (#[trigger] s[j] as u32) < 0x80,
    ensures
        byte_index(s, k) == Some(k),
{
    lemma_ascii_prefix_bytes(s, k);
    assert(utf8_len(s.take(k)) == k);
    let c = choose|j: int| 0 <= j <= s.len() && #[trigger] utf8_len(s.take(j)) == k;
    if c < k {
        lemma_utf8_len_prefix_monotone(s, c, k);
    } else if c > k {
        lemma_utf8_len_prefix_monotone(s, k, c);
    }
}

/// A rename or copy entry consumes the field after it: when the status
/// letters of a porcelain entry (after trimming) start with `R` or `C`, as in
/// `RM`, `RD`, `CM`, ` R`, the entry gives one change (its path after byte 3,
/// its trimmed code) and the next field, the origin path, gives none, whatever
/// it holds.
pub proof fn lemma_rename_consumes_origin(
    entry: Seq<char>,
    origin: Seq<char>,
    rest: Seq<Seq<char>>,
)
    requires
        entry.len() >= 4,
        forall|j: int| 0 <= j < 3 ==> (#[trigger] entry[j] as u32) < 0x80,
        entry[0] == 'R' || entry[0] == 'C' || (entry[0] == ' ' && (entry[1] == 'R' || entry[1]
            == 'C')),
    ensures
        status_changes(seq![entry, origin] + rest) == prefixed(
            seq![(entry.skip(3), trim(entry.take(2)))],
            status_changes(rest),
        ),
{
    let fields = seq![entry, origin] + rest;
    assert(fields[0] == entry);
    assert(fields.skip(2) =~= rest);
    lemma_utf8_len_at_least_len(entry);
    lemma_ascii_byte_index(entry, 2);
    lemma_ascii_byte_index(entry, 3);
    let c = entry.take(2);
    assert(c[0] == entry[0] && c[1] == entry[1]);
    let code = trim(c);
    if entry[0] == ' ' {
        assert(is_ws(c[0]));
        assert(!is_ws(c.drop_first()[0]));
        assert(leading_ws(c.drop_first()) == 0);
        assert(leading_ws(c) == 1);
        let t = c.skip(1);
        assert(t[0] == c[1]);
        assert(t.last() == c[1]);
        assert(trailing_ws(t) == 0);
        assert(t.take(t.len() - 0) =~= t);
        assert(code[0] == entry[1]);
    } else {
        assert(!is_ws(c[0]));
        assert(leading_ws(c) == 0);
        let t = c.skip(0);
        assert(t =~= c);
        lemma_trailing_ws_bound(t);
        if trailing_ws(t) == 2 {
            assert(is_ws(t[0]));
        }
        assert(code.len() >= 1);
        assert(code[0] == c[0]);
    }
    assert(names_origin(code));
    assert(change_of(entry) == Some((entry.skip(3), code)));
}

/// Any other entry of four or more bytes gives one change (its path after
/// byte 3, its trimmed code) and leaves the next field to be read as an entry
/// of its own.
pub proof fn lemma_plain_entry_keeps_next(entry: Seq<char>, rest: Seq<Seq<char>>)
    requires
        entry.len() >= 4,
        forall|j: int| 0 <= j < 3 ==> (#[trigger] entry[j] as u32) < 0x80,
        entry[0] != 'R' && entry[0] != 'C' && entry[1] != 'R' && entry[1] != 'C',
    ensures
        status_changes(seq![entry] + rest) == prefixed(
            seq![(entry.skip(3), trim(entry.take(2)))],
            status_changes(rest),
        ),
{
    let fields = seq![entry] + rest;
    assert(fields[0] == entry);
    assert(fields.drop_first() =~= rest);
    lemma_utf8_len_at_least_len(entry);
    lemma_ascii_byte_index(entry, 2);
    lemma_ascii_byte_index(entry, 3);
    let c = entry.take(2);
    let code = trim(c);
    lemma_leading_ws_bound(c);
    let l = leading_ws(c);
    let t = c.skip(l as int);
    lemma_trailing_ws_bound(t);
    assert(code == t.take(t.len() - trailing_ws(t)));
    if code.len() > 0 {
        assert(code[0] == t[0]);
        assert(t[0] == c[l as int]);
        assert(c[0] == entry[0] && c[1] == entry[1]);
    }
    assert(!names_origin(code));
    assert(change_of(entry) == Some((entry.skip(3), code)));
}

/// The characters an optional string holds.
pub open spec fn opt_view(o: Option<String>) -> Option<Seq<char>> {
    match o {
        Some(s) => Some(s@),
        None => None,
    }
}

/// The branch that `git rev-parse --abbrev-ref HEAD` names, from its output
/// (`None` when the command failed): the trimmed output, unless it is empty
/// or the literal `HEAD` that a detached head prints.
pub open spec fn branch_name(output: Option<Seq<char>>) -> Option<Seq<char>> {
    match output {
        None => None,
        Some(out) => {
            let t = trim(out);
            if t.len() == 0 || t == "HEAD"@ {
                None
            } else {
                Some(t)
            }
        },
    }
}

/// The branch named by the output of `git rev-parse --abbrev-ref HEAD`.
pub fn branch_from_rev_parse(output: Option<&str>) -> (branch: Option<String>)
    ensures
        opt_view(branch) == branch_name(match output {
            Some(s) => Some(s@),
            None => None,
        }),
{
    match output {
        None => None,
        Some(out) => {
            let v = chars_of(out);
            let (lo, hi) = trim_range(&v);
            let t = sub_chars(&v, lo, hi);
            if t.len() == 0 || chars_eq_str(&t, "HEAD") {
                None
            } else {
                Some(string_from_chars(&t))
            }
        },
    }
}

/// The status of a repository from the output of `rev-parse --abbrev-ref
/// HEAD` (if it succeeded) and of `status --porcelain=v1 -z`.
pub fn git_status_from(branch_output: Option<&str>, porcelain: &str) -> (status: GitStatus)
    requires
        porcelain_changes(porcelain@) is Some,
    ensures
        opt_view(status.branch) == branch_name(match branch_output {
            Some(s) => Some(s@),
            None => None,
        }),
        Some(change_views(status.changed@)) == porcelain_changes(porcelain@),
{
    let branch = branch_from_rev_parse(branch_output);
    let changed = parse_porcelain_status(porcelain);
    GitStatus { branch, changed }
}

/// The (path, size) pair that a file entry holds.
pub open spec fn file_view(f: FileStat) -> (Seq<char>, u64) {
    (f.path@, f.bytes)
}

/// The (path, size) pairs of a list of file entries, in order.
pub open spec fn file_views(v: Seq<FileStat>) -> Seq<(Seq<char>, u64)> {
    v.map_values(|f: FileStat| file_view(f))
}

/// The blob that one line of `git ls-tree -r -l` lists: the line is
/// `<mode> <kind> <oid> <size>` (whitespace separated), a tab, then the path.
/// Lines without a tab, with fewer than four fields before it, or of another
/// kind than `blob` list none; a size that does not parse counts as 0.
pub open spec fn tree_entry(line: Seq<char>) -> Option<(Seq<char>, u64)> {
    let tab = find_char(line, '\t');
    if tab < 0 {
        None
    } else {
        let fields = words(line.take(tab));
        if fields.len() < 4 || fields[1] != "blob"@ {
            None
        } else {
            Some(
                (
                    line.skip(tab + 1),
                    match parse_u64_spec(fields[3]) {
                        Some(b) => b,
                        None => 0,
                    },
                ),
            )
        }
    }
}

/// The blobs that a sequence of `ls-tree` lines lists, in order.
pub open spec fn tree_files(ls: Seq<Seq<char>>) -> Seq<(Seq<char>, u64)>
    decreases ls.len(),
{
    if ls.len() == 0 {
        seq![]
    } else {
        match tree_entry(ls[0]) {
            Some(e) => seq![e] + tree_files(ls.drop_first()),
            None => tree_files(ls.drop_first()),
        }
    }
}

fn tree_entry_exec(line: &Vec<char>) -> (r: Option<FileStat>)
    ensures
        match r {
            Some(f) => tree_entry(line@) == Some(file_view(f)),
            None => tree_entry(line@) is None,
        },
{
    match find_char_exec(line, '\t') {
        None => None,
        Some(tab) => {
            proof {
                crate::text::lemma_find_char(line@, '\t');
                assert(find_char(line@, '\t') == tab as int);
                assert(tab < line@.len());
            }
            let line_len = line.len();
            let path_start = tab + 1;
            let meta = sub_chars(line, 0, tab);
            let fields = words_of(&meta);
            assert(meta@ =~= line@.take(tab as int));
            if fields.len() < 4 {
                return None;
            }
            assert(char_views(fields@)[1] == fields@[1]@);
            if !chars_eq_str(&fields[1], "blob") {
                return None;
            }
            assert(char_views(fields@)[3] == fields@[3]@);
            let bytes = match parse_u64_chars(&fields[3]) {
                Some(b) => b,
                None => 0,
            };
            let path = string_from_range(line, path_start, line_len);
            assert(line@.subrange(tab + 1, line@.len() as int) =~= line@.skip(tab + 1));
            Some(FileStat { path, bytes })
        },
    }
}

/// The blobs listed by `git ls-tree -r -l HEAD`, in listing order.
pub fn parse_ls_tree(raw: &str) -> (files: Vec<FileStat>)
    ensures
        file_views(files@) == tree_files(lines(raw@)),
{
    let v = chars_of(raw);
    let ls = lines_of(&v);
    let ghost all = char_views(ls@);
    let n = ls.len();
    let mut out: Vec<FileStat> = Vec::new();
    let mut i: usize = 0;
    assert(all.skip(0) =~= all);
    assert(file_views(out@) + tree_files(all) =~= tree_files(all));
    while i < n
        invariant
            n == ls@.len(),
            all == char_views(ls@),
            all.len() == n,
            all == lines(v@),
            i <= n,
            tree_files(all) == file_views(out@) + tree_files(all.skip(i as int)),
        decreases n - i,
    {
        let ghost rest = all.skip(i as int);
        assert(rest[0] == ls@[i as int]@);
        assert(rest.drop_first() =~= all.skip(i + 1));
        let ghost old_out = file_views(out@);
        match tree_entry_exec(&ls[i]) {
            Some(f) => {
                let ghost e = file_view(f);
                out.push(f);
                assert(file_views(out@) =~= old_out.push(e));
                assert(old_out + (seq![e] + tree_files(rest.drop_first())) =~= old_out.push(e)
                    + tree_files(rest.drop_first()));
            },
            None => {},
        }
        i = i + 1;
    }
    assert(all.skip(n as int) =~= Seq::<Seq<char>>::empty());
    assert(file_views(out@) + seq![] =~= file_views(out@));
    out
}

/// Every tracked file of the listing that `git ls-tree -r -l HEAD` printed.
pub fn git_tree_from(raw: &str) -> (tree: GitTree)
    ensures
        file_views(tree.files@) == tree_files(lines(raw@)),
{
    GitTree { files: parse_ls_tree(raw) }
}


/// The status of a worktree: outside a repository (`None`) there is no
/// branch and no change, rather than an error; inside one, the outputs of
/// `rev-parse --abbrev-ref HEAD` (if it succeeded) and of the porcelain
/// status give them.
pub fn git_status_of(repository: Option<(Option<&str>, &str)>) -> (status: GitStatus)
    requires
        match repository {
            Some((_, porcelain)) => porcelain_changes(porcelain@) is Some,
            None => true,
        },
    ensures
        match repository {
            None => status.branch is None && status.changed@.len() == 0,
            Some((branch_output, porcelain)) => {
                &&& opt_view(status.branch) == branch_name(match branch_output {
                    Some(s) => Some(s@),
                    None => None,
                })
                &&& Some(change_views(status.changed@)) == porcelain_changes(porcelain@)
            },
        },
{
    match repository {
        None => GitStatus { branch: None, changed: Vec::new() },
        Some((branch_output, porcelain)) => git_status_from(branch_output, porcelain),
    }
}

/// The tracked files of a worktree: none outside a repository (`None`),
/// else those of the `ls-tree -r -l HEAD` listing.
pub fn git_tree_of(listing: Option<&str>) -> (tree: GitTree)
    ensures
        match listing {
            None => tree.files@.len() == 0,
            Some(raw) => file_views(tree.files@) == tree_files(lines(raw@)),
        },
{
    match listing {
        None => GitTree { files: Vec::new() },
        Some(raw) => git_tree_from(raw),
    }
}

} // verus!
