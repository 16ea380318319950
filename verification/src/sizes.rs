//! Per-directory weight of a repository: which tracked files count at a
//! discount, the directories above each file, and the byte totals summed into
//! every directory.

use vstd::prelude::*;
use crate::git::{file_view, file_views};
use crate::protocol::{DirTotal, FileStat};
use crate::text::{
    ascii_lower, char_views, chars_of, contains_seq, contains_str, ends_with, ends_with_str,
    is_one_of, lemma_lex_lt_strict_total, lemma_lex_lt_transitive, lemma_rfind_char, lex_lt,
    compare_chars, rfind_char, rfind_in_prefix, split_chars, split_on, string_from_chars,
    sub_chars, to_ascii_lower, Order,
};

verus! {

/// Path segments that mark tests, fixtures and documentation.
pub open spec fn test_segments() -> Seq<Seq<char>> {
    seq![
        "tests"@,
        "test"@,
        "__tests__"@,
        "specs"@,
        "spec"@,
        "golden"@,
        "docs"@,
        "doc"@,
        "fixtures"@,
        "snapshots"@,
    ]
}

/// File extensions of source code.
pub open spec fn code_exts() -> Seq<Seq<char>> {
    seq![
        "rs"@,
        "ts"@,
        "tsx"@,
        "js"@,
        "jsx"@,
        "mjs"@,
        "py"@,
        "go"@,
        "c"@,
        "h"@,
        "cpp"@,
        "cc"@,
        "hpp"@,
        "swift"@,
        "kt"@,
        "java"@,
        "rb"@,
        "sh"@,
        "bash"@,
        "zig"@,
        "lua"@,
        "sql"@,
        "css"@,
        "html"@,
        "glsl"@,
        "wgsl"@,
    ]
}

fn test_segment_list() -> (l: Vec<&'static str>)
    ensures
        l@.map_values(|s: &str| s@) == test_segments(),
{
    let mut l: Vec<&'static str> = Vec::new();
    l.push("tests");
    l.push("test");
    l.push("__tests__");
    l.push("specs");
    l.push("spec");
    l.push("golden");
    l.push("docs");
    l.push("doc");
    l.push("fixtures");
    l.push("snapshots");
    assert(l@.map_values(|s: &str| s@) =~= test_segments());
    l
}

fn code_ext_list() -> (l: Vec<&'static str>)
    ensures
        l@.map_values(|s: &str| s@) == code_exts(),
{
    let mut l: Vec<&'static str> = Vec::new();
    l.push("rs");
    l.push("ts");
    l.push("tsx");
    l.push("js");
    l.push("jsx");
    l.push("mjs");
    l.push("py");
    l.push("go");
    l.push("c");
    l.push("h");
    l.push("cpp");
    l.push("cc");
    l.push("hpp");
    l.push("swift");
    l.push("kt");
    l.push("java");
    l.push("rb");
    l.push("sh");
    l.push("bash");
    l.push("zig");
    l.push("lua");
    l.push("sql");
    l.push("css");
    l.push("html");
    l.push("glsl");
    l.push("wgsl");
    assert(l@.map_values(|s: &str| s@) =~= code_exts());
    l
}

/// The part of `s` after its last `c`, or all of `s` (what `rsplit(c).next()`
/// gives).
pub open spec fn last_piece(s: Seq<char>, c: char) -> Seq<char> {
    let j = rfind_char(s, c);
    if j < 0 {
        s
    } else {
        s.skip(j + 1)
    }
}

/// Whether a tracked file weighs at a discount: a segment of its lower-cased
/// path names tests, fixtures or docs, its name marks a test, or its
/// extension is not one of source code.
pub open spec fn is_discounted(path: Seq<char>) -> bool {
    let lower = path.map_values(|c: char| ascii_lower(c));
    let segments = split_on(lower, '/');
    let name = last_piece(lower, '/');
    let ext = last_piece(name, '.');
    ||| exists|i: int| 0 <= i < segments.len() && test_segments().contains(#[trigger] segments[i])
    ||| contains_seq(name, ".test."@)
    ||| contains_seq(name, ".spec."@)
    ||| ends_with(name, "_test.rs"@)
    ||| !code_exts().contains(ext)
}

/// The discount goes by whole segments: a file under a segment that, lower
/// cased, equals one of the test/doc names (`tests`, `test`, `__tests__`,
/// `specs`, `spec`, `golden`, `docs`, `doc`, `fixtures`, `snapshots`) is
/// discounted; a code file (its extension one of source code, its name
/// without `.test.`, `.spec.` or a `_test.rs` ending) none of whose segments
/// equals one of those names is not, though a segment may contain one (as
/// `inspector.rs` contains `spec`).
pub proof fn lemma_discount_by_whole_segments(path: Seq<char>)
    ensures
        ({
            let lower = path.map_values(|c: char| ascii_lower(c));
            let segments = split_on(lower, '/');
            (exists|i: int, t: int|
                0 <= i < segments.len() && 0 <= t < test_segments().len() && #[trigger] segments[i]
                    == #[trigger] test_segments()[t]) ==> is_discounted(path)
        }),
        ({
            let lower = path.map_values(|c: char| ascii_lower(c));
            let segments = split_on(lower, '/');
            let name = last_piece(lower, '/');
            let ext = last_piece(name, '.');
            (forall|i: int, t: int|
                0 <= i < segments.len() && 0 <= t < test_segments().len() ==> #[trigger] segments[i]
                    != #[trigger] test_segments()[t]) && !contains_seq(name, ".test."@)
                && !contains_seq(name, ".spec."@) && !ends_with(name, "_test.rs"@) && (exists|e: int|
                0 <= e < code_exts().len() && #[trigger] code_exts()[e] == ext) ==> !is_discounted(path)
        }),
{
    let lower = path.map_values(|c: char| ascii_lower(c));
    let segments = split_on(lower, '/');
    let name = last_piece(lower, '/');
    let ext = last_piece(name, '.');
    if exists|i: int, t: int|
        0 <= i < segments.len() && 0 <= t < test_segments().len() && #[trigger] segments[i]
            == #[trigger] test_segments()[t] {
        let (i, t) = choose|i: int, t: int|
            0 <= i < segments.len() && 0 <= t < test_segments().len() && #[trigger] segments[i]
                == #[trigger] test_segments()[t];
        assert(test_segments().contains(segments[i]));
    }
    if forall|i: int, t: int|
        0 <= i < segments.len() && 0 <= t < test_segments().len() ==> #[trigger] segments[i]
            != #[trigger] test_segments()[t] {
        assert forall|i: int| 0 <= i < segments.len() implies !test_segments().contains(
            #[trigger] segments[i],
        ) by {
            if test_segments().contains(segments[i]) {
                let t = choose|t: int| 0 <= t < test_segments().len() && test_segments()[t] == segments[i];
                assert(segments[i] != test_segments()[t]);
            }
        }
    }
    if exists|e: int| 0 <= e < code_exts().len() && #[trigger] code_exts()[e] == ext {
        let e = choose|e: int| 0 <= e < code_exts().len() && #[trigger] code_exts()[e] == ext;
        assert(code_exts().contains(ext));
    }
}

fn in_list(v: &Vec<char>, list: &Vec<&str>, Ghost(spec_list): Ghost<Seq<Seq<char>>>) -> (r: bool)
    requires
        list@.map_values(|s: &str| s@) == spec_list,
    ensures
        r == spec_list.contains(v@),
{
    let r = is_one_of(v, list);
    proof {
        if r {
            let i = choose|i: int| 0 <= i < list@.len() && v@ == (#[trigger] list@[i])@;
            assert(spec_list[i] == list@[i]@);
        } else {
            assert forall|i: int| 0 <= i < spec_list.len() implies spec_list[i] != v@ by {
                assert(spec_list[i] == list@[i]@);
            }
        }
    }
    r
}

/// `v[from..]`.
fn last_piece_exec(v: &Vec<char>, c: char) -> (r: Vec<char>)
    ensures
        r@ == last_piece(v@, c),
{
    let n = v.len();
    match rfind_in_prefix(v, n, c) {
        None => {
            assert(v@.take(n as int) =~= v@);
            sub_chars(v, 0, n)
        },
        Some(j) => {
            assert(v@.take(n as int) =~= v@);
            proof {
                lemma_rfind_char(v@, c);
            }
            let r = sub_chars(v, j + 1, n);
            assert(r@ =~= v@.skip(j + 1));
            r
        },
    }
}

/// Whether the tracked file at `path` weighs at a discount in the size view
/// (tests, fixtures, docs and non-code files do).
pub fn is_discounted_path(path: &str) -> (r: bool)
    ensures
        r == is_discounted(path@),
{
    let v = chars_of(path);
    let lower = to_ascii_lower(&v);
    let segments = split_chars(&lower, '/');
    let tests = test_segment_list();
    let mut segment_hit = false;
    let mut i: usize = 0;
    while i < segments.len()
        invariant
            i <= segments@.len(),
            char_views(segments@) == split_on(lower@, '/'),
            tests@.map_values(|s: &str| s@) == test_segments(),
            segment_hit == exists|k: int|
                0 <= k < i && test_segments().contains(#[trigger] char_views(segments@)[k]),
        decreases segments@.len() - i,
    {
        let hit = in_list(&segments[i], &tests, Ghost(test_segments()));
        assert(char_views(segments@)[i as int] == segments@[i as int]@);
        segment_hit = segment_hit || hit;
        i = i + 1;
    }
    let name = last_piece_exec(&lower, '/');
    let test_name = contains_str(&name, ".test.") || contains_str(&name, ".spec.")
        || ends_with_str(&name, "_test.rs");
    let ext = last_piece_exec(&name, '.');
    let exts = code_ext_list();
    let code = in_list(&ext, &exts, Ghost(code_exts()));
    segment_hit || test_name || !code
}


/// The directories above `p` walking up from the innermost: the prefix of `p`
/// before each `/`, from the last `/` to the first.
pub open spec fn dirs_above(p: Seq<char>) -> Seq<Seq<char>>
    decreases p.len(),
{
    let j = rfind_char(p, '/');
    if j < 0 {
        seq![]
    } else {
        proof {
            lemma_rfind_char(p, '/');
        }
        seq![p.take(j)] + dirs_above(p.take(j))
    }
}

/// The directories whose size a file at `p` adds to: those above it, then
/// the root (the empty path).
pub open spec fn ancestors(p: Seq<char>) -> Seq<Seq<char>> {
    dirs_above(p).push(Seq::<char>::empty())
}

fn ancestor_chars(p: &Vec<char>) -> (r: Vec<Vec<char>>)
    ensures
        char_views(r@) == ancestors(p@),
{
    let mut out: Vec<Vec<char>> = Vec::new();
    let mut end = p.len();
    assert(p@.take(end as int) =~= p@);
    assert(char_views(out@) + dirs_above(p@) =~= dirs_above(p@));
    loop
        invariant
            end <= p@.len(),
            dirs_above(p@) == char_views(out@) + dirs_above(p@.take(end as int)),
        ensures
            dirs_above(p@) == char_views(out@),
        decreases end,
    {
        match rfind_in_prefix(p, end, '/') {
            None => {
                assert(dirs_above(p@.take(end as int)) =~= Seq::<Seq<char>>::empty());
                assert(char_views(out@) + seq![] =~= char_views(out@));
                break;
            },
            Some(j) => {
                let ghost cur = p@.take(end as int);
                proof {
                    lemma_rfind_char(cur, '/');
                    assert(cur.take(j as int) =~= p@.take(j as int));
                }
                let d = sub_chars(p, 0, j);
                let ghost old_out = char_views(out@);
                out.push(d);
                assert(char_views(out@) =~= old_out.push(p@.take(j as int)));
                assert(old_out + (seq![p@.take(j as int)] + dirs_above(p@.take(j as int)))
                    =~= old_out.push(p@.take(j as int)) + dirs_above(p@.take(j as int)));
                end = j;
            },
        }
    }
    let ghost old_out = char_views(out@);
    out.push(Vec::new());
    assert(char_views(out@) =~= old_out.push(Seq::<char>::empty()));
    assert(old_out + seq![] =~= old_out);
    out
}

/// The directories a file at `path` counts toward, innermost first, ending
/// with the root `""`.
pub fn ancestor_dirs(path: &str) -> (dirs: Vec<String>)
    ensures
        dirs@.map_values(|s: String| s@) == ancestors(path@),
{
    let v = chars_of(path);
    let a = ancestor_chars(&v);
    let mut out: Vec<String> = Vec::new();
    let mut i: usize = 0;
    while i < a.len()
        invariant
            i <= a@.len(),
            char_views(a@) == ancestors(v@),
            v@ == path@,
            out@.map_values(|s: String| s@) == char_views(a@).take(i as int),
        decreases a@.len() - i,
    {
        let s = string_from_chars(&a[i]);
        assert(char_views(a@)[i as int] == a@[i as int]@);
        let ghost before = out@.map_values(|s: String| s@);
        out.push(s);
        assert(out@.map_values(|s: String| s@) =~= before.push(s@));
        i = i + 1;
        assert(out@.map_values(|s: String| s@) =~= char_views(a@).take(i as int));
    }
    assert(char_views(a@).take(i as int) =~= char_views(a@));
    out
}

/// What a file of `b` bytes adds to directory `d`, for each time `d` is
/// among `dirs`.
pub open spec fn added(dirs: Seq<Seq<char>>, d: Seq<char>, b: int) -> int
    decreases dirs.len(),
{
    if dirs.len() == 0 {
        0
    } else {
        added(dirs.drop_last(), d, b) + (if dirs.last() == d {
            b
        } else {
            0
        })
    }
}

/// The byte total of directory `d` over `files`: every file adds its size to
/// each directory above it and to the root.
pub open spec fn dir_total(files: Seq<(Seq<char>, u64)>, d: Seq<char>) -> int
    decreases files.len(),
{
    if files.len() == 0 {
        0
    } else {
        dir_total(files.drop_last(), d) + added(ancestors(files.last().0), d, files.last().1 as int)
    }
}

/// Whether `d` is a directory above (or the root of) one of `files`.
pub open spec fn is_dir_of(files: Seq<(Seq<char>, u64)>, d: Seq<char>) -> bool {
    exists|i: int| 0 <= i < files.len() && #[trigger] ancestors(files[i].0).contains(d)
}

/// Every directory total fits in a `u64`.
pub open spec fn totals_fit(files: Seq<(Seq<char>, u64)>) -> bool {
    forall|d: Seq<char>| #[trigger] dir_total(files, d) <= u64::MAX
}

/// The (path, bytes) pairs of a list of totals.
pub open spec fn total_views(v: Seq<DirTotal>) -> Seq<(Seq<char>, u64)> {
    v.map_values(|t: DirTotal| (t.path@, t.bytes))
}

/// Paths strictly increasing in code-point order.
pub open spec fn strictly_sorted(keys: Seq<Seq<char>>) -> bool {
    forall|i: int, j: int| 0 <= i < j < keys.len() ==> lex_lt(#[trigger] keys[i], #[trigger] keys[j])
}

proof fn lemma_added_nonneg(dirs: Seq<Seq<char>>, d: Seq<char>, b: int, k: int)
    requires
        b >= 0,
        0 <= k <= dirs.len(),
    ensures
        0 <= added(dirs.take(k), d, b) <= added(dirs, d, b),
        !dirs.contains(d) ==> added(dirs, d, b) == 0,
    decreases dirs.len(),
{
    if dirs.len() > 0 {
        if k < dirs.len() {
            assert(dirs.drop_last().take(k) =~= dirs.take(k));
            lemma_added_nonneg(dirs.drop_last(), d, b, k);
        } else {
            assert(dirs.take(k) =~= dirs);
            lemma_added_nonneg(dirs.drop_last(), d, b, k - 1);
        }
        if !dirs.contains(d) {
            assert forall|x: Seq<char>| dirs.drop_last().contains(x) implies dirs.contains(x) by {
                let i = choose|i: int| 0 <= i < dirs.drop_last().len() && dirs.drop_last()[i] == x;
                assert(dirs[i] == x);
            }
            assert(dirs.last() != d) by {
                assert(dirs[dirs.len() - 1] == dirs.last());
            }
        }
    } else {
        assert(dirs.take(k) =~= dirs);
    }
}

proof fn lemma_dir_total_prefix(files: Seq<(Seq<char>, u64)>, d: Seq<char>, k: int)
    requires
        0 <= k <= files.len(),
    ensures
        0 <= dir_total(files.take(k), d) <= dir_total(files, d),
        !is_dir_of(files, d) ==> dir_total(files, d) == 0,
    decreases files.len(),
{
    if files.len() > 0 {
        let f = files.drop_last();
        lemma_added_nonneg(ancestors(files.last().0), d, files.last().1 as int, 0);
        if k < files.len() {
            assert(f.take(k) =~= files.take(k));
            lemma_dir_total_prefix(f, d, k);
        } else {
            assert(files.take(k) =~= files);
            lemma_dir_total_prefix(f, d, k - 1);
        }
        if !is_dir_of(files, d) {
            assert(!is_dir_of(f, d)) by {
                if is_dir_of(f, d) {
                    let i = choose|i: int| 0 <= i < f.len() && #[trigger] ancestors(f[i].0).contains(d);
                    assert(files[i] == f[i]);
                    assert(ancestors(files[i].0).contains(d));
                }
            }
            assert(!ancestors(files.last().0).contains(d)) by {
                if ancestors(files.last().0).contains(d) {
                    assert(ancestors(files[files.len() - 1].0).contains(d));
                }
            }
        }
    } else {
        assert(files.take(k) =~= files);
    }
}

/// The directories listed in `keys` are exactly those of `prev` and `done`.
pub open spec fn keys_cover(
    prev: Seq<(Seq<char>, u64)>,
    done: Seq<Seq<char>>,
    keys: Seq<Vec<char>>,
) -> bool {
    forall|d: Seq<char>| #[trigger] seen(prev, done, d) == listed(keys, d)
}

/// `d` is a directory of `prev` or one of `done`.
pub open spec fn seen(prev: Seq<(Seq<char>, u64)>, done: Seq<Seq<char>>, d: Seq<char>) -> bool {
    is_dir_of(prev, d) || done.contains(d)
}

/// `d` is one of `keys`.
pub open spec fn listed(keys: Seq<Vec<char>>, d: Seq<char>) -> bool {
    exists|k: int| 0 <= k < keys.len() && #[trigger] keys[k]@ == d
}

proof fn lemma_cover_absent(
    prev: Seq<(Seq<char>, u64)>,
    done: Seq<Seq<char>>,
    keys: Seq<Vec<char>>,
    kv: Seq<char>,
)
    requires
        keys_cover(prev, done, keys),
        forall|k: int| 0 <= k < keys.len() ==> #[trigger] keys[k]@ != kv,
    ensures
        !is_dir_of(prev, kv),
        !done.contains(kv),
{
    assert(seen(prev, done, kv) == listed(keys, kv));
}

proof fn lemma_cover_present(
    prev: Seq<(Seq<char>, u64)>,
    done: Seq<Seq<char>>,
    next: Seq<Seq<char>>,
    keys: Seq<Vec<char>>,
    kv: Seq<char>,
    idx: int,
)
    requires
        keys_cover(prev, done, keys),
        forall|d: Seq<char>| #[trigger] next.contains(d) == (done.contains(d) || d == kv),
        0 <= idx < keys.len(),
        keys[idx]@ == kv,
    ensures
        keys_cover(prev, next, keys),
{
    assert forall|d: Seq<char>| #[trigger] seen(prev, next, d) == listed(keys, d) by {
        assert(seen(prev, done, d) == listed(keys, d));
        assert(next.contains(d) == (done.contains(d) || d == kv));
        if d == kv {
            assert(keys[idx]@ == d);
        }
    }
}

proof fn lemma_cover_insert(
    prev: Seq<(Seq<char>, u64)>,
    done: Seq<Seq<char>>,
    next: Seq<Seq<char>>,
    old_keys: Seq<Vec<char>>,
    keys: Seq<Vec<char>>,
    kv: Seq<char>,
    pos: int,
)
    requires
        keys_cover(prev, done, old_keys),
        forall|d: Seq<char>| #[trigger] next.contains(d) == (done.contains(d) || d == kv),
        0 <= pos <= old_keys.len(),
        keys.len() == old_keys.len() + 1,
        keys[pos]@ == kv,
        forall|k: int| 0 <= k < pos ==> keys[k] == old_keys[k],
        forall|k: int| pos < k < keys.len() ==> keys[k] == old_keys[k - 1],
    ensures
        keys_cover(prev, next, keys),
{
    assert forall|d: Seq<char>| #[trigger] seen(prev, next, d) == listed(keys, d) by {
        assert(seen(prev, done, d) == listed(old_keys, d));
        assert(next.contains(d) == (done.contains(d) || d == kv));
        if d == kv {
            assert(keys[pos]@ == d);
        }
        if exists|k: int| 0 <= k < old_keys.len() && #[trigger] old_keys[k]@ == d {
            let k = choose|k: int| 0 <= k < old_keys.len() && #[trigger] old_keys[k]@ == d;
            if k < pos {
                assert(keys[k] == old_keys[k]);
            } else {
                assert(keys[k + 1] == old_keys[k]);
            }
        }
        if exists|k: int| 0 <= k < keys.len() && #[trigger] keys[k]@ == d {
            let k = choose|k: int| 0 <= k < keys.len() && #[trigger] keys[k]@ == d;
            if k < pos {
                assert(keys[k] == old_keys[k]);
                assert(old_keys[k]@ == d);
            } else if k > pos {
                assert(keys[k] == old_keys[k - 1]);
                assert(old_keys[k - 1]@ == d);
            }
        }
    }
}

/// Where `key` stands in sorted `keys`: `Ok` with its index, or `Err` with
/// the index where inserting it keeps the order.
fn search(keys: &Vec<Vec<char>>, key: &Vec<char>) -> (r: Result<usize, usize>)
    requires
        strictly_sorted(char_views(keys@)),
    ensures
        match r {
            Ok(k) => k < keys@.len() && keys@[k as int]@ == key@,
            Err(p) => p <= keys@.len() && (forall|k: int|
                0 <= k < p ==> lex_lt(#[trigger] keys@[k]@, key@)) && (forall|k: int|
                p <= k < keys@.len() ==> lex_lt(key@, #[trigger] keys@[k]@)),
        },
{
    let mut lo: usize = 0;
    let mut hi: usize = keys.len();
    while lo < hi
        invariant
            lo <= hi <= keys@.len(),
            strictly_sorted(char_views(keys@)),
            forall|k: int| 0 <= k < lo ==> lex_lt(#[trigger] keys@[k]@, key@),
            forall|k: int| hi <= k < keys@.len() ==> lex_lt(key@, #[trigger] keys@[k]@),
        decreases hi - lo,
    {
        let mid = lo + (hi - lo) / 2;
        let ghost mv = keys@[mid as int]@;
        assert(char_views(keys@)[mid as int] == mv);
        match compare_chars(&keys[mid], key) {
            Order::Equal => {
                return Ok(mid);
            },
            Order::Less => {
                assert forall|k: int| 0 <= k < mid + 1 implies lex_lt(#[trigger] keys@[k]@, key@) by {
                    if k < mid {
                        assert(char_views(keys@)[k] == keys@[k]@);
                        assert(lex_lt(char_views(keys@)[k], char_views(keys@)[mid as int]));
                        lemma_lex_lt_transitive(keys@[k]@, mv, key@);
                    }
                }
                lo = mid + 1;
            },
            Order::Greater => {
                assert forall|k: int| mid <= k < keys@.len() implies lex_lt(key@, #[trigger] keys@[k]@) by {
                    if k > mid {
                        assert(char_views(keys@)[k] == keys@[k]@);
                        assert(lex_lt(char_views(keys@)[mid as int], char_views(keys@)[k]));
                        lemma_lex_lt_transitive(key@, mv, keys@[k]@);
                    }
                }
                hi = mid;
            },
        }
    }
    Err(lo)
}


proof fn lemma_is_dir_of_extend(files: Seq<(Seq<char>, u64)>, i: int, d: Seq<char>)
    requires
        0 <= i < files.len(),
    ensures
        is_dir_of(files.take(i + 1), d) == (is_dir_of(files.take(i), d) || ancestors(
            files[i].0,
        ).contains(d)),
{
    let a = files.take(i);
    let b = files.take(i + 1);
    if is_dir_of(b, d) {
        let k = choose|k: int| 0 <= k < b.len() && #[trigger] ancestors(b[k].0).contains(d);
        if k < i {
            assert(a[k] == b[k]);
            assert(ancestors(a[k].0).contains(d));
        }
    }
    if is_dir_of(a, d) {
        let k = choose|k: int| 0 <= k < a.len() && #[trigger] ancestors(a[k].0).contains(d);
        assert(a[k] == b[k]);
        assert(ancestors(b[k].0).contains(d));
    }
    if ancestors(files[i].0).contains(d) {
        assert(b[i] == files[i]);
        assert(ancestors(b[i].0).contains(d));
    }
}

proof fn lemma_added_step(dirs: Seq<Seq<char>>, j: int, d: Seq<char>, b: int)
    requires
        0 <= j < dirs.len(),
    ensures
        added(dirs.take(j + 1), d, b) == added(dirs.take(j), d, b) + (if dirs[j] == d {
            b
        } else {
            0
        }),
        dirs.take(j + 1).contains(d) == (dirs.take(j).contains(d) || dirs[j] == d),
{
    assert(dirs.take(j + 1).drop_last() =~= dirs.take(j));
    assert(dirs.take(j + 1).last() == dirs[j]);
    if dirs.take(j + 1).contains(d) {
        let k = choose|k: int| 0 <= k < j + 1 && #[trigger] dirs.take(j + 1)[k] == d;
        if k < j {
            assert(dirs.take(j)[k] == d);
        }
    }
    if dirs.take(j).contains(d) {
        let k = choose|k: int| 0 <= k < j && #[trigger] dirs.take(j)[k] == d;
        assert(dirs.take(j + 1)[k] == d);
    }
    if dirs[j] == d {
        assert(dirs.take(j + 1)[j] == d);
    }
}

proof fn lemma_dir_total_step(files: Seq<(Seq<char>, u64)>, i: int, d: Seq<char>)
    requires
        0 <= i < files.len(),
    ensures
        dir_total(files.take(i + 1), d) == dir_total(files.take(i), d) + added(
            ancestors(files[i].0),
            d,
            files[i].1 as int,
        ),
{
    assert(files.take(i + 1).drop_last() =~= files.take(i));
    assert(files.take(i + 1).last() == files[i]);
}

/// Sums the sizes of `files` into every directory above them, keeping the
/// directories in code-point order; `None` when a total exceeds `u64`.
fn totals_checked(files: &Vec<FileStat>) -> (r: Option<(Vec<Vec<char>>, Vec<u64>)>)
    ensures
        match r {
            Some((keys, vals)) => {
                &&& totals_fit(file_views(files@))
                &&& keys@.len() == vals@.len()
                &&& strictly_sorted(char_views(keys@))
                &&& forall|k: int|
                    0 <= k < keys@.len() ==> vals@[k] == dir_total(
                        file_views(files@),
                        #[trigger] keys@[k]@,
                    )
                &&& forall|d: Seq<char>|
                    is_dir_of(file_views(files@), d) <==> exists|k: int|
                        0 <= k < keys@.len() && #[trigger] keys@[k]@ == d
            },
            None => !totals_fit(file_views(files@)),
        },
{
    let ghost fv = file_views(files@);
    let n = files.len();
    let mut keys: Vec<Vec<char>> = Vec::new();
    let mut vals: Vec<u64> = Vec::new();
    let mut i: usize = 0;
    assert(fv.take(0) =~= Seq::<(Seq<char>, u64)>::empty());
    while i < n
        invariant
            n == files@.len(),
            fv == file_views(files@),
            fv.len() == n,
            i <= n,
            keys@.len() == vals@.len(),
            strictly_sorted(char_views(keys@)),
            forall|k: int|
                0 <= k < keys@.len() ==> vals@[k] == dir_total(fv.take(i as int), #[trigger] keys@[k]@),
            forall|d: Seq<char>|
                is_dir_of(fv.take(i as int), d) <==> exists|k: int|
                    0 <= k < keys@.len() && #[trigger] keys@[k]@ == d,
        decreases n - i,
    {
        let f = &files[i];
        assert(fv[i as int] == file_view(files@[i as int]));
        let b = f.bytes;
        let pv = chars_of(f.path.as_str());
        let anc = ancestor_chars(&pv);
        let ghost av = char_views(anc@);
        let ghost prev = fv.take(i as int);
        assert(av == ancestors(fv[i as int].0));
        let m = anc.len();
        let mut j: usize = 0;
        assert forall|d: Seq<char>|
            #![trigger av.take(0).contains(d)]
            (is_dir_of(prev, d) || av.take(0).contains(d)) <==> exists|k: int|
                0 <= k < keys@.len() && #[trigger] keys@[k]@ == d by {
            assert(!av.take(0).contains(d));
        }
        assert(av.take(0) =~= Seq::<Seq<char>>::empty());
        assert forall|d: Seq<char>| #[trigger] added(av.take(0), d, b as int) == 0 by {}
        while j < m
            invariant
                n == files@.len(),
                fv == file_views(files@),
                fv.len() == n,
                i < n,
                prev == fv.take(i as int),
                m == anc@.len(),
                av == char_views(anc@),
                av == ancestors(fv[i as int].0),
                b == fv[i as int].1,
                j <= m,
                keys@.len() == vals@.len(),
                strictly_sorted(char_views(keys@)),
                forall|k: int|
                    0 <= k < keys@.len() ==> vals@[k] == dir_total(prev, #[trigger] keys@[k]@)
                        + added(av.take(j as int), keys@[k]@, b as int),
                keys_cover(prev, av.take(j as int), keys@),
            decreases m - j,
        {
            let key = &anc[j];
            let ghost kv = key@;
            assert(av[j as int] == kv);
            proof {
                assert forall|d: Seq<char>|
                    #[trigger] added(av.take(j + 1), d, b as int) == added(
                        av.take(j as int),
                        d,
                        b as int,
                    ) + (if kv == d {
                        b as int
                    } else {
                        0
                    }) && av.take(j + 1).contains(d) == (av.take(j as int).contains(d) || kv == d) by {
                    lemma_added_step(av, j as int, d, b as int);
                }
            }
            match search(&keys, key) {
                Ok(idx) => {
                    let cur = vals[idx];
                    match cur.checked_add(b) {
                        None => {
                            proof {
                                lemma_added_nonneg(av, kv, b as int, j + 1);
                                lemma_dir_total_step(fv, i as int, kv);
                                lemma_dir_total_prefix(fv, kv, i + 1);
                                assert(dir_total(fv, kv) > u64::MAX);
                            }
                            return None;
                        },
                        Some(nv) => {
                            let ghost old_keys = keys@;
                            proof {
                                assert forall|k: int|
                                    0 <= k < keys@.len() && k != idx implies #[trigger] keys@[k]@
                                    != kv by {
                                    lemma_lex_lt_strict_total(kv, kv);
                                    assert(char_views(keys@)[k] == keys@[k]@);
                                    assert(char_views(keys@)[idx as int] == keys@[idx as int]@);
                                }
                            }
                            vals.set(idx, nv);
                            proof {
                                let jj = j + 1;
                                assert forall|k: int| 0 <= k < keys@.len() implies vals@[k]
                                    == dir_total(prev, #[trigger] keys@[k]@) + added(
                                    av.take(jj),
                                    keys@[k]@,
                                    b as int,
                                ) by {
                                    assert(added(av.take(jj), keys@[k]@, b as int) == added(
                                        av.take(j as int),
                                        keys@[k]@,
                                        b as int,
                                    ) + (if kv == keys@[k]@ {
                                        b as int
                                    } else {
                                        0
                                    }));
                                }
                                assert forall|d: Seq<char>|
                                    #[trigger] av.take(jj).contains(d) == (av.take(
                                        j as int,
                                    ).contains(d) || d == kv) by {
                                    lemma_added_step(av, j as int, d, b as int);
                                }
                                lemma_cover_present(
                                    prev,
                                    av.take(j as int),
                                    av.take(jj),
                                    keys@,
                                    kv,
                                    idx as int,
                                );
                            }
                        },
                    }
                },
                Err(pos) => {
                    proof {
                        lemma_lex_lt_strict_total(kv, kv);
                        assert forall|k: int| 0 <= k < keys@.len() implies #[trigger] keys@[k]@
                            != kv by {
                            if k < pos {
                                assert(lex_lt(keys@[k]@, kv));
                            } else {
                                assert(lex_lt(kv, keys@[k]@));
                            }
                        }
                        assert(!(exists|k: int| 0 <= k < keys@.len() && #[trigger] keys@[k]@ == kv));
                        lemma_cover_absent(prev, av.take(j as int), keys@, kv);
                        assert(prev.take(prev.len() as int) =~= prev);
                        lemma_dir_total_prefix(prev, kv, prev.len() as int);
                        lemma_added_nonneg(av.take(j as int), kv, b as int, 0);
                        assert(dir_total(prev, kv) == 0);
                        assert(added(av.take(j as int), kv, b as int) == 0);
                    }
                    let copy = sub_chars(key, 0, key.len());
                    assert(copy@ =~= kv);
                    let ghost old_keys = keys@;
                    let ghost old_vals = vals@;
                    let ghost old_views = char_views(keys@);
                    keys.insert(pos, copy);
                    vals.insert(pos, b);
                    proof {
                        assert(char_views(keys@) =~= old_views.insert(pos as int, kv));
                        assert forall|x: int, y: int|
                            0 <= x < y < char_views(keys@).len() implies lex_lt(
                            #[trigger] char_views(keys@)[x],
                            #[trigger] char_views(keys@)[y],
                        ) by {
                            let cv = char_views(keys@);
                            if y < pos {
                                assert(cv[x] == old_views[x] && cv[y] == old_views[y]);
                            } else if y == pos {
                                assert(cv[x] == old_keys[x]@);
                            } else if x == pos {
                                assert(cv[y] == old_keys[y - 1]@);
                            } else if x < pos {
                                assert(cv[x] == old_views[x] && cv[y] == old_views[y - 1]);
                                assert(lex_lt(old_views[x], kv));
                                assert(lex_lt(kv, old_views[y - 1]));
                                lemma_lex_lt_transitive(old_views[x], kv, old_views[y - 1]);
                            } else {
                                assert(cv[x] == old_views[x - 1] && cv[y] == old_views[y - 1]);
                            }
                        }
                        let jj = j + 1;
                        assert forall|k: int| 0 <= k < keys@.len() implies vals@[k] == dir_total(
                            prev,
                            #[trigger] keys@[k]@,
                        ) + added(av.take(jj), keys@[k]@, b as int) by {
                            assert(added(av.take(jj), keys@[k]@, b as int) == added(
                                av.take(j as int),
                                keys@[k]@,
                                b as int,
                            ) + (if kv == keys@[k]@ {
                                b as int
                            } else {
                                0
                            }));
                            if k < pos {
                                assert(keys@[k] == old_keys[k]);
                                assert(vals@[k] == old_vals[k]);
                                assert(old_vals[k] == dir_total(prev, old_keys[k]@) + added(
                                    av.take(j as int),
                                    old_keys[k]@,
                                    b as int,
                                ));
                            } else if k > pos {
                                assert(keys@[k] == old_keys[k - 1]);
                                assert(vals@[k] == old_vals[k - 1]);
                                assert(old_vals[k - 1] == dir_total(prev, old_keys[k - 1]@) + added(
                                    av.take(j as int),
                                    old_keys[k - 1]@,
                                    b as int,
                                ));
                            } else {
                                assert(keys@[k]@ == kv);
                                assert(vals@[k] == b);
                            }
                        }
                        assert forall|d: Seq<char>|
                            #[trigger] av.take(jj).contains(d) == (av.take(j as int).contains(d)
                                || d == kv) by {
                            lemma_added_step(av, j as int, d, b as int);
                        }
                        lemma_cover_insert(
                            prev,
                            av.take(j as int),
                            av.take(jj),
                            old_keys,
                            keys@,
                            kv,
                            pos as int,
                        );
                    }
                },
            }
            j = j + 1;
        }
        proof {
            assert(av.take(m as int) =~= av);
            let ii = i + 1;
            assert forall|k: int|
                0 <= k < keys@.len() implies vals@[k] == dir_total(fv.take(ii), #[trigger] keys@[k]@) by {
                lemma_dir_total_step(fv, i as int, keys@[k]@);
            }
            assert forall|d: Seq<char>|
                is_dir_of(fv.take(ii), d) <==> exists|k: int|
                    0 <= k < keys@.len() && #[trigger] keys@[k]@ == d by {
                lemma_is_dir_of_extend(fv, i as int, d);
                assert(seen(prev, av.take(m as int), d) == listed(keys@, d));
            }
        }
        i = i + 1;
    }
    proof {
        assert(fv.take(n as int) =~= fv);
        assert forall|d: Seq<char>| #[trigger] dir_total(fv, d) <= u64::MAX by {
            if is_dir_of(fv, d) {
                let k = choose|k: int| 0 <= k < keys@.len() && #[trigger] keys@[k]@ == d;
                assert(vals@[k] == dir_total(fv, keys@[k]@));
            } else {
                lemma_dir_total_prefix(fv, d, 0);
            }
        }
    }
    Some((keys, vals))
}


/// Whether every directory total of `files` fits in a `u64`.
pub fn dir_totals_fit(files: &Vec<FileStat>) -> (r: bool)
    ensures
        r == totals_fit(file_views(files@)),
{
    totals_checked(files).is_some()
}

/// The byte total of every directory that holds a tracked file (the root
/// `""` included): each file adds its size to every directory above it and
/// to the root. The directories come in code-point order of their paths.
pub fn dir_byte_totals(files: &Vec<FileStat>) -> (totals: Vec<DirTotal>)
    requires
        totals_fit(file_views(files@)),
    ensures
        strictly_sorted(total_views(totals@).map_values(|t: (Seq<char>, u64)| t.0)),
        forall|k: int|
            0 <= k < totals@.len() ==> (#[trigger] totals@[k]).bytes == dir_total(
                file_views(files@),
                totals@[k].path@,
            ),
        forall|d: Seq<char>|
            is_dir_of(file_views(files@), d) <==> exists|k: int|
                0 <= k < totals@.len() && #[trigger] totals@[k].path@ == d,
{
    match totals_checked(files) {
        None => Vec::new(),
        Some((keys, vals)) => {
            let mut out: Vec<DirTotal> = Vec::new();
            let mut i: usize = 0;
            while i < keys.len()
                invariant
                    keys@.len() == vals@.len(),
                    i <= keys@.len(),
                    out@.len() == i,
                    forall|k: int|
                        0 <= k < i ==> (#[trigger] out@[k]).path@ == keys@[k]@ && out@[k].bytes
                            == vals@[k],
                decreases keys@.len() - i,
            {
                out.push(DirTotal { path: string_from_chars(&keys[i]), bytes: vals[i] });
                i = i + 1;
            }
            proof {
                let pv = total_views(out@).map_values(|t: (Seq<char>, u64)| t.0);
                assert(pv =~= char_views(keys@));
                assert forall|k: int| 0 <= k < out@.len() implies (#[trigger] out@[k]).bytes
                    == dir_total(file_views(files@), out@[k].path@) by {
                    assert(vals@[k] == dir_total(file_views(files@), keys@[k]@));
                }
                assert forall|d: Seq<char>|
                    is_dir_of(file_views(files@), d) <==> exists|k: int|
                        0 <= k < out@.len() && #[trigger] out@[k].path@ == d by {
                    if is_dir_of(file_views(files@), d) {
                        let k = choose|k: int| 0 <= k < keys@.len() && #[trigger] keys@[k]@ == d;
                        assert(out@[k].path@ == d);
                    }
                    if exists|k: int| 0 <= k < out@.len() && #[trigger] out@[k].path@ == d {
                        let k = choose|k: int| 0 <= k < out@.len() && #[trigger] out@[k].path@ == d;
                        assert(keys@[k]@ == d);
                    }
                }
            }
            out
        },
    }
}


/// The sum of the sizes of `files`.
pub open spec fn total_bytes(files: Seq<(Seq<char>, u64)>) -> int
    decreases files.len(),
{
    if files.len() == 0 {
        0
    } else {
        total_bytes(files.drop_last()) + files.last().1
    }
}

/// A path that does not start with `/`.
pub open spec fn relative(p: Seq<char>) -> bool {
    !(p.len() > 0 && p[0] == '/')
}

proof fn lemma_dirs_above_nonempty(p: Seq<char>)
    requires
        relative(p),
    ensures
        !dirs_above(p).contains(Seq::<char>::empty()),
    decreases p.len(),
{
    let j = rfind_char(p, '/');
    if j >= 0 {
        lemma_rfind_char(p, '/');
        let q = p.take(j);
        if j == 0 {
            assert(p[0] == '/');
        } else {
            assert(q[0] == p[0]);
            lemma_dirs_above_nonempty(q);
            assert(q.len() > 0);
            let r = seq![q] + dirs_above(q);
            assert(dirs_above(p) == r);
            if r.contains(Seq::<char>::empty()) {
                let k = choose|k: int| 0 <= k < r.len() && r[k] == Seq::<char>::empty();
                if k > 0 {
                    assert(dirs_above(q)[k - 1] == Seq::<char>::empty());
                    assert(dirs_above(q).contains(Seq::<char>::empty()));
                }
            }
        }
    }
}

proof fn lemma_root_added(p: Seq<char>, b: int)
    requires
        relative(p),
        b >= 0,
    ensures
        added(ancestors(p), Seq::<char>::empty(), b) == b,
{
    lemma_dirs_above_nonempty(p);
    let a = ancestors(p);
    assert(a.drop_last() =~= dirs_above(p));
    lemma_added_nonneg(dirs_above(p), Seq::<char>::empty(), b, 0);
}

/// When no path starts with `/`, the root's total is the size of all files
/// together: every file adds to the root exactly once.
pub proof fn lemma_root_total(files: Seq<(Seq<char>, u64)>)
    requires
        forall|i: int| 0 <= i < files.len() ==> relative(#[trigger] files[i].0),
    ensures
        dir_total(files, Seq::<char>::empty()) == total_bytes(files),
    decreases files.len(),
{
    if files.len() > 0 {
        let d = files.drop_last();
        assert forall|i: int| 0 <= i < d.len() implies relative(#[trigger] d[i].0) by {
            assert(d[i] == files[i]);
        }
        lemma_root_total(d);
        assert(relative(files[files.len() - 1].0));
        lemma_root_added(files.last().0, files.last().1 as int);
    }
}

} // verus!
