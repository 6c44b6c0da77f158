//! Assembly of per-file change records from raw diff data.
//!
//! The surrounding program walks the repository's tree-to-tree diff and hands
//! this module, for each changed file, the old and new paths, the delta kind,
//! and every line of every hunk (origin marker plus content). Everything that
//! is computed from that raw data — the reported path, the status name, the
//! line counts and the patch text — is verified here. Line counts and patch
//! text for one file are both computed from the same raw lines, so they can
//! never disagree with each other.

use vstd::prelude::*;

use crate::text::{push_chars, string_from_chars};

verus! {

/// The kind of change a diff reports for one file, mirroring the delta
/// classifications a tree-to-tree comparison can yield.
#[derive(Clone, Copy, Debug, PartialEq, Eq, Structural)]
pub enum DeltaKind {
    Unmodified,
    Added,
    Deleted,
    Modified,
    Renamed,
    Copied,
    Ignored,
    Untracked,
    Typechange,
    Unreadable,
    Conflicted,
}

/// One raw diff line: its origin marker (`'+'`, `'-'`, `' '` for content
/// lines; other markers for hunk headers and the like) and its text, which
/// includes the trailing newline when the source line had one.
pub struct RawLine {
    pub origin: char,
    pub content: String,
}

/// Everything the diff reports about one changed file, before assembly:
/// the pre- and post-change paths (absent when unresolvable, for instance a
/// missing side), the delta kind, and the raw lines of every hunk.
pub struct RawFileDelta {
    pub old_path: Option<String>,
    pub new_path: Option<String>,
    pub kind: DeltaKind,
    pub lines: Vec<RawLine>,
}

/// One entry per changed file in a diff: path, status word, line counts for
/// that file alone, and the unified patch body (content lines only, no hunk
/// or file headers).
pub struct FileInfo {
    pub path: String,
    pub status: String,
    pub additions: usize,
    pub deletions: usize,
    pub patch: String,
}

/// The status word reported for a delta kind: the five interesting kinds get
/// their own word, everything else is reported as "unknown".
pub open spec fn spec_status_name(k: DeltaKind) -> Seq<char> {
    match k {
        DeltaKind::Added => "added"@,
        DeltaKind::Deleted => "deleted"@,
        DeltaKind::Modified => "modified"@,
        DeltaKind::Renamed => "renamed"@,
        DeltaKind::Copied => "copied"@,
        _ => "unknown"@,
    }
}

/// The path reported for a delta: the post-change path when available, the
/// pre-change path for deletions, and the empty string when neither side is
/// resolvable — callers must tolerate an empty path rather than fail.
pub open spec fn spec_path(d: RawFileDelta) -> Seq<char> {
    match d.new_path {
        Some(p) => p@,
        None => match d.old_path {
            Some(p) => p@,
            None => Seq::<char>::empty(),
        },
    }
}

/// Only addition, deletion and context lines are kept in patch text.
pub open spec fn keep_origin(o: char) -> bool {
    o == '+' || o == '-' || o == ' '
}

/// The patch body for a file: for every kept line, its origin marker followed
/// by its content; hunk-header and file-header lines are dropped.
pub open spec fn spec_patch(ls: Seq<RawLine>) -> Seq<char>
    decreases ls.len(),
{
    if ls.len() == 0 {
        Seq::<char>::empty()
    } else {
        (if keep_origin(ls[0].origin) {
            seq![ls[0].origin] + ls[0].content@
        } else {
            Seq::<char>::empty()
        }) + spec_patch(ls.skip(1))
    }
}

/// How many of the lines carry the given origin marker.
pub open spec fn spec_count(ls: Seq<RawLine>, o: char) -> int
    decreases ls.len(),
{
    if ls.len() == 0 {
        0
    } else {
        (if ls[0].origin == o { 1int } else { 0int }) + spec_count(ls.skip(1), o)
    }
}

proof fn lemma_spec_patch_snoc(ls: Seq<RawLine>, l: RawLine)
    ensures
        spec_patch(ls.push(l)) == spec_patch(ls) + (if keep_origin(l.origin) {
            seq![l.origin] + l.content@
        } else {
            Seq::<char>::empty()
        }),
    decreases ls.len(),
{
    let seg = if keep_origin(l.origin) { seq![l.origin] + l.content@ } else { Seq::<char>::empty() };
    if ls.len() == 0 {
        assert(ls.push(l)[0] == l);
        assert(ls.push(l).skip(1) =~= Seq::<RawLine>::empty());
        assert(spec_patch(Seq::<RawLine>::empty()) == Seq::<char>::empty());
        assert(spec_patch(ls.push(l)) == seg + Seq::<char>::empty());
        assert(seg + Seq::<char>::empty() =~= seg);
        assert(spec_patch(ls) + seg =~= seg);
    } else {
        assert(ls.push(l).skip(1) =~= ls.skip(1).push(l));
        lemma_spec_patch_snoc(ls.skip(1), l);
        let head = if keep_origin(ls[0].origin) {
            seq![ls[0].origin] + ls[0].content@
        } else {
            Seq::<char>::empty()
        };
        assert(spec_patch(ls.push(l)) == head + (spec_patch(ls.skip(1)) + seg));
        assert(head + (spec_patch(ls.skip(1)) + seg) =~= (head + spec_patch(ls.skip(1))) + seg);
    }
}

proof fn lemma_spec_count_snoc(ls: Seq<RawLine>, l: RawLine, o: char)
    ensures
        spec_count(ls.push(l), o) == spec_count(ls, o) + (if l.origin == o { 1int } else { 0int }),
    decreases ls.len(),
{
    if ls.len() == 0 {
        assert(ls.push(l)[0] == l);
        assert(ls.push(l).skip(1) =~= Seq::<RawLine>::empty());
        assert(spec_count(Seq::<RawLine>::empty(), o) == 0);
    } else {
        assert(ls.push(l).skip(1) =~= ls.skip(1).push(l));
        lemma_spec_count_snoc(ls.skip(1), l, o);
    }
}

/// Maps a delta kind to the status word used in change records.
pub fn status_name(k: DeltaKind) -> (s: String)
    ensures
        s@ == spec_status_name(k),
{
    match k {
        DeltaKind::Added => String::from_str("added"),
        DeltaKind::Deleted => String::from_str("deleted"),
        DeltaKind::Modified => String::from_str("modified"),
        DeltaKind::Renamed => String::from_str("renamed"),
        DeltaKind::Copied => String::from_str("copied"),
        _ => String::from_str("unknown"),
    }
}

/// Resolves the path reported for a delta, falling back from the post-change
/// path to the pre-change path, and to the empty string when both are absent.
pub fn resolve_path(d: &RawFileDelta) -> (p: String)
    ensures
        p@ == spec_path(*d),
{
    match &d.new_path {
        Some(p) => p.clone(),
        None => match &d.old_path {
            Some(p) => p.clone(),
            None => String::new(),
        },
    }
}

/// Builds the patch body for one file from its raw lines, keeping exactly the
/// addition, deletion and context lines, each prefixed by its origin marker.
pub fn build_patch(lines: &Vec<RawLine>) -> (p: String)
    ensures
        p@ == spec_patch(lines@),
{
    let mut out: Vec<char> = Vec::new();
    let n = lines.len();
    let mut i: usize = 0;
    while i < n
        invariant
            n == lines@.len(),
            i <= n,
            out@ == spec_patch(lines@.take(i as int)),
        decreases n - i,
    {
        let l = &lines[i];
        if l.origin == '+' || l.origin == '-' || l.origin == ' ' {
            out.push(l.origin);
            push_chars(&mut out, l.content.as_str());
            proof {
                assert(out@ =~= spec_patch(lines@.take(i as int)) + (seq![l.origin] + l.content@));
            }
        }
        proof {
            assert(lines@.take(i + 1) =~= lines@.take(i as int).push(lines@[i as int]));
            lemma_spec_patch_snoc(lines@.take(i as int), lines@[i as int]);
            if !keep_origin(lines@[i as int].origin) {
                assert(spec_patch(lines@.take(i + 1)) =~= spec_patch(lines@.take(i as int)));
            }
        }
        i += 1;
    }
    proof {
        assert(lines@.take(n as int) =~= lines@);
    }
    string_from_chars(&out)
}

/// Counts the lines carrying the given origin marker.
pub fn count_origin(lines: &Vec<RawLine>, o: char) -> (n: usize)
    ensures
        n == spec_count(lines@, o),
{
    let len = lines.len();
    let mut n: usize = 0;
    let mut i: usize = 0;
    while i < len
        invariant
            len == lines@.len(),
            i <= len,
            n == spec_count(lines@.take(i as int), o),
            n <= i,
        decreases len - i,
    {
        proof {
            assert(lines@.take(i + 1) =~= lines@.take(i as int).push(lines@[i as int]));
            lemma_spec_count_snoc(lines@.take(i as int), lines@[i as int], o);
        }
        if lines[i].origin == o {
            n += 1;
        }
        i += 1;
    }
    proof {
        assert(lines@.take(len as int) =~= lines@);
    }
    n
}

/// The five fields of the change record built for one delta.
pub open spec fn file_change_ok(d: RawFileDelta, fc: FileInfo) -> bool {
    &&& fc.path@ == spec_path(d)
    &&& fc.status@ == spec_status_name(d.kind)
    &&& fc.additions == spec_count(d.lines@, '+')
    &&& fc.deletions == spec_count(d.lines@, '-')
    &&& fc.patch@ == spec_patch(d.lines@)
}

/// Assembles the change record for one file. The line counts and the patch
/// text come from the same raw lines, so they are consistent by construction.
pub fn build_file_change(d: &RawFileDelta) -> (fc: FileInfo)
    ensures
        file_change_ok(*d, fc),
{
    FileInfo {
        path: resolve_path(d),
        status: status_name(d.kind),
        additions: count_origin(&d.lines, '+'),
        deletions: count_origin(&d.lines, '-'),
        patch: build_patch(&d.lines),
    }
}

/// Assembles the ordered sequence of change records for a whole comparison,
/// one record per delta, in the order the deltas were enumerated.
pub fn build_file_changes(deltas: &Vec<RawFileDelta>) -> (r: Vec<FileInfo>)
    ensures
        r@.len() == deltas@.len(),
        forall|i: int| 0 <= i < deltas@.len() ==> file_change_ok(deltas@[i], #[trigger] r@[i]),
{
    let n = deltas.len();
    let mut r: Vec<FileInfo> = Vec::new();
    let mut i: usize = 0;
    while i < n
        invariant
            n == deltas@.len(),
            i <= n,
            r@.len() == i,
            forall|j: int| 0 <= j < i ==> file_change_ok(deltas@[j], #[trigger] r@[j]),
        decreases n - i,
    {
        let fc = build_file_change(&deltas[i]);
        r.push(fc);
        i += 1;
    }
    r
}

/// The sum of the per-file addition counts over a sequence of change records.
pub open spec fn sum_additions(fs: Seq<FileInfo>) -> int
    decreases fs.len(),
{
    if fs.len() == 0 {
        0
    } else {
        fs[0].additions + sum_additions(fs.skip(1))
    }
}

/// The sum of the per-file deletion counts over a sequence of change records.
pub open spec fn sum_deletions(fs: Seq<FileInfo>) -> int
    decreases fs.len(),
{
    if fs.len() == 0 {
        0
    } else {
        fs[0].deletions + sum_deletions(fs.skip(1))
    }
}

/// The comparison's own aggregate count of lines with a given marker: the
/// total over every raw line of every file of the comparison.
pub open spec fn total_count(ds: Seq<RawFileDelta>, o: char) -> int
    decreases ds.len(),
{
    if ds.len() == 0 {
        0
    } else {
        spec_count(ds[0].lines@, o) + total_count(ds.skip(1), o)
    }
}

/// The change records of one comparison account for every added and deleted
/// line of that comparison: the sums of the per-file addition and deletion
/// counts equal the comparison's own aggregate insertion and deletion counts.
pub proof fn lemma_diff_totals(ds: Seq<RawFileDelta>, fs: Seq<FileInfo>)
    requires
        fs.len() == ds.len(),
        forall|i: int| 0 <= i < ds.len() ==> file_change_ok(ds[i], #[trigger] fs[i]),
    ensures
        sum_additions(fs) == total_count(ds, '+'),
        sum_deletions(fs) == total_count(ds, '-'),
    decreases ds.len(),
{
    if ds.len() > 0 {
        assert(file_change_ok(ds[0], fs[0]));
        assert(forall|i: int| 0 <= i < ds.skip(1).len()
            ==> file_change_ok(ds.skip(1)[i], #[trigger] fs.skip(1)[i]));
        lemma_diff_totals(ds.skip(1), fs.skip(1));
    }
}

/// A single source line: its newline, if any, is its last character.
pub open spec fn single_line(s: Seq<char>) -> bool {
    forall|j: int| 0 <= j < s.len() - 1 ==> s[j] != '\n'
}

/// Position `i` starts a line of `p`: it is the first position, or the
/// previous character ends a line.
pub open spec fn is_line_start(p: Seq<char>, i: int) -> bool {
    i == 0 || p[i - 1] == '\n'
}

/// Every line of `p` begins with an addition, deletion or context marker.
pub open spec fn lines_marked(p: Seq<char>) -> bool {
    forall|i: int| 0 <= i < p.len() && is_line_start(p, i) ==> keep_origin(p[i])
}

/// Patch text contains only lines that begin with `'+'`, `'-'` or `' '`:
/// in particular no line of it begins with `'@'` (a hunk header) or `'d'`
/// (a `diff --git` file header), provided every raw line is a single source
/// line, as a diff yields them.
pub proof fn lemma_patch_lines_marked(ls: Seq<RawLine>)
    requires
        forall|i: int| 0 <= i < ls.len() ==> single_line(#[trigger] ls[i].content@),
    ensures
        lines_marked(spec_patch(ls)),
        forall|i: int| 0 <= i < spec_patch(ls).len() && is_line_start(spec_patch(ls), i)
            ==> spec_patch(ls)[i] != '@' && spec_patch(ls)[i] != 'd',
    decreases ls.len(),
{
    let p = spec_patch(ls);
    if ls.len() == 0 {
        assert(lines_marked(p));
    } else {
        assert(forall|i: int| 0 <= i < ls.skip(1).len()
            ==> single_line(#[trigger] ls.skip(1)[i].content@));
        lemma_patch_lines_marked(ls.skip(1));
        let rest = spec_patch(ls.skip(1));
        let seg = if keep_origin(ls[0].origin) {
            seq![ls[0].origin] + ls[0].content@
        } else {
            Seq::<char>::empty()
        };
        assert(p == seg + rest);
        assert(single_line(ls[0].content@));
        assert forall|i: int| 0 <= i < p.len() && is_line_start(p, i) implies keep_origin(p[i]) by {
            if i < seg.len() {
                if i == 0 {
                    assert(p[0] == ls[0].origin);
                } else {
                    assert(p[i - 1] == seg[i - 1]);
                    assert(seg[i - 1] == ls[0].content@[i - 2]);
                    assert(i - 2 < ls[0].content@.len() - 1 ==> ls[0].content@[i - 2] != '\n');
                    assert(i - 2 == ls[0].content@.len() - 1 ==> i == seg.len());
                    assert(false);
                }
            } else {
                let k = i - seg.len();
                assert(p[i] == rest[k]);
                if k == 0 {
                    assert(is_line_start(rest, 0));
                } else {
                    assert(p[i - 1] == rest[k - 1]);
                    assert(is_line_start(rest, k));
                }
                assert(keep_origin(rest[k]));
            }
        }
        assert forall|i: int| 0 <= i < p.len() && is_line_start(p, i)
            implies p[i] != '@' && p[i] != 'd' by {
            assert(keep_origin(p[i]));
        }
    }
}

} // verus!
