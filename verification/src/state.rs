//! The viewed-state store: a nested mapping from repository path to branch
//! name to commit id to the set of file paths already reviewed for that key.
//!
//! The in-memory structure is the source of truth for the process lifetime;
//! every mutation yields the full serialized document (see the codec module)
//! so the caller can overwrite the state file before reporting success.
//! Marking is idempotent, and a lookup never fails: a missing level of the
//! key simply answers `false`.

use vstd::prelude::*;

verus! {

/// Ghost model of one commit's record: its id and the reviewed file paths.
pub ghost struct SCommit {
    pub id: Seq<char>,
    pub files: Seq<Seq<char>>,
}

/// Ghost model of one branch's record: its name and its commit records.
pub ghost struct SBranch {
    pub name: Seq<char>,
    pub commits: Seq<SCommit>,
}

/// Ghost model of one repository's record: its path and its branch records.
pub ghost struct SRepo {
    pub path: Seq<char>,
    pub branches: Seq<SBranch>,
}

/// The file `f` is recorded in commit record `c`.
pub open spec fn sc_has(c: SCommit, f: Seq<char>) -> bool {
    c.files.contains(f)
}

/// Some commit record of `b` carries the id `c`.
pub open spec fn sb_has_commit(b: SBranch, c: Seq<char>) -> bool {
    exists|i: int| 0 <= i < b.commits.len() && b.commits[i].id == c
}

/// The file `f` is recorded under commit `c` in branch record `b`.
pub open spec fn sb_viewed(b: SBranch, c: Seq<char>, f: Seq<char>) -> bool {
    exists|i: int| 0 <= i < b.commits.len() && b.commits[i].id == c && sc_has(b.commits[i], f)
}

/// Some branch record of `r` carries the name `b`.
pub open spec fn sr_has_branch(r: SRepo, b: Seq<char>) -> bool {
    exists|i: int| 0 <= i < r.branches.len() && r.branches[i].name == b
}

/// The file `f` is recorded under branch `b` and commit `c` in repo record `r`.
pub open spec fn sr_viewed(r: SRepo, b: Seq<char>, c: Seq<char>, f: Seq<char>) -> bool {
    exists|i: int| 0 <= i < r.branches.len() && r.branches[i].name == b
        && sb_viewed(r.branches[i], c, f)
}

/// Some repo record of `st` carries the path `r`.
pub open spec fn st_has_repo(st: Seq<SRepo>, r: Seq<char>) -> bool {
    exists|i: int| 0 <= i < st.len() && st[i].path == r
}

/// The file `f` is recorded for (repo `r`, branch `b`, commit `c`) in `st`.
pub open spec fn st_viewed(st: Seq<SRepo>, r: Seq<char>, b: Seq<char>, c: Seq<char>, f: Seq<char>) -> bool {
    exists|i: int| 0 <= i < st.len() && st[i].path == r && sr_viewed(st[i], b, c, f)
}

/// Well-formedness of a commit record: no duplicate file paths (set semantics).
pub open spec fn sc_wf(c: SCommit) -> bool {
    forall|i: int, j: int| 0 <= i < j < c.files.len() ==> c.files[i] != c.files[j]
}

/// Well-formedness of a branch record: distinct commit ids, each record well formed.
pub open spec fn sb_wf(b: SBranch) -> bool {
    &&& forall|i: int, j: int| 0 <= i < j < b.commits.len()
        ==> b.commits[i].id != b.commits[j].id
    &&& forall|i: int| 0 <= i < b.commits.len() ==> sc_wf(#[trigger] b.commits[i])
}

/// Well-formedness of a repo record: distinct branch names, each record well formed.
pub open spec fn sr_wf(r: SRepo) -> bool {
    &&& forall|i: int, j: int| 0 <= i < j < r.branches.len()
        ==> r.branches[i].name != r.branches[j].name
    &&& forall|i: int| 0 <= i < r.branches.len() ==> sb_wf(#[trigger] r.branches[i])
}

/// Well-formedness of the whole state: distinct repo paths, each record well formed.
pub open spec fn st_wf(st: Seq<SRepo>) -> bool {
    &&& forall|i: int, j: int| 0 <= i < j < st.len() ==> st[i].path != st[j].path
    &&& forall|i: int| 0 <= i < st.len() ==> sr_wf(#[trigger] st[i])
}

/// The commit record after marking `f` viewed: a no-op when already present.
pub open spec fn sc_marked(c: SCommit, f: Seq<char>) -> SCommit {
    if sc_has(c, f) {
        c
    } else {
        SCommit { id: c.id, files: c.files.push(f) }
    }
}

/// The branch record after marking (`c`, `f`): the commit record with id `c`
/// is updated in place, or a fresh one is appended.
pub open spec fn sb_marked(b: SBranch, c: Seq<char>, f: Seq<char>) -> SBranch {
    if sb_has_commit(b, c) {
        let i = choose|i: int| 0 <= i < b.commits.len() && b.commits[i].id == c;
        SBranch { name: b.name, commits: b.commits.update(i, sc_marked(b.commits[i], f)) }
    } else {
        SBranch { name: b.name, commits: b.commits.push(SCommit { id: c, files: seq![f] }) }
    }
}

/// The repo record after marking (`b`, `c`, `f`).
pub open spec fn sr_marked(r: SRepo, b: Seq<char>, c: Seq<char>, f: Seq<char>) -> SRepo {
    if sr_has_branch(r, b) {
        let i = choose|i: int| 0 <= i < r.branches.len() && r.branches[i].name == b;
        SRepo { path: r.path, branches: r.branches.update(i, sb_marked(r.branches[i], c, f)) }
    } else {
        SRepo {
            path: r.path,
            branches: r.branches.push(
                SBranch { name: b, commits: seq![SCommit { id: c, files: seq![f] }] },
            ),
        }
    }
}

/// The whole state after marking (`r`, `b`, `c`, `f`).
pub open spec fn st_marked(st: Seq<SRepo>, r: Seq<char>, b: Seq<char>, c: Seq<char>, f: Seq<char>) -> Seq<SRepo> {
    if st_has_repo(st, r) {
        let i = choose|i: int| 0 <= i < st.len() && st[i].path == r;
        st.update(i, sr_marked(st[i], b, c, f))
    } else {
        st.push(
            SRepo {
                path: r,
                branches: seq![SBranch { name: b, commits: seq![SCommit { id: c, files: seq![f] }] }],
            },
        )
    }
}

/// One commit's reviewed files, as stored: the commit id and the file paths,
/// in insertion order, without duplicates.
pub struct CommitEntry {
    pub id: String,
    pub files: Vec<String>,
}

/// One branch's commit records, as stored.
pub struct BranchEntry {
    pub name: String,
    pub commits: Vec<CommitEntry>,
}

/// One repository's branch records, as stored.
pub struct RepoEntry {
    pub path: String,
    pub branches: Vec<BranchEntry>,
}

/// The viewed-state store: the in-memory copy of the persisted structure.
pub struct StateManager {
    pub repos: Vec<RepoEntry>,
}

impl CommitEntry {
    /// Abstraction to the ghost model.
    pub open spec fn dv(self) -> SCommit {
        SCommit { id: self.id@, files: self.files.deep_view() }
    }
}

impl BranchEntry {
    /// Abstraction to the ghost model.
    pub open spec fn dv(self) -> SBranch {
        SBranch { name: self.name@, commits: self.commits@.map_values(|e: CommitEntry| e.dv()) }
    }
}

impl RepoEntry {
    /// Abstraction to the ghost model.
    pub open spec fn dv(self) -> SRepo {
        SRepo { path: self.path@, branches: self.branches@.map_values(|e: BranchEntry| e.dv()) }
    }
}

fn commit_has_file(e: &CommitEntry, f: &String) -> (r: bool)
    ensures
        r == sc_has(e.dv(), f@),
{
    let n = e.files.len();
    let mut i: usize = 0;
    while i < n
        invariant
            n == e.files@.len(),
            i <= n,
            forall|j: int| 0 <= j < i ==> e.files.deep_view()[j] != f@,
        decreases n - i,
    {
        if e.files[i] == *f {
            assert(e.files.deep_view()[i as int] == f@);
            return true;
        }
        i += 1;
    }
    false
}

fn branch_viewed(e: &BranchEntry, c: &String, f: &String) -> (r: bool)
    ensures
        r == sb_viewed(e.dv(), c@, f@),
{
    let n = e.commits.len();
    let mut i: usize = 0;
    while i < n
        invariant
            n == e.commits@.len(),
            i <= n,
            forall|j: int| 0 <= j < i
                ==> !(e.dv().commits[j].id == c@ && sc_has(e.dv().commits[j], f@)),
        decreases n - i,
    {
        if e.commits[i].id == *c {
            if commit_has_file(&e.commits[i], f) {
                assert(e.dv().commits[i as int].id == c@
                    && sc_has(e.dv().commits[i as int], f@));
                return true;
            }
        }
        i += 1;
    }
    false
}

fn repo_viewed(e: &RepoEntry, b: &String, c: &String, f: &String) -> (r: bool)
    ensures
        r == sr_viewed(e.dv(), b@, c@, f@),
{
    let n = e.branches.len();
    let mut i: usize = 0;
    while i < n
        invariant
            n == e.branches@.len(),
            i <= n,
            forall|j: int| 0 <= j < i
                ==> !(e.dv().branches[j].name == b@ && sb_viewed(e.dv().branches[j], c@, f@)),
        decreases n - i,
    {
        if e.branches[i].name == *b {
            if branch_viewed(&e.branches[i], c, f) {
                assert(e.dv().branches[i as int].name == b@
                    && sb_viewed(e.dv().branches[i as int], c@, f@));
                return true;
            }
        }
        i += 1;
    }
    false
}

impl StateManager {
    /// Abstraction to the ghost model.
    pub open spec fn dv(self) -> Seq<SRepo> {
        self.repos@.map_values(|e: RepoEntry| e.dv())
    }

    /// The store's invariant: the stored structure is well formed.
    pub open spec fn wf(self) -> bool {
        st_wf(self.dv())
    }

    /// The file `f` is recorded as reviewed for (repo, branch, commit).
    pub open spec fn viewed(self, r: Seq<char>, b: Seq<char>, c: Seq<char>, f: Seq<char>) -> bool {
        st_viewed(self.dv(), r, b, c, f)
    }

    /// An empty store: nothing has been reviewed.
    pub fn new() -> (s: StateManager)
        ensures
            s.dv() == Seq::<SRepo>::empty(),
            s.wf(),
    {
        let s = StateManager { repos: Vec::new() };
        proof {
            assert(s.dv() =~= Seq::<SRepo>::empty());
        }
        s
    }

    /// Pure lookup: `true` exactly when the file was marked for that key.
    /// Absence at any level of the three-level key yields `false`.
    pub fn is_file_viewed(&self, repo_path: &str, branch: &str, commit: &str, file_path: &str) -> (r: bool)
        ensures
            r == self.viewed(repo_path@, branch@, commit@, file_path@),
    {
        let rp = String::from_str(repo_path);
        let b = String::from_str(branch);
        let c = String::from_str(commit);
        let f = String::from_str(file_path);
        let n = self.repos.len();
        let mut i: usize = 0;
        while i < n
            invariant
                n == self.repos@.len(),
                rp@ == repo_path@,
                b@ == branch@,
                c@ == commit@,
                f@ == file_path@,
                i <= n,
                forall|j: int| 0 <= j < i
                    ==> !(self.dv()[j].path == repo_path@
                        && sr_viewed(self.dv()[j], branch@, commit@, file_path@)),
            decreases n - i,
        {
            if self.repos[i].path == rp {
                if repo_viewed(&self.repos[i], &b, &c, &f) {
                    assert(self.dv()[i as int].path == repo_path@
                        && sr_viewed(self.dv()[i as int], branch@, commit@, file_path@));
                    return true;
                }
            }
            i += 1;
        }
        false
    }
}


/// Marking preserves a commit record's well-formedness.
pub proof fn lemma_sc_marked_wf(c: SCommit, f: Seq<char>)
    requires
        sc_wf(c),
    ensures
        sc_wf(sc_marked(c, f)),
{
    if !sc_has(c, f) {
        let m = sc_marked(c, f);
        assert forall|i: int, j: int| 0 <= i < j < m.files.len() implies m.files[i] != m.files[j] by {
            if j == c.files.len() {
                assert(m.files[i] == c.files[i]);
                assert(!c.files.contains(f));
                assert(c.files[i] != f);
            }
        }
    }
}

/// After marking, the file is recorded in the commit record.
pub proof fn lemma_sc_marked_has(c: SCommit, f: Seq<char>)
    ensures
        sc_has(sc_marked(c, f), f),
{
    if !sc_has(c, f) {
        let m = sc_marked(c, f);
        assert(m.files[c.files.len() as int] == f);
    }
}

/// Marking one file leaves membership of every other file unchanged.
pub proof fn lemma_sc_marked_frame(c: SCommit, f: Seq<char>, f2: Seq<char>)
    requires
        f2 != f,
    ensures
        sc_has(sc_marked(c, f), f2) == sc_has(c, f2),
{
    let m = sc_marked(c, f);
    if sc_has(m, f2) {
        let k = choose|k: int| 0 <= k < m.files.len() && m.files[k] == f2;
        if !sc_has(c, f) {
            if k < c.files.len() {
                assert(c.files[k] == f2);
            } else {
                assert(m.files[k] == f);
            }
        }
    }
    if sc_has(c, f2) {
        let k = choose|k: int| 0 <= k < c.files.len() && c.files[k] == f2;
        assert(m.files[k] == f2);
    }
}

/// Marking a file that is already recorded leaves the commit record unchanged.
pub proof fn lemma_sc_marked_noop(c: SCommit, f: Seq<char>)
    requires
        sc_has(c, f),
    ensures
        sc_marked(c, f) == c,
{
}

/// Marking preserves a branch record's well-formedness.
pub proof fn lemma_sb_marked_wf(b: SBranch, c: Seq<char>, f: Seq<char>)
    requires
        sb_wf(b),
    ensures
        sb_wf(sb_marked(b, c, f)),
{
    let m = sb_marked(b, c, f);
    if sb_has_commit(b, c) {
        let i = choose|i: int| 0 <= i < b.commits.len() && b.commits[i].id == c;
        assert forall|p: int, q: int| 0 <= p < q < m.commits.len()
            implies m.commits[p].id != m.commits[q].id by {
            assert(m.commits[p].id == b.commits[p].id);
            assert(m.commits[q].id == b.commits[q].id);
        }
        assert forall|p: int| 0 <= p < m.commits.len() implies sc_wf(#[trigger] m.commits[p]) by {
            if p == i {
                lemma_sc_marked_wf(b.commits[i], f);
            } else {
                assert(m.commits[p] == b.commits[p]);
            }
        }
    } else {
        assert forall|p: int, q: int| 0 <= p < q < m.commits.len()
            implies m.commits[p].id != m.commits[q].id by {
            if q == b.commits.len() {
                assert(m.commits[q].id == c);
                assert(m.commits[p] == b.commits[p]);
            }
        }
        assert forall|p: int| 0 <= p < m.commits.len() implies sc_wf(#[trigger] m.commits[p]) by {
            if p == b.commits.len() {
                assert(m.commits[p].files == seq![f]);
                assert(m.commits[p].files.len() == 1);
            } else {
                assert(m.commits[p] == b.commits[p]);
            }
        }
    }
}

/// After marking, the (commit, file) pair is recorded in the branch record.
pub proof fn lemma_sb_marked_viewed(b: SBranch, c: Seq<char>, f: Seq<char>)
    ensures
        sb_viewed(sb_marked(b, c, f), c, f),
{
    let m = sb_marked(b, c, f);
    if sb_has_commit(b, c) {
        let i = choose|i: int| 0 <= i < b.commits.len() && b.commits[i].id == c;
        lemma_sc_marked_has(b.commits[i], f);
        assert(m.commits[i].id == c && sc_has(m.commits[i], f));
    } else {
        let i = b.commits.len() as int;
        assert(m.commits[i].files[0] == f);
        assert(m.commits[i].id == c && sc_has(m.commits[i], f));
    }
}

/// Marking one (commit, file) pair leaves every other pair's membership unchanged.
pub proof fn lemma_sb_marked_frame(b: SBranch, c: Seq<char>, f: Seq<char>, c2: Seq<char>, f2: Seq<char>)
    requires
        !(c2 == c && f2 == f),
    ensures
        sb_viewed(sb_marked(b, c, f), c2, f2) == sb_viewed(b, c2, f2),
{
    let m = sb_marked(b, c, f);
    if sb_has_commit(b, c) {
        let i = choose|i: int| 0 <= i < b.commits.len() && b.commits[i].id == c;
        if sb_viewed(m, c2, f2) {
            let k = choose|k: int| 0 <= k < m.commits.len() && m.commits[k].id == c2
                && sc_has(m.commits[k], f2);
            if k == i {
                if c2 == c {
                    lemma_sc_marked_frame(b.commits[i], f, f2);
                } else {
                    assert(m.commits[k].id == b.commits[k].id);
                }
                assert(b.commits[k].id == c2 && sc_has(b.commits[k], f2));
            } else {
                assert(m.commits[k] == b.commits[k]);
            }
            assert(sb_viewed(b, c2, f2));
        }
        if sb_viewed(b, c2, f2) {
            let k = choose|k: int| 0 <= k < b.commits.len() && b.commits[k].id == c2
                && sc_has(b.commits[k], f2);
            if k == i {
                if c2 == c {
                    lemma_sc_marked_frame(b.commits[i], f, f2);
                    assert(sc_has(m.commits[k], f2));
                } else {
                    assert(b.commits[k].id == c);
                }
            } else {
                assert(m.commits[k] == b.commits[k]);
            }
            assert(m.commits[k].id == c2 && sc_has(m.commits[k], f2));
        }
    } else {
        if sb_viewed(m, c2, f2) {
            let k = choose|k: int| 0 <= k < m.commits.len() && m.commits[k].id == c2
                && sc_has(m.commits[k], f2);
            if k == b.commits.len() {
                assert(m.commits[k].id == c);
                if c2 == c {
                    let j = choose|j: int| 0 <= j < m.commits[k].files.len()
                        && m.commits[k].files[j] == f2;
                    assert(m.commits[k].files == seq![f]);
                    assert(m.commits[k].files[j] == f);
                }
            } else {
                assert(m.commits[k] == b.commits[k]);
                assert(sb_viewed(b, c2, f2));
            }
        }
        if sb_viewed(b, c2, f2) {
            let k = choose|k: int| 0 <= k < b.commits.len() && b.commits[k].id == c2
                && sc_has(b.commits[k], f2);
            assert(m.commits[k] == b.commits[k]);
            assert(m.commits[k].id == c2 && sc_has(m.commits[k], f2));
        }
    }
}

/// Marking an already-recorded (commit, file) pair leaves the branch record unchanged.
pub proof fn lemma_sb_marked_noop(b: SBranch, c: Seq<char>, f: Seq<char>)
    requires
        sb_wf(b),
        sb_viewed(b, c, f),
    ensures
        sb_marked(b, c, f) == b,
{
    let w = choose|w: int| 0 <= w < b.commits.len() && b.commits[w].id == c && sc_has(b.commits[w], f);
    assert(sb_has_commit(b, c));
    let i = choose|i: int| 0 <= i < b.commits.len() && b.commits[i].id == c;
    assert(i == w);
    lemma_sc_marked_noop(b.commits[i], f);
    let m = sb_marked(b, c, f);
    assert(m.commits =~= b.commits);
}

/// Marking preserves a repo record's well-formedness.
pub proof fn lemma_sr_marked_wf(r: SRepo, b: Seq<char>, c: Seq<char>, f: Seq<char>)
    requires
        sr_wf(r),
    ensures
        sr_wf(sr_marked(r, b, c, f)),
{
    let m = sr_marked(r, b, c, f);
    if sr_has_branch(r, b) {
        let i = choose|i: int| 0 <= i < r.branches.len() && r.branches[i].name == b;
        assert forall|p: int, q: int| 0 <= p < q < m.branches.len()
            implies m.branches[p].name != m.branches[q].name by {
            assert(m.branches[p].name == r.branches[p].name);
            assert(m.branches[q].name == r.branches[q].name);
        }
        assert forall|p: int| 0 <= p < m.branches.len() implies sb_wf(#[trigger] m.branches[p]) by {
            if p == i {
                lemma_sb_marked_wf(r.branches[i], c, f);
            } else {
                assert(m.branches[p] == r.branches[p]);
            }
        }
    } else {
        assert forall|p: int, q: int| 0 <= p < q < m.branches.len()
            implies m.branches[p].name != m.branches[q].name by {
            if q == r.branches.len() {
                assert(m.branches[q].name == b);
                assert(m.branches[p] == r.branches[p]);
            }
        }
        assert forall|p: int| 0 <= p < m.branches.len() implies sb_wf(#[trigger] m.branches[p]) by {
            if p == r.branches.len() {
                let nb = m.branches[p];
                assert(nb.commits == seq![SCommit { id: c, files: seq![f] }]);
                assert(nb.commits.len() == 1);
                assert(nb.commits[0].files == seq![f]);
                assert(nb.commits[0].files.len() == 1);
            } else {
                assert(m.branches[p] == r.branches[p]);
            }
        }
    }
}

/// After marking, the (branch, commit, file) triple is recorded in the repo record.
pub proof fn lemma_sr_marked_viewed(r: SRepo, b: Seq<char>, c: Seq<char>, f: Seq<char>)
    ensures
        sr_viewed(sr_marked(r, b, c, f), b, c, f),
{
    let m = sr_marked(r, b, c, f);
    if sr_has_branch(r, b) {
        let i = choose|i: int| 0 <= i < r.branches.len() && r.branches[i].name == b;
        lemma_sb_marked_viewed(r.branches[i], c, f);
        assert(m.branches[i].name == b && sb_viewed(m.branches[i], c, f));
    } else {
        let i = r.branches.len() as int;
        let nb = m.branches[i];
        assert(nb.commits[0].id == c);
        assert(nb.commits[0].files[0] == f);
        assert(sc_has(nb.commits[0], f));
        assert(sb_viewed(nb, c, f));
        assert(m.branches[i].name == b && sb_viewed(m.branches[i], c, f));
    }
}

/// Marking one triple leaves every other triple's membership unchanged.
pub proof fn lemma_sr_marked_frame(
    r: SRepo, b: Seq<char>, c: Seq<char>, f: Seq<char>,
    b2: Seq<char>, c2: Seq<char>, f2: Seq<char>,
)
    requires
        !(b2 == b && c2 == c && f2 == f),
    ensures
        sr_viewed(sr_marked(r, b, c, f), b2, c2, f2) == sr_viewed(r, b2, c2, f2),
{
    let m = sr_marked(r, b, c, f);
    if sr_has_branch(r, b) {
        let i = choose|i: int| 0 <= i < r.branches.len() && r.branches[i].name == b;
        if sr_viewed(m, b2, c2, f2) {
            let k = choose|k: int| 0 <= k < m.branches.len() && m.branches[k].name == b2
                && sb_viewed(m.branches[k], c2, f2);
            if k == i {
                if b2 == b {
                    lemma_sb_marked_frame(r.branches[i], c, f, c2, f2);
                } else {
                    assert(m.branches[k].name == r.branches[k].name);
                }
                assert(r.branches[k].name == b2 && sb_viewed(r.branches[k], c2, f2));
            } else {
                assert(m.branches[k] == r.branches[k]);
            }
            assert(sr_viewed(r, b2, c2, f2));
        }
        if sr_viewed(r, b2, c2, f2) {
            let k = choose|k: int| 0 <= k < r.branches.len() && r.branches[k].name == b2
                && sb_viewed(r.branches[k], c2, f2);
            if k == i {
                if b2 == b {
                    lemma_sb_marked_frame(r.branches[i], c, f, c2, f2);
                    assert(sb_viewed(m.branches[k], c2, f2));
                } else {
                    assert(r.branches[k].name == b);
                }
            } else {
                assert(m.branches[k] == r.branches[k]);
            }
            assert(m.branches[k].name == b2 && sb_viewed(m.branches[k], c2, f2));
        }
    } else {
        if sr_viewed(m, b2, c2, f2) {
            let k = choose|k: int| 0 <= k < m.branches.len() && m.branches[k].name == b2
                && sb_viewed(m.branches[k], c2, f2);
            if k == r.branches.len() {
                let nb = m.branches[k];
                assert(nb.name == b);
                if b2 == b {
                    let j = choose|j: int| 0 <= j < nb.commits.len() && nb.commits[j].id == c2
                        && sc_has(nb.commits[j], f2);
                    assert(nb.commits == seq![SCommit { id: c, files: seq![f] }]);
                    assert(nb.commits[j] == SCommit { id: c, files: seq![f] });
                    if c2 == c {
                        let l = choose|l: int| 0 <= l < nb.commits[j].files.len()
                            && nb.commits[j].files[l] == f2;
                        assert(nb.commits[j].files[l] == f);
                    }
                }
            } else {
                assert(m.branches[k] == r.branches[k]);
                assert(sr_viewed(r, b2, c2, f2));
            }
        }
        if sr_viewed(r, b2, c2, f2) {
            let k = choose|k: int| 0 <= k < r.branches.len() && r.branches[k].name == b2
                && sb_viewed(r.branches[k], c2, f2);
            assert(m.branches[k] == r.branches[k]);
            assert(m.branches[k].name == b2 && sb_viewed(m.branches[k], c2, f2));
        }
    }
}

/// Marking an already-recorded triple leaves the repo record unchanged.
pub proof fn lemma_sr_marked_noop(r: SRepo, b: Seq<char>, c: Seq<char>, f: Seq<char>)
    requires
        sr_wf(r),
        sr_viewed(r, b, c, f),
    ensures
        sr_marked(r, b, c, f) == r,
{
    let w = choose|w: int| 0 <= w < r.branches.len() && r.branches[w].name == b
        && sb_viewed(r.branches[w], c, f);
    assert(sr_has_branch(r, b));
    let i = choose|i: int| 0 <= i < r.branches.len() && r.branches[i].name == b;
    assert(i == w);
    lemma_sb_marked_noop(r.branches[i], c, f);
    let m = sr_marked(r, b, c, f);
    assert(m.branches =~= r.branches);
}

/// Marking preserves well-formedness of the whole state.
pub proof fn lemma_st_marked_wf(st: Seq<SRepo>, r: Seq<char>, b: Seq<char>, c: Seq<char>, f: Seq<char>)
    requires
        st_wf(st),
    ensures
        st_wf(st_marked(st, r, b, c, f)),
{
    let m = st_marked(st, r, b, c, f);
    if st_has_repo(st, r) {
        let i = choose|i: int| 0 <= i < st.len() && st[i].path == r;
        assert forall|p: int, q: int| 0 <= p < q < m.len() implies m[p].path != m[q].path by {
            assert(m[p].path == st[p].path);
            assert(m[q].path == st[q].path);
        }
        assert forall|p: int| 0 <= p < m.len() implies sr_wf(#[trigger] m[p]) by {
            if p == i {
                lemma_sr_marked_wf(st[i], b, c, f);
            } else {
                assert(m[p] == st[p]);
            }
        }
    } else {
        assert forall|p: int, q: int| 0 <= p < q < m.len() implies m[p].path != m[q].path by {
            if q == st.len() {
                assert(m[q].path == r);
                assert(m[p] == st[p]);
            }
        }
        assert forall|p: int| 0 <= p < m.len() implies sr_wf(#[trigger] m[p]) by {
            if p == st.len() {
                let nr = m[p];
                assert(nr.branches.len() == 1);
                assert(nr.branches[0].commits.len() == 1);
                assert(nr.branches[0].commits[0].files == seq![f]);
                assert(nr.branches[0].commits[0].files.len() == 1);
            } else {
                assert(m[p] == st[p]);
            }
        }
    }
}

/// After marking, the key is recorded in the state.
pub proof fn lemma_st_marked_viewed(st: Seq<SRepo>, r: Seq<char>, b: Seq<char>, c: Seq<char>, f: Seq<char>)
    ensures
        st_viewed(st_marked(st, r, b, c, f), r, b, c, f),
{
    let m = st_marked(st, r, b, c, f);
    if st_has_repo(st, r) {
        let i = choose|i: int| 0 <= i < st.len() && st[i].path == r;
        lemma_sr_marked_viewed(st[i], b, c, f);
        assert(m[i].path == r && sr_viewed(m[i], b, c, f));
    } else {
        let i = st.len() as int;
        let nr = m[i];
        assert(nr.branches[0].name == b);
        assert(nr.branches[0].commits[0].id == c);
        assert(nr.branches[0].commits[0].files[0] == f);
        assert(sc_has(nr.branches[0].commits[0], f));
        assert(sb_viewed(nr.branches[0], c, f));
        assert(sr_viewed(nr, b, c, f));
        assert(m[i].path == r && sr_viewed(m[i], b, c, f));
    }
}

/// Marking one key never changes what is recorded for any other key:
/// repositories, branches and commits are isolated from one another.
pub proof fn lemma_st_marked_frame(
    st: Seq<SRepo>, r: Seq<char>, b: Seq<char>, c: Seq<char>, f: Seq<char>,
    r2: Seq<char>, b2: Seq<char>, c2: Seq<char>, f2: Seq<char>,
)
    requires
        !(r2 == r && b2 == b && c2 == c && f2 == f),
    ensures
        st_viewed(st_marked(st, r, b, c, f), r2, b2, c2, f2) == st_viewed(st, r2, b2, c2, f2),
{
    let m = st_marked(st, r, b, c, f);
    if st_has_repo(st, r) {
        let i = choose|i: int| 0 <= i < st.len() && st[i].path == r;
        if st_viewed(m, r2, b2, c2, f2) {
            let k = choose|k: int| 0 <= k < m.len() && m[k].path == r2 && sr_viewed(m[k], b2, c2, f2);
            if k == i {
                if r2 == r {
                    lemma_sr_marked_frame(st[i], b, c, f, b2, c2, f2);
                } else {
                    assert(m[k].path == st[k].path);
                }
                assert(st[k].path == r2 && sr_viewed(st[k], b2, c2, f2));
            } else {
                assert(m[k] == st[k]);
            }
            assert(st_viewed(st, r2, b2, c2, f2));
        }
        if st_viewed(st, r2, b2, c2, f2) {
            let k = choose|k: int| 0 <= k < st.len() && st[k].path == r2 && sr_viewed(st[k], b2, c2, f2);
            if k == i {
                if r2 == r {
                    lemma_sr_marked_frame(st[i], b, c, f, b2, c2, f2);
                    assert(sr_viewed(m[k], b2, c2, f2));
                } else {
                    assert(st[k].path == r);
                }
            } else {
                assert(m[k] == st[k]);
            }
            assert(m[k].path == r2 && sr_viewed(m[k], b2, c2, f2));
        }
    } else {
        if st_viewed(m, r2, b2, c2, f2) {
            let k = choose|k: int| 0 <= k < m.len() && m[k].path == r2 && sr_viewed(m[k], b2, c2, f2);
            if k == st.len() {
                let nr = m[k];
                assert(nr.path == r);
                if r2 == r {
                    let j = choose|j: int| 0 <= j < nr.branches.len() && nr.branches[j].name == b2
                        && sb_viewed(nr.branches[j], c2, f2);
                    assert(nr.branches.len() == 1);
                    assert(nr.branches[j] == nr.branches[0]);
                    assert(nr.branches[0].name == b);
                    if b2 == b {
                        let l = choose|l: int| 0 <= l < nr.branches[j].commits.len()
                            && nr.branches[j].commits[l].id == c2
                            && sc_has(nr.branches[j].commits[l], f2);
                        assert(nr.branches[j].commits.len() == 1);
                        assert(nr.branches[j].commits[l] == nr.branches[j].commits[0]);
                        assert(nr.branches[0].commits[0].id == c);
                        if c2 == c {
                            let x = choose|x: int| 0 <= x < nr.branches[j].commits[l].files.len()
                                && nr.branches[j].commits[l].files[x] == f2;
                            assert(nr.branches[j].commits[l].files == seq![f]);
                            assert(nr.branches[j].commits[l].files[x] == f);
                        }
                    }
                }
            } else {
                assert(m[k] == st[k]);
                assert(st_viewed(st, r2, b2, c2, f2));
            }
        }
        if st_viewed(st, r2, b2, c2, f2) {
            let k = choose|k: int| 0 <= k < st.len() && st[k].path == r2 && sr_viewed(st[k], b2, c2, f2);
            assert(m[k] == st[k]);
            assert(m[k].path == r2 && sr_viewed(m[k], b2, c2, f2));
        }
    }
}

/// Marking a key that is already recorded leaves the state unchanged, and so
/// leaves the persisted document unchanged: marking twice is marking once.
pub proof fn lemma_st_marked_noop(st: Seq<SRepo>, r: Seq<char>, b: Seq<char>, c: Seq<char>, f: Seq<char>)
    requires
        st_wf(st),
        st_viewed(st, r, b, c, f),
    ensures
        st_marked(st, r, b, c, f) == st,
{
    let w = choose|w: int| 0 <= w < st.len() && st[w].path == r && sr_viewed(st[w], b, c, f);
    assert(st_has_repo(st, r));
    let i = choose|i: int| 0 <= i < st.len() && st[i].path == r;
    assert(i == w);
    lemma_sr_marked_noop(st[i], b, c, f);
    let m = st_marked(st, r, b, c, f);
    assert(m =~= st);
}

/// Marking is idempotent: a second marking of the same key changes nothing.
pub proof fn lemma_st_marked_idempotent(st: Seq<SRepo>, r: Seq<char>, b: Seq<char>, c: Seq<char>, f: Seq<char>)
    requires
        st_wf(st),
    ensures
        st_marked(st_marked(st, r, b, c, f), r, b, c, f) == st_marked(st, r, b, c, f),
{
    let m = st_marked(st, r, b, c, f);
    lemma_st_marked_wf(st, r, b, c, f);
    lemma_st_marked_viewed(st, r, b, c, f);
    lemma_st_marked_noop(m, r, b, c, f);
}


fn mark_commit(e: CommitEntry, f: &String) -> (r: CommitEntry)
    ensures
        r.dv() == sc_marked(e.dv(), f@),
{
    let mut e2 = e;
    if !commit_has_file(&e2, f) {
        e2.files.push(f.clone());
        proof {
            assert(e2.files.deep_view() =~= e.files.deep_view().push(f@));
        }
    }
    e2
}

fn mark_branch(e: BranchEntry, c: &String, f: &String) -> (r: BranchEntry)
    requires
        sb_wf(e.dv()),
    ensures
        r.dv() == sb_marked(e.dv(), c@, f@),
{
    let mut e2 = e;
    let n = e2.commits.len();
    let mut i: usize = 0;
    while i < n
        invariant
            e2 == e,
            sb_wf(e.dv()),
            n == e2.commits@.len(),
            i <= n,
            forall|j: int| 0 <= j < i ==> e.dv().commits[j].id != c@,
        decreases n - i,
    {
        if e2.commits[i].id == *c {
            proof {
                assert(e.dv().commits[i as int].id == c@);
            }
            let ce = e2.commits.remove(i);
            let ce2 = mark_commit(ce, f);
            e2.commits.insert(i, ce2);
            proof {
                let dvb = e.dv();
                assert(sb_has_commit(dvb, c@));
                let k = choose|k: int| 0 <= k < dvb.commits.len() && dvb.commits[k].id == c@;
                assert(k == i as int);
                assert(ce2.dv() == sc_marked(dvb.commits[k], f@));
                assert(e2.commits@ =~= e.commits@.update(i as int, ce2));
                assert(e2.commits@.map_values(|x: CommitEntry| x.dv())
                    =~= dvb.commits.update(k, sc_marked(dvb.commits[k], f@)));
            }
            return e2;
        }
        i += 1;
    }
    proof {
        assert(!sb_has_commit(e.dv(), c@));
    }
    let mut fs: Vec<String> = Vec::new();
    fs.push(f.clone());
    let ne = CommitEntry { id: c.clone(), files: fs };
    e2.commits.push(ne);
    proof {
        assert(ne.dv().files =~= seq![f@]);
        assert(ne.dv() == SCommit { id: c@, files: seq![f@] });
        assert(e2.commits@.map_values(|x: CommitEntry| x.dv())
            =~= e.dv().commits.push(SCommit { id: c@, files: seq![f@] }));
    }
    e2
}

fn mark_repo(e: RepoEntry, b: &String, c: &String, f: &String) -> (r: RepoEntry)
    requires
        sr_wf(e.dv()),
    ensures
        r.dv() == sr_marked(e.dv(), b@, c@, f@),
{
    let mut e2 = e;
    let n = e2.branches.len();
    let mut i: usize = 0;
    while i < n
        invariant
            e2 == e,
            sr_wf(e.dv()),
            n == e2.branches@.len(),
            i <= n,
            forall|j: int| 0 <= j < i ==> e.dv().branches[j].name != b@,
        decreases n - i,
    {
        if e2.branches[i].name == *b {
            proof {
                assert(e.dv().branches[i as int].name == b@);
                assert(sb_wf(e.dv().branches[i as int]));
            }
            let be = e2.branches.remove(i);
            let be2 = mark_branch(be, c, f);
            e2.branches.insert(i, be2);
            proof {
                let dvr = e.dv();
                assert(sr_has_branch(dvr, b@));
                let k = choose|k: int| 0 <= k < dvr.branches.len() && dvr.branches[k].name == b@;
                assert(k == i as int);
                assert(be2.dv() == sb_marked(dvr.branches[k], c@, f@));
                assert(e2.branches@ =~= e.branches@.update(i as int, be2));
                assert(e2.branches@.map_values(|x: BranchEntry| x.dv())
                    =~= dvr.branches.update(k, sb_marked(dvr.branches[k], c@, f@)));
            }
            return e2;
        }
        i += 1;
    }
    proof {
        assert(!sr_has_branch(e.dv(), b@));
    }
    let mut fs: Vec<String> = Vec::new();
    fs.push(f.clone());
    let nc = CommitEntry { id: c.clone(), files: fs };
    let mut cs: Vec<CommitEntry> = Vec::new();
    cs.push(nc);
    let nb = BranchEntry { name: b.clone(), commits: cs };
    e2.branches.push(nb);
    proof {
        assert(nc.dv().files =~= seq![f@]);
        assert(nc.dv() == SCommit { id: c@, files: seq![f@] });
        assert(nb.dv().commits =~= seq![SCommit { id: c@, files: seq![f@] }]);
        assert(nb.dv() == SBranch { name: b@, commits: seq![SCommit { id: c@, files: seq![f@] }] });
        assert(e2.branches@.map_values(|x: BranchEntry| x.dv())
            =~= e.dv().branches.push(nb.dv()));
    }
    e2
}

impl StateManager {
    /// Records the file as reviewed for (repository, branch, commit): a no-op
    /// when it is already recorded, an in-place set insertion otherwise.
    /// Marking one key never changes what is recorded for any other key, and
    /// marking twice in sequence leaves the state as marking once left it.
    pub fn mark_file_viewed(&mut self, repo_path: &str, branch: &str, commit: &str, file_path: &str)
        requires
            old(self).wf(),
        ensures
            final(self).dv() == st_marked(old(self).dv(), repo_path@, branch@, commit@, file_path@),
            final(self).wf(),
            final(self).viewed(repo_path@, branch@, commit@, file_path@),
            old(self).viewed(repo_path@, branch@, commit@, file_path@)
                ==> final(self).dv() == old(self).dv(),
            forall|r2: Seq<char>, b2: Seq<char>, c2: Seq<char>, f2: Seq<char>|
                !(r2 == repo_path@ && b2 == branch@ && c2 == commit@ && f2 == file_path@)
                    ==> final(self).viewed(r2, b2, c2, f2) == old(self).viewed(r2, b2, c2, f2),
    {
        self.mark_core(repo_path, branch, commit, file_path);
        proof {
            let st = old(self).dv();
            lemma_st_marked_wf(st, repo_path@, branch@, commit@, file_path@);
            lemma_st_marked_viewed(st, repo_path@, branch@, commit@, file_path@);
            if st_viewed(st, repo_path@, branch@, commit@, file_path@) {
                lemma_st_marked_noop(st, repo_path@, branch@, commit@, file_path@);
            }
            assert forall|r2: Seq<char>, b2: Seq<char>, c2: Seq<char>, f2: Seq<char>|
                !(r2 == repo_path@ && b2 == branch@ && c2 == commit@ && f2 == file_path@)
                    implies final(self).viewed(r2, b2, c2, f2) == old(self).viewed(r2, b2, c2, f2) by {
                lemma_st_marked_frame(st, repo_path@, branch@, commit@, file_path@, r2, b2, c2, f2);
            }
        }
    }

    fn mark_core(&mut self, repo_path: &str, branch: &str, commit: &str, file_path: &str)
        requires
            old(self).wf(),
        ensures
            final(self).dv() == st_marked(old(self).dv(), repo_path@, branch@, commit@, file_path@),
    {
        let rp = String::from_str(repo_path);
        let b = String::from_str(branch);
        let c = String::from_str(commit);
        let f = String::from_str(file_path);
        let n = self.repos.len();
        let mut i: usize = 0;
        while i < n
            invariant
                *self == *old(self),
                old(self).wf(),
                rp@ == repo_path@,
                b@ == branch@,
                c@ == commit@,
                f@ == file_path@,
                n == self.repos@.len(),
                i <= n,
                forall|j: int| 0 <= j < i ==> old(self).dv()[j].path != repo_path@,
            decreases n - i,
        {
            if self.repos[i].path == rp {
                proof {
                    assert(old(self).dv()[i as int].path == repo_path@);
                    assert(sr_wf(old(self).dv()[i as int]));
                }
                let re = self.repos.remove(i);
                let re2 = mark_repo(re, &b, &c, &f);
                self.repos.insert(i, re2);
                proof {
                    let st = old(self).dv();
                    assert(st_has_repo(st, repo_path@));
                    let k = choose|k: int| 0 <= k < st.len() && st[k].path == repo_path@;
                    assert(k == i as int);
                    assert(re2.dv() == sr_marked(st[k], branch@, commit@, file_path@));
                    assert(self.repos@ =~= old(self).repos@.update(i as int, re2));
                    assert(self.repos@.map_values(|x: RepoEntry| x.dv())
                        =~= st.update(k, sr_marked(st[k], branch@, commit@, file_path@)));
                }
                return;
            }
            i += 1;
        }
        proof {
            assert(!st_has_repo(old(self).dv(), repo_path@));
        }
        let mut fs: Vec<String> = Vec::new();
        fs.push(f.clone());
        let nc = CommitEntry { id: c.clone(), files: fs };
        let mut cs: Vec<CommitEntry> = Vec::new();
        cs.push(nc);
        let nb = BranchEntry { name: b.clone(), commits: cs };
        let mut bs: Vec<BranchEntry> = Vec::new();
        bs.push(nb);
        let nr = RepoEntry { path: rp, branches: bs };
        self.repos.push(nr);
        proof {
            assert(nc.dv().files =~= seq![file_path@]);
            assert(nc.dv() == SCommit { id: commit@, files: seq![file_path@] });
            assert(nb.dv().commits =~= seq![nc.dv()]);
            assert(nb.dv() == SBranch { name: branch@, commits: seq![SCommit { id: commit@, files: seq![file_path@] }] });
            assert(nr.dv().branches =~= seq![nb.dv()]);
            assert(nr.dv() == SRepo {
                path: repo_path@,
                branches: seq![SBranch { name: branch@, commits: seq![SCommit { id: commit@, files: seq![file_path@] }] }],
            });
            assert(self.repos@.map_values(|x: RepoEntry| x.dv())
                =~= old(self).dv().push(nr.dv()));
        }
    }
}

} // verus!
