//! The codec for the persisted viewed-state document.
//!
//! The state file is a single JSON document: a top-level object with one
//! `"repos"` field holding a mapping from repository paths to mappings from
//! branch names to mappings from commit ids to arrays of file paths. The
//! encoder below produces exactly that shape; the parser accepts it back
//! (tolerating whitespace and the standard string escapes), refusing
//! documents with duplicate keys or duplicate array entries, and refusing
//! anything else — a caller treats a refused document as an empty state.

use vstd::prelude::*;

use crate::state::{SBranch, SCommit, SRepo, st_has_repo};

verus! {

// ---------------------------------------------------------------------------
// Encoding
// ---------------------------------------------------------------------------

/// The hexadecimal digit for a value below sixteen.
pub open spec fn hex_digit(n: int) -> char {
    if n == 0 { '0' } else if n == 1 { '1' } else if n == 2 { '2' } else if n == 3 { '3' }
    else if n == 4 { '4' } else if n == 5 { '5' } else if n == 6 { '6' } else if n == 7 { '7' }
    else if n == 8 { '8' } else if n == 9 { '9' } else if n == 10 { 'a' } else if n == 11 { 'b' }
    else if n == 12 { 'c' } else if n == 13 { 'd' } else if n == 14 { 'e' } else { 'f' }
}

/// How one character is written inside a JSON string: quotes and backslashes
/// are escaped, control characters are written as a hexadecimal escape, and
/// everything else stands for itself.
pub open spec fn esc_char(c: char) -> Seq<char> {
    if c == '"' {
        seq!['\\', '"']
    } else if c == '\\' {
        seq!['\\', '\\']
    } else if (c as int) < 32 {
        seq!['\\', 'u', '0', '0', hex_digit((c as int) / 16), hex_digit((c as int) % 16)]
    } else {
        seq![c]
    }
}

/// The body of a JSON string: each character escaped as needed.
pub open spec fn enc_str_body(s: Seq<char>) -> Seq<char>
    decreases s.len(),
{
    if s.len() == 0 {
        Seq::<char>::empty()
    } else {
        esc_char(s[0]) + enc_str_body(s.skip(1))
    }
}

/// A JSON string: the escaped body between double quotes.
pub open spec fn enc_string(s: Seq<char>) -> Seq<char> {
    seq!['"'] + enc_str_body(s) + seq!['"']
}

/// The comma-separated items of a file-path array.
pub open spec fn enc_files_items(fs: Seq<Seq<char>>) -> Seq<char>
    decreases fs.len(),
{
    if fs.len() == 0 {
        Seq::<char>::empty()
    } else if fs.len() == 1 {
        enc_string(fs[0])
    } else {
        enc_string(fs[0]) + seq![','] + enc_files_items(fs.skip(1))
    }
}

/// A JSON array of file paths.
pub open spec fn enc_files(fs: Seq<Seq<char>>) -> Seq<char> {
    seq!['['] + enc_files_items(fs) + seq![']']
}

/// One commit entry: the id as key, the file-path array as value.
pub open spec fn enc_commit(c: SCommit) -> Seq<char> {
    enc_string(c.id) + seq![':'] + enc_files(c.files)
}

/// The comma-separated entries of a commit object.
pub open spec fn enc_commits_items(cs: Seq<SCommit>) -> Seq<char>
    decreases cs.len(),
{
    if cs.len() == 0 {
        Seq::<char>::empty()
    } else if cs.len() == 1 {
        enc_commit(cs[0])
    } else {
        enc_commit(cs[0]) + seq![','] + enc_commits_items(cs.skip(1))
    }
}

/// One branch entry: the name as key, the commit object as value.
pub open spec fn enc_branch(b: SBranch) -> Seq<char> {
    enc_string(b.name) + seq![':'] + seq!['{'] + enc_commits_items(b.commits) + seq!['}']
}

/// The comma-separated entries of a branch object.
pub open spec fn enc_branches_items(bs: Seq<SBranch>) -> Seq<char>
    decreases bs.len(),
{
    if bs.len() == 0 {
        Seq::<char>::empty()
    } else if bs.len() == 1 {
        enc_branch(bs[0])
    } else {
        enc_branch(bs[0]) + seq![','] + enc_branches_items(bs.skip(1))
    }
}

/// One repository entry: the path as key, the branch object as value.
pub open spec fn enc_repo(r: SRepo) -> Seq<char> {
    enc_string(r.path) + seq![':'] + seq!['{'] + enc_branches_items(r.branches) + seq!['}']
}

/// The comma-separated entries of the repository object.
pub open spec fn enc_repos_items(rs: Seq<SRepo>) -> Seq<char>
    decreases rs.len(),
{
    if rs.len() == 0 {
        Seq::<char>::empty()
    } else if rs.len() == 1 {
        enc_repo(rs[0])
    } else {
        enc_repo(rs[0]) + seq![','] + enc_repos_items(rs.skip(1))
    }
}

/// The whole persisted document for a state.
pub open spec fn json_of(st: Seq<SRepo>) -> Seq<char> {
    seq!['{'] + enc_string("repos"@) + seq![':'] + seq!['{'] + enc_repos_items(st) + seq!['}']
        + seq!['}']
}

// ---------------------------------------------------------------------------
// Parsing
// ---------------------------------------------------------------------------

/// JSON whitespace.
pub open spec fn is_ws(c: char) -> bool {
    c == ' ' || c == '\n' || c == '\r' || c == '\t'
}

/// The input with its leading whitespace removed.
pub open spec fn skip_ws(s: Seq<char>) -> Seq<char>
    decreases s.len(),
{
    if s.len() > 0 && is_ws(s[0]) {
        skip_ws(s.skip(1))
    } else {
        s
    }
}

/// The value of a hexadecimal digit, or a negative number for any other
/// character.
pub open spec fn hex_val(c: char) -> int {
    if '0' <= c && c <= '9' {
        c as int - '0' as int
    } else if 'a' <= c && c <= 'f' {
        10 + c as int - 'a' as int
    } else if 'A' <= c && c <= 'F' {
        10 + c as int - 'A' as int
    } else {
        -1
    }
}

/// The character a one-letter escape stands for, if it is one.
pub open spec fn unescape(c: char) -> Option<char> {
    if c == '"' { Some('"') }
    else if c == '\\' { Some('\\') }
    else if c == '/' { Some('/') }
    else if c == 'b' { Some(8 as char) }
    else if c == 'f' { Some(12 as char) }
    else if c == 'n' { Some('\n') }
    else if c == 'r' { Some('\r') }
    else if c == 't' { Some('\t') }
    else { None }
}

/// Parses the body of a JSON string up to and including its closing quote;
/// yields the decoded characters and the remaining input. Unescaped control
/// characters, bad escapes and surrogate code points are refused.
pub open spec fn p_str_body(s: Seq<char>) -> Option<(Seq<char>, Seq<char>)>
    decreases s.len(),
{
    if s.len() == 0 {
        None
    } else if s[0] == '"' {
        Some((Seq::<char>::empty(), s.skip(1)))
    } else if s[0] == '\\' {
        if s.len() < 2 {
            None
        } else if s[1] == 'u' {
            if s.len() < 6 {
                None
            } else {
                let h0 = hex_val(s[2]);
                let h1 = hex_val(s[3]);
                let h2 = hex_val(s[4]);
                let h3 = hex_val(s[5]);
                if h0 < 0 || h1 < 0 || h2 < 0 || h3 < 0 {
                    None
                } else {
                    let code = h0 * 4096 + h1 * 256 + h2 * 16 + h3;
                    if 0xD800 <= code && code < 0xE000 {
                        None
                    } else {
                        match p_str_body(s.skip(6)) {
                            Some(p) => Some((seq![code as char] + p.0, p.1)),
                            None => None,
                        }
                    }
                }
            }
        } else {
            match unescape(s[1]) {
                Some(c) => match p_str_body(s.skip(2)) {
                    Some(p) => Some((seq![c] + p.0, p.1)),
                    None => None,
                },
                None => None,
            }
        }
    } else if (s[0] as int) < 32 {
        None
    } else {
        match p_str_body(s.skip(1)) {
            Some(p) => Some((seq![s[0]] + p.0, p.1)),
            None => None,
        }
    }
}

/// Parses a JSON string at the very start of the input.
pub open spec fn p_string(s: Seq<char>) -> Option<(Seq<char>, Seq<char>)> {
    if s.len() > 0 && s[0] == '"' {
        p_str_body(s.skip(1))
    } else {
        None
    }
}

/// One or more comma-separated strings followed by `]`; refuses duplicates.
pub open spec fn p_files_items(s: Seq<char>) -> Option<(Seq<Seq<char>>, Seq<char>)>
    decreases s.len(),
{
    match p_string(s) {
        None => None,
        Some(p) => {
            let v = p.0;
            let r2 = skip_ws(p.1);
            if r2.len() > 0 && r2[0] == ',' {
                let nxt = skip_ws(r2.skip(1));
                if nxt.len() < s.len() {
                    match p_files_items(nxt) {
                        None => None,
                        Some(q) => if q.0.contains(v) {
                            None
                        } else {
                            Some((seq![v] + q.0, q.1))
                        },
                    }
                } else {
                    None
                }
            } else if r2.len() > 0 && r2[0] == ']' {
                Some((seq![v], r2.skip(1)))
            } else {
                None
            }
        },
    }
}

/// A JSON array of distinct strings.
pub open spec fn p_files(s: Seq<char>) -> Option<(Seq<Seq<char>>, Seq<char>)> {
    let t = skip_ws(s);
    if t.len() > 0 && t[0] == '[' {
        let u = skip_ws(t.skip(1));
        if u.len() > 0 && u[0] == ']' {
            Some((Seq::<Seq<char>>::empty(), u.skip(1)))
        } else {
            p_files_items(u)
        }
    } else {
        None
    }
}

/// Some commit record in `cs` carries the id.
pub open spec fn ids_has(cs: Seq<SCommit>, id: Seq<char>) -> bool {
    exists|i: int| 0 <= i < cs.len() && cs[i].id == id
}

/// Some branch record in `bs` carries the name.
pub open spec fn names_has(bs: Seq<SBranch>, n: Seq<char>) -> bool {
    exists|i: int| 0 <= i < bs.len() && bs[i].name == n
}

/// One or more `"id": [files]` entries followed by `}`; refuses duplicate ids.
pub open spec fn p_commits_items(s: Seq<char>) -> Option<(Seq<SCommit>, Seq<char>)>
    decreases s.len(),
{
    match p_string(skip_ws(s)) {
        None => None,
        Some(p) => {
            let id = p.0;
            let r2 = skip_ws(p.1);
            if r2.len() > 0 && r2[0] == ':' {
                match p_files(r2.skip(1)) {
                    None => None,
                    Some(q) => {
                        let c = SCommit { id: id, files: q.0 };
                        let r4 = skip_ws(q.1);
                        if r4.len() > 0 && r4[0] == ',' {
                            let nxt = r4.skip(1);
                            if nxt.len() < s.len() {
                                match p_commits_items(nxt) {
                                    None => None,
                                    Some(w) => if ids_has(w.0, id) {
                                        None
                                    } else {
                                        Some((seq![c] + w.0, w.1))
                                    },
                                }
                            } else {
                                None
                            }
                        } else if r4.len() > 0 && r4[0] == '}' {
                            Some((seq![c], r4.skip(1)))
                        } else {
                            None
                        }
                    },
                }
            } else {
                None
            }
        },
    }
}

/// A JSON object of commit entries.
pub open spec fn p_commits_obj(s: Seq<char>) -> Option<(Seq<SCommit>, Seq<char>)> {
    let t = skip_ws(s);
    if t.len() > 0 && t[0] == '{' {
        let u = skip_ws(t.skip(1));
        if u.len() > 0 && u[0] == '}' {
            Some((Seq::<SCommit>::empty(), u.skip(1)))
        } else {
            p_commits_items(t.skip(1))
        }
    } else {
        None
    }
}

/// One or more `"name": {commits}` entries followed by `}`; refuses duplicate
/// names.
pub open spec fn p_branches_items(s: Seq<char>) -> Option<(Seq<SBranch>, Seq<char>)>
    decreases s.len(),
{
    match p_string(skip_ws(s)) {
        None => None,
        Some(p) => {
            let name = p.0;
            let r2 = skip_ws(p.1);
            if r2.len() > 0 && r2[0] == ':' {
                match p_commits_obj(r2.skip(1)) {
                    None => None,
                    Some(q) => {
                        let b = SBranch { name: name, commits: q.0 };
                        let r4 = skip_ws(q.1);
                        if r4.len() > 0 && r4[0] == ',' {
                            let nxt = r4.skip(1);
                            if nxt.len() < s.len() {
                                match p_branches_items(nxt) {
                                    None => None,
                                    Some(w) => if names_has(w.0, name) {
                                        None
                                    } else {
                                        Some((seq![b] + w.0, w.1))
                                    },
                                }
                            } else {
                                None
                            }
                        } else if r4.len() > 0 && r4[0] == '}' {
                            Some((seq![b], r4.skip(1)))
                        } else {
                            None
                        }
                    },
                }
            } else {
                None
            }
        },
    }
}

/// A JSON object of branch entries.
pub open spec fn p_branches_obj(s: Seq<char>) -> Option<(Seq<SBranch>, Seq<char>)> {
    let t = skip_ws(s);
    if t.len() > 0 && t[0] == '{' {
        let u = skip_ws(t.skip(1));
        if u.len() > 0 && u[0] == '}' {
            Some((Seq::<SBranch>::empty(), u.skip(1)))
        } else {
            p_branches_items(t.skip(1))
        }
    } else {
        None
    }
}

/// One or more `"path": {branches}` entries followed by `}`; refuses
/// duplicate paths.
pub open spec fn p_repos_items(s: Seq<char>) -> Option<(Seq<SRepo>, Seq<char>)>
    decreases s.len(),
{
    match p_string(skip_ws(s)) {
        None => None,
        Some(p) => {
            let path = p.0;
            let r2 = skip_ws(p.1);
            if r2.len() > 0 && r2[0] == ':' {
                match p_branches_obj(r2.skip(1)) {
                    None => None,
                    Some(q) => {
                        let r = SRepo { path: path, branches: q.0 };
                        let r4 = skip_ws(q.1);
                        if r4.len() > 0 && r4[0] == ',' {
                            let nxt = r4.skip(1);
                            if nxt.len() < s.len() {
                                match p_repos_items(nxt) {
                                    None => None,
                                    Some(w) => if st_has_repo(w.0, path) {
                                        None
                                    } else {
                                        Some((seq![r] + w.0, w.1))
                                    },
                                }
                            } else {
                                None
                            }
                        } else if r4.len() > 0 && r4[0] == '}' {
                            Some((seq![r], r4.skip(1)))
                        } else {
                            None
                        }
                    },
                }
            } else {
                None
            }
        },
    }
}

/// The JSON object of repository entries.
pub open spec fn p_repos_obj(s: Seq<char>) -> Option<(Seq<SRepo>, Seq<char>)> {
    let t = skip_ws(s);
    if t.len() > 0 && t[0] == '{' {
        let u = skip_ws(t.skip(1));
        if u.len() > 0 && u[0] == '}' {
            Some((Seq::<SRepo>::empty(), u.skip(1)))
        } else {
            p_repos_items(t.skip(1))
        }
    } else {
        None
    }
}

/// Parses a whole persisted document: a top-level object whose single
/// `"repos"` field holds the repository object, with nothing but whitespace
/// after it. Anything else is refused.
pub open spec fn p_state(s: Seq<char>) -> Option<Seq<SRepo>> {
    let t = skip_ws(s);
    if t.len() > 0 && t[0] == '{' {
        match p_string(skip_ws(t.skip(1))) {
            None => None,
            Some(p) => {
                if p.0 == "repos"@ {
                    let r2 = skip_ws(p.1);
                    if r2.len() > 0 && r2[0] == ':' {
                        match p_repos_obj(r2.skip(1)) {
                            None => None,
                            Some(q) => {
                                let r4 = skip_ws(q.1);
                                if r4.len() > 0 && r4[0] == '}' {
                                    if skip_ws(r4.skip(1)).len() == 0 {
                                        Some(q.0)
                                    } else {
                                        None
                                    }
                                } else {
                                    None
                                }
                            },
                        }
                    } else {
                        None
                    }
                } else {
                    None
                }
            },
        }
    } else {
        None
    }
}


// ---------------------------------------------------------------------------
// The executable encoder
// ---------------------------------------------------------------------------

proof fn lemma_enc_str_body_snoc(s: Seq<char>, c: char)
    ensures
        enc_str_body(s.push(c)) == enc_str_body(s) + esc_char(c),
    decreases s.len(),
{
    if s.len() == 0 {
        assert(s.push(c)[0] == c);
        assert(s.push(c).skip(1) =~= Seq::<char>::empty());
        assert(enc_str_body(Seq::<char>::empty()) == Seq::<char>::empty());
        assert(enc_str_body(s.push(c)) == esc_char(c) + Seq::<char>::empty());
        assert(esc_char(c) + Seq::<char>::empty() =~= esc_char(c));
        assert(enc_str_body(s) + esc_char(c) =~= esc_char(c));
    } else {
        assert(s.push(c).skip(1) =~= s.skip(1).push(c));
        lemma_enc_str_body_snoc(s.skip(1), c);
        assert(enc_str_body(s.push(c)) == esc_char(s[0]) + (enc_str_body(s.skip(1)) + esc_char(c)));
        assert(esc_char(s[0]) + (enc_str_body(s.skip(1)) + esc_char(c))
            =~= (esc_char(s[0]) + enc_str_body(s.skip(1))) + esc_char(c));
    }
}

fn hex_digit_exec(n: u8) -> (c: char)
    requires
        n < 16,
    ensures
        c == hex_digit(n as int),
{
    if n == 0 { '0' } else if n == 1 { '1' } else if n == 2 { '2' } else if n == 3 { '3' }
    else if n == 4 { '4' } else if n == 5 { '5' } else if n == 6 { '6' } else if n == 7 { '7' }
    else if n == 8 { '8' } else if n == 9 { '9' } else if n == 10 { 'a' } else if n == 11 { 'b' }
    else if n == 12 { 'c' } else if n == 13 { 'd' } else if n == 14 { 'e' } else { 'f' }
}

fn enc_string_exec(out: &mut Vec<char>, s: &String)
    ensures
        final(out)@ == old(out)@ + enc_string(s@),
{
    out.push('"');
    let n = s.as_str().unicode_len();
    let mut i: usize = 0;
    while i < n
        invariant
            n == s@.len(),
            i <= n,
            out@ == old(out)@ + seq!['"'] + enc_str_body(s@.take(i as int)),
        decreases n - i,
    {
        let c = s.as_str().get_char(i);
        let ghost pre = out@;
        if c == '"' {
            out.push('\\');
            out.push('"');
        } else if c == '\\' {
            out.push('\\');
            out.push('\\');
        } else if (c as u32) < 32 {
            out.push('\\');
            out.push('u');
            out.push('0');
            out.push('0');
            let code = c as u32;
            out.push(hex_digit_exec((code / 16) as u8));
            out.push(hex_digit_exec((code % 16) as u8));
        } else {
            out.push(c);
        }
        proof {
            assert(out@ =~= pre + esc_char(s@[i as int]));
            assert(s@.take(i + 1) =~= s@.take(i as int).push(s@[i as int]));
            lemma_enc_str_body_snoc(s@.take(i as int), s@[i as int]);
            assert(out@ =~= old(out)@ + seq!['"'] + enc_str_body(s@.take(i + 1)));
        }
        i += 1;
    }
    out.push('"');
    proof {
        assert(s@.take(n as int) =~= s@);
        assert(out@ =~= old(out)@ + enc_string(s@));
    }
}

proof fn lemma_enc_files_items_snoc(fs: Seq<Seq<char>>, f: Seq<char>)
    ensures
        enc_files_items(fs.push(f)) == if fs.len() == 0 {
            enc_string(f)
        } else {
            enc_files_items(fs) + seq![','] + enc_files_items(seq![f])
        },
    decreases fs.len(),
{
    if fs.len() == 0 {
        assert(fs.push(f)[0] == f);
        assert(fs.push(f).len() == 1);
    } else {
        assert(fs.push(f).skip(1) =~= fs.skip(1).push(f));
        lemma_enc_files_items_snoc(fs.skip(1), f);
        if fs.len() == 1 {
            assert(fs.skip(1).len() == 0);
            assert(enc_files_items(fs.push(f))
                == enc_string(fs[0]) + seq![','] + enc_files_items(fs.skip(1).push(f)));
            assert(enc_files_items(fs) == enc_string(fs[0]));
        } else {
            assert(enc_files_items(fs.push(f))
                == enc_string(fs[0]) + seq![','] + enc_files_items(fs.skip(1).push(f)));
            assert(enc_string(fs[0]) + seq![','] + (enc_files_items(fs.skip(1)) + seq![','] + enc_files_items(seq![f]))
                =~= (enc_string(fs[0]) + seq![','] + enc_files_items(fs.skip(1))) + seq![','] + enc_files_items(seq![f]));
        }
    }
}

fn enc_files_exec(out: &mut Vec<char>, files: &Vec<String>)
    ensures
        final(out)@ == old(out)@ + enc_files(files.deep_view()),
{
    out.push('[');
    let n = files.len();
    let mut i: usize = 0;
    while i < n
        invariant
            n == files@.len(),
            i <= n,
            out@ == old(out)@ + seq!['['] + enc_files_items(files.deep_view().take(i as int)),
        decreases n - i,
    {
        let ghost pre = out@;
        let ghost dvs = files.deep_view();
        if i > 0 {
            out.push(',');
        }
        enc_string_exec(out, &files[i]);
        proof {
            assert(dvs.take(i + 1) =~= dvs.take(i as int).push(dvs[i as int]));
            lemma_enc_files_items_snoc(dvs.take(i as int), dvs[i as int]);
            assert(dvs[i as int] == files@[i as int]@);
            if i == 0 {
                assert(out@ =~= old(out)@ + seq!['['] + enc_files_items(dvs.take(i + 1)));
            } else {
                assert(enc_files_items(seq![dvs[i as int]]) == enc_string(dvs[i as int]));
                assert(out@ =~= old(out)@ + seq!['['] + enc_files_items(dvs.take(i + 1)));
            }
        }
        i += 1;
    }
    out.push(']');
    proof {
        assert(files.deep_view().take(n as int) =~= files.deep_view());
        assert(out@ =~= old(out)@ + enc_files(files.deep_view()));
    }
}

proof fn lemma_enc_commits_items_snoc(cs: Seq<SCommit>, c: SCommit)
    ensures
        enc_commits_items(cs.push(c)) == if cs.len() == 0 {
            enc_commit(c)
        } else {
            enc_commits_items(cs) + seq![','] + enc_commit(c)
        },
    decreases cs.len(),
{
    if cs.len() == 0 {
        assert(cs.push(c)[0] == c);
        assert(cs.push(c).len() == 1);
    } else {
        assert(cs.push(c).skip(1) =~= cs.skip(1).push(c));
        lemma_enc_commits_items_snoc(cs.skip(1), c);
        if cs.len() == 1 {
            assert(cs.skip(1).len() == 0);
        } else {
            assert(enc_commit(cs[0]) + seq![','] + (enc_commits_items(cs.skip(1)) + seq![','] + enc_commit(c))
                =~= (enc_commit(cs[0]) + seq![','] + enc_commits_items(cs.skip(1))) + seq![','] + enc_commit(c));
        }
    }
}

fn enc_commit_exec(out: &mut Vec<char>, e: &crate::state::CommitEntry)
    ensures
        final(out)@ == old(out)@ + enc_commit(e.dv()),
{
    enc_string_exec(out, &e.id);
    out.push(':');
    enc_files_exec(out, &e.files);
    proof {
        assert(out@ =~= old(out)@ + enc_commit(e.dv()));
    }
}

fn enc_commits_exec(out: &mut Vec<char>, cs: &Vec<crate::state::CommitEntry>)
    ensures
        final(out)@ == old(out)@ + seq!['{']
            + enc_commits_items(cs@.map_values(|e: crate::state::CommitEntry| e.dv())) + seq!['}'],
{
    out.push('{');
    let n = cs.len();
    let mut i: usize = 0;
    while i < n
        invariant
            n == cs@.len(),
            i <= n,
            out@ == old(out)@ + seq!['{']
                + enc_commits_items(cs@.map_values(|e: crate::state::CommitEntry| e.dv()).take(i as int)),
        decreases n - i,
    {
        let ghost dvs = cs@.map_values(|e: crate::state::CommitEntry| e.dv());
        if i > 0 {
            out.push(',');
        }
        enc_commit_exec(out, &cs[i]);
        proof {
            assert(dvs.take(i + 1) =~= dvs.take(i as int).push(dvs[i as int]));
            lemma_enc_commits_items_snoc(dvs.take(i as int), dvs[i as int]);
            assert(out@ =~= old(out)@ + seq!['{'] + enc_commits_items(dvs.take(i + 1)));
        }
        i += 1;
    }
    out.push('}');
    proof {
        let dvs = cs@.map_values(|e: crate::state::CommitEntry| e.dv());
        assert(dvs.take(n as int) =~= dvs);
        assert(out@ =~= old(out)@ + seq!['{'] + enc_commits_items(dvs) + seq!['}']);
    }
}

proof fn lemma_enc_branches_items_snoc(bs: Seq<SBranch>, b: SBranch)
    ensures
        enc_branches_items(bs.push(b)) == if bs.len() == 0 {
            enc_branch(b)
        } else {
            enc_branches_items(bs) + seq![','] + enc_branch(b)
        },
    decreases bs.len(),
{
    if bs.len() == 0 {
        assert(bs.push(b)[0] == b);
        assert(bs.push(b).len() == 1);
    } else {
        assert(bs.push(b).skip(1) =~= bs.skip(1).push(b));
        lemma_enc_branches_items_snoc(bs.skip(1), b);
        if bs.len() == 1 {
            assert(bs.skip(1).len() == 0);
        } else {
            assert(enc_branch(bs[0]) + seq![','] + (enc_branches_items(bs.skip(1)) + seq![','] + enc_branch(b))
                =~= (enc_branch(bs[0]) + seq![','] + enc_branches_items(bs.skip(1))) + seq![','] + enc_branch(b));
        }
    }
}

fn enc_branch_exec(out: &mut Vec<char>, e: &crate::state::BranchEntry)
    ensures
        final(out)@ == old(out)@ + enc_branch(e.dv()),
{
    enc_string_exec(out, &e.name);
    out.push(':');
    enc_commits_exec(out, &e.commits);
    proof {
        assert(out@ =~= old(out)@ + enc_branch(e.dv()));
    }
}

proof fn lemma_enc_repos_items_snoc(rs: Seq<SRepo>, r: SRepo)
    ensures
        enc_repos_items(rs.push(r)) == if rs.len() == 0 {
            enc_repo(r)
        } else {
            enc_repos_items(rs) + seq![','] + enc_repo(r)
        },
    decreases rs.len(),
{
    if rs.len() == 0 {
        assert(rs.push(r)[0] == r);
        assert(rs.push(r).len() == 1);
    } else {
        assert(rs.push(r).skip(1) =~= rs.skip(1).push(r));
        lemma_enc_repos_items_snoc(rs.skip(1), r);
        if rs.len() == 1 {
            assert(rs.skip(1).len() == 0);
        } else {
            assert(enc_repo(rs[0]) + seq![','] + (enc_repos_items(rs.skip(1)) + seq![','] + enc_repo(r))
                =~= (enc_repo(rs[0]) + seq![','] + enc_repos_items(rs.skip(1))) + seq![','] + enc_repo(r));
        }
    }
}

fn enc_repo_exec(out: &mut Vec<char>, e: &crate::state::RepoEntry)
    ensures
        final(out)@ == old(out)@ + enc_repo(e.dv()),
{
    enc_string_exec(out, &e.path);
    out.push(':');
    out.push('{');
    let n = e.branches.len();
    let mut i: usize = 0;
    while i < n
        invariant
            n == e.branches@.len(),
            i <= n,
            out@ == old(out)@ + enc_string(e.path@) + seq![':'] + seq!['{']
                + enc_branches_items(e.branches@.map_values(|x: crate::state::BranchEntry| x.dv()).take(i as int)),
        decreases n - i,
    {
        let ghost dvs = e.branches@.map_values(|x: crate::state::BranchEntry| x.dv());
        if i > 0 {
            out.push(',');
        }
        enc_branch_exec(out, &e.branches[i]);
        proof {
            assert(dvs.take(i + 1) =~= dvs.take(i as int).push(dvs[i as int]));
            lemma_enc_branches_items_snoc(dvs.take(i as int), dvs[i as int]);
            assert(out@ =~= old(out)@ + enc_string(e.path@) + seq![':'] + seq!['{']
                + enc_branches_items(dvs.take(i + 1)));
        }
        i += 1;
    }
    out.push('}');
    proof {
        let dvs = e.branches@.map_values(|x: crate::state::BranchEntry| x.dv());
        assert(dvs.take(n as int) =~= dvs);
        assert(out@ =~= old(out)@ + enc_repo(e.dv()));
    }
}

impl crate::state::StateManager {
    /// Serializes the whole state as the persisted document.
    pub fn to_json(&self) -> (out: String)
        ensures
            out@ == json_of(self.dv()),
    {
        let mut out: Vec<char> = Vec::new();
        out.push('{');
        let repos_key = String::from_str("repos");
        enc_string_exec(&mut out, &repos_key);
        out.push(':');
        out.push('{');
        let n = self.repos.len();
        let mut i: usize = 0;
        while i < n
            invariant
                n == self.repos@.len(),
                i <= n,
                out@ == seq!['{'] + enc_string("repos"@) + seq![':'] + seq!['{']
                    + enc_repos_items(self.dv().take(i as int)),
            decreases n - i,
        {
            let ghost dvs = self.dv();
            if i > 0 {
                out.push(',');
            }
            enc_repo_exec(&mut out, &self.repos[i]);
            proof {
                assert(dvs.take(i + 1) =~= dvs.take(i as int).push(dvs[i as int]));
                lemma_enc_repos_items_snoc(dvs.take(i as int), dvs[i as int]);
                assert(out@ =~= seq!['{'] + enc_string("repos"@) + seq![':'] + seq!['{']
                    + enc_repos_items(dvs.take(i + 1)));
            }
            i += 1;
        }
        out.push('}');
        out.push('}');
        proof {
            assert(self.dv().take(n as int) =~= self.dv());
            assert(out@ =~= json_of(self.dv()));
        }
        crate::text::string_from_chars(&out)
    }
}


// ---------------------------------------------------------------------------
// Round trip: parsing an encoded document yields the encoded state
// ---------------------------------------------------------------------------

proof fn lemma_skip_ws_nonws(s: Seq<char>)
    requires
        s.len() == 0 || !is_ws(s[0]),
    ensures
        skip_ws(s) == s,
{
}

proof fn lemma_hex_rt(n: int)
    requires
        0 <= n < 16,
    ensures
        hex_val(hex_digit(n)) == n,
{
}

proof fn lemma_char_low(c: char)
    requires
        (c as int) < 32,
    ensures
        0 <= c as int,
        ((c as int) as char) == c,
{
}

proof fn lemma_rt_str_body(v: Seq<char>, rest: Seq<char>)
    ensures
        p_str_body(enc_str_body(v) + (seq!['"'] + rest)) == Some((v, rest)),
    decreases v.len(),
{
    let s = enc_str_body(v) + (seq!['"'] + rest);
    if v.len() == 0 {
        assert(enc_str_body(v) == Seq::<char>::empty());
        assert(s =~= seq!['"'] + rest);
        assert(s[0] == '"');
        assert(s.skip(1) =~= rest);
    } else {
        let c = v[0];
        let tail = enc_str_body(v.skip(1)) + (seq!['"'] + rest);
        assert(s =~= esc_char(c) + tail);
        lemma_rt_str_body(v.skip(1), rest);
        if c == '"' {
            assert(s[0] == '\\' && s[1] == '"');
            assert(unescape('"') == Some('"'));
            assert(s.skip(2) =~= tail);
            assert(seq![c] + v.skip(1) =~= v);
        } else if c == '\\' {
            assert(s[0] == '\\' && s[1] == '\\');
            assert(unescape('\\') == Some('\\'));
            assert(s.skip(2) =~= tail);
            assert(seq![c] + v.skip(1) =~= v);
        } else if (c as int) < 32 {
            assert(s[0] == '\\' && s[1] == 'u' && s[2] == '0' && s[3] == '0');
            assert(s[4] == hex_digit((c as int) / 16) && s[5] == hex_digit((c as int) % 16));
            lemma_char_low(c);
            lemma_hex_rt(0);
            assert(hex_digit(0) == '0');
            assert(hex_val(s[2]) == 0 && hex_val(s[3]) == 0);
            lemma_hex_rt((c as int) / 16);
            lemma_hex_rt((c as int) % 16);
            let code = hex_val(s[2]) * 4096 + hex_val(s[3]) * 256 + hex_val(s[4]) * 16 + hex_val(s[5]);
            vstd::arithmetic::div_mod::lemma_fundamental_div_mod(c as int, 16);
            assert(code == c as int);
            assert(!(0xD800 <= code && code < 0xE000));
            assert(s.skip(6) =~= tail);
            assert(seq![c] + v.skip(1) =~= v);
        } else {
            assert(s[0] == c);
            assert(s.skip(1) =~= tail);
            assert(seq![c] + v.skip(1) =~= v);
        }
    }
}

proof fn lemma_rt_string(v: Seq<char>, rest: Seq<char>)
    ensures
        p_string(enc_string(v) + rest) == Some((v, rest)),
        (enc_string(v) + rest)[0] == '"',
        (enc_string(v) + rest).len() >= 2 + rest.len(),
{
    let s = enc_string(v) + rest;
    assert(s =~= seq!['"'] + (enc_str_body(v) + (seq!['"'] + rest)));
    assert(s[0] == '"');
    assert(s.skip(1) =~= enc_str_body(v) + (seq!['"'] + rest));
    lemma_rt_str_body(v, rest);
}

proof fn lemma_rt_files_items(fs: Seq<Seq<char>>, rest: Seq<char>)
    requires
        fs.len() > 0,
        forall|i: int, j: int| 0 <= i < j < fs.len() ==> fs[i] != fs[j],
    ensures
        p_files_items(enc_files_items(fs) + (seq![']'] + rest)) == Some((fs, rest)),
        (enc_files_items(fs) + (seq![']'] + rest))[0] == '"',
    decreases fs.len(),
{
    let s = enc_files_items(fs) + (seq![']'] + rest);
    if fs.len() == 1 {
        let r1 = seq![']'] + rest;
        assert(s =~= enc_string(fs[0]) + r1);
        lemma_rt_string(fs[0], r1);
        assert(r1[0] == ']');
        lemma_skip_ws_nonws(r1);
        assert(r1.skip(1) =~= rest);
        assert(seq![fs[0]] =~= fs);
    } else {
        let tail = enc_files_items(fs.skip(1)) + (seq![']'] + rest);
        let r1 = seq![','] + tail;
        assert(s =~= enc_string(fs[0]) + r1);
        lemma_rt_string(fs[0], r1);
        assert(r1[0] == ',');
        lemma_skip_ws_nonws(r1);
        assert(r1.skip(1) =~= tail);
        assert(forall|i: int, j: int| 0 <= i < j < fs.skip(1).len()
            ==> fs.skip(1)[i] != fs.skip(1)[j]);
        lemma_rt_files_items(fs.skip(1), rest);
        assert(tail[0] == '"');
        assert(!is_ws('"'));
        lemma_skip_ws_nonws(tail);
        assert(s.len() == enc_string(fs[0]).len() + 1 + tail.len());
        assert(enc_string(fs[0]).len() >= 2);
        assert(tail.len() < s.len());
        assert(!fs.skip(1).contains(fs[0])) by {
            if fs.skip(1).contains(fs[0]) {
                let k = choose|k: int| 0 <= k < fs.skip(1).len() && fs.skip(1)[k] == fs[0];
                assert(fs[k + 1] == fs[0]);
            }
        }
        assert(seq![fs[0]] + fs.skip(1) =~= fs);
    }
}

proof fn lemma_rt_files(fs: Seq<Seq<char>>, rest: Seq<char>)
    requires
        forall|i: int, j: int| 0 <= i < j < fs.len() ==> fs[i] != fs[j],
    ensures
        p_files(enc_files(fs) + rest) == Some((fs, rest)),
        (enc_files(fs) + rest)[0] == '[',
{
    let s = enc_files(fs) + rest;
    assert(s =~= seq!['['] + (enc_files_items(fs) + (seq![']'] + rest)));
    assert(s[0] == '[');
    lemma_skip_ws_nonws(s);
    assert(s.skip(1) =~= enc_files_items(fs) + (seq![']'] + rest));
    if fs.len() == 0 {
        assert(enc_files_items(fs) == Seq::<char>::empty());
        assert(s.skip(1) =~= seq![']'] + rest);
        assert(s.skip(1)[0] == ']');
        lemma_skip_ws_nonws(s.skip(1));
        assert(s.skip(1).skip(1) =~= rest);
        assert(Seq::<Seq<char>>::empty() =~= fs);
    } else {
        lemma_rt_files_items(fs, rest);
        assert(s.skip(1)[0] == '"');
        lemma_skip_ws_nonws(s.skip(1));
    }
}

#[verifier::rlimit(80)]
proof fn lemma_rt_commits_items(cs: Seq<SCommit>, rest: Seq<char>)
    requires
        cs.len() > 0,
        forall|i: int, j: int| 0 <= i < j < cs.len() ==> cs[i].id != cs[j].id,
        forall|i: int| 0 <= i < cs.len() ==> crate::state::sc_wf(#[trigger] cs[i]),
    ensures
        p_commits_items(enc_commits_items(cs) + (seq!['}'] + rest)) == Some((cs, rest)),
        (enc_commits_items(cs) + (seq!['}'] + rest))[0] == '"',
    decreases cs.len(),
{
    let s = enc_commits_items(cs) + (seq!['}'] + rest);
    assert(crate::state::sc_wf(cs[0]));
    if cs.len() == 1 {
        let t2 = enc_files(cs[0].files) + (seq!['}'] + rest);
        let t1 = seq![':'] + t2;
        assert(s =~= enc_string(cs[0].id) + t1);
        lemma_rt_string(cs[0].id, t1);
        assert(s[0] == '"');
        lemma_skip_ws_nonws(s);
        assert(t1[0] == ':');
        lemma_skip_ws_nonws(t1);
        assert(t1.skip(1) =~= t2);
        lemma_rt_files(cs[0].files, seq!['}'] + rest);
        let r3 = seq!['}'] + rest;
        assert(r3[0] == '}');
        lemma_skip_ws_nonws(r3);
        assert(r3.skip(1) =~= rest);
        assert(SCommit { id: cs[0].id, files: cs[0].files } == cs[0]);
        assert(seq![cs[0]] =~= cs);
    } else {
        let tail = enc_commits_items(cs.skip(1)) + (seq!['}'] + rest);
        let t3 = seq![','] + tail;
        let t2 = enc_files(cs[0].files) + t3;
        let t1 = seq![':'] + t2;
        assert(s =~= enc_string(cs[0].id) + t1);
        lemma_rt_string(cs[0].id, t1);
        assert(s[0] == '"');
        lemma_skip_ws_nonws(s);
        assert(t1[0] == ':');
        lemma_skip_ws_nonws(t1);
        assert(t1.skip(1) =~= t2);
        lemma_rt_files(cs[0].files, t3);
        assert(t3[0] == ',');
        lemma_skip_ws_nonws(t3);
        assert(t3.skip(1) =~= tail);
        assert(forall|i: int, j: int| 0 <= i < j < cs.skip(1).len()
            ==> cs.skip(1)[i].id != cs.skip(1)[j].id);
        assert(forall|i: int| 0 <= i < cs.skip(1).len()
            ==> crate::state::sc_wf(#[trigger] cs.skip(1)[i]));
        lemma_rt_commits_items(cs.skip(1), rest);
        assert(tail[0] == '"');
        lemma_skip_ws_nonws(tail);
        assert(s.len() == enc_string(cs[0].id).len() + 1 + enc_files(cs[0].files).len() + 1 + tail.len());
        assert(enc_string(cs[0].id).len() >= 2);
        assert(enc_files(cs[0].files).len() >= 2);
        assert(tail.len() < s.len());
        assert(!ids_has(cs.skip(1), cs[0].id)) by {
            if ids_has(cs.skip(1), cs[0].id) {
                let k = choose|k: int| 0 <= k < cs.skip(1).len() && cs.skip(1)[k].id == cs[0].id;
                assert(cs[k + 1].id == cs[0].id);
            }
        }
        assert(SCommit { id: cs[0].id, files: cs[0].files } == cs[0]);
        assert(seq![cs[0]] + cs.skip(1) =~= cs);
    }
}

proof fn lemma_rt_commits_obj(cs: Seq<SCommit>, rest: Seq<char>)
    requires
        forall|i: int, j: int| 0 <= i < j < cs.len() ==> cs[i].id != cs[j].id,
        forall|i: int| 0 <= i < cs.len() ==> crate::state::sc_wf(#[trigger] cs[i]),
    ensures
        p_commits_obj((seq!['{'] + enc_commits_items(cs) + seq!['}']) + rest) == Some((cs, rest)),
        ((seq!['{'] + enc_commits_items(cs) + seq!['}']) + rest)[0] == '{',
{
    let s = (seq!['{'] + enc_commits_items(cs) + seq!['}']) + rest;
    assert(s =~= seq!['{'] + (enc_commits_items(cs) + (seq!['}'] + rest)));
    assert(s[0] == '{');
    lemma_skip_ws_nonws(s);
    assert(s.skip(1) =~= enc_commits_items(cs) + (seq!['}'] + rest));
    if cs.len() == 0 {
        assert(enc_commits_items(cs) == Seq::<char>::empty());
        assert(s.skip(1) =~= seq!['}'] + rest);
        assert(s.skip(1)[0] == '}');
        lemma_skip_ws_nonws(s.skip(1));
        assert(s.skip(1).skip(1) =~= rest);
        assert(Seq::<SCommit>::empty() =~= cs);
    } else {
        lemma_rt_commits_items(cs, rest);
        assert(s.skip(1)[0] == '"');
        lemma_skip_ws_nonws(s.skip(1));
    }
}

#[verifier::rlimit(80)]
proof fn lemma_rt_branches_items(bs: Seq<SBranch>, rest: Seq<char>)
    requires
        bs.len() > 0,
        forall|i: int, j: int| 0 <= i < j < bs.len() ==> bs[i].name != bs[j].name,
        forall|i: int| 0 <= i < bs.len() ==> crate::state::sb_wf(#[trigger] bs[i]),
    ensures
        p_branches_items(enc_branches_items(bs) + (seq!['}'] + rest)) == Some((bs, rest)),
        (enc_branches_items(bs) + (seq!['}'] + rest))[0] == '"',
    decreases bs.len(),
{
    let s = enc_branches_items(bs) + (seq!['}'] + rest);
    assert(crate::state::sb_wf(bs[0]));
    let obj = seq!['{'] + enc_commits_items(bs[0].commits) + seq!['}'];
    if bs.len() == 1 {
        let t2 = obj + (seq!['}'] + rest);
        let t1 = seq![':'] + t2;
        assert(s =~= enc_string(bs[0].name) + t1);
        lemma_rt_string(bs[0].name, t1);
        assert(s[0] == '"');
        lemma_skip_ws_nonws(s);
        assert(t1[0] == ':');
        lemma_skip_ws_nonws(t1);
        assert(t1.skip(1) =~= t2);
        lemma_rt_commits_obj(bs[0].commits, seq!['}'] + rest);
        let r3 = seq!['}'] + rest;
        assert(r3[0] == '}');
        lemma_skip_ws_nonws(r3);
        assert(r3.skip(1) =~= rest);
        assert(SBranch { name: bs[0].name, commits: bs[0].commits } == bs[0]);
        assert(seq![bs[0]] =~= bs);
    } else {
        let tail = enc_branches_items(bs.skip(1)) + (seq!['}'] + rest);
        let t3 = seq![','] + tail;
        let t2 = obj + t3;
        let t1 = seq![':'] + t2;
        assert(s =~= enc_string(bs[0].name) + t1);
        lemma_rt_string(bs[0].name, t1);
        assert(s[0] == '"');
        lemma_skip_ws_nonws(s);
        assert(t1[0] == ':');
        lemma_skip_ws_nonws(t1);
        assert(t1.skip(1) =~= t2);
        lemma_rt_commits_obj(bs[0].commits, t3);
        assert(t3[0] == ',');
        lemma_skip_ws_nonws(t3);
        assert(t3.skip(1) =~= tail);
        assert(forall|i: int, j: int| 0 <= i < j < bs.skip(1).len()
            ==> bs.skip(1)[i].name != bs.skip(1)[j].name);
        assert(forall|i: int| 0 <= i < bs.skip(1).len()
            ==> crate::state::sb_wf(#[trigger] bs.skip(1)[i]));
        lemma_rt_branches_items(bs.skip(1), rest);
        assert(tail[0] == '"');
        lemma_skip_ws_nonws(tail);
        assert(s.len() == enc_string(bs[0].name).len() + 1 + obj.len() + 1 + tail.len());
        assert(enc_string(bs[0].name).len() >= 2);
        assert(obj.len() >= 2);
        assert(tail.len() < s.len());
        assert(!names_has(bs.skip(1), bs[0].name)) by {
            if names_has(bs.skip(1), bs[0].name) {
                let k = choose|k: int| 0 <= k < bs.skip(1).len() && bs.skip(1)[k].name == bs[0].name;
                assert(bs[k + 1].name == bs[0].name);
            }
        }
        assert(SBranch { name: bs[0].name, commits: bs[0].commits } == bs[0]);
        assert(seq![bs[0]] + bs.skip(1) =~= bs);
    }
}

proof fn lemma_rt_branches_obj(bs: Seq<SBranch>, rest: Seq<char>)
    requires
        forall|i: int, j: int| 0 <= i < j < bs.len() ==> bs[i].name != bs[j].name,
        forall|i: int| 0 <= i < bs.len() ==> crate::state::sb_wf(#[trigger] bs[i]),
    ensures
        p_branches_obj((seq!['{'] + enc_branches_items(bs) + seq!['}']) + rest) == Some((bs, rest)),
        ((seq!['{'] + enc_branches_items(bs) + seq!['}']) + rest)[0] == '{',
{
    let s = (seq!['{'] + enc_branches_items(bs) + seq!['}']) + rest;
    assert(s =~= seq!['{'] + (enc_branches_items(bs) + (seq!['}'] + rest)));
    assert(s[0] == '{');
    lemma_skip_ws_nonws(s);
    assert(s.skip(1) =~= enc_branches_items(bs) + (seq!['}'] + rest));
    if bs.len() == 0 {
        assert(enc_branches_items(bs) == Seq::<char>::empty());
        assert(s.skip(1) =~= seq!['}'] + rest);
        assert(s.skip(1)[0] == '}');
        lemma_skip_ws_nonws(s.skip(1));
        assert(s.skip(1).skip(1) =~= rest);
        assert(Seq::<SBranch>::empty() =~= bs);
    } else {
        lemma_rt_branches_items(bs, rest);
        assert(s.skip(1)[0] == '"');
        lemma_skip_ws_nonws(s.skip(1));
    }
}

#[verifier::rlimit(80)]
proof fn lemma_rt_repos_items(rs: Seq<SRepo>, rest: Seq<char>)
    requires
        rs.len() > 0,
        forall|i: int, j: int| 0 <= i < j < rs.len() ==> rs[i].path != rs[j].path,
        forall|i: int| 0 <= i < rs.len() ==> crate::state::sr_wf(#[trigger] rs[i]),
    ensures
        p_repos_items(enc_repos_items(rs) + (seq!['}'] + rest)) == Some((rs, rest)),
        (enc_repos_items(rs) + (seq!['}'] + rest))[0] == '"',
    decreases rs.len(),
{
    let s = enc_repos_items(rs) + (seq!['}'] + rest);
    assert(crate::state::sr_wf(rs[0]));
    let obj = seq!['{'] + enc_branches_items(rs[0].branches) + seq!['}'];
    if rs.len() == 1 {
        let t2 = obj + (seq!['}'] + rest);
        let t1 = seq![':'] + t2;
        assert(s =~= enc_string(rs[0].path) + t1);
        lemma_rt_string(rs[0].path, t1);
        assert(s[0] == '"');
        lemma_skip_ws_nonws(s);
        assert(t1[0] == ':');
        lemma_skip_ws_nonws(t1);
        assert(t1.skip(1) =~= t2);
        lemma_rt_branches_obj(rs[0].branches, seq!['}'] + rest);
        let r3 = seq!['}'] + rest;
        assert(r3[0] == '}');
        lemma_skip_ws_nonws(r3);
        assert(r3.skip(1) =~= rest);
        assert(SRepo { path: rs[0].path, branches: rs[0].branches } == rs[0]);
        assert(seq![rs[0]] =~= rs);
    } else {
        let tail = enc_repos_items(rs.skip(1)) + (seq!['}'] + rest);
        let t3 = seq![','] + tail;
        let t2 = obj + t3;
        let t1 = seq![':'] + t2;
        assert(s =~= enc_string(rs[0].path) + t1);
        lemma_rt_string(rs[0].path, t1);
        assert(s[0] == '"');
        lemma_skip_ws_nonws(s);
        assert(t1[0] == ':');
        lemma_skip_ws_nonws(t1);
        assert(t1.skip(1) =~= t2);
        lemma_rt_branches_obj(rs[0].branches, t3);
        assert(t3[0] == ',');
        lemma_skip_ws_nonws(t3);
        assert(t3.skip(1) =~= tail);
        assert(forall|i: int, j: int| 0 <= i < j < rs.skip(1).len()
            ==> rs.skip(1)[i].path != rs.skip(1)[j].path);
        assert(forall|i: int| 0 <= i < rs.skip(1).len()
            ==> crate::state::sr_wf(#[trigger] rs.skip(1)[i]));
        lemma_rt_repos_items(rs.skip(1), rest);
        assert(tail[0] == '"');
        lemma_skip_ws_nonws(tail);
        assert(s.len() == enc_string(rs[0].path).len() + 1 + obj.len() + 1 + tail.len());
        assert(enc_string(rs[0].path).len() >= 2);
        assert(obj.len() >= 2);
        assert(tail.len() < s.len());
        assert(!st_has_repo(rs.skip(1), rs[0].path)) by {
            if st_has_repo(rs.skip(1), rs[0].path) {
                let k = choose|k: int| 0 <= k < rs.skip(1).len() && rs.skip(1)[k].path == rs[0].path;
                assert(rs[k + 1].path == rs[0].path);
            }
        }
        assert(SRepo { path: rs[0].path, branches: rs[0].branches } == rs[0]);
        assert(seq![rs[0]] + rs.skip(1) =~= rs);
    }
}

proof fn lemma_rt_repos_obj(rs: Seq<SRepo>, rest: Seq<char>)
    requires
        forall|i: int, j: int| 0 <= i < j < rs.len() ==> rs[i].path != rs[j].path,
        forall|i: int| 0 <= i < rs.len() ==> crate::state::sr_wf(#[trigger] rs[i]),
    ensures
        p_repos_obj((seq!['{'] + enc_repos_items(rs) + seq!['}']) + rest) == Some((rs, rest)),
{
    let s = (seq!['{'] + enc_repos_items(rs) + seq!['}']) + rest;
    assert(s =~= seq!['{'] + (enc_repos_items(rs) + (seq!['}'] + rest)));
    assert(s[0] == '{');
    lemma_skip_ws_nonws(s);
    assert(s.skip(1) =~= enc_repos_items(rs) + (seq!['}'] + rest));
    if rs.len() == 0 {
        assert(enc_repos_items(rs) == Seq::<char>::empty());
        assert(s.skip(1) =~= seq!['}'] + rest);
        assert(s.skip(1)[0] == '}');
        lemma_skip_ws_nonws(s.skip(1));
        assert(s.skip(1).skip(1) =~= rest);
        assert(Seq::<SRepo>::empty() =~= rs);
    } else {
        lemma_rt_repos_items(rs, rest);
        assert(s.skip(1)[0] == '"');
        lemma_skip_ws_nonws(s.skip(1));
    }
}

/// Restart durability: the persisted document of a well-formed state parses
/// back to exactly that state. A store rebuilt from the file alone reports
/// the same viewed facts as the store that wrote it.
pub proof fn lemma_state_round_trip(st: Seq<SRepo>)
    requires
        crate::state::st_wf(st),
    ensures
        p_state(json_of(st)) == Some(st),
{
    let obj = seq!['{'] + enc_repos_items(st) + seq!['}'];
    let t2 = obj + seq!['}'];
    let t1 = seq![':'] + t2;
    assert(json_of(st) =~= seq!['{'] + (enc_string("repos"@) + t1));
    let d = seq!['{'] + (enc_string("repos"@) + t1);
    assert(d[0] == '{');
    lemma_skip_ws_nonws(d);
    assert(d.skip(1) =~= enc_string("repos"@) + t1);
    lemma_rt_string("repos"@, t1);
    assert(d.skip(1)[0] == '"');
    lemma_skip_ws_nonws(d.skip(1));
    assert(t1[0] == ':');
    lemma_skip_ws_nonws(t1);
    assert(t1.skip(1) =~= t2);
    assert(t2 =~= obj + seq!['}']);
    lemma_rt_repos_obj(st, seq!['}']);
    let r3 = seq!['}'];
    assert(r3[0] == '}');
    lemma_skip_ws_nonws(r3);
    assert(r3.skip(1) =~= Seq::<char>::empty());
    assert(skip_ws(Seq::<char>::empty()).len() == 0);
    assert(p_state(d) == Some(st));
}



/// Restart durability, end to end: after marking a key in a well-formed
/// state, the document the store persists parses back to exactly the marked
/// state, and that state reports the key as viewed. A fresh process that
/// rebuilds its store from the file alone therefore answers `true` for the
/// marked key.
pub proof fn lemma_restart_durability(
    st: Seq<SRepo>, r: Seq<char>, b: Seq<char>, c: Seq<char>, f: Seq<char>,
)
    requires
        crate::state::st_wf(st),
    ensures
        p_state(json_of(crate::state::st_marked(st, r, b, c, f)))
            == Some(crate::state::st_marked(st, r, b, c, f)),
        crate::state::st_viewed(crate::state::st_marked(st, r, b, c, f), r, b, c, f),
{
    crate::state::lemma_st_marked_wf(st, r, b, c, f);
    crate::state::lemma_st_marked_viewed(st, r, b, c, f);
    lemma_state_round_trip(crate::state::st_marked(st, r, b, c, f));
}

// ---------------------------------------------------------------------------
// A parsed document is well formed
// ---------------------------------------------------------------------------

proof fn lemma_p_files_items_wf(s: Seq<char>)
    ensures
        p_files_items(s) matches Some(p)
            ==> forall|i: int, j: int| 0 <= i < j < p.0.len() ==> p.0[i] != p.0[j],
    decreases s.len(),
{
    if p_files_items(s) is Some {
        let p = p_files_items(s)->Some_0;
        let q = p_string(s)->Some_0;
        let v = q.0;
        let r2 = skip_ws(q.1);
        if r2.len() > 0 && r2[0] == ',' {
            let nxt = skip_ws(r2.skip(1));
            lemma_p_files_items_wf(nxt);
            let w = p_files_items(nxt)->Some_0;
            assert forall|i: int, j: int| 0 <= i < j < p.0.len() implies p.0[i] != p.0[j] by {
                if i == 0 {
                    assert(!w.0.contains(v));
                    assert(p.0[j] == w.0[j - 1]);
                } else {
                    assert(p.0[i] == w.0[i - 1] && p.0[j] == w.0[j - 1]);
                }
            }
        }
    }
}

proof fn lemma_p_files_wf(s: Seq<char>)
    ensures
        p_files(s) matches Some(p)
            ==> forall|i: int, j: int| 0 <= i < j < p.0.len() ==> p.0[i] != p.0[j],
{
    let t = skip_ws(s);
    if t.len() > 0 && t[0] == '[' {
        let u = skip_ws(t.skip(1));
        if !(u.len() > 0 && u[0] == ']') {
            lemma_p_files_items_wf(u);
        }
    }
}

proof fn lemma_p_commits_items_wf(s: Seq<char>)
    ensures
        p_commits_items(s) matches Some(p) ==> {
            &&& forall|i: int, j: int| 0 <= i < j < p.0.len() ==> p.0[i].id != p.0[j].id
            &&& forall|i: int| 0 <= i < p.0.len() ==> crate::state::sc_wf(#[trigger] p.0[i])
        },
    decreases s.len(),
{
    if p_commits_items(s) is Some {
        let p = p_commits_items(s)->Some_0;
        let q = p_string(skip_ws(s))->Some_0;
        let id = q.0;
        let r2 = skip_ws(q.1);
        let fsp = p_files(r2.skip(1))->Some_0;
        lemma_p_files_wf(r2.skip(1));
        let c = SCommit { id: id, files: fsp.0 };
        assert(crate::state::sc_wf(c));
        let r4 = skip_ws(fsp.1);
        if r4.len() > 0 && r4[0] == ',' {
            let nxt = r4.skip(1);
            lemma_p_commits_items_wf(nxt);
            let w = p_commits_items(nxt)->Some_0;
            assert forall|i: int, j: int| 0 <= i < j < p.0.len() implies p.0[i].id != p.0[j].id by {
                if i == 0 {
                    assert(!ids_has(w.0, id));
                    assert(p.0[j] == w.0[j - 1]);
                } else {
                    assert(p.0[i] == w.0[i - 1] && p.0[j] == w.0[j - 1]);
                }
            }
            assert forall|i: int| 0 <= i < p.0.len()
                implies crate::state::sc_wf(#[trigger] p.0[i]) by {
                if i == 0 {
                    assert(p.0[0] == c);
                } else {
                    assert(p.0[i] == w.0[i - 1]);
                }
            }
        } else {
            assert(p.0 == seq![c]);
            assert(p.0[0] == c);
        }
    }
}

proof fn lemma_p_commits_obj_wf(s: Seq<char>)
    ensures
        p_commits_obj(s) matches Some(p) ==> {
            &&& forall|i: int, j: int| 0 <= i < j < p.0.len() ==> p.0[i].id != p.0[j].id
            &&& forall|i: int| 0 <= i < p.0.len() ==> crate::state::sc_wf(#[trigger] p.0[i])
        },
{
    let t = skip_ws(s);
    if t.len() > 0 && t[0] == '{' {
        let u = skip_ws(t.skip(1));
        if !(u.len() > 0 && u[0] == '}') {
            lemma_p_commits_items_wf(t.skip(1));
        }
    }
}

proof fn lemma_p_branches_items_wf(s: Seq<char>)
    ensures
        p_branches_items(s) matches Some(p) ==> {
            &&& forall|i: int, j: int| 0 <= i < j < p.0.len() ==> p.0[i].name != p.0[j].name
            &&& forall|i: int| 0 <= i < p.0.len() ==> crate::state::sb_wf(#[trigger] p.0[i])
        },
    decreases s.len(),
{
    if p_branches_items(s) is Some {
        let p = p_branches_items(s)->Some_0;
        let q = p_string(skip_ws(s))->Some_0;
        let name = q.0;
        let r2 = skip_ws(q.1);
        let csp = p_commits_obj(r2.skip(1))->Some_0;
        lemma_p_commits_obj_wf(r2.skip(1));
        let b = SBranch { name: name, commits: csp.0 };
        assert(crate::state::sb_wf(b));
        let r4 = skip_ws(csp.1);
        if r4.len() > 0 && r4[0] == ',' {
            let nxt = r4.skip(1);
            lemma_p_branches_items_wf(nxt);
            let w = p_branches_items(nxt)->Some_0;
            assert forall|i: int, j: int| 0 <= i < j < p.0.len() implies p.0[i].name != p.0[j].name by {
                if i == 0 {
                    assert(!names_has(w.0, name));
                    assert(p.0[j] == w.0[j - 1]);
                } else {
                    assert(p.0[i] == w.0[i - 1] && p.0[j] == w.0[j - 1]);
                }
            }
            assert forall|i: int| 0 <= i < p.0.len()
                implies crate::state::sb_wf(#[trigger] p.0[i]) by {
                if i == 0 {
                    assert(p.0[0] == b);
                } else {
                    assert(p.0[i] == w.0[i - 1]);
                }
            }
        } else {
            assert(p.0 == seq![b]);
            assert(p.0[0] == b);
        }
    }
}

proof fn lemma_p_branches_obj_wf(s: Seq<char>)
    ensures
        p_branches_obj(s) matches Some(p) ==> {
            &&& forall|i: int, j: int| 0 <= i < j < p.0.len() ==> p.0[i].name != p.0[j].name
            &&& forall|i: int| 0 <= i < p.0.len() ==> crate::state::sb_wf(#[trigger] p.0[i])
        },
{
    let t = skip_ws(s);
    if t.len() > 0 && t[0] == '{' {
        let u = skip_ws(t.skip(1));
        if !(u.len() > 0 && u[0] == '}') {
            lemma_p_branches_items_wf(t.skip(1));
        }
    }
}

proof fn lemma_p_repos_items_wf(s: Seq<char>)
    ensures
        p_repos_items(s) matches Some(p) ==> crate::state::st_wf(p.0),
    decreases s.len(),
{
    if p_repos_items(s) is Some {
        let p = p_repos_items(s)->Some_0;
        let q = p_string(skip_ws(s))->Some_0;
        let path = q.0;
        let r2 = skip_ws(q.1);
        let bsp = p_branches_obj(r2.skip(1))->Some_0;
        lemma_p_branches_obj_wf(r2.skip(1));
        let r = SRepo { path: path, branches: bsp.0 };
        assert(crate::state::sr_wf(r));
        let r4 = skip_ws(bsp.1);
        if r4.len() > 0 && r4[0] == ',' {
            let nxt = r4.skip(1);
            lemma_p_repos_items_wf(nxt);
            let w = p_repos_items(nxt)->Some_0;
            assert forall|i: int, j: int| 0 <= i < j < p.0.len() implies p.0[i].path != p.0[j].path by {
                if i == 0 {
                    assert(!st_has_repo(w.0, path));
                    assert(p.0[j] == w.0[j - 1]);
                } else {
                    assert(p.0[i] == w.0[i - 1] && p.0[j] == w.0[j - 1]);
                }
            }
            assert forall|i: int| 0 <= i < p.0.len()
                implies crate::state::sr_wf(#[trigger] p.0[i]) by {
                if i == 0 {
                    assert(p.0[0] == r);
                } else {
                    assert(p.0[i] == w.0[i - 1]);
                }
            }
        } else {
            assert(p.0 == seq![r]);
            assert(p.0[0] == r);
        }
    }
}

proof fn lemma_p_repos_obj_wf(s: Seq<char>)
    ensures
        p_repos_obj(s) matches Some(p) ==> crate::state::st_wf(p.0),
{
    let t = skip_ws(s);
    if t.len() > 0 && t[0] == '{' {
        let u = skip_ws(t.skip(1));
        if !(u.len() > 0 && u[0] == '}') {
            lemma_p_repos_items_wf(t.skip(1));
        }
    }
}

/// Corrupt-file safety, one half: whatever the parser accepts is well formed,
/// with distinct keys at every level and duplicate-free file sets.
pub proof fn lemma_p_state_wf(s: Seq<char>)
    ensures
        p_state(s) matches Some(m) ==> crate::state::st_wf(m),
{
    let t = skip_ws(s);
    if t.len() > 0 && t[0] == '{' {
        if p_string(skip_ws(t.skip(1))) is Some {
            let p = p_string(skip_ws(t.skip(1)))->Some_0;
            if p.0 == "repos"@ {
                let r2 = skip_ws(p.1);
                if r2.len() > 0 && r2[0] == ':' {
                    lemma_p_repos_obj_wf(r2.skip(1));
                }
            }
        }
    }
}


// ---------------------------------------------------------------------------
// The executable parser
// ---------------------------------------------------------------------------

fn e_skip_ws(v: &Vec<char>, i: usize) -> (j: usize)
    requires
        i <= v@.len(),
    ensures
        i <= j <= v@.len(),
        v@.skip(j as int) == skip_ws(v@.skip(i as int)),
{
    let mut j = i;
    while j < v.len() && (v[j] == ' ' || v[j] == '\n' || v[j] == '\r' || v[j] == '\t')
        invariant
            i <= j <= v@.len(),
            skip_ws(v@.skip(i as int)) == skip_ws(v@.skip(j as int)),
        decreases v@.len() - j,
    {
        proof {
            assert(v@.skip(j as int)[0] == v@[j as int]);
            assert(v@.skip(j as int).skip(1) =~= v@.skip(j + 1));
        }
        j += 1;
    }
    proof {
        if j < v@.len() {
            assert(v@.skip(j as int)[0] == v@[j as int]);
        }
        lemma_skip_ws_nonws(v@.skip(j as int));
    }
    j
}

fn hex_val_exec(c: char) -> (h: i32)
    ensures
        h as int == hex_val(c),
{
    let cu = c as u32;
    if 48 <= cu && cu <= 57 {
        (cu - 48) as i32
    } else if 97 <= cu && cu <= 102 {
        (10 + (cu - 97)) as i32
    } else if 65 <= cu && cu <= 70 {
        (10 + (cu - 65)) as i32
    } else {
        -1
    }
}

fn unescape_exec(d: char) -> (r: Option<char>)
    ensures
        r == unescape(d),
{
    if d == '"' { Some('"') }
    else if d == '\\' { Some('\\') }
    else if d == '/' { Some('/') }
    else if d == 'b' { Some(8u8 as char) }
    else if d == 'f' { Some(12u8 as char) }
    else if d == 'n' { Some('\n') }
    else if d == 'r' { Some('\r') }
    else if d == 't' { Some('\t') }
    else { None }
}

/// Relies on `core::char::from_u32`: yields the character with the given
/// code point, for any value that is not a surrogate and is at most 0x10FFFF.
#[verifier::external_body]
fn char_from_code(n: u32) -> (c: char)
    requires
        n < 0xD800 || (0xE000 <= n && n <= 0x10FFFF),
    ensures
        c == ((n as int) as char),
{
    match char::from_u32(n) {
        Some(c) => c,
        None => ' ',
    }
}

fn e_string(v: &Vec<char>, i: usize) -> (r: Option<(String, usize)>)
    requires
        i <= v@.len(),
    ensures
        match r {
            Some(p) => i < p.1 <= v@.len()
                && p_string(v@.skip(i as int)) == Some((p.0@, v@.skip(p.1 as int))),
            None => p_string(v@.skip(i as int)) is None,
        },
{
    if i == v.len() {
        return None;
    }
    proof {
        assert(v@.skip(i as int)[0] == v@[i as int]);
    }
    if v[i] != '"' {
        return None;
    }
    proof {
        assert(v@.skip(i as int).skip(1) =~= v@.skip(i + 1));
    }
    let mut j: usize = i + 1;
    let mut buf: Vec<char> = Vec::new();
    loop
        invariant
            i + 1 <= j <= v@.len(),
            i < v@.len(),
            v@[i as int] == '"',
            (match p_str_body(v@.skip(j as int)) {
                Some(q) => p_str_body(v@.skip(i + 1)) == Some((buf@ + q.0, q.1)),
                None => p_str_body(v@.skip(i + 1)) is None,
            }),
        decreases v@.len() - j,
    {
        proof {
            assert(v@.skip(i as int)[0] == '"');
            assert(v@.skip(i as int).skip(1) =~= v@.skip(i + 1));
        }
        if j == v.len() {
            proof {
                assert(v@.skip(j as int).len() == 0);
                assert(p_str_body(v@.skip(j as int)) is None);
            }
            return None;
        }
        let c = v[j];
        proof {
            assert(v@.skip(j as int)[0] == c);
        }
        if c == '"' {
            proof {
                assert(v@.skip(j as int).skip(1) =~= v@.skip(j + 1));
                assert(p_str_body(v@.skip(j as int)) == Some((Seq::<char>::empty(), v@.skip(j + 1))));
                assert(buf@ + Seq::<char>::empty() =~= buf@);
                assert(v@.skip(i as int).skip(1) =~= v@.skip(i + 1));
            }
            let s = crate::text::string_from_chars(&buf);
            return Some((s, j + 1));
        } else if c == '\\' {
            if j + 1 == v.len() {
                proof {
                    assert(v@.skip(j as int).len() == 1);
                }
                return None;
            }
            let d = v[j + 1];
            proof {
                assert(v@.skip(j as int)[1] == d);
            }
            if d == 'u' {
                if v.len() - j < 6 {
                    proof {
                        assert(v@.skip(j as int).len() < 6);
                    }
                    return None;
                }
                let h0 = hex_val_exec(v[j + 2]);
                let h1 = hex_val_exec(v[j + 3]);
                let h2 = hex_val_exec(v[j + 4]);
                let h3 = hex_val_exec(v[j + 5]);
                proof {
                    assert(v@.skip(j as int)[2] == v@[j + 2]);
                    assert(v@.skip(j as int)[3] == v@[j + 3]);
                    assert(v@.skip(j as int)[4] == v@[j + 4]);
                    assert(v@.skip(j as int)[5] == v@[j + 5]);
                }
                if h0 < 0 || h1 < 0 || h2 < 0 || h3 < 0 {
                    return None;
                }
                let code: i32 = h0 * 4096 + h1 * 256 + h2 * 16 + h3;
                if 0xD800 <= code && code < 0xE000 {
                    return None;
                }
                let ch = char_from_code(code as u32);
                let ghost pre = buf@;
                buf.push(ch);
                proof {
                    let sj = v@.skip(j as int);
                    assert(sj.skip(6) =~= v@.skip(j + 6));
                    let scode = hex_val(sj[2]) * 4096 + hex_val(sj[3]) * 256 + hex_val(sj[4]) * 16
                        + hex_val(sj[5]);
                    assert(scode == code as int);
                    assert(ch == (scode as char));
                    if p_str_body(v@.skip(j + 6)) is Some {
                        let q = p_str_body(v@.skip(j + 6))->Some_0;
                        assert(p_str_body(sj) == Some((seq![ch] + q.0, q.1)));
                        assert(pre + (seq![ch] + q.0) =~= buf@ + q.0);
                    }
                }
                j = j + 6;
            } else {
                match unescape_exec(d) {
                    Some(ch) => {
                        let ghost pre = buf@;
                        buf.push(ch);
                        proof {
                            let sj = v@.skip(j as int);
                            assert(sj.skip(2) =~= v@.skip(j + 2));
                            if p_str_body(v@.skip(j + 2)) is Some {
                                let q = p_str_body(v@.skip(j + 2))->Some_0;
                                assert(p_str_body(sj) == Some((seq![ch] + q.0, q.1)));
                                assert(pre + (seq![ch] + q.0) =~= buf@ + q.0);
                            }
                        }
                        j = j + 2;
                    },
                    None => {
                        return None;
                    },
                }
            }
        } else {
            let space = ' ';
            if c < space {
                proof {
                    assert((c as int) < 32);
                }
                return None;
            }
            let ghost pre = buf@;
            buf.push(c);
            proof {
                let sj = v@.skip(j as int);
                assert(sj.skip(1) =~= v@.skip(j + 1));
                if p_str_body(v@.skip(j + 1)) is Some {
                    let q = p_str_body(v@.skip(j + 1))->Some_0;
                    assert(p_str_body(sj) == Some((seq![c] + q.0, q.1)));
                    assert(pre + (seq![c] + q.0) =~= buf@ + q.0);
                }
            }
            j = j + 1;
        }
    }
}


fn vec_has_string(fs: &Vec<String>, f: &String) -> (r: bool)
    ensures
        r == fs.deep_view().contains(f@),
{
    let n = fs.len();
    let mut i: usize = 0;
    while i < n
        invariant
            n == fs@.len(),
            i <= n,
            forall|k: int| 0 <= k < i ==> fs.deep_view()[k] != f@,
        decreases n - i,
    {
        if fs[i] == *f {
            assert(fs.deep_view()[i as int] == f@);
            return true;
        }
        i += 1;
    }
    false
}

fn vec_has_id(cs: &Vec<crate::state::CommitEntry>, id: &String) -> (r: bool)
    ensures
        r == ids_has(cs@.map_values(|e: crate::state::CommitEntry| e.dv()), id@),
{
    let n = cs.len();
    let mut i: usize = 0;
    while i < n
        invariant
            n == cs@.len(),
            i <= n,
            forall|k: int| 0 <= k < i ==> (#[trigger] cs@[k]).dv().id != id@,
        decreases n - i,
    {
        if cs[i].id == *id {
            assert(cs@.map_values(|e: crate::state::CommitEntry| e.dv())[i as int].id == id@);
            return true;
        }
        i += 1;
    }
    false
}

fn vec_has_name(bs: &Vec<crate::state::BranchEntry>, name: &String) -> (r: bool)
    ensures
        r == names_has(bs@.map_values(|e: crate::state::BranchEntry| e.dv()), name@),
{
    let n = bs.len();
    let mut i: usize = 0;
    while i < n
        invariant
            n == bs@.len(),
            i <= n,
            forall|k: int| 0 <= k < i ==> (#[trigger] bs@[k]).dv().name != name@,
        decreases n - i,
    {
        if bs[i].name == *name {
            assert(bs@.map_values(|e: crate::state::BranchEntry| e.dv())[i as int].name == name@);
            return true;
        }
        i += 1;
    }
    false
}

fn vec_has_path(rs: &Vec<crate::state::RepoEntry>, path: &String) -> (r: bool)
    ensures
        r == st_has_repo(rs@.map_values(|e: crate::state::RepoEntry| e.dv()), path@),
{
    let n = rs.len();
    let mut i: usize = 0;
    while i < n
        invariant
            n == rs@.len(),
            i <= n,
            forall|k: int| 0 <= k < i ==> (#[trigger] rs@[k]).dv().path != path@,
        decreases n - i,
    {
        if rs[i].path == *path {
            assert(rs@.map_values(|e: crate::state::RepoEntry| e.dv())[i as int].path == path@);
            return true;
        }
        i += 1;
    }
    false
}

fn e_files_items(v: &Vec<char>, i: usize) -> (r: Option<(Vec<String>, usize)>)
    requires
        i <= v@.len(),
    ensures
        match r {
            Some(p) => i < p.1 <= v@.len()
                && p_files_items(v@.skip(i as int)) == Some((p.0.deep_view(), v@.skip(p.1 as int))),
            None => p_files_items(v@.skip(i as int)) is None,
        },
    decreases v@.len() - i,
{
    match e_string(v, i) {
        None => None,
        Some((s0, j)) => {
            let r2 = e_skip_ws(v, j);
            proof {
                if r2 < v@.len() {
                    assert(v@.skip(r2 as int)[0] == v@[r2 as int]);
                }
            }
            if r2 < v.len() && v[r2] == ',' {
                proof {
                    assert(v@.skip(r2 as int).skip(1) =~= v@.skip(r2 + 1));
                }
                let nxt = e_skip_ws(v, r2 + 1);
                match e_files_items(v, nxt) {
                    None => None,
                    Some((fs_rec, k)) => {
                        if vec_has_string(&fs_rec, &s0) {
                            None
                        } else {
                            let ghost pre = fs_rec.deep_view();
                            let mut fs2 = fs_rec;
                            fs2.insert(0, s0);
                            proof {
                                assert(fs2.deep_view() =~= seq![s0@] + pre);
                            }
                            Some((fs2, k))
                        }
                    },
                }
            } else if r2 < v.len() && v[r2] == ']' {
                proof {
                    assert(v@.skip(r2 as int).skip(1) =~= v@.skip(r2 + 1));
                }
                let mut fs: Vec<String> = Vec::new();
                fs.push(s0);
                proof {
                    assert(fs.deep_view() =~= seq![fs@[0]@]);
                }
                Some((fs, r2 + 1))
            } else {
                None
            }
        },
    }
}

fn e_files(v: &Vec<char>, i: usize) -> (r: Option<(Vec<String>, usize)>)
    requires
        i <= v@.len(),
    ensures
        match r {
            Some(p) => i <= p.1 <= v@.len()
                && p_files(v@.skip(i as int)) == Some((p.0.deep_view(), v@.skip(p.1 as int))),
            None => p_files(v@.skip(i as int)) is None,
        },
{
    let t = e_skip_ws(v, i);
    proof {
        if t < v@.len() {
            assert(v@.skip(t as int)[0] == v@[t as int]);
        }
    }
    if t < v.len() && v[t] == '[' {
        proof {
            assert(v@.skip(t as int).skip(1) =~= v@.skip(t + 1));
        }
        let u = e_skip_ws(v, t + 1);
        proof {
            if u < v@.len() {
                assert(v@.skip(u as int)[0] == v@[u as int]);
            }
        }
        if u < v.len() && v[u] == ']' {
            proof {
                assert(v@.skip(u as int).skip(1) =~= v@.skip(u + 1));
            }
            let fs: Vec<String> = Vec::new();
            proof {
                assert(fs.deep_view() =~= Seq::<Seq<char>>::empty());
            }
            Some((fs, u + 1))
        } else {
            e_files_items(v, u)
        }
    } else {
        None
    }
}

fn e_commits_items(v: &Vec<char>, i: usize) -> (r: Option<(Vec<crate::state::CommitEntry>, usize)>)
    requires
        i <= v@.len(),
    ensures
        match r {
            Some(p) => i < p.1 <= v@.len()
                && p_commits_items(v@.skip(i as int)) == Some((
                    p.0@.map_values(|e: crate::state::CommitEntry| e.dv()),
                    v@.skip(p.1 as int),
                )),
            None => p_commits_items(v@.skip(i as int)) is None,
        },
    decreases v@.len() - i,
{
    let t = e_skip_ws(v, i);
    match e_string(v, t) {
        None => None,
        Some((id, j)) => {
            let r2 = e_skip_ws(v, j);
            proof {
                if r2 < v@.len() {
                    assert(v@.skip(r2 as int)[0] == v@[r2 as int]);
                }
            }
            if r2 < v.len() && v[r2] == ':' {
                proof {
                    assert(v@.skip(r2 as int).skip(1) =~= v@.skip(r2 + 1));
                }
                match e_files(v, r2 + 1) {
                    None => None,
                    Some((fs, k)) => {
                        let r4 = e_skip_ws(v, k);
                        proof {
                            if r4 < v@.len() {
                                assert(v@.skip(r4 as int)[0] == v@[r4 as int]);
                            }
                        }
                        let ce = crate::state::CommitEntry { id: id, files: fs };
                        if r4 < v.len() && v[r4] == ',' {
                            proof {
                                assert(v@.skip(r4 as int).skip(1) =~= v@.skip(r4 + 1));
                            }
                            match e_commits_items(v, r4 + 1) {
                                None => None,
                                Some((cs_rec, m)) => {
                                    if vec_has_id(&cs_rec, &ce.id) {
                                        None
                                    } else {
                                        let ghost pre = cs_rec@.map_values(
                                            |e: crate::state::CommitEntry| e.dv(),
                                        );
                                        let mut cs2 = cs_rec;
                                        cs2.insert(0, ce);
                                        proof {
                                            assert(cs2@.map_values(
                                                |e: crate::state::CommitEntry| e.dv(),
                                            ) =~= seq![cs2@[0].dv()] + pre);
                                        }
                                        Some((cs2, m))
                                    }
                                },
                            }
                        } else if r4 < v.len() && v[r4] == '}' {
                            proof {
                                assert(v@.skip(r4 as int).skip(1) =~= v@.skip(r4 + 1));
                            }
                            let mut cs: Vec<crate::state::CommitEntry> = Vec::new();
                            cs.push(ce);
                            proof {
                                assert(cs@.map_values(|e: crate::state::CommitEntry| e.dv())
                                    =~= seq![cs@[0].dv()]);
                            }
                            Some((cs, r4 + 1))
                        } else {
                            None
                        }
                    },
                }
            } else {
                None
            }
        },
    }
}

fn e_commits_obj(v: &Vec<char>, i: usize) -> (r: Option<(Vec<crate::state::CommitEntry>, usize)>)
    requires
        i <= v@.len(),
    ensures
        match r {
            Some(p) => i <= p.1 <= v@.len()
                && p_commits_obj(v@.skip(i as int)) == Some((
                    p.0@.map_values(|e: crate::state::CommitEntry| e.dv()),
                    v@.skip(p.1 as int),
                )),
            None => p_commits_obj(v@.skip(i as int)) is None,
        },
{
    let t = e_skip_ws(v, i);
    proof {
        if t < v@.len() {
            assert(v@.skip(t as int)[0] == v@[t as int]);
        }
    }
    if t < v.len() && v[t] == '{' {
        proof {
            assert(v@.skip(t as int).skip(1) =~= v@.skip(t + 1));
        }
        let u = e_skip_ws(v, t + 1);
        proof {
            if u < v@.len() {
                assert(v@.skip(u as int)[0] == v@[u as int]);
            }
        }
        if u < v.len() && v[u] == '}' {
            proof {
                assert(v@.skip(u as int).skip(1) =~= v@.skip(u + 1));
            }
            let cs: Vec<crate::state::CommitEntry> = Vec::new();
            proof {
                assert(cs@.map_values(|e: crate::state::CommitEntry| e.dv())
                    =~= Seq::<SCommit>::empty());
            }
            Some((cs, u + 1))
        } else {
            e_commits_items(v, t + 1)
        }
    } else {
        None
    }
}

fn e_branches_items(v: &Vec<char>, i: usize) -> (r: Option<(Vec<crate::state::BranchEntry>, usize)>)
    requires
        i <= v@.len(),
    ensures
        match r {
            Some(p) => i < p.1 <= v@.len()
                && p_branches_items(v@.skip(i as int)) == Some((
                    p.0@.map_values(|e: crate::state::BranchEntry| e.dv()),
                    v@.skip(p.1 as int),
                )),
            None => p_branches_items(v@.skip(i as int)) is None,
        },
    decreases v@.len() - i,
{
    let t = e_skip_ws(v, i);
    match e_string(v, t) {
        None => None,
        Some((name, j)) => {
            let r2 = e_skip_ws(v, j);
            proof {
                if r2 < v@.len() {
                    assert(v@.skip(r2 as int)[0] == v@[r2 as int]);
                }
            }
            if r2 < v.len() && v[r2] == ':' {
                proof {
                    assert(v@.skip(r2 as int).skip(1) =~= v@.skip(r2 + 1));
                }
                match e_commits_obj(v, r2 + 1) {
                    None => None,
                    Some((cs, k)) => {
                        let r4 = e_skip_ws(v, k);
                        proof {
                            if r4 < v@.len() {
                                assert(v@.skip(r4 as int)[0] == v@[r4 as int]);
                            }
                        }
                        let be = crate::state::BranchEntry { name: name, commits: cs };
                        if r4 < v.len() && v[r4] == ',' {
                            proof {
                                assert(v@.skip(r4 as int).skip(1) =~= v@.skip(r4 + 1));
                            }
                            match e_branches_items(v, r4 + 1) {
                                None => None,
                                Some((bs_rec, m)) => {
                                    if vec_has_name(&bs_rec, &be.name) {
                                        None
                                    } else {
                                        let ghost pre = bs_rec@.map_values(
                                            |e: crate::state::BranchEntry| e.dv(),
                                        );
                                        let mut bs2 = bs_rec;
                                        bs2.insert(0, be);
                                        proof {
                                            assert(bs2@.map_values(
                                                |e: crate::state::BranchEntry| e.dv(),
                                            ) =~= seq![bs2@[0].dv()] + pre);
                                        }
                                        Some((bs2, m))
                                    }
                                },
                            }
                        } else if r4 < v.len() && v[r4] == '}' {
                            proof {
                                assert(v@.skip(r4 as int).skip(1) =~= v@.skip(r4 + 1));
                            }
                            let mut bs: Vec<crate::state::BranchEntry> = Vec::new();
                            bs.push(be);
                            proof {
                                assert(bs@.map_values(|e: crate::state::BranchEntry| e.dv())
                                    =~= seq![bs@[0].dv()]);
                            }
                            Some((bs, r4 + 1))
                        } else {
                            None
                        }
                    },
                }
            } else {
                None
            }
        },
    }
}

fn e_branches_obj(v: &Vec<char>, i: usize) -> (r: Option<(Vec<crate::state::BranchEntry>, usize)>)
    requires
        i <= v@.len(),
    ensures
        match r {
            Some(p) => i <= p.1 <= v@.len()
                && p_branches_obj(v@.skip(i as int)) == Some((
                    p.0@.map_values(|e: crate::state::BranchEntry| e.dv()),
                    v@.skip(p.1 as int),
                )),
            None => p_branches_obj(v@.skip(i as int)) is None,
        },
{
    let t = e_skip_ws(v, i);
    proof {
        if t < v@.len() {
            assert(v@.skip(t as int)[0] == v@[t as int]);
        }
    }
    if t < v.len() && v[t] == '{' {
        proof {
            assert(v@.skip(t as int).skip(1) =~= v@.skip(t + 1));
        }
        let u = e_skip_ws(v, t + 1);
        proof {
            if u < v@.len() {
                assert(v@.skip(u as int)[0] == v@[u as int]);
            }
        }
        if u < v.len() && v[u] == '}' {
            proof {
                assert(v@.skip(u as int).skip(1) =~= v@.skip(u + 1));
            }
            let bs: Vec<crate::state::BranchEntry> = Vec::new();
            proof {
                assert(bs@.map_values(|e: crate::state::BranchEntry| e.dv())
                    =~= Seq::<SBranch>::empty());
            }
            Some((bs, u + 1))
        } else {
            e_branches_items(v, t + 1)
        }
    } else {
        None
    }
}

fn e_repos_items(v: &Vec<char>, i: usize) -> (r: Option<(Vec<crate::state::RepoEntry>, usize)>)
    requires
        i <= v@.len(),
    ensures
        match r {
            Some(p) => i < p.1 <= v@.len()
                && p_repos_items(v@.skip(i as int)) == Some((
                    p.0@.map_values(|e: crate::state::RepoEntry| e.dv()),
                    v@.skip(p.1 as int),
                )),
            None => p_repos_items(v@.skip(i as int)) is None,
        },
    decreases v@.len() - i,
{
    let t = e_skip_ws(v, i);
    match e_string(v, t) {
        None => None,
        Some((path, j)) => {
            let r2 = e_skip_ws(v, j);
            proof {
                if r2 < v@.len() {
                    assert(v@.skip(r2 as int)[0] == v@[r2 as int]);
                }
            }
            if r2 < v.len() && v[r2] == ':' {
                proof {
                    assert(v@.skip(r2 as int).skip(1) =~= v@.skip(r2 + 1));
                }
                match e_branches_obj(v, r2 + 1) {
                    None => None,
                    Some((bs, k)) => {
                        let r4 = e_skip_ws(v, k);
                        proof {
                            if r4 < v@.len() {
                                assert(v@.skip(r4 as int)[0] == v@[r4 as int]);
                            }
                        }
                        let re = crate::state::RepoEntry { path: path, branches: bs };
                        if r4 < v.len() && v[r4] == ',' {
                            proof {
                                assert(v@.skip(r4 as int).skip(1) =~= v@.skip(r4 + 1));
                            }
                            match e_repos_items(v, r4 + 1) {
                                None => None,
                                Some((rs_rec, m)) => {
                                    if vec_has_path(&rs_rec, &re.path) {
                                        None
                                    } else {
                                        let ghost pre = rs_rec@.map_values(
                                            |e: crate::state::RepoEntry| e.dv(),
                                        );
                                        let mut rs2 = rs_rec;
                                        rs2.insert(0, re);
                                        proof {
                                            assert(rs2@.map_values(
                                                |e: crate::state::RepoEntry| e.dv(),
                                            ) =~= seq![rs2@[0].dv()] + pre);
                                        }
                                        Some((rs2, m))
                                    }
                                },
                            }
                        } else if r4 < v.len() && v[r4] == '}' {
                            proof {
                                assert(v@.skip(r4 as int).skip(1) =~= v@.skip(r4 + 1));
                            }
                            let mut rs: Vec<crate::state::RepoEntry> = Vec::new();
                            rs.push(re);
                            proof {
                                assert(rs@.map_values(|e: crate::state::RepoEntry| e.dv())
                                    =~= seq![rs@[0].dv()]);
                            }
                            Some((rs, r4 + 1))
                        } else {
                            None
                        }
                    },
                }
            } else {
                None
            }
        },
    }
}

fn e_repos_obj(v: &Vec<char>, i: usize) -> (r: Option<(Vec<crate::state::RepoEntry>, usize)>)
    requires
        i <= v@.len(),
    ensures
        match r {
            Some(p) => i <= p.1 <= v@.len()
                && p_repos_obj(v@.skip(i as int)) == Some((
                    p.0@.map_values(|e: crate::state::RepoEntry| e.dv()),
                    v@.skip(p.1 as int),
                )),
            None => p_repos_obj(v@.skip(i as int)) is None,
        },
{
    let t = e_skip_ws(v, i);
    proof {
        if t < v@.len() {
            assert(v@.skip(t as int)[0] == v@[t as int]);
        }
    }
    if t < v.len() && v[t] == '{' {
        proof {
            assert(v@.skip(t as int).skip(1) =~= v@.skip(t + 1));
        }
        let u = e_skip_ws(v, t + 1);
        proof {
            if u < v@.len() {
                assert(v@.skip(u as int)[0] == v@[u as int]);
            }
        }
        if u < v.len() && v[u] == '}' {
            proof {
                assert(v@.skip(u as int).skip(1) =~= v@.skip(u + 1));
            }
            let rs: Vec<crate::state::RepoEntry> = Vec::new();
            proof {
                assert(rs@.map_values(|e: crate::state::RepoEntry| e.dv())
                    =~= Seq::<SRepo>::empty());
            }
            Some((rs, u + 1))
        } else {
            e_repos_items(v, t + 1)
        }
    } else {
        None
    }
}

fn e_state(v: &Vec<char>) -> (r: Option<Vec<crate::state::RepoEntry>>)
    ensures
        match r {
            Some(rs) => p_state(v@) == Some(rs@.map_values(|e: crate::state::RepoEntry| e.dv())),
            None => p_state(v@) is None,
        },
{
    proof {
        assert(v@.skip(0) =~= v@);
    }
    let t = e_skip_ws(v, 0);
    proof {
        if t < v@.len() {
            assert(v@.skip(t as int)[0] == v@[t as int]);
        }
    }
    if t < v.len() && v[t] == '{' {
        proof {
            assert(v@.skip(t as int).skip(1) =~= v@.skip(t + 1));
        }
        let k = e_skip_ws(v, t + 1);
        match e_string(v, k) {
            None => None,
            Some((key, j)) => {
                let repos_key = String::from_str("repos");
                if key == repos_key {
                    let r2 = e_skip_ws(v, j);
                    proof {
                        if r2 < v@.len() {
                            assert(v@.skip(r2 as int)[0] == v@[r2 as int]);
                        }
                    }
                    if r2 < v.len() && v[r2] == ':' {
                        proof {
                            assert(v@.skip(r2 as int).skip(1) =~= v@.skip(r2 + 1));
                        }
                        match e_repos_obj(v, r2 + 1) {
                            None => None,
                            Some((rs, r3)) => {
                                let r4 = e_skip_ws(v, r3);
                                proof {
                                    if r4 < v@.len() {
                                        assert(v@.skip(r4 as int)[0] == v@[r4 as int]);
                                    }
                                }
                                if r4 < v.len() && v[r4] == '}' {
                                    proof {
                                        assert(v@.skip(r4 as int).skip(1) =~= v@.skip(r4 + 1));
                                    }
                                    let r5 = e_skip_ws(v, r4 + 1);
                                    if r5 == v.len() {
                                        Some(rs)
                                    } else {
                                        None
                                    }
                                } else {
                                    None
                                }
                            },
                        }
                    } else {
                        None
                    }
                } else {
                    None
                }
            },
        }
    } else {
        None
    }
}

impl crate::state::StateManager {
    /// Rebuilds a store from the text of the state file. A document in the
    /// persisted shape yields exactly the state it encodes; any other text —
    /// a corrupt or truncated file, or a document of another shape — yields
    /// the empty state rather than an error, on purpose: a broken cache must
    /// never block usage.
    pub fn from_json(text: &str) -> (s: crate::state::StateManager)
        ensures
            s.wf(),
            match p_state(text@) {
                Some(m) => s.dv() == m,
                None => s.dv() == Seq::<SRepo>::empty(),
            },
    {
        let v = crate::text::chars_of(text);
        match e_state(&v) {
            Some(rs) => {
                proof {
                    lemma_p_state_wf(text@);
                }
                crate::state::StateManager { repos: rs }
            },
            None => crate::state::StateManager::new(),
        }
    }
}

} // verus!
