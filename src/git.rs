use vstd::prelude::*;

use crate::framing::{parse_unsigned, parse_usize};
use crate::paths::{join_path, join_path_chars, local_path, local_path_chars};
use crate::session::{lower_of, lowercase};
use crate::text::{
    chars_between, chars_of, contains, decimal, decimal_chars, ends_with, equals_range, find_in,
    first_occurrence, last_occurrence, lemma_first_occurrence_bounds, occurs_at, push_all,
    rfind_in, skip_spaces, split_once, starts_with, starts_with_range, string_of, string_of_all,
    strip_leading_repeats, strip_leading_repeats_range, strip_trailing, strip_trailing_range,
    text_le, text_le_exec, trim, trim_range, trim_start, word_end, word_len,
};

verus! {

/// The view of an optional string.
pub open spec fn opt_text(o: Option<String>) -> Option<Seq<char>> {
    match o {
        Some(s) => Some(s@),
        None => None,
    }
}

/// One changed path of a `git status --porcelain=v1` listing.
pub struct GitChange {
    pub path: String,
    pub old_path: Option<String>,
    pub index_status: String,
    pub worktree_status: String,
    pub status_code: String,
    pub staged: bool,
    pub unstaged: bool,
    pub untracked: bool,
}

pub struct GitChangeView {
    pub path: Seq<char>,
    pub old_path: Option<Seq<char>>,
    pub index_status: char,
    pub worktree_status: char,
    pub staged: bool,
    pub unstaged: bool,
    pub untracked: bool,
}

impl GitChange {
    /// The change as plain values; the status texts are one character each and
    /// the status code is those two characters.
    pub open spec fn view(&self) -> GitChangeView {
        GitChangeView {
            path: self.path@,
            old_path: opt_text(self.old_path),
            index_status: self.index_status@[0],
            worktree_status: self.worktree_status@[0],
            staged: self.staged,
            unstaged: self.unstaged,
            untracked: self.untracked,
        }
    }

    pub open spec fn well_formed(&self) -> bool {
        &&& self.index_status@.len() == 1
        &&& self.worktree_status@.len() == 1
        &&& self.status_code@ == self.index_status@ + self.worktree_status@
    }
}

/// What a status line says of one path, relative to `root`: two status
/// characters, a space, then the path, or `old -> new` for a rename or copy.
pub open spec fn change_of(line: Seq<char>, root: Seq<char>) -> Option<GitChangeView> {
    if line.len() < 3 || line[2] != ' ' {
        None
    } else {
        let payload = trim(line.subrange(3, line.len() as int));
        let (old, new) = match split_once(payload, " -> "@) {
            Some(parts) => (Some(trim(parts.0)), trim(parts.1)),
            None => (None, payload),
        };
        if payload.len() == 0 || new.len() == 0 {
            None
        } else {
            let x = line[0];
            let y = line[1];
            Some(
                GitChangeView {
                    path: local_path(join_path(root, new)),
                    old_path: match old {
                        Some(o) => Some(local_path(join_path(root, o))),
                        None => None,
                    },
                    index_status: x,
                    worktree_status: y,
                    staged: x != ' ' && x != '?',
                    unstaged: y != ' ',
                    untracked: x == '?' && y == '?',
                },
            )
        }
    }
}

/// The branch a branch-header fragment names.
pub open spec fn branch_name_of(value: Seq<char>) -> Option<Seq<char>> {
    let t = trim(value);
    let unborn = "No commits yet on "@;
    if t.len() == 0 {
        None
    } else if starts_with(t, unborn) {
        let b = trim(t.subrange(unborn.len() as int, t.len() as int));
        if b.len() == 0 {
            None
        } else {
            Some(b)
        }
    } else if t == "HEAD (no branch)"@ {
        Some("HEAD"@)
    } else {
        let word = match first_occurrence(t, " "@) {
            Some(i) => t.subrange(0, i),
            None => t,
        };
        let c = trim(word);
        if c.len() == 0 {
            None
        } else {
            Some(c)
        }
    }
}

/// Full path of `cs[from..to]` under `root`, in ordinary form.
fn path_under(root: &Vec<char>, cs: &Vec<char>, from: usize, to: usize) -> (r: String)
    requires
        from <= to <= cs@.len(),
    ensures
        r@ == local_path(join_path(root@, cs@.subrange(from as int, to as int))),
{
    let rel = chars_between(cs, from, to);
    let joined = join_path_chars(root, &rel);
    let local = local_path_chars(&joined);
    string_of_all(&local)
}

fn one_char(c: char) -> (r: String)
    ensures
        r@ == seq![c],
{
    let v = vec![c];
    let r = string_of_all(&v);
    assert(v@ =~= seq![c]);
    r
}

/// Parses the line `cs[from..to]` of a status listing, as `change_of` says.
#[verifier::rlimit(50)]
fn change_in(cs: &Vec<char>, from: usize, to: usize, root: &Vec<char>) -> (r: Option<GitChange>)
    requires
        from <= to <= cs@.len(),
    ensures
        r matches Some(c) ==> c.well_formed(),
        match change_of(cs@.subrange(from as int, to as int), root@) {
            Some(v) => r matches Some(c) && c.view() == v,
            None => r is None,
        },
{
    let ghost line = cs@.subrange(from as int, to as int);
    if to - from < 3 || cs[from + 2] != ' ' {
        return None;
    }
    let x = cs[from];
    let y = cs[from + 1];
    let (plo, phi) = trim_range(cs, from + 3, to);
    assert(cs@.subrange(from + 3, to as int) =~= line.subrange(3, line.len() as int));
    let ghost payload = cs@.subrange(plo as int, phi as int);
    if plo == phi {
        return None;
    }
    let arrow = chars_of(" -> ");
    let (old_path, nlo, nhi) = match find_in(cs, plo, phi, &arrow) {
        Some(i) => {
            proof {
                lemma_first_occurrence_bounds(payload, arrow@);
            }
            let (olo, ohi) = trim_range(cs, plo, plo + i);
            let (nlo, nhi) = trim_range(cs, plo + i + arrow.len(), phi);
            assert(cs@.subrange(plo as int, plo + i) =~= payload.subrange(0, i as int));
            assert(cs@.subrange(plo + i + arrow@.len(), phi as int) =~= payload.subrange(
                i + arrow@.len(),
                payload.len() as int,
            ));
            (Some((olo, ohi)), nlo, nhi)
        },
        None => (None, plo, phi),
    };
    if nlo == nhi {
        return None;
    }
    let path = path_under(root, cs, nlo, nhi);
    let old = match old_path {
        Some((olo, ohi)) => Some(path_under(root, cs, olo, ohi)),
        None => None,
    };
    let index_status = one_char(x);
    let worktree_status = one_char(y);
    let mut code = vec![x];
    code.push(y);
    let status_code = string_of_all(&code);
    assert(code@ =~= seq![x] + seq![y]);
    Some(
        GitChange {
            path,
            old_path: old,
            index_status,
            worktree_status,
            status_code,
            staged: x != ' ' && x != '?',
            unstaged: y != ' ',
            untracked: x == '?' && y == '?',
        },
    )
}

/// Parses one line of `git status --porcelain=v1` output into the change it
/// describes, with paths made absolute under `root`; `None` for a line that
/// describes no change.
pub fn parse_git_change_line(line: &str, root: &str) -> (r: Option<GitChange>)
    ensures
        r matches Some(c) ==> c.well_formed(),
        match change_of(line@, root@) {
            Some(v) => r matches Some(c) && c.view() == v,
            None => r is None,
        },
{
    let cs = chars_of(line);
    let root_chars = chars_of(root);
    assert(cs@.subrange(0, cs@.len() as int) =~= cs@);
    change_in(&cs, 0, cs.len(), &root_chars)
}

/// The branch named by `cs[from..to]`, as `branch_name_of` says.
fn branch_name_in(cs: &Vec<char>, from: usize, to: usize) -> (r: Option<String>)
    requires
        from <= to <= cs@.len(),
    ensures
        opt_text(r) == branch_name_of(cs@.subrange(from as int, to as int)),
{
    let (lo, hi) = trim_range(cs, from, to);
    let ghost t = cs@.subrange(lo as int, hi as int);
    if lo == hi {
        return None;
    }
    let unborn = chars_of("No commits yet on ");
    if starts_with_range(cs, lo, hi, &unborn) {
        let (blo, bhi) = trim_range(cs, lo + unborn.len(), hi);
        assert(cs@.subrange(lo + unborn@.len(), hi as int) =~= t.subrange(
            unborn@.len() as int,
            t.len() as int,
        ));
        if blo == bhi {
            return None;
        }
        return Some(string_of(cs.as_slice(), blo, bhi));
    }
    let detached = chars_of("HEAD (no branch)");
    if equals_range(cs, lo, hi, &detached) {
        return Some("HEAD".to_owned());
    }
    let space = chars_of(" ");
    let end = match find_in(cs, lo, hi, &space) {
        Some(i) => {
            proof {
                lemma_first_occurrence_bounds(t, space@);
            }
            assert(cs@.subrange(lo as int, lo + i) =~= t.subrange(0, i as int));
            lo + i
        },
        None => hi,
    };
    let (clo, chi) = trim_range(cs, lo, end);
    if clo == chi {
        return None;
    }
    Some(string_of(cs.as_slice(), clo, chi))
}

/// The branch named by a branch-header fragment: `None` when blank; the branch
/// of an unborn `No commits yet on <b>`; `HEAD` when detached; else its first word.
pub fn parse_git_branch_name(value: &str) -> (r: Option<String>)
    ensures
        opt_text(r) == branch_name_of(value@),
{
    let cs = chars_of(value);
    assert(cs@.subrange(0, cs@.len() as int) =~= cs@);
    branch_name_in(&cs, 0, cs.len())
}

/// The repository state that `git status --porcelain=v1 --branch` reports.
pub struct GitRepoStatus {
    pub is_repo: bool,
    pub branch: Option<String>,
    pub upstream: Option<String>,
    pub ahead: u32,
    pub behind: u32,
    pub has_changes: bool,
}

/// What a branch header line sets.
pub struct BranchHead {
    pub branch: Option<Seq<char>>,
    pub upstream: Option<Seq<char>>,
    pub ahead: u32,
    pub behind: u32,
}

impl GitRepoStatus {
    pub open spec fn head(&self) -> BranchHead {
        BranchHead {
            branch: opt_text(self.branch),
            upstream: opt_text(self.upstream),
            ahead: self.ahead,
            behind: self.behind,
        }
    }
}

/// A count as `str::parse::<u32>` reads it, 0 where it cannot.
pub open spec fn count_or_zero(s: Seq<char>) -> u32 {
    match parse_unsigned(s) {
        Some(n) => if n <= u32::MAX {
            n as u32
        } else {
            0
        },
        None => 0,
    }
}

/// The tracking counts after one item of a bracketed detail list.
pub open spec fn apply_detail(counts: (u32, u32), token: Seq<char>) -> (u32, u32) {
    let t = trim(token);
    if starts_with(t, "ahead "@) {
        (count_or_zero(t.subrange("ahead "@.len() as int, t.len() as int)), counts.1)
    } else if starts_with(t, "behind "@) {
        (counts.0, count_or_zero(t.subrange("behind "@.len() as int, t.len() as int)))
    } else {
        counts
    }
}

/// The tracking counts after every comma-separated item of `details`.
#[verifier::opaque]
pub open spec fn apply_details(counts: (u32, u32), details: Seq<char>) -> (u32, u32)
    decreases details.len(),
{
    proof {
        reveal_strlit(",");
        lemma_first_occurrence_bounds(details, ","@);
    }
    match first_occurrence(details, ","@) {
        Some(i) => {
            apply_details(
                apply_detail(counts, details.subrange(0, i)),
                details.subrange(i + 1, details.len() as int),
            )
        },
        None => apply_detail(counts, details),
    }
}

/// What a branch header line (`## <branch>...<upstream> [ahead N, behind M]`)
/// makes of the branch state `head`.
pub open spec fn header_update(line: Seq<char>, head: BranchHead) -> BranchHead {
    let content0 = trim(strip_leading_repeats(line, "## "@));
    let split = bracket_split(content0, (head.ahead, head.behind));
    let content = split.0;
    let counts = split.1;
    match split_once(content, "..."@) {
        Some(parts) => BranchHead {
            branch: branch_name_of(parts.0),
            upstream: if trim(parts.1).len() == 0 {
                None
            } else {
                Some(trim(parts.1))
            },
            ahead: counts.0,
            behind: counts.1,
        },
        None => BranchHead {
            branch: branch_name_of(content),
            upstream: None,
            ahead: counts.0,
            behind: counts.1,
        },
    }
}

fn count_in(cs: &Vec<char>, from: usize, to: usize) -> (r: u32)
    requires
        from <= to <= cs@.len(),
    ensures
        r == count_or_zero(cs@.subrange(from as int, to as int)),
{
    match parse_usize(cs, from, to) {
        Some(n) => if n <= 0xffff_ffff {
            n as u32
        } else {
            0
        },
        None => 0,
    }
}

fn detail_in(cs: &Vec<char>, from: usize, to: usize, counts: (u32, u32)) -> (r: (u32, u32))
    requires
        from <= to <= cs@.len(),
    ensures
        r == apply_detail(counts, cs@.subrange(from as int, to as int)),
{
    let (lo, hi) = trim_range(cs, from, to);
    let ghost t = cs@.subrange(lo as int, hi as int);
    let ahead = chars_of("ahead ");
    let behind = chars_of("behind ");
    if starts_with_range(cs, lo, hi, &ahead) {
        assert(cs@.subrange(lo + ahead@.len(), hi as int) =~= t.subrange(ahead@.len() as int, t.len() as int));
        (count_in(cs, lo + ahead.len(), hi), counts.1)
    } else if starts_with_range(cs, lo, hi, &behind) {
        assert(cs@.subrange(lo + behind@.len(), hi as int) =~= t.subrange(behind@.len() as int, t.len() as int));
        (counts.0, count_in(cs, lo + behind.len(), hi))
    } else {
        counts
    }
}

fn details_in(cs: &Vec<char>, from: usize, to: usize, counts: (u32, u32)) -> (r: (u32, u32))
    requires
        from <= to <= cs@.len(),
    ensures
        r == apply_details(counts, cs@.subrange(from as int, to as int)),
{
    let comma = chars_of(",");
    proof {
        reveal_strlit(",");
        reveal(apply_details);
    }
    let mut cur = from;
    let mut acc = counts;
    loop
        invariant
            from <= cur <= to <= cs@.len(),
            comma@ == ","@,
            comma@.len() == 1,
            apply_details(counts, cs@.subrange(from as int, to as int)) == apply_details(
                acc,
                cs@.subrange(cur as int, to as int),
            ),
        decreases to - cur,
    {
        let ghost rest = cs@.subrange(cur as int, to as int);
        match find_in(cs, cur, to, &comma) {
            Some(i) => {
                proof {
                    lemma_first_occurrence_bounds(rest, comma@);
                }
                assert(cs@.subrange(cur as int, cur + i) =~= rest.subrange(0, i as int));
                assert(cs@.subrange(cur + i + 1, to as int) =~= rest.subrange(i + 1, rest.len() as int));
                proof {
                    reveal(apply_details);
                }
                acc = detail_in(cs, cur, cur + i, acc);
                cur = cur + i + 1;
            },
            None => {
                proof {
                    reveal(apply_details);
                }
                return detail_in(cs, cur, to, acc);
            },
        }
    }
}

/// The tracking counts a bracketed detail list at the end of `content0` gives,
/// and the content without that list.
pub open spec fn bracket_split(content0: Seq<char>, counts: (u32, u32)) -> (Seq<char>, (u32, u32)) {
    let bracket = last_occurrence(content0, " ["@);
    if bracket is Some && ends_with(content0, "]"@) {
        (
            content0.subrange(0, bracket.unwrap()),
            apply_details(counts, content0.subrange(bracket.unwrap() + 2, content0.len() - 1)),
        )
    } else {
        (content0, counts)
    }
}

proof fn lemma_bracket_found(content0: Seq<char>, b: int, counts: (u32, u32))
    requires
        last_occurrence(content0, " ["@) == Some(b),
        occurs_at(content0, " ["@, b),
        content0.len() > 0,
        content0.last() == ']',
    ensures
        b + 2 <= content0.len() - 1,
        bracket_split(content0, counts) == (
            content0.subrange(0, b),
            apply_details(counts, content0.subrange(b + 2, content0.len() - 1)),
        ),
{
    assert(b + 2 <= content0.len() - 1) by {
        reveal_strlit(" [");
        assert(content0.subrange(b, b + 2)[1] == '[');
    }
    assert(ends_with(content0, "]"@)) by {
        reveal_strlit("]");
        assert(content0.subrange(content0.len() - 1, content0.len() as int) =~= "]"@);
    }
    let bracket = last_occurrence(content0, " ["@);
    assert(bracket == Some(b));
    assert(bracket is Some && ends_with(content0, "]"@));
    assert(bracket_split(content0, counts).0 == content0.subrange(0, b));
    assert(bracket_split(content0, counts).1 == apply_details(counts, content0.subrange(b + 2, content0.len() - 1)));
}

proof fn lemma_bracket_absent(content0: Seq<char>, counts: (u32, u32))
    requires
        last_occurrence(content0, " ["@) is None || content0.len() == 0 || content0.last() != ']',
    ensures
        bracket_split(content0, counts) == (content0, counts),
{
    reveal_strlit("]");
    if ends_with(content0, "]"@) {
        assert(content0.subrange(content0.len() - 1, content0.len() as int)[0] == ']');
    }
}

fn bracket_split_in(cs: &Vec<char>, lo: usize, hi: usize, counts: (u32, u32)) -> (r: (usize, (u32, u32)))
    requires
        lo <= hi <= cs@.len(),
    ensures
        lo <= r.0 <= hi,
        cs@.subrange(lo as int, r.0 as int) == bracket_split(cs@.subrange(lo as int, hi as int), counts).0,
        r.1 == bracket_split(cs@.subrange(lo as int, hi as int), counts).1,
{
    let ghost content0 = cs@.subrange(lo as int, hi as int);
    let open_bracket = chars_of(" [");
    match rfind_in(cs, lo, hi, &open_bracket) {
        Some(b) => {
            if hi > lo && cs[hi - 1] == ']' {
                proof {
                    lemma_bracket_found(content0, b as int, counts);
                }
                assert(cs@.subrange(lo + b + 2, hi - 1) =~= content0.subrange(b + 2, content0.len() - 1));
                let new_counts = details_in(cs, lo + b + 2, hi - 1, counts);
                assert(cs@.subrange(lo as int, lo + b) =~= content0.subrange(0, b as int));
                (lo + b, new_counts)
            } else {
                proof {
                    lemma_bracket_absent(content0, counts);
                }
                assert(cs@.subrange(lo as int, hi as int) == content0);
                (hi, counts)
            }
        },
        None => {
            proof {
                lemma_bracket_absent(content0, counts);
            }
            (hi, counts)
        },
    }
}

fn header_in(cs: &Vec<char>, from: usize, to: usize, status: &mut GitRepoStatus)
    requires
        from <= to <= cs@.len(),
    ensures
        final(status).head() == header_update(cs@.subrange(from as int, to as int), old(status).head()),
        final(status).is_repo == old(status).is_repo,
        final(status).has_changes == old(status).has_changes,
{
    let prefix = chars_of("## ");
    let start = strip_leading_repeats_range(cs, from, to, &prefix);
    let (lo, hi) = trim_range(cs, start, to);
    let (end, counts) = bracket_split_in(cs, lo, hi, (status.ahead, status.behind));
    status.ahead = counts.0;
    status.behind = counts.1;
    let ghost content = cs@.subrange(lo as int, end as int);
    let dots = chars_of("...");
    match find_in(cs, lo, end, &dots) {
        Some(i) => {
            proof {
                lemma_first_occurrence_bounds(content, dots@);
            }
            assert(cs@.subrange(lo as int, lo + i) =~= content.subrange(0, i as int));
            assert(cs@.subrange(lo + i + dots@.len(), end as int) =~= content.subrange(
                i + dots@.len(),
                content.len() as int,
            ));
            status.branch = branch_name_in(cs, lo, lo + i);
            let (ulo, uhi) = trim_range(cs, lo + i + dots.len(), end);
            status.upstream = if ulo == uhi {
                None
            } else {
                Some(string_of(cs.as_slice(), ulo, uhi))
            };
        },
        None => {
            status.branch = branch_name_in(cs, lo, end);
            status.upstream = None;
        },
    }
}

/// Applies a branch header line (`## <branch>...<upstream> [ahead N, behind M]`)
/// to `status`: the branch and upstream it names replace the old ones, and the
/// counts it gives replace theirs.
pub fn parse_git_branch_header(line: &str, status: &mut GitRepoStatus)
    ensures
        final(status).head() == header_update(line@, old(status).head()),
        final(status).is_repo == old(status).is_repo,
        final(status).has_changes == old(status).has_changes,
{
    let cs = chars_of(line);
    assert(cs@.subrange(0, cs@.len() as int) =~= cs@);
    header_in(&cs, 0, cs.len(), status)
}

/// The branch state before any header line.
pub open spec fn no_head() -> BranchHead {
    BranchHead { branch: None, upstream: None, ahead: 0, behind: 0 }
}

/// The views of a list of changes.
pub open spec fn change_views(changes: Seq<GitChange>) -> Seq<GitChangeView> {
    changes.map_values(|c: GitChange| c.view())
}

/// `s` cut at its first line break: the first line, and what follows the break.
pub open spec fn first_line(s: Seq<char>) -> (Seq<char>, Option<Seq<char>>) {
    match first_occurrence(s, "\n"@) {
        Some(i) => (s.subrange(0, i), Some(s.subrange(i + 1, s.len() as int))),
        None => (s, None),
    }
}

pub proof fn lemma_first_line(s: Seq<char>)
    ensures
        first_line(s).1 matches Some(r) ==> r.len() < s.len(),
{
    reveal_strlit("\n");
    lemma_first_occurrence_bounds(s, "\n"@);
}

/// The branch state and the changes after reading the lines of `s` (split at
/// line breaks, trailing carriage returns dropped): a line starting with `## `
/// is a branch header, any other a change line.
pub open spec fn status_scan(head: BranchHead, changes: Seq<GitChangeView>, s: Seq<char>, root: Seq<char>) -> (BranchHead, Seq<GitChangeView>)
    decreases s.len(),
{
    proof {
        lemma_first_line(s);
    }
    let line = strip_trailing(first_line(s).0, '\r');
    let next = if starts_with(line, "## "@) {
        (header_update(line, head), changes)
    } else {
        match change_of(line, root) {
            Some(c) => (head, changes.push(c)),
            None => (head, changes),
        }
    };
    match first_line(s).1 {
        Some(rest) => status_scan(next.0, next.1, rest, root),
        None => next,
    }
}

/// Reads the output of `git status --porcelain=v1 --branch`: the branch header
/// gives the branch state, every other line one change, with paths made
/// absolute under `root`.
pub fn parse_git_status_porcelain(output: &str, root: &str) -> (r: (GitRepoStatus, Vec<GitChange>))
    ensures
        ({
            let scanned = status_scan(no_head(), seq![], output@, root@);
            &&& r.0.is_repo
            &&& r.0.head() == scanned.0
            &&& change_views(r.1@) == scanned.1
            &&& r.0.has_changes == (scanned.1.len() > 0)
            &&& forall|i: int| 0 <= i < r.1@.len() ==> (#[trigger] r.1@[i]).well_formed()
        }),
{
    let cs = chars_of(output);
    let root_chars = chars_of(root);
    let newline = chars_of("\n");
    let header = chars_of("## ");
    let mut status = GitRepoStatus {
        is_repo: true,
        branch: None,
        upstream: None,
        ahead: 0,
        behind: 0,
        has_changes: false,
    };
    let mut changes: Vec<GitChange> = Vec::new();
    let len = cs.len();
    let mut pos: usize = 0;
    let mut done = false;
    assert(cs@.subrange(0, len as int) =~= cs@);
    assert(change_views(changes@) =~= Seq::<GitChangeView>::empty());
    while !done
        invariant
            len == cs@.len(),
            pos <= len,
            status.is_repo,
            newline@ == "\n"@,
            header@ == "## "@,
            forall|i: int| 0 <= i < changes@.len() ==> (#[trigger] changes@[i]).well_formed(),
            !done ==> status_scan(no_head(), seq![], output@, root_chars@) == status_scan(
                status.head(),
                change_views(changes@),
                cs@.subrange(pos as int, len as int),
                root_chars@,
            ),
            done ==> status_scan(no_head(), seq![], output@, root_chars@) == (
                status.head(),
                change_views(changes@),
            ),
            cs@ == output@,
            root_chars@ == root@,
        decreases len - pos + (if done { 0int } else { 1int }),
    {
        let ghost rest = cs@.subrange(pos as int, len as int);
        proof {
            reveal_strlit("\n");
            lemma_first_occurrence_bounds(rest, newline@);
        }
        let (line_end, next) = match find_in(&cs, pos, len, &newline) {
            Some(i) => (pos + i, Some(pos + i + 1)),
            None => (len, None),
        };
        assert(cs@.subrange(pos as int, line_end as int) == first_line(rest).0);
        let end = strip_trailing_range(&cs, pos, line_end, '\r');
        let ghost before = change_views(changes@);
        if starts_with_range(&cs, pos, end, &header) {
            header_in(&cs, pos, end, &mut status);
        } else {
            match change_in(&cs, pos, end, &root_chars) {
                Some(c) => {
                    changes.push(c);
                    assert(change_views(changes@) =~= before.push(c.view()));
                },
                None => {},
            }
        }
        match next {
            Some(p) => {
                assert(cs@.subrange(p as int, len as int) =~= first_line(rest).1.unwrap());
                pos = p;
            },
            None => {
                done = true;
            },
        }
    }
    status.has_changes = changes.len() > 0;
    proof {
        assert(change_views(changes@).len() == changes@.len());
    }
    (status, changes)
}

/// A branch of `git branch --all` output.
pub struct GitBranchInfo {
    pub name: String,
    pub is_current: bool,
    pub is_remote: bool,
}

/// A branch as plain values: name, whether current, whether remote.
pub type BranchView = (Seq<char>, bool, bool);

impl GitBranchInfo {
    pub open spec fn view(&self) -> BranchView {
        (self.name@, self.is_current, self.is_remote)
    }
}

pub open spec fn branch_views(branches: Seq<GitBranchInfo>) -> Seq<BranchView> {
    branches.map_values(|b: GitBranchInfo| b.view())
}

/// The branch that one line of `git branch --all` lists, if any: `*` marks the
/// current branch, `remotes/` a remote one; symbolic refs (`a -> b`) are skipped.
pub open spec fn branch_entry(raw: Seq<char>, current: Option<Seq<char>>) -> Option<BranchView> {
    let t = trim(strip_trailing(raw, '\r'));
    let marker = starts_with(t, "*"@);
    let n1 = if marker {
        trim(strip_leading_repeats(t, "*"@))
    } else {
        t
    };
    let remote = starts_with(n1, "remotes/"@);
    let name = trim(
        if remote {
            strip_leading_repeats(n1, "remotes/"@)
        } else {
            n1
        },
    );
    if t.len() == 0 || contains(n1, " -> "@) || name.len() == 0 {
        None
    } else {
        Some((name, current == Some(name) || marker, remote))
    }
}

/// Whether `list` has a branch of this name and kind already.
pub open spec fn listed(list: Seq<BranchView>, name: Seq<char>, remote: bool) -> bool {
    exists|k: int| 0 <= k < list.len() && (#[trigger] list[k]).0 == name && list[k].2 == remote
}

/// The branches the lines of `s` list, in order of appearance, each name and
/// kind once.
pub open spec fn branch_scan(acc: Seq<BranchView>, s: Seq<char>, current: Option<Seq<char>>) -> Seq<BranchView>
    decreases s.len(),
{
    proof {
        lemma_first_line(s);
    }
    let next = match branch_entry(first_line(s).0, current) {
        Some(b) => if listed(acc, b.0, b.2) {
            acc
        } else {
            acc.push(b)
        },
        None => acc,
    };
    match first_line(s).1 {
        Some(rest) => branch_scan(next, rest, current),
        None => next,
    }
}

/// A branch with the key it is sorted by (its name in lowercase).
pub type KeyedBranch = (Seq<char>, BranchView);

/// Listing order: local branches before remote ones, then by key.
pub open spec fn keyed_le(a: KeyedBranch, b: KeyedBranch) -> bool {
    (!a.1.2 && b.1.2) || (a.1.2 == b.1.2 && text_le(a.0, b.0))
}

/// `x` put into `sorted` after every entry that does not come after it.
pub open spec fn insert_keyed(sorted: Seq<KeyedBranch>, x: KeyedBranch) -> Seq<KeyedBranch>
    decreases sorted.len(),
{
    if sorted.len() == 0 {
        seq![x]
    } else if keyed_le(sorted.last(), x) {
        sorted.push(x)
    } else {
        insert_keyed(sorted.drop_last(), x).push(sorted.last())
    }
}

/// `list` in listing order; entries that compare equal keep their order.
pub open spec fn sort_keyed(list: Seq<KeyedBranch>) -> Seq<KeyedBranch>
    decreases list.len(),
{
    if list.len() == 0 {
        seq![]
    } else {
        insert_keyed(sort_keyed(list.drop_last()), list.last())
    }
}

/// The branches without their keys.
pub open spec fn unkeyed(list: Seq<KeyedBranch>) -> Seq<BranchView> {
    list.map_values(|e: KeyedBranch| e.1)
}

/// Branches keyed by their names in lowercase.
pub open spec fn keyed_by_lowercase(list: Seq<BranchView>) -> Seq<KeyedBranch> {
    list.map_values(|b: BranchView| (lower_of(b.0), b))
}

/// `list` in listing order: local branches before remote ones, then by
/// lowercase name; entries that compare equal keep their order.
pub open spec fn sort_branches(list: Seq<BranchView>) -> Seq<BranchView> {
    unkeyed(sort_keyed(keyed_by_lowercase(list)))
}

proof fn lemma_insert_at(sorted: Seq<KeyedBranch>, x: KeyedBranch, j: int)
    requires
        0 <= j <= sorted.len(),
        j == sorted.len() || !keyed_le(sorted[sorted.len() - 1], x),
        j > 0 ==> keyed_le(sorted[j - 1], x),
        forall|k: int| j <= k < sorted.len() ==> !keyed_le(#[trigger] sorted[k], x),
    ensures
        insert_keyed(sorted, x) == sorted.insert(j, x),
    decreases sorted.len(),
{
    if sorted.len() == 0 {
        assert(sorted.insert(j, x) =~= seq![x]);
    } else if j == sorted.len() {
        assert(sorted.insert(j, x) =~= sorted.push(x));
    } else {
        let d = sorted.drop_last();
        if j < d.len() {
            assert(!keyed_le(d[d.len() - 1], x));
        }
        lemma_insert_at(d, x, j);
        assert(sorted.insert(j, x) =~= d.insert(j, x).push(sorted.last()));
    }
}

fn keyed_le_exec(a: &(Vec<char>, GitBranchInfo), b: &(Vec<char>, GitBranchInfo)) -> (r: bool)
    ensures
        r == keyed_le((a.0@, a.1.view()), (b.0@, b.1.view())),
{
    (!a.1.is_remote && b.1.is_remote) || (a.1.is_remote == b.1.is_remote && text_le_exec(&a.0, &b.0))
}

/// The name of the branch on line `cs[from..to]`, per `branch_entry`.
fn branch_entry_in(cs: &Vec<char>, from: usize, to: usize, current: &Option<Vec<char>>) -> (r: Option<GitBranchInfo>)
    requires
        from <= to <= cs@.len(),
    ensures
        match branch_entry(
            cs@.subrange(from as int, to as int),
            match current {
                Some(c) => Some(c@),
                None => None,
            },
        ) {
            Some(v) => r matches Some(b) && b.view() == v,
            None => r is None,
        },
{
    let end = strip_trailing_range(cs, from, to, '\r');
    let (lo, hi) = trim_range(cs, from, end);
    if lo == hi {
        return None;
    }
    let star = chars_of("*");
    let marker = starts_with_range(cs, lo, hi, &star);
    let (lo1, hi1) = if marker {
        let s1 = strip_leading_repeats_range(cs, lo, hi, &star);
        trim_range(cs, s1, hi)
    } else {
        (lo, hi)
    };
    let arrow = chars_of(" -> ");
    if find_in(cs, lo1, hi1, &arrow).is_some() {
        return None;
    }
    let remotes = chars_of("remotes/");
    let remote = starts_with_range(cs, lo1, hi1, &remotes);
    let lo2 = if remote {
        strip_leading_repeats_range(cs, lo1, hi1, &remotes)
    } else {
        lo1
    };
    let (nlo, nhi) = trim_range(cs, lo2, hi1);
    if nlo == nhi {
        return None;
    }
    let is_current = match current {
        Some(c) => equals_range(cs, nlo, nhi, c),
        None => false,
    } || marker;
    Some(GitBranchInfo { name: string_of(cs.as_slice(), nlo, nhi), is_current, is_remote: remote })
}

fn already_listed(list: &Vec<GitBranchInfo>, b: &GitBranchInfo) -> (r: bool)
    ensures
        r == listed(branch_views(list@), b.name@, b.is_remote),
{
    let ghost views = branch_views(list@);
    let mut k: usize = 0;
    while k < list.len()
        invariant
            k <= list@.len(),
            views == branch_views(list@),
            forall|j: int| 0 <= j < k ==> !((#[trigger] views[j]).0 == b.name@ && views[j].2 == b.is_remote),
        decreases list@.len() - k,
    {
        if list[k].name == b.name && list[k].is_remote == b.is_remote {
            assert(views[k as int].0 == b.name@ && views[k as int].2 == b.is_remote);
            return true;
        }
        k = k + 1;
    }
    false
}

/// Reads the output of `git branch --all --no-color`: each local and remote
/// branch once, the current one marked, locals first, then by lowercase name.
pub fn parse_git_branches_output(output: &str, current_branch: Option<&str>) -> (r: Vec<GitBranchInfo>)
    ensures
        branch_views(r@) == sort_branches(
            branch_scan(
                seq![],
                output@,
                match current_branch {
                    Some(c) => Some(c@),
                    None => None,
                },
            ),
        ),
{
    let cs = chars_of(output);
    let current = match current_branch {
        Some(c) => Some(chars_of(c)),
        None => None,
    };
    let ghost cur = match current_branch {
        Some(c) => Some(c@),
        None => None::<Seq<char>>,
    };
    assert(cur == match current {
        Some(c) => Some(c@),
        None => None,
    });
    let newline = chars_of("\n");
    let mut found: Vec<GitBranchInfo> = Vec::new();
    let len = cs.len();
    let mut pos: usize = 0;
    let mut done = false;
    assert(cs@.subrange(0, len as int) =~= cs@);
    assert(branch_views(found@) =~= Seq::<BranchView>::empty());
    while !done
        invariant
            len == cs@.len(),
            pos <= len,
            newline@ == "\n"@,
            cs@ == output@,
            cur == match current {
                Some(c) => Some(c@),
                None => None,
            },
            !done ==> branch_scan(seq![], output@, cur) == branch_scan(
                branch_views(found@),
                cs@.subrange(pos as int, len as int),
                cur,
            ),
            done ==> branch_scan(seq![], output@, cur) == branch_views(found@),
        decreases len - pos + (if done { 0int } else { 1int }),
    {
        let ghost rest = cs@.subrange(pos as int, len as int);
        proof {
            reveal_strlit("\n");
            lemma_first_occurrence_bounds(rest, newline@);
        }
        let (line_end, next) = match find_in(&cs, pos, len, &newline) {
            Some(i) => (pos + i, Some(pos + i + 1)),
            None => (len, None),
        };
        assert(cs@.subrange(pos as int, line_end as int) == first_line(rest).0);
        let ghost before = branch_views(found@);
        match branch_entry_in(&cs, pos, line_end, &current) {
            Some(b) => {
                if !already_listed(&found, &b) {
                    found.push(b);
                    assert(branch_views(found@) =~= before.push(b.view()));
                }
            },
            None => {},
        }
        match next {
            Some(p) => {
                assert(cs@.subrange(p as int, len as int) =~= first_line(rest).1.unwrap());
                pos = p;
            },
            None => {
                done = true;
            },
        }
    }
    sort_listing(found)
}

fn copy_branch(b: &GitBranchInfo) -> (r: GitBranchInfo)
    ensures
        r.view() == b.view(),
{
    GitBranchInfo { name: b.name.clone(), is_current: b.is_current, is_remote: b.is_remote }
}

/// The views of keyed branches.
pub open spec fn keyed_views(list: Seq<(Vec<char>, GitBranchInfo)>) -> Seq<KeyedBranch> {
    list.map_values(|e: (Vec<char>, GitBranchInfo)| (e.0@, e.1.view()))
}

/// Puts branches in listing order by the keys given with them: local branches
/// before remote ones, then by key; entries that compare equal keep their order.
pub fn order_branches(list: Vec<(Vec<char>, GitBranchInfo)>) -> (r: Vec<GitBranchInfo>)
    ensures
        branch_views(r@) == unkeyed(sort_keyed(keyed_views(list@))),
{
    let ghost views = keyed_views(list@);
    let mut keyed: Vec<(Vec<char>, GitBranchInfo)> = Vec::new();
    let mut done_count: usize = 0;
    assert(views.subrange(0, 0) =~= Seq::<KeyedBranch>::empty());
    assert(keyed_views(keyed@) =~= Seq::<KeyedBranch>::empty());
    while done_count < list.len()
        invariant
            done_count <= list@.len(),
            views == keyed_views(list@),
            keyed_views(keyed@) == sort_keyed(views.subrange(0, done_count as int)),
        decreases list@.len() - done_count,
    {
        let entry = (list[done_count].0.clone(), copy_branch(&list[done_count].1));
        let ghost sorted = keyed_views(keyed@);
        let mut j = keyed.len();
        while j > 0 && !keyed_le_exec(&keyed[j - 1], &entry)
            invariant
                j <= keyed@.len(),
                sorted == keyed_views(keyed@),
                forall|k: int| j <= k < sorted.len() ==> !keyed_le(#[trigger] sorted[k], (entry.0@, entry.1.view())),
            decreases j,
        {
            j = j - 1;
        }
        proof {
            lemma_insert_at(sorted, (entry.0@, entry.1.view()), j as int);
            let prefix = views.subrange(0, done_count + 1);
            assert(prefix.drop_last() =~= views.subrange(0, done_count as int));
            assert(prefix.last() == (entry.0@, entry.1.view()));
        }
        keyed.insert(j, entry);
        assert(keyed_views(keyed@) =~= sorted.insert(j as int, (entry.0@, entry.1.view())));
        done_count = done_count + 1;
    }
    assert(views.subrange(0, done_count as int) =~= views);
    let ghost target = unkeyed(keyed_views(keyed@));
    let mut r: Vec<GitBranchInfo> = Vec::new();
    let mut k: usize = 0;
    while k < keyed.len()
        invariant
            k <= keyed@.len(),
            target == unkeyed(keyed_views(keyed@)),
            branch_views(r@) == target.subrange(0, k as int),
        decreases keyed@.len() - k,
    {
        let item = copy_branch(&keyed[k].1);
        let ghost before = r@;
        assert(target[k as int] == keyed@[k as int].1.view());
        r.push(item);
        assert(branch_views(r@) =~= branch_views(before).push(item.view()));
        assert(branch_views(r@) =~= target.subrange(0, k + 1));
        k = k + 1;
    }
    assert(target.subrange(0, k as int) =~= target);
    r
}

/// Keys each branch by its name in lowercase and puts them in listing order.
fn sort_listing(list: Vec<GitBranchInfo>) -> (r: Vec<GitBranchInfo>)
    ensures
        branch_views(r@) == sort_branches(branch_views(list@)),
{
    let mut keyed: Vec<(Vec<char>, GitBranchInfo)> = Vec::new();
    let mut i: usize = 0;
    while i < list.len()
        invariant
            i <= list@.len(),
            keyed_views(keyed@) == keyed_by_lowercase(branch_views(list@)).subrange(0, i as int),
        decreases list@.len() - i,
    {
        let item = copy_branch(&list[i]);
        let key = chars_of(lowercase(item.name.as_str()).as_str());
        let ghost before = keyed@;
        keyed.push((key, item));
        assert(keyed_views(keyed@) =~= keyed_views(before).push((key@, item.view())));
        assert(keyed_views(keyed@) =~= keyed_by_lowercase(branch_views(list@)).subrange(0, i + 1));
        i = i + 1;
    }
    assert(keyed_by_lowercase(branch_views(list@)).subrange(0, i as int) =~= keyed_by_lowercase(
        branch_views(list@),
    ));
    order_branches(keyed)
}

/// What running one git command gave.
pub struct GitCommandResult {
    pub command: String,
    pub args: Vec<String>,
    pub stdout: String,
    pub stderr: String,
    pub exit_code: i32,
    pub success: bool,
}

/// The decimal text of a signed integer.
pub open spec fn signed_decimal(n: int) -> Seq<char> {
    if n < 0 {
        seq!['-'] + decimal((-n) as nat)
    } else {
        decimal(n as nat)
    }
}

/// What a failed git command is summed up as: its trimmed error output, else its
/// trimmed standard output, else its exit code.
pub open spec fn failure_summary(stderr: Seq<char>, stdout: Seq<char>, exit_code: i32) -> Seq<char> {
    if trim(stderr).len() > 0 {
        trim(stderr)
    } else if trim(stdout).len() > 0 {
        trim(stdout)
    } else {
        "command exited with code "@ + signed_decimal(exit_code as int)
    }
}

fn concat(a: &str, b: &str) -> (r: String)
    ensures
        r@ == a@ + b@,
{
    let mut cs = chars_of(a);
    let more = chars_of(b);
    push_all(&mut cs, &more);
    string_of_all(&cs)
}

fn signed_decimal_string(n: i32) -> (r: String)
    ensures
        r@ == signed_decimal(n as int),
{
    if n < 0 {
        let magnitude = (0i64 - n as i64) as u64;
        let mut cs = vec!['-'];
        let digits = decimal_chars(magnitude);
        push_all(&mut cs, &digits);
        assert(cs@ =~= seq!['-'] + decimal((-(n as int)) as nat));
        string_of_all(&cs)
    } else {
        let digits = decimal_chars(n as u64);
        string_of_all(&digits)
    }
}

fn trimmed(s: &str) -> (r: String)
    ensures
        r@ == trim(s@),
{
    let cs = chars_of(s);
    let (lo, hi) = trim_range(&cs, 0, cs.len());
    assert(cs@.subrange(0, cs@.len() as int) =~= cs@);
    string_of(cs.as_slice(), lo, hi)
}

/// Sums up why a git command failed, for an error message.
pub fn summarize_git_failure(result: &GitCommandResult) -> (r: String)
    ensures
        r@ == failure_summary(result.stderr@, result.stdout@, result.exit_code),
{
    let stderr = trimmed(result.stderr.as_str());
    if !stderr.as_str().is_empty() {
        return stderr;
    }
    let stdout = trimmed(result.stdout.as_str());
    if !stdout.as_str().is_empty() {
        return stdout;
    }
    let code = signed_decimal_string(result.exit_code);
    concat("command exited with code ", code.as_str())
}

fn contains_text(haystack: &Vec<char>, needle: &str) -> (r: bool)
    ensures
        r == contains(haystack@, needle@),
{
    let pattern = chars_of(needle);
    assert(haystack@.subrange(0, haystack@.len() as int) =~= haystack@);
    find_in(haystack, 0, haystack.len(), &pattern).is_some()
}

/// Whether git's output says that the directory is not a repository.
pub fn is_not_git_repository_error(text: &str) -> (r: bool)
    ensures
        r == contains(lower_of(text@), "not a git repository"@),
{
    let lower = lowercase(text);
    mentions_missing_repository(lower.as_str())
}

/// Whether a lowercase git message says that the directory is not a repository.
pub fn mentions_missing_repository(lower: &str) -> (r: bool)
    ensures
        r == contains(lower@, "not a git repository"@),
{
    let cs = chars_of(lower);
    contains_text(&cs, "not a git repository")
}

/// Whether a failed `git restore` says that the path is unknown to git.
pub fn is_restore_unknown_path_error(result: &GitCommandResult) -> (r: bool)
    ensures
        ({
            let text = lower_of(result.stderr@ + "\n"@ + result.stdout@);
            r == (contains(text, "did not match any file"@) || contains(text, "pathspec"@) || contains(
                text,
                "could not resolve"@,
            ))
        }),
{
    let first = concat(result.stderr.as_str(), "\n");
    let joined = concat(first.as_str(), result.stdout.as_str());
    let lower = lowercase(joined.as_str());
    mentions_unknown_path(lower.as_str())
}

/// Whether a lowercase git message says that a path is unknown to git.
pub fn mentions_unknown_path(lower: &str) -> (r: bool)
    ensures
        r == (contains(lower@, "did not match any file"@) || contains(lower@, "pathspec"@) || contains(
            lower@,
            "could not resolve"@,
        )),
{
    let cs = chars_of(lower);
    contains_text(&cs, "did not match any file") || contains_text(&cs, "pathspec") || contains_text(
        &cs,
        "could not resolve",
    )
}

/// The outcome of checking a branch name: the trimmed name, or why it is refused.
pub open spec fn branch_name_check(value: Seq<char>) -> Result<Seq<char>, Seq<char>> {
    let t = trim(value);
    if t.len() == 0 {
        Err("Branch name cannot be empty"@)
    } else if t[0] == '-' {
        Err("Branch name cannot start with '-'"@)
    } else if contains(t, "\n"@) || contains(t, "\r"@) {
        Err("Branch name is not valid"@)
    } else {
        Ok(t)
    }
}

/// The view of a result of strings.
pub open spec fn result_text(r: Result<String, String>) -> Result<Seq<char>, Seq<char>> {
    match r {
        Ok(s) => Ok(s@),
        Err(e) => Err(e@),
    }
}

/// Checks a branch name to check out: it is trimmed, must not be empty, must
/// not start with `-` and must be one line.
pub fn validate_git_branch_name(value: &str) -> (r: Result<String, String>)
    ensures
        result_text(r) == branch_name_check(value@),
{
    let cs = chars_of(value);
    let (lo, hi) = trim_range(&cs, 0, cs.len());
    assert(cs@.subrange(0, cs@.len() as int) =~= cs@);
    let ghost t = cs@.subrange(lo as int, hi as int);
    if lo == hi {
        return Err("Branch name cannot be empty".to_owned());
    }
    if cs[lo] == '-' {
        return Err("Branch name cannot start with '-'".to_owned());
    }
    let nl = chars_of("\n");
    let cr = chars_of("\r");
    if find_in(&cs, lo, hi, &nl).is_some() || find_in(&cs, lo, hi, &cr).is_some() {
        return Err("Branch name is not valid".to_owned());
    }
    Ok(string_of(cs.as_slice(), lo, hi))
}

/// A workspace must be a git repository for commands that change it.
pub fn ensure_workspace_is_git_repository(status: &GitRepoStatus) -> (r: Result<(), String>)
    ensures
        status.is_repo ==> r is Ok,
        !status.is_repo ==> (r matches Err(e) && e@ == "Workspace is not a git repository"@),
{
    if status.is_repo {
        Ok(())
    } else {
        Err("Workspace is not a git repository".to_owned())
    }
}

/// A git command that had to succeed: its result, or an error that gives
/// `context` and the summed-up failure.
pub fn run_git_command_expect_success(result: GitCommandResult, context: &str) -> (r: Result<GitCommandResult, String>)
    ensures
        result.success ==> (r matches Ok(x) && x == result),
        !result.success ==> (r matches Err(e) && e@ == context@ + ": "@ + failure_summary(
            result.stderr@,
            result.stdout@,
            result.exit_code,
        )),
{
    if result.success {
        return Ok(result);
    }
    let summary = summarize_git_failure(&result);
    let head = concat(context, ": ");
    Err(concat(head.as_str(), summary.as_str()))
}

/// The repository state and changes that a `git status --porcelain=v1 --branch`
/// run gives: parsed from its output when it succeeded; a state with no
/// repository when git said the workspace is none; an error otherwise.
pub fn get_git_status_snapshot(result: &GitCommandResult, root: &str) -> (r: Result<(GitRepoStatus, Vec<GitChange>), String>)
    ensures
        result.success ==> (r matches Ok(v) && {
            let scanned = status_scan(no_head(), seq![], result.stdout@, root@);
            &&& v.0.is_repo
            &&& v.0.head() == scanned.0
            &&& change_views(v.1@) == scanned.1
            &&& v.0.has_changes == (scanned.1.len() > 0)
        }),
        !result.success && contains(lower_of(result.stderr@ + "\n"@ + result.stdout@), "not a git repository"@)
            ==> (r matches Ok(v) && !v.0.is_repo && v.0.head() == no_head() && !v.0.has_changes && v.1@.len() == 0),
        !result.success && !contains(lower_of(result.stderr@ + "\n"@ + result.stdout@), "not a git repository"@)
            ==> (r matches Err(e) && e@ == "Failed to read git status: "@ + failure_summary(
            result.stderr@,
            result.stdout@,
            result.exit_code,
        )),
{
    if result.success {
        return Ok(parse_git_status_porcelain(result.stdout.as_str(), root));
    }
    let first = concat(result.stderr.as_str(), "\n");
    let combined = concat(first.as_str(), result.stdout.as_str());
    assert(combined@ == result.stderr@ + "\n"@ + result.stdout@);
    if is_not_git_repository_error(combined.as_str()) {
        return Ok(
            (
                GitRepoStatus {
                    is_repo: false,
                    branch: None,
                    upstream: None,
                    ahead: 0,
                    behind: 0,
                    has_changes: false,
                },
                Vec::new(),
            ),
        );
    }
    let summary = summarize_git_failure(result);
    Err(concat("Failed to read git status: ", summary.as_str()))
}

pub open spec fn is_hex_digit(c: char) -> bool {
    ('0' <= c <= '9') || ('a' <= c <= 'f') || ('A' <= c <= 'F')
}

/// What the first line of `s` says of the commit hash: `Some(r)` where reading
/// stops there with result `r`, `None` where it goes on with the next line.
pub open spec fn hash_in_line(line: Seq<char>) -> Option<Option<Seq<char>>> {
    let t = trim(line);
    if !starts_with(t, "["@) {
        None
    } else {
        match first_occurrence(t, "]"@) {
            None => Some(None),
            Some(c) => {
                let a = trim_start(t.subrange(1, c));
                let b = trim_start(a.subrange(word_len(a) as int, a.len() as int));
                let hash = b.subrange(0, word_len(b) as int);
                if b.len() == 0 {
                    Some(None)
                } else if forall|i: int| 0 <= i < hash.len() ==> is_hex_digit(#[trigger] hash[i]) {
                    Some(Some(hash))
                } else {
                    None
                }
            },
        }
    }
}

/// The commit hash that `git commit` prints on its summary line
/// (`[branch hash] message`).
pub open spec fn commit_hash_of(s: Seq<char>) -> Option<Seq<char>>
    decreases s.len(),
{
    proof {
        lemma_first_line(s);
    }
    match hash_in_line(first_line(s).0) {
        Some(r) => r,
        None => match first_line(s).1 {
            Some(rest) => commit_hash_of(rest),
            None => None,
        },
    }
}

fn hash_in_line_exec(cs: &Vec<char>, from: usize, to: usize) -> (r: Option<Option<String>>)
    requires
        from <= to <= cs@.len(),
    ensures
        match hash_in_line(cs@.subrange(from as int, to as int)) {
            None => r is None,
            Some(None) => r == Some(None::<String>),
            Some(Some(h)) => (r matches Some(Some(x)) && x@ == h),
        },
{
    let (lo, hi) = trim_range(cs, from, to);
    let ghost t = cs@.subrange(lo as int, hi as int);
    let open = chars_of("[");
    if !starts_with_range(cs, lo, hi, &open) {
        return None;
    }
    proof {
        reveal_strlit("[");
        reveal_strlit("]");
    }
    assert(t[0] == '[') by {
        assert(t.subrange(0, 1)[0] == '[');
    }
    let close = chars_of("]");
    let c = match find_in(cs, lo, hi, &close) {
        None => {
            return Some(None);
        },
        Some(c) => c,
    };
    proof {
        lemma_first_occurrence_bounds(t, close@);
        assert(t.subrange(c as int, c + 1)[0] == ']');
    }
    assert(c >= 1);
    assert(cs@.subrange(lo + 1, lo + c) =~= t.subrange(1, c as int));
    let a_lo = skip_spaces(cs, lo + 1, lo + c);
    let ghost a = cs@.subrange(a_lo as int, lo + c);
    let a_end = word_end(cs, a_lo, lo + c);
    assert(cs@.subrange(a_end as int, lo + c) =~= a.subrange(word_len(a) as int, a.len() as int));
    let b_lo = skip_spaces(cs, a_end, lo + c);
    let ghost b = cs@.subrange(b_lo as int, lo + c);
    if b_lo == lo + c {
        return Some(None);
    }
    let b_end = word_end(cs, b_lo, lo + c);
    let ghost hash = b.subrange(0, word_len(b) as int);
    assert(cs@.subrange(b_lo as int, b_end as int) =~= hash);
    assert(hash_in_line(cs@.subrange(from as int, to as int)) == (if forall|i: int|
        0 <= i < hash.len() ==> is_hex_digit(#[trigger] hash[i]) {
        Some(Some(hash))
    } else {
        None
    }));
    let mut k = b_lo;
    while k < b_end
        invariant
            b_lo <= k <= b_end <= cs@.len(),
            hash == cs@.subrange(b_lo as int, b_end as int),
            from <= to <= cs@.len(),
            hash_in_line(cs@.subrange(from as int, to as int)) == (if forall|i: int|
                0 <= i < hash.len() ==> is_hex_digit(#[trigger] hash[i]) {
                Some(Some(hash))
            } else {
                None
            }),
            forall|i: int| 0 <= i < k - b_lo ==> is_hex_digit(#[trigger] hash[i]),
        decreases b_end - k,
    {
        let ch = cs[k];
        if !(('0' <= ch && ch <= '9') || ('a' <= ch && ch <= 'f') || ('A' <= ch && ch <= 'F')) {
            assert(!is_hex_digit(hash[k - b_lo]));
            return None;
        }
        k = k + 1;
    }
    Some(Some(string_of(cs.as_slice(), b_lo, b_end)))
}

/// The commit hash in the output of `git commit`, from the first line of the
/// form `[<branch> <hash>] ...` whose hash is hexadecimal.
pub fn extract_git_commit_hash(stdout: &str) -> (r: Option<String>)
    ensures
        opt_text(r) == commit_hash_of(stdout@),
{
    let cs = chars_of(stdout);
    let newline = chars_of("\n");
    let len = cs.len();
    let mut pos: usize = 0;
    assert(cs@.subrange(0, len as int) =~= cs@);
    loop
        invariant
            len == cs@.len(),
            pos <= len,
            newline@ == "\n"@,
            commit_hash_of(stdout@) == commit_hash_of(cs@.subrange(pos as int, len as int)),
        decreases len - pos,
    {
        let ghost rest = cs@.subrange(pos as int, len as int);
        proof {
            reveal_strlit("\n");
            lemma_first_occurrence_bounds(rest, newline@);
        }
        let (line_end, next) = match find_in(&cs, pos, len, &newline) {
            Some(i) => (pos + i, Some(pos + i + 1)),
            None => (len, None),
        };
        assert(cs@.subrange(pos as int, line_end as int) == first_line(rest).0);
        match hash_in_line_exec(&cs, pos, line_end) {
            Some(found) => {
                return found;
            },
            None => {},
        }
        match next {
            Some(p) => {
                assert(cs@.subrange(p as int, len as int) =~= first_line(rest).1.unwrap());
                pos = p;
            },
            None => {
                return None;
            },
        }
    }
}

/// The outcome of checking a commit message: the trimmed message, or why it is
/// refused.
pub open spec fn commit_message_check(message: Seq<char>) -> Result<Seq<char>, Seq<char>> {
    if trim(message).len() == 0 {
        Err("Commit message cannot be empty"@)
    } else {
        Ok(trim(message))
    }
}

/// Checks a commit message: trimmed, and not empty.
pub fn validate_commit_message(message: &str) -> (r: Result<String, String>)
    ensures
        result_text(r) == commit_message_check(message@),
{
    let cs = chars_of(message);
    let (lo, hi) = trim_range(&cs, 0, cs.len());
    assert(cs@.subrange(0, cs@.len() as int) =~= cs@);
    if lo == hi {
        Err("Commit message cannot be empty".to_owned())
    } else {
        Ok(string_of(cs.as_slice(), lo, hi))
    }
}

/// What a commit is summed up as: the first line git printed, trimmed, or a
/// fixed text where that line is blank.
pub open spec fn commit_summary_of(stdout: Seq<char>) -> Seq<char> {
    let first = trim(first_line(stdout).0);
    if first.len() == 0 {
        "Commit created"@
    } else {
        first
    }
}

/// Sums up a commit from the output of `git commit`.
pub fn commit_summary(stdout: &str) -> (r: String)
    ensures
        r@ == commit_summary_of(stdout@),
{
    let cs = chars_of(stdout);
    let newline = chars_of("\n");
    assert(cs@.subrange(0, cs@.len() as int) =~= cs@);
    proof {
        reveal_strlit("\n");
        lemma_first_occurrence_bounds(cs@, newline@);
    }
    let end = match find_in(&cs, 0, cs.len(), &newline) {
        Some(i) => i,
        None => cs.len(),
    };
    assert(cs@.subrange(0, end as int) == first_line(cs@).0);
    let (lo, hi) = trim_range(&cs, 0, end);
    if lo == hi {
        "Commit created".to_owned()
    } else {
        string_of(cs.as_slice(), lo, hi)
    }
}

} // verus!
