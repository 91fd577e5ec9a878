use vstd::prelude::*;

use crate::session::{lower_of, lowercase};
use crate::text::{
    text_le, text_le_exec,
    chars_between, chars_of, contains, find_in, push_all, starts_with, starts_with_range, string_of,
    string_of_all, trim, trim_range, equals_range,
};

verus! {

/// `rel` resolved against the directory `root`: an absolute `rel` stands on its
/// own; otherwise the two are joined with one separator.
pub open spec fn join_path(root: Seq<char>, rel: Seq<char>) -> Seq<char> {
    if rel.len() > 0 && rel[0] == '/' {
        rel
    } else if root.len() == 0 {
        rel
    } else if root.last() == '/' {
        root + rel
    } else {
        root + seq!['/'] + rel
    }
}

/// A Windows extended-length path (`\\?\C:\x`, `\\?\UNC\host\share`) in its
/// ordinary form; any other path as it is.
pub open spec fn local_path(p: Seq<char>) -> Seq<char> {
    let unc = "\\\\?\\UNC\\"@;
    let verbatim = "\\\\?\\"@;
    if starts_with(p, unc) {
        "\\\\"@ + p.subrange(unc.len() as int, p.len() as int)
    } else if starts_with(p, verbatim) {
        p.subrange(verbatim.len() as int, p.len() as int)
    } else {
        p
    }
}

/// Characters of `join_path(root, rel)`.
pub fn join_path_chars(root: &Vec<char>, rel: &Vec<char>) -> (r: Vec<char>)
    ensures
        r@ == join_path(root@, rel@),
{
    if rel.len() > 0 && rel[0] == '/' {
        return rel.clone();
    }
    if root.len() == 0 {
        return rel.clone();
    }
    let mut r = root.clone();
    if root[root.len() - 1] != '/' {
        r.push('/');
    }
    push_all(&mut r, rel);
    r
}

/// Characters of `local_path(p)`.
pub fn local_path_chars(p: &Vec<char>) -> (r: Vec<char>)
    ensures
        r@ == local_path(p@),
{
    let unc = chars_of("\\\\?\\UNC\\");
    let verbatim = chars_of("\\\\?\\");
    assert(p@.subrange(0, p@.len() as int) =~= p@);
    if starts_with_range(p, 0, p.len(), &unc) {
        let mut r = chars_of("\\\\");
        let mut i = unc.len();
        let ghost start = r@;
        while i < p.len()
            invariant
                unc@.len() <= i <= p@.len(),
                r@ == start + p@.subrange(unc@.len() as int, i as int),
            decreases p@.len() - i,
        {
            r.push(p[i]);
            i = i + 1;
            assert(r@ =~= start + p@.subrange(unc@.len() as int, i as int));
        }
        r
    } else if starts_with_range(p, 0, p.len(), &verbatim) {
        let mut r: Vec<char> = Vec::new();
        let mut i = verbatim.len();
        while i < p.len()
            invariant
                verbatim@.len() <= i <= p@.len(),
                r@ == p@.subrange(verbatim@.len() as int, i as int),
            decreases p@.len() - i,
        {
            r.push(p[i]);
            i = i + 1;
            assert(r@ =~= p@.subrange(verbatim@.len() as int, i as int));
        }
        r
    } else {
        p.clone()
    }
}

/// Rewrites a Windows extended-length path in its ordinary form; any other path
/// is returned unchanged.
pub fn normalize_windows_verbatim_path(path: &str) -> (r: String)
    ensures
        r@ == local_path(path@),
{
    let cs = chars_of(path);
    let r = local_path_chars(&cs);
    string_of_all(&r)
}

/// Rounds a byte count up to whole kibibytes.
pub fn kb_rounded_up(bytes: u64) -> (r: u64)
    ensures
        r as int == (bytes as int + 1023) / 1024,
{
    let whole = bytes / 1024;
    if bytes % 1024 == 0 {
        whole
    } else {
        whole + 1
    }
}

/// The outcome of checking a new name for a file or directory: the trimmed
/// name, or why it is refused.
pub open spec fn segment_name_check(value: Seq<char>) -> Result<Seq<char>, Seq<char>> {
    let t = trim(value);
    if t.len() == 0 {
        Err("Name cannot be empty"@)
    } else if t == "."@ || t == ".."@ {
        Err("Name is not valid"@)
    } else if contains(t, "/"@) || contains(t, "\\"@) {
        Err("Name cannot contain path separators"@)
    } else {
        Ok(t)
    }
}

/// Checks a new name for a file or directory: trimmed, not empty, not `.` or
/// `..`, and without path separators.
pub fn validate_path_segment_name(value: &str) -> (r: Result<String, String>)
    ensures
        match r {
            Ok(s) => segment_name_check(value@) == Ok::<Seq<char>, Seq<char>>(s@),
            Err(e) => segment_name_check(value@) == Err::<Seq<char>, Seq<char>>(e@),
        },
{
    let cs = chars_of(value);
    let (lo, hi) = trim_range(&cs, 0, cs.len());
    assert(cs@.subrange(0, cs@.len() as int) =~= cs@);
    if lo == hi {
        return Err("Name cannot be empty".to_owned());
    }
    let dot = chars_of(".");
    let dots = chars_of("..");
    if equals_range(&cs, lo, hi, &dot) || equals_range(&cs, lo, hi, &dots) {
        return Err("Name is not valid".to_owned());
    }
    let slash = chars_of("/");
    let backslash = chars_of("\\");
    if find_in(&cs, lo, hi, &slash).is_some() || find_in(&cs, lo, hi, &backslash).is_some() {
        return Err("Name cannot contain path separators".to_owned());
    }
    Ok(string_of(cs.as_slice(), lo, hi))
}

/// `c` with ASCII upper case letters made lower case.
pub open spec fn ascii_lower(c: char) -> char {
    if 'A' <= c <= 'Z' {
        ((c as u32) + 32) as char
    } else {
        c
    }
}

/// Whether `name` equals the lower-case ASCII `word`, ignoring ASCII case.
pub open spec fn same_ignoring_ascii_case(name: Seq<char>, word: Seq<char>) -> bool {
    name.len() == word.len() && forall|i: int| 0 <= i < name.len() ==> ascii_lower(#[trigger] name[i]) == word[i]
}

fn same_ignoring_case_exec(name: &Vec<char>, word: &Vec<char>) -> (r: bool)
    ensures
        r == same_ignoring_ascii_case(name@, word@),
{
    if name.len() != word.len() {
        return false;
    }
    let mut i: usize = 0;
    while i < name.len()
        invariant
            name@.len() == word@.len(),
            i <= name@.len(),
            forall|k: int| 0 <= k < i ==> ascii_lower(#[trigger] name@[k]) == word@[k],
        decreases name@.len() - i,
    {
        let c = name[i];
        let w = word[i];
        proof {
            vstd::utf8::char_u32_cast(w, w as u32);
        }
        let same = if 'A' <= c && c <= 'Z' {
            c as u32 + 32 == w as u32
        } else {
            c == w
        };
        if !same {
            return false;
        }
        i = i + 1;
    }
    true
}

/// Directories that browsing and searching skip, whatever their ASCII case.
pub open spec fn is_ignored_directory(name: Seq<char>) -> bool {
    same_ignoring_ascii_case(name, "node_modules"@) || same_ignoring_ascii_case(name, "dist"@)
        || same_ignoring_ascii_case(name, "target"@)
}

/// Whether a directory is one that browsing and searching skip.
pub fn is_ignored_directory_name(name: &str) -> (r: bool)
    ensures
        r == is_ignored_directory(name@),
{
    let cs = chars_of(name);
    same_ignoring_case_exec(&cs, &chars_of("node_modules")) || same_ignoring_case_exec(
        &cs,
        &chars_of("dist"),
    ) || same_ignoring_case_exec(&cs, &chars_of("target"))
}

/// Whether file content looks binary: a zero byte among its first 1024 bytes.
pub fn is_probably_binary(bytes: &[u8]) -> (r: bool)
    ensures
        r == exists|i: int| 0 <= i < bytes@.len() && i < 1024 && #[trigger] bytes@[i] == 0,
{
    let mut i: usize = 0;
    while i < bytes.len() && i < 1024
        invariant
            i <= bytes@.len(),
            i <= 1024,
            forall|k: int| 0 <= k < i ==> #[trigger] bytes@[k] != 0,
        decreases bytes@.len() - i,
    {
        if bytes[i] == 0 {
            return true;
        }
        i = i + 1;
    }
    false
}

/// Longest preview of a line, in characters.
pub const PREVIEW_CHARS: usize = 180;

/// A line shown as a search preview: trimmed, and cut after its first 180
/// characters with `...` marking the cut.
pub open spec fn preview_of(value: Seq<char>) -> Seq<char> {
    let t = trim(value);
    if t.len() > PREVIEW_CHARS {
        t.subrange(0, PREVIEW_CHARS as int) + "..."@
    } else {
        t
    }
}

/// Trims a line and cuts it to a preview.
pub fn truncate_line(value: &str) -> (r: String)
    ensures
        r@ == preview_of(value@),
{
    let cs = chars_of(value);
    let (lo, hi) = trim_range(&cs, 0, cs.len());
    assert(cs@.subrange(0, cs@.len() as int) =~= cs@);
    if hi - lo > PREVIEW_CHARS {
        let mut head = chars_between(&cs, lo, lo + PREVIEW_CHARS);
        let ellipsis = chars_of("...");
        push_all(&mut head, &ellipsis);
        assert(cs@.subrange(lo as int, lo + PREVIEW_CHARS) =~= cs@.subrange(lo as int, hi as int).subrange(0, PREVIEW_CHARS as int));
        string_of_all(&head)
    } else {
        string_of(cs.as_slice(), lo, hi)
    }
}

/// Where a directory entry is listed: directories first, then by lowercase name.
pub type EntryKey = (bool, Seq<char>);

pub open spec fn entry_le(a: EntryKey, b: EntryKey) -> bool {
    (!a.0 && b.0) || (a.0 == b.0 && text_le(a.1, b.1))
}

/// The listing keys of entries given as (is a directory, name).
pub open spec fn entry_keys(entries: Seq<(bool, String)>) -> Seq<EntryKey> {
    entries.map_values(|e: (bool, String)| (!e.0, lower_of(e.1@)))
}

/// `order` with index `x` put after every index whose key does not come after its key.
pub open spec fn insert_index(order: Seq<int>, keys: Seq<EntryKey>, x: int) -> Seq<int>
    decreases order.len(),
{
    if order.len() == 0 {
        seq![x]
    } else if entry_le(keys[order.last()], keys[x]) {
        order.push(x)
    } else {
        insert_index(order.drop_last(), keys, x).push(order.last())
    }
}

/// The indices `0..n` in listing order; entries that compare equal keep their order.
pub open spec fn listing_order(keys: Seq<EntryKey>, n: nat) -> Seq<int>
    decreases n,
{
    if n == 0 {
        seq![]
    } else {
        insert_index(listing_order(keys, (n - 1) as nat), keys, n - 1)
    }
}

proof fn lemma_insert_index_at(order: Seq<int>, keys: Seq<EntryKey>, x: int, j: int)
    requires
        0 <= j <= order.len(),
        j == order.len() || !entry_le(keys[order[order.len() - 1]], keys[x]),
        j > 0 ==> entry_le(keys[order[j - 1]], keys[x]),
        forall|k: int| j <= k < order.len() ==> !entry_le(keys[#[trigger] order[k]], keys[x]),
    ensures
        insert_index(order, keys, x) == order.insert(j, x),
    decreases order.len(),
{
    if order.len() == 0 {
        assert(order.insert(j, x) =~= seq![x]);
    } else if j == order.len() {
        assert(order.insert(j, x) =~= order.push(x));
    } else {
        let d = order.drop_last();
        if j < d.len() {
            assert(!entry_le(keys[d[d.len() - 1]], keys[x]));
        }
        lemma_insert_index_at(d, keys, x, j);
        assert(order.insert(j, x) =~= d.insert(j, x).push(order.last()));
    }
}

fn entry_le_exec(a: &(bool, Vec<char>), b: &(bool, Vec<char>)) -> (r: bool)
    ensures
        r == entry_le((a.0, a.1@), (b.0, b.1@)),
{
    (!a.0 && b.0) || (a.0 == b.0 && text_le_exec(&a.1, &b.1))
}

/// The views of listing keys.
pub open spec fn key_views(keys: Seq<(bool, Vec<char>)>) -> Seq<EntryKey> {
    keys.map_values(|k: (bool, Vec<char>)| (k.0, k.1@))
}

/// The order in which to list entries with the given keys (goes after the
/// directories, name in lowercase): directories first, then by key, ties in
/// their given order.
pub fn order_entries(keys: &Vec<(bool, Vec<char>)>) -> (r: Vec<usize>)
    ensures
        r@.map_values(|i: usize| i as int) == listing_order(key_views(keys@), keys@.len()),
{
    let ghost keys_view = key_views(keys@);
    let mut order: Vec<usize> = Vec::new();
    let mut n: usize = 0;
    assert(order@.map_values(|i: usize| i as int) =~= Seq::<int>::empty());
    while n < keys.len()
        invariant
            n <= keys@.len(),
            keys_view == key_views(keys@),
            forall|i: int| 0 <= i < order@.len() ==> (#[trigger] order@[i]) < n,
            order@.map_values(|i: usize| i as int) == listing_order(keys_view, n as nat),
        decreases keys@.len() - n,
    {
        let ghost sorted = order@.map_values(|i: usize| i as int);
        let mut j = order.len();
        while j > 0 && !entry_le_exec(&keys[order[j - 1]], &keys[n])
            invariant
                j <= order@.len(),
                n < keys@.len(),
                keys_view == key_views(keys@),
                forall|i: int| 0 <= i < order@.len() ==> (#[trigger] order@[i]) < n,
                sorted == order@.map_values(|i: usize| i as int),
                forall|q: int| j <= q < sorted.len() ==> !entry_le(keys_view[#[trigger] sorted[q]], keys_view[n as int]),
            decreases j,
        {
            j = j - 1;
        }
        proof {
            lemma_insert_index_at(sorted, keys_view, n as int, j as int);
        }
        order.insert(j, n);
        assert(order@.map_values(|i: usize| i as int) =~= sorted.insert(j as int, n as int));
        n = n + 1;
    }
    order
}

/// The order in which to list directory entries, given as (is a directory,
/// name): directories first, then by lowercase name, ties in their given order.
pub fn directory_listing_order(entries: &Vec<(bool, String)>) -> (r: Vec<usize>)
    ensures
        r@.map_values(|i: usize| i as int) == listing_order(entry_keys(entries@), entries@.len()),
{
    let mut keys: Vec<(bool, Vec<char>)> = Vec::new();
    let mut k: usize = 0;
    while k < entries.len()
        invariant
            k <= entries@.len(),
            key_views(keys@) == entry_keys(entries@).subrange(0, k as int),
        decreases entries@.len() - k,
    {
        let lower = lowercase(entries[k].1.as_str());
        let key = (!entries[k].0, chars_of(lower.as_str()));
        let ghost before = keys@;
        keys.push(key);
        assert(key_views(keys@) =~= key_views(before).push((key.0, key.1@)));
        assert(key_views(keys@) =~= entry_keys(entries@).subrange(0, k + 1));
        k = k + 1;
    }
    assert(entry_keys(entries@).subrange(0, k as int) =~= entry_keys(entries@));
    order_entries(&keys)
}

} // verus!
