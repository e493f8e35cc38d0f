//! Directory entries, snapshots of a directory's entries, and the measures of an opened file.
use vstd::prelude::*;
use vstd::seq_lib::to_multiset_insert;
use vstd::string::StringSliceAdditionalSpecFns;

use crate::app_error::AppError;
use crate::message_holder::paths::{
    count_slashes, join_path, join_spec, split_path, split_spec, strip_dir_prefix,
    strip_dir_prefix_spec,
};

verus! {

/// The largest file, in bytes, that is opened for viewing.
pub const MAX_FILE_SIZE: u64 = 10 * 1024 * 1024;

/// An entry as values.
pub struct EntryView {
    pub parent: Seq<char>,
    pub name: Seq<char>,
    pub is_file: bool,
}

/// One entry of a directory: the directory it lies in, its name, and whether it is a file.
#[derive(Debug)]
pub struct FileHolder {
    pub parent: String,
    pub file_name: String,
    pub is_file: bool,
}

impl View for FileHolder {
    type V = EntryView;

    open spec fn view(&self) -> EntryView {
        EntryView { parent: self.parent@, name: self.file_name@, is_file: self.is_file }
    }
}

impl Clone for FileHolder {
    fn clone(&self) -> (r: Self)
        ensures
            r == *self,
    {
        FileHolder {
            parent: self.parent.clone(),
            file_name: self.file_name.clone(),
            is_file: self.is_file,
        }
    }
}

/// The views of a list of entries.
pub open spec fn views(s: Seq<FileHolder>) -> Seq<EntryView> {
    s.map_values(|e: FileHolder| e@)
}

/// The full path of an entry.
pub open spec fn full_path_spec(e: EntryView) -> Seq<char> {
    join_spec(e.parent, e.name)
}

/// The entry that stands for path `p`, where `p` has a directory and a name.
pub open spec fn entry_of_path(p: Seq<char>, is_file: bool) -> Option<EntryView> {
    match split_spec(p) {
        Some((d, n)) => Some(EntryView { parent: d, name: n, is_file }),
        None => None,
    }
}

/// The path of `e` as written relative to the directory `base`: its name where it lies in
/// `base` itself, `sub/dir/name` where it lies deeper; none where it does not lie under `base`.
pub open spec fn relative_spec(e: EntryView, base: Seq<char>) -> Option<Seq<char>> {
    match strip_dir_prefix_spec(e.parent, base) {
        Some(rest) => Some(
            if rest.len() == 0 {
                e.name
            } else {
                rest + seq!['/'] + e.name
            },
        ),
        None => None,
    }
}

/// How many directories below `base` the entry lies: the separators in its relative path, or
/// zero where it has none.
pub open spec fn depth_spec(e: EntryView, base: Seq<char>) -> nat {
    match relative_spec(e, base) {
        Some(r) => count_slashes(r),
        None => 0,
    }
}

impl FileHolder {
    /// The entry for `path`: its last component is the name, the others make the directory.
    pub fn from_path(path: &str, is_file: bool) -> (r: Result<FileHolder, AppError>)
        ensures
            match r {
                Ok(e) => entry_of_path(path@, is_file) == Some(e@),
                Err(err) => entry_of_path(path@, is_file) is None && err is Path,
            },
    {
        match split_path(path) {
            Some((parent, file_name)) => Ok(FileHolder { parent, file_name, is_file }),
            None => Err(AppError::Path("path has no parent directory or no name".to_owned())),
        }
    }

    /// The directory and the name joined (the path before symbolic links are resolved).
    pub fn to_path(&self) -> (r: String)
        ensures
            r@ == full_path_spec(self@),
    {
        join_path(self.parent.as_str(), self.file_name.as_str())
    }

    /// The path of the entry relative to `ref_path`; a `Path` error where the entry's directory
    /// does not lie under `ref_path`.
    pub fn relative_to(&self, ref_path: &str) -> (r: Result<String, AppError>)
        ensures
            match r {
                Ok(s) => relative_spec(self@, ref_path@) == Some(s@),
                Err(err) => relative_spec(self@, ref_path@) is None && err is Path,
            },
    {
        match strip_dir_prefix(self.parent.as_str(), ref_path) {
            None => Err(AppError::Path("entry does not lie under the directory".to_owned())),
            Some(rest) => {
                if rest.unicode_len() == 0 {
                    Ok(self.file_name.clone())
                } else {
                    let mut s = rest;
                    s.append("/");
                    s.append(self.file_name.as_str());
                    proof {
                        reveal_strlit("/");
                        assert("/"@ =~= seq!['/']);
                    }
                    Ok(s)
                }
            },
        }
    }
}

/// `a` comes before `b` in the order of names: character by character, by code point, a proper
/// prefix first (the byte order of their UTF-8 text).
pub open spec fn name_lt(a: Seq<char>, b: Seq<char>) -> bool
    decreases a.len(),
{
    if a.len() == 0 {
        b.len() > 0
    } else if b.len() == 0 {
        false
    } else if a[0] != b[0] {
        (a[0] as u32) < (b[0] as u32)
    } else {
        name_lt(a.drop_first(), b.drop_first())
    }
}

/// The entries stand in the order of their names.
pub open spec fn sorted_by_name(s: Seq<EntryView>) -> bool {
    forall|i: int, j: int| 0 <= i < j < s.len() ==> !name_lt(s[j].name, s[i].name)
}

proof fn lemma_name_lt_trans(a: Seq<char>, b: Seq<char>, c: Seq<char>)
    requires
        name_lt(a, b),
        name_lt(b, c),
    ensures
        name_lt(a, c),
    decreases a.len(),
{
    if a.len() > 0 && b.len() > 0 && c.len() > 0 && a[0] == b[0] && b[0] == c[0] {
        lemma_name_lt_trans(a.drop_first(), b.drop_first(), c.drop_first());
    }
}

proof fn lemma_name_lt_irrefl(a: Seq<char>)
    ensures
        !name_lt(a, a),
    decreases a.len(),
{
    if a.len() > 0 {
        lemma_name_lt_irrefl(a.drop_first());
    }
}

proof fn lemma_insert_sorted(s: Seq<EntryView>, p: int, x: EntryView)
    requires
        sorted_by_name(s),
        0 <= p <= s.len(),
        forall|k: int| 0 <= k < p ==> !name_lt(x.name, s[k].name),
        p < s.len() ==> name_lt(x.name, s[p].name),
    ensures
        sorted_by_name(s.insert(p, x)),
{
    let r = s.insert(p, x);
    assert forall|a: int, b: int| 0 <= a < b < r.len() implies !name_lt(r[b].name, r[a].name) by {
        if a == p && b > p {
            lemma_name_lt_irrefl(s[p].name);
            if name_lt(s[b - 1].name, x.name) {
                lemma_name_lt_trans(s[b - 1].name, x.name, s[p].name);
            }
        }
    }
}

fn name_less(a: &str, b: &str) -> (r: bool)
    ensures
        r == name_lt(a@, b@),
{
    let n = a.unicode_len();
    let m = b.unicode_len();
    let mut i: usize = 0;
    assert(a@.subrange(0, n as int) =~= a@);
    assert(b@.subrange(0, m as int) =~= b@);
    while i < n && i < m
        invariant
            n == a@.len(),
            m == b@.len(),
            i <= n,
            i <= m,
            name_lt(a@, b@) == name_lt(a@.subrange(i as int, n as int), b@.subrange(i as int, m as int)),
        decreases n - i,
    {
        let x = a.get_char(i);
        let y = b.get_char(i);
        if x != y {
            return (x as u32) < (y as u32);
        }
        assert(a@.subrange(i as int, n as int).drop_first() =~= a@.subrange(i + 1, n as int));
        assert(b@.subrange(i as int, m as int).drop_first() =~= b@.subrange(i + 1, m as int));
        i = i + 1;
    }
    i == n && i < m
}

/// Sorts entries by name, keeping the order of equal names.
fn sort_by_name(entries: Vec<FileHolder>) -> (r: Vec<FileHolder>)
    ensures
        views(r@).to_multiset() == views(entries@).to_multiset(),
        sorted_by_name(views(r@)),
        forall|k: int| 0 <= k < r@.len() ==> entries@.contains(#[trigger] r@[k]),
{
    let mut r: Vec<FileHolder> = Vec::new();
    let mut i: usize = 0;
    assert(views(r@) =~= views(entries@.subrange(0, 0)));
    while i < entries.len()
        invariant
            i <= entries@.len(),
            views(r@).to_multiset() == views(entries@.subrange(0, i as int)).to_multiset(),
            sorted_by_name(views(r@)),
            forall|k: int| 0 <= k < r@.len() ==> entries@.contains(#[trigger] r@[k]),
        decreases entries@.len() - i,
    {
        let x = entries[i].clone();
        let mut p: usize = 0;
        while p < r.len() && !name_less(x.file_name.as_str(), r[p].file_name.as_str())
            invariant
                p <= r@.len(),
                forall|k: int| 0 <= k < p ==> !name_lt(x@.name, r@[k]@.name),
            decreases r@.len() - p,
        {
            p = p + 1;
        }
        let ghost before = r@;
        r.insert(p, x);
        proof {
            assert(views(r@) =~= views(before).insert(p as int, x@));
            to_multiset_insert(views(before), p as int, x@);
            assert(views(entries@.subrange(0, i + 1)) =~= views(entries@.subrange(0, i as int)).push(
                entries@[i as int]@,
            ));
            vstd::seq_lib::to_multiset_build(views(entries@.subrange(0, i as int)), entries@[i as int]@);
            lemma_insert_sorted(views(before), p as int, x@);
            assert forall|k: int| 0 <= k < r@.len() implies entries@.contains(#[trigger] r@[k]) by {
                if k < p {
                    assert(r@[k] == before[k]);
                } else if k == p {
                    assert(r@[k] == entries@[i as int]);
                } else {
                    assert(r@[k] == before[k - 1]);
                }
            }
        }
        i = i + 1;
    }
    assert(entries@.subrange(0, entries@.len() as int) =~= entries@);
    r
}

/// Relies on chrono::Local::now: the current time, as seconds since the Unix epoch.
#[verifier::external_body]
fn now_timestamp() -> (r: i64) {
    chrono::Local::now().timestamp()
}

/// A directory has a parent: it is neither empty nor the root.
pub open spec fn has_parent(p: Seq<char>) -> bool {
    p.len() > 0 && p != seq!['/']
}

/// The synthetic entry that leads from directory `p` to its parent.
pub open spec fn parent_shortcut(p: Seq<char>) -> EntryView {
    EntryView { parent: p, name: seq!['.', '.'], is_file: false }
}

/// The entries listed in directory `p`: each name with whether it is a file.
pub open spec fn listed(p: Seq<char>, names: Seq<(String, bool)>) -> Seq<EntryView> {
    Seq::new(names.len(), |i: int| EntryView { parent: p, name: names[i].0@, is_file: names[i].1 })
}

/// Every entry of snapshot `g` lies directly in directory `dir`.
pub open spec fn snapshot_in(g: FileGroupHolder, dir: Seq<char>) -> bool {
    forall|k: int| 0 <= k < g.child@.len() ==> (#[trigger] g.child@[k])@.parent == dir
}

/// A snapshot of a directory's entries, with when it was taken.
#[derive(Debug)]
pub struct FileGroupHolder {
    pub child: Vec<FileHolder>,
    /// Seconds since the Unix epoch.
    pub update_time: i64,
}

/// A copy of a list of entries.
pub fn copy_entries(s: &Vec<FileHolder>) -> (r: Vec<FileHolder>)
    ensures
        r@ == s@,
{
    let mut r: Vec<FileHolder> = Vec::new();
    let mut i: usize = 0;
    while i < s.len()
        invariant
            i <= s@.len(),
            r@ == s@.subrange(0, i as int),
        decreases s@.len() - i,
    {
        r.push(s[i].clone());
        assert(r@ =~= s@.subrange(0, i + 1));
        i = i + 1;
    }
    assert(s@.subrange(0, s@.len() as int) =~= s@);
    r
}

impl Clone for FileGroupHolder {
    fn clone(&self) -> (r: Self)
        ensures
            r.child@ == self.child@,
            r.update_time == self.update_time,
    {
        let child = copy_entries(&self.child);
        assert(child@ =~= self.child@);
        FileGroupHolder { child, update_time: self.update_time }
    }
}

impl FileGroupHolder {
    /// The snapshot of directory `path` whose entries are `names` (each with whether it is a
    /// file): the entries sorted by name, after a `..` entry where `adding_parent_shortcut` is
    /// set and `path` has a parent.
    pub fn new(path: String, adding_parent_shortcut: bool, names: Vec<(String, bool)>) -> (r:
        FileGroupHolder)
        ensures
            ({
                let head = if adding_parent_shortcut && has_parent(path@) {
                    seq![parent_shortcut(path@)]
                } else {
                    Seq::<EntryView>::empty()
                };
                let rest = views(r.child@).subrange(head.len() as int, r.child@.len() as int);
                &&& snapshot_in(r, path@)
                &&& views(r.child@).subrange(0, head.len() as int) == head
                &&& rest.to_multiset() == listed(path@, names@).to_multiset()
                &&& sorted_by_name(rest)
            }),
    {
        let mut entries: Vec<FileHolder> = Vec::new();
        let mut i: usize = 0;
        assert(views(entries@) =~= listed(path@, names@).subrange(0, 0));
        while i < names.len()
            invariant
                i <= names@.len(),
                views(entries@) == listed(path@, names@).subrange(0, i as int),
            decreases names@.len() - i,
        {
            let name = names[i].0.clone();
            let is_file = names[i].1;
            let ghost prev = entries@;
            entries.push(FileHolder { parent: path.clone(), file_name: name, is_file });
            assert(views(entries@) =~= views(prev).push(entries@[i as int]@));
            assert(views(entries@) =~= listed(path@, names@).subrange(0, i + 1));
            i = i + 1;
        }
        assert forall|t: int| 0 <= t < entries@.len() implies (#[trigger] entries@[t])@.parent == path@ by {
            assert(views(entries@)[t] == listed(path@, names@)[t]);
        }
        let sorted = sort_by_name(entries);
        let mut child: Vec<FileHolder> = Vec::new();
        let n = path.as_str().unicode_len();
        let has_parent_dir = n > 0 && !(n == 1 && path.as_str().get_char(0) == '/');
        proof {
            if n == 1 && path@[0] == '/' {
                assert(path@ =~= seq!['/']);
            }
        }
        if adding_parent_shortcut && has_parent_dir {
            proof {
                reveal_strlit("..");
                assert(".."@ =~= seq!['.', '.']);
            }
            child.push(FileHolder { parent: path.clone(), file_name: "..".to_owned(), is_file: false });
        }
        let ghost k = child@.len();
        let mut j: usize = 0;
        while j < sorted.len()
            invariant
                j <= sorted@.len(),
                child@.len() == k + j,
                k <= 1,
                k == 1 ==> child@[0]@ == parent_shortcut(path@),
                forall|t: int| 0 <= t < j ==> child@[k + t] == sorted@[t],
                forall|t: int| 0 <= t < sorted@.len() ==> entries@.contains(#[trigger] sorted@[t]),
                forall|t: int| 0 <= t < entries@.len() ==> (#[trigger] entries@[t])@.parent == path@,
            decreases sorted@.len() - j,
        {
            child.push(sorted[j].clone());
            j = j + 1;
        }
        proof {
            let rest = views(child@).subrange(k as int, child@.len() as int);
            assert(rest =~= views(sorted@));
            assert(listed(path@, names@).subrange(0, names@.len() as int) =~= listed(path@, names@));
            if k == 1 {
                assert(views(child@).subrange(0, 1) =~= seq![parent_shortcut(path@)]);
            } else {
                assert(views(child@).subrange(0, 0) =~= Seq::<EntryView>::empty());
            }
        }
        let r = FileGroupHolder { child, update_time: now_timestamp() };
        assert forall|t: int| 0 <= t < r.child@.len() implies (#[trigger] r.child@[t])@.parent == path@ by {
            if t >= k {
                assert(entries@.contains(sorted@[t - k]));
            }
        }
        r
    }

    /// Whether every entry lies directly in `dir`.
    pub fn lies_in(&self, dir: &str) -> (r: bool)
        ensures
            r == snapshot_in(*self, dir@),
    {
        let mut i: usize = 0;
        while i < self.child.len()
            invariant
                i <= self.child@.len(),
                forall|k: int| 0 <= k < i ==> (#[trigger] self.child@[k])@.parent == dir@,
            decreases self.child@.len() - i,
        {
            if !crate::message_holder::paths::str_eq(self.child[i].parent.as_str(), dir) {
                return false;
            }
            i = i + 1;
        }
        true
    }
}

/// The number of newline bytes in `b`.
pub open spec fn count_newlines(b: Seq<u8>) -> nat
    decreases b.len(),
{
    if b.len() == 0 {
        0
    } else {
        count_newlines(b.drop_last()) + if b.last() == 10u8 { 1nat } else { 0nat }
    }
}

/// The length in bytes of the last line of `b`: what follows its last newline.
pub open spec fn last_line_len(b: Seq<u8>) -> nat
    decreases b.len(),
{
    if b.len() == 0 {
        0
    } else if b.last() == 10u8 {
        0
    } else {
        last_line_len(b.drop_last()) + 1
    }
}

/// The length in bytes of the longest line of `b`, lines being split at each newline.
pub open spec fn longest_line_len(b: Seq<u8>) -> nat
    decreases b.len(),
{
    if b.len() == 0 {
        0
    } else {
        let m = longest_line_len(b.drop_last());
        let l = last_line_len(b);
        if m >= l {
            m
        } else {
            l
        }
    }
}

/// The measures of an opened file's text.
#[derive(Debug, Clone, Copy, PartialEq, Eq, Structural)]
pub struct FileTextInfo {
    /// The number of lines, split at each newline (one more than the newlines).
    pub n_rows: usize,
    /// The length in bytes of the longest line.
    pub max_line_length: usize,
}

impl FileTextInfo {
    /// The measures of `text`.
    pub fn new(text: &str) -> (r: FileTextInfo)
        requires
            text.spec_bytes().len() < usize::MAX,
        ensures
            r.n_rows == count_newlines(text.spec_bytes()) + 1,
            r.max_line_length == longest_line_len(text.spec_bytes()),
    {
        let (n_rows, max_line_length) = Self::get_string_dimensions(text);
        FileTextInfo { n_rows, max_line_length }
    }

    fn get_string_dimensions(text: &str) -> (r: (usize, usize))
        requires
            text.spec_bytes().len() < usize::MAX,
        ensures
            r.0 == count_newlines(text.spec_bytes()) + 1,
            r.1 == longest_line_len(text.spec_bytes()),
    {
        let b = text.as_bytes();
        let n = b.len();
        let mut i: usize = 0;
        let mut rows: usize = 1;
        let mut cur: usize = 0;
        let mut best: usize = 0;
        while i < n
            invariant
                n == b@.len(),
                b@ == text.spec_bytes(),
                n < usize::MAX,
                i <= n,
                rows == count_newlines(b@.subrange(0, i as int)) + 1,
                cur == last_line_len(b@.subrange(0, i as int)),
                best == longest_line_len(b@.subrange(0, i as int)),
                rows <= i + 1,
                cur <= i,
                best <= i,
            decreases n - i,
        {
            assert(b@.subrange(0, i + 1).drop_last() =~= b@.subrange(0, i as int));
            if b[i] == 10u8 {
                rows = rows + 1;
                cur = 0;
            } else {
                cur = cur + 1;
            }
            if cur > best {
                best = cur;
            }
            i = i + 1;
        }
        assert(b@.subrange(0, n as int) =~= b@);
        (rows, best)
    }
}

/// Whether a file of `size` bytes may be opened: at most `MAX_FILE_SIZE`; otherwise a `Path`
/// error.
pub fn check_file_size(size: u64) -> (r: Result<(), AppError>)
    ensures
        r is Ok <==> size <= MAX_FILE_SIZE,
        r matches Err(e) ==> e is Path,
{
    if size <= MAX_FILE_SIZE {
        Ok(())
    } else {
        Err(AppError::Path("file is larger than the viewing limit".to_owned()))
    }
}

} // verus!
