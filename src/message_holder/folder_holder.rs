//! The navigation engine: the directory cache, the current directory and its (possibly
//! flattened) entries, the filter, and the selection the filter makes.
use vstd::prelude::*;

use crate::app_error::AppError;
use crate::message_holder::cache::{
    cache_contains, cache_entries, cache_capacity, cache_keys, cache_new, cache_peek, cache_pop,
    cache_promote, cache_put, key_index, keys_of, lemma_key_index, lemma_ops_elements,
    lemma_ops_keep_unique,
    promoted, put_spec, unique_keys, without_key, DirectoryCache,
};
use crate::message_holder::file_helper::{
    copy_entries, depth_spec, entry_of_path, full_path_spec, relative_spec, snapshot_in, views, EntryView,
    FileGroupHolder, FileHolder,
};
use crate::message_holder::fuzzy::is_fuzzy_match;
use crate::message_holder::paths::{
    components, count_separators, count_slashes, is_abs, is_simple_name, join_spec,
    lemma_strip_self, render, lemma_count_slashes_append,
    lemma_count_slashes_none, lemma_split_join, lemma_strip_join,
};
use crate::state_holder::{StateHolder, ViewMode};

verus! {

/// How many directory snapshots the cache holds.
pub const DEFAULT_CACHE_SIZE: usize = 100;

/// The engine as values.
pub struct FolderView {
    /// The cached (path, snapshot) pairs, the most recently used first.
    pub cache: Seq<(Seq<char>, FileGroupHolder)>,
    pub capacity: nat,
    /// The filter.
    pub input: Seq<char>,
    /// What the filter selects.
    pub selected: Seq<EntryView>,
    pub current_directory: Seq<char>,
    /// The entries of the current directory, flattened `expand_level` times.
    pub current: Seq<EntryView>,
    pub expand_level: nat,
}

/// The engine.
#[derive(Debug)]
pub struct FolderHolder {
    cache_holder: DirectoryCache,
    pub input: String,
    pub selected_path_holder: Vec<FileHolder>,
    pub current_directory: String,
    current_holder: Vec<FileHolder>,
    expand_level: usize,
}

impl View for FolderHolder {
    type V = FolderView;

    closed spec fn view(&self) -> FolderView {
        FolderView {
            cache: cache_entries(self.cache_holder),
            capacity: cache_capacity(self.cache_holder),
            input: self.input@,
            selected: views(self.selected_path_holder@),
            current_directory: self.current_directory@,
            current: views(self.current_holder@),
            expand_level: self.expand_level as nat,
        }
    }
}

/// The entries that the filter `f` selects in history mode: one for each cached path, most
/// recently used first, that `f` matches and that has a directory and a name.
pub open spec fn history_selection(keys: Seq<Seq<char>>, f: Seq<char>) -> Seq<EntryView>
    decreases keys.len(),
{
    if keys.len() == 0 {
        Seq::empty()
    } else {
        let rest = history_selection(keys.drop_last(), f);
        let k = keys.last();
        match entry_of_path(k, false) {
            Some(e) => if is_fuzzy_match(k, f) {
                rest.push(e)
            } else {
                rest
            },
            None => rest,
        }
    }
}

/// The entries that the filter `f` selects in browse mode: those of `items`, in order, whose
/// path relative to `dir` the filter matches.
pub open spec fn browse_selection(items: Seq<EntryView>, dir: Seq<char>, f: Seq<char>) -> Seq<EntryView>
    decreases items.len(),
{
    if items.len() == 0 {
        Seq::empty()
    } else {
        let rest = browse_selection(items.drop_last(), dir, f);
        let e = items.last();
        match relative_spec(e, dir) {
            Some(r) => if is_fuzzy_match(r, f) {
                rest.push(e)
            } else {
                rest
            },
            None => rest,
        }
    }
}

/// What the filter selects: from the cached paths in history mode, from the current entries
/// otherwise.
pub open spec fn selection(v: FolderView, history: bool) -> Seq<EntryView> {
    if history {
        history_selection(keys_of(v.cache), v.input)
    } else {
        browse_selection(v.current, v.current_directory, v.input)
    }
}

/// `v` with its filter replaced where a new one is given.
pub open spec fn with_input(v: FolderView, input: Option<String>) -> FolderView {
    match input {
        Some(s) => FolderView { input: s@, ..v },
        None => v,
    }
}

/// `v` with its selection recomputed.
pub open spec fn reselected(v: FolderView, history: bool) -> FolderView {
    FolderView { selected: selection(v, history), ..v }
}

/// Whether the state machine shows the history.
pub open spec fn in_history(state: &StateHolder) -> bool {
    state@.view == ViewMode::HistoryFolderView
}

/// The engine after entering `path`: the cached snapshot of `path` where there is one (then
/// used most recently), else `listing`, put in the cache; none where neither is there. The filter
/// is cleared, the flattening undone, and the selection recomputed.
pub open spec fn enter_result(
    v: FolderView,
    path: Seq<char>,
    listing: Option<FileGroupHolder>,
    history: bool,
) -> Option<FolderView> {
    let i = key_index(v.cache, path);
    if i >= 0 {
        Some(
            reselected(
                FolderView {
                    cache: promoted(v.cache, path),
                    current_directory: path,
                    current: views(v.cache[i].1.child@),
                    input: Seq::empty(),
                    expand_level: 0,
                    ..v
                },
                history,
            ),
        )
    } else {
        match listing {
            Some(l) => Some(
                reselected(
                    FolderView {
                        cache: put_spec(v.cache, v.capacity, path, l),
                        current_directory: path,
                        current: views(l.child@),
                        input: Seq::empty(),
                        expand_level: 0,
                        ..v
                    },
                    history,
                ),
            ),
            None => None,
        }
    }
}

/// The engine after its current directory is read again as `holder`: the entries replaced and
/// the selection recomputed, then the snapshot put in the cache.
pub open spec fn refresh_result(v: FolderView, holder: FileGroupHolder, history: bool) -> FolderView {
    FolderView {
        cache: put_spec(v.cache, v.capacity, v.current_directory, holder),
        ..reselected(FolderView { current: views(holder.child@), ..v }, history)
    }
}

/// What an entry of the current directory turned out to be on disk when resolved for expansion.
#[derive(Debug)]
pub enum Expansion {
    /// The path no longer resolves: the entry leaves the view.
    Missing,
    /// A directory: the entry is replaced by the entries of this snapshot.
    Directory(FileGroupHolder),
    /// Anything else, at its resolved path: the entry stays, as the entry of that path.
    Other { path: String, is_file: bool },
}

/// The entries that one resolved entry contributes to the flattened view.
pub open spec fn expansion_items(x: Expansion) -> Seq<EntryView> {
    match x {
        Expansion::Missing => Seq::empty(),
        Expansion::Directory(g) => views(g.child@),
        Expansion::Other { path, is_file } => match entry_of_path(path@, is_file) {
            Some(e) => seq![e],
            None => Seq::empty(),
        },
    }
}

/// The entries that resolved entries contribute, in order.
pub open spec fn expanded(xs: Seq<Expansion>) -> Seq<EntryView>
    decreases xs.len(),
{
    if xs.len() == 0 {
        Seq::empty()
    } else {
        expanded(xs.drop_last()) + expansion_items(xs.last())
    }
}

/// One more, short of the largest `usize`.
pub open spec fn saturating_inc(n: nat) -> nat {
    if n < usize::MAX {
        n + 1
    } else {
        n
    }
}

/// The engine after one more flattening, where `xs` resolves each current entry after the first
/// (which stays): none where there is no first entry or `xs` does not match the rest.
pub open spec fn expand_result(v: FolderView, xs: Seq<Expansion>, history: bool) -> Option<FolderView> {
    if v.current.len() == 0 || xs.len() + 1 != v.current.len() {
        None
    } else {
        Some(
            reselected(
                FolderView {
                    current: seq![v.current[0]] + expanded(xs),
                    expand_level: saturating_inc(v.expand_level),
                    ..v
                },
                history,
            ),
        )
    }
}

/// The entry that `e` folds back to at flattening `level` below `dir`: the entry of its
/// directory where it lies deeper than `level`, else itself.
pub open spec fn folded(e: EntryView, dir: Seq<char>, level: nat) -> EntryView {
    if depth_spec(e, dir) > level {
        match entry_of_path(e.parent, false) {
            Some(p) => p,
            None => e,
        }
    } else {
        e
    }
}

/// Some entry of `d` has the full path `p`.
pub open spec fn path_listed(d: Seq<EntryView>, p: Seq<char>) -> bool {
    exists|j: int| 0 <= j < d.len() && full_path_spec(d[j]) == p
}

/// `s` with each entry whose full path an earlier one has left out.
pub open spec fn dedup_paths(s: Seq<EntryView>) -> Seq<EntryView>
    decreases s.len(),
{
    if s.len() == 0 {
        Seq::empty()
    } else {
        let d = dedup_paths(s.drop_last());
        if path_listed(d, full_path_spec(s.last())) {
            d
        } else {
            d.push(s.last())
        }
    }
}

/// `items` folded back to flattening `level` below `dir`, each path once.
pub open spec fn refolded(items: Seq<EntryView>, dir: Seq<char>, level: nat) -> Seq<EntryView> {
    dedup_paths(items.map_values(|e: EntryView| folded(e, dir, level)))
}

/// The engine after one flattening is undone: nothing happens at level zero; otherwise the
/// entries after the first are folded back one level and the selection recomputed.
pub open spec fn collapse_result(v: FolderView, history: bool) -> FolderView {
    if v.expand_level == 0 {
        v
    } else {
        let level = (v.expand_level - 1) as nat;
        let current = if v.current.len() == 0 {
            v.current
        } else {
            seq![v.current[0]] + refolded(v.current.drop_first(), v.current_directory, level)
        };
        reselected(FolderView { current, expand_level: level, ..v }, history)
    }
}

/// Recomputing the selection without a new filter, twice in a row, leaves the engine as once:
/// in particular the second `update(None)` selects the same entries as the first.
pub proof fn lemma_update_idempotent(v: FolderView, history: bool)
    ensures
        reselected(with_input(reselected(with_input(v, None), history), None), history) == reselected(
            with_input(v, None),
            history,
        ),
{
}

/// A path other than `b` keeps its snapshot when `b` is used or put: where it is still cached
/// afterwards, it was cached before with the same snapshot.
pub proof fn lemma_other_key_kept(
    e: Seq<(Seq<char>, FileGroupHolder)>,
    cap: nat,
    b: Seq<char>,
    vb: FileGroupHolder,
    a: Seq<char>,
)
    requires
        unique_keys(e),
        e.len() <= cap,
        cap > 0,
        a != b,
    ensures
        key_index(promoted(e, b), a) >= 0 ==> key_index(e, a) >= 0 && promoted(e, b)[key_index(
            promoted(e, b),
            a,
        )].1 == e[key_index(e, a)].1,
        key_index(put_spec(e, cap, b, vb), a) >= 0 ==> key_index(e, a) >= 0 && put_spec(
            e,
            cap,
            b,
            vb,
        )[key_index(put_spec(e, cap, b, vb), a)].1 == e[key_index(e, a)].1,
{
    lemma_ops_keep_unique(e, cap, b, vb);
    lemma_key_index(e, b);
    lemma_key_index(e, a);
    let i = key_index(e, b);
    let rs = seq![promoted(e, b), put_spec(e, cap, b, vb)];
    assert forall|t: int| 0 <= t < 2 && key_index(#[trigger] rs[t], a) >= 0 implies key_index(e, a) >= 0
        && rs[t][key_index(rs[t], a)].1 == e[key_index(e, a)].1 by {
        let r = rs[t];
        lemma_key_index(r, a);
        let j = key_index(r, a);
        if t == 0 && i < 0 {
            assert(r == e);
        } else {
            assert(r[0].0 == b);
            assert(j >= 1);
            let j2 = if i >= 0 && j - 1 >= i { j } else { j - 1 };
            assert(r[j] == e[j2]);
        }
    }
    assert(rs[0] == promoted(e, b));
    assert(rs[1] == put_spec(e, cap, b, vb));
}

/// Entering `a`, then `b`, then `a` again shows the snapshot of `a` that the first entry cached,
/// whatever listing the third entry is offered, as long as `a` is still cached: it is not read
/// again.
pub proof fn lemma_enter_round_trip(
    v0: FolderView,
    a: Seq<char>,
    b: Seq<char>,
    la: Option<FileGroupHolder>,
    lb: Option<FileGroupHolder>,
    la2: Option<FileGroupHolder>,
    history: bool,
)
    requires
        unique_keys(v0.cache),
        v0.cache.len() <= v0.capacity,
        v0.capacity > 0,
        enter_result(v0, a, la, history) is Some,
        enter_result(enter_result(v0, a, la, history)->0, b, lb, history) is Some,
        key_index((enter_result(enter_result(v0, a, la, history)->0, b, lb, history)->0).cache, a)
            >= 0,
    ensures
        ({
            let v1 = enter_result(v0, a, la, history)->0;
            let v2 = enter_result(v1, b, lb, history)->0;
            &&& v1.cache[0].0 == a
            &&& enter_result(v2, a, la2, history) is Some
            &&& (enter_result(v2, a, la2, history)->0).current == views(v1.cache[0].1.child@)
            &&& (enter_result(v2, a, la2, history)->0).current_directory == a
        }),
{
    let v1 = enter_result(v0, a, la, history)->0;
    let v2 = enter_result(v1, b, lb, history)->0;
    lemma_key_index(v0.cache, a);
    lemma_ops_keep_unique(v0.cache, v0.capacity, a, arbitrary());
    if key_index(v0.cache, a) >= 0 {
        lemma_ops_keep_unique(v0.cache, v0.capacity, a, v0.cache[key_index(v0.cache, a)].1);
    } else {
        lemma_ops_keep_unique(v0.cache, v0.capacity, a, la->0);
    }
    assert(v1.cache[0].0 == a);
    lemma_key_index(v1.cache, a);
    assert(key_index(v1.cache, a) == 0);
    lemma_key_index(v1.cache, b);
    if b == a {
        assert(v2.cache[0] == v1.cache[0]);
        lemma_ops_keep_unique(v1.cache, v1.capacity, b, arbitrary());
        lemma_key_index(v2.cache, a);
    } else {
        if key_index(v1.cache, b) >= 0 {
            lemma_other_key_kept(v1.cache, v1.capacity, b, arbitrary(), a);
        } else {
            lemma_other_key_kept(v1.cache, v1.capacity, b, lb->0, a);
        }
    }
}

/// The resolved entry `x` stands for `e`, an entry of `dir`, in place: a file at `e`'s own
/// path, or the directory `e` whose snapshot is not empty and whose entries lie directly in it
/// under simple names.
pub open spec fn resolves_in_place(x: Expansion, e: EntryView, dir: Seq<char>) -> bool {
    match x {
        Expansion::Missing => false,
        Expansion::Other { path, is_file } => entry_of_path(path@, is_file) == Some(e),
        Expansion::Directory(g) => {
            &&& !e.is_file
            &&& g.child@.len() > 0
            &&& forall|k: int|
                0 <= k < g.child@.len() ==> (#[trigger] g.child@[k])@.parent == join_spec(dir, e.name)
                    && is_simple_name(g.child@[k]@.name)
        },
    }
}

proof fn lemma_folded_in_place(dir: Seq<char>, e: EntryView, c: EntryView)
    requires
        dir.len() > 0,
        dir.last() != '/',
        render(is_abs(dir), components(dir)) == dir,
        e.parent == dir,
        is_simple_name(e.name),
        c.parent == join_spec(dir, e.name) && is_simple_name(c.name) && !e.is_file || c == e,
    ensures
        folded(c, dir, 0) == e,
{
    lemma_strip_join(dir, e.name);
    if c == e {
        lemma_count_slashes_none(e.name);
    } else {
        lemma_strip_join(dir, e.name);
        lemma_count_slashes_append(e.name + seq!['/'], c.name);
        lemma_count_slashes_append(e.name, seq!['/']);
        lemma_count_slashes_none(e.name);
        lemma_count_slashes_none(c.name);
        assert(count_slashes(seq!['/']) == 1) by {
            reveal_with_fuel(count_slashes, 2);
            assert(seq!['/'].drop_last() =~= Seq::<char>::empty());
        }
        lemma_split_join(dir, e.name);
    }
}

/// Some resolved entry of `xs` contributes `c`.
pub open spec fn from_some_item(xs: Seq<Expansion>, c: EntryView) -> bool {
    exists|i: int| 0 <= i < xs.len() && #[trigger] expansion_items(xs[i]).contains(c)
}

proof fn lemma_expanded_members(xs: Seq<Expansion>)
    ensures
        forall|k: int| 0 <= k < expanded(xs).len() ==> from_some_item(xs, #[trigger] expanded(xs)[k]),
        forall|i: int, m: int|
            0 <= i < xs.len() && 0 <= m < expansion_items(xs[i]).len() ==> expanded(xs).contains(
                #[trigger] expansion_items(xs[i])[m],
            ),
    decreases xs.len(),
{
    if xs.len() > 0 {
        let p = xs.drop_last();
        lemma_expanded_members(p);
        let a = expanded(p);
        let b = expansion_items(xs.last());
        assert forall|k: int| 0 <= k < expanded(xs).len() implies from_some_item(xs, #[trigger] expanded(xs)[k]) by {
            if k < a.len() {
                assert(expanded(xs)[k] == a[k]);
                assert(from_some_item(p, a[k]));
                let i = choose|i: int| 0 <= i < p.len() && #[trigger] expansion_items(p[i]).contains(a[k]);
                assert(xs[i] == p[i]);
                assert(expansion_items(xs[i]).contains(expanded(xs)[k]));
            } else {
                assert(expanded(xs)[k] == b[k - a.len()]);
                assert(b.contains(expanded(xs)[k]));
                assert(expansion_items(xs[xs.len() - 1]) == b);
            }
        }
        assert forall|i: int, m: int|
            0 <= i < xs.len() && 0 <= m < expansion_items(xs[i]).len() implies expanded(xs).contains(
            #[trigger] expansion_items(xs[i])[m],
        ) by {
            if i < p.len() {
                assert(xs[i] == p[i]);
                assert(a.contains(expansion_items(p[i])[m]));
                let k = choose|k: int| 0 <= k < a.len() && a[k] == expansion_items(p[i])[m];
                assert(expanded(xs)[k] == a[k]);
            } else {
                assert(expanded(xs)[a.len() + m] == b[m]);
            }
        }
    } else {
        assert(expanded(xs).len() == 0);
    }
}

proof fn lemma_dedup_set(s: Seq<EntryView>)
    requires
        forall|a: int, b: int|
            0 <= a < s.len() && 0 <= b < s.len() && full_path_spec(s[a]) == full_path_spec(s[b])
                ==> s[a] == s[b],
    ensures
        dedup_paths(s).to_set() == s.to_set(),
        forall|k: int| 0 <= k < dedup_paths(s).len() ==> s.contains(#[trigger] dedup_paths(s)[k]),
    decreases s.len(),
{
    if s.len() > 0 {
        let p = s.drop_last();
        let x = s.last();
        assert forall|a: int, b: int|
            0 <= a < p.len() && 0 <= b < p.len() && full_path_spec(p[a]) == full_path_spec(p[b])
                implies p[a] == p[b] by {
            assert(p[a] == s[a] && p[b] == s[b]);
        }
        lemma_dedup_set(p);
        let d = dedup_paths(p);
        assert forall|k: int| 0 <= k < d.len() implies s.contains(#[trigger] d[k]) by {
            let j = choose|j: int| 0 <= j < p.len() && p[j] == d[k];
            assert(s[j] == p[j]);
        }
        assert(s.contains(x)) by {
            assert(s[s.len() - 1] == x);
        }
        if path_listed(d, full_path_spec(x)) {
            let j = choose|j: int| 0 <= j < d.len() && full_path_spec(d[j]) == full_path_spec(x);
            assert(s.contains(d[j]));
            let a = choose|a: int| 0 <= a < s.len() && s[a] == d[j];
            assert(d[j] == x);
            assert(dedup_paths(s).to_set() =~= s.to_set()) by {
                assert forall|y: EntryView| s.contains(y) implies d.contains(y) by {
                    let a = choose|a: int| 0 <= a < s.len() && s[a] == y;
                    if a < p.len() {
                        assert(p[a] == y);
                        assert(p.to_set().contains(y));
                    } else {
                        assert(d[j] == y);
                    }
                }
                assert forall|y: EntryView| d.contains(y) implies s.contains(y) by {
                    let k = choose|k: int| 0 <= k < d.len() && d[k] == y;
                }
            }
        } else {
            let r = d.push(x);
            assert(dedup_paths(s) == r);
            assert forall|k: int| 0 <= k < r.len() implies s.contains(#[trigger] r[k]) by {
                if k < d.len() {
                    assert(r[k] == d[k]);
                }
            }
            assert(r.to_set() =~= s.to_set()) by {
                assert forall|y: EntryView| s.contains(y) implies r.contains(y) by {
                    let a = choose|a: int| 0 <= a < s.len() && s[a] == y;
                    if a < p.len() {
                        assert(p[a] == y);
                        assert(p.to_set().contains(y));
                        assert(d.contains(y));
                        let k = choose|k: int| 0 <= k < d.len() && d[k] == y;
                        assert(r[k] == y);
                    } else {
                        assert(r[d.len() as int] == y);
                    }
                }
                assert forall|y: EntryView| r.contains(y) implies s.contains(y) by {
                    let k = choose|k: int| 0 <= k < r.len() && r[k] == y;
                }
            }
        }
    }
}

/// One `expand` then one `collapse`, from level zero, gives back the entries that were current
/// (as a set, the first one staying first), when every entry after the first lies directly in
/// the current directory (written in its normal form) under its own simple name, and resolves in place: a file to its own
/// path, a directory to a snapshot that is not empty and whose entries lie directly in it.
pub proof fn lemma_expand_collapse_inverse(v: FolderView, xs: Seq<Expansion>, history: bool)
    requires
        v.expand_level == 0,
        v.current.len() > 0,
        xs.len() + 1 == v.current.len(),
        v.current_directory.len() > 0,
        v.current_directory.last() != '/',
        render(is_abs(v.current_directory), components(v.current_directory)) == v.current_directory,
        forall|i: int|
            1 <= i < v.current.len() ==> (#[trigger] v.current[i]).parent == v.current_directory
                && is_simple_name(v.current[i].name),
        forall|i: int, j: int|
            1 <= i < j < v.current.len() ==> (#[trigger] v.current[i]).name != (#[trigger] v.current[j]).name,
        forall|i: int| 0 <= i < xs.len() ==> resolves_in_place(#[trigger] xs[i], v.current[i + 1], v.current_directory),
    ensures
        expand_result(v, xs, history) is Some,
        ({
            let v2 = collapse_result(expand_result(v, xs, history)->0, history);
            &&& v2.expand_level == 0
            &&& v2.current_directory == v.current_directory
            &&& v2.current.len() > 0
            &&& v2.current[0] == v.current[0]
            &&& v2.current.drop_first().to_set() == v.current.drop_first().to_set()
        }),
{
    let dir = v.current_directory;
    let t = v.current.drop_first();
    let e = expanded(xs);
    let f = e.map_values(|c: EntryView| folded(c, dir, 0));
    let v1 = expand_result(v, xs, history)->0;
    assert(v1.current == seq![v.current[0]] + e);
    assert(v1.current.drop_first() =~= e);
    lemma_expanded_members(xs);
    assert forall|k: int| 0 <= k < f.len() implies t.contains(#[trigger] f[k]) by {
        assert(from_some_item(xs, e[k]));
        let i = choose|i: int| 0 <= i < xs.len() && #[trigger] expansion_items(xs[i]).contains(e[k]);
        let m = choose|m: int| 0 <= m < expansion_items(xs[i]).len() && expansion_items(xs[i])[m] == e[k];
        assert(t[i] == v.current[i + 1]);
        let c = e[k];
        match xs[i] {
            Expansion::Directory(g) => {
                assert(c == g.child@[m]@);
            },
            _ => {},
        }
        lemma_folded_in_place(dir, t[i], c);
    }
    assert forall|i: int| 0 <= i < t.len() implies f.contains(#[trigger] t[i]) by {
        assert(t[i] == v.current[i + 1]);
        let c = expansion_items(xs[i])[0];
        match xs[i] {
            Expansion::Directory(g) => {
                assert(c == g.child@[0]@);
            },
            _ => {},
        }
        assert(e.contains(c));
        let k = choose|k: int| 0 <= k < e.len() && e[k] == c;
        lemma_folded_in_place(dir, t[i], c);
        assert(f[k] == t[i]);
    }
    assert forall|a: int, b: int|
        0 <= a < f.len() && 0 <= b < f.len() && full_path_spec(f[a]) == full_path_spec(f[b]) implies f[a] == f[b] by {
        assert(t.contains(f[a]));
        assert(t.contains(f[b]));
        let i = choose|i: int| 0 <= i < t.len() && t[i] == f[a];
        let j = choose|j: int| 0 <= j < t.len() && t[j] == f[b];
        assert(t[i] == v.current[i + 1]);
        assert(t[j] == v.current[j + 1]);
        if i != j {
            let n1 = t[i].name;
            let n2 = t[j].name;
            assert(full_path_spec(t[i]) == dir + seq!['/'] + n1);
            assert(full_path_spec(t[j]) == dir + seq!['/'] + n2);
            lemma_split_join(dir, n1);
            lemma_split_join(dir, n2);
            if i < j {
                assert(v.current[i + 1].name != v.current[j + 1].name);
            } else {
                assert(v.current[j + 1].name != v.current[i + 1].name);
            }
        }
    }
    lemma_dedup_set(f);
    assert(f.to_set() =~= t.to_set()) by {
        assert forall|y: EntryView| f.contains(y) implies t.contains(y) by {
            let k = choose|k: int| 0 <= k < f.len() && f[k] == y;
        }
        assert forall|y: EntryView| t.contains(y) implies f.contains(y) by {
            let i = choose|i: int| 0 <= i < t.len() && t[i] == y;
        }
    }
    let v2 = collapse_result(v1, history);
    assert(v2.current == seq![v1.current[0]] + refolded(e, dir, 0));
    assert(v2.current.drop_first() =~= dedup_paths(f));
}

/// Every cached snapshot's entries lie directly in the directory it is cached under.
pub open spec fn cached_in_place(e: Seq<(Seq<char>, FileGroupHolder)>) -> bool {
    forall|i: int| 0 <= i < e.len() ==> snapshot_in((#[trigger] e[i]).1, e[i].0)
}

proof fn lemma_cached_in_place_kept(
    e: Seq<(Seq<char>, FileGroupHolder)>,
    cap: nat,
    k: Seq<char>,
    v: FileGroupHolder,
)
    requires
        cached_in_place(e),
        cap > 0,
    ensures
        snapshot_in(v, k) ==> cached_in_place(put_spec(e, cap, k, v)),
        cached_in_place(promoted(e, k)),
        cached_in_place(without_key(e, k)),
{
    lemma_ops_elements(e, cap, k, v);
    let rs = seq![promoted(e, k), without_key(e, k)];
    assert forall|t: int, j: int| 0 <= t < 2 && 0 <= j < rs[t].len() implies snapshot_in(
        (#[trigger] rs[t][j]).1,
        rs[t][j].0,
    ) by {
        assert(e.contains(rs[t][j]));
    }
    assert(rs[0] == promoted(e, k));
    assert(rs[1] == without_key(e, k));
    assert(cached_in_place(promoted(e, k))) by {
        assert forall|j: int| 0 <= j < promoted(e, k).len() implies snapshot_in(
            (#[trigger] promoted(e, k)[j]).1,
            promoted(e, k)[j].0,
        ) by {
            assert(rs[0][j] == promoted(e, k)[j]);
        }
    }
    assert(cached_in_place(without_key(e, k))) by {
        assert forall|j: int| 0 <= j < without_key(e, k).len() implies snapshot_in(
            (#[trigger] without_key(e, k)[j]).1,
            without_key(e, k)[j].0,
        ) by {
            assert(rs[1][j] == without_key(e, k)[j]);
        }
    }
    if snapshot_in(v, k) {
        let r = put_spec(e, cap, k, v);
        assert forall|j: int| 0 <= j < r.len() implies snapshot_in((#[trigger] r[j]).1, r[j].0) by {
            if r[j] != (k, v) {
                assert(e.contains(r[j]));
            }
        }
    }
}

/// With an empty filter, browse mode selects every entry that lies directly in `dir`.
proof fn lemma_browse_selects_all(items: Seq<EntryView>, dir: Seq<char>)
    requires
        forall|k: int| 0 <= k < items.len() ==> (#[trigger] items[k]).parent == dir,
    ensures
        browse_selection(items, dir, Seq::empty()) == items,
    decreases items.len(),
{
    if items.len() > 0 {
        lemma_browse_selects_all(items.drop_last(), dir);
        lemma_strip_self(dir);
        assert(items.drop_last().push(items.last()) =~= items);
    }
}

impl FolderHolder {
    /// The cache holds each path once and no more pairs than its capacity, which is positive.
    pub open spec fn wf(&self) -> bool {
        &&& unique_keys(self@.cache)
        &&& self@.cache.len() <= self@.capacity
        &&& self@.capacity > 0
        &&& cached_in_place(self@.cache)
    }

    /// The engine in `current_directory`, whose snapshot `holder` is cached and whose entries
    /// are all selected.
    pub fn new(current_directory: String, holder: FileGroupHolder) -> (r: FolderHolder)
        requires
            snapshot_in(holder, current_directory@),
        ensures
            r.wf(),
            r@ == (FolderView {
                cache: seq![(current_directory@, holder)],
                capacity: DEFAULT_CACHE_SIZE as nat,
                input: Seq::empty(),
                selected: views(holder.child@),
                current_directory: current_directory@,
                current: views(holder.child@),
                expand_level: 0,
            }),
    {
        let current_holder = copy_entries(&holder.child);
        let selected_path_holder = copy_entries(&holder.child);
        let mut cache_holder = cache_new(DEFAULT_CACHE_SIZE);
        let key = current_directory.clone();
        cache_put(&mut cache_holder, key, holder);
        proof {
            let e = Seq::<(Seq<char>, FileGroupHolder)>::empty();
            lemma_key_index(e, current_directory@);
            lemma_cached_in_place_kept(e, DEFAULT_CACHE_SIZE as nat, current_directory@, holder);
            assert(put_spec(e, DEFAULT_CACHE_SIZE as nat, current_directory@, holder) =~= seq![(current_directory@, holder)]);
        }
        FolderHolder {
            cache_holder,
            input: String::new(),
            selected_path_holder,
            current_directory,
            current_holder,
            expand_level: 0,
        }
    }

    /// Whether the filter selects `name`.
    pub fn should_select(&self, name: &str) -> (r: bool)
        ensures
            r == is_fuzzy_match(name@, self@.input),
            r == crate::message_holder::fuzzy::is_subsequence_ci(name@, self@.input),
    {
        crate::message_holder::fuzzy::matches(name, self.input.as_str())
    }

    /// Replaces the filter where `input` gives one, and recomputes the selection: from the
    /// cached paths in history mode, from the current entries otherwise.
    pub fn update(&mut self, state: &StateHolder, input: Option<String>)
        requires
            old(self).wf(),
        ensures
            final(self).wf(),
            final(self)@ == reselected(with_input(old(self)@, input), in_history(state)),
    {
        if let Some(value) = input {
            self.input = value;
        }
        let ghost v = self@;
        if state.is_history_search() {
            let keys = cache_keys(&self.cache_holder);
            let ghost ks = keys_of(cache_entries(self.cache_holder));
            let mut sel: Vec<FileHolder> = Vec::new();
            let mut i: usize = 0;
            while i < keys.len()
                invariant
                    i <= keys@.len(),
                    keys@.map_values(|s: String| s@) == ks,
                    views(sel@) == history_selection(ks.subrange(0, i as int), self.input@),
                decreases keys@.len() - i,
            {
                assert(ks.subrange(0, i + 1).drop_last() =~= ks.subrange(0, i as int));
                assert(ks[i as int] == keys@[i as int]@);
                if self.should_select(keys[i].as_str()) {
                    match FileHolder::from_path(keys[i].as_str(), false) {
                        Ok(e) => {
                            let ghost prev = sel@;
                            sel.push(e);
                            assert(views(sel@) =~= views(prev).push(e@));
                        },
                        Err(_) => {},
                    }
                }
                i = i + 1;
            }
            assert(ks.subrange(0, keys@.len() as int) =~= ks);
            self.selected_path_holder = sel;
        } else {
            let mut sel: Vec<FileHolder> = Vec::new();
            let mut i: usize = 0;
            let ghost items = views(self.current_holder@);
            while i < self.current_holder.len()
                invariant
                    i <= self.current_holder@.len(),
                    items == views(self.current_holder@),
                    views(sel@) == browse_selection(items.subrange(0, i as int), self.current_directory@, self.input@),
                decreases self.current_holder@.len() - i,
            {
                assert(items.subrange(0, i + 1).drop_last() =~= items.subrange(0, i as int));
                let e = &self.current_holder[i];
                match e.relative_to(self.current_directory.as_str()) {
                    Ok(rel) => {
                        if self.should_select(rel.as_str()) {
                            let ghost prev = sel@;
                            sel.push(e.clone());
                            assert(views(sel@) =~= views(prev).push(items[i as int]));
                        }
                    },
                    Err(_) => {},
                }
                i = i + 1;
            }
            assert(items.subrange(0, self.current_holder@.len() as int) =~= items);
            self.selected_path_holder = sel;
        }
    }

    /// Whether the cache holds a snapshot of `path`; entering a path that it does not hold
    /// needs the directory's listing.
    pub fn is_cached(&self, path: &str) -> (r: bool)
        ensures
            r == (key_index(self@.cache, path@) >= 0),
    {
        cache_contains(&self.cache_holder, path)
    }

    /// The cached paths, the most recently used first.
    pub fn cached_paths(&self) -> (r: Vec<String>)
        ensures
            r@.map_values(|s: String| s@) == keys_of(self@.cache),
    {
        cache_keys(&self.cache_holder)
    }

    /// How many entries are selected.
    pub fn selected_len(&self) -> (r: usize)
        ensures
            r == self@.selected.len(),
    {
        self.selected_path_holder.len()
    }

    /// How many times the current entries have been flattened.
    pub fn expand_level(&self) -> (r: usize)
        ensures
            r == self@.expand_level,
    {
        self.expand_level
    }

    /// The current entries.
    pub fn current_entries(&self) -> (r: &Vec<FileHolder>)
        ensures
            views(r@) == self@.current,
    {
        &self.current_holder
    }

    /// Caches `holder` as the snapshot of `path`, used most recently.
    pub fn put(&mut self, path: String, holder: FileGroupHolder)
        requires
            old(self).wf(),
            snapshot_in(holder, path@),
        ensures
            final(self).wf(),
            final(self)@ == (FolderView {
                cache: put_spec(old(self)@.cache, old(self)@.capacity, path@, holder),
                ..old(self)@
            }),
    {
        proof {
            lemma_ops_keep_unique(self@.cache, self@.capacity, path@, holder);
            lemma_cached_in_place_kept(self@.cache, self@.capacity, path@, holder);
        }
        cache_put(&mut self.cache_holder, path, holder);
    }

    /// Makes `path` the current directory: its cached snapshot where there is one, else
    /// `listing`, which is then cached; a `Cache` error, with nothing changed, where neither is
    /// there.
    pub fn submit_new_working_directory(
        &mut self,
        state: &StateHolder,
        path: String,
        listing: Option<FileGroupHolder>,
    ) -> (r: Result<(), AppError>)
        requires
            old(self).wf(),
            listing matches Some(l) ==> snapshot_in(l, path@),
        ensures
            final(self).wf(),
            r is Ok && !in_history(state) ==> final(self)@.selected == final(self)@.current,
            match r {
                Ok(()) => enter_result(old(self)@, path@, listing, in_history(state)) == Some(
                    final(self)@,
                ),
                Err(e) => enter_result(old(self)@, path@, listing, in_history(state)) is None
                    && final(self)@ == old(self)@ && e is Cache,
            },
    {
        let ghost v = self@;
        let ghost pv = path@;
        let ghost lst = listing;
        proof {
            lemma_key_index(v.cache, path@);
        }
        if cache_promote(&mut self.cache_holder, path.as_str()) {
            proof {
                lemma_ops_keep_unique(v.cache, v.capacity, path@, arbitrary());
                lemma_cached_in_place_kept(v.cache, v.capacity, path@, arbitrary());
                lemma_key_index(self@.cache, path@);
                let i = key_index(v.cache, path@);
                assert(self@.cache[0] == v.cache[i]);
                assert(key_index(self@.cache, path@) == 0);
            }
            let current = match cache_peek(&self.cache_holder, path.as_str()) {
                Some(holder) => copy_entries(&holder.child),
                None => Vec::new(),
            };
            self.current_holder = current;
        } else {
            match listing {
                Some(l) => {
                    let current = copy_entries(&l.child);
                    let key = path.clone();
                    self.put(key, l);
                    self.current_holder = current;
                },
                None => {
                    return Err(AppError::Cache("no snapshot of the directory to enter".to_owned()));
                },
            }
        }
        self.current_directory = path;
        self.input = String::new();
        self.expand_level = 0;
        self.update(state, None);
        proof {
            let i = key_index(v.cache, pv);
            if i >= 0 {
                assert(snapshot_in(v.cache[i].1, v.cache[i].0));
                assert forall|k: int| 0 <= k < self@.current.len() implies (#[trigger] self@.current[k]).parent
                    == pv by {
                    assert(self@.current[k] == v.cache[i].1.child@[k]@);
                }
            } else {
                let l = lst->0;
                assert forall|k: int| 0 <= k < self@.current.len() implies (#[trigger] self@.current[k]).parent
                    == pv by {
                    assert(self@.current[k] == l.child@[k]@);
                }
            }
            lemma_browse_selects_all(self@.current, pv);
        }
        Ok(())
    }

    /// Reads the current directory again as `holder`: its entries replace the current ones, the
    /// selection is recomputed, and the snapshot replaces the cached one.
    pub fn refresh(&mut self, state: &StateHolder, holder: FileGroupHolder)
        requires
            old(self).wf(),
            snapshot_in(holder, old(self)@.current_directory),
        ensures
            final(self).wf(),
            final(self)@ == refresh_result(old(self)@, holder, in_history(state)),
    {
        self.current_holder = copy_entries(&holder.child);
        self.update(state, None);
        let key = self.current_directory.clone();
        self.put(key, holder);
    }

    /// The path of the selected entry at `index`, to be resolved on disk.
    pub fn submit(&self, index: usize) -> (r: String)
        requires
            index < self@.selected.len(),
        ensures
            r@ == full_path_spec(self@.selected[index as int]),
    {
        self.selected_path_holder[index].to_path()
    }

    /// In history mode, drops the selected entry at `index`, whose directory no longer exists,
    /// from the selection and its path from the cache. A `State` error outside history mode and
    /// a `Cache` error where the path is not cached, with nothing changed.
    pub fn drop_invalid_folder(&mut self, state: &StateHolder, index: usize) -> (r: Result<(), AppError>)
        requires
            old(self).wf(),
            index < old(self)@.selected.len(),
        ensures
            final(self).wf(),
            ({
                let key = full_path_spec(old(self)@.selected[index as int]);
                match r {
                    Ok(()) => in_history(state) && key_index(old(self)@.cache, key) >= 0
                        && final(self)@ == (FolderView {
                        selected: old(self)@.selected.remove(index as int),
                        cache: without_key(old(self)@.cache, key),
                        ..old(self)@
                    }),
                    Err(e) => final(self)@ == old(self)@ && ((!in_history(state) && e is State) || (
                    in_history(state) && key_index(old(self)@.cache, key) < 0 && e is Cache)),
                }
            }),
    {
        if !state.is_history_search() {
            return Err(AppError::State("stale entries are dropped in history mode only".to_owned()));
        }
        let key = self.selected_path_holder[index].to_path();
        if !cache_contains(&self.cache_holder, key.as_str()) {
            return Err(AppError::Cache("the stale directory is not cached".to_owned()));
        }
        proof {
            lemma_ops_keep_unique(self@.cache, self@.capacity, key@, arbitrary());
            lemma_cached_in_place_kept(self@.cache, self@.capacity, key@, arbitrary());
        }
        let ghost before = self.selected_path_holder@;
        self.selected_path_holder.remove(index);
        assert(views(self.selected_path_holder@) =~= views(before).remove(index as int));
        let _ = cache_pop(&mut self.cache_holder, key.as_str());
        Ok(())
    }

    /// The cached snapshot of the current directory, if it is still cached.
    pub fn peek(&self) -> (r: Option<&FileGroupHolder>)
        ensures
            ({
                let i = key_index(self@.cache, self@.current_directory);
                match r {
                    Some(h) => i >= 0 && *h == self@.cache[i].1,
                    None => i < 0,
                }
            }),
    {
        cache_peek(&self.cache_holder, self.current_directory.as_str())
    }

    /// Flattens the current entries one more level: the first entry stays, and each other is
    /// replaced by what `expansions` (one for each, in order) says it resolved to. A `State`
    /// error, with nothing changed, where there is no first entry or the counts differ.
    pub fn expand(&mut self, state: &StateHolder, expansions: Vec<Expansion>) -> (r: Result<(), AppError>)
        requires
            old(self).wf(),
        ensures
            final(self).wf(),
            match r {
                Ok(()) => expand_result(old(self)@, expansions@, in_history(state)) == Some(final(self)@),
                Err(e) => expand_result(old(self)@, expansions@, in_history(state)) is None
                    && final(self)@ == old(self)@ && e is State,
            },
    {
        let n = self.current_holder.len();
        if n == 0 || expansions.len() != n - 1 {
            return Err(AppError::State("the expansions do not match the current entries".to_owned()));
        }
        let ghost xs = expansions@;
        let mut result: Vec<FileHolder> = Vec::new();
        result.push(self.current_holder[0].clone());
        let ghost first = views(self.current_holder@)[0];
        let mut i: usize = 0;
        assert(xs.subrange(0, 0) =~= Seq::<Expansion>::empty());
        assert(views(result@) =~= seq![first] + expanded(xs.subrange(0, 0)));
        while i < expansions.len()
            invariant
                i <= xs.len(),
                xs == expansions@,
                views(result@) == seq![first] + expanded(xs.subrange(0, i as int)),
            decreases xs.len() - i,
        {
            assert(xs.subrange(0, i + 1).drop_last() =~= xs.subrange(0, i as int));
            let ghost before = views(result@);
            match &expansions[i] {
                Expansion::Missing => {
                    assert(views(result@) =~= before + expansion_items(xs[i as int]));
                },
                Expansion::Directory(g) => {
                    let mut j: usize = 0;
                    while j < g.child.len()
                        invariant
                            j <= g.child@.len(),
                            views(result@) == before + views(g.child@).subrange(0, j as int),
                        decreases g.child@.len() - j,
                    {
                        let ghost prev = result@;
                        result.push(g.child[j].clone());
                        assert(views(result@) =~= views(prev).push(g.child@[j as int]@));
                        assert(views(result@) =~= before + views(g.child@).subrange(0, j + 1));
                        j = j + 1;
                    }
                    assert(views(g.child@).subrange(0, g.child@.len() as int) =~= views(g.child@));
                },
                Expansion::Other { path, is_file } => {
                    match FileHolder::from_path(path.as_str(), *is_file) {
                        Ok(e) => {
                            let ghost prev = result@;
                            result.push(e);
                            assert(views(result@) =~= views(prev).push(e@));
                            assert(views(result@) =~= before + expansion_items(xs[i as int]));
                        },
                        Err(_) => {
                            assert(views(result@) =~= before + expansion_items(xs[i as int]));
                        },
                    }
                },
            }
            proof {
                assert(seq![first] + expanded(xs.subrange(0, i + 1)) =~= before + expansion_items(
                    xs[i as int],
                ));
            }
            i = i + 1;
        }
        assert(xs.subrange(0, xs.len() as int) =~= xs);
        self.current_holder = result;
        self.update(state, None);
        if self.expand_level < usize::MAX {
            self.expand_level = self.expand_level + 1;
        }
        Ok(())
    }

    fn fold_entry(&self, item: &FileHolder, level: usize) -> (r: FileHolder)
        ensures
            r@ == folded(item@, self@.current_directory, level as nat),
    {
        let depth = match item.relative_to(self.current_directory.as_str()) {
            Ok(rel) => count_separators(rel.as_str()),
            Err(_) => 0,
        };
        if depth > level {
            match FileHolder::from_path(item.parent.as_str(), false) {
                Ok(p) => p,
                Err(_) => item.clone(),
            }
        } else {
            item.clone()
        }
    }

    /// Undoes one flattening: nothing at level zero; otherwise each entry after the first that
    /// lies deeper than the new level is replaced by the entry of its directory, each path kept
    /// once, and the selection recomputed.
    pub fn collapse(&mut self, state: &StateHolder)
        requires
            old(self).wf(),
        ensures
            final(self).wf(),
            final(self)@ == collapse_result(old(self)@, in_history(state)),
    {
        if self.expand_level == 0 {
            return;
        }
        self.expand_level = self.expand_level - 1;
        let level = self.expand_level;
        let n = self.current_holder.len();
        if n > 0 {
            let ghost items = views(self.current_holder@).drop_first();
            let ghost dir = self.current_directory@;
            let ghost folds = items.map_values(|e: EntryView| folded(e, dir, level as nat));
            let ghost first = views(self.current_holder@)[0];
            let mut result: Vec<FileHolder> = Vec::new();
            result.push(self.current_holder[0].clone());
            let mut seen: Vec<String> = Vec::new();
            let mut t: usize = 1;
            assert(views(result@).drop_first() =~= dedup_paths(folds.subrange(0, 0)));
            while t < n
                invariant
                    1 <= t <= n,
                    n == self.current_holder@.len(),
                    items == views(self.current_holder@).drop_first(),
                    dir == self.current_directory@,
                    level == self.expand_level,
                    folds == items.map_values(|e: EntryView| folded(e, dir, level as nat)),
                    result@.len() >= 1,
                    views(result@)[0] == first,
                    views(result@).drop_first() == dedup_paths(folds.subrange(0, t - 1)),
                    seen@.len() + 1 == result@.len(),
                    forall|j: int| 0 <= j < seen@.len() ==> seen@[j]@ == full_path_spec(
                        views(result@)[j + 1],
                    ),
                decreases n - t,
            {
                let key_entry = self.fold_entry(&self.current_holder[t], level);
                let key = key_entry.to_path();
                assert(folds[t - 1] == key_entry@);
                let ghost d = views(result@).drop_first();
                let mut found = false;
                let mut j: usize = 0;
                while j < seen.len() && !found
                    invariant
                        j <= seen@.len(),
                        seen@.len() == d.len(),
                        forall|k: int| 0 <= k < seen@.len() ==> seen@[k]@ == full_path_spec(d[k]),
                        found ==> path_listed(d, key@),
                        !found ==> forall|k: int| 0 <= k < j ==> full_path_spec(d[k]) != key@,
                    decreases seen@.len() - j + if found { 0int } else { 1int },
                {
                    if seen[j] == key {
                        found = true;
                        assert(full_path_spec(d[j as int]) == key@);
                    } else {
                        j = j + 1;
                    }
                }
                assert(folds.subrange(0, t as int).drop_last() =~= folds.subrange(0, t - 1));
                assert(folds.subrange(0, t as int).last() == key_entry@);
                assert(found <==> path_listed(d, full_path_spec(key_entry@)));
                if !found {
                    let ghost prev = result@;
                    result.push(key_entry);
                    seen.push(key);
                    assert(views(result@).drop_first() =~= d.push(key_entry@));
                    assert forall|k: int| 0 <= k < seen@.len() implies seen@[k]@ == full_path_spec(
                        views(result@)[k + 1],
                    ) by {
                        if k < seen@.len() - 1 {
                            assert(views(result@)[k + 1] == views(prev)[k + 1]);
                        }
                    }
                }
                t = t + 1;
            }
            assert(folds.subrange(0, n - 1) =~= folds);
            assert(views(result@) =~= seq![first] + views(result@).drop_first());
            self.current_holder = result;
        }
        self.update(state, None);
    }
}

} // verus!
