//! Paths as text, read component by component: repeated and trailing separators and `.` parts
//! do not count.
use vstd::prelude::*;

verus! {

/// `parent` joined with `name`, adding a separator unless `parent` already ends in one.
pub open spec fn join_spec(parent: Seq<char>, name: Seq<char>) -> Seq<char> {
    if parent.len() > 0 && parent.last() == '/' {
        parent + name
    } else {
        parent + seq!['/'] + name
    }
}

/// The index of the last separator in `p`, or -1 where there is none.
pub open spec fn last_slash(p: Seq<char>) -> int
    decreases p.len(),
{
    if p.len() == 0 {
        -1
    } else if p.last() == '/' {
        p.len() - 1
    } else {
        last_slash(p.drop_last())
    }
}

/// A path starts at the root.
pub open spec fn is_abs(p: Seq<char>) -> bool {
    p.len() > 0 && p[0] == '/'
}

/// A part between separators, as a component: none where it is empty or `.`.
pub open spec fn keep_piece(s: Seq<char>) -> Seq<Seq<char>> {
    if s.len() == 0 || s == seq!['.'] {
        Seq::empty()
    } else {
        seq![s]
    }
}

/// The components of `p`: the parts between its separators, without empty parts (repeated or
/// trailing separators) and without `.` parts.
pub open spec fn components(p: Seq<char>) -> Seq<Seq<char>>
    decreases p.len(),
{
    let k = last_slash(p);
    if 0 <= k < p.len() {
        components(p.subrange(0, k)) + keep_piece(p.subrange(k + 1, p.len() as int))
    } else {
        keep_piece(p)
    }
}

/// Components written with a separator between each two.
pub open spec fn join_parts(cs: Seq<Seq<char>>) -> Seq<char>
    decreases cs.len(),
{
    if cs.len() == 0 {
        Seq::empty()
    } else if cs.len() == 1 {
        cs[0]
    } else {
        join_parts(cs.drop_last()) + seq!['/'] + cs.last()
    }
}

/// The path made of components `cs`, from the root where `abs` holds.
pub open spec fn render(abs: bool, cs: Seq<Seq<char>>) -> Seq<char> {
    if abs {
        seq!['/'] + join_parts(cs)
    } else {
        join_parts(cs)
    }
}

/// The directory and the name of `p`: the path of all components but the last, and the last.
/// There is none where `p` has no component or its last one is `..`.
pub open spec fn split_spec(p: Seq<char>) -> Option<(Seq<char>, Seq<char>)> {
    let cs = components(p);
    if cs.len() == 0 || cs.last() == seq!['.', '.'] {
        None
    } else {
        Some((render(is_abs(p), cs.drop_last()), cs.last()))
    }
}

/// What remains of `p` below the directory `base`, compared component by component: empty
/// where they are the same path, none where `p` does not lie under `base`.
pub open spec fn strip_dir_prefix_spec(p: Seq<char>, base: Seq<char>) -> Option<Seq<char>> {
    let cp = components(p);
    let cb = components(base);
    if is_abs(p) == is_abs(base) && cb.is_prefix_of(cp) {
        Some(join_parts(cp.subrange(cb.len() as int, cp.len() as int)))
    } else {
        None
    }
}

/// The views of a list of texts.
pub open spec fn texts(v: Seq<String>) -> Seq<Seq<char>> {
    v.map_values(|s: String| s@)
}

/// How many separators `s` holds.
pub open spec fn count_slashes(s: Seq<char>) -> nat
    decreases s.len(),
{
    if s.len() == 0 {
        0
    } else {
        count_slashes(s.drop_last()) + if s.last() == '/' { 1nat } else { 0nat }
    }
}

/// A name of one part: not empty, without a separator, neither `.` nor `..`.
pub open spec fn is_simple_name(n: Seq<char>) -> bool {
    n.len() > 0 && !n.contains('/') && n != seq!['.'] && n != seq!['.', '.']
}

/// The separators of two texts put together are those of each.
pub proof fn lemma_count_slashes_append(a: Seq<char>, b: Seq<char>)
    ensures
        count_slashes(a + b) == count_slashes(a) + count_slashes(b),
    decreases b.len(),
{
    if b.len() > 0 {
        assert((a + b).drop_last() =~= a + b.drop_last());
        lemma_count_slashes_append(a, b.drop_last());
    } else {
        assert(a + b =~= a);
    }
}

/// A text without a separator counts none.
pub proof fn lemma_count_slashes_none(a: Seq<char>)
    requires
        !a.contains('/'),
    ensures
        count_slashes(a) == 0,
    decreases a.len(),
{
    if a.len() > 0 {
        assert(!a.drop_last().contains('/')) by {
            if a.drop_last().contains('/') {
                let i = choose|i: int| 0 <= i < a.drop_last().len() && a.drop_last()[i] == '/';
                assert(a[i] == '/');
            }
        }
        lemma_count_slashes_none(a.drop_last());
        assert(a[a.len() - 1] != '/');
    }
}

proof fn lemma_last_slash_join(d: Seq<char>, n: Seq<char>)
    requires
        !n.contains('/'),
    ensures
        last_slash(d + seq!['/'] + n) == d.len(),
    decreases n.len(),
{
    let p = d + seq!['/'] + n;
    if n.len() > 0 {
        assert(p.last() == n[n.len() - 1]);
        assert(p.drop_last() =~= d + seq!['/'] + n.drop_last());
        assert(!n.drop_last().contains('/')) by {
            if n.drop_last().contains('/') {
                let i = choose|i: int| 0 <= i < n.drop_last().len() && n.drop_last()[i] == '/';
                assert(n[i] == '/');
            }
        }
        lemma_last_slash_join(d, n.drop_last());
    } else {
        assert(p.last() == '/');
    }
}

/// The separator found by `last_slash` stands in the path.
pub proof fn lemma_last_slash_bound(p: Seq<char>)
    ensures
        last_slash(p) >= 0 ==> last_slash(p) < p.len() && p[last_slash(p)] == '/',
        last_slash(p) < 0 ==> last_slash(p) == -1 && !p.contains('/'),
    decreases p.len(),
{
    if p.len() > 0 && p.last() != '/' {
        lemma_last_slash_bound(p.drop_last());
        if last_slash(p) < 0 {
            assert forall|i: int| 0 <= i < p.len() implies p[i] != '/' by {
                if i < p.len() - 1 {
                    assert(p.drop_last()[i] == p[i]);
                }
            }
        }
    }
}

/// A path followed by a separator and a simple name has that name as one more component.
pub proof fn lemma_components_join(d: Seq<char>, n: Seq<char>)
    requires
        is_simple_name(n),
    ensures
        components(d + seq!['/'] + n) == components(d) + seq![n],
{
    let p = d + seq!['/'] + n;
    lemma_last_slash_join(d, n);
    assert(p.subrange(0, d.len() as int) =~= d);
    assert(p.subrange(d.len() as int + 1, p.len() as int) =~= n);
}

/// A directory written in its normal form, joined with a simple name, splits back into the two.
pub proof fn lemma_split_join(d: Seq<char>, n: Seq<char>)
    requires
        d.len() > 0,
        is_simple_name(n),
        render(is_abs(d), components(d)) == d,
    ensures
        split_spec(d + seq!['/'] + n) == Some((d, n)),
{
    let p = d + seq!['/'] + n;
    lemma_components_join(d, n);
    assert(p[0] == d[0]);
    assert((components(d) + seq![n]).drop_last() =~= components(d));
}

/// Every path lies under itself, with nothing remaining.
pub proof fn lemma_strip_self(d: Seq<char>)
    ensures
        strip_dir_prefix_spec(d, d) == Some(Seq::<char>::empty()),
{
    let cd = components(d);
    assert(cd =~= cd.subrange(0, cd.len() as int));
    assert(cd.subrange(cd.len() as int, cd.len() as int) =~= Seq::<Seq<char>>::empty());
}

/// Below `d`, the path `d/n` is `n`; and `d` itself is the empty path.
pub proof fn lemma_strip_join(d: Seq<char>, n: Seq<char>)
    requires
        d.len() > 0,
        is_simple_name(n),
    ensures
        strip_dir_prefix_spec(d + seq!['/'] + n, d) == Some(n),
        strip_dir_prefix_spec(d, d) == Some(Seq::<char>::empty()),
{
    let p = d + seq!['/'] + n;
    lemma_components_join(d, n);
    assert(p[0] == d[0]);
    let cd = components(d);
    assert(cd.is_prefix_of(cd + seq![n])) by {
        assert(cd =~= (cd + seq![n]).subrange(0, cd.len() as int));
    }
    assert((cd + seq![n]).subrange(cd.len() as int, cd.len() as int + 1) =~= seq![n]);
    assert(cd.is_prefix_of(cd)) by {
        assert(cd =~= cd.subrange(0, cd.len() as int));
    }
    assert(cd.subrange(cd.len() as int, cd.len() as int) =~= Seq::<Seq<char>>::empty());
}

/// `parent` joined with `name`.
pub fn join_path(parent: &str, name: &str) -> (r: String)
    ensures
        r@ == join_spec(parent@, name@),
{
    let n = parent.unicode_len();
    let mut r = parent.to_owned();
    if n > 0 && parent.get_char(n - 1) == '/' {
        r.append(name);
    } else {
        r.append("/");
        r.append(name);
        proof {
            reveal_strlit("/");
            assert("/"@ =~= seq!['/']);
        }
    }
    r
}

fn last_slash_index(p: &str) -> (r: Option<usize>)
    ensures
        match r {
            Some(k) => k as int == last_slash(p@) && k < p@.len(),
            None => last_slash(p@) == -1,
        },
{
    let n = p.unicode_len();
    let mut i: usize = n;
    assert(p@.subrange(0, n as int) =~= p@);
    while i > 0
        invariant
            n == p@.len(),
            i <= n,
            last_slash(p@) == last_slash(p@.subrange(0, i as int)),
        decreases i,
    {
        let c = p.get_char(i - 1);
        assert(p@.subrange(0, i as int).drop_last() =~= p@.subrange(0, i - 1));
        if c == '/' {
            assert(p@.subrange(0, i as int).last() == c);
            return Some(i - 1);
        }
        i = i - 1;
    }
    None
}

/// Whether the text `s` equals `lit`, character by character.
pub(crate) fn str_eq(s: &str, lit: &str) -> (r: bool)
    ensures
        r == (s@ == lit@),
{
    let n = s.unicode_len();
    if n != lit.unicode_len() {
        return false;
    }
    let mut i: usize = 0;
    while i < n
        invariant
            n == s@.len(),
            n == lit@.len(),
            i <= n,
            forall|k: int| 0 <= k < i ==> s@[k] == lit@[k],
        decreases n - i,
    {
        if s.get_char(i) != lit.get_char(i) {
            return false;
        }
        i = i + 1;
    }
    assert(s@ =~= lit@);
    true
}

/// The components of `p`, as `components` gives them.
pub fn path_components(p: &str) -> (r: Vec<String>)
    ensures
        texts(r@) == components(p@),
{
    let mut acc: Vec<String> = Vec::new();
    let mut end: usize = p.unicode_len();
    let mut done = false;
    assert(p@.subrange(0, end as int) =~= p@);
    while !done
        invariant
            end <= p@.len(),
            done ==> texts(acc@) == components(p@),
            !done ==> components(p@) == components(p@.subrange(0, end as int)) + texts(acc@),
        decreases end + if done { 0int } else { 1int },
    {
        let prefix = p.substring_char(0, end);
        let ghost pre = p@.subrange(0, end as int);
        proof {
            lemma_last_slash_bound(pre);
        }
        let (piece, next) = match last_slash_index(prefix) {
            Some(k) => (p.substring_char(k + 1, end), Some(k)),
            None => (prefix, None),
        };
        proof {
            match next {
                Some(k) => {
                    assert(pre.subrange(0, k as int) =~= p@.subrange(0, k as int));
                    assert(pre.subrange(k + 1, pre.len() as int) =~= piece@);
                },
                None => {},
            }
        }
        proof {
            reveal_strlit(".");
            assert("."@ =~= seq!['.']);
        }
        let ghost before = texts(acc@);
        if !(piece.unicode_len() == 0 || str_eq(piece, ".")) {
            acc.insert(0, piece.to_owned());
            assert(texts(acc@) =~= keep_piece(piece@) + before);
        } else {
            assert(texts(acc@) =~= keep_piece(piece@) + before);
        }
        match next {
            Some(k) => {
                end = k;
            },
            None => {
                done = true;
                assert(texts(acc@) =~= components(pre) + before);
            },
        }
    }
    acc
}

/// The components `cs[from..]` written with separators, from the root where `abs` holds.
fn render_components(cs: &Vec<String>, from: usize, abs: bool) -> (r: String)
    requires
        from <= cs@.len(),
    ensures
        r@ == render(abs, texts(cs@).subrange(from as int, cs@.len() as int)),
{
    let ghost all = texts(cs@);
    let mut j = String::new();
    let mut i: usize = from;
    assert(all.subrange(from as int, from as int) =~= Seq::<Seq<char>>::empty());
    while i < cs.len()
        invariant
            from <= i <= cs@.len(),
            all == texts(cs@),
            j@ == join_parts(all.subrange(from as int, i as int)),
        decreases cs@.len() - i,
    {
        let ghost sub = all.subrange(from as int, i + 1);
        assert(sub.drop_last() =~= all.subrange(from as int, i as int));
        assert(sub.last() == cs@[i as int]@);
        if i > from {
            j.append("/");
            proof {
                reveal_strlit("/");
                assert("/"@ =~= seq!['/']);
            }
        } else {
            assert(sub =~= seq![cs@[i as int]@]);
        }
        j.append(cs[i].as_str());
        i = i + 1;
    }
    if abs {
        let mut r = "/".to_owned();
        proof {
            reveal_strlit("/");
            assert("/"@ =~= seq!['/']);
        }
        r.append(j.as_str());
        r
    } else {
        j
    }
}

fn starts_at_root(p: &str) -> (r: bool)
    ensures
        r == is_abs(p@),
{
    p.unicode_len() > 0 && p.get_char(0) == '/'
}

/// The directory and the name of `p`, as `split_spec` gives them.
pub fn split_path(p: &str) -> (r: Option<(String, String)>)
    ensures
        match r {
            Some((d, name)) => split_spec(p@) == Some((d@, name@)),
            None => split_spec(p@) is None,
        },
{
    let cs = path_components(p);
    let n = cs.len();
    proof {
        reveal_strlit("..");
        assert(".."@ =~= seq!['.', '.']);
    }
    if n == 0 || str_eq(cs[n - 1].as_str(), "..") {
        return None;
    }
    let name = cs[n - 1].clone();
    proof {
        assert(texts(cs@).subrange(0, n as int) =~= texts(cs@));
    }
    let parent = {
        let mut upto: Vec<String> = Vec::new();
        let mut i: usize = 0;
        while i + 1 < n
            invariant
                n == cs@.len(),
                i + 1 <= n,
                texts(upto@) == texts(cs@).subrange(0, i as int),
            decreases n - i,
        {
            let ghost prev = upto@;
            upto.push(cs[i].clone());
            assert(texts(upto@) =~= texts(prev).push(cs@[i as int]@));
            assert(texts(upto@) =~= texts(cs@).subrange(0, i + 1));
            i = i + 1;
        }
        assert(texts(upto@).subrange(0, upto@.len() as int) =~= texts(upto@));
        render_components(&upto, 0, starts_at_root(p))
    };
    assert(texts(cs@).subrange(0, n - 1) =~= texts(cs@).drop_last());
    Some((parent, name))
}

/// What remains of `p` below the directory `base`, as `strip_dir_prefix_spec` gives it.
pub fn strip_dir_prefix(p: &str, base: &str) -> (r: Option<String>)
    ensures
        match r {
            Some(rest) => strip_dir_prefix_spec(p@, base@) == Some(rest@),
            None => strip_dir_prefix_spec(p@, base@) is None,
        },
{
    if starts_at_root(p) != starts_at_root(base) {
        return None;
    }
    let cp = path_components(p);
    let cb = path_components(base);
    let ghost tp = texts(cp@);
    let ghost tb = texts(cb@);
    if cb.len() > cp.len() {
        return None;
    }
    let mut i: usize = 0;
    while i < cb.len()
        invariant
            cb@.len() <= cp@.len(),
            i <= cb@.len(),
            tp == texts(cp@),
            tb == texts(cb@),
            tp == components(p@),
            tb == components(base@),
            is_abs(p@) == is_abs(base@),
            forall|k: int| 0 <= k < i ==> tb[k] == tp[k],
        decreases cb@.len() - i,
    {
        if !(cb[i] == cp[i]) {
            assert(tb[i as int] != tp[i as int]);
            assert(!tb.is_prefix_of(tp)) by {
                if tb.is_prefix_of(tp) {
                    assert(tp.subrange(0, tb.len() as int)[i as int] == tp[i as int]);
                }
            }
            return None;
        }
        i = i + 1;
    }
    assert(tb =~= tp.subrange(0, tb.len() as int));
    Some(render_components(&cp, cb.len(), false))
}

/// How many separators `s` holds.
pub fn count_separators(s: &str) -> (r: usize)
    ensures
        r as nat == count_slashes(s@),
{
    let n = s.unicode_len();
    let mut i: usize = 0;
    let mut c: usize = 0;
    while i < n
        invariant
            n == s@.len(),
            i <= n,
            c <= i,
            c as nat == count_slashes(s@.subrange(0, i as int)),
        decreases n - i,
    {
        assert(s@.subrange(0, i + 1).drop_last() =~= s@.subrange(0, i as int));
        if s.get_char(i) == '/' {
            c = c + 1;
        }
        i = i + 1;
    }
    assert(s@.subrange(0, n as int) =~= s@);
    c
}

} // verus!
