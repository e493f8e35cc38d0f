//! Subsequence ("fuzzy finder") matching of a filter against a name.
use vstd::prelude::*;

verus! {

/// Whether `c` is an ASCII capital letter.
pub open spec fn is_ascii_upper(c: char) -> bool {
    'A' <= c && c <= 'Z'
}

/// Two characters are equal when ASCII letter case is ignored.
pub open spec fn eq_ignore_ascii_case(a: char, b: char) -> bool {
    ||| a == b
    ||| is_ascii_upper(a) && (a as u32) + 32 == (b as u32)
    ||| is_ascii_upper(b) && (b as u32) + 32 == (a as u32)
}

/// `filter` occurs in `name` as a subsequence, comparing characters without ASCII case:
/// each character of `filter` is matched by the earliest character of `name` after the
/// previous match.
pub open spec fn is_fuzzy_match(name: Seq<char>, filter: Seq<char>) -> bool
    decreases name.len(),
{
    if filter.len() == 0 {
        true
    } else if name.len() == 0 {
        false
    } else if eq_ignore_ascii_case(name[0], filter[0]) {
        is_fuzzy_match(name.drop_first(), filter.drop_first())
    } else {
        is_fuzzy_match(name.drop_first(), filter)
    }
}

/// `idx` places `filter` in `name`: strictly increasing positions of `name` whose characters
/// equal those of `filter` in turn, ignoring ASCII case.
pub open spec fn embeds(name: Seq<char>, filter: Seq<char>, idx: Seq<int>) -> bool {
    &&& idx.len() == filter.len()
    &&& forall|j: int|
        0 <= j < idx.len() ==> 0 <= #[trigger] idx[j] < name.len() && eq_ignore_ascii_case(
            name[idx[j]],
            filter[j],
        )
    &&& forall|a: int, b: int| 0 <= a < b < idx.len() ==> idx[a] < idx[b]
}

/// `filter` is a subsequence of `name`, ignoring ASCII case.
pub open spec fn is_subsequence_ci(name: Seq<char>, filter: Seq<char>) -> bool {
    exists|idx: Seq<int>| embeds(name, filter, idx)
}

/// The greedy walk finds a match exactly when the filter is a subsequence of the name.
pub proof fn lemma_fuzzy_match_is_subsequence(name: Seq<char>, filter: Seq<char>)
    ensures
        is_fuzzy_match(name, filter) <==> is_subsequence_ci(name, filter),
    decreases name.len(),
{
    if filter.len() == 0 {
        assert(embeds(name, filter, Seq::<int>::empty()));
    } else if name.len() == 0 {
        assert forall|idx: Seq<int>| !embeds(name, filter, idx) by {
            if embeds(name, filter, idx) {
                assert(0 <= idx[0] < name.len());
            }
        }
    } else {
        let n2 = name.drop_first();
        let same = eq_ignore_ascii_case(name[0], filter[0]);
        let f2 = if same { filter.drop_first() } else { filter };
        lemma_fuzzy_match_is_subsequence(n2, f2);
        if is_subsequence_ci(n2, f2) {
            let idx2 = choose|idx2: Seq<int>| embeds(n2, f2, idx2);
            let shifted = idx2.map_values(|x: int| x + 1);
            let idx = if same { seq![0int] + shifted } else { shifted };
            assert(embeds(name, filter, idx)) by {
                assert forall|j: int| 0 <= j < idx.len() implies 0 <= #[trigger] idx[j] < name.len()
                    && eq_ignore_ascii_case(name[idx[j]], filter[j]) by {
                    if same {
                        if j > 0 {
                            assert(idx[j] == idx2[j - 1] + 1);
                            assert(name[idx[j]] == n2[idx2[j - 1]]);
                            assert(filter[j] == f2[j - 1]);
                        }
                    } else {
                        assert(idx[j] == idx2[j] + 1);
                        assert(name[idx[j]] == n2[idx2[j]]);
                    }
                }
                assert forall|a: int, b: int| 0 <= a < b < idx.len() implies idx[a] < idx[b] by {
                    if same {
                        if a > 0 {
                            assert(idx[a] == idx2[a - 1] + 1);
                        }
                        assert(idx[b] == idx2[b - 1] + 1);
                    } else {
                        assert(idx[a] == idx2[a] + 1);
                        assert(idx[b] == idx2[b] + 1);
                    }
                }
            }
        }
        if is_subsequence_ci(name, filter) {
            let idx = choose|idx: Seq<int>| embeds(name, filter, idx);
            let rest = if same { idx.drop_first() } else { idx };
            let idx2 = rest.map_values(|x: int| x - 1);
            if !same {
                assert(idx[0] != 0);
            }
            assert forall|j: int| 0 <= j < rest.len() implies #[trigger] rest[j] >= 1 by {
                if same {
                    assert(idx[j + 1] > idx[0]);
                } else if j > 0 {
                    assert(idx[j] > idx[0]);
                }
            }
            assert(embeds(n2, f2, idx2)) by {
                assert forall|j: int| 0 <= j < idx2.len() implies 0 <= #[trigger] idx2[j] < n2.len()
                    && eq_ignore_ascii_case(n2[idx2[j]], f2[j]) by {
                    assert(rest[j] >= 1);
                    if same {
                        assert(rest[j] == idx[j + 1]);
                        assert(f2[j] == filter[j + 1]);
                    }
                    assert(n2[idx2[j]] == name[rest[j]]);
                }
                assert forall|a: int, b: int| 0 <= a < b < idx2.len() implies idx2[a] < idx2[b] by {
                    if same {
                        assert(rest[a] == idx[a + 1] && rest[b] == idx[b + 1]);
                    }
                }
            }
        }
    }
}

fn chars_eq_ignore_ascii_case(a: char, b: char) -> (r: bool)
    ensures
        r == eq_ignore_ascii_case(a, b),
{
    let x = a as u32;
    let y = b as u32;
    x == y || ('A' <= a && a <= 'Z' && x + 32 == y) || ('A' <= b && b <= 'Z' && y + 32 == x)
}

/// Whether `name` is selected by `filter`: an empty filter selects every name; otherwise the
/// filter's characters must occur in `name` in order, not necessarily adjacent, ignoring ASCII case.
pub fn matches(name: &str, filter: &str) -> (r: bool)
    ensures
        r == is_fuzzy_match(name@, filter@),
        r == is_subsequence_ci(name@, filter@),
{
    proof {
        lemma_fuzzy_match_is_subsequence(name@, filter@);
    }
    let n = name.unicode_len();
    let f = filter.unicode_len();
    let mut i: usize = 0;
    let mut j: usize = 0;
    assert(name@.subrange(0, n as int) =~= name@);
    assert(filter@.subrange(0, f as int) =~= filter@);
    while i < n && j < f
        invariant
            n == name@.len(),
            f == filter@.len(),
            i <= n,
            j <= f,
            is_fuzzy_match(name@, filter@) == is_fuzzy_match(
                name@.subrange(i as int, n as int),
                filter@.subrange(j as int, f as int),
            ),
        decreases n - i,
    {
        let nc = name.get_char(i);
        let fc = filter.get_char(j);
        proof {
            let ns = name@.subrange(i as int, n as int);
            let fs = filter@.subrange(j as int, f as int);
            assert(ns.drop_first() =~= name@.subrange(i + 1, n as int));
            assert(fs.drop_first() =~= filter@.subrange(j + 1, f as int));
        }
        if chars_eq_ignore_ascii_case(nc, fc) {
            j = j + 1;
        }
        i = i + 1;
    }
    proof {
        if j == f {
            assert(filter@.subrange(j as int, f as int).len() == 0);
        }
    }
    j == f
}

} // verus!
