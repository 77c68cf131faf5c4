//! The search filter: case-sensitive substring containment, and the
//! function that keeps exactly the names matching the current query.

use vstd::prelude::*;

verus! {

/// Whether `hay` matches `needle` when a match is anchored at
/// character position `i`.
pub open spec fn match_at(hay: Seq<char>, needle: Seq<char>, i: int) -> bool {
    forall|j: int| 0 <= j < needle.len() ==> hay[i + j] == #[trigger] needle[j]
}

/// `needle` occurs in `hay` as a contiguous run of characters.
/// An empty needle occurs in every text.
pub open spec fn contains_substr(hay: Seq<char>, needle: Seq<char>) -> bool {
    exists|i: int|
        0 <= i && i + needle.len() <= hay.len() && #[trigger] match_at(hay, needle, i)
}

/// Decides whether `needle` occurs in `hay` as a contiguous substring.
pub fn str_contains(hay: &str, needle: &str) -> (r: bool)
    ensures
        r == contains_substr(hay@, needle@),
{
    let hl = hay.unicode_len();
    let nl = needle.unicode_len();
    if nl > hl {
        assert(!contains_substr(hay@, needle@));
        return false;
    }
    if nl == 0 {
        assert(match_at(hay@, needle@, 0));
        return true;
    }
    let mut i: usize = 0;
    while i <= hl - nl
        invariant
            hl == hay@.len(),
            nl == needle@.len(),
            0 < nl <= hl,
            0 <= i <= hl - nl + 1,
            forall|k: int| 0 <= k < i ==> !match_at(hay@, needle@, k),
        decreases hl - i,
    {
        let mut j: usize = 0;
        let mut matched = true;
        while j < nl
            invariant
                hl == hay@.len(),
                nl == needle@.len(),
                i + nl <= hl,
                0 <= j <= nl,
                matched ==> (forall|m: int|
                    0 <= m < j ==> hay@[i + m] == #[trigger] needle@[m]),
                !matched ==> !match_at(hay@, needle@, i as int),
            decreases nl - j,
        {
            if hay.get_char(i + j) != needle.get_char(j) {
                matched = false;
                assert(!match_at(hay@, needle@, i as int));
                j = nl;
            } else {
                j = j + 1;
            }
        }
        if matched {
            assert(match_at(hay@, needle@, i as int));
            return true;
        }
        i = i + 1;
    }
    assert forall|k: int| 0 <= k && k + needle@.len() <= hay@.len() implies !match_at(
        hay@,
        needle@,
        k,
    ) by {
        assert(k < i);
    }
    false
}

/// The names of `names` that contain `query` as a substring, in their
/// original order.
pub open spec fn filter_skills(names: Seq<Seq<char>>, query: Seq<char>) -> Seq<Seq<char>> {
    names.filter(|s: Seq<char>| contains_substr(s, query))
}

/// Returns every name of `vector` whose text contains `search_query`
/// as a contiguous substring, preserving the original order.
#[allow(non_snake_case)]
pub fn searchInVector(vector: &Vec<String>, search_query: &String) -> (r: Vec<String>)
    ensures
        r.deep_view() == filter_skills(vector.deep_view(), search_query@),
{
    let ghost all = vector.deep_view();
    let mut out: Vec<String> = Vec::new();
    let mut i: usize = 0;
    proof {
        assert(all.take(0) =~= Seq::<Seq<char>>::empty());
        reveal(Seq::filter);
    }
    while i < vector.len()
        invariant
            all == vector.deep_view(),
            all.len() == vector.len(),
            forall|k: int| 0 <= k < all.len() ==> all[k] == #[trigger] vector[k]@,
            0 <= i <= vector.len(),
            out.deep_view() == all.take(i as int).filter(
                |s: Seq<char>| contains_substr(s, search_query@),
            ),
        decreases vector.len() - i,
    {
        let ghost prefix = all.take(i as int);
        let ghost next = all.take(i as int + 1);
        proof {
            reveal(Seq::filter);
            assert(next.drop_last() =~= prefix);
            assert(next.last() == all[i as int]);
        }
        if str_contains(vector[i].as_str(), search_query.as_str()) {
            out.push(vector[i].clone());
            proof {
                assert(out.deep_view() =~= prefix.filter(
                    |s: Seq<char>| contains_substr(s, search_query@),
                ).push(all[i as int]));
                assert(next.filter(|s: Seq<char>| contains_substr(s, search_query@))
                    =~= prefix.filter(|s: Seq<char>| contains_substr(s, search_query@)).push(
                    all[i as int],
                ));
            }
        } else {
            proof {
                assert(next.filter(|s: Seq<char>| contains_substr(s, search_query@))
                    =~= prefix.filter(|s: Seq<char>| contains_substr(s, search_query@)));
            }
        }
        i = i + 1;
    }
    proof {
        assert(all.take(vector.len() as int) =~= all);
    }
    out
}


/// Which positions of `b` a selection takes: strictly increasing
/// positions of `b`, spelling out `a` element by element.
pub open spec fn selects(m: Seq<int>, a: Seq<Seq<char>>, b: Seq<Seq<char>>) -> bool {
    &&& m.len() == a.len()
    &&& (forall|k: int| 0 <= k < m.len() ==> 0 <= #[trigger] m[k] < b.len() && b[m[k]] == a[k])
    &&& (forall|k: int| 0 <= k < m.len() - 1 ==> #[trigger] m[k] < m[k + 1])
}

/// `a` appears inside `b` in order: some strictly increasing choice of
/// positions of `b` spells out `a`.
pub open spec fn is_subsequence_of(a: Seq<Seq<char>>, b: Seq<Seq<char>>) -> bool {
    exists|m: Seq<int>| #[trigger] selects(m, a, b)
}

/// Everything the filter returns contains the query, comes from the
/// source list, and everything of the source that contains the query
/// is returned; the result never grows past the source.
pub proof fn lemma_filter_membership(names: Seq<Seq<char>>, query: Seq<char>)
    ensures
        forall|k: int|
            0 <= k < filter_skills(names, query).len() ==> contains_substr(
                #[trigger] filter_skills(names, query)[k],
                query,
            ),
        forall|k: int|
            0 <= k < filter_skills(names, query).len() ==> names.contains(
                #[trigger] filter_skills(names, query)[k],
            ),
        forall|k: int|
            0 <= k < names.len() && contains_substr(#[trigger] names[k], query) ==> filter_skills(
                names,
                query,
            ).contains(names[k]),
        filter_skills(names, query).len() <= names.len(),
{
    broadcast use vstd::seq_lib::group_filter_ensures;

    assert(filter_skills(names, query) == names.filter(
        |s: Seq<char>| contains_substr(s, query),
    ));
    lemma_filter_is_subsequence(names, query);
    let kept = filter_skills(names, query);
    let m = choose|m: Seq<int>| #[trigger] selects(m, kept, names);
    assert forall|k: int| 0 <= k < kept.len() implies names.contains(#[trigger] kept[k]) by {
        assert(names[m[k]] == kept[k]);
    }
}

/// The filter keeps the source list's relative order: its result is a
/// subsequence of the source.
#[verifier::rlimit(50)]
pub proof fn lemma_filter_is_subsequence(names: Seq<Seq<char>>, query: Seq<char>)
    ensures
        is_subsequence_of(filter_skills(names, query), names),
    decreases names.len(),
{
    reveal(Seq::filter);
    if names.len() == 0 {
        let m = Seq::<int>::empty();
        assert(filter_skills(names, query) =~= Seq::<Seq<char>>::empty());
        assert(selects(m, filter_skills(names, query), names));
    } else {
        let prefix = names.drop_last();
        lemma_filter_is_subsequence(prefix, query);
        let fa = filter_skills(prefix, query);
        let m = choose|m: Seq<int>| #[trigger] selects(m, fa, prefix);
        let kept = filter_skills(names, query);
        if contains_substr(names.last(), query) {
            let m2 = m.push(names.len() - 1);
            assert(kept == fa.push(names.last()));
            assert forall|k: int|
                0 <= k < m2.len() implies 0 <= #[trigger] m2[k] < names.len() && names[m2[k]]
                == kept[k] by {
                if k < m.len() {
                    assert(0 <= m[k] < prefix.len());
                    assert(names[m[k]] == prefix[m[k]]);
                    assert(prefix[m[k]] == fa[k]);
                } else {
                    assert(m2[k] == names.len() - 1);
                    assert(kept[k] == names.last());
                }
            }
            assert forall|k: int| 0 <= k < m2.len() - 1 implies #[trigger] m2[k] < m2[k + 1] by {
                if k < m.len() - 1 {
                } else {
                    assert(k == m.len() - 1);
                    assert(m[k] < prefix.len());
                }
            }
            assert(selects(m2, kept, names));
        } else {
            assert(kept == fa);
            assert forall|k: int|
                0 <= k < m.len() implies 0 <= #[trigger] m[k] < names.len() && names[m[k]]
                == kept[k] by {
                assert(0 <= m[k] < prefix.len());
                assert(names[m[k]] == prefix[m[k]]);
            }
            assert(selects(m, kept, names));
        }
    }
}

/// The empty query matches every name: filtering with it returns the
/// whole list.
pub proof fn lemma_filter_empty_query(names: Seq<Seq<char>>)
    ensures
        filter_skills(names, Seq::<char>::empty()) == names,
    decreases names.len(),
{
    reveal(Seq::filter);
    if names.len() == 0 {
        assert(filter_skills(names, Seq::<char>::empty()) =~= names);
    } else {
        lemma_filter_empty_query(names.drop_last());
        assert(match_at(names.last(), Seq::<char>::empty(), 0));
        assert(contains_substr(names.last(), Seq::<char>::empty()));
        assert(filter_skills(names, Seq::<char>::empty()) =~= names.drop_last().push(
            names.last(),
        ));
        assert(names.drop_last().push(names.last()) =~= names);
    }
}

} // verus!

