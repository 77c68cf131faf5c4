//! The persistent skill store, as a pure function of the file's text:
//! reading the list of names, and adding a name unless one equal to it
//! ignoring case is already present. The caller owns the file itself
//! and hands its content in; what comes back is the exact text to
//! write.

use vstd::prelude::*;

use crate::json::{
    parse_entries, parse_text, serialize_entries, spec_serialize, EntryV, SkillEntry,
};
use crate::text::{eq_ignore_ascii_case, lower_of, lowercase, str_eq_ignore_ascii_case};

verus! {

/// Why a store text could not be used: it is neither blank nor a JSON
/// array of entry objects.
#[derive(Clone, Copy, Debug, PartialEq, Eq, Structural)]
pub enum StoreError {
    Parse,
}

/// The entries a store text holds: a blank text holds none, any other
/// text must parse as a JSON array of entry objects.
pub open spec fn store_entries(text: Seq<char>) -> Option<Seq<EntryV>> {
    if crate::is_all_ws(text) {
        Some(Seq::empty())
    } else {
        parse_text(text)
    }
}

/// The names of the entries, in store order.
pub open spec fn entry_names(es: Seq<EntryV>) -> Seq<Seq<char>> {
    Seq::new(es.len(), |k: int| es[k].name)
}

/// The store's duplicate test for one name: the lowercased existing
/// name equals the candidate, ignoring ASCII case.
pub open spec fn name_matches(existing: Seq<char>, candidate: Seq<char>) -> bool {
    eq_ignore_ascii_case(lower_of(existing), candidate)
}

/// Some entry of `es` has a name matching `candidate`.
pub open spec fn has_name(es: Seq<EntryV>, candidate: Seq<char>) -> bool {
    exists|k: int| 0 <= k < es.len() && name_matches(#[trigger] es[k].name, candidate)
}

/// What one `add` does to the entries: nothing when a matching name is
/// already present, otherwise a new entry with no time spent yet is
/// appended.
pub open spec fn add_step(es: Seq<EntryV>, name: Seq<char>) -> Seq<EntryV> {
    if has_name(es, name) {
        es
    } else {
        es.push(EntryV { name: name, time: 0 })
    }
}

/// Decides whether the text is blank: nothing but spaces, tabs and
/// line breaks (or nothing at all).
pub fn text_is_blank(s: &str) -> (r: bool)
    ensures
        r == crate::is_all_ws(s@),
{
    let len = s.unicode_len();
    let mut i: usize = 0;
    while i < len
        invariant
            len == s@.len(),
            0 <= i <= len,
            forall|j: int| 0 <= j < i ==> crate::is_ws_char(#[trigger] s@[j]),
        decreases len - i,
    {
        let c = s.get_char(i);
        if !(c == ' ' || c == '\t' || c == '\n' || c == '\r') {
            return false;
        }
        i = i + 1;
    }
    true
}

/// Decides whether some name of `vec`, once lowercased, equals
/// `target` ignoring ASCII case.
pub fn vector_contain_ignore_case(vec: Vec<String>, target: &str) -> (r: bool)
    ensures
        r == (exists|k: int|
            0 <= k < vec.deep_view().len() && name_matches(
                #[trigger] vec.deep_view()[k],
                target@,
            )),
{
    let mut i: usize = 0;
    while i < vec.len()
        invariant
            0 <= i <= vec.len(),
            vec.deep_view().len() == vec.len(),
            forall|k: int| 0 <= k < vec.len() ==> vec.deep_view()[k] == #[trigger] vec[k]@,
            forall|k: int| 0 <= k < i ==> !name_matches(#[trigger] vec.deep_view()[k], target@),
        decreases vec.len() - i,
    {
        let low = lowercase(vec[i].as_str());
        if str_eq_ignore_ascii_case(low.as_str(), target) {
            return true;
        }
        i = i + 1;
    }
    false
}

/// Clones the name of every entry, in order.
fn entry_name_list(entries: &Vec<SkillEntry>) -> (r: Vec<String>)
    ensures
        r.deep_view() == entry_names(entries.deep_view()),
{
    let mut out: Vec<String> = Vec::new();
    let mut i: usize = 0;
    while i < entries.len()
        invariant
            0 <= i <= entries.len(),
            out.deep_view() =~= entry_names(entries.deep_view()).take(i as int),
        decreases entries.len() - i,
    {
        let ghost pre = out.deep_view();
        let cloned = entries[i].name.clone();
        out.push(cloned);
        proof {
            assert(out.deep_view().len() == pre.len() + 1);
            assert(forall|k: int| 0 <= k < pre.len() ==> out.deep_view()[k] == pre[k]);
            assert(out.deep_view()[pre.len() as int] == entries[i as int]@.name);
            assert(out.deep_view() =~= entry_names(entries.deep_view()).take(i + 1));
        }
        i = i + 1;
    }
    proof {
        assert(entry_names(entries.deep_view()).take(entries.len() as int) =~= entry_names(
            entries.deep_view(),
        ));
    }
    out
}

/// Reads the store's entries out of the file text: none for a blank
/// text, otherwise the text must be a JSON array of entry objects.
fn read_entries(data: &str) -> (r: Result<Vec<SkillEntry>, StoreError>)
    ensures
        r is Ok <==> store_entries(data@) is Some,
        r is Ok ==> store_entries(data@) == Some(r->Ok_0.deep_view()),
{
    if text_is_blank(data) {
        let out: Vec<SkillEntry> = Vec::new();
        proof {
            assert(out.deep_view() =~= Seq::<EntryV>::empty());
        }
        Ok(out)
    } else {
        match parse_entries(data) {
            Some(es) => Ok(es),
            None => Err(StoreError::Parse),
        }
    }
}

/// Loads the skill names the store text holds, in file order. A blank
/// text holds none; any other text must be a JSON array of entry
/// objects, or the load fails.
pub fn get_list_of_skills(data: &str) -> (r: Result<Vec<String>, StoreError>)
    ensures
        r is Ok <==> store_entries(data@) is Some,
        r is Ok ==> store_entries(data@) is Some && r->Ok_0.deep_view() == entry_names(
            store_entries(data@)->Some_0,
        ),
{
    match read_entries(data) {
        Ok(entries) => Ok(entry_name_list(&entries)),
        Err(e) => Err(e),
    }
}

/// Adds `skill_name` to the store text: the entries are read back, and
/// unless a name matching `skill_name` ignoring case is already
/// present, a new entry with no time spent is appended. The result is
/// the full text to write back to the file; the original entries are
/// kept in order, times included.
pub fn add_skill(data: &str, skill_name: &str) -> (r: Result<String, StoreError>)
    ensures
        r is Ok <==> store_entries(data@) is Some,
        r is Ok ==> store_entries(data@) is Some && r->Ok_0@ == spec_serialize(
            add_step(store_entries(data@)->Some_0, skill_name@),
        ),
        r is Ok ==> store_entries(r->Ok_0@) == Some(
            add_step(store_entries(data@)->Some_0, skill_name@),
        ),
{
    let mut entries = match read_entries(data) {
        Ok(es) => es,
        Err(e) => {
            return Err(e);
        },
    };
    let ghost es0 = entries.deep_view();
    let names = entry_name_list(&entries);
    let present = vector_contain_ignore_case(names, skill_name);
    proof {
        assert(present == has_name(es0, skill_name@)) by {
            if present {
                let k = choose|k: int|
                    0 <= k < entry_names(es0).len() && name_matches(
                        #[trigger] entry_names(es0)[k],
                        skill_name@,
                    );
                assert(name_matches(es0[k].name, skill_name@));
            } else if has_name(es0, skill_name@) {
                let k = choose|k: int|
                    0 <= k < es0.len() && name_matches(#[trigger] es0[k].name, skill_name@);
                assert(name_matches(entry_names(es0)[k], skill_name@));
            }
        }
    }
    if !present {
        entries.push(SkillEntry { name: skill_name.to_owned(), total_time_spent: 0 });
        proof {
            assert(entries.deep_view() =~= add_step(es0, skill_name@));
        }
    } else {
        proof {
            assert(entries.deep_view() =~= add_step(es0, skill_name@));
        }
    }
    proof {
        assert forall|k: int| 0 <= k < entries.deep_view().len() implies #[trigger] entries.deep_view()[k].time
            <= usize::MAX by {
            assert(entries.deep_view()[k] == entries[k]@);
        }
        crate::json::lemma_serialized_store_entries(entries.deep_view());
    }
    Ok(serialize_entries(&entries))
}


/// Adding a name and, after it, a second name that the store's
/// comparison counts as the same (the lowercased first name equals the
/// second ignoring ASCII case) leaves the entries exactly as the first
/// add left them: the second add is a no-op.
pub proof fn lemma_add_case_insensitive_dedup(es: Seq<EntryV>, a: Seq<char>, b: Seq<char>)
    ensures
        (!has_name(es, a) && name_matches(a, b)) ==> add_step(add_step(es, a), b) == add_step(
            es,
            a,
        ),
{
    if !has_name(es, a) && name_matches(a, b) {
        let es1 = add_step(es, a);
        assert(es1[es.len() as int].name == a);
        assert(has_name(es1, b));
    }
}

/// No two of the names count as the same under the store's comparison.
pub open spec fn ci_distinct(names: Seq<Seq<char>>) -> bool {
    forall|p: int, q: int|
        0 <= p < q < names.len() ==> !name_matches(#[trigger] names[p], #[trigger] names[q])
}

/// The entries a store holds after the names are added one by one,
/// starting from an empty store.
pub open spec fn entries_after_adds(names: Seq<Seq<char>>) -> Seq<EntryV>
    decreases names.len(),
{
    if names.len() == 0 {
        Seq::empty()
    } else {
        add_step(entries_after_adds(names.drop_last()), names.last())
    }
}

/// Adding pairwise-distinct names to an empty store records exactly
/// those names, in insertion order, each with no time spent: what a
/// load then returns is the names themselves.
pub proof fn lemma_adds_record_names_in_order(names: Seq<Seq<char>>)
    ensures
        ci_distinct(names) ==> entries_after_adds(names) == Seq::new(
            names.len(),
            |k: int| EntryV { name: names[k], time: 0 },
        ),
        ci_distinct(names) ==> entry_names(entries_after_adds(names)) == names,
    decreases names.len(),
{
    if ci_distinct(names) {
        let want = Seq::new(names.len(), |k: int| EntryV { name: names[k], time: 0 });
        if names.len() == 0 {
            assert(entries_after_adds(names) =~= want);
        } else {
            let prefix = names.drop_last();
            assert(ci_distinct(prefix)) by {
                assert(forall|p: int, q: int|
                    0 <= p < q < prefix.len() ==> !name_matches(
                        #[trigger] prefix[p],
                        #[trigger] prefix[q],
                    )) by {
                    assert(forall|p: int, q: int|
                        0 <= p < q < prefix.len() ==> prefix[p] == names[p] && prefix[q]
                            == names[q]);
                }
            }
            lemma_adds_record_names_in_order(prefix);
            let prev = entries_after_adds(prefix);
            assert(!has_name(prev, names.last())) by {
                if has_name(prev, names.last()) {
                    let k = choose|k: int|
                        0 <= k < prev.len() && name_matches(
                            #[trigger] prev[k].name,
                            names.last(),
                        );
                    assert(prev[k].name == names[k]);
                    assert(!name_matches(names[k], names[names.len() - 1]));
                }
            }
            assert(entries_after_adds(names) =~= want);
        }
        assert(entry_names(want) =~= names);
    }
}


/// The text on disk after pairwise-distinct names are added one by one
/// to an empty store.
pub open spec fn text_after_adds(names: Seq<Seq<char>>) -> Seq<char> {
    spec_serialize(entries_after_adds(names))
}

/// The load round trip: the text written by a sequence of adds of
/// pairwise-distinct names, read back, holds exactly those names, in
/// insertion order, each with no time spent.
pub proof fn lemma_adds_then_load_round_trip(names: Seq<Seq<char>>)
    ensures
        ci_distinct(names) ==> store_entries(text_after_adds(names)) == Some(
            entries_after_adds(names),
        ),
        ci_distinct(names) ==> entry_names(entries_after_adds(names)) == names,
{
    if ci_distinct(names) {
        lemma_adds_record_names_in_order(names);
        let es = entries_after_adds(names);
        assert(forall|k: int| 0 <= k < es.len() ==> #[trigger] es[k].time <= usize::MAX) by {
            assert(forall|k: int|
                0 <= k < es.len() ==> #[trigger] es[k] == (EntryV { name: names[k], time: 0 }));
        }
        crate::json::lemma_serialized_store_entries(es);
    }
}

} // verus!

