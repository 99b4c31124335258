use vstd::prelude::*;

use crate::node::is_prefix;
use crate::trie::{strings_of, Trie};

verus! {

/// After `s` (non-empty) is inserted it is contained, and after it is then
/// removed it is not.
pub proof fn lemma_round_trip(before: &Trie, inserted: &Trie, removed: &Trie, s: Seq<char>)
    requires
        s.len() > 0,
        inserted@ == before@.insert(s),
        removed@ == inserted@.remove(s),
    ensures
        inserted@.contains(s),
        !removed@.contains(s),
{
}

/// Inserting a string that is already stored changes nothing, so the count
/// stays the same.
pub proof fn lemma_insert_idempotent(before: &Trie, after: &Trie, s: Seq<char>)
    requires
        before.wf(),
        before@.contains(s),
        after@ == before@.insert(s),
    ensures
        after@ == before@,
        after@.len() == before@.len(),
{
    assert(after@ =~= before@);
}

/// A stored string, and every prefix of it, is a prefix of some stored string.
pub proof fn lemma_prefix_monotone(t: &Trie, s: Seq<char>, p: Seq<char>)
    requires
        t@.contains(s),
        is_prefix(p, s),
    ensures
        exists|w: Seq<char>| t@.contains(w) && is_prefix(s, w),
        exists|w: Seq<char>| t@.contains(w) && is_prefix(p, w),
{
    assert(s.subrange(0, s.len() as int) =~= s);
    assert(is_prefix(s, s));
}

/// A listing that holds every stored string exactly once is as long as the
/// count of stored strings.
pub proof fn lemma_size_matches_listing(t: &Trie, listing: Seq<String>)
    requires
        t.wf(),
        strings_of(listing).to_set() == t@,
        strings_of(listing).no_duplicates(),
    ensures
        listing.len() == t@.len(),
{
    t.lemma_finite();
    strings_of(listing).unique_seq_to_set();
}

/// The empty string is never stored, so removing it leaves the set as it is.
pub proof fn lemma_empty_input(t: &Trie)
    ensures
        !t@.contains(Seq::<char>::empty()),
        t@.remove(Seq::<char>::empty()) == t@,
{
    t.lemma_empty_not_stored();
    assert(t@.remove(Seq::<char>::empty()) =~= t@);
}

/// Building from distinct non-empty strings and listing the result gives back
/// exactly those strings, each once.
pub proof fn lemma_enumeration_complete(strings: Seq<Seq<char>>, stored: Set<Seq<char>>, listing: Seq<String>)
    requires
        strings.no_duplicates(),
        forall|j: int| 0 <= j < strings.len() ==> (#[trigger] strings[j]).len() > 0,
        stored == Set::new(|w: Seq<char>| w.len() > 0 && exists|j: int| 0 <= j < strings.len() && strings[j] == w),
        strings_of(listing).to_set() == stored,
        strings_of(listing).no_duplicates(),
    ensures
        strings_of(listing).to_set() == strings.to_set(),
        listing.len() == strings.len(),
{
    assert(stored =~= strings.to_set());
    strings.unique_seq_to_set();
    strings_of(listing).unique_seq_to_set();
}

} // verus!
