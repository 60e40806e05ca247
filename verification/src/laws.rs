//! The trie's laws, stated and proved once and for all over its
//! mathematical model: the map from stored words to frequencies that
//! `insert`, `build`, `search` and `autocomplete` speak of in their
//! contracts.

use crate::dictionary::{insert_all, Trie};
use vstd::prelude::*;

verus! {

/// Immediately after a word is inserted, the stored map holds it with the
/// inserted frequency — so `search` on that word finds exactly it.
pub proof fn lemma_search_after_insert(m: Map<Seq<char>, u128>, w: Seq<char>, f: u128)
    ensures
        m.insert(w, f).contains_key(w),
        m.insert(w, f)[w] == f,
{
}

/// Re-inserting a word overwrites its frequency — the last write wins —
/// and no other word is touched by the two writes.
pub proof fn lemma_last_write_wins(m: Map<Seq<char>, u128>, w: Seq<char>, f1: u128, f2: u128)
    ensures
        m.insert(w, f1).insert(w, f2)[w] == f2,
        forall|v: Seq<char>|
            v != w ==> #[trigger] m.insert(w, f1).insert(w, f2).contains_key(v)
                == m.contains_key(v),
        forall|v: Seq<char>|
            v != w && m.contains_key(v) ==> #[trigger] m.insert(w, f1).insert(w, f2)[v] == m[v],
{
}

/// A word that was never inserted stays unfound after an insert of another
/// word — in particular a strict prefix of the inserted word, and a word
/// sharing no path with it.
pub proof fn lemma_other_word_unfound(m: Map<Seq<char>, u128>, w: Seq<char>, f: u128, v: Seq<char>)
    requires
        v != w,
        !m.contains_key(v),
    ensures
        !m.insert(w, f).contains_key(v),
{
}

/// Reads are repeatable: `search` and `autocomplete` take the trie by
/// shared reference, and each result is fixed by the trie's contents and
/// the query alone, so repeated calls with no insert in between yield
/// identical results.
pub proof fn lemma_reads_idempotent(
    t: Trie,
    w: Seq<char>,
    p: Seq<char>,
    r1: Option<u128>,
    r2: Option<u128>,
    a1: Seq<(Seq<char>, u128)>,
    a2: Seq<(Seq<char>, u128)>,
)
    requires
        r1 == t.spec_lookup(w),
        r2 == t.spec_lookup(w),
        a1 == t.spec_autocomplete(p),
        a2 == t.spec_autocomplete(p),
    ensures
        r1 == r2,
        a1 == a2,
{
}

/// Building from a batch equals inserting the entries one by one in the
/// batch's order: the first entry is stored, then the rest of the batch —
/// so a later duplicate in the batch overwrites an earlier one.
pub proof fn lemma_build_is_sequential_inserts(
    m: Map<Seq<char>, u128>,
    entries: Seq<(Seq<char>, u128)>,
)
    requires
        entries.len() > 0,
    ensures
        insert_all(m, entries) == insert_all(
            m.insert(entries[0].0, entries[0].1),
            entries.drop_first(),
        ),
{
}

/// The frequency a batch assigns to `w`: that of the last entry for `w` in
/// the batch, if there is one.
pub open spec fn batch_lookup(entries: Seq<(Seq<char>, u128)>, w: Seq<char>) -> Option<u128>
    decreases entries.len(),
{
    if entries.len() == 0 {
        None
    } else {
        match batch_lookup(entries.drop_first(), w) {
            Some(f) => Some(f),
            None => if entries[0].0 == w {
                Some(entries[0].1)
            } else {
                None::<u128>
            },
        }
    }
}

/// What a built trie stores: for each word, the last frequency the batch
/// gives it, and otherwise whatever was stored before the batch.
pub proof fn lemma_insert_all_lookup(
    m: Map<Seq<char>, u128>,
    entries: Seq<(Seq<char>, u128)>,
    w: Seq<char>,
)
    ensures
        insert_all(m, entries).contains_key(w) <==> (batch_lookup(entries, w) is Some
            || m.contains_key(w)),
        batch_lookup(entries, w) is Some ==> insert_all(m, entries)[w] == batch_lookup(
            entries,
            w,
        )->0,
        batch_lookup(entries, w) is None && m.contains_key(w) ==> insert_all(m, entries)[w] == m[w],
    decreases entries.len(),
{
    if entries.len() > 0 {
        lemma_insert_all_lookup(m.insert(entries[0].0, entries[0].1), entries.drop_first(), w);
    }
}

} // verus!
