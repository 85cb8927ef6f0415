//! The store's cross-operation guarantees, stated and proved once over the
//! spec functions that the operations' contracts are phrased in.

use vstd::prelude::*;

use crate::joke::{Joke, JokeSummary};
use crate::jokebase::JokeBase;
use crate::tags::{other_pairs, pair_seq, tag_seq_of, tags_of, TagPair};
use crate::tags::{
    lemma_other_frame, lemma_other_membership, lemma_pair_seq_same, lemma_partition_len,
    lemma_tag_seq_absent, lemma_tag_seq_concat, lemma_tag_seq_no_dup,
};

verus! {

/// Round trip: `add` turns state `m` into `m.insert(j.id@, j.summary())`,
/// and on that state `get(j.id)` is owed success and returns the stored
/// summary — the added record's content, its tag set included.
pub proof fn law_round_trip(m: Map<Seq<char>, JokeSummary>, j: Joke)
    requires
        j.spec_valid(),
    ensures
        m.insert(j.id@, j.summary()).contains_key(j.id@),
        m.insert(j.id@, j.summary())[j.id@] == j.summary(),
        m.insert(j.id@, j.summary())[j.id@].tags == j.tag_set(),
{
}

/// Uniqueness: once `add(j)` has succeeded, the id is present, so a second
/// `add` of any record carrying the same id meets the `JokeExists` case of
/// `add`'s contract — it fails and leaves the store unchanged.
pub proof fn law_duplicate_add(m: Map<Seq<char>, JokeSummary>, j: Joke, j2: Joke)
    requires
        j2.id@ == j.id@,
    ensures
        m.insert(j.id@, j.summary()).contains_key(j2.id@),
{
}

/// Empty-store random selection: a store holds no record exactly when its
/// abstract state is the empty map, and on such a store `get_random`'s
/// contract forces the `NoJoke` error.
pub proof fn law_empty_store(b: JokeBase)
    ensures
        b.ids().len() == 0 <==> b@ == Map::<Seq<char>, JokeSummary>::empty(),
{
    b.lemma_contains_key();
    if b.ids().len() == 0 {
        assert forall|x: Seq<char>| !b@.contains_key(x) by {
            if b.ids().contains(x) {
                let i = choose|i: int| 0 <= i < b.ids().len() && b.ids()[i] == x;
            }
        }
        assert(b@ =~= Map::<Seq<char>, JokeSummary>::empty());
    }
    if b@ == Map::<Seq<char>, JokeSummary>::empty() && b.ids().len() > 0 {
        assert(b.ids().contains(b.ids()[0]));
        assert(b@.contains_key(b.ids()[0]));
    }
}

/// Delete cascades: dropping a record's associations leaves no pair that
/// references it, and shrinks the association table by exactly the number
/// of distinct labels the record carried.
pub proof fn law_delete_cascades(tt: Seq<TagPair>, id: Seq<char>)
    requires
        tt.no_duplicates(),
    ensures
        forall|k: int|
            0 <= k < other_pairs(tt, id).len() ==> (#[trigger] other_pairs(tt, id)[k]).0 != id,
        other_pairs(tt, id).len() + tags_of(tt, id).len() == tt.len(),
{
    lemma_other_membership(tt, id);
    lemma_partition_len(tt, id);
    lemma_tag_seq_no_dup(tt, id);
    tag_seq_of(tt, id).unique_seq_to_set();
}

/// Update replaces the tag set fully: after `update` rewrites the table to
/// `other_pairs(tt, id) + pair_seq(id, newtags)`, the id's tag set is exactly
/// the new labels — old labels are gone, nothing is merged — and the tag set
/// of every other id is untouched.
pub proof fn law_update_replaces_tags(
    tt: Seq<TagPair>,
    id: Seq<char>,
    newtags: Seq<Seq<char>>,
    x: Seq<char>,
)
    requires
        x != id,
    ensures
        tags_of(other_pairs(tt, id) + pair_seq(id, newtags), id) == newtags.to_set(),
        tags_of(other_pairs(tt, id) + pair_seq(id, newtags), x) == tags_of(tt, x),
{
    let op = other_pairs(tt, id);
    let ps = pair_seq(id, newtags);
    lemma_other_membership(tt, id);
    lemma_tag_seq_concat(op, ps, id);
    lemma_tag_seq_absent(op, id);
    lemma_pair_seq_same(id, newtags);
    assert(Seq::<Seq<char>>::empty() + newtags =~= newtags);
    lemma_tag_seq_concat(op, ps, x);
    assert forall|k: int| 0 <= k < ps.len() implies (#[trigger] ps[k]).0 != x by {
        assert(ps[k] == (id, newtags[k]));
    }
    lemma_tag_seq_absent(ps, x);
    lemma_other_frame(tt, id, x);
    assert(tag_seq_of(tt, x) + Seq::<Seq<char>>::empty() =~= tag_seq_of(tt, x));
}

} // verus!
