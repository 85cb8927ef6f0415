//! The mathematical model of the tag-association table: a sequence of
//! (record id, tag label) pairs, with the operations the store's contracts
//! are phrased in — the labels bound to one id, the pairs left when one id's
//! associations are dropped, and the pairs that adding a record appends.

use vstd::prelude::*;

verus! {

/// One association row: a record id and one tag label bound to it.
pub type TagPair = (Seq<char>, Seq<char>);

/// The labels bound to `id` in `tt`, in table order.
pub open spec fn tag_seq_of(tt: Seq<TagPair>, id: Seq<char>) -> Seq<Seq<char>>
    decreases tt.len(),
{
    if tt.len() == 0 {
        Seq::empty()
    } else {
        let rest = tag_seq_of(tt.drop_last(), id);
        if tt.last().0 == id {
            rest.push(tt.last().1)
        } else {
            rest
        }
    }
}

/// The labels bound to `id` in `tt`, as a set.
pub open spec fn tags_of(tt: Seq<TagPair>, id: Seq<char>) -> Set<Seq<char>> {
    tag_seq_of(tt, id).to_set()
}

/// The table `tt` with every association of `id` dropped, order kept.
pub open spec fn other_pairs(tt: Seq<TagPair>, id: Seq<char>) -> Seq<TagPair>
    decreases tt.len(),
{
    if tt.len() == 0 {
        Seq::empty()
    } else {
        let rest = other_pairs(tt.drop_last(), id);
        if tt.last().0 != id {
            rest.push(tt.last())
        } else {
            rest
        }
    }
}

/// The association rows that bind each label of `tags` to `id`, in order.
pub open spec fn pair_seq(id: Seq<char>, tags: Seq<Seq<char>>) -> Seq<TagPair> {
    tags.map_values(|t: Seq<char>| (id, t))
}

/// Pushing one pair extends `tag_seq_of` exactly when the pair binds `id`.
pub proof fn lemma_tag_seq_push(tt: Seq<TagPair>, id: Seq<char>, x: TagPair)
    ensures
        tag_seq_of(tt.push(x), id) == if x.0 == id {
            tag_seq_of(tt, id).push(x.1)
        } else {
            tag_seq_of(tt, id)
        },
{
    assert(tt.push(x).drop_last() =~= tt);
    assert(tt.push(x).last() == x);
}

/// Pushing one pair extends `other_pairs` exactly when the pair does not bind `id`.
pub proof fn lemma_other_push(tt: Seq<TagPair>, id: Seq<char>, x: TagPair)
    ensures
        other_pairs(tt.push(x), id) == if x.0 != id {
            other_pairs(tt, id).push(x)
        } else {
            other_pairs(tt, id)
        },
{
    assert(tt.push(x).drop_last() =~= tt);
    assert(tt.push(x).last() == x);
}

/// `tag_seq_of` distributes over concatenation of tables.
pub proof fn lemma_tag_seq_concat(a: Seq<TagPair>, b: Seq<TagPair>, id: Seq<char>)
    ensures
        tag_seq_of(a + b, id) == tag_seq_of(a, id) + tag_seq_of(b, id),
    decreases b.len(),
{
    if b.len() == 0 {
        assert(a + b =~= a);
        assert(tag_seq_of(a, id) + tag_seq_of(b, id) =~= tag_seq_of(a, id));
    } else {
        lemma_tag_seq_concat(a, b.drop_last(), id);
        assert((a + b).drop_last() =~= a + b.drop_last());
        assert((a + b).last() == b.last());
        if b.last().0 == id {
            assert(tag_seq_of(a, id) + tag_seq_of(b.drop_last(), id).push(b.last().1)
                =~= (tag_seq_of(a, id) + tag_seq_of(b.drop_last(), id)).push(b.last().1));
        }
    }
}


/// A table in which no pair binds `id` contributes no labels for `id`.
pub proof fn lemma_tag_seq_absent(tt: Seq<TagPair>, id: Seq<char>)
    requires
        forall|k: int| 0 <= k < tt.len() ==> (#[trigger] tt[k]).0 != id,
    ensures
        tag_seq_of(tt, id) == Seq::<Seq<char>>::empty(),
    decreases tt.len(),
{
    if tt.len() > 0 {
        assert forall|k: int| 0 <= k < tt.drop_last().len() implies (#[trigger] tt.drop_last()[k]).0
            != id by {
            assert(tt.drop_last()[k] == tt[k]);
        }
        lemma_tag_seq_absent(tt.drop_last(), id);
        assert(tt.last() == tt[tt.len() - 1]);
    }
}

/// The rows `pair_seq` builds for `id` carry back exactly the given labels.
pub proof fn lemma_pair_seq_same(id: Seq<char>, tags: Seq<Seq<char>>)
    ensures
        tag_seq_of(pair_seq(id, tags), id) == tags,
    decreases tags.len(),
{
    if tags.len() == 0 {
        assert(tag_seq_of(pair_seq(id, tags), id) =~= tags);
    } else {
        lemma_pair_seq_same(id, tags.drop_last());
        assert(pair_seq(id, tags).drop_last() =~= pair_seq(id, tags.drop_last()));
        assert(pair_seq(id, tags).last() == (id, tags.last()));
        assert(tags.drop_last().push(tags.last()) =~= tags);
    }
}

/// Every label `tag_seq_of` reports is bound to `id` by some pair of the table.
pub proof fn lemma_tag_seq_membership(tt: Seq<TagPair>, id: Seq<char>)
    ensures
        forall|k: int|
            0 <= k < tag_seq_of(tt, id).len() ==> tt.contains(
                (id, #[trigger] tag_seq_of(tt, id)[k]),
            ),
    decreases tt.len(),
{
    if tt.len() > 0 {
        lemma_tag_seq_membership(tt.drop_last(), id);
        let ts = tag_seq_of(tt, id);
        let rest = tag_seq_of(tt.drop_last(), id);
        assert forall|k: int| 0 <= k < ts.len() implies tt.contains((id, #[trigger] ts[k])) by {
            if tt.last().0 == id && k == ts.len() - 1 {
                assert(tt[tt.len() - 1] == (id, ts[k]));
            } else {
                assert(ts[k] == rest[k]);
                let j = choose|j: int|
                    0 <= j < tt.drop_last().len() && tt.drop_last()[j] == (id, rest[k]);
                assert(tt[j] == (id, ts[k]));
            }
        }
    }
}

/// Every pair `other_pairs` keeps comes from the table and does not bind `id`.
pub proof fn lemma_other_membership(tt: Seq<TagPair>, id: Seq<char>)
    ensures
        forall|k: int|
            0 <= k < other_pairs(tt, id).len() ==> tt.contains(#[trigger] other_pairs(tt, id)[k])
                && other_pairs(tt, id)[k].0 != id,
    decreases tt.len(),
{
    if tt.len() > 0 {
        lemma_other_membership(tt.drop_last(), id);
        let o = other_pairs(tt, id);
        let rest = other_pairs(tt.drop_last(), id);
        assert forall|k: int| 0 <= k < o.len() implies tt.contains(#[trigger] o[k]) && o[k].0
            != id by {
            if tt.last().0 != id && k == o.len() - 1 {
                assert(tt[tt.len() - 1] == o[k]);
            } else {
                assert(o[k] == rest[k]);
                let j = choose|j: int|
                    0 <= j < tt.drop_last().len() && tt.drop_last()[j] == rest[k];
                assert(tt[j] == o[k]);
            }
        }
    }
}

/// A table without repeated pairs binds no label to one id twice.
pub proof fn lemma_tag_seq_no_dup(tt: Seq<TagPair>, id: Seq<char>)
    requires
        tt.no_duplicates(),
    ensures
        tag_seq_of(tt, id).no_duplicates(),
    decreases tt.len(),
{
    if tt.len() > 0 {
        assert forall|i: int, j: int|
            0 <= i < tt.drop_last().len() && 0 <= j < tt.drop_last().len() && i != j
            implies tt.drop_last()[i] != tt.drop_last()[j] by {
            assert(tt.drop_last()[i] == tt[i]);
            assert(tt.drop_last()[j] == tt[j]);
        }
        lemma_tag_seq_no_dup(tt.drop_last(), id);
        if tt.last().0 == id {
            let rest = tag_seq_of(tt.drop_last(), id);
            let ts = tag_seq_of(tt, id);
            assert forall|i: int, j: int|
                0 <= i < ts.len() && 0 <= j < ts.len() && i != j implies ts[i] != ts[j] by {
                if i < ts.len() - 1 && j < ts.len() - 1 {
                    assert(ts[i] == rest[i]);
                    assert(ts[j] == rest[j]);
                } else {
                    let k = if i < j { i } else { j };
                    assert(ts[k] == rest[k]);
                    if ts[k] == tt.last().1 {
                        lemma_tag_seq_membership(tt.drop_last(), id);
                        assert(tt.drop_last().contains((id, rest[k])));
                        let m = choose|m: int|
                            0 <= m < tt.drop_last().len() && tt.drop_last()[m] == (id, rest[k]);
                        assert(tt[m] == (id, rest[k]));
                        assert(tt[tt.len() - 1] == (id, rest[k]));
                    }
                }
            }
        }
    }
}

/// Dropping one id's associations keeps the table free of repeated pairs.
pub proof fn lemma_other_no_dup(tt: Seq<TagPair>, id: Seq<char>)
    requires
        tt.no_duplicates(),
    ensures
        other_pairs(tt, id).no_duplicates(),
    decreases tt.len(),
{
    if tt.len() > 0 {
        assert forall|i: int, j: int|
            0 <= i < tt.drop_last().len() && 0 <= j < tt.drop_last().len() && i != j
            implies tt.drop_last()[i] != tt.drop_last()[j] by {
            assert(tt.drop_last()[i] == tt[i]);
            assert(tt.drop_last()[j] == tt[j]);
        }
        lemma_other_no_dup(tt.drop_last(), id);
        if tt.last().0 != id {
            let rest = other_pairs(tt.drop_last(), id);
            let o = other_pairs(tt, id);
            assert forall|i: int, j: int|
                0 <= i < o.len() && 0 <= j < o.len() && i != j implies o[i] != o[j] by {
                if i < o.len() - 1 && j < o.len() - 1 {
                    assert(o[i] == rest[i]);
                    assert(o[j] == rest[j]);
                } else {
                    let k = if i < j { i } else { j };
                    assert(o[k] == rest[k]);
                    if o[k] == tt.last() {
                        lemma_other_membership(tt.drop_last(), id);
                        assert(tt.drop_last().contains(rest[k]));
                        let m = choose|m: int|
                            0 <= m < tt.drop_last().len() && tt.drop_last()[m] == rest[k];
                        assert(tt[m] == rest[k]);
                        assert(tt[tt.len() - 1] == rest[k]);
                    }
                }
            }
        }
    }
}

/// The pairs binding an id and the pairs not binding it partition the table.
pub proof fn lemma_partition_len(tt: Seq<TagPair>, id: Seq<char>)
    ensures
        other_pairs(tt, id).len() + tag_seq_of(tt, id).len() == tt.len(),
    decreases tt.len(),
{
    if tt.len() > 0 {
        lemma_partition_len(tt.drop_last(), id);
    }
}

/// Dropping one id's associations does not touch the labels of any other id.
pub proof fn lemma_other_frame(tt: Seq<TagPair>, id: Seq<char>, x: Seq<char>)
    requires
        x != id,
    ensures
        tag_seq_of(other_pairs(tt, id), x) == tag_seq_of(tt, x),
    decreases tt.len(),
{
    if tt.len() > 0 {
        lemma_other_frame(tt.drop_last(), id, x);
        if tt.last().0 != id {
            lemma_tag_seq_push(other_pairs(tt.drop_last(), id), x, tt.last());
        }
    }
}

/// Sequence membership after a push: the old elements plus the new one.
pub proof fn lemma_push_contains<A>(s: Seq<A>, x: A, y: A)
    ensures
        s.push(x).contains(y) <==> (s.contains(y) || y == x),
{
    if s.contains(y) {
        let i = choose|i: int| 0 <= i < s.len() && s[i] == y;
        assert(s.push(x)[i] == y);
    }
    if y == x {
        assert(s.push(x)[s.len() as int] == y);
    }
    if s.push(x).contains(y) {
        let i = choose|i: int| 0 <= i < s.push(x).len() && s.push(x)[i] == y;
        if i < s.len() {
            assert(s[i] == y);
        }
    }
}

/// Removing one entry of a duplicate-free sequence keeps it duplicate-free
/// and removes exactly that entry from its membership.
pub proof fn lemma_remove_entry<A>(s: Seq<A>, i: int)
    requires
        s.no_duplicates(),
        0 <= i < s.len(),
    ensures
        s.remove(i).no_duplicates(),
        forall|y: A| s.remove(i).contains(y) <==> (s.contains(y) && y != s[i]),
{
    let r = s.remove(i);
    assert forall|a: int, b: int| 0 <= a < r.len() && 0 <= b < r.len() && a != b implies r[a]
        != r[b] by {
        let oa: int = if a < i { a } else { a + 1 };
        let ob: int = if b < i { b } else { b + 1 };
        assert(r[a] == s[oa]);
        assert(r[b] == s[ob]);
    }
    assert forall|y: A| r.contains(y) <==> (s.contains(y) && y != s[i]) by {
        if r.contains(y) {
            let a = choose|a: int| 0 <= a < r.len() && r[a] == y;
            let oa: int = if a < i { a } else { a + 1 };
            assert(s[oa] == y);
            assert(s.contains(y));
            assert(y != s[i]);
        }
        if s.contains(y) && y != s[i] {
            let oa = choose|oa: int| 0 <= oa < s.len() && s[oa] == y;
            let a: int = if oa < i { oa } else { oa - 1 };
            assert(r[a] == y);
            assert(r.contains(y));
        }
    }
}

} // verus!
