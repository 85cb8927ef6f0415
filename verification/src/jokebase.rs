//! The store itself: a record table and a tag-association table kept
//! consistent, with CRUD plus random-sample access. Every operation is
//! total on well-formed stores, never panics, and says exactly which
//! error it returns on which input. Mutations are all-or-nothing: on any
//! error the store is exactly what it was.

use vstd::prelude::*;

use crate::errors::JokeBaseErr;
use crate::joke::{opt_view, string_views, Joke, JokeSummary};
use crate::tags::{other_pairs, pair_seq, tag_seq_of, tags_of, TagPair};
use crate::tags::{
    lemma_other_membership, lemma_other_no_dup, lemma_push_contains, lemma_remove_entry,
    lemma_tag_seq_absent, lemma_tag_seq_concat, lemma_tag_seq_no_dup, lemma_tag_seq_push,
    lemma_other_push, lemma_other_frame, lemma_pair_seq_same,
};

verus! {

/// One row of the record table: the core fields of a record.
struct JokeRow {
    id: String,
    whos_there: String,
    answer_who: String,
    source: Option<String>,
}

/// One row of the tag-association table: one label bound to one record id.
struct TagRow {
    id: String,
    tag: String,
}

/// The association table a row list denotes.
spec fn table_of(rows: Seq<TagRow>) -> Seq<TagPair> {
    rows.map_values(|t: TagRow| (t.id@, t.tag@))
}

/// The store. Its abstract state (the view) is a map from record ids to
/// record content; [`JokeBase::tag_table`] exposes the association table
/// itself, so that callers can see that no orphan association survives a
/// delete or an update.
pub struct JokeBase {
    rows: Vec<JokeRow>,
    tag_rows: Vec<TagRow>,
}

impl View for JokeBase {
    type V = Map<Seq<char>, JokeSummary>;

    /// The abstract state: each stored id maps to the content kept under it.
    closed spec fn view(&self) -> Map<Seq<char>, JokeSummary> {
        Map::new(|id: Seq<char>| self.ids().contains(id), |id: Seq<char>| self.summary_at(id))
    }
}

impl JokeBase {
    /// The stored record ids, in insertion order.
    pub closed spec fn ids(&self) -> Seq<Seq<char>> {
        self.rows@.map_values(|r: JokeRow| r.id@)
    }

    /// The tag-association table, in insertion order.
    pub closed spec fn tag_table(&self) -> Seq<TagPair> {
        table_of(self.tag_rows@)
    }

    /// The position of the record that carries `id`.
    pub closed spec fn id_index(&self, id: Seq<char>) -> int {
        choose|i: int| 0 <= i < self.ids().len() && self.ids()[i] == id
    }

    /// The content stored under `id`.
    pub closed spec fn summary_at(&self, id: Seq<char>) -> JokeSummary {
        let r = self.rows@[self.id_index(id)];
        JokeSummary {
            whos_there: r.whos_there@,
            answer_who: r.answer_who@,
            source: opt_view(r.source),
            tags: tags_of(self.tag_table(), id),
        }
    }

    /// The store's invariants: ids are unique and non-empty, every
    /// association row references a stored record, and no association
    /// row is repeated.
    pub closed spec fn wf(&self) -> bool {
        &&& self.ids().no_duplicates()
        &&& (forall|i: int| 0 <= i < self.ids().len() ==> (#[trigger] self.ids()[i]).len() > 0)
        &&& (forall|k: int|
            0 <= k < self.tag_table().len() ==> self.ids().contains(
                (#[trigger] self.tag_table()[k]).0,
            ))
        &&& self.tag_table().no_duplicates()
    }

    /// A key is in the abstract state exactly when its id is stored.
    pub proof fn lemma_contains_key(&self)
        ensures
            forall|x: Seq<char>| #![auto] self@.contains_key(x) <==> self.ids().contains(x),
    {
    }

    /// With unique ids, `id_index` is the one position an id sits at.
    proof fn lemma_id_index_of(&self, i: int)
        requires
            self.ids().no_duplicates(),
            0 <= i < self.ids().len(),
        ensures
            self.id_index(self.ids()[i]) == i,
    {
        let id = self.ids()[i];
        assert(exists|j: int| 0 <= j < self.ids().len() && self.ids()[j] == id) by {
            assert(self.ids()[i] == id);
        }
        let j = self.id_index(id);
        assert(0 <= j < self.ids().len() && self.ids()[j] == id);
    }

    /// What the abstract state holds for the record at row `i`.
    proof fn lemma_entry(&self, i: int)
        requires
            self.ids().no_duplicates(),
            0 <= i < self.rows@.len(),
        ensures
            self@.contains_key(self.rows@[i].id@),
            self@[self.rows@[i].id@] == (JokeSummary {
                whos_there: self.rows@[i].whos_there@,
                answer_who: self.rows@[i].answer_who@,
                source: opt_view(self.rows@[i].source),
                tags: tags_of(self.tag_table(), self.rows@[i].id@),
            }),
    {
        assert(self.ids()[i] == self.rows@[i].id@);
        self.lemma_id_index_of(i);
        assert(self.ids().contains(self.ids()[i]));
    }

    /// A fresh store: no records, no associations.
    pub fn new() -> (s: JokeBase)
        ensures
            s.wf(),
            s@ == Map::<Seq<char>, JokeSummary>::empty(),
            s.ids() == Seq::<Seq<char>>::empty(),
            s.tag_table() == Seq::<TagPair>::empty(),
    {
        let s = JokeBase { rows: Vec::new(), tag_rows: Vec::new() };
        proof {
            assert(s.ids() =~= Seq::<Seq<char>>::empty());
            assert(s.tag_table() =~= Seq::<TagPair>::empty());
            assert(s@ =~= Map::<Seq<char>, JokeSummary>::empty());
        }
        s
    }

    /// The number of rows in the tag-association table. Lets callers observe
    /// that deleting a record removes exactly its own associations.
    pub fn tag_row_count(&self) -> (n: usize)
        ensures
            n == self.tag_table().len(),
    {
        self.tag_rows.len()
    }

    /// The position of the record carrying `index`, if any.
    fn find_row(&self, index: &str) -> (r: Option<usize>)
        ensures
            r matches Some(i) ==> (i < self.rows@.len() && self.ids()[i as int] == index@),
            r is Some <==> self.ids().contains(index@),
    {
        let needle = index.to_owned();
        let mut i: usize = 0;
        while i < self.rows.len()
            invariant
                needle@ == index@,
                i <= self.rows@.len(),
                forall|k: int| 0 <= k < i ==> self.ids()[k] != index@,
            decreases self.rows@.len() - i,
        {
            if self.rows[i].id == needle {
                proof {
                    assert(self.ids()[i as int] == index@);
                }
                return Some(i);
            }
            i += 1;
        }
        None
    }

    /// Every label bound to `index`, in table order.
    fn collect_tags(&self, index: &str) -> (v: Vec<String>)
        ensures
            string_views(v@) == tag_seq_of(self.tag_table(), index@),
    {
        let needle = index.to_owned();
        let mut out: Vec<String> = Vec::new();
        let mut k: usize = 0;
        while k < self.tag_rows.len()
            invariant
                needle@ == index@,
                k <= self.tag_rows@.len(),
                string_views(out@) == tag_seq_of(self.tag_table().take(k as int), index@),
            decreases self.tag_rows@.len() - k,
        {
            proof {
                let tt = self.tag_table();
                assert(tt.take(k as int + 1) =~= tt.take(k as int).push(tt[k as int]));
                lemma_tag_seq_push(tt.take(k as int), index@, tt[k as int]);
            }
            if self.tag_rows[k].id == needle {
                out.push(self.tag_rows[k].tag.clone());
                proof {
                    assert(string_views(out@) =~= tag_seq_of(
                        self.tag_table().take(k as int + 1),
                        index@,
                    ));
                }
            }
            k += 1;
        }
        proof {
            assert(self.tag_table().take(self.tag_rows@.len() as int) =~= self.tag_table());
        }
        out
    }

    /// Rebuilds the record at row `i` from its core row and its associations.
    fn to_joke(&self, i: usize) -> (j: Joke)
        requires
            self.wf(),
            i < self.rows@.len(),
        ensures
            j.id@ == self.ids()[i as int],
            self@.contains_key(j.id@),
            j.summary() == self@[j.id@],
            j.tag_seq() == tag_seq_of(self.tag_table(), j.id@),
            j.spec_valid(),
    {
        let row = &self.rows[i];
        let tag_list = self.collect_tags(row.id.as_str());
        proof {
            lemma_tag_seq_no_dup(self.tag_table(), row.id@);
        }
        let tags = if tag_list.len() == 0 {
            None
        } else {
            Some(tag_list)
        };
        let source = match &row.source {
            None => None,
            Some(s) => Some(s.clone()),
        };
        let j = Joke {
            id: row.id.clone(),
            whos_there: row.whos_there.clone(),
            answer_who: row.answer_who.clone(),
            source,
            tags,
        };
        proof {
            self.lemma_entry(i as int);
            assert(j.tag_seq() == tag_seq_of(self.tag_table(), j.id@));
            assert(j.summary() == self@[j.id@]);
        }
        j
    }

    /// Returns the record stored under `index`, with its full tag set;
    /// fails with `JokeDoesNotExist` exactly when no record carries `index`.
    pub fn get(&self, index: &str) -> (r: Result<Joke, JokeBaseErr>)
        requires
            self.wf(),
        ensures
            r is Ok <==> self@.contains_key(index@),
            r matches Ok(j) ==> (j.id@ == index@ && j.summary() == self@[index@]
                && j.tag_seq() == tag_seq_of(self.tag_table(), index@) && j.spec_valid()),
            r matches Err(e) ==> (e matches JokeBaseErr::JokeDoesNotExist(s) && s@ == index@),
    {
        match self.find_row(index) {
            Some(i) => Ok(self.to_joke(i)),
            None => Err(JokeBaseErr::JokeDoesNotExist(index.to_owned())),
        }
    }

    /// Returns every record with its full tag set, in insertion order.
    /// An empty store yields an empty list, not an error.
    pub fn get_jokes(&self) -> (r: Result<Vec<Joke>, JokeBaseErr>)
        requires
            self.wf(),
        ensures
            r is Ok,
            r matches Ok(v) ==> (v@.len() == self.ids().len() && (forall|i: int|
                0 <= i < v@.len() ==> (#[trigger] v@[i]).id@ == self.ids()[i]) && (forall|i: int|
                0 <= i < v@.len() ==> (#[trigger] v@[i]).summary() == self@[self.ids()[i]]) && (
            forall|i: int|
                0 <= i < v@.len() ==> (#[trigger] v@[i]).tag_seq() == tag_seq_of(
                    self.tag_table(),
                    self.ids()[i],
                )) && (forall|i: int| 0 <= i < v@.len() ==> (#[trigger] v@[i]).spec_valid())),
    {
        let mut out: Vec<Joke> = Vec::new();
        let mut i: usize = 0;
        while i < self.rows.len()
            invariant
                self.wf(),
                i <= self.rows@.len(),
                out@.len() == i,
                forall|k: int| 0 <= k < i ==> (#[trigger] out@[k]).id@ == self.ids()[k],
                forall|k: int| 0 <= k < i ==> (#[trigger] out@[k]).summary() == self@[self.ids()[k]],
                forall|k: int|
                    0 <= k < i ==> (#[trigger] out@[k]).tag_seq() == tag_seq_of(
                        self.tag_table(),
                        self.ids()[k],
                    ),
                forall|k: int| 0 <= k < i ==> (#[trigger] out@[k]).spec_valid(),
            decreases self.rows@.len() - i,
        {
            let j = self.to_joke(i);
            out.push(j);
            i += 1;
        }
        Ok(out)
    }

    /// Returns the record at position `pick % count`, so a uniformly chosen
    /// `pick` selects uniformly among records, never biased by tag counts.
    /// Fails with `NoJoke` exactly when the store is empty.
    pub fn get_random(&self, pick: usize) -> (r: Result<Joke, JokeBaseErr>)
        requires
            self.wf(),
        ensures
            r is Ok <==> self.ids().len() > 0,
            self.ids().len() == 0 ==> r == Err::<Joke, JokeBaseErr>(JokeBaseErr::NoJoke),
            r matches Ok(j) ==> (j.id@ == self.ids()[pick as int % self.ids().len() as int]
                && self@.contains_key(j.id@) && j.summary() == self@[j.id@] && j.spec_valid()),
    {
        let n = self.rows.len();
        if n == 0 {
            return Err(JokeBaseErr::NoJoke);
        }
        let i = pick % n;
        Ok(self.to_joke(i))
    }

    /// Appends one association row per label of `ts`, all bound to `id`.
    fn append_tags(&mut self, id: &String, ts: &Vec<String>)
        ensures
            final(self).rows@ == old(self).rows@,
            final(self).tag_table() == old(self).tag_table() + pair_seq(id@, string_views(ts@)),
    {
        let mut k: usize = 0;
        while k < ts.len()
            invariant
                k <= ts@.len(),
                self.rows@ == old(self).rows@,
                self.tag_table() == old(self).tag_table() + pair_seq(
                    id@,
                    string_views(ts@).take(k as int),
                ),
            decreases ts@.len() - k,
        {
            self.tag_rows.push(TagRow { id: id.clone(), tag: ts[k].clone() });
            proof {
                assert(self.tag_table() =~= (old(self).tag_table() + pair_seq(
                    id@,
                    string_views(ts@).take(k as int),
                )).push((id@, ts@[k as int]@)));
                assert(self.tag_table() =~= old(self).tag_table() + pair_seq(
                    id@,
                    string_views(ts@).take(k as int + 1),
                ));
            }
            k += 1;
        }
        proof {
            assert(string_views(ts@).take(ts@.len() as int) =~= string_views(ts@));
        }
    }

    /// Drops every association row bound to `index`, keeping the rest in order.
    fn remove_tags(&mut self, index: &str)
        ensures
            final(self).rows@ == old(self).rows@,
            final(self).tag_table() == other_pairs(old(self).tag_table(), index@),
    {
        let needle = index.to_owned();
        let mut kept: Vec<TagRow> = Vec::new();
        let mut k: usize = 0;
        while k < self.tag_rows.len()
            invariant
                needle@ == index@,
                k <= self.tag_rows@.len(),
                table_of(kept@) == other_pairs(self.tag_table().take(k as int), index@),
            decreases self.tag_rows@.len() - k,
        {
            proof {
                let tt = self.tag_table();
                assert(tt.take(k as int + 1) =~= tt.take(k as int).push(tt[k as int]));
                lemma_other_push(tt.take(k as int), index@, tt[k as int]);
            }
            if !(self.tag_rows[k].id == needle) {
                kept.push(
                    TagRow { id: self.tag_rows[k].id.clone(), tag: self.tag_rows[k].tag.clone() },
                );
                proof {
                    assert(table_of(kept@) =~= other_pairs(
                        self.tag_table().take(k as int + 1),
                        index@,
                    ));
                }
            }
            k += 1;
        }
        proof {
            assert(self.tag_table().take(self.tag_rows@.len() as int) =~= self.tag_table());
        }
        self.tag_rows = kept;
    }

    /// Inserts a new record with its full tag set, as one atomic unit.
    /// Fails with `JokeExists` exactly when the id is already present, and
    /// with `JokeUnprocessable` exactly when the record fails validation;
    /// a failed add leaves the store exactly as it was.
    pub fn add(&mut self, joke: Joke) -> (r: Result<(), JokeBaseErr>)
        requires
            old(self).wf(),
        ensures
            final(self).wf(),
            r is Ok <==> (joke.spec_valid() && !old(self)@.contains_key(joke.id@)),
            r is Ok ==> (final(self)@ == old(self)@.insert(joke.id@, joke.summary())
                && final(self).ids() == old(self).ids().push(joke.id@) && final(self).tag_table()
                == old(self).tag_table() + pair_seq(joke.id@, joke.tag_seq())),
            r matches Err(e) ==> (*final(self) == *old(self) && (match e {
                JokeBaseErr::JokeExists(s) => s@ == joke.id@ && old(self)@.contains_key(joke.id@),
                JokeBaseErr::JokeUnprocessable(_) => !old(self)@.contains_key(joke.id@)
                    && !joke.spec_valid(),
                _ => false,
            })),
    {
        if self.find_row(joke.id.as_str()).is_some() {
            return Err(JokeBaseErr::JokeExists(joke.id));
        }
        if !joke.validate() {
            return Err(JokeBaseErr::JokeUnprocessable("rejected by validation".to_owned()));
        }
        let ghost prev = *self;
        let ghost j0 = joke;
        let Joke { id, whos_there, answer_who, source, tags } = joke;
        self.rows.push(JokeRow { id: id.clone(), whos_there, answer_who, source });
        match tags {
            None => {
                proof {
                    assert(pair_seq(j0.id@, j0.tag_seq()) =~= Seq::<TagPair>::empty());
                    assert(self.tag_table() =~= prev.tag_table() + pair_seq(
                        j0.id@,
                        j0.tag_seq(),
                    ));
                }
            },
            Some(ts) => {
                self.append_tags(&id, &ts);
                proof {
                    assert(string_views(ts@) == j0.tag_seq());
                }
            },
        }
        proof {
            lemma_view_insert(prev, *self, j0);
        }
        Ok(())
    }

    /// Replaces the record under `index` — core fields and the entire tag
    /// set — as one atomic unit. Fails with `JokeDoesNotExist` exactly when
    /// `index` is absent, and with `JokeUnprocessable` exactly when the new
    /// record fails validation or names a different id; a failed update
    /// leaves the store exactly as it was.
    pub fn update(&mut self, index: &str, joke: Joke) -> (r: Result<(), JokeBaseErr>)
        requires
            old(self).wf(),
        ensures
            final(self).wf(),
            r is Ok <==> (old(self)@.contains_key(index@) && joke.spec_valid() && joke.id@
                == index@),
            r is Ok ==> (final(self)@ == old(self)@.insert(index@, joke.summary())
                && final(self).ids() == old(self).ids() && final(self).tag_table() == other_pairs(
                old(self).tag_table(),
                index@,
            ) + pair_seq(index@, joke.tag_seq())),
            r matches Err(e) ==> (*final(self) == *old(self) && (match e {
                JokeBaseErr::JokeDoesNotExist(s) => s@ == index@ && !old(self)@.contains_key(
                    index@,
                ),
                JokeBaseErr::JokeUnprocessable(_) => old(self)@.contains_key(index@) && !(
                joke.spec_valid() && joke.id@ == index@),
                _ => false,
            })),
    {
        let i = match self.find_row(index) {
            None => {
                return Err(JokeBaseErr::JokeDoesNotExist(index.to_owned()));
            },
            Some(i) => i,
        };
        let valid = joke.validate();
        let id_matches = joke.id == index.to_owned();
        if !(valid && id_matches) {
            return Err(JokeBaseErr::JokeUnprocessable("rejected by validation".to_owned()));
        }
        let ghost prev = *self;
        let ghost j0 = joke;
        let Joke { id, whos_there, answer_who, source, tags } = joke;
        let _ = self.rows.remove(i);
        self.rows.insert(i, JokeRow { id: id.clone(), whos_there, answer_who, source });
        self.remove_tags(index);
        match tags {
            None => {
                proof {
                    assert(pair_seq(j0.id@, j0.tag_seq()) =~= Seq::<TagPair>::empty());
                    assert(self.tag_table() =~= other_pairs(prev.tag_table(), index@) + pair_seq(
                        j0.id@,
                        j0.tag_seq(),
                    ));
                }
            },
            Some(ts) => {
                self.append_tags(&id, &ts);
                proof {
                    assert(string_views(ts@) == j0.tag_seq());
                }
            },
        }
        proof {
            assert forall|k: int|
                0 <= k < prev.rows@.len() && k != i as int implies self.rows@[k]
                == prev.rows@[k] by {
                assert(self.rows@[k] == prev.rows@.remove(i as int).insert(
                    i as int,
                    self.rows@[i as int],
                )[k]);
            }
            lemma_view_update(prev, *self, j0, i as int);
        }
        Ok(())
    }

    /// Removes the record under `index` and every one of its associations,
    /// as one atomic unit. Fails with `JokeDoesNotExist` exactly when
    /// `index` is absent; a failed delete leaves the store exactly as it was.
    pub fn delete(&mut self, index: &str) -> (r: Result<(), JokeBaseErr>)
        requires
            old(self).wf(),
        ensures
            final(self).wf(),
            r is Ok <==> old(self)@.contains_key(index@),
            r is Ok ==> (final(self)@ == old(self)@.remove(index@) && final(self).ids()
                == old(self).ids().remove(old(self).id_index(index@)) && final(self).tag_table()
                == other_pairs(old(self).tag_table(), index@)),
            r matches Err(e) ==> (*final(self) == *old(self) && (e
                matches JokeBaseErr::JokeDoesNotExist(s) && s@ == index@)),
    {
        let i = match self.find_row(index) {
            None => {
                return Err(JokeBaseErr::JokeDoesNotExist(index.to_owned()));
            },
            Some(i) => i,
        };
        let ghost prev = *self;
        let _ = self.rows.remove(i);
        self.remove_tags(index);
        proof {
            prev.lemma_id_index_of(i as int);
            lemma_view_remove(prev, *self, index@, i as int);
        }
        Ok(())
    }
}

/// After appending a fresh record's row and associations, the store is
/// well-formed again and its abstract state is the old one plus the record.
proof fn lemma_view_insert(prev: JokeBase, cur: JokeBase, j: Joke)
    requires
        prev.wf(),
        j.spec_valid(),
        !prev.ids().contains(j.id@),
        cur.rows@.len() == prev.rows@.len() + 1,
        forall|k: int| 0 <= k < prev.rows@.len() ==> cur.rows@[k] == prev.rows@[k],
        cur.rows@[prev.rows@.len() as int].id@ == j.id@,
        cur.rows@[prev.rows@.len() as int].whos_there@ == j.whos_there@,
        cur.rows@[prev.rows@.len() as int].answer_who@ == j.answer_who@,
        opt_view(cur.rows@[prev.rows@.len() as int].source) == opt_view(j.source),
        cur.tag_table() == prev.tag_table() + pair_seq(j.id@, j.tag_seq()),
    ensures
        cur.wf(),
        cur.ids() == prev.ids().push(j.id@),
        cur@ == prev@.insert(j.id@, j.summary()),
{
    let n = prev.rows@.len() as int;
    let pt = prev.tag_table();
    let ps = pair_seq(j.id@, j.tag_seq());
    let tt = cur.tag_table();
    assert(cur.ids() =~= prev.ids().push(j.id@));
    assert forall|k: int| 0 <= k < pt.len() implies (#[trigger] pt[k]).0 != j.id@ by {
        assert(prev.ids().contains(pt[k].0));
    }
    // well-formedness
    assert forall|a: int, b: int|
        0 <= a < cur.ids().len() && 0 <= b < cur.ids().len() && a != b implies cur.ids()[a]
        != cur.ids()[b] by {
        if a < n && b < n {
        } else {
            let c = if a < b { a } else { b };
            if cur.ids()[c] == j.id@ {
                assert(prev.ids().contains(prev.ids()[c]));
            }
        }
    }
    assert forall|k: int| 0 <= k < tt.len() implies cur.ids().contains((#[trigger] tt[k]).0) by {
        if k < pt.len() {
            assert(tt[k] == pt[k]);
            lemma_push_contains(prev.ids(), j.id@, pt[k].0);
        } else {
            assert(tt[k] == ps[k - pt.len()]);
            assert(tt[k].0 == j.id@);
            lemma_push_contains(prev.ids(), j.id@, j.id@);
        }
    }
    assert forall|a: int, b: int| 0 <= a < tt.len() && 0 <= b < tt.len() && a != b implies tt[a]
        != tt[b] by {
        if a < pt.len() && b < pt.len() {
            assert(tt[a] == pt[a]);
            assert(tt[b] == pt[b]);
        } else if a >= pt.len() && b >= pt.len() {
            assert(tt[a] == ps[a - pt.len()]);
            assert(tt[b] == ps[b - pt.len()]);
            assert(j.tag_seq().no_duplicates());
        } else {
            let c = if a < b { a } else { b };
            let d = if a < b { b } else { a };
            assert(tt[c] == pt[c]);
            assert(tt[d] == ps[d - pt.len()]);
            assert(tt[d].0 == j.id@);
        }
    }
    assert(cur.wf());
    // the abstract state
    lemma_tag_seq_concat(pt, ps, j.id@);
    lemma_tag_seq_absent(pt, j.id@);
    lemma_pair_seq_same(j.id@, j.tag_seq());
    assert(Seq::<Seq<char>>::empty() + j.tag_seq() =~= j.tag_seq());
    assert(tag_seq_of(tt, j.id@) == j.tag_seq());
    assert forall|x: Seq<char>|
        cur@.contains_key(x) <==> prev@.insert(j.id@, j.summary()).contains_key(x) by {
        lemma_push_contains(prev.ids(), j.id@, x);
    }
    assert forall|x: Seq<char>| #![auto] cur@.contains_key(x) implies cur@[x] == prev@.insert(
        j.id@,
        j.summary(),
    )[x] by {
        lemma_push_contains(prev.ids(), j.id@, x);
        if x == j.id@ {
            cur.lemma_id_index_of(n);
            assert(cur@[x] == cur.summary_at(x));
            assert(cur.summary_at(x).tags == j.tag_set());
        } else {
            let i = choose|i: int| 0 <= i < prev.ids().len() && prev.ids()[i] == x;
            prev.lemma_id_index_of(i);
            cur.lemma_id_index_of(i);
            assert(cur.rows@[i] == prev.rows@[i]);
            lemma_tag_seq_concat(pt, ps, x);
            assert forall|k: int| 0 <= k < ps.len() implies (#[trigger] ps[k]).0 != x by {
                assert(ps[k] == (j.id@, j.tag_seq()[k]));
            }
            lemma_tag_seq_absent(ps, x);
            assert(tag_seq_of(pt, x) + Seq::<Seq<char>>::empty() =~= tag_seq_of(pt, x));
            assert(tag_seq_of(tt, x) == tag_seq_of(pt, x));
        }
    }
    assert(cur@ =~= prev@.insert(j.id@, j.summary()));
}

/// After replacing one record's row and associations in place, the store is
/// well-formed again and its abstract state maps the id to the new content.
proof fn lemma_view_update(prev: JokeBase, cur: JokeBase, j: Joke, i: int)
    requires
        prev.wf(),
        j.spec_valid(),
        0 <= i < prev.rows@.len(),
        prev.ids()[i] == j.id@,
        cur.rows@.len() == prev.rows@.len(),
        forall|k: int| 0 <= k < prev.rows@.len() && k != i ==> cur.rows@[k] == prev.rows@[k],
        cur.rows@[i].id@ == j.id@,
        cur.rows@[i].whos_there@ == j.whos_there@,
        cur.rows@[i].answer_who@ == j.answer_who@,
        opt_view(cur.rows@[i].source) == opt_view(j.source),
        cur.tag_table() == other_pairs(prev.tag_table(), j.id@) + pair_seq(j.id@, j.tag_seq()),
    ensures
        cur.wf(),
        cur.ids() == prev.ids(),
        cur@ == prev@.insert(j.id@, j.summary()),
{
    let pt = prev.tag_table();
    let op = other_pairs(pt, j.id@);
    let ps = pair_seq(j.id@, j.tag_seq());
    let tt = cur.tag_table();
    assert(cur.ids() =~= prev.ids());
    lemma_other_membership(pt, j.id@);
    lemma_other_no_dup(pt, j.id@);
    // well-formedness
    assert forall|k: int| 0 <= k < tt.len() implies cur.ids().contains((#[trigger] tt[k]).0) by {
        if k < op.len() {
            assert(tt[k] == op[k]);
            assert(pt.contains(op[k]));
            let m = choose|m: int| 0 <= m < pt.len() && pt[m] == op[k];
            assert(prev.ids().contains(pt[m].0));
        } else {
            assert(tt[k] == ps[k - op.len()]);
            assert(tt[k].0 == j.id@);
            assert(prev.ids()[i] == j.id@);
        }
    }
    assert forall|a: int, b: int| 0 <= a < tt.len() && 0 <= b < tt.len() && a != b implies tt[a]
        != tt[b] by {
        if a < op.len() && b < op.len() {
            assert(tt[a] == op[a]);
            assert(tt[b] == op[b]);
        } else if a >= op.len() && b >= op.len() {
            assert(tt[a] == ps[a - op.len()]);
            assert(tt[b] == ps[b - op.len()]);
            assert(j.tag_seq().no_duplicates());
        } else {
            let c = if a < b { a } else { b };
            let d = if a < b { b } else { a };
            assert(tt[c] == op[c]);
            assert(tt[d] == ps[d - op.len()]);
            assert(tt[d].0 == j.id@);
            assert(op[c].0 != j.id@);
        }
    }
    assert(cur.wf());
    // the abstract state
    lemma_tag_seq_concat(op, ps, j.id@);
    assert forall|k: int| 0 <= k < op.len() implies (#[trigger] op[k]).0 != j.id@ by {}
    lemma_tag_seq_absent(op, j.id@);
    lemma_pair_seq_same(j.id@, j.tag_seq());
    assert(Seq::<Seq<char>>::empty() + j.tag_seq() =~= j.tag_seq());
    assert(tag_seq_of(tt, j.id@) == j.tag_seq());
    assert forall|x: Seq<char>|
        cur@.contains_key(x) <==> prev@.insert(j.id@, j.summary()).contains_key(x) by {
        if x == j.id@ {
            assert(prev.ids().contains(prev.ids()[i]));
        }
    }
    assert forall|x: Seq<char>| #![auto] cur@.contains_key(x) implies cur@[x] == prev@.insert(
        j.id@,
        j.summary(),
    )[x] by {
        if x == j.id@ {
            cur.lemma_id_index_of(i);
            assert(cur@[x] == cur.summary_at(x));
            assert(cur.summary_at(x).tags == j.tag_set());
        } else {
            let m = choose|m: int| 0 <= m < prev.ids().len() && prev.ids()[m] == x;
            prev.lemma_id_index_of(m);
            cur.lemma_id_index_of(m);
            assert(m != i);
            assert(cur.rows@[m] == prev.rows@[m]);
            lemma_tag_seq_concat(op, ps, x);
            assert forall|k: int| 0 <= k < ps.len() implies (#[trigger] ps[k]).0 != x by {
                assert(ps[k] == (j.id@, j.tag_seq()[k]));
            }
            lemma_tag_seq_absent(ps, x);
            lemma_other_frame(pt, j.id@, x);
            assert(tag_seq_of(op, x) + Seq::<Seq<char>>::empty() =~= tag_seq_of(op, x));
            assert(tag_seq_of(tt, x) == tag_seq_of(pt, x));
        }
    }
    assert(cur@ =~= prev@.insert(j.id@, j.summary()));
}

/// After removing one record's row and all its associations, the store is
/// well-formed again and its abstract state is the old one without the id.
proof fn lemma_view_remove(prev: JokeBase, cur: JokeBase, id: Seq<char>, i: int)
    requires
        prev.wf(),
        0 <= i < prev.rows@.len(),
        prev.ids()[i] == id,
        cur.rows@ == prev.rows@.remove(i),
        cur.tag_table() == other_pairs(prev.tag_table(), id),
    ensures
        cur.wf(),
        cur.ids() == prev.ids().remove(i),
        cur@ == prev@.remove(id),
{
    let pt = prev.tag_table();
    let op = other_pairs(pt, id);
    assert(cur.ids() =~= prev.ids().remove(i));
    lemma_remove_entry(prev.ids(), i);
    lemma_other_membership(pt, id);
    lemma_other_no_dup(pt, id);
    // well-formedness
    assert forall|k: int| 0 <= k < cur.ids().len() implies (#[trigger] cur.ids()[k]).len() > 0 by {
        let ok: int = if k < i {
            k
        } else {
            k + 1
        };
        assert(cur.ids()[k] == prev.ids()[ok]);
    }
    assert forall|k: int| 0 <= k < op.len() implies cur.ids().contains((#[trigger] op[k]).0) by {
        assert(pt.contains(op[k]));
        let m = choose|m: int| 0 <= m < pt.len() && pt[m] == op[k];
        assert(prev.ids().contains(pt[m].0));
        assert(op[k].0 != id);
    }
    assert(cur.wf());
    // the abstract state
    assert forall|x: Seq<char>| cur@.contains_key(x) <==> prev@.remove(id).contains_key(x) by {}
    assert forall|x: Seq<char>| #![auto] cur@.contains_key(x) implies cur@[x] == prev@.remove(
        id,
    )[x] by {
        let m = choose|m: int| 0 <= m < prev.ids().len() && prev.ids()[m] == x;
        prev.lemma_id_index_of(m);
        assert(m != i);
        let c: int = if m < i {
            m
        } else {
            m - 1
        };
        assert(cur.ids()[c] == prev.ids()[m]);
        cur.lemma_id_index_of(c);
        assert(cur.rows@[c] == prev.rows@[m]);
        lemma_other_frame(pt, id, x);
    }
    assert(cur@ =~= prev@.remove(id));
}

} // verus!
