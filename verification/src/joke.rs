//! The record type served by the store: a two-part text entry with an
//! optional provenance note and an optional set of tag labels.

use vstd::prelude::*;

verus! {

/// The mathematical content of a record: its core text fields together with
/// its tag labels as a set. Two records with the same summary carry the same
/// information, whatever order their tag lists use.
pub struct JokeSummary {
    pub whos_there: Seq<char>,
    pub answer_who: Seq<char>,
    pub source: Option<Seq<char>>,
    pub tags: Set<Seq<char>>,
}

/// A record as callers hand it in and get it back. `tags` is `None` when the
/// record has no tags at all; a present tag list is non-empty and free of
/// repeats (see [`Joke::spec_valid`]).
#[derive(Debug, Clone, PartialEq)]
pub struct Joke {
    pub id: String,
    pub whos_there: String,
    pub answer_who: String,
    pub source: Option<String>,
    pub tags: Option<Vec<String>>,
}

/// The views of a list of strings, as a sequence.
pub open spec fn string_views(ts: Seq<String>) -> Seq<Seq<char>> {
    ts.map_values(|t: String| t@)
}

/// The view of an optional string.
pub open spec fn opt_view(s: Option<String>) -> Option<Seq<char>> {
    match s {
        None => None,
        Some(x) => Some(x@),
    }
}

impl Joke {
    /// The record's tag labels in the order the caller listed them;
    /// empty when the record has no tags.
    pub open spec fn tag_seq(&self) -> Seq<Seq<char>> {
        match self.tags {
            None => Seq::empty(),
            Some(v) => string_views(v@),
        }
    }

    /// The record's tag labels as a set.
    pub open spec fn tag_set(&self) -> Set<Seq<char>> {
        self.tag_seq().to_set()
    }

    /// The record's abstract content.
    pub open spec fn summary(&self) -> JokeSummary {
        JokeSummary {
            whos_there: self.whos_there@,
            answer_who: self.answer_who@,
            source: opt_view(self.source),
            tags: self.tag_set(),
        }
    }

    /// A record is acceptable when its id is non-empty and its tag list,
    /// if present, is non-empty and names no label twice. The store rejects
    /// anything else as unprocessable.
    pub open spec fn spec_valid(&self) -> bool {
        &&& self.id@.len() > 0
        &&& match self.tags {
            None => true,
            Some(v) => v@.len() > 0 && string_views(v@).no_duplicates(),
        }
    }

    /// Decides [`Joke::spec_valid`].
    pub fn validate(&self) -> (r: bool)
        ensures
            r == self.spec_valid(),
    {
        if self.id.as_str().is_empty() {
            return false;
        }
        match &self.tags {
            None => true,
            Some(v) => {
                proof {
                    assert(self.tags == Some(*v));
                }
                if v.len() == 0 {
                    return false;
                }
                let mut i: usize = 0;
                while i < v.len()
                    invariant
                        self.tags == Some(*v),
                        self.id@.len() > 0,
                        v@.len() > 0,
                        i <= v@.len(),
                        forall|a: int, b: int|
                            0 <= a < i && a < b < v@.len() ==> v@[a]@ != v@[b]@,
                    decreases v@.len() - i,
                {
                    let mut j: usize = i + 1;
                    while j < v.len()
                        invariant
                            self.tags == Some(*v),
                            i < j <= v@.len(),
                            forall|b: int| i < b < j ==> v@[i as int]@ != v@[b]@,
                        decreases v@.len() - j,
                    {
                        if v[i] == v[j] {
                            proof {
                                assert(string_views(v@)[i as int] == v@[i as int]@);
                                assert(string_views(v@)[j as int] == v@[j as int]@);
                                assert(!string_views(v@).no_duplicates());
                            }
                            return false;
                        }
                        j += 1;
                    }
                    i += 1;
                }
                assert(string_views(v@).no_duplicates()) by {
                    assert forall|a: int, b: int|
                        0 <= a < string_views(v@).len() && 0 <= b < string_views(v@).len() && a != b
                        implies string_views(v@)[a] != string_views(v@)[b] by {
                        if a < b {
                            assert(v@[a]@ != v@[b]@);
                        } else {
                            assert(v@[b]@ != v@[a]@);
                        }
                    }
                }
                true
            },
        }
    }
}

} // verus!
