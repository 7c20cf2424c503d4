//! The contest joiner's table: from a contest's identifier to the time for
//! which the contest runs.
//!
//! The table is built once from the rows of the contest dataset and only read
//! afterwards. Where two rows carry the same identifier, the later row stands.

use crate::records::{contest_duration_of, ContestDuration, ContestRaw};
use vstd::prelude::*;

verus! {

/// The map from identifiers to durations that the rows of the contest dataset
/// give: each row that can be read is entered in turn, over any earlier entry
/// of the same identifier.
pub open spec fn contest_book(rows: Seq<ContestRaw>) -> Map<Seq<char>, ContestDuration>
    decreases rows.len(),
{
    if rows.len() == 0 {
        Map::empty()
    } else {
        let earlier = contest_book(rows.drop_last());
        match contest_duration_of(rows.last()) {
            Ok(duration) => earlier.insert(rows.last().id@, duration),
            Err(_) => earlier,
        }
    }
}

/// The map that a list of entries stands for, later entries standing over
/// earlier ones.
pub open spec fn listed(entries: Seq<(String, ContestDuration)>) -> Map<Seq<char>, ContestDuration>
    decreases entries.len(),
{
    if entries.len() == 0 {
        Map::empty()
    } else {
        listed(entries.drop_last()).insert(entries.last().0@, entries.last().1)
    }
}

/// An identifier that no entry carries is not listed.
pub proof fn lemma_unlisted(entries: Seq<(String, ContestDuration)>, id: Seq<char>)
    requires
        forall|j: int| 0 <= j < entries.len() ==> (#[trigger] entries[j]).0@ != id,
    ensures
        !listed(entries).dom().contains(id),
    decreases entries.len(),
{
    if entries.len() > 0 {
        let earlier = entries.drop_last();
        assert forall|j: int| 0 <= j < earlier.len() implies (#[trigger] earlier[j]).0@ != id by {
            assert(entries[j].0@ != id);
        }
        lemma_unlisted(earlier, id);
        assert(entries.last().0@ != id);
    }
}

/// An identifier is listed with the duration of the last entry that carries
/// it.
pub proof fn lemma_last_entry_stands(
    entries: Seq<(String, ContestDuration)>,
    id: Seq<char>,
    at: int,
)
    requires
        0 <= at < entries.len(),
        entries[at].0@ == id,
        forall|j: int| at < j < entries.len() ==> (#[trigger] entries[j]).0@ != id,
    ensures
        listed(entries).dom().contains(id),
        listed(entries)[id] == entries[at].1,
    decreases entries.len(),
{
    if at < entries.len() - 1 {
        let earlier = entries.drop_last();
        assert forall|j: int| at < j < earlier.len() implies (#[trigger] earlier[j]).0@ != id by {
            assert(entries[j].0@ != id);
        }
        assert(earlier[at] == entries[at]);
        lemma_last_entry_stands(earlier, id, at);
        assert(entries.last().0@ != id);
    }
}

/// The contests that can be looked up by their identifier.
pub struct ContestIndex {
    entries: Vec<(String, ContestDuration)>,
}

impl ContestIndex {
    /// The map that the index stands for.
    pub closed spec fn view(&self) -> Map<Seq<char>, ContestDuration> {
        listed(self.entries@)
    }

    /// The index of the contests in `rows`. Rows whose timestamps cannot be
    /// read are left out; of rows with the same identifier the last stands.
    pub fn build(rows: &Vec<ContestRaw>) -> (index: ContestIndex)
        ensures
            index@ == contest_book(rows@),
    {
        let mut entries: Vec<(String, ContestDuration)> = Vec::new();
        let mut i: usize = 0;
        while i < rows.len()
            invariant
                i <= rows.len(),
                listed(entries@) == contest_book(rows@.take(i as int)),
            decreases rows.len() - i,
        {
            proof {
                assert(rows@.take(i + 1).drop_last() =~= rows@.take(i as int));
            }
            let row = &rows[i];
            match ContestDuration::from(row) {
                Ok(duration) => {
                    let ghost before = entries@;
                    entries.push((row.id.clone(), duration));
                    proof {
                        assert(entries@.drop_last() =~= before);
                    }
                },
                Err(_) => {},
            }
            i += 1;
        }
        proof {
            assert(rows@.take(rows@.len() as int) =~= rows@);
        }
        ContestIndex { entries }
    }

    /// The duration of the contest with the identifier `id`, where the index
    /// holds one.
    pub fn get(&self, id: &String) -> (found: Option<ContestDuration>)
        ensures
            found == (if self@.dom().contains(id@) {
                Some(self@[id@])
            } else {
                None
            }),
    {
        let mut i: usize = self.entries.len();
        while i > 0
            invariant
                i <= self.entries@.len(),
                forall|j: int| i <= j < self.entries@.len() ==> (#[trigger] self.entries@[j]).0@ != id@,
            decreases i,
        {
            i -= 1;
            if self.entries[i].0 == *id {
                proof {
                    lemma_last_entry_stands(self.entries@, id@, i as int);
                }
                return Some(self.entries[i].1);
            }
        }
        proof {
            lemma_unlisted(self.entries@, id@);
        }
        None
    }
}

} // verus!
