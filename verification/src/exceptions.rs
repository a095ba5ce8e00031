use vstd::prelude::*;
use vstd::hash_map::StringHashMap;

verus! {

/// The words whose breaks are known: each with its breaks, as they were
/// given. A word is found only as it was written when it was added.
#[verifier::reject_recursive_types(E)]
pub struct Exceptions<E> {
    table: StringHashMap<Vec<E>>,
}

impl<E> View for Exceptions<E> {
    type V = Map<Seq<char>, Seq<E>>;

    closed spec fn view(&self) -> Self::V {
        self.table@.map_values(|breaks: Vec<E>| breaks@)
    }
}

/// What a table holds after the words of `entries` were added to it one
/// after the other: of a word that comes twice, the breaks that came last.
pub open spec fn table_of<E>(entries: Seq<(String, Vec<E>)>) -> Map<Seq<char>, Seq<E>>
    decreases entries.len(),
{
    if entries.len() == 0 {
        Map::empty()
    } else {
        table_of(entries.drop_last()).insert(entries.last().0@, entries.last().1@)
    }
}

impl<E> Exceptions<E> {
    /// A table without words.
    pub fn new() -> (table: Self)
        ensures
            table@ == Map::<Seq<char>, Seq<E>>::empty(),
    {
        let table = Exceptions { table: StringHashMap::new() };
        assert(table@ =~= Map::<Seq<char>, Seq<E>>::empty());
        table
    }

    /// The breaks known for `word`, if it is in the table.
    pub fn get(&self, word: &str) -> (known: Option<&Vec<E>>)
        ensures
            match known {
                Some(breaks) => self@.contains_key(word@) && breaks@ == self@[word@],
                None => !self@.contains_key(word@),
            },
    {
        self.table.get(word)
    }

    /// Notes `breaks` for `word`, over what was known for it.
    pub fn set(&mut self, word: String, breaks: Vec<E>)
        ensures
            final(self)@ == old(self)@.insert(word@, breaks@),
    {
        self.table.insert(word, breaks);
        assert(self@ =~= old(self)@.insert(word@, breaks@));
    }

    /// The table of the given words, each with its breaks.
    pub fn try_from_iter(entries: Vec<(String, Vec<E>)>) -> (built: Result<Self, crate::patterns::BuildError>)
        ensures
            built matches Ok(table) && table@ == table_of(entries@),
    {
        let mut table = Exceptions::new();
        let ghost all = entries@;
        let mut rest = entries;
        let mut later: Vec<(String, Vec<E>)> = Vec::new();
        while rest.len() > 0
            invariant
                rest@.len() + later@.len() == all.len(),
                forall|k: int| 0 <= k < rest@.len() ==> rest@[k] == all[k],
                forall|k: int| 0 <= k < later@.len() ==> later@[k] == all[all.len() - 1 - k],
            decreases rest@.len(),
        {
            let entry = rest.pop().unwrap();
            later.push(entry);
        }
        let ghost mut done: int = 0;
        while later.len() > 0
            invariant
                0 <= done <= all.len(),
                done + later@.len() == all.len(),
                forall|k: int| 0 <= k < later@.len() ==> later@[k] == all[all.len() - 1 - k],
                table@ == table_of(all.take(done)),
            decreases later@.len(),
        {
            let entry = later.pop().unwrap();
            proof {
                assert(entry == all[done]);
                assert(all.take(done + 1).drop_last() == all.take(done));
                assert(all.take(done + 1).last() == all[done]);
            }
            table.set(entry.0, entry.1);
            proof {
                done = done + 1;
            }
        }
        proof {
            assert(all.take(done) == all);
        }
        Ok(table)
    }
}

} // verus!
