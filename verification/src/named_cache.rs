//! Values kept under a name, such as the lexicons, leave tables and rule sets
//! that the browser hands over once and later requests refer to by name.

use vstd::prelude::*;

verus! {

/// The map that a list of named entries stands for; a later entry under the
/// same name would win, but a well-formed list has none.
pub open spec fn entries_map<V>(entries: Seq<(String, V)>) -> Map<Seq<char>, V>
    decreases entries.len(),
{
    if entries.len() == 0 {
        Map::empty()
    } else {
        entries_map(entries.drop_last()).insert(entries.last().0@, entries.last().1)
    }
}

/// No two entries carry the same name.
pub open spec fn names_distinct<V>(entries: Seq<(String, V)>) -> bool {
    forall|i: int, j: int|
        0 <= i < entries.len() && 0 <= j < entries.len() && i != j ==> entries[i].0@ != entries[j].0@
}

proof fn lemma_entries_map_lookup<V>(entries: Seq<(String, V)>, i: int)
    requires
        names_distinct(entries),
        0 <= i < entries.len(),
    ensures
        entries_map(entries).contains_key(entries[i].0@),
        entries_map(entries)[entries[i].0@] == entries[i].1,
    decreases entries.len(),
{
    if i < entries.len() - 1 {
        lemma_entries_map_lookup(entries.drop_last(), i);
    }
}

proof fn lemma_entries_map_absent<V>(entries: Seq<(String, V)>, name: Seq<char>)
    requires
        forall|i: int| 0 <= i < entries.len() ==> entries[i].0@ != name,
    ensures
        !entries_map(entries).contains_key(name),
    decreases entries.len(),
{
    if entries.len() > 0 {
        lemma_entries_map_absent(entries.drop_last(), name);
    }
}

proof fn lemma_entries_map_update<V>(entries: Seq<(String, V)>, i: int, key: String, value: V)
    requires
        names_distinct(entries),
        0 <= i < entries.len(),
        entries[i].0@ == key@,
    ensures
        entries_map(entries.update(i, (key, value))) == entries_map(entries).insert(key@, value),
    decreases entries.len(),
{
    let updated = entries.update(i, (key, value));
    if i == entries.len() - 1 {
        assert(updated.drop_last() =~= entries.drop_last());
        assert(entries_map(updated) =~= entries_map(entries).insert(key@, value));
    } else {
        let prefix = entries.drop_last();
        assert(updated.drop_last() =~= prefix.update(i, (key, value)));
        lemma_entries_map_update(prefix, i, key, value);
        assert(entries.last().0@ != key@);
        assert(entries_map(updated) =~= entries_map(entries).insert(key@, value));
    }
}

/// Values under distinct names.
#[verifier::reject_recursive_types(V)]
pub struct NamedCache<V> {
    entries: Vec<(String, V)>,
}

impl<V> View for NamedCache<V> {
    type V = Map<Seq<char>, V>;

    closed spec fn view(&self) -> Map<Seq<char>, V> {
        entries_map(self.entries@)
    }
}

impl<V> NamedCache<V> {
    #[verifier::type_invariant]
    closed spec fn well_formed(self) -> bool {
        names_distinct(self.entries@)
    }

    /// A cache with nothing in it.
    pub fn new() -> (cache: Self)
        ensures
            cache@ == Map::<Seq<char>, V>::empty(),
    {
        NamedCache { entries: Vec::new() }
    }

    fn position(&self, name: &String) -> (pos: Option<usize>)
        ensures
            match pos {
                Some(i) => i < self.entries@.len() && self.entries@[i as int].0@ == name@,
                None => forall|i: int| 0 <= i < self.entries@.len() ==> self.entries@[i].0@ != name@,
            },
    {
        let mut i: usize = 0;
        while i < self.entries.len()
            invariant
                i <= self.entries@.len(),
                forall|j: int| 0 <= j < i ==> self.entries@[j].0@ != name@,
            decreases self.entries@.len() - i,
        {
            if self.entries[i].0 == *name {
                return Some(i);
            }
            i = i + 1;
        }
        None
    }

    /// The value kept under `name`, if any.
    pub fn get(&self, name: &String) -> (found: Option<&V>)
        ensures
            match found {
                Some(v) => self@.contains_key(name@) && *v == self@[name@],
                None => !self@.contains_key(name@),
            },
    {
        proof {
            use_type_invariant(self);
        }
        match self.position(name) {
            Some(i) => {
                proof {
                    lemma_entries_map_lookup(self.entries@, i as int);
                }
                Some(&self.entries[i].1)
            },
            None => {
                proof {
                    lemma_entries_map_absent(self.entries@, name@);
                }
                None
            },
        }
    }

    /// Keeps `value` under `name`, in place of whatever was kept there.
    pub fn insert(&mut self, name: String, value: V)
        ensures
            final(self)@ == old(self)@.insert(name@, value),
    {
        proof {
            use_type_invariant(&*self);
        }
        match self.position(&name) {
            Some(i) => {
                let ghost before = self.entries@;
                let mut entries = Vec::new();
                std::mem::swap(&mut entries, &mut self.entries);
                entries.set(i, (name, value));
                proof {
                    lemma_entries_map_update(before, i as int, entries@[i as int].0, value);
                    assert(entries@ == before.update(i as int, entries@[i as int]));
                    assert(names_distinct(entries@));
                }
                self.entries = entries;
            },
            None => {
                let ghost before = self.entries@;
                let mut entries = Vec::new();
                std::mem::swap(&mut entries, &mut self.entries);
                entries.push((name, value));
                proof {
                    assert(entries@.drop_last() =~= before);
                    assert(names_distinct(entries@));
                }
                self.entries = entries;
            },
        }
    }
}

/// The message a request gets when it names nothing the cache holds:
/// `missing ` followed by what was looked for.
pub open spec fn missing_message(what: Seq<char>) -> Seq<char> {
    "missing "@ + what
}

impl<V> NamedCache<V> {
    /// The value kept under `name`, or the message `missing <what>` if there
    /// is none.
    pub fn fetch(&self, name: &String, what: &str) -> (r: Result<&V, String>)
        ensures
            match r {
                Ok(v) => self@.contains_key(name@) && *v == self@[name@],
                Err(msg) => !self@.contains_key(name@) && msg@ == missing_message(what@),
            },
    {
        match self.get(name) {
            Some(v) => Ok(v),
            None => {
                let mut msg = String::from_str("missing ");
                msg.append(what);
                Err(msg)
            },
        }
    }
}

/// Registers the two rule sets that are known from the start: the common
/// English crossword game as `CrosswordGame`, and its jumbled variant as
/// `WordSmog`.
pub fn register_builtin_rules<V>(cache: &mut NamedCache<V>, crossword: V, jumbled: V)
    ensures
        final(cache)@ == old(cache)@.insert("CrosswordGame"@, crossword).insert("WordSmog"@, jumbled),
{
    cache.insert(String::from_str("CrosswordGame"), crossword);
    cache.insert(String::from_str("WordSmog"), jumbled);
}

/// What a cache gives back under a name is what was last kept under that
/// name; keeping a value under one name leaves every other name as it was.
pub proof fn lemma_cache_read_after_write<V>(before: Map<Seq<char>, V>, name: Seq<char>, value: V, other: Seq<char>)
    requires
        other != name,
    ensures
        before.insert(name, value).contains_key(name),
        before.insert(name, value)[name] == value,
        before.insert(name, value).contains_key(other) == before.contains_key(other),
        before.contains_key(other) ==> before.insert(name, value)[other] == before[other],
{
}

} // verus!
