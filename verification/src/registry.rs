//! The polls, and for each poll the nullifiers that have signalled in it.
//!
//! A registry stands for a map from poll ids to sets of nullifiers. It keeps
//! the polls in the order in which they were created, and no id twice.

use vstd::prelude::*;

verus! {

/// The set of the texts in a list.
pub open spec fn texts_of(list: Seq<String>) -> Set<Seq<char>> {
    Set::new(|text: Seq<char>| exists|j: int| 0 <= j < list.len() && #[trigger] list[j]@ == text)
}

/// The ids in a list of stored polls.
pub open spec fn entry_ids(entries: Seq<(String, Vec<String>)>) -> Seq<Seq<char>> {
    Seq::new(entries.len(), |i: int| entries[i].0@)
}

/// One poll: its id and the nullifiers spent in it.
struct Poll {
    id: String,
    spent: Vec<String>,
}

impl Poll {
    /// The poll's id.
    spec fn spec_id(&self) -> Seq<char> {
        self.id@
    }

    /// The nullifiers spent in the poll.
    spec fn spec_spent(&self) -> Set<Seq<char>> {
        texts_of(self.spent@)
    }
}

/// The polls by id.
pub struct Registry {
    polls: Vec<Poll>,
}

impl View for Registry {
    type V = Map<Seq<char>, Set<Seq<char>>>;

    closed spec fn view(&self) -> Map<Seq<char>, Set<Seq<char>>> {
        Map::new(
            |id: Seq<char>| exists|i: int| self.holds(i, id),
            |id: Seq<char>| self.polls@[choose|i: int| self.holds(i, id)].spec_spent(),
        )
    }
}

/// Whether two texts are the same.
fn text_eq(a: &String, b: &String) -> (r: bool)
    ensures
        r == (a@ == b@),
{
    *a == *b
}

/// A copy of a list of texts.
fn clone_texts(list: &Vec<String>) -> (r: Vec<String>)
    ensures
        r@.len() == list@.len(),
        forall|j: int| 0 <= j < list@.len() ==> #[trigger] r@[j]@ == list@[j]@,
{
    let mut copy: Vec<String> = Vec::with_capacity(list.len());
    let mut at: usize = 0;
    while at < list.len()
        invariant
            at <= list@.len(),
            copy@.len() == at,
            forall|j: int| 0 <= j < at ==> #[trigger] copy@[j]@ == list@[j]@,
        decreases list@.len() - at,
    {
        copy.push(list[at].clone());
        at = at + 1;
    }
    copy
}

/// Two lists of the same texts make the same set.
proof fn lemma_same_texts(a: Seq<String>, b: Seq<String>)
    requires
        a.len() == b.len(),
        forall|j: int| 0 <= j < a.len() ==> #[trigger] a[j]@ == b[j]@,
    ensures
        texts_of(a) == texts_of(b),
{
    assert forall|text: Seq<char>| texts_of(a).contains(text) == texts_of(b).contains(text) by {
        if texts_of(a).contains(text) {
            let j = choose|j: int| 0 <= j < a.len() && #[trigger] a[j]@ == text;
            assert(b[j]@ == text);
        }
        if texts_of(b).contains(text) {
            let j = choose|j: int| 0 <= j < b.len() && #[trigger] b[j]@ == text;
            assert(a[j]@ == text);
        }
    }
    assert(texts_of(a) =~= texts_of(b));
}

/// Whether a text is in a list.
fn list_contains(list: &Vec<String>, text: &String) -> (r: bool)
    ensures
        r == texts_of(list@).contains(text@),
{
    let mut at: usize = 0;
    while at < list.len()
        invariant
            at <= list@.len(),
            forall|j: int| 0 <= j < at ==> #[trigger] list@[j]@ != text@,
        decreases list@.len() - at,
    {
        if text_eq(&list[at], text) {
            return true;
        }
        at = at + 1;
    }
    false
}

impl Registry {
    /// Poll number `i` has the id `id`.
    spec fn holds(&self, i: int, id: Seq<char>) -> bool {
        0 <= i < self.polls@.len() && self.polls@[i].spec_id() == id
    }

    /// No two polls have the same id.
    pub closed spec fn wf(&self) -> bool {
        forall|i: int, j: int, id: Seq<char>|
            #[trigger] self.holds(i, id) && #[trigger] self.holds(j, id) ==> i == j
    }

    /// The ids of the polls in the order of their creation.
    pub closed spec fn spec_ids(&self) -> Seq<Seq<char>> {
        Seq::new(self.polls@.len(), |i: int| self.polls@[i].spec_id())
    }

    /// The registry maps the id of poll number `i` to what is spent in it.
    proof fn lemma_lookup(&self, i: int, id: Seq<char>)
        requires
            self.wf(),
            self.holds(i, id),
        ensures
            self@.contains_key(id),
            self@[id] == self.polls@[i].spec_spent(),
    {
        let chosen = choose|k: int| self.holds(k, id);
        assert(self.holds(chosen, id));
    }

    /// A registry without polls.
    pub fn new() -> (r: Self)
        ensures
            r.wf(),
            r@ == Map::<Seq<char>, Set<Seq<char>>>::empty(),
            r.spec_ids() == Seq::<Seq<char>>::empty(),
    {
        let r = Registry { polls: Vec::new() };
        proof {
            assert(r@ =~= Map::<Seq<char>, Set<Seq<char>>>::empty());
            assert(r.spec_ids() =~= Seq::<Seq<char>>::empty());
        }
        r
    }

    /// The number of the poll with this id, if there is one.
    fn position(&self, id: &String) -> (r: Option<usize>)
        ensures
            match r {
                Some(i) => self.holds(i as int, id@),
                None => forall|i: int| !self.holds(i, id@),
            },
    {
        let mut at: usize = 0;
        while at < self.polls.len()
            invariant
                at <= self.polls@.len(),
                forall|i: int| 0 <= i < at ==> !self.holds(i, id@),
            decreases self.polls@.len() - at,
        {
            if text_eq(&self.polls[at].id, id) {
                return Some(at);
            }
            at = at + 1;
        }
        None
    }

    /// Whether there is a poll with this id.
    pub fn contains_key(&self, id: &String) -> (r: bool)
        requires
            self.wf(),
        ensures
            r == self@.contains_key(id@),
    {
        match self.position(id) {
            Some(i) => {
                proof {
                    self.lemma_lookup(i as int, id@);
                }
                true
            },
            None => false,
        }
    }

    /// Whether there is a poll with this id in which the nullifier is spent.
    pub fn contains(&self, id: &String, nullifier: &String) -> (r: bool)
        requires
            self.wf(),
        ensures
            r == (self@.contains_key(id@) && self@[id@].contains(nullifier@)),
    {
        match self.position(id) {
            Some(i) => {
                proof {
                    self.lemma_lookup(i as int, id@);
                }
                list_contains(&self.polls[i].spent, nullifier)
            },
            None => false,
        }
    }

    /// Adds a poll with an id that no poll has yet.
    fn push_poll(&mut self, id: String, spent: Vec<String>)
        requires
            old(self).wf(),
            forall|i: int| !old(self).holds(i, id@),
        ensures
            final(self).wf(),
            final(self)@ == old(self)@.insert(id@, texts_of(spent@)),
            final(self).spec_ids() == old(self).spec_ids().push(id@),
            final(self).polls@ == old(self).polls@.push(Poll { id, spent }),
    {
        let ghost before = *self;
        let ghost key = id@;
        let poll = Poll { id, spent };
        self.polls.push(poll);
        proof {
            let last = before.polls@.len() as int;
            assert forall|i: int, k: Seq<char>| self.holds(i, k) <==> (before.holds(i, k) || (i
                == last && k == key)) by {}
            assert(self.holds(last, key));
            assert forall|i: int, j: int, k: Seq<char>|
                #[trigger] self.holds(i, k) && #[trigger] self.holds(j, k) implies i == j by {
                if i != last && j != last {
                    assert(before.holds(i, k) && before.holds(j, k));
                } else if i != last {
                    assert(before.holds(i, key));
                } else if j != last {
                    assert(before.holds(j, key));
                }
            }
            self.lemma_lookup(last, key);
            assert forall|k: Seq<char>| k != key && before@.contains_key(k) implies self@.contains_key(
                k,
            ) && self@[k] == before@[k] by {
                let i = choose|i: int| before.holds(i, k);
                assert(self.holds(i, k));
                before.lemma_lookup(i, k);
                self.lemma_lookup(i, k);
            }
            assert forall|k: Seq<char>| k != key && self@.contains_key(k) implies before@.contains_key(
                k,
            ) by {
                let i = choose|i: int| self.holds(i, k);
                assert(before.holds(i, k));
            }
            assert(self@ =~= before@.insert(key, texts_of(spent@)));
            assert(self.spec_ids() =~= before.spec_ids().push(key));
        }
    }

    /// Creates a poll without spent nullifiers, unless there is one with
    /// this id. Says whether it created one.
    pub fn insert(&mut self, id: String) -> (r: bool)
        requires
            old(self).wf(),
        ensures
            final(self).wf(),
            r == !old(self)@.contains_key(id@),
            r ==> final(self)@ == old(self)@.insert(id@, Set::empty()) && final(self).spec_ids()
                == old(self).spec_ids().push(id@),
            !r ==> *final(self) == *old(self),
    {
        if let Some(at) = self.position(&id) {
            proof {
                self.lemma_lookup(at as int, id@);
            }
            return false;
        }
        let spent: Vec<String> = Vec::new();
        proof {
            assert(texts_of(spent@) =~= Set::<Seq<char>>::empty());
        }
        self.push_poll(id, spent);
        true
    }

    /// The polls as they are stored: each poll's id with the nullifiers spent
    /// in it, in the order in which the polls were created.
    pub fn entries(&self) -> (r: Vec<(String, Vec<String>)>)
        requires
            self.wf(),
        ensures
            entry_ids(r@) == self.spec_ids(),
            entry_ids(r@).no_duplicates(),
            forall|i: int|
                0 <= i < r@.len() ==> self@[(#[trigger] r@[i]).0@] == texts_of(r@[i].1@),
    {
        let mut stored: Vec<(String, Vec<String>)> = Vec::with_capacity(self.polls.len());
        let mut at: usize = 0;
        while at < self.polls.len()
            invariant
                self.wf(),
                at <= self.polls@.len(),
                stored@.len() == at,
                forall|i: int| 0 <= i < at ==> (#[trigger] stored@[i]).0@ == self.polls@[i].id@,
                forall|i: int|
                    0 <= i < at ==> texts_of((#[trigger] stored@[i]).1@) == texts_of(
                        self.polls@[i].spent@,
                    ),
            decreases self.polls@.len() - at,
        {
            let poll = &self.polls[at];
            let spent = clone_texts(&poll.spent);
            proof {
                lemma_same_texts(spent@, poll.spent@);
            }
            stored.push((poll.id.clone(), spent));
            at = at + 1;
        }
        proof {
            assert(entry_ids(stored@) =~= self.spec_ids());
            assert forall|i: int, j: int|
                0 <= i < stored@.len() && 0 <= j < stored@.len() && i != j implies entry_ids(
                stored@,
            )[i] != entry_ids(stored@)[j] by {
                if entry_ids(stored@)[i] == entry_ids(stored@)[j] {
                    assert(self.holds(i, entry_ids(stored@)[i]));
                    assert(self.holds(j, entry_ids(stored@)[i]));
                }
            }
            assert forall|i: int| 0 <= i < stored@.len() implies self@[(#[trigger] stored@[i]).0@]
                == texts_of(stored@[i].1@) by {
                self.lemma_lookup(i, stored@[i].0@);
            }
        }
        stored
    }

    /// The registry that was stored as these polls, or `None` where two of
    /// them have the same id.
    pub fn from_entries(entries: &Vec<(String, Vec<String>)>) -> (r: Option<Registry>)
        ensures
            match r {
                Some(registry) => {
                    &&& registry.wf()
                    &&& registry.spec_ids() == entry_ids(entries@)
                    &&& forall|i: int|
                        0 <= i < entries@.len() ==> registry@[(#[trigger] entries@[i]).0@]
                            == texts_of(entries@[i].1@)
                },
                None => exists|i: int, j: int|
                    0 <= i < j < entries@.len() && (#[trigger] entries@[i]).0@
                        == (#[trigger] entries@[j]).0@,
            },
    {
        let mut registry = Registry::new();
        let mut at: usize = 0;
        proof {
            assert(registry.spec_ids().len() == registry.polls@.len());
        }
        while at < entries.len()
            invariant
                registry.wf(),
                at <= entries@.len(),
                registry.polls@.len() == at,
                forall|i: int|
                    0 <= i < at ==> (#[trigger] registry.polls@[i]).id@ == entries@[i].0@,
                forall|i: int|
                    0 <= i < at ==> texts_of((#[trigger] registry.polls@[i]).spent@) == texts_of(
                        entries@[i].1@,
                    ),
            decreases entries@.len() - at,
        {
            let entry = &entries[at];
            match registry.position(&entry.0) {
                Some(earlier) => {
                    proof {
                        assert(entries@[earlier as int].0@ == entries@[at as int].0@);
                    }
                    return None;
                },
                None => {},
            }
            let spent = clone_texts(&entry.1);
            proof {
                lemma_same_texts(spent@, entry.1@);
            }
            registry.push_poll(entry.0.clone(), spent);
            at = at + 1;
        }
        proof {
            assert(registry.spec_ids() =~= entry_ids(entries@));
            assert forall|i: int| 0 <= i < entries@.len() implies registry@[(
                #[trigger] entries@[i]).0@] == texts_of(entries@[i].1@) by {
                registry.lemma_lookup(i, entries@[i].0@);
            }
        }
        Some(registry)
    }

    /// The registry's keys are the ids of its polls.
    pub proof fn lemma_keys_are_ids(&self, id: Seq<char>)
        requires
            self.wf(),
        ensures
            self@.contains_key(id) <==> self.spec_ids().contains(id),
    {
        if self@.contains_key(id) {
            let i = choose|i: int| self.holds(i, id);
            assert(self.spec_ids()[i] == id);
        }
        if self.spec_ids().contains(id) {
            let i = choose|i: int| 0 <= i < self.spec_ids().len() && self.spec_ids()[i] == id;
            assert(self.holds(i, id));
        }
    }

    /// Marks the nullifier as spent in the poll with this id, if there is
    /// such a poll and the nullifier is not yet spent in it. Says whether it
    /// did.
    pub fn spend(&mut self, id: &String, nullifier: String) -> (r: bool)
        requires
            old(self).wf(),
        ensures
            final(self).wf(),
            r == (old(self)@.contains_key(id@) && !old(self)@[id@].contains(nullifier@)),
            r ==> final(self)@ == old(self)@.insert(id@, old(self)@[id@].insert(nullifier@)),
            !r ==> *final(self) == *old(self),
            final(self).spec_ids() == old(self).spec_ids(),
    {
        let ghost before = *self;
        let ghost key = id@;
        let ghost mark = nullifier@;
        match self.position(id) {
            Some(at) => {
                proof {
                    before.lemma_lookup(at as int, key);
                }
                if list_contains(&self.polls[at].spent, &nullifier) {
                    return false;
                }
                let poll = &mut self.polls[at];
                let ghost spent = poll.spent@;
                poll.spent.push(nullifier);
                proof {
                    assert(self.polls@[at as int].spent@ == spent.push(nullifier));
                    assert forall|text: Seq<char>|
                        texts_of(spent.push(nullifier)).contains(text) <==> (texts_of(
                            spent,
                        ).contains(text) || text == mark) by {
                        if texts_of(spent).contains(text) {
                            let j = choose|j: int| 0 <= j < spent.len() && #[trigger] spent[j]@ == text;
                            assert(spent.push(nullifier)[j]@ == text);
                        }
                        if text == mark {
                            assert(spent.push(nullifier)[spent.len() as int]@ == text);
                        }
                    }
                    assert(texts_of(spent.push(nullifier)) =~= texts_of(spent).insert(mark));
                    assert forall|i: int, k: Seq<char>| self.holds(i, k) <==> before.holds(i, k) by {}
                    assert forall|i: int, j: int, k: Seq<char>|
                        #[trigger] self.holds(i, k) && #[trigger] self.holds(j, k) implies i
                        == j by {
                        assert(before.holds(i, k) && before.holds(j, k));
                    }
                    self.lemma_lookup(at as int, key);
                    assert forall|k: Seq<char>| k != key && before@.contains_key(k) implies self@[k]
                        == before@[k] && self@.contains_key(k) by {
                        let i = choose|i: int| before.holds(i, k);
                        assert(self.holds(i, k));
                        before.lemma_lookup(i, k);
                        self.lemma_lookup(i, k);
                    }
                    assert forall|k: Seq<char>| self@.contains_key(k) implies before@.contains_key(
                        k,
                    ) by {
                        let i = choose|i: int| self.holds(i, k);
                        assert(before.holds(i, k));
                    }
                    assert(self@ =~= before@.insert(key, before@[key].insert(mark)));
                    assert(self.spec_ids() =~= before.spec_ids());
                }
                true
            },
            None => false,
        }
    }
}

} // verus!
