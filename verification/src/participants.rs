//! Sets of participants: the people who rated one item.

use vstd::prelude::*;

verus! {

/// The names that a list of strings holds, string by string.
pub open spec fn name_views(names: Seq<String>) -> Seq<Seq<char>> {
    names.map_values(|s: String| s@)
}

/// The participants of one item, each held once. Its view is the set of their
/// names.
pub struct ParticipantSet {
    members: Vec<String>,
}

impl View for ParticipantSet {
    type V = Set<Seq<char>>;

    closed spec fn view(&self) -> Set<Seq<char>> {
        self.names().to_set()
    }
}

impl ParticipantSet {
    /// The names as they are stored, in the order in which they came.
    pub closed spec fn names(self) -> Seq<Seq<char>> {
        name_views(self.members@)
    }

    /// No name is stored twice.
    pub closed spec fn wf(self) -> bool {
        self.names().no_duplicates()
    }

    /// A participant set is finite, and holds as many names as it has
    /// members.
    pub proof fn lemma_finite(self)
        ensures
            self@.finite(),
            self.wf() ==> self@.len() == self.names().len(),
            self.names().to_set() == self@,
    {
        vstd::seq_lib::seq_to_set_is_finite(self.names());
        if self.wf() {
            self.names().unique_seq_to_set();
        }
    }

    /// The empty set.
    pub fn new() -> (res: ParticipantSet)
        ensures
            res.wf(),
            res@ == Set::<Seq<char>>::empty(),
    {
        let res = ParticipantSet { members: Vec::new() };
        res
    }

    /// The number of participants.
    pub fn len(&self) -> (res: usize)
        requires
            self.wf(),
        ensures
            res == self@.len(),
            self@.finite(),
    {
        proof {
            self.names().unique_seq_to_set();
        }
        self.members.len()
    }

    /// Whether nobody is in the set.
    pub fn is_empty(&self) -> (res: bool)
        requires
            self.wf(),
        ensures
            res == (self@.len() == 0),
            res == (self@ == Set::<Seq<char>>::empty()),
    {
        proof {
            self.names().unique_seq_to_set();
            if self.names().len() == 0 {
                assert(self@ =~= Set::<Seq<char>>::empty());
            }
        }
        self.members.len() == 0
    }

    /// Whether the participant of that name is in the set.
    pub fn contains(&self, name: &String) -> (res: bool)
        ensures
            res == self@.contains(name@),
    {
        let mut i: usize = 0;
        while i < self.members.len()
            invariant
                i <= self.members.len(),
                forall|k: int| 0 <= k < i ==> self.names()[k] != name@,
            decreases self.members.len() - i,
        {
            if self.members[i] == *name {
                assert(self.names()[i as int] == name@);
                return true;
            }
            i += 1;
        }
        false
    }

    /// Adds a participant. Returns whether the name was new; a name that is
    /// already in the set is not added again.
    pub fn insert(&mut self, name: String) -> (res: bool)
        requires
            old(self).wf(),
        ensures
            final(self).wf(),
            final(self)@ == old(self)@.insert(name@),
            res == !old(self)@.contains(name@),
    {
        if self.contains(&name) {
            false
        } else {
            let ghost before = self.names();
            self.members.push(name);
            assert(self.names() =~= before.push(name@));
            proof {
                before.lemma_push_to_set_commute(name@);
            }
            true
        }
    }

    /// The set of the names in `names`, each taken once.
    pub fn from_names(names: &Vec<String>) -> (res: ParticipantSet)
        ensures
            res.wf(),
            res@ == name_views(names@).to_set(),
    {
        let ghost all = name_views(names@);
        let mut res = ParticipantSet::new();
        let mut i: usize = 0;
        while i < names.len()
            invariant
                i <= names.len(),
                all == name_views(names@),
                res.wf(),
                res@ == all.take(i as int).to_set(),
            decreases names.len() - i,
        {
            let name = names[i].clone();
            res.insert(name);
            assert(all.take(i as int + 1) =~= all.take(i as int).push(all[i as int]));
            proof {
                all.take(i as int).lemma_push_to_set_commute(all[i as int]);
            }
            i += 1;
        }
        assert(all.take(names.len() as int) =~= all);
        res
    }

    /// The names in the set, each once, in the order in which they came.
    pub fn to_vec(&self) -> (res: Vec<String>)
        requires
            self.wf(),
        ensures
            name_views(res@) == self.names(),
            name_views(res@).no_duplicates(),
            name_views(res@).to_set() == self@,
            res@.len() == self@.len(),
    {
        proof {
            self.names().unique_seq_to_set();
        }
        let mut res: Vec<String> = Vec::new();
        let mut i: usize = 0;
        while i < self.members.len()
            invariant
                i <= self.members.len(),
                name_views(res@) == self.names().take(i as int),
            decreases self.members.len() - i,
        {
            let name = self.members[i].clone();
            res.push(name);
            assert(self.names().take(i as int + 1) =~= self.names().take(i as int).push(
                self.names()[i as int],
            ));
            i += 1;
        }
        res
    }

    /// The number of participants that are in both sets.
    pub fn common_count(&self, other: &ParticipantSet) -> (res: usize)
        requires
            self.wf(),
        ensures
            res == self@.intersect(other@).len(),
    {
        let ghost names = self.names();
        let mut count: usize = 0;
        let mut i: usize = 0;
        assert(names.take(0).to_set().intersect(other@) =~= Set::<Seq<char>>::empty());
        while i < self.members.len()
            invariant
                i <= self.members.len(),
                names == self.names(),
                names.no_duplicates(),
                count <= i,
                count == names.take(i as int).to_set().intersect(other@).len(),
            decreases self.members.len() - i,
        {
            let hit = other.contains(&self.members[i]);
            proof {
                lemma_prefix_overlap_step(names, other@, i as int);
            }
            if hit {
                count += 1;
            }
            i += 1;
        }
        assert(names.take(self.members.len() as int) =~= names);
        count
    }
}

/// Taking one more element of a duplicate-free sequence adds one to the
/// number of its elements that lie in `other`, where that element lies in
/// `other`, and nothing where it does not.
pub proof fn lemma_prefix_overlap_step<T>(items: Seq<T>, other: Set<T>, i: int)
    requires
        0 <= i < items.len(),
        items.no_duplicates(),
    ensures
        items.take(i + 1).to_set().intersect(other).len() == items.take(i).to_set().intersect(
            other,
        ).len() + (if other.contains(items[i]) {
            1nat
        } else {
            0nat
        }),
{
    let before = items.take(i).to_set();
    let after = items.take(i + 1).to_set();
    assert(items.take(i + 1) =~= items.take(i).push(items[i]));
    items.take(i).lemma_push_to_set_commute(items[i]);
    assert(!before.contains(items[i]));
    vstd::seq_lib::seq_to_set_is_finite(items.take(i));
    if other.contains(items[i]) {
        assert(after.intersect(other) =~= before.intersect(other).insert(items[i]));
    } else {
        assert(after.intersect(other) =~= before.intersect(other));
    }
}

} // verus!
