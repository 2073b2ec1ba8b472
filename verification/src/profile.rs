//! The alternative record shape: an ordered list of profiles, each a name
//! with an age, identified only by position.

use vstd::prelude::*;

verus! {

/// One record: a name and an age.
pub struct Profile {
    pub name: String,
    pub age: u64,
}

impl View for Profile {
    type V = (Seq<char>, u64);

    open spec fn view(&self) -> (Seq<char>, u64) {
        (self.name@, self.age)
    }
}

/// An ordered sequence of profiles; the position is the only identifier, and
/// removing an element shifts the ones after it.
pub struct ProfileStore {
    profiles: Vec<Profile>,
}

impl View for ProfileStore {
    type V = Seq<(Seq<char>, u64)>;

    open spec fn view(&self) -> Seq<(Seq<char>, u64)> {
        self.records()
    }
}

/// The record sequence that a vector of profiles stands for.
pub open spec fn records_of(profiles: Seq<Profile>) -> Seq<(Seq<char>, u64)> {
    profiles.map_values(|p: Profile| p@)
}

impl ProfileStore {
    /// The record sequence the store holds.
    pub closed spec fn records(&self) -> Seq<(Seq<char>, u64)> {
        records_of(self.profiles@)
    }

    /// An empty store.
    pub fn new() -> (r: ProfileStore)
        ensures
            r@ == Seq::<(Seq<char>, u64)>::empty(),
    {
        let r = ProfileStore { profiles: Vec::new() };
        proof {
            assert(r@ =~= Seq::<(Seq<char>, u64)>::empty());
        }
        r
    }

    /// Wrap an already-built vector of profiles.
    pub fn from_profiles(profiles: Vec<Profile>) -> (r: ProfileStore)
        ensures
            r@ == records_of(profiles@),
    {
        ProfileStore { profiles }
    }

    /// How many records the store holds.
    pub fn len(&self) -> (n: usize)
        ensures
            n == self@.len(),
    {
        self.profiles.len()
    }

    /// Append a record at the end.
    pub fn add(&mut self, name: String, age: u64)
        ensures
            final(self)@ == old(self)@.push((name@, age)),
    {
        let ghost old_records = self@;
        self.profiles.push(Profile { name, age });
        proof {
            assert(self@ =~= old_records.push(self.profiles@.last()@));
        }
    }

    /// Remove the record at `index` if it is within bounds, shifting the
    /// later records down; report whether anything was removed.  An
    /// out-of-range index leaves the store untouched.
    pub fn delete(&mut self, index: usize) -> (removed: bool)
        ensures
            removed == (index < old(self)@.len()),
            removed ==> final(self)@ == old(self)@.remove(index as int),
            !removed ==> final(self)@ == old(self)@,
    {
        let ghost old_records = self@;
        if index < self.profiles.len() {
            self.profiles.remove(index);
            proof {
                assert(self@ =~= old_records.remove(index as int));
            }
            true
        } else {
            false
        }
    }

    /// Drop every record.
    pub fn clear(&mut self)
        ensures
            final(self)@ == Seq::<(Seq<char>, u64)>::empty(),
    {
        self.profiles.clear();
        proof {
            assert(self@ =~= Seq::<(Seq<char>, u64)>::empty());
        }
    }

    /// Borrow the record at an index.
    pub fn record_at(&self, index: usize) -> (r: &Profile)
        requires
            index < self@.len(),
        ensures
            r@ == self@[index as int],
    {
        &self.profiles[index]
    }
}

} // verus!
