use vstd::prelude::*;
use crate::pairs::str_eq;

verus! {

/// The keys that a list of strings holds.
pub open spec fn key_set(v: Seq<String>) -> Set<Seq<char>> {
    Set::new(|k: Seq<char>| exists|i: int| 0 <= i < v.len() && v[i]@ == k)
}

/// A set of identity keys, kept as a list without repeats.
pub struct KeySet {
    keys: Vec<String>,
}

impl View for KeySet {
    type V = Set<Seq<char>>;

    closed spec fn view(&self) -> Set<Seq<char>> {
        key_set(self.keys@)
    }
}

impl KeySet {
    pub fn new() -> (r: KeySet)
        ensures
            r@ == Set::<Seq<char>>::empty(),
    {
        let r = KeySet { keys: Vec::new() };
        proof {
            assert(r@ =~= Set::<Seq<char>>::empty());
        }
        r
    }

    /// A set that holds exactly the given keys.
    pub fn from_keys(keys: &Vec<String>) -> (r: KeySet)
        ensures
            r@ == key_set(keys@),
    {
        let mut r = KeySet::new();
        let mut i: usize = 0;
        while i < keys.len()
            invariant
                i <= keys@.len(),
                r@ == key_set(keys@.subrange(0, i as int)),
            decreases keys@.len() - i,
        {
            r.insert(keys[i].clone());
            proof {
                let a = keys@.subrange(0, i as int);
                let b = keys@.subrange(0, i as int + 1);
                assert forall|k: Seq<char>| key_set(b).contains(k) implies #[trigger] r@.contains(k) by {
                    let j = choose|j: int| 0 <= j < b.len() && b[j]@ == k;
                    if j < i {
                        assert(a[j] == b[j]);
                    }
                }
                assert forall|k: Seq<char>| r@.contains(k) implies #[trigger] key_set(b).contains(k) by {
                    if key_set(a).contains(k) {
                        let j = choose|j: int| 0 <= j < a.len() && a[j]@ == k;
                        assert(b[j] == a[j]);
                    } else {
                        assert(b[i as int]@ == k);
                    }
                }
                assert(r@ =~= key_set(b));
            }
            i = i + 1;
        }
        assert(keys@.subrange(0, keys@.len() as int) =~= keys@);
        r
    }

    pub fn contains(&self, key: &str) -> (r: bool)
        ensures
            r == self@.contains(key@),
    {
        let mut i: usize = 0;
        while i < self.keys.len()
            invariant
                i <= self.keys@.len(),
                forall|j: int| 0 <= j < i ==> self.keys@[j]@ != key@,
            decreases self.keys@.len() - i,
        {
            if str_eq(self.keys[i].as_str(), key) {
                return true;
            }
            i = i + 1;
        }
        false
    }

    /// Adds a key; adding one that is already present changes nothing.
    pub fn insert(&mut self, key: String)
        ensures
            final(self)@ == old(self)@.insert(key@),
    {
        if !self.contains(key.as_str()) {
            let ghost before = self.keys@;
            self.keys.push(key);
            proof {
                assert forall|k: Seq<char>| #[trigger] self@.contains(k) implies old(self)@.insert(key@).contains(k) by {
                    let j = choose|j: int| 0 <= j < self.keys@.len() && self.keys@[j]@ == k;
                    if j < before.len() {
                        assert(self.keys@[j] == before[j]);
                    }
                }
                assert forall|k: Seq<char>| old(self)@.insert(key@).contains(k) implies #[trigger] self@.contains(k) by {
                    if k == key@ {
                        assert(self.keys@[before.len() as int]@ == k);
                    } else {
                        let j = choose|j: int| 0 <= j < before.len() && before[j]@ == k;
                        assert(self.keys@[j] == before[j]);
                    }
                }
                assert(self@ =~= old(self)@.insert(key@));
            }
        } else {
            assert(old(self)@.insert(key@) =~= old(self)@);
        }
    }
}

/// The identity keys already confirmed as applied to the infrastructure: host names of
/// DNS overrides and descriptions of port-forward rules. Keys are only ever added.
pub struct AppliedStateTracker {
    hostnames: KeySet,
    descriptions: KeySet,
}

impl AppliedStateTracker {
    pub closed spec fn hostnames(&self) -> Set<Seq<char>> {
        self.hostnames@
    }

    pub closed spec fn descriptions(&self) -> Set<Seq<char>> {
        self.descriptions@
    }

    pub fn new() -> (r: AppliedStateTracker)
        ensures
            r.hostnames() == Set::<Seq<char>>::empty(),
            r.descriptions() == Set::<Seq<char>>::empty(),
    {
        AppliedStateTracker { hostnames: KeySet::new(), descriptions: KeySet::new() }
    }

    /// Replaces the whole state with what a search of the infrastructure found.
    pub fn seed(&mut self, hostnames: &Vec<String>, descriptions: &Vec<String>)
        ensures
            final(self).hostnames() == key_set(hostnames@),
            final(self).descriptions() == key_set(descriptions@),
    {
        self.hostnames = KeySet::from_keys(hostnames);
        self.descriptions = KeySet::from_keys(descriptions);
    }

    pub fn has_hostname(&self, h: &str) -> (r: bool)
        ensures
            r == self.hostnames().contains(h@),
    {
        self.hostnames.contains(h)
    }

    pub fn has_description(&self, d: &str) -> (r: bool)
        ensures
            r == self.descriptions().contains(d@),
    {
        self.descriptions.contains(d)
    }

    /// Marks a host override as applied.
    pub fn record_hostname(&mut self, h: String)
        ensures
            final(self).hostnames() == old(self).hostnames().insert(h@),
            final(self).descriptions() == old(self).descriptions(),
    {
        self.hostnames.insert(h);
    }

    /// Marks a port-forward rule as applied.
    pub fn record_description(&mut self, d: String)
        ensures
            final(self).descriptions() == old(self).descriptions().insert(d@),
            final(self).hostnames() == old(self).hostnames(),
    {
        self.descriptions.insert(d);
    }
}

} // verus!
