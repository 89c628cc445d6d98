//! The profile store: an insertion-ordered mapping from a profile key to a
//! profile (display name and email), with unique keys.

use vstd::prelude::*;

verus! {

/// One identity profile: a display name and an email address.
pub struct Profile {
    pub name: String,
    pub email: String,
}

/// The mathematical value of a [`Profile`].
pub struct ProfileV {
    pub name: Seq<char>,
    pub email: Seq<char>,
}

impl View for Profile {
    type V = ProfileV;

    open spec fn view(&self) -> ProfileV {
        ProfileV { name: self.name@, email: self.email@ }
    }
}

/// One store entry: a profile under its key.
pub struct ProfileEntry {
    pub key: String,
    pub profile: Profile,
}

/// The mathematical value of a [`ProfileEntry`].
pub struct EntryV {
    pub key: Seq<char>,
    pub profile: ProfileV,
}

impl View for ProfileEntry {
    type V = EntryV;

    open spec fn view(&self) -> EntryV {
        EntryV { key: self.key@, profile: self.profile@ }
    }
}

/// The value of an optional string.
pub open spec fn opt_view(o: Option<String>) -> Option<Seq<char>> {
    match o {
        None => None,
        Some(s) => Some(s@),
    }
}

/// Whether some entry of `s` has the key `k`.
pub open spec fn contains_key(s: Seq<EntryV>, k: Seq<char>) -> bool {
    exists|i: int| 0 <= i < s.len() && s[i].key == k
}

/// The index of the entry of `s` with key `k` (meaningful when `contains_key`
/// holds and the keys of `s` are unique).
pub open spec fn index_of(s: Seq<EntryV>, k: Seq<char>) -> int {
    choose|i: int| 0 <= i < s.len() && s[i].key == k
}

/// Whether no two entries of `s` share a key.
pub open spec fn unique_keys(s: Seq<EntryV>) -> bool {
    forall|i: int, j: int| 0 <= i < j < s.len() ==> s[i].key != s[j].key
}

/// The profile store: profiles in insertion order, keyed uniquely.
pub struct Store {
    pub entries: Vec<ProfileEntry>,
}

impl View for Store {
    type V = Seq<EntryV>;

    open spec fn view(&self) -> Seq<EntryV> {
        self.entries@.map_values(|e: ProfileEntry| e@)
    }
}

impl Store {
    /// The store's invariant: entry keys are unique.
    pub open spec fn wf(&self) -> bool {
        unique_keys(self@)
    }

    /// An empty store.
    pub fn new() -> (r: Store)
        ensures
            r@ == Seq::<EntryV>::empty(),
            r.wf(),
    {
        let r = Store { entries: Vec::new() };
        proof {
            assert(r@ =~= Seq::<EntryV>::empty());
        }
        r
    }

    /// The number of profiles.
    pub fn len(&self) -> (r: usize)
        ensures
            r == self@.len(),
    {
        self.entries.len()
    }

    /// Finds the index of the entry with key `k`, if one exists.
    fn find(&self, k: &str) -> (r: Option<usize>)
        ensures
            match r {
                Some(i) => i < self@.len() && self@[i as int].key == k@,
                None => !contains_key(self@, k@),
            },
    {
        let n = self.entries.len();
        let mut i: usize = 0;
        while i < n
            invariant
                n == self@.len(),
                i <= n,
                forall|j: int| 0 <= j < i ==> self@[j].key != k@,
            decreases n - i,
        {
            if str_eq(self.entries[i].key.as_str(), k) {
                return Some(i);
            }
            i = i + 1;
        }
        None
    }

    /// Whether a profile with key `k` exists.
    pub fn contains(&self, k: &str) -> (r: bool)
        ensures
            r == contains_key(self@, k@),
    {
        self.find(k).is_some()
    }

    /// Whether the store holds at least one profile.
    pub fn has_profiles(&self) -> (r: bool)
        ensures
            r == (self@.len() > 0),
    {
        self.entries.len() > 0
    }

    /// The key of the entry at position `i` (insertion order).
    pub fn key_at(&self, i: usize) -> (r: &String)
        requires
            i < self@.len(),
        ensures
            r@ == self@[i as int].key,
    {
        &self.entries[i].key
    }

    /// The profile of the entry at position `i` (insertion order).
    pub fn profile_at(&self, i: usize) -> (r: &Profile)
        requires
            i < self@.len(),
        ensures
            r@ == self@[i as int].profile,
    {
        &self.entries[i].profile
    }

    /// The profile stored under key `k`. An absent key is a caller error:
    /// every call site checks existence first.
    pub fn get(&self, k: &str) -> (r: &Profile)
        requires
            self.wf(),
            contains_key(self@, k@),
        ensures
            r@ == self@[index_of(self@, k@)].profile,
    {
        proof {
            lemma_index_of_properties(self@, k@);
        }
        let i = self.find(k).unwrap();
        proof {
            lemma_found_is_index_of(self@, k@, i as int);
        }
        &self.entries[i].profile
    }

    /// Inserts `profile` under the fresh key `k`, at the end of the order.
    pub fn push_new(&mut self, k: String, profile: Profile)
        requires
            old(self).wf(),
            !contains_key(old(self)@, k@),
        ensures
            final(self)@ == old(self)@.push(EntryV { key: k@, profile: profile@ }),
            final(self).wf(),
    {
        let ghost prev = self@;
        let ghost entry_v = EntryV { key: k@, profile: profile@ };
        self.entries.push(ProfileEntry { key: k, profile });
        proof {
            assert(self@ =~= prev.push(entry_v));
            assert forall|i: int, j: int| 0 <= i < j < self@.len() implies self@[i].key
                != self@[j].key by {
                if j < prev.len() {
                    assert(prev[i].key != prev[j].key);
                } else {
                    assert(!contains_key(prev, entry_v.key));
                    assert(prev[i].key != entry_v.key);
                }
            }
        }
    }

    /// Stores `profile` under `k`: overwrites the entry in place when the key
    /// exists, otherwise appends a new entry.
    pub fn insert(&mut self, k: String, profile: Profile)
        requires
            old(self).wf(),
        ensures
            final(self).wf(),
            contains_key(old(self)@, k@) ==> final(self)@ == old(self)@.update(
                index_of(old(self)@, k@),
                EntryV { key: k@, profile: profile@ },
            ),
            !contains_key(old(self)@, k@) ==> final(self)@ == old(self)@.push(
                EntryV { key: k@, profile: profile@ },
            ),
    {
        let ghost prev = self@;
        let ghost entry_v = EntryV { key: k@, profile: profile@ };
        match self.find(&k) {
            Some(i) => {
                proof {
                    lemma_found_is_index_of(prev, k@, i as int);
                }
                let _ = self.entries.remove(i);
                self.entries.insert(i, ProfileEntry { key: k, profile });
                proof {
                    assert(self@ =~= prev.update(i as int, entry_v));
                    assert forall|x: int, y: int| 0 <= x < y < self@.len() implies self@[x].key
                        != self@[y].key by {
                        assert(prev[x].key != prev[y].key);
                    }
                }
            },
            None => {
                self.push_new(k, profile);
            },
        }
    }

    /// Removes the entry with key `k`, keeping the order of the others.
    /// An absent key is a caller error: every call site checks existence first.
    pub fn remove(&mut self, k: &str)
        requires
            old(self).wf(),
            contains_key(old(self)@, k@),
        ensures
            final(self)@ == old(self)@.remove(index_of(old(self)@, k@)),
            final(self).wf(),
    {
        let ghost prev = self@;
        proof {
            lemma_index_of_properties(prev, k@);
        }
        let i = self.find(k).unwrap();
        proof {
            lemma_found_is_index_of(prev, k@, i as int);
        }
        let _ = self.entries.remove(i);
        proof {
            assert(self@ =~= prev.remove(i as int));
            assert forall|x: int, y: int| 0 <= x < y < self@.len() implies self@[x].key
                != self@[y].key by {
                let px: int = if x < i { x } else { x + 1 };
                let py: int = if y < i { y } else { y + 1 };
                assert(prev[px].key != prev[py].key);
            }
        }
    }

    /// Renames the entry under `old_key` to `new_key`: the entry is removed
    /// and re-inserted under the new key at the end of the order, its field
    /// values preserved.
    pub fn rename(&mut self, old_key: &str, new_key: String)
        requires
            old(self).wf(),
            contains_key(old(self)@, old_key@),
            !contains_key(old(self)@, new_key@),
        ensures
            final(self)@ == old(self)@.remove(index_of(old(self)@, old_key@)).push(
                EntryV {
                    key: new_key@,
                    profile: old(self)@[index_of(old(self)@, old_key@)].profile,
                },
            ),
            final(self).wf(),
    {
        let ghost prev = self@;
        proof {
            lemma_index_of_properties(prev, old_key@);
        }
        let i = self.find(old_key).unwrap();
        proof {
            lemma_found_is_index_of(prev, old_key@, i as int);
        }
        let entry = self.entries.remove(i);
        proof {
            assert(self@ =~= prev.remove(i as int));
            assert forall|x: int, y: int| 0 <= x < y < self@.len() implies self@[x].key
                != self@[y].key by {
                let px: int = if x < i { x } else { x + 1 };
                let py: int = if y < i { y } else { y + 1 };
                assert(prev[px].key != prev[py].key);
            }
            assert forall|x: int| 0 <= x < self@.len() implies self@[x].key != new_key@ by {
                let px: int = if x < i { x } else { x + 1 };
                assert(prev[px].key != new_key@);
            }
        }
        self.push_new(new_key, entry.profile);
    }

    /// Overwrites the display name of the profile under `k`.
    pub fn set_name(&mut self, k: &str, value: String)
        requires
            old(self).wf(),
            contains_key(old(self)@, k@),
        ensures
            final(self)@ == old(self)@.update(
                index_of(old(self)@, k@),
                EntryV {
                    key: k@,
                    profile: ProfileV {
                        name: value@,
                        email: old(self)@[index_of(old(self)@, k@)].profile.email,
                    },
                },
            ),
            final(self).wf(),
    {
        let ghost prev = self@;
        proof {
            lemma_index_of_properties(prev, k@);
        }
        let i = self.find(k).unwrap();
        proof {
            lemma_found_is_index_of(prev, k@, i as int);
        }
        let entry = self.entries.remove(i);
        let email = entry.profile.email;
        self.entries.insert(
            i,
            ProfileEntry { key: entry.key, profile: Profile { name: value, email } },
        );
        proof {
            assert(self@ =~= prev.update(
                i as int,
                EntryV {
                    key: k@,
                    profile: ProfileV { name: value@, email: prev[i as int].profile.email },
                },
            ));
            assert forall|x: int, y: int| 0 <= x < y < self@.len() implies self@[x].key
                != self@[y].key by {
                assert(prev[x].key != prev[y].key);
            }
        }
    }

    /// Overwrites the email of the profile under `k`.
    pub fn set_email(&mut self, k: &str, value: String)
        requires
            old(self).wf(),
            contains_key(old(self)@, k@),
        ensures
            final(self)@ == old(self)@.update(
                index_of(old(self)@, k@),
                EntryV {
                    key: k@,
                    profile: ProfileV {
                        name: old(self)@[index_of(old(self)@, k@)].profile.name,
                        email: value@,
                    },
                },
            ),
            final(self).wf(),
    {
        let ghost prev = self@;
        proof {
            lemma_index_of_properties(prev, k@);
        }
        let i = self.find(k).unwrap();
        proof {
            lemma_found_is_index_of(prev, k@, i as int);
        }
        let entry = self.entries.remove(i);
        let name = entry.profile.name;
        self.entries.insert(
            i,
            ProfileEntry { key: entry.key, profile: Profile { name, email: value } },
        );
        proof {
            assert(self@ =~= prev.update(
                i as int,
                EntryV {
                    key: k@,
                    profile: ProfileV { name: prev[i as int].profile.name, email: value@ },
                },
            ));
            assert forall|x: int, y: int| 0 <= x < y < self@.len() implies self@[x].key
                != self@[y].key by {
                assert(prev[x].key != prev[y].key);
            }
        }
    }
}

/// When the key is present, `index_of` names a position that holds it.
pub proof fn lemma_index_of_properties(s: Seq<EntryV>, k: Seq<char>)
    requires
        contains_key(s, k),
    ensures
        0 <= index_of(s, k) < s.len(),
        s[index_of(s, k)].key == k,
{
    let i = choose|i: int| 0 <= i < s.len() && s[i].key == k;
    assert(0 <= i < s.len() && s[i].key == k);
}

/// With unique keys, any position that holds key `k` is `index_of(s, k)`.
pub proof fn lemma_found_is_index_of(s: Seq<EntryV>, k: Seq<char>, i: int)
    requires
        unique_keys(s),
        0 <= i < s.len(),
        s[i].key == k,
    ensures
        index_of(s, k) == i,
{
    lemma_index_of_properties(s, k);
    let j = index_of(s, k);
    if i < j {
        assert(s[i].key != s[j].key);
    }
    if j < i {
        assert(s[j].key != s[i].key);
    }
}

/// Character-by-character string equality, stated over the views.
pub fn str_eq(a: &str, b: &str) -> (r: bool)
    ensures
        r == (a@ == b@),
{
    let la = a.unicode_len();
    let lb = b.unicode_len();
    if la != lb {
        proof {
            assert(a@ != b@);
        }
        return false;
    }
    let mut i: usize = 0;
    while i < la
        invariant
            la == a@.len(),
            la == b@.len(),
            i <= la,
            forall|j: int| 0 <= j < i ==> a@[j] == b@[j],
        decreases la - i,
    {
        if a.get_char(i) != b.get_char(i) {
            return false;
        }
        i = i + 1;
    }
    proof {
        assert(a@ =~= b@);
    }
    true
}

} // verus!
