//! The profile registry: profiles keyed by alias, plus the default pointer.

use vstd::prelude::*;

verus! {

/// One remote endpoint: where to connect and as whom.
#[derive(Debug)]
pub struct Profile {
    pub host: String,
    pub user: String,
    pub port: u16,
}

/// Mathematical image of a [`Profile`].
pub ghost struct ProfileView {
    pub host: Seq<char>,
    pub user: Seq<char>,
    pub port: u16,
}

impl View for Profile {
    type V = ProfileView;

    open spec fn view(&self) -> ProfileView {
        ProfileView { host: self.host@, user: self.user@, port: self.port }
    }
}

impl Clone for Profile {
    fn clone(&self) -> (r: Self)
        ensures
            r == *self,
    {
        Profile { host: self.host.clone(), user: self.user.clone(), port: self.port }
    }
}

/// The whole registry: an association list of profiles keyed by alias, and an
/// optional default alias. Key uniqueness is the well-formedness condition
/// [`ConfigView::wf`]; every operation of this crate preserves it.
#[derive(Debug)]
pub struct Config {
    pub default: Option<String>,
    pub profiles: Vec<(String, Profile)>,
}

/// Mathematical image of a [`Config`]: the entries in storage order.
pub ghost struct ConfigView {
    pub default: Option<Seq<char>>,
    pub entries: Seq<(Seq<char>, ProfileView)>,
}

impl View for Config {
    type V = ConfigView;

    open spec fn view(&self) -> ConfigView {
        ConfigView {
            default: match self.default {
                Some(d) => Some(d@),
                None => None,
            },
            entries: self.profiles@.map_values(|e: (String, Profile)| (e.0@, e.1@)),
        }
    }
}

impl ConfigView {
    /// Aliases are unique: the entry list denotes a mapping.
    pub open spec fn wf(self) -> bool {
        forall|i: int, j: int|
            0 <= i < j < self.entries.len() ==> self.entries[i].0 != self.entries[j].0
    }

    /// Some entry carries alias `a`.
    pub open spec fn has_alias(self, a: Seq<char>) -> bool {
        exists|i: int| 0 <= i < self.entries.len() && self.entries[i].0 == a
    }

    /// Position of the entry for alias `a` (meaningful when `has_alias(a)`).
    pub open spec fn index_of(self, a: Seq<char>) -> int {
        choose|i: int| 0 <= i < self.entries.len() && self.entries[i].0 == a
    }

    /// The profile stored under alias `a` (meaningful when `has_alias(a)`).
    pub open spec fn profile_of(self, a: Seq<char>) -> ProfileView {
        self.entries[self.index_of(a)].1
    }

    /// Number of stored profiles.
    pub open spec fn len(self) -> nat {
        self.entries.len()
    }

    /// In a well-formed registry the entry at position `i` is the one found
    /// for its own alias.
    pub proof fn lemma_entry_at(self, i: int)
        requires
            self.wf(),
            0 <= i < self.entries.len(),
        ensures
            self.has_alias(self.entries[i].0),
            self.index_of(self.entries[i].0) == i,
            self.profile_of(self.entries[i].0) == self.entries[i].1,
    {
        assert(self.has_alias(self.entries[i].0));
        let j = self.index_of(self.entries[i].0);
        if j < i {
            assert(self.entries[j].0 != self.entries[i].0);
        } else if i < j {
            assert(self.entries[i].0 != self.entries[j].0);
        }
    }

    /// What deleting the entry at position `i` does to lookups: its alias is
    /// gone, everything else keeps its place and its profile.
    pub proof fn lemma_entries_remove(self, after: ConfigView, i: int)
        requires
            self.wf(),
            0 <= i < self.entries.len(),
            after.entries == self.entries.remove(i),
        ensures
            after.wf(),
            !after.has_alias(self.entries[i].0),
            forall|k: Seq<char>|
                k != self.entries[i].0 ==> #[trigger] after.has_alias(k) == self.has_alias(k),
            forall|k: Seq<char>|
                k != self.entries[i].0 && self.has_alias(k) ==> #[trigger] after.profile_of(k)
                    == self.profile_of(k),
    {
        let a = self.entries[i].0;
        assert forall|p: int, q: int|
            0 <= p < q < after.entries.len() implies after.entries[p].0 != after.entries[q].0 by {
            let p0 = if p < i { p } else { p + 1 };
            let q0 = if q < i { q } else { q + 1 };
            assert(after.entries[p] == self.entries[p0]);
            assert(after.entries[q] == self.entries[q0]);
        }
        if after.has_alias(a) {
            let j = choose|j: int| 0 <= j < after.entries.len() && after.entries[j].0 == a;
            let j0 = if j < i { j } else { j + 1 };
            assert(after.entries[j] == self.entries[j0]);
            assert(self.entries[j0].0 != self.entries[i].0);
        }
        assert forall|k: Seq<char>| k != a implies #[trigger] after.has_alias(k)
            == self.has_alias(k) by {
            if after.has_alias(k) {
                let j = choose|j: int| 0 <= j < after.entries.len() && after.entries[j].0 == k;
                let j0 = if j < i { j } else { j + 1 };
                assert(after.entries[j] == self.entries[j0]);
                assert(self.has_alias(k));
            }
            if self.has_alias(k) {
                let j0 = choose|j: int| 0 <= j < self.entries.len() && self.entries[j].0 == k;
                let j = if j0 < i { j0 } else { j0 - 1 };
                assert(after.entries[j] == self.entries[j0]);
                assert(after.has_alias(k));
            }
        }
        assert forall|k: Seq<char>| k != a && self.has_alias(k) implies #[trigger] after.profile_of(
            k,
        ) == self.profile_of(k) by {
            assert(after.has_alias(k));
            let j = after.index_of(k);
            assert(0 <= j < after.entries.len() && after.entries[j].0 == k);
            let j0 = if j < i { j } else { j + 1 };
            assert(after.entries[j] == self.entries[j0]);
            self.lemma_entry_at(j0);
        }
    }

    /// What appending a fresh entry does to lookups: the new alias maps to
    /// the new profile, everything already stored is untouched.
    pub proof fn lemma_entries_push(self, after: ConfigView, e: (Seq<char>, ProfileView))
        requires
            self.wf(),
            !self.has_alias(e.0),
            after.entries == self.entries.push(e),
        ensures
            after.wf(),
            after.has_alias(e.0),
            after.profile_of(e.0) == e.1,
            forall|k: Seq<char>| k != e.0 ==> #[trigger] after.has_alias(k) == self.has_alias(k),
            forall|k: Seq<char>|
                k != e.0 && self.has_alias(k) ==> #[trigger] after.profile_of(k)
                    == self.profile_of(k),
    {
        let n = self.entries.len() as int;
        assert forall|p: int, q: int|
            0 <= p < q < after.entries.len() implies after.entries[p].0 != after.entries[q].0 by {
            if q < n {
                assert(after.entries[p] == self.entries[p]);
                assert(after.entries[q] == self.entries[q]);
            } else {
                assert(after.entries[p] == self.entries[p]);
                assert(after.entries[q] == e);
                assert(self.has_alias(self.entries[p].0));
            }
        }
        assert(after.entries[n] == e);
        after.lemma_entry_at(n);
        assert forall|k: Seq<char>| k != e.0 implies #[trigger] after.has_alias(k)
            == self.has_alias(k) by {
            if after.has_alias(k) {
                let j = choose|j: int| 0 <= j < after.entries.len() && after.entries[j].0 == k;
                assert(after.entries[j] == self.entries[j]);
            }
            if self.has_alias(k) {
                let j = choose|j: int| 0 <= j < self.entries.len() && self.entries[j].0 == k;
                assert(after.entries[j] == self.entries[j]);
            }
        }
        assert forall|k: Seq<char>| k != e.0 && self.has_alias(k) implies #[trigger] after.profile_of(
            k,
        ) == self.profile_of(k) by {
            let j = self.index_of(k);
            self.lemma_entry_at(j);
            assert(after.entries[j] == self.entries[j]);
            after.lemma_entry_at(j);
        }
    }

    /// What replacing the entry at position `i` in place does to lookups:
    /// its alias now maps to the new profile, everything else is untouched.
    pub proof fn lemma_entries_update(self, after: ConfigView, i: int, p: ProfileView)
        requires
            self.wf(),
            0 <= i < self.entries.len(),
            after.entries == self.entries.update(i, (self.entries[i].0, p)),
        ensures
            after.wf(),
            after.has_alias(self.entries[i].0),
            after.profile_of(self.entries[i].0) == p,
            forall|k: Seq<char>|
                #[trigger] after.has_alias(k) == self.has_alias(k),
            forall|k: Seq<char>|
                k != self.entries[i].0 && self.has_alias(k) ==> #[trigger] after.profile_of(k)
                    == self.profile_of(k),
    {
        let a = self.entries[i].0;
        assert forall|x: int, y: int|
            0 <= x < y < after.entries.len() implies after.entries[x].0 != after.entries[y].0 by {
            assert(after.entries[x].0 == self.entries[x].0);
            assert(after.entries[y].0 == self.entries[y].0);
        }
        assert(after.entries[i] == (a, p));
        after.lemma_entry_at(i);
        assert forall|k: Seq<char>| #[trigger] after.has_alias(k) == self.has_alias(k) by {
            if after.has_alias(k) {
                let j = choose|j: int| 0 <= j < after.entries.len() && after.entries[j].0 == k;
                assert(after.entries[j].0 == self.entries[j].0);
            }
            if self.has_alias(k) {
                let j = choose|j: int| 0 <= j < self.entries.len() && self.entries[j].0 == k;
                assert(after.entries[j].0 == self.entries[j].0);
            }
        }
        assert forall|k: Seq<char>| k != a && self.has_alias(k) implies #[trigger] after.profile_of(
            k,
        ) == self.profile_of(k) by {
            let j = self.index_of(k);
            self.lemma_entry_at(j);
            assert(after.entries[j] == self.entries[j]);
            after.lemma_entry_at(j);
        }
    }
}

impl Config {
    /// Well-formedness of the registry, stated on its view.
    pub open spec fn wf(&self) -> bool {
        self@.wf()
    }

    /// Position of the entry stored under `alias`, if any.
    pub fn position_of(&self, alias: &str) -> (r: Option<usize>)
        ensures
            match r {
                Some(i) => i < self@.entries.len() && self@.entries[i as int].0 == alias@,
                None => !self@.has_alias(alias@),
            },
    {
        let n = self.profiles.len();
        let mut i: usize = 0;
        while i < n
            invariant
                n == self.profiles.len(),
                0 <= i <= n,
                self@.entries.len() == n,
                forall|j: int| 0 <= j < i ==> self@.entries[j].0 != alias@,
                forall|j: int|
                    0 <= j < n ==> self@.entries[j] == (self.profiles@[j].0@, self.profiles@[j].1@),
            decreases n - i,
        {
            if crate::util::str_eq(self.profiles[i].0.as_str(), alias) {
                return Some(i);
            }
            i += 1;
        }
        None
    }

    /// Resolve an alias token to the profile it names.
    ///
    /// The token `default` goes through the default pointer: it fails when
    /// nothing is stored, when no default is chosen, or when the pointer
    /// dangles. Any other token is looked up directly. A stored alias is
    /// never shadowed by the sentinel, because `default` itself cannot be
    /// stored.
    pub fn get_profile(&self, alias: &str) -> (r: Result<&Profile, String>)
        requires
            self.wf(),
        ensures
            match r {
                Ok(p) => {
                    if alias@ == "default"@ {
                        &&& self@.default matches Some(d)
                        &&& self@.has_alias(d)
                        &&& p@ == self@.profile_of(d)
                    } else {
                        &&& self@.has_alias(alias@)
                        &&& p@ == self@.profile_of(alias@)
                    }
                },
                Err(e) => {
                    if alias@ == "default"@ {
                        match self@.default {
                            None => {
                                if self@.entries.len() == 0 {
                                    e@ == "No host found. Add a host: 'qs add <alias> --host <host> --user <user>'"@
                                } else {
                                    e@ == "No default set. Use 'qs set-default <alias>'"@
                                }
                            },
                            Some(d) => {
                                &&& !self@.has_alias(d)
                                &&& e@ == "Default alias '"@ + d + "' not found"@
                            },
                        }
                    } else {
                        &&& !self@.has_alias(alias@)
                        &&& e@ == "Alias '"@ + alias@ + "' doesn't exist"@
                    }
                },
            },
    {
        if crate::util::str_eq(alias, "default") {
            match &self.default {
                Some(default_alias) => {
                    match self.position_of(default_alias.as_str()) {
                        Some(i) => {
                            proof {
                                self@.lemma_entry_at(i as int);
                            }
                            Ok(&self.profiles[i].1)
                        },
                        None => Err(
                            crate::util::msg3("Default alias '", default_alias.as_str(), "' not found"),
                        ),
                    }
                },
                None => {
                    if self.profiles.len() == 0 {
                        Err(
                            String::from_str(
                                "No host found. Add a host: 'qs add <alias> --host <host> --user <user>'",
                            ),
                        )
                    } else {
                        Err(String::from_str("No default set. Use 'qs set-default <alias>'"))
                    }
                },
            }
        } else {
            match self.position_of(alias) {
                Some(i) => {
                    proof {
                        self@.lemma_entry_at(i as int);
                    }
                    Ok(&self.profiles[i].1)
                },
                None => Err(crate::util::msg3("Alias '", alias, "' doesn't exist")),
            }
        }
    }
}

impl Default for Config {
    /// The state of a fresh registry: nothing stored, no default chosen.
    fn default() -> (r: Self)
        ensures
            r@.len() == 0,
            r@.default is None,
            r.wf(),
    {
        Config { default: None, profiles: Vec::new() }
    }
}

} // verus!
