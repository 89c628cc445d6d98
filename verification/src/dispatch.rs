//! The command dispatcher: one user-selected operation, applied to the store.
//!
//! Every check happens before any mutation: an operation either fails with a
//! [`UserError`] and leaves the store exactly as it was, or succeeds and
//! makes its one change. The caller learns from the [`Outcome`] what is left
//! to do outside the store: write the file back, hand an identity to the
//! version-control tool, print a listing, show the raw file, or delete the
//! persisted state.

use vstd::prelude::*;

use crate::store::{EntryV, ProfileV, Profile, Store, contains_key, index_of, opt_view, str_eq};

verus! {

/// One operation of the tool, a closed sum.
pub enum Op {
    /// Hand the profile's identity to the version-control tool.
    Apply { profile: String },
    /// Insert a new profile. An unset name defaults to the profile key; an
    /// unset email is derived from the name.
    Add { profile: String, name: Option<String>, email: Option<String> },
    /// Delete a profile.
    Remove { profile: String },
    /// Rename a profile, keeping its field values.
    Rename { old_name: String, new_name: String },
    /// Overwrite a profile's display name.
    SetName { profile: String, value: String },
    /// Overwrite a profile's email.
    SetEmail { profile: String, value: String },
    /// Print every profile, in insertion order.
    List,
    /// Print the store file's path and verbatim contents.
    ShowRaw,
    /// Delete all persisted state.
    Reset,
}

/// What is left to do outside the store after a successful operation.
pub enum Outcome {
    /// Write `name` and `email` into the repository's configuration.
    SetIdentity { name: String, email: String },
    /// The store changed: write it back in full.
    Persist,
    /// Print this listing.
    Listing { text: String },
    /// Print the store file's path and verbatim contents.
    ShowRaw,
    /// Delete the persisted state.
    Reset,
}

/// A user-facing rejection: reported, exits non-zero, mutates nothing.
pub enum UserError {
    /// The named profile does not exist.
    NotFound { profile: String },
    /// The named profile already exists.
    AlreadyExists { profile: String },
    /// No profile exists yet, and one is needed.
    NoProfiles,
}

/// The email derived from a display name when none is given.
pub open spec fn spec_default_email(name: Seq<char>) -> Seq<char> {
    name + "@users.noreply.github.com"@
}

/// The entry that `Add` stores: an unset name defaults to the profile key,
/// an unset email to the derived one.
pub open spec fn added_entry(
    key: Seq<char>,
    name: Option<Seq<char>>,
    email: Option<Seq<char>>,
) -> EntryV {
    let n = match name {
        Some(s) => s,
        None => key,
    };
    let e = match email {
        Some(s) => s,
        None => spec_default_email(n),
    };
    EntryV { key, profile: ProfileV { name: n, email: e } }
}

/// One profile of the listing.
pub open spec fn render_one(e: EntryV) -> Seq<char> {
    "Profile: "@ + e.key + "\nName: "@ + e.profile.name + "\nEmail: "@ + e.profile.email + "\n"@
}

/// The listing after its first profile: an empty line before each further one.
pub open spec fn render_tail(s: Seq<EntryV>) -> Seq<char>
    decreases s.len(),
{
    if s.len() == 0 {
        Seq::empty()
    } else {
        seq!['\n'] + render_one(s[0]) + render_tail(s.drop_first())
    }
}

/// The whole listing, in insertion order.
pub open spec fn render_list(s: Seq<EntryV>) -> Seq<char> {
    if s.len() == 0 {
        Seq::empty()
    } else {
        render_one(s[0]) + render_tail(s.drop_first())
    }
}

/// The email derived from a display name when none is given.
pub fn default_email(name: &str) -> (r: String)
    ensures
        r@ == spec_default_email(name@),
{
    let mut r = String::from_str(name);
    r.append("@users.noreply.github.com");
    r
}

impl UserError {
    /// What the rejection says.
    pub open spec fn spec_message(&self) -> Seq<char> {
        match self {
            UserError::NotFound { profile } => "ERROR: Profile '"@ + profile@
                + "' could not be found"@,
            UserError::AlreadyExists { profile } => "ERROR: Profile '"@ + profile@
                + "' already exists"@,
            UserError::NoProfiles => "ERROR: You have to create a profile first. Use: git-user add"@,
        }
    }

    /// The message to report for this rejection.
    pub fn message(&self) -> (r: String)
        ensures
            r@ == self.spec_message(),
    {
        match self {
            UserError::NotFound { profile } => {
                let mut r = String::from_str("ERROR: Profile '");
                r.append(profile.as_str());
                r.append("' could not be found");
                r
            },
            UserError::AlreadyExists { profile } => {
                let mut r = String::from_str("ERROR: Profile '");
                r.append(profile.as_str());
                r.append("' already exists");
                r
            },
            UserError::NoProfiles => {
                String::from_str("ERROR: You have to create a profile first. Use: git-user add")
            },
        }
    }

    /// Every user-facing rejection exits with status 1.
    pub fn exit_code(&self) -> (r: i32)
        ensures
            r == 1,
    {
        1
    }
}

/// Whether the operation needs the version-control tool, and a repository,
/// to be present.
pub fn needs_git(op: &Op) -> (r: bool)
    ensures
        r == (op matches Op::Apply { .. }),
{
    match op {
        Op::Apply { .. } => true,
        _ => false,
    }
}

/// Applies one operation to the store. All checks happen before any
/// mutation: on `Err` the store is unchanged.
pub fn dispatch(store: &mut Store, op: Op) -> (r: Result<Outcome, UserError>)
    requires
        old(store).wf(),
    ensures
        final(store).wf(),
        (match op {
            Op::Apply { profile } => {
                &&& final(store)@ == old(store)@
                &&& (if contains_key(old(store)@, profile@) {
                    r matches Ok(Outcome::SetIdentity { name, email })
                        && name@ == old(store)@[index_of(old(store)@, profile@)].profile.name
                        && email@ == old(store)@[index_of(old(store)@, profile@)].profile.email
                } else {
                    r matches Err(UserError::NotFound { profile: p }) && p@ == profile@
                })
            },
            Op::Add { profile, name, email } => {
                if contains_key(old(store)@, profile@) {
                    &&& final(store)@ == old(store)@
                    &&& r matches Err(UserError::AlreadyExists { profile: p }) && p@ == profile@
                } else {
                    &&& final(store)@ == old(store)@.push(
                        added_entry(profile@, opt_view(name), opt_view(email)),
                    )
                    &&& r matches Ok(Outcome::Persist)
                }
            },
            Op::Remove { profile } => {
                if contains_key(old(store)@, profile@) {
                    &&& final(store)@ == old(store)@.remove(index_of(old(store)@, profile@))
                    &&& r matches Ok(Outcome::Persist)
                } else {
                    &&& final(store)@ == old(store)@
                    &&& r matches Err(UserError::NotFound { profile: p }) && p@ == profile@
                }
            },
            Op::Rename { old_name, new_name } => {
                if !contains_key(old(store)@, old_name@) {
                    &&& final(store)@ == old(store)@
                    &&& r matches Err(UserError::NotFound { profile: p }) && p@ == old_name@
                } else if contains_key(old(store)@, new_name@) {
                    &&& final(store)@ == old(store)@
                    &&& r matches Err(UserError::AlreadyExists { profile: p }) && p@ == new_name@
                } else {
                    &&& final(store)@ == old(store)@.remove(
                        index_of(old(store)@, old_name@),
                    ).push(
                        (EntryV {
                            key: new_name@,
                            profile: old(store)@[index_of(old(store)@, old_name@)].profile,
                        }),
                    )
                    &&& r matches Ok(Outcome::Persist)
                }
            },
            Op::SetName { profile, value } => {
                if contains_key(old(store)@, profile@) {
                    &&& final(store)@ == old(store)@.update(
                        index_of(old(store)@, profile@),
                        (EntryV {
                            key: profile@,
                            profile: ProfileV {
                                name: value@,
                                email: old(store)@[index_of(
                                    old(store)@,
                                    profile@,
                                )].profile.email,
                            },
                        }),
                    )
                    &&& r matches Ok(Outcome::Persist)
                } else {
                    &&& final(store)@ == old(store)@
                    &&& r matches Err(UserError::NotFound { profile: p }) && p@ == profile@
                }
            },
            Op::SetEmail { profile, value } => {
                if contains_key(old(store)@, profile@) {
                    &&& final(store)@ == old(store)@.update(
                        index_of(old(store)@, profile@),
                        (EntryV {
                            key: profile@,
                            profile: ProfileV {
                                name: old(store)@[index_of(old(store)@, profile@)].profile.name,
                                email: value@,
                            },
                        }),
                    )
                    &&& r matches Ok(Outcome::Persist)
                } else {
                    &&& final(store)@ == old(store)@
                    &&& r matches Err(UserError::NotFound { profile: p }) && p@ == profile@
                }
            },
            Op::List => {
                &&& final(store)@ == old(store)@
                &&& r matches Ok(Outcome::Listing { text }) && text@ == render_list(old(store)@)
            },
            Op::ShowRaw => {
                &&& final(store)@ == old(store)@
                &&& r matches Ok(Outcome::ShowRaw)
            },
            Op::Reset => {
                &&& final(store)@ == old(store)@
                &&& r matches Ok(Outcome::Reset)
            },
        }),
{
    match op {
        Op::Apply { profile } => {
            if store.contains(profile.as_str()) {
                let p = store.get(profile.as_str());
                let name = p.name.clone();
                let email = p.email.clone();
                Ok(Outcome::SetIdentity { name, email })
            } else {
                Err(UserError::NotFound { profile })
            }
        },
        Op::Add { profile, name, email } => {
            if store.contains(profile.as_str()) {
                Err(UserError::AlreadyExists { profile })
            } else {
                let name_v = match name {
                    Some(n) => n,
                    None => profile.clone(),
                };
                let email_v = match email {
                    Some(e) => e,
                    None => default_email(name_v.as_str()),
                };
                store.push_new(profile, Profile { name: name_v, email: email_v });
                Ok(Outcome::Persist)
            }
        },
        Op::Remove { profile } => {
            if store.contains(profile.as_str()) {
                store.remove(profile.as_str());
                Ok(Outcome::Persist)
            } else {
                Err(UserError::NotFound { profile })
            }
        },
        Op::Rename { old_name, new_name } => {
            if !store.contains(old_name.as_str()) {
                Err(UserError::NotFound { profile: old_name })
            } else if store.contains(new_name.as_str()) {
                Err(UserError::AlreadyExists { profile: new_name })
            } else {
                store.rename(old_name.as_str(), new_name);
                Ok(Outcome::Persist)
            }
        },
        Op::SetName { profile, value } => {
            if store.contains(profile.as_str()) {
                store.set_name(profile.as_str(), value);
                Ok(Outcome::Persist)
            } else {
                Err(UserError::NotFound { profile })
            }
        },
        Op::SetEmail { profile, value } => {
            if store.contains(profile.as_str()) {
                store.set_email(profile.as_str(), value);
                Ok(Outcome::Persist)
            } else {
                Err(UserError::NotFound { profile })
            }
        },
        Op::List => {
            let text = render_listing(store);
            Ok(Outcome::Listing { text })
        },
        Op::ShowRaw => Ok(Outcome::ShowRaw),
        Op::Reset => Ok(Outcome::Reset),
    }
}

/// The listing grows by an empty line and one more profile.
proof fn lemma_render_snoc(a: Seq<EntryV>, x: EntryV)
    ensures
        a.len() == 0 ==> render_list(a.push(x)) == render_one(x),
        a.len() > 0 ==> render_list(a.push(x)) == render_list(a) + seq!['\n'] + render_one(x),
{
    lemma_render_tail_snoc(a, x);
    if a.len() == 0 {
        assert(a.push(x)[0] == x);
        assert(a.push(x).drop_first() =~= Seq::<EntryV>::empty());
        assert(render_one(x) + Seq::<char>::empty() =~= render_one(x));
    } else {
        assert(a.push(x)[0] == a[0]);
        assert(a.push(x).drop_first() =~= a.drop_first().push(x));
        lemma_render_tail_snoc(a.drop_first(), x);
        assert(render_one(a[0]) + (render_tail(a.drop_first()) + (seq!['\n'] + render_one(x)))
            =~= render_list(a) + seq!['\n'] + render_one(x));
    }
}

/// The tail of the listing grows at its end.
proof fn lemma_render_tail_snoc(a: Seq<EntryV>, x: EntryV)
    ensures
        render_tail(a.push(x)) == render_tail(a) + (seq!['\n'] + render_one(x)),
    decreases a.len(),
{
    if a.len() == 0 {
        assert(a.push(x)[0] == x);
        assert(a.push(x).drop_first() =~= Seq::<EntryV>::empty());
        assert(render_tail(a.push(x)) == seq!['\n'] + render_one(x) + render_tail(
            Seq::<EntryV>::empty(),
        ));
        assert(seq!['\n'] + render_one(x) + Seq::<char>::empty() =~= render_tail(a) + (seq!['\n']
            + render_one(x)));
    } else {
        lemma_render_tail_snoc(a.drop_first(), x);
        assert(a.push(x)[0] == a[0]);
        assert(a.push(x).drop_first() =~= a.drop_first().push(x));
        assert(seq!['\n'] + render_one(a[0]) + (render_tail(a.drop_first()) + (seq!['\n']
            + render_one(x))) =~= render_tail(a) + (seq!['\n'] + render_one(x)));
    }
}

/// Appends one profile of the listing to `out`.
fn push_one(out: &mut String, key: &str, profile: &Profile)
    ensures
        final(out)@ == old(out)@ + render_one(
            (EntryV { key: key@, profile: ProfileV { name: profile.name@, email: profile.email@ } }),
        ),
{
    out.append("Profile: ");
    out.append(key);
    out.append("\nName: ");
    out.append(profile.name.as_str());
    out.append("\nEmail: ");
    out.append(profile.email.as_str());
    out.append("\n");
}

/// Writes the listing: every profile's key, name and email, in insertion
/// order, an empty line between profiles.
pub fn render_listing(store: &Store) -> (r: String)
    ensures
        r@ == render_list(store@),
{
    let mut out = String::new();
    let n = store.len();
    let mut i: usize = 0;
    proof {
        assert(store@.take(0) =~= Seq::<EntryV>::empty());
        assert(out@ =~= render_list(store@.take(0)));
    }
    while i < n
        invariant
            n == store@.len(),
            i <= n,
            out@ == render_list(store@.take(i as int)),
        decreases n - i,
    {
        let ghost before = out@;
        if i != 0 {
            out.push('\n');
        }
        let key = store.key_at(i);
        let profile = store.profile_at(i);
        push_one(&mut out, key.as_str(), profile);
        proof {
            let e = store@[i as int];
            assert(ProfileV { name: e.profile.name, email: e.profile.email } =~= e.profile);
            assert(EntryV { key: e.key, profile: e.profile } =~= e);
            lemma_render_snoc(store@.take(i as int), e);
            assert(store@.take(i + 1) =~= store@.take(i as int).push(e));
            if i == 0 {
                assert(out@ =~= render_list(store@.take(i + 1)));
            } else {
                assert(out@ =~= before + seq!['\n'] + render_one(e));
                assert(out@ =~= render_list(store@.take(i + 1)));
            }
        }
        i = i + 1;
    }
    proof {
        assert(store@.take(n as int) =~= store@);
    }
    out
}

/// The items offered when a profile is chosen interactively: one line per
/// profile, `name : email`, in insertion order.
pub fn selection_items(store: &Store) -> (r: Vec<String>)
    ensures
        r@.len() == store@.len(),
        forall|i: int|
            0 <= i < store@.len() ==> r@[i]@ == store@[i].profile.name + " : "@
                + store@[i].profile.email,
{
    let n = store.len();
    let mut items: Vec<String> = Vec::new();
    let mut i: usize = 0;
    while i < n
        invariant
            n == store@.len(),
            i <= n,
            items@.len() == i,
            forall|j: int|
                0 <= j < i ==> items@[j]@ == store@[j].profile.name + " : "@
                    + store@[j].profile.email,
        decreases n - i,
    {
        let profile = store.profile_at(i);
        let mut item = String::from_str(profile.name.as_str());
        item.append(" : ");
        item.append(profile.email.as_str());
        items.push(item);
        i = i + 1;
    }
    items
}

/// The last position whose profile matches the given identity, or the first
/// position when none does.
pub open spec fn last_match(s: Seq<EntryV>, name: Seq<char>, email: Seq<char>) -> int
    decreases s.len(),
{
    if s.len() == 0 {
        0
    } else if s.last().profile.name == name && s.last().profile.email == email {
        s.len() - 1
    } else {
        last_match(s.drop_last(), name, email)
    }
}

/// The position offered as the default choice: the profile matching the
/// repository's current identity, else the first.
pub fn default_selection(store: &Store, cur_name: &str, cur_email: &str) -> (r: usize)
    ensures
        r == last_match(store@, cur_name@, cur_email@),
        store@.len() > 0 ==> r < store@.len(),
        store@.len() == 0 ==> r == 0,
{
    proof {
        lemma_last_match_bound(store@, cur_name@, cur_email@);
    }
    let n = store.len();
    let mut best: usize = 0;
    let mut i: usize = 0;
    proof {
        assert(store@.take(0) =~= Seq::<EntryV>::empty());
    }
    while i < n
        invariant
            n == store@.len(),
            i <= n,
            best == last_match(store@.take(i as int), cur_name@, cur_email@),
            best <= i,
        decreases n - i,
    {
        let profile = store.profile_at(i);
        proof {
            assert(store@.take(i + 1).last() == store@[i as int]);
            assert(store@.take(i + 1).drop_last() =~= store@.take(i as int));
        }
        if str_eq(profile.name.as_str(), cur_name) && str_eq(profile.email.as_str(), cur_email) {
            best = i;
        }
        i = i + 1;
    }
    proof {
        assert(store@.take(n as int) =~= store@);
    }
    best
}

/// Adding a profile that did not exist makes it exist, grows the count by
/// exactly one, and keeps every other entry in place.
pub proof fn lemma_add_uniqueness(
    s: Seq<EntryV>,
    key: Seq<char>,
    name: Option<Seq<char>>,
    email: Option<Seq<char>>,
)
    requires
        !contains_key(s, key),
    ensures
        contains_key(s.push(added_entry(key, name, email)), key),
        s.push(added_entry(key, name, email)).len() == s.len() + 1,
        forall|i: int| 0 <= i < s.len() ==> s.push(added_entry(key, name, email))[i] == s[i],
{
    let s2 = s.push(added_entry(key, name, email));
    assert(s2[s.len() as int].key == key);
}

/// The default position stays inside the store.
proof fn lemma_last_match_bound(s: Seq<EntryV>, name: Seq<char>, email: Seq<char>)
    ensures
        0 <= last_match(s, name, email),
        s.len() > 0 ==> last_match(s, name, email) < s.len(),
        s.len() == 0 ==> last_match(s, name, email) == 0,
    decreases s.len(),
{
    if s.len() > 0 {
        lemma_last_match_bound(s.drop_last(), name, email);
    }
}

} // verus!
