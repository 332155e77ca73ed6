use vstd::prelude::*;

use crate::errors::StoreError;

verus! {

/// One stored credential record.
#[derive(Debug)]
pub struct Account {
    pub password: String,
    pub notes: String,
}

/// Mathematical image of an [`Account`].
pub struct AccountV {
    pub password: Seq<char>,
    pub notes: Seq<char>,
}

impl View for Account {
    type V = AccountV;

    open spec fn view(&self) -> AccountV {
        AccountV { password: self.password@, notes: self.notes@ }
    }
}

/// A username together with its record.
#[derive(Debug)]
pub struct Entry {
    pub username: String,
    pub account: Account,
}

/// Mathematical image of an [`Entry`].
pub struct EntryV {
    pub username: Seq<char>,
    pub account: AccountV,
}

impl View for Entry {
    type V = EntryV;

    open spec fn view(&self) -> EntryV {
        EntryV { username: self.username@, account: self.account@ }
    }
}

/// No username occurs twice.
pub open spec fn unique_names(es: Seq<EntryV>) -> bool {
    forall|i: int, j: int| 0 <= i < j < es.len() ==> es[i].username != es[j].username
}

/// Some entry carries the given username.
pub open spec fn has_name(es: Seq<EntryV>, name: Seq<char>) -> bool {
    exists|i: int| 0 <= i < es.len() && es[i].username == name
}

/// The mapping that a list of entries denotes; a later entry wins,
/// though under [`unique_names`] the case never arises.
pub open spec fn map_of(es: Seq<EntryV>) -> Map<Seq<char>, AccountV>
    decreases es.len(),
{
    if es.len() == 0 {
        Map::empty()
    } else {
        map_of(es.drop_last()).insert(es.last().username, es.last().account)
    }
}

pub proof fn lemma_map_of_contains(es: Seq<EntryV>, name: Seq<char>)
    ensures
        map_of(es).contains_key(name) <==> has_name(es, name),
    decreases es.len(),
{
    if es.len() > 0 {
        lemma_map_of_contains(es.drop_last(), name);
        if has_name(es, name) && es.last().username != name {
            let i = choose|i: int| 0 <= i < es.len() && es[i].username == name;
            assert(es.drop_last()[i] == es[i]);
        }
    }
}

pub proof fn lemma_map_of_index(es: Seq<EntryV>, i: int)
    requires
        unique_names(es),
        0 <= i < es.len(),
    ensures
        map_of(es).contains_key(es[i].username),
        map_of(es)[es[i].username] == es[i].account,
    decreases es.len(),
{
    lemma_map_of_contains(es, es[i].username);
    if i < es.len() - 1 {
        assert(es[i].username != es.last().username);
        assert(es.drop_last()[i] == es[i]);
        lemma_map_of_index(es.drop_last(), i);
    }
}

pub proof fn lemma_map_of_push(es: Seq<EntryV>, e: EntryV)
    ensures
        map_of(es.push(e)) == map_of(es).insert(e.username, e.account),
{
    assert(es.push(e).drop_last() =~= es);
    assert(es.push(e).last() == e);
}

pub proof fn lemma_map_of_remove(es: Seq<EntryV>, i: int)
    requires
        unique_names(es),
        0 <= i < es.len(),
    ensures
        map_of(es.remove(i)) =~= map_of(es).remove(es[i].username),
    decreases es.len(),
{
    let name = es[i].username;
    if i == es.len() - 1 {
        assert(es.remove(i) =~= es.drop_last());
        lemma_map_of_contains(es.drop_last(), name);
        assert(forall|j: int| 0 <= j < es.len() - 1 ==> es.drop_last()[j] == es[j]);
        assert(!has_name(es.drop_last(), name));
        assert(map_of(es.drop_last()).insert(name, es[i].account).remove(name)
            =~= map_of(es.drop_last()));
    } else {
        let dl = es.drop_last();
        assert(dl[i] == es[i]);
        lemma_map_of_remove(dl, i);
        assert(es.remove(i).drop_last() =~= dl.remove(i));
        assert(es.remove(i).last() == es.last());
        assert(es.last().username != name);
    }
}

/// True equality on string slices.
///
/// Relies on str's `PartialEq`: true exactly when the two slices hold the
/// same characters.
#[verifier::external_body]
pub(crate) fn str_eq(a: &str, b: &str) -> (r: bool)
    ensures
        r == (a@ == b@),
{
    a == b
}

/// Copies a record; the copy denotes the same value.
pub fn clone_account(a: &Account) -> (r: Account)
    ensures
        r@ == a@,
{
    Account { password: a.password.clone(), notes: a.notes.clone() }
}

/// Copies an entry; the copy denotes the same value.
pub fn clone_entry(e: &Entry) -> (r: Entry)
    ensures
        r@ == e@,
{
    Entry { username: e.username.clone(), account: clone_account(&e.account) }
}

/// The in-memory account repository: a mapping from unique usernames to
/// records, held as a list of entries.
#[derive(Debug)]
pub struct AccountBook {
    pub(crate) entries: Vec<Entry>,
}

impl View for AccountBook {
    type V = Seq<EntryV>;

    closed spec fn view(&self) -> Seq<EntryV> {
        Seq::new(self.entries@.len(), |i: int| self.entries@[i]@)
    }
}

impl AccountBook {
    /// The mapping this repository denotes.
    pub open spec fn as_map(&self) -> Map<Seq<char>, AccountV> {
        map_of(self@)
    }

    /// Usernames are unique.
    pub open spec fn wf(&self) -> bool {
        unique_names(self@)
    }

    /// A fresh, empty repository.
    pub fn new() -> (r: AccountBook)
        ensures
            r@ =~= Seq::<EntryV>::empty(),
            r.wf(),
            r.as_map() =~= Map::<Seq<char>, AccountV>::empty(),
    {
        AccountBook { entries: Vec::new() }
    }

    /// Index of the entry carrying the given username, if any.
    fn find(&self, username: &str) -> (r: Option<usize>)
        ensures
            match r {
                Some(i) => i < self@.len() && self@[i as int].username == username@,
                None => !has_name(self@, username@),
            },
    {
        let n = self.entries.len();
        for i in 0..n
            invariant
                n == self@.len(),
                forall|j: int| 0 <= j < i ==> self@[j].username != username@,
        {
            if str_eq(self.entries[i].username.as_str(), username) {
                return Some(i);
            }
        }
        None
    }

    /// Number of entries.
    pub fn len(&self) -> (r: usize)
        ensures
            r == self@.len(),
    {
        self.entries.len()
    }

    /// Looks a record up by exact username; `None` exactly when the
    /// username is absent.
    pub fn get(&self, username: &str) -> (r: Option<&Account>)
        requires
            self.wf(),
        ensures
            match r {
                Some(a) => self.as_map().contains_key(username@)
                    && a@ == self.as_map()[username@],
                None => !self.as_map().contains_key(username@),
            },
    {
        proof {
            lemma_map_of_contains(self@, username@);
        }
        match self.find(username) {
            Some(i) => {
                proof {
                    lemma_map_of_index(self@, i as int);
                }
                Some(&self.entries[i].account)
            }
            None => None,
        }
    }

    /// Inserts a new record; fails with `AlreadyExists`, changing nothing,
    /// exactly when the username is already present.
    pub fn add(&mut self, username: &str, password: &str, notes: &str) -> (r: Result<(), StoreError>)
        requires
            old(self).wf(),
        ensures
            final(self).wf(),
            match r {
                Ok(()) => !old(self).as_map().contains_key(username@)
                    && final(self)@ == old(self)@.push(EntryV {
                        username: username@,
                        account: AccountV { password: password@, notes: notes@ },
                    })
                    && final(self).as_map() == old(self).as_map().insert(
                        username@,
                        AccountV { password: password@, notes: notes@ },
                    ),
                Err(e) => e == StoreError::AlreadyExists
                    && old(self).as_map().contains_key(username@)
                    && *final(self) == *old(self),
            },
    {
        proof {
            lemma_map_of_contains(self@, username@);
        }
        match self.find(username) {
            Some(_) => Err(StoreError::AlreadyExists),
            None => {
                let e = Entry {
                    username: username.to_owned(),
                    account: Account { password: password.to_owned(), notes: notes.to_owned() },
                };
                let ghost old_view = self@;
                let ghost ev = e@;
                self.entries.push(e);
                proof {
                    assert(self@ =~= old_view.push(ev));
                    lemma_map_of_push(old_view, ev);
                }
                Ok(())
            }
        }
    }

    /// Removes a record; fails with `NotFound`, changing nothing, exactly
    /// when the username is absent.
    pub fn delete(&mut self, username: &str) -> (r: Result<(), StoreError>)
        requires
            old(self).wf(),
        ensures
            final(self).wf(),
            match r {
                Ok(()) => old(self).as_map().contains_key(username@)
                    && (exists|i: int| 0 <= i < old(self)@.len()
                        && old(self)@[i].username == username@
                        && final(self)@ == old(self)@.remove(i))
                    && final(self).as_map() == old(self).as_map().remove(username@),
                Err(e) => e == StoreError::NotFound
                    && !old(self).as_map().contains_key(username@)
                    && *final(self) == *old(self),
            },
    {
        proof {
            lemma_map_of_contains(self@, username@);
        }
        match self.find(username) {
            Some(i) => {
                let ghost old_view = self@;
                self.entries.remove(i);
                proof {
                    assert(self@ =~= old_view.remove(i as int));
                    lemma_map_of_index(old_view, i as int);
                    lemma_map_of_remove(old_view, i as int);
                }
                Ok(())
            }
            None => Err(StoreError::NotFound),
        }
    }

    /// Overwrites only the provided fields of an existing record; fails
    /// with `NotFound`, changing nothing, exactly when the username is
    /// absent.
    pub fn update(&mut self, username: &str, password: Option<&str>, notes: Option<&str>) -> (r: Result<(), StoreError>)
        requires
            old(self).wf(),
        ensures
            final(self).wf(),
            match r {
                Ok(()) => old(self).as_map().contains_key(username@)
                    && final(self).as_map() == old(self).as_map().insert(
                        username@,
                        AccountV {
                            password: match password {
                                Some(p) => p@,
                                None => old(self).as_map()[username@].password,
                            },
                            notes: match notes {
                                Some(n) => n@,
                                None => old(self).as_map()[username@].notes,
                            },
                        },
                    )
                    && (exists|i: int| 0 <= i < old(self)@.len()
                        && old(self)@[i].username == username@
                        && final(self)@ == old(self)@.remove(i).push(
                        EntryV {
                            username: username@,
                            account: AccountV {
                                password: match password {
                                    Some(p) => p@,
                                    None => old(self)@[i].account.password,
                                },
                                notes: match notes {
                                    Some(n) => n@,
                                    None => old(self)@[i].account.notes,
                                },
                            },
                        },
                    )),
                Err(e) => e == StoreError::NotFound
                    && !old(self).as_map().contains_key(username@)
                    && *final(self) == *old(self),
            },
    {
        proof {
            lemma_map_of_contains(self@, username@);
        }
        match self.find(username) {
            Some(i) => {
                proof {
                    lemma_map_of_index(self@, i as int);
                }
                let new_password = match password {
                    Some(p) => p.to_owned(),
                    None => self.entries[i].account.password.clone(),
                };
                let new_notes = match notes {
                    Some(n) => n.to_owned(),
                    None => self.entries[i].account.notes.clone(),
                };
                let e = Entry {
                    username: username.to_owned(),
                    account: Account { password: new_password, notes: new_notes },
                };
                let ghost old_view = self@;
                let ghost ev = e@;
                self.entries.remove(i);
                self.entries.push(e);
                proof {
                    assert(self@ =~= old_view.remove(i as int).push(ev));
                    lemma_map_of_remove(old_view, i as int);
                    lemma_map_of_push(old_view.remove(i as int), ev);
                    assert(unique_names(old_view.remove(i as int)));
                    assert(!has_name(old_view.remove(i as int), username@)) by {
                        lemma_map_of_contains(old_view.remove(i as int), username@);
                        assert(map_of(old_view.remove(i as int))
                            == map_of(old_view).remove(username@));
                    }
                    assert(final(self).as_map() =~= old(self).as_map().insert(username@, ev.account));
                }
                Ok(())
            }
            None => Err(StoreError::NotFound),
        }
    }

    /// The entry at a given position.
    pub fn entry_at(&self, i: usize) -> (r: &Entry)
        requires
            i < self@.len(),
        ensures
            r@ == self@[i as int],
    {
        &self.entries[i]
    }

    /// All entries, in storage order.
    pub fn list(&self) -> (r: &Vec<Entry>)
        ensures
            r@.len() == self@.len(),
            forall|i: int| 0 <= i < r@.len() ==> r@[i]@ == self@[i],
    {
        &self.entries
    }

    /// Builds a repository from a list of entries, checking that usernames
    /// are unique; `None` exactly when they are not.
    pub fn from_entries(entries: Vec<Entry>) -> (r: Option<AccountBook>)
        ensures
            match r {
                Some(b) => b@ == Seq::new(entries@.len(), |i: int| entries@[i]@) && b.wf(),
                None => !unique_names(Seq::new(entries@.len(), |i: int| entries@[i]@)),
            },
    {
        let ghost evs = Seq::new(entries@.len(), |i: int| entries@[i]@);
        let n = entries.len();
        for i in 0..n
            invariant
                n == entries@.len(),
                evs == Seq::new(entries@.len(), |i: int| entries@[i]@),
                forall|p: int, q: int| 0 <= p < q < i ==> evs[p].username != evs[q].username,
        {
            for j in 0..i
                invariant
                    i < n == entries@.len(),
                    evs == Seq::new(entries@.len(), |i: int| entries@[i]@),
                    forall|p: int, q: int| 0 <= p < q < i ==> evs[p].username != evs[q].username,
                    forall|q: int| 0 <= q < j ==> evs[q].username != evs[i as int].username,
            {
                if str_eq(entries[j].username.as_str(), entries[i].username.as_str()) {
                    proof {
                        assert(evs[j as int].username == evs[i as int].username);
                        assert(!unique_names(evs));
                    }
                    return None;
                }
            }
        }
        let b = AccountBook { entries };
        proof {
            assert(b@ =~= evs);
        }
        Some(b)
    }
}

} // verus!
