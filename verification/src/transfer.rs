//! Export and import: a copy of the store whose passwords are sealed one by
//! one, and the way back.

use crate::crypto::{
    decrypt_entry, encrypt_entry, entry_opened, field_sealing_fails, field_too_large, CryptoError,
};
use crate::vault::{Entry, EntryView, Group, GroupView, VaultData};
use vstd::prelude::*;
use vstd::utf8::encode_utf8;

verus! {

/// `sealed` is `plain` with its password sealed under `password`: it opens
/// to the password of `plain`, and every other field is the same.
pub open spec fn is_sealed_entry(plain: EntryView, sealed: EntryView, password: Seq<char>) -> bool {
    &&& entry_opened(sealed.password, password) == Ok::<Seq<char>, CryptoError>(plain.password)
    &&& sealed.username == plain.username
    &&& sealed.expired == plain.expired
    &&& sealed.remind == plain.remind
    &&& sealed.created_at == plain.created_at
    &&& sealed.message == plain.message
}

/// `sealed` has the groups of `plain` under their names, and in each the
/// records of `plain` with their passwords sealed.
pub open spec fn is_sealed_copy(
    plain: Seq<GroupView>,
    sealed: Seq<GroupView>,
    password: Seq<char>,
) -> bool {
    &&& sealed.len() == plain.len()
    &&& forall|i: int|
        0 <= i < plain.len() ==> {
            &&& (#[trigger] sealed[i]).name == plain[i].name
            &&& sealed[i].entries.len() == plain[i].entries.len()
        }
    &&& forall|i: int, k: int|
        0 <= i < plain.len() && 0 <= k < plain[i].entries.len() ==> is_sealed_entry(
            plain[i].entries[k],
            #[trigger] sealed[i].entries[k],
            password,
        )
}

/// Some password of the store is too long to seal.
pub open spec fn has_oversized_password(groups: Seq<GroupView>) -> bool {
    exists|i: int, k: int|
        0 <= i < groups.len() && 0 <= k < groups[i].entries.len() && field_too_large(
            encode_utf8((#[trigger] groups[i].entries[k]).password).len(),
        )
}

/// The store holds no record at all.
pub open spec fn holds_no_record(groups: Seq<GroupView>) -> bool {
    forall|i: int| 0 <= i < groups.len() ==> (#[trigger] groups[i]).entries.len() == 0
}

/// `e` is a failure of sealing the password of some record of the groups
/// under `password`.
pub open spec fn sealing_fails_somewhere(
    groups: Seq<GroupView>,
    password: Seq<char>,
    e: CryptoError,
) -> bool {
    exists|i: int, k: int|
        0 <= i < groups.len() && 0 <= k < groups[i].entries.len() && field_sealing_fails(
            (#[trigger] groups[i].entries[k]).password,
            password,
            e,
        )
}

/// The record with its sealed password opened under `password`.
pub open spec fn opened_entry(sealed: EntryView, password: Seq<char>) -> EntryView {
    EntryView {
        username: sealed.username,
        password: entry_opened(sealed.password, password)->Ok_0,
        expired: sealed.expired,
        remind: sealed.remind,
        created_at: sealed.created_at,
        message: sealed.message,
    }
}

/// The groups with every sealed password opened under `password`.
pub open spec fn unsealed(groups: Seq<GroupView>, password: Seq<char>) -> Seq<GroupView> {
    groups.map_values(
        |g: GroupView|
            GroupView {
                name: g.name,
                entries: g.entries.map_values(|e: EntryView| opened_entry(e, password)),
            },
    )
}

/// Every sealed password of the groups opens under `password`.
pub open spec fn all_open(groups: Seq<GroupView>, password: Seq<char>) -> bool {
    forall|i: int, k: int|
        0 <= i < groups.len() && 0 <= k < groups[i].entries.len() ==> entry_opened(
            (#[trigger] groups[i].entries[k]).password,
            password,
        ) is Ok
}

/// The sealed password at place `k` of group `i` opens under `password`,
/// or there is no such place.
pub open spec fn opens_at(groups: Seq<GroupView>, password: Seq<char>, i: int, k: int) -> bool {
    0 <= i < groups.len() && 0 <= k < groups[i].entries.len() ==> entry_opened(
        groups[i].entries[k].password,
        password,
    ) is Ok
}

/// `e` is the failure of the first sealed password of the groups that does
/// not open under `password`, groups and their records taken in order.
pub open spec fn fails_with(groups: Seq<GroupView>, password: Seq<char>, e: CryptoError) -> bool {
    exists|i: int, k: int|
        {
            &&& 0 <= i < groups.len() && 0 <= k < groups[i].entries.len()
            &&& entry_opened((#[trigger] groups[i].entries[k]).password, password) == Err::<
                Seq<char>,
                CryptoError,
            >(e)
            &&& forall|a: int, b: int|
                a < i || (a == i && b < k) ==> #[trigger] opens_at(groups, password, a, b)
        }
}

impl Clone for Group {
    fn clone(&self) -> (r: Self)
        ensures
            r@ == self@,
    {
        let mut entries: Vec<Entry> = Vec::new();
        let n = self.entries.len();
        let mut k: usize = 0;
        while k < n
            invariant
                k <= n,
                n == self.entries@.len(),
                entries@.len() == k,
                forall|j: int| 0 <= j < k ==> (#[trigger] entries@[j])@ == self.entries@[j]@,
            decreases n - k,
        {
            entries.push(self.entries[k].clone());
            k += 1;
        }
        let r = Group { name: self.name.clone(), entries };
        proof {
            assert(r@.entries =~= self@.entries);
        }
        r
    }
}

impl Clone for VaultData {
    fn clone(&self) -> (r: Self)
        ensures
            r@ == self@,
    {
        let mut groups: Vec<Group> = Vec::new();
        let n = self.entries.len();
        let mut i: usize = 0;
        while i < n
            invariant
                i <= n,
                n == self.entries@.len(),
                groups@.len() == i,
                forall|j: int| 0 <= j < i ==> (#[trigger] groups@[j])@ == self.entries@[j]@,
            decreases n - i,
        {
            groups.push(self.entries[i].clone());
            i += 1;
        }
        let r = VaultData { entries: groups };
        proof {
            assert(r@ =~= self@);
        }
        r
    }
}

impl VaultData {
    /// A copy of the store in which every password is sealed under
    /// `password` and written as base64 text; names, usernames, times and
    /// messages stay as they are.
    ///
    /// Sealing draws fresh randomness for every record, so two copies differ;
    /// whatever was drawn, each sealed password opens to the one it was made
    /// from. A store with a password too long to seal gives no copy; a store
    /// without records always gives one, since nothing is drawn for it; any
    /// failure is that of sealing the password of one of its records.
    pub fn sealed(&self, password: &str) -> (r: Result<VaultData, CryptoError>)
        ensures
            match r {
                Ok(copy) => is_sealed_copy(self@, copy@, password@) && !has_oversized_password(
                    self@,
                ),
                Err(e) => {
                    &&& sealing_fails_somewhere(self@, password@, e)
                    &&& e == CryptoError::TooLarge ==> has_oversized_password(self@)
                    &&& e == CryptoError::TooLarge || e == CryptoError::Random || e
                        == CryptoError::KeyDerivation || e == CryptoError::Encryption
                },
            },
            has_oversized_password(self@) ==> r is Err,
            holds_no_record(self@) ==> r is Ok,
    {
        let mut groups: Vec<Group> = Vec::new();
        let n = self.entries.len();
        let mut i: usize = 0;
        while i < n
            invariant
                i <= n,
                n == self.entries@.len(),
                groups@.len() == i,
                forall|a: int|
                    0 <= a < i ==> {
                        &&& (#[trigger] groups@[a])@.name == self@[a].name
                        &&& groups@[a]@.entries.len() == self@[a].entries.len()
                    },
                forall|a: int, k: int|
                    0 <= a < i && 0 <= k < self@[a].entries.len() ==> is_sealed_entry(
                        self@[a].entries[k],
                        #[trigger] groups@[a]@.entries[k],
                        password@,
                    ),
                forall|a: int, k: int|
                    0 <= a < i && 0 <= k < self@[a].entries.len() ==> !field_too_large(
                        encode_utf8((#[trigger] self@[a].entries[k]).password).len(),
                    ),
            decreases n - i,
        {
            let group = &self.entries[i];
            let m = group.entries.len();
            let mut entries: Vec<Entry> = Vec::new();
            let mut k: usize = 0;
            while k < m
                invariant
                    k <= m,
                    m == group.entries@.len(),
                    i < n,
                    n == self.entries@.len(),
                    *group == self.entries@[i as int],
                    entries@.len() == k,
                    forall|j: int|
                        0 <= j < k ==> is_sealed_entry(
                            group.entries@[j]@,
                            (#[trigger] entries@[j])@,
                            password@,
                        ),
                    forall|j: int|
                        0 <= j < k ==> !field_too_large(
                            encode_utf8((#[trigger] group.entries@[j])@.password).len(),
                        ),
                decreases m - k,
            {
                let entry = &group.entries[k];
                let sealed = match encrypt_entry(entry.password.as_str(), password) {
                    Ok(sealed) => sealed,
                    Err(e) => {
                        proof {
                            assert(self@[i as int].entries[k as int] == entry@);
                            assert(field_sealing_fails(
                                self@[i as int].entries[k as int].password,
                                password@,
                                e,
                            ));
                            if e == CryptoError::TooLarge {
                                assert(has_oversized_password(self@));
                            }
                        }
                        return Err(e);
                    },
                };
                let copy = Entry {
                    username: entry.username.clone(),
                    password: sealed,
                    expired: entry.expired,
                    remind: entry.remind,
                    created_at: entry.created_at,
                    message: match &entry.message {
                        Some(m) => Some(m.clone()),
                        None => None,
                    },
                };
                entries.push(copy);
                k += 1;
            }
            let copy = Group { name: group.name.clone(), entries };
            proof {
                assert forall|j: int| 0 <= j < m implies is_sealed_entry(
                    self@[i as int].entries[j],
                    #[trigger] copy@.entries[j],
                    password@,
                ) by {
                    assert(copy@.entries[j] == entries@[j]@);
                    assert(self@[i as int].entries[j] == group.entries@[j]@);
                }
                assert forall|j: int| 0 <= j < m implies !field_too_large(
                    encode_utf8((#[trigger] self@[i as int].entries[j]).password).len(),
                ) by {
                    assert(self@[i as int].entries[j] == group.entries@[j]@);
                }
            }
            groups.push(copy);
            i += 1;
        }
        let copy = VaultData { entries: groups };
        proof {
            assert forall|a: int| 0 <= a < n implies (#[trigger] copy@[a]).name == self@[a].name
                && copy@[a].entries.len() == self@[a].entries.len() by {
                assert(copy@[a] == groups@[a]@);
            }
            assert forall|a: int, k: int|
                0 <= a < n && 0 <= k < self@[a].entries.len() implies is_sealed_entry(
                self@[a].entries[k],
                #[trigger] copy@[a].entries[k],
                password@,
            ) by {
                assert(copy@[a] == groups@[a]@);
            }
        }
        Ok(copy)
    }

    /// A copy of the store in which every sealed password is opened under
    /// `password`. A password that does not open gives no copy, and its
    /// failure is handed out.
    pub fn unsealed(&self, password: &str) -> (r: Result<VaultData, CryptoError>)
        ensures
            match r {
                Ok(copy) => all_open(self@, password@) && copy@ == unsealed(self@, password@),
                Err(e) => fails_with(self@, password@, e),
            },
    {
        let mut groups: Vec<Group> = Vec::new();
        let n = self.entries.len();
        let mut i: usize = 0;
        while i < n
            invariant
                i <= n,
                n == self.entries@.len(),
                groups@.len() == i,
                forall|a: int|
                    0 <= a < i ==> (#[trigger] groups@[a])@ == unsealed(self@, password@)[a],
                forall|a: int, k: int|
                    0 <= a < i && 0 <= k < self@[a].entries.len() ==> entry_opened(
                        (#[trigger] self@[a].entries[k]).password,
                        password@,
                    ) is Ok,
            decreases n - i,
        {
            let group = &self.entries[i];
            let m = group.entries.len();
            let mut entries: Vec<Entry> = Vec::new();
            let mut k: usize = 0;
            while k < m
                invariant
                    k <= m,
                    m == group.entries@.len(),
                    i < n,
                    n == self.entries@.len(),
                    *group == self.entries@[i as int],
                    entries@.len() == k,
                    forall|a: int, b: int|
                        0 <= a < i && 0 <= b < self@[a].entries.len() ==> entry_opened(
                            (#[trigger] self@[a].entries[b]).password,
                            password@,
                        ) is Ok,
                    forall|j: int|
                        0 <= j < k ==> (#[trigger] entries@[j])@ == opened_entry(
                            group.entries@[j]@,
                            password@,
                        ),
                    forall|j: int|
                        0 <= j < k ==> entry_opened(
                            (#[trigger] group.entries@[j])@.password,
                            password@,
                        ) is Ok,
                decreases m - k,
            {
                let entry = &group.entries[k];
                let opened = match decrypt_entry(entry.password.as_str(), password) {
                    Ok(opened) => opened,
                    Err(e) => {
                        proof {
                            assert(self@[i as int].entries[k as int] == entry@);
                            assert forall|a: int, b: int|
                                a < i || (a == i && b < k) implies #[trigger] opens_at(
                                self@,
                                password@,
                                a,
                                b,
                            ) by {
                                if 0 <= a < self@.len() && 0 <= b < self@[a].entries.len() {
                                    if a == i {
                                        assert(self@[a].entries[b] == group.entries@[b]@);
                                    } else {
                                        assert(entry_opened(
                                            self@[a].entries[b].password,
                                            password@,
                                        ) is Ok);
                                    }
                                }
                            }
                        }
                        return Err(e);
                    },
                };
                let copy = Entry {
                    username: entry.username.clone(),
                    password: opened,
                    expired: entry.expired,
                    remind: entry.remind,
                    created_at: entry.created_at,
                    message: match &entry.message {
                        Some(m) => Some(m.clone()),
                        None => None,
                    },
                };
                entries.push(copy);
                k += 1;
            }
            let copy = Group { name: group.name.clone(), entries };
            proof {
                assert(copy@.entries =~= unsealed(self@, password@)[i as int].entries) by {
                    assert forall|j: int| 0 <= j < m implies copy@.entries[j] == unsealed(
                        self@,
                        password@,
                    )[i as int].entries[j] by {
                        assert(copy@.entries[j] == entries@[j]@);
                        assert(self@[i as int].entries[j] == group.entries@[j]@);
                    }
                }
                assert forall|j: int| 0 <= j < m implies entry_opened(
                    (#[trigger] self@[i as int].entries[j]).password,
                    password@,
                ) is Ok by {
                    assert(self@[i as int].entries[j] == group.entries@[j]@);
                }
            }
            groups.push(copy);
            i += 1;
        }
        let copy = VaultData { entries: groups };
        proof {
            assert(copy@ =~= unsealed(self@, password@));
        }
        Ok(copy)
    }
}

} // verus!
