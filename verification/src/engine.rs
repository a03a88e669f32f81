//! The vault engine: a vault file's path together with the store read from
//! it, and the operations of one invocation on that store. Reading, asking
//! and writing are the caller's; what each operation decides and changes is
//! here.

use crate::crypto::{opened, CryptoError};
use crate::listing::{arrange, is_arranged, row_views, rows_of};
use crate::merge::{covers, extends, merged, skipped};
use crate::search::{found_flags, group_views, regex_compiles, selected_by, InvalidPattern};
use crate::text::{is_yes, says_yes, says_yes_any_case, is_yes_any_case, to_chars};
use crate::transfer::{
    all_open, fails_with, has_oversized_password, holds_no_record, is_sealed_copy,
    sealing_fails_somewhere, unsealed,
};
use crate::utils::{resolve_schedule, schedule, TimeError};
use crate::vault::{
    as_map, has_group, well_formed, with_entry, without_entry, without_group, Entry, EntryView,
    Group, GroupView, RemoveError, VaultData,
};
use vstd::prelude::*;
use vstd::string::StringExecFns;

verus! {

/// A vault file's path and the store that was read from it.
pub struct Vault {
    vault_file: String,
    data: VaultData,
}

/// How a removal ended.
#[derive(Debug, PartialEq, Eq)]
pub enum RemoveOutcome {
    /// No group has that name. Nothing changed.
    NotFound,
    /// The index is not between 1 and the number of records of the group,
    /// which is given. Nothing changed.
    InvalidIndex(usize),
    /// The record with that index is removed and handed out.
    Removed(Entry),
    /// The whole group, of so many records, is to go: a confirmation is
    /// needed first. Nothing changed.
    NeedsConfirmation(usize),
    /// The confirmation was not `yes`. Nothing changed.
    Cancelled,
    /// The whole group, of so many records, is removed.
    RemovedAll(usize),
}

/// What an import has to ask before it merges.
#[derive(Clone, Copy, Debug, PartialEq, Eq, Structural)]
pub struct ImportPlan {
    /// The file looks sealed but is to be read as plain text: confirm first.
    pub confirm_plain: bool,
    /// The passwords are sealed: ask for the passphrase of the vault they
    /// came from.
    pub ask_source_password: bool,
}

/// Where the vault lies when no path is given: `.dplock/vault.bin` under the
/// home directory.
pub open spec fn default_vault_file(home: Seq<char>) -> Seq<char> {
    if home.len() > 0 && home.last() != '/' {
        home + "/"@ + ".dplock/vault.bin"@
    } else {
        home + ".dplock/vault.bin"@
    }
}

/// The record that `add` makes.
pub open spec fn new_entry(
    username: Seq<char>,
    password: Seq<char>,
    times: (Option<i64>, Option<i64>),
    now: i64,
    message: Option<Seq<char>>,
) -> EntryView {
    EntryView {
        username: username,
        password: password,
        expired: times.0,
        remind: times.1,
        created_at: now,
        message: message,
    }
}

/// The view of an optional text.
pub open spec fn text_of(text: Option<&str>) -> Option<Seq<char>> {
    match text {
        Some(t) => Some(t@),
        None => None,
    }
}

impl Vault {
    /// The path of the vault file.
    pub closed spec fn path(&self) -> Seq<char> {
        self.vault_file@
    }

    /// The store.
    pub closed spec fn store(&self) -> Seq<GroupView> {
        self.data@
    }

    /// The store is well formed.
    pub open spec fn wf(&self) -> bool {
        well_formed(self.store())
    }

    /// A vault at `vault_file`, or at the default place under `home` where
    /// no path is given, with an empty store.
    pub fn new(vault_file: Option<String>, home: &str) -> (vault: Vault)
        ensures
            vault.path() == match vault_file {
                Some(path) => path@,
                None => default_vault_file(home@),
            },
            vault.store() == Seq::<GroupView>::empty(),
            vault.wf(),
    {
        let path = match vault_file {
            Some(path) => path,
            None => {
                let chars = to_chars(home);
                let mut path = String::from_str(home);
                if chars.len() > 0 && chars[chars.len() - 1] != '/' {
                    path.append("/");
                }
                path.append(".dplock/vault.bin");
                path
            },
        };
        Vault { vault_file: path, data: VaultData::new() }
    }

    /// The path of the vault file.
    pub fn vault_path(&self) -> (path: &String)
        ensures
            path@ == self.path(),
    {
        &self.vault_file
    }

    /// The store.
    pub fn data(&self) -> (data: &VaultData)
        ensures
            data@ == self.store(),
    {
        &self.data
    }

    /// Takes `data` as the store, as read from the vault file.
    pub fn load(&mut self, data: VaultData)
        requires
            data.wf(),
        ensures
            final(self).store() == data@,
            final(self).path() == old(self).path(),
            final(self).wf(),
    {
        self.data = data;
    }

    /// Whether an existing vault may be overwritten: the answer says yes, and
    /// the vault's bytes open under the passphrase given as the current one.
    pub fn confirm_overwrite(answer: &str, existing: &[u8], password: &str) -> (allowed: bool)
        ensures
            allowed == (says_yes(answer@) && opened(existing@, password@) is Ok),
    {
        if !is_yes(answer) {
            return false;
        }
        crate::crypto::decrypt(existing, password).is_ok()
    }

    /// Starts the vault anew: the store is empty afterwards.
    pub fn init(&mut self)
        ensures
            final(self).store() == Seq::<GroupView>::empty(),
            final(self).path() == old(self).path(),
            final(self).wf(),
    {
        self.data = VaultData::new();
    }

    /// Appends a record made at `now` to the group called `name`, and opens
    /// the group where there is none. The expiry is counted from `now` and
    /// the reminder back from the expiry, as the two inputs write them; an
    /// input that is refused leaves the store as it was.
    pub fn add(
        &mut self,
        name: &str,
        username: &str,
        password: String,
        expired_input: Option<&str>,
        remind_input: Option<&str>,
        now: i64,
        message: Option<&str>,
    ) -> (r: Result<(), TimeError>)
        requires
            old(self).wf(),
        ensures
            final(self).wf(),
            final(self).path() == old(self).path(),
            r is Ok ==> has_group(final(self).store(), name@),
            match schedule(text_of(expired_input), text_of(remind_input), now) {
                Ok(times) => r is Ok && final(self).store() == with_entry(
                    old(self).store(),
                    name@,
                    new_entry(username@, password@, times, now, text_of(message)),
                ) && new_entry(username@, password@, times, now, text_of(message)).well_formed(),
                Err(e) => r == Err::<(), TimeError>(e) && final(self).store() == old(self).store(),
            },
    {
        let (expired, remind) = match resolve_schedule(expired_input, remind_input, now) {
            Ok(times) => times,
            Err(e) => {
                return Err(e);
            },
        };
        let entry = Entry {
            username: String::from_str(username),
            password,
            expired,
            remind,
            created_at: now,
            message: match message {
                Some(m) => Some(String::from_str(m)),
                None => None,
            },
        };
        self.data.add_entry(name, entry);
        Ok(())
    }

    /// The groups whose names the regular expression `name` matches, each
    /// narrowed to the records whose username contains `username`.
    pub fn get(&self, name: &str, username: Option<&str>) -> (r: Result<
        Vec<Group>,
        InvalidPattern,
    >)
        ensures
            r is Ok <==> regex_compiles(name@),
            r matches Ok(groups) ==> group_views(groups@) == selected_by(
                self.store(),
                found_flags(self.store(), name@),
                text_of(username),
            ),
    {
        self.data.search(name, username)
    }

    /// Narrows `entries` to those whose name or username contains `filter`,
    /// then sorts them by name or by username where `sort` says so, entries
    /// with the same key staying in their order.
    pub fn apply_filter_and_sort<'a>(
        entries: &mut Vec<(&'a String, &'a Entry)>,
        filter: Option<&str>,
        sort: Option<&str>,
    )
        ensures
            is_arranged(
                row_views(old(entries)@),
                text_of(filter),
                text_of(sort),
                row_views(final(entries)@),
            ),
    {
        let arranged = arrange(entries, filter, sort);
        *entries = arranged;
    }

    /// Every record of the store with its group's name, under `filter` and
    /// `sort`.
    pub fn list(&self, filter: Option<&str>, sort: Option<&str>) -> (rows: Vec<(&String, &Entry)>)
        ensures
            is_arranged(rows_of(self.store()), text_of(filter), text_of(sort), row_views(rows@)),
    {
        let mut rows = self.data.rows();
        Vault::apply_filter_and_sort(&mut rows, filter, sort);
        rows
    }

    /// Removes from the group called `name` the record with the one-based
    /// `index`, or the whole group where no index is given and
    /// `confirmation` says yes. Without a confirmation nothing is removed
    /// and one is asked for.
    pub fn remove(&mut self, name: &str, index: Option<usize>, confirmation: Option<&str>) -> (r:
        RemoveOutcome)
        requires
            old(self).wf(),
        ensures
            final(self).wf(),
            final(self).path() == old(self).path(),
            !has_group(old(self).store(), name@) <==> r is NotFound,
            match r {
                RemoveOutcome::NotFound => final(self).store() == old(self).store(),
                RemoveOutcome::InvalidIndex(len) => {
                    &&& index matches Some(i) && (i == 0 || i > len)
                    &&& len == as_map(old(self).store())[name@].len()
                    &&& final(self).store() == old(self).store()
                },
                RemoveOutcome::Removed(entry) => {
                    &&& index matches Some(i) && 1 <= i <= as_map(old(self).store())[name@].len()
                    &&& entry@ == as_map(old(self).store())[name@][index->0 - 1]
                    &&& final(self).store() == without_entry(
                        old(self).store(),
                        name@,
                        index->0 - 1,
                    )
                },
                RemoveOutcome::NeedsConfirmation(len) => {
                    &&& index is None && confirmation is None
                    &&& len == as_map(old(self).store())[name@].len()
                    &&& final(self).store() == old(self).store()
                },
                RemoveOutcome::Cancelled => {
                    &&& index is None
                    &&& confirmation matches Some(answer) && !says_yes(answer@)
                    &&& final(self).store() == old(self).store()
                },
                RemoveOutcome::RemovedAll(len) => {
                    &&& index is None
                    &&& confirmation matches Some(answer) && says_yes(answer@)
                    &&& len == as_map(old(self).store())[name@].len()
                    &&& final(self).store() == without_group(old(self).store(), name@)
                    &&& !has_group(final(self).store(), name@)
                },
            },
    {
        match index {
            Some(i) => match self.data.remove_entry(name, i) {
                Ok(entry) => RemoveOutcome::Removed(entry),
                Err(RemoveError::NotFound) => RemoveOutcome::NotFound,
                Err(RemoveError::InvalidIndex(len)) => RemoveOutcome::InvalidIndex(len),
            },
            None => {
                let len = match self.data.group_len(name) {
                    Some(len) => len,
                    None => {
                        return RemoveOutcome::NotFound;
                    },
                };
                match confirmation {
                    None => RemoveOutcome::NeedsConfirmation(len),
                    Some(answer) => {
                        if is_yes(answer) {
                            let removed = self.data.remove_group(name);
                            RemoveOutcome::RemovedAll(len)
                        } else {
                            RemoveOutcome::Cancelled
                        }
                    },
                }
            },
        }
    }

    /// The store as it is written out: as it is where `plain` is set, and
    /// with every password sealed under `master` otherwise. Sealing can fail
    /// only at a record: a store without records is always written out.
    pub fn export(&self, plain: bool, master: &str) -> (r: Result<VaultData, CryptoError>)
        ensures
            plain ==> (r matches Ok(copy) && copy@ == self.store()),
            !plain ==> match r {
                Ok(copy) => is_sealed_copy(self.store(), copy@, master@) && !has_oversized_password(
                    self.store(),
                ),
                Err(e) => {
                    &&& sealing_fails_somewhere(self.store(), master@, e)
                    &&& e == CryptoError::TooLarge ==> has_oversized_password(self.store())
                    &&& e == CryptoError::TooLarge || e == CryptoError::Random || e
                        == CryptoError::KeyDerivation || e == CryptoError::Encryption
                },
            },
            !plain && has_oversized_password(self.store()) ==> r is Err,
            !plain && holds_no_record(self.store()) ==> r is Ok,
    {
        if plain {
            Ok(self.data.clone())
        } else {
            self.data.sealed(master)
        }
    }

    /// What an import has to ask before it merges.
    pub fn import_plan(looks_encrypted: bool, plain: bool) -> (plan: ImportPlan)
        ensures
            plan.confirm_plain == (looks_encrypted && plain),
            plan.ask_source_password == (looks_encrypted && !plain),
    {
        ImportPlan {
            confirm_plain: looks_encrypted && plain,
            ask_source_password: looks_encrypted && !plain,
        }
    }

    /// Whether the answer to the plain-import warning lets the import go on:
    /// `yes` in any mix of upper and lower case.
    pub fn import_confirmed(answer: &str) -> (b: bool)
        ensures
            b == says_yes_any_case(answer@),
    {
        is_yes_any_case(answer)
    }

    /// Merges `imported` into the store. Where `plain` is not set, every
    /// incoming password is first opened under `source_master`, and an
    /// import with a password that does not open changes nothing. A record
    /// whose username and password the group of its name already holds is
    /// skipped; the skipped records are handed out as pairs of group name
    /// and username. Nothing that was stored is changed or removed.
    pub fn import(&mut self, imported: &VaultData, plain: bool, source_master: &str) -> (r: Result<
        Vec<(String, String)>,
        CryptoError,
    >)
        requires
            old(self).wf(),
        ensures
            final(self).wf(),
            final(self).path() == old(self).path(),
            extends(old(self).store(), final(self).store()),
            plain ==> r is Ok,
            !plain ==> (r is Ok <==> all_open(imported@, source_master@)),
            match r {
                Ok(report) => {
                    let incoming = if plain {
                        imported@
                    } else {
                        unsealed(imported@, source_master@)
                    };
                    &&& final(self).store() == merged(old(self).store(), incoming)
                    &&& covers(final(self).store(), incoming)
                    &&& report@.map_values(|p: (String, String)| (p.0@, p.1@)) == skipped(
                        old(self).store(),
                        incoming,
                    )
                },
                Err(e) => {
                    &&& fails_with(imported@, source_master@, e)
                    &&& final(self).store() == old(self).store()
                },
            },
    {
        proof {
            crate::merge::lemma_merge_keeps_and_covers(
                self.store(),
                Seq::<GroupView>::empty(),
            );
        }
        if plain {
            Ok(self.data.merge(imported))
        } else {
            let incoming = match imported.unsealed(source_master) {
                Ok(incoming) => incoming,
                Err(e) => {
                    return Err(e);
                },
            };
            Ok(self.data.merge(&incoming))
        }
    }
}

} // verus!
