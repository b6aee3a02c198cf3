//! The editor's state machine.
//!
//! The editing screen holds the phone book and its input fields, and
//! every user action is a message applied by a pure reducer: from state
//! and message to the next state. What needs the outside world — the
//! file dialogs and the file operations behind loading and saving — is
//! the shell's to perform; the shell hands the outcome back through
//! `finish_load` and `finish_save`, whose state transitions are verified
//! for every outcome.

use crate::book::spec_insert;
use crate::book::spec_remove;
use crate::book::PhoneBook;
use crate::book::RecV;
use crate::codec::error_text;
use crate::codec::has_occ;
use crate::codec::str_contains;
use crate::codec::StoreError;
use crate::entry::PhoneEntry;
use vstd::prelude::*;
use vstd::string::StringExecFns;

verus! {

/// A user action on the editing screen.
pub enum Message {
    AddRow,
    Cancel,
    ClearPhonebook,
    EditNewEntryName(String),
    EditNewEntryWorkNumber(String),
    EditNewEntryPhoneNumber(String),
    Insert,
    Modify(String),
    Remove(String),
    EditEntryPhoneNumber(String),
    EditEntryWorkNumber(String),
    Filter(String),
}

/// The editing screen's state: the book and the input fields around it.
pub struct EditorState {
    pub book: PhoneBook,
    pub error_state: String,
    pub is_adding: bool,
    pub is_modifying: bool,
    pub name_to_be_modified: String,
    pub new_entry_name: String,
    pub new_entry_phone_number: String,
    pub new_entry_work_number: String,
    pub filter: String,
}

impl Default for EditorState {
    /// The screen before any action: an empty book, nothing entered.
    fn default() -> (r: EditorState)
        ensures
            r.wf(),
            r.book@ == Seq::<RecV>::empty(),
            r.error_state@ == Seq::<char>::empty(),
            !r.is_adding,
            !r.is_modifying,
            r.name_to_be_modified@ == Seq::<char>::empty(),
            r.new_entry_name@ == Seq::<char>::empty(),
            r.new_entry_phone_number@ == Seq::<char>::empty(),
            r.new_entry_work_number@ == Seq::<char>::empty(),
            r.filter@ == Seq::<char>::empty(),
    {
        EditorState {
            book: PhoneBook::new(),
            error_state: String::new(),
            is_adding: false,
            is_modifying: false,
            name_to_be_modified: String::new(),
            new_entry_name: String::new(),
            new_entry_phone_number: String::new(),
            new_entry_work_number: String::new(),
            filter: String::new(),
        }
    }
}

impl EditorState {
    /// The state's invariant: its book is well formed.
    pub open spec fn wf(&self) -> bool {
        self.book.wf()
    }

    /// Applies one user action. Removing and field editing act on a name
    /// the screen took from an existing row, so that name's presence is
    /// required rather than rechecked.
    pub fn update(&mut self, message: Message)
        requires
            old(self).wf(),
            match message {
                Message::Remove(name) => old(self).book.as_map().contains_key(name@),
                Message::EditEntryPhoneNumber(_) => old(self).book.as_map().contains_key(
                    old(self).name_to_be_modified@,
                ),
                Message::EditEntryWorkNumber(_) => old(self).book.as_map().contains_key(
                    old(self).name_to_be_modified@,
                ),
                _ => true,
            },
        ensures
            final(self).wf(),
            match message {
                Message::AddRow => *final(self) == (EditorState {
                    is_adding: true,
                    ..*old(self)
                }),
                Message::Cancel => *final(self) == (EditorState {
                    is_adding: false,
                    ..*old(self)
                }),
                Message::ClearPhonebook => *final(self) == (EditorState {
                    book: final(self).book,
                    ..*old(self)
                }) && final(self).book@ == Seq::<RecV>::empty(),
                Message::EditNewEntryName(s) => *final(self) == (EditorState {
                    new_entry_name: s,
                    ..*old(self)
                }),
                Message::EditNewEntryWorkNumber(s) => *final(self) == (EditorState {
                    new_entry_work_number: s,
                    ..*old(self)
                }),
                Message::EditNewEntryPhoneNumber(s) => *final(self) == (EditorState {
                    new_entry_phone_number: s,
                    ..*old(self)
                }),
                Message::Insert => {
                    if old(self).book.as_map().contains_key(old(self).new_entry_name@) {
                        *final(self) == (EditorState {
                            error_state: final(self).error_state,
                            ..*old(self)
                        }) && final(self).error_state@ == "The entry already exists"@
                    } else if old(self).new_entry_name@.len() == 0 {
                        *final(self) == (EditorState {
                            error_state: final(self).error_state,
                            ..*old(self)
                        }) && final(self).error_state@ == "The name is empty."@
                    } else {
                        &&& final(self).book@ == spec_insert(
                            old(self).book@,
                            old(self).new_entry_name@,
                            (old(self).new_entry_phone_number@, old(self).new_entry_work_number@),
                        )
                        &&& final(self).book.as_map() == old(self).book.as_map().insert(
                            old(self).new_entry_name@,
                            (old(self).new_entry_phone_number@, old(self).new_entry_work_number@),
                        )
                        &&& !final(self).is_adding
                        &&& final(self).new_entry_name@ == Seq::<char>::empty()
                        &&& final(self).new_entry_phone_number@ == Seq::<char>::empty()
                        &&& final(self).new_entry_work_number@ == Seq::<char>::empty()
                        &&& final(self).error_state@ == Seq::<char>::empty()
                        &&& final(self).is_modifying == old(self).is_modifying
                        &&& final(self).name_to_be_modified == old(self).name_to_be_modified
                        &&& final(self).filter == old(self).filter
                    }
                },
                Message::Modify(name) => *final(self) == (EditorState {
                    is_modifying: !old(self).is_modifying,
                    name_to_be_modified: name,
                    ..*old(self)
                }),
                Message::Remove(name) => *final(self) == (EditorState {
                    book: final(self).book,
                    ..*old(self)
                }) && final(self).book@ == spec_remove(old(self).book@, name@)
                    && final(self).book.as_map() == old(self).book.as_map().remove(name@),
                Message::EditEntryPhoneNumber(p) => *final(self) == (EditorState {
                    book: final(self).book,
                    ..*old(self)
                }) && final(self).book.as_map() == old(self).book.as_map().insert(
                    old(self).name_to_be_modified@,
                    (p@, old(self).book.as_map()[old(self).name_to_be_modified@].1),
                ),
                Message::EditEntryWorkNumber(w) => *final(self) == (EditorState {
                    book: final(self).book,
                    ..*old(self)
                }) && final(self).book.as_map() == old(self).book.as_map().insert(
                    old(self).name_to_be_modified@,
                    (old(self).book.as_map()[old(self).name_to_be_modified@].0, w@),
                ),
                Message::Filter(s) => *final(self) == (EditorState { filter: s, ..*old(self) }),
            },
    {
        match message {
            Message::AddRow => {
                self.is_adding = true;
            },
            Message::Cancel => {
                self.is_adding = false;
            },
            Message::ClearPhonebook => {
                self.book.clear();
            },
            Message::EditNewEntryName(s) => {
                self.new_entry_name = s;
            },
            Message::EditNewEntryWorkNumber(s) => {
                self.new_entry_work_number = s;
            },
            Message::EditNewEntryPhoneNumber(s) => {
                self.new_entry_phone_number = s;
            },
            Message::Insert => {
                if self.book.contains_key(self.new_entry_name.as_str()) {
                    self.error_state = "The entry already exists".to_owned();
                } else if self.new_entry_name.as_str().is_empty() {
                    self.error_state = "The name is empty.".to_owned();
                } else {
                    let name = self.new_entry_name.clone();
                    let phone = self.new_entry_phone_number.clone();
                    let work = self.new_entry_work_number.clone();
                    self.book.insert(name, PhoneEntry { mobile: phone, work });
                    self.is_adding = false;
                    self.new_entry_name = String::new();
                    self.new_entry_phone_number = String::new();
                    self.new_entry_work_number = String::new();
                    self.error_state = String::new();
                }
            },
            Message::Modify(name) => {
                self.is_modifying = !self.is_modifying;
                self.name_to_be_modified = name;
            },
            Message::Remove(name) => {
                let _removed = self.book.remove(name.as_str());
            },
            Message::EditEntryPhoneNumber(p) => {
                let name = self.name_to_be_modified.clone();
                let work_opt = match self.book.get(name.as_str()) {
                    Some(e) => Some(e.work.clone()),
                    None => None,
                };
                match work_opt {
                    Some(work) => {
                        self.book.insert(name, PhoneEntry { mobile: p, work });
                    },
                    None => {
                        proof {
                            assert(false);
                        }
                    },
                }
            },
            Message::EditEntryWorkNumber(w) => {
                let name = self.name_to_be_modified.clone();
                let mobile_opt = match self.book.get(name.as_str()) {
                    Some(e) => Some(e.mobile.clone()),
                    None => None,
                };
                match mobile_opt {
                    Some(mobile) => {
                        self.book.insert(name, PhoneEntry { mobile, work: w });
                    },
                    None => {
                        proof {
                            assert(false);
                        }
                    },
                }
            },
            Message::Filter(s) => {
                self.filter = s;
            },
        }
    }

    /// Takes the outcome of a load the shell performed: a loaded book
    /// replaces the screen's book and clears the error line; a failure
    /// leaves the book and reports itself.
    pub fn finish_load(&mut self, result: Result<PhoneBook, StoreError>)
        requires
            old(self).wf(),
            result matches Ok(b) ==> b.wf(),
        ensures
            final(self).wf(),
            match result {
                Ok(b) => *final(self) == (EditorState {
                    book: b,
                    error_state: final(self).error_state,
                    ..*old(self)
                }) && final(self).error_state@ == Seq::<char>::empty(),
                Err(e) => *final(self) == (EditorState {
                    error_state: final(self).error_state,
                    ..*old(self)
                }) && final(self).error_state@ == "Failed to open file: "@ + error_text(e),
            },
    {
        match result {
            Ok(b) => {
                self.book = b;
                self.error_state = String::new();
            },
            Err(e) => {
                self.error_state = "Failed to open file: ".to_owned().concat(
                    e.message().as_str(),
                );
            },
        }
    }

    /// Takes the outcome of a save the shell performed: only a failure
    /// changes the screen, reporting itself on the error line.
    pub fn finish_save(&mut self, result: Result<(), StoreError>)
        requires
            old(self).wf(),
        ensures
            final(self).wf(),
            match result {
                Ok(_) => *final(self) == *old(self),
                Err(e) => *final(self) == (EditorState {
                    error_state: final(self).error_state,
                    ..*old(self)
                }) && final(self).error_state@ == "Failed to save file: "@ + error_text(e),
            },
    {
        match result {
            Ok(_) => {
            },
            Err(e) => {
                self.error_state = "Failed to save file: ".to_owned().concat(
                    e.message().as_str(),
                );
            },
        }
    }

    /// Whether a row of the given name passes the screen's filter: the
    /// filter text stands somewhere in the name.
    pub fn row_visible(&self, name: &str) -> (r: bool)
        ensures
            r == has_occ(name@, self.filter@),
    {
        str_contains(name, self.filter.as_str())
    }
}

} // verus!
