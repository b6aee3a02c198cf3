use phone_book::book::PhoneBook;
use phone_book::codec::StoreError;
use phone_book::entry::PhoneEntry;
use phone_book::reducer::EditorState;
use phone_book::reducer::Message;

#[test]
fn default_screen_is_blank() {
    let state = EditorState::default();
    assert!(state.book.is_empty());
    assert_eq!(state.error_state, "");
    assert!(!state.is_adding);
    assert!(!state.is_modifying);
    assert_eq!(state.filter, "");
}

#[test]
fn inserting_a_new_entry_clears_the_form() {
    let mut state = EditorState::default();
    state.update(Message::AddRow);
    assert!(state.is_adding);
    state.update(Message::EditNewEntryName("dog".to_string()));
    state.update(Message::EditNewEntryPhoneNumber("7".to_string()));
    state.update(Message::EditNewEntryWorkNumber("8".to_string()));
    state.update(Message::Insert);
    assert!(!state.is_adding);
    assert_eq!(state.error_state, "");
    assert_eq!(state.new_entry_name, "");
    assert_eq!(state.new_entry_phone_number, "");
    assert_eq!(state.new_entry_work_number, "");
    assert_eq!(
        state.book.get("dog").unwrap(),
        &PhoneEntry::new("7".to_string(), "8".to_string())
    );
}

#[test]
fn inserting_an_existing_name_reports_it() {
    let mut state = EditorState::default();
    state.update(Message::EditNewEntryName("dog".to_string()));
    state.update(Message::Insert);
    state.update(Message::EditNewEntryName("dog".to_string()));
    state.update(Message::EditNewEntryPhoneNumber("9".to_string()));
    state.update(Message::Insert);
    assert_eq!(state.error_state, "The entry already exists");
    assert_eq!(
        state.book.get("dog").unwrap(),
        &PhoneEntry::new("".to_string(), "".to_string())
    );
}

#[test]
fn inserting_an_empty_name_reports_it() {
    let mut state = EditorState::default();
    state.update(Message::Insert);
    assert_eq!(state.error_state, "The name is empty.");
    assert!(state.book.is_empty());
}

#[test]
fn modifying_edits_the_named_entry() {
    let mut state = EditorState::default();
    state.update(Message::EditNewEntryName("cat".to_string()));
    state.update(Message::EditNewEntryPhoneNumber("1".to_string()));
    state.update(Message::EditNewEntryWorkNumber("2".to_string()));
    state.update(Message::Insert);
    state.update(Message::Modify("cat".to_string()));
    assert!(state.is_modifying);
    assert_eq!(state.name_to_be_modified, "cat");
    state.update(Message::EditEntryPhoneNumber("111".to_string()));
    state.update(Message::EditEntryWorkNumber("222".to_string()));
    state.update(Message::Modify("cat".to_string()));
    assert!(!state.is_modifying);
    assert_eq!(
        state.book.get("cat").unwrap(),
        &PhoneEntry::new("111".to_string(), "222".to_string())
    );
}

#[test]
fn removing_and_clearing() {
    let mut state = EditorState::default();
    state.update(Message::EditNewEntryName("cat".to_string()));
    state.update(Message::Insert);
    state.update(Message::Remove("cat".to_string()));
    assert!(state.book.is_empty());
    state.update(Message::EditNewEntryName("dog".to_string()));
    state.update(Message::Insert);
    state.update(Message::ClearPhonebook);
    assert!(state.book.is_empty());
}

#[test]
fn filter_decides_row_visibility() {
    let mut state = EditorState::default();
    state.update(Message::Filter("ar".to_string()));
    assert_eq!(state.filter, "ar");
    assert!(state.row_visible("Arnold") == false);
    assert!(state.row_visible("Carl"));
    assert!(state.row_visible("ar"));
    state.update(Message::Filter("".to_string()));
    assert!(state.row_visible("anyone"));
}

#[test]
fn load_outcome_replaces_the_book_or_reports() {
    let mut state = EditorState::default();
    let mut loaded = PhoneBook::new();
    loaded.insert(
        "eve".to_string(),
        PhoneEntry::new("5".to_string(), "6".to_string()),
    );
    state.finish_load(Ok(loaded));
    assert!(state.book.contains_key("eve"));
    assert_eq!(state.error_state, "");

    state.finish_load(Err(StoreError::Io("gone".to_string())));
    assert_eq!(state.error_state, "Failed to open file: gone");
    assert!(state.book.contains_key("eve"));
}

#[test]
fn save_outcome_reports_only_failure() {
    let mut state = EditorState::default();
    state.finish_save(Ok(()));
    assert_eq!(state.error_state, "");
    state.finish_save(Err(StoreError::Format("Invalid file".to_string())));
    assert_eq!(state.error_state, "Failed to save file: Invalid file");
}

#[test]
fn error_messages_are_kept() {
    let e = StoreError::Decode("bad utf-8".to_string());
    assert_eq!(e.message(), "bad utf-8");
}
