use phone_book::book::PhoneBook;
use phone_book::codec::parse;
use phone_book::codec::serialize;
use phone_book::codec::split_str;
use phone_book::codec::str_contains;
use phone_book::codec::StoreError;
use phone_book::entry::PhoneEntry;
use phone_book::store::PhoneBookDB;
use phone_book::text::str_eq;
use phone_book::text::str_lt;

#[test]
fn write_single_record_exact_bytes() {
    let mut book = PhoneBook::new();
    book.insert(
        "cat".to_string(),
        PhoneEntry::new("0".to_string(), "1".to_string()),
    );
    let text = serialize(&book);
    assert_eq!(text, "cat: 0: 1");
    assert_eq!(text.len(), 9);

    let back = parse(&text).unwrap();
    assert_eq!(back.len(), 1);
    assert!(back.contains_key("cat"));
    let entry = back.get("cat").unwrap();
    assert_eq!(
        entry,
        &PhoneEntry::new("0".to_string(), "1".to_string())
    );
}

#[test]
fn empty_book_writes_zero_bytes_and_reads_back_empty() {
    let book = PhoneBook::new();
    let text = serialize(&book);
    assert_eq!(text.len(), 0);

    let back = parse(&text).unwrap();
    assert!(back.is_empty());
}

#[test]
fn round_trip_many_records_in_sorted_order() {
    let mut book = PhoneBook::new();
    book.insert(
        "bob".to_string(),
        PhoneEntry::new("22".to_string(), "33".to_string()),
    );
    book.insert(
        "alice".to_string(),
        PhoneEntry::new("11".to_string(), "44".to_string()),
    );
    book.insert(
        "carol".to_string(),
        PhoneEntry::new("55".to_string(), "66".to_string()),
    );
    let text = serialize(&book);
    assert_eq!(text, "alice: 11: 44\nbob: 22: 33\ncarol: 55: 66");

    let back = parse(&text).unwrap();
    assert_eq!(back.len(), 3);
    assert_eq!(
        back.get("alice").unwrap(),
        &PhoneEntry::new("11".to_string(), "44".to_string())
    );
    assert_eq!(
        back.get("bob").unwrap(),
        &PhoneEntry::new("22".to_string(), "33".to_string())
    );
    assert_eq!(
        back.get("carol").unwrap(),
        &PhoneEntry::new("55".to_string(), "66".to_string())
    );
}

#[test]
fn malformed_line_rejects_whole_read() {
    let r = parse("OnlyOneField");
    match r {
        Err(StoreError::Format(m)) => assert_eq!(m, "Invalid file"),
        _ => panic!("a line without the delimiter must fail the read"),
    }

    let r2 = parse("good: 1: 2\nOnlyOneField");
    assert!(r2.is_err());

    let r3 = parse("two: fields");
    assert!(r3.is_err());
}

#[test]
fn empty_lines_are_skipped() {
    let back = parse("cat: 0: 1\n").unwrap();
    assert_eq!(back.len(), 1);

    let back2 = parse("\n\n").unwrap();
    assert!(back2.is_empty());
}

#[test]
fn delimiter_in_value_drops_extra_fields() {
    let mut book = PhoneBook::new();
    book.insert(
        "ann".to_string(),
        PhoneEntry::new("1: 2".to_string(), "3".to_string()),
    );
    let text = serialize(&book);
    assert_eq!(text, "ann: 1: 2: 3");

    // The fourth field is silently discarded on read: the documented
    // limitation of the unescaped format.
    let back = parse(&text).unwrap();
    assert_eq!(
        back.get("ann").unwrap(),
        &PhoneEntry::new("1".to_string(), "2".to_string())
    );
}

#[test]
fn duplicate_names_keep_the_later_line() {
    let back = parse("bob: 1: 2\nbob: 3: 4").unwrap();
    assert_eq!(back.len(), 1);
    assert_eq!(
        back.get("bob").unwrap(),
        &PhoneEntry::new("3".to_string(), "4".to_string())
    );
}

#[test]
fn insert_replaces_and_sorts() {
    let mut book = PhoneBook::new();
    book.insert(
        "z".to_string(),
        PhoneEntry::new("1".to_string(), "2".to_string()),
    );
    book.insert(
        "a".to_string(),
        PhoneEntry::new("3".to_string(), "4".to_string()),
    );
    book.insert(
        "z".to_string(),
        PhoneEntry::new("5".to_string(), "6".to_string()),
    );
    assert_eq!(book.len(), 2);
    assert_eq!(book.name_at(0), "a");
    assert_eq!(book.name_at(1), "z");
    assert_eq!(
        book.entry_at(1),
        &PhoneEntry::new("5".to_string(), "6".to_string())
    );
}

#[test]
fn remove_and_clear() {
    let mut book = PhoneBook::new();
    book.insert(
        "a".to_string(),
        PhoneEntry::new("1".to_string(), "2".to_string()),
    );
    book.insert(
        "b".to_string(),
        PhoneEntry::new("3".to_string(), "4".to_string()),
    );
    let removed = book.remove("a");
    assert_eq!(
        removed,
        Some(PhoneEntry::new("1".to_string(), "2".to_string()))
    );
    assert!(!book.contains_key("a"));
    assert!(book.contains_key("b"));
    assert_eq!(book.remove("missing"), None);
    book.clear();
    assert!(book.is_empty());
}

#[test]
fn string_order_and_equality() {
    assert!(str_lt("abc", "abd"));
    assert!(str_lt("ab", "abc"));
    assert!(!str_lt("abc", "abc"));
    assert!(!str_lt("b", "abc"));
    assert!(str_eq("same", "same"));
    assert!(!str_eq("same", "sane"));
    assert!(!str_eq("same", "sam"));
}

#[test]
fn split_and_contains() {
    let parts = split_str("a: b: : c", ": ");
    assert_eq!(parts, vec!["a", "b", "", "c"]);
    let parts2 = split_str("", "\n");
    assert_eq!(parts2, vec![""]);
    assert!(str_contains("a phone book", "phone"));
    assert!(str_contains("anything", ""));
    assert!(!str_contains("short", "longer"));
}

#[test]
fn store_handle_keeps_its_path() {
    let db = PhoneBookDB::_new("contacts.txt".to_string());
    assert_eq!(db.file_path1, "contacts.txt");
}

#[test]
fn entry_equality_is_field_wise() {
    let a = PhoneEntry::new("1".to_string(), "2".to_string());
    let b = a.duplicate();
    assert_eq!(a, b);
    let c = PhoneEntry::new("1".to_string(), "9".to_string());
    assert_ne!(a, c);
    assert_eq!(a.mobile, "1");
    assert_eq!(a.work, "2");
}
