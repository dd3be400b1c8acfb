use mbq::engine::display_summary;
use mbq::engine::drop_all_one_profile;
use mbq::engine::drop_one;
use mbq::engine::revive_all_one_profile;
use mbq::engine::revive_one;
use mbq::engine::show_profile;
use mbq::errors::EngineError;
use mbq::store::MsgEntry;
use mbq::store::Store;

fn message(from: &str, to: Option<&str>, subject: &str) -> Vec<u8> {
    let mut data = Vec::new();
    data.extend_from_slice(b"From: ");
    data.extend_from_slice(from.as_bytes());
    data.extend_from_slice(b"\r\n");
    if let Some(to) = to {
        data.extend_from_slice(b"To: ");
        data.extend_from_slice(to.as_bytes());
        data.extend_from_slice(b"\r\n");
    }
    data.extend_from_slice(b"Subject: ");
    data.extend_from_slice(subject.as_bytes());
    data.extend_from_slice(b"\r\n\r\nbody\r\n");
    data
}

fn entry(id: &str, from: &str, subject: &str) -> MsgEntry {
    MsgEntry {
        id: id.as_bytes().to_vec(),
        data: message(from, Some("bob@example.com"), subject),
        draft: false,
    }
}

#[test]
fn open_sorts_lexicographically() {
    let raw = vec![
        entry("20", "a@example.com", "twenty"),
        entry("03", "a@example.com", "three"),
        entry("1", "a@example.com", "one"),
    ];
    let store = Store::open(raw).unwrap();
    let ids = store.list();
    assert_eq!(ids, vec![b"03".to_vec(), b"1".to_vec(), b"20".to_vec()]);
}

#[test]
fn open_refuses_duplicate_identifiers() {
    let raw = vec![
        entry("7", "a@example.com", "first"),
        entry("7", "a@example.com", "second"),
    ];
    assert_eq!(Store::open(raw).unwrap_err(), EngineError::StoreError);
}

#[test]
fn enqueue_then_list_adds_exactly_one() {
    let mut store = Store::open(vec![entry("1001", "a@example.com", "old")]).unwrap();
    let before = store.list();
    let data = message("alice@example.com", Some("bob@example.com"), "Hi");
    store.enqueue(b"1002".to_vec(), data).unwrap();
    let after = store.list();
    assert_eq!(after.len(), before.len() + 1);
    assert!(after.contains(&b"1002".to_vec()));
    for id in &before {
        assert!(after.contains(id));
    }
    let summary = display_summary(&store, &b"1002".to_vec()).unwrap();
    assert_eq!(summary, b"From: alice@example.com, Subject: Hi".to_vec());
}

#[test]
fn enqueue_duplicate_identifier_is_io_error() {
    let mut store = Store::open(vec![entry("1001", "a@example.com", "old")]).unwrap();
    let err = store
        .enqueue(b"1001".to_vec(), message("x@example.com", None, "dup"))
        .unwrap_err();
    assert_eq!(err, EngineError::IoError);
    assert_eq!(store.list(), vec![b"1001".to_vec()]);
}

#[test]
fn move_to_no_loss_no_duplication() {
    let mut a = Store::open(vec![
        entry("1001", "a@example.com", "one"),
        entry("1002", "a@example.com", "two"),
    ])
    .unwrap();
    let mut b = Store::open(vec![entry("2001", "b@example.com", "other")]).unwrap();
    a.move_to(&b"1001".to_vec(), &mut b).unwrap();
    let a_ids = a.list();
    let b_ids = b.list();
    assert!(!a_ids.contains(&b"1001".to_vec()));
    assert_eq!(
        b_ids.iter().filter(|id| **id == b"1001".to_vec()).count(),
        1
    );
    assert_eq!(a_ids, vec![b"1002".to_vec()]);
    assert_eq!(b_ids, vec![b"1001".to_vec(), b"2001".to_vec()]);
}

#[test]
fn move_to_missing_message_is_store_error() {
    let mut a = Store::open(vec![entry("1001", "a@example.com", "one")]).unwrap();
    let mut b = Store::open(vec![]).unwrap();
    let err = a.move_to(&b"9999".to_vec(), &mut b).unwrap_err();
    assert_eq!(err, EngineError::StoreError);
    assert_eq!(a.list(), vec![b"1001".to_vec()]);
    assert!(b.list().is_empty());
}

#[test]
fn move_to_collision_leaves_source_intact() {
    let mut a = Store::open(vec![entry("1001", "a@example.com", "one")]).unwrap();
    let mut b = Store::open(vec![entry("1001", "b@example.com", "already")]).unwrap();
    let err = a.move_to(&b"1001".to_vec(), &mut b).unwrap_err();
    assert_eq!(err, EngineError::IoError);
    assert_eq!(a.list(), vec![b"1001".to_vec()]);
    assert_eq!(b.list(), vec![b"1001".to_vec()]);
}

#[test]
fn drop_one_removes_exactly_the_indexed_message() {
    let mut store = Store::open(vec![
        entry("1001", "a@example.com", "one"),
        entry("1002", "a@example.com", "two"),
        entry("1003", "a@example.com", "three"),
    ])
    .unwrap();
    let dropped = drop_one(&mut store, 1).unwrap();
    assert_eq!(dropped, b"1002".to_vec());
    assert_eq!(store.list(), vec![b"1001".to_vec(), b"1003".to_vec()]);
}

#[test]
fn drop_one_repeated_on_removed_index_fails() {
    let mut store = Store::open(vec![entry("1001", "a@example.com", "one")]).unwrap();
    drop_one(&mut store, 0).unwrap();
    let err = drop_one(&mut store, 0).unwrap_err();
    assert_eq!(err, EngineError::InvalidIndex);
    assert!(store.list().is_empty());
}

#[test]
fn drop_all_empties_the_store_in_order() {
    let mut store = Store::open(vec![
        entry("b", "a@example.com", "two"),
        entry("a", "a@example.com", "one"),
    ])
    .unwrap();
    let dropped = drop_all_one_profile(&mut store);
    assert_eq!(dropped, vec![b"a".to_vec(), b"b".to_vec()]);
    assert_eq!(store.count(), 0);
}

#[test]
fn revive_second_of_three_moves_it_as_draft() {
    let mut queue = Store::open(vec![
        entry("1001", "a@example.com", "one"),
        entry("1002", "a@example.com", "two"),
        entry("1003", "a@example.com", "three"),
    ])
    .unwrap();
    let mut revive = Store::open(vec![]).unwrap();
    let moved = revive_one(&mut queue, &mut revive, 1).unwrap();
    assert_eq!(moved, b"1002".to_vec());
    assert_eq!(queue.list(), vec![b"1001".to_vec(), b"1003".to_vec()]);
    assert_eq!(revive.list(), vec![b"1002".to_vec()]);
    assert!(revive.entry_at(0).draft);
    let lines = show_profile(&queue).unwrap();
    assert_eq!(lines.len(), 2);
    assert_eq!(lines[0], b"[0] From: a@example.com, Subject: one".to_vec());
    assert_eq!(lines[1], b"[1] From: a@example.com, Subject: three".to_vec());
}

#[test]
fn revive_one_out_of_range_moves_nothing() {
    let mut queue = Store::open(vec![entry("1001", "a@example.com", "one")]).unwrap();
    let mut revive = Store::open(vec![]).unwrap();
    let err = revive_one(&mut queue, &mut revive, 3).unwrap_err();
    assert_eq!(err, EngineError::InvalidIndex);
    assert_eq!(queue.count(), 1);
    assert_eq!(revive.count(), 0);
}

#[test]
fn revive_all_moves_every_message() {
    let mut queue = Store::open(vec![
        entry("1001", "a@example.com", "one"),
        entry("1002", "a@example.com", "two"),
    ])
    .unwrap();
    let mut revive = Store::open(vec![]).unwrap();
    revive_all_one_profile(&mut queue, &mut revive);
    assert_eq!(queue.count(), 0);
    assert_eq!(revive.list(), vec![b"1001".to_vec(), b"1002".to_vec()]);
    assert!(revive.entry_at(0).draft);
    assert!(revive.entry_at(1).draft);
}

#[test]
fn display_summary_unknown_identifier_is_store_error() {
    let store = Store::open(vec![entry("1001", "a@example.com", "one")]).unwrap();
    let err = display_summary(&store, &b"nope".to_vec()).unwrap_err();
    assert_eq!(err, EngineError::StoreError);
}

#[test]
fn display_summary_renders_full_header_value() {
    let mut data = Vec::new();
    data.extend_from_slice(b"From: Alice <alice@example.com>\r\nSubject: Hi\r\n\r\nbody\r\n");
    let store = Store::open(vec![MsgEntry {
        id: b"1".to_vec(),
        data,
        draft: false,
    }])
    .unwrap();
    let summary = display_summary(&store, &b"1".to_vec()).unwrap();
    assert_eq!(
        summary,
        b"From: Alice <alice@example.com>, Subject: Hi".to_vec()
    );
}

#[test]
fn display_summary_decodes_encoded_words() {
    let mut data = Vec::new();
    data.extend_from_slice(b"From: a@example.com\r\nSubject: =?utf-8?q?Hello_World?=\r\n\r\nbody\r\n");
    let store = Store::open(vec![MsgEntry {
        id: b"1".to_vec(),
        data,
        draft: false,
    }])
    .unwrap();
    let summary = display_summary(&store, &b"1".to_vec()).unwrap();
    assert_eq!(summary, b"From: a@example.com, Subject: Hello World".to_vec());
}

#[test]
fn display_summary_shows_addressless_from_value() {
    let mut data = Vec::new();
    data.extend_from_slice(b"From: undisclosed-recipients:;\r\nSubject: s\r\n\r\nbody\r\n");
    let store = Store::open(vec![MsgEntry {
        id: b"1".to_vec(),
        data,
        draft: false,
    }])
    .unwrap();
    let summary = display_summary(&store, &b"1".to_vec()).unwrap();
    assert_eq!(summary, b"From: undisclosed-recipients:;, Subject: s".to_vec());
}

#[test]
fn display_summary_without_subject_is_parse_error() {
    let mut data = Vec::new();
    data.extend_from_slice(b"From: a@example.com\r\n\r\nbody\r\n");
    let store = Store::open(vec![MsgEntry {
        id: b"1".to_vec(),
        data,
        draft: false,
    }])
    .unwrap();
    let err = display_summary(&store, &b"1".to_vec()).unwrap_err();
    assert_eq!(err, EngineError::ParseError);
}

#[test]
fn show_profile_numbers_two_digit_indices() {
    let mut raw = Vec::new();
    for i in 0..11 {
        raw.push(entry(&format!("{:02}", i), "a@example.com", "s"));
    }
    let store = Store::open(raw).unwrap();
    let lines = show_profile(&store).unwrap();
    assert_eq!(lines.len(), 11);
    assert!(lines[10].starts_with(b"[10] "));
    assert!(lines[9].starts_with(b"[9] "));
}

#[test]
fn locate_finds_committed_identifier() {
    let store = Store::open(vec![
        entry("x", "a@example.com", "one"),
        entry("y", "a@example.com", "two"),
    ])
    .unwrap();
    assert_eq!(store.locate(&b"y".to_vec()), Some(1));
    assert_eq!(store.locate(&b"z".to_vec()), None);
}

#[test]
fn delete_missing_identifier_is_store_error() {
    let mut store = Store::open(vec![entry("x", "a@example.com", "one")]).unwrap();
    let err = store.delete(&b"gone".to_vec()).unwrap_err();
    assert_eq!(err, EngineError::StoreError);
    assert_eq!(store.count(), 1);
}

#[test]
fn revive_all_assigns_fresh_identifier_on_collision() {
    let mut queue = Store::open(vec![
        entry("1001", "a@example.com", "one"),
        entry("1002", "a@example.com", "two"),
    ])
    .unwrap();
    let queued_two = message("a@example.com", Some("bob@example.com"), "two");
    let mut revive = Store::open(vec![entry("1002", "b@example.com", "already")]).unwrap();
    revive_all_one_profile(&mut queue, &mut revive);
    assert_eq!(queue.count(), 0);
    // "1001" keeps its identifier; "1002" collides and commits under a
    // fresh one, longer than every identifier the store held
    assert_eq!(
        revive.list(),
        vec![b"1001".to_vec(), b"1002".to_vec(), b"10020".to_vec()]
    );
    assert!(revive.entry_at(0).draft);
    assert!(!revive.entry_at(1).draft);
    assert!(revive.entry_at(2).draft);
    assert_eq!(revive.entry_at(2).data, queued_two);
}

#[test]
fn revive_one_collision_commits_under_fresh_identifier() {
    let mut queue = Store::open(vec![entry("1001", "a@example.com", "one")]).unwrap();
    let mut revive = Store::open(vec![entry("1001", "b@example.com", "already")]).unwrap();
    let moved = revive_one(&mut queue, &mut revive, 0).unwrap();
    assert_eq!(moved, b"1001".to_vec());
    assert_eq!(queue.count(), 0);
    assert_eq!(revive.list(), vec![b"1001".to_vec(), b"10010".to_vec()]);
    assert!(!revive.entry_at(0).draft);
    assert!(revive.entry_at(1).draft);
}
