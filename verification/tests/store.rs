use reindeer::codec::{push_frame, read_frame};
use reindeer::family::{decide_registration, families_tree_name, Registration};
use reindeer::keys::{concat_bytes, u32_from_be_bytes, u32_to_be_bytes};
use reindeer::import_export::{link_all, relations_beside, restore};
use reindeer::lexing::{number_in, read_decimal};
use reindeer::records::{first_found, gather, record_in, remove_each, rewritten, take_up};
use reindeer::relation::{any_link, link, links_of, relations_tree_name, unlink, Link, RecordId};
use reindeer::walk::{step_at, Step};
use reindeer::store::{
    exists_raw, get_raw, last_raw, put_raw, remove_raw, scan_all, scan_prefix, scan_range, surface,
};
use reindeer::{
    AsBytes, AutoIncrementEntity, DeletionBehaviour, Entity, EntityStore, ErrorKind,
    FamilyDescriptor, JsonWrapper, StoreError,
};

#[derive(Debug, Clone, PartialEq)]
struct Note {
    id: u32,
    text: String,
}

impl Entity for Note {
    type Key = u32;

    fn store_name() -> &'static str {
        "notes"
    }

    fn version() -> u32 {
        2
    }

    fn get_key(&self) -> u32 {
        self.id
    }

    fn set_key(&mut self, key: &u32) {
        self.id = *key;
    }

    fn to_bytes(&self) -> Vec<u8> {
        bincode::serialize(&(self.id, &self.text)).unwrap()
    }

    fn from_bytes(bytes: &[u8]) -> Option<Self> {
        let (id, text): (u32, String) = bincode::deserialize(bytes).ok()?;
        Some(Note { id, text })
    }

    fn get_sibling_trees() -> Vec<(&'static str, DeletionBehaviour)> {
        Vec::new()
    }

    fn get_child_trees() -> Vec<(&'static str, DeletionBehaviour)> {
        vec![("lines", DeletionBehaviour::Cascade)]
    }
}

#[derive(Debug, Clone, PartialEq)]
struct Line {
    id: (u32, u32),
}

impl Entity for Line {
    type Key = (u32, u32);

    fn store_name() -> &'static str {
        "lines"
    }

    fn version() -> u32 {
        0
    }

    fn get_key(&self) -> (u32, u32) {
        self.id
    }

    fn set_key(&mut self, key: &(u32, u32)) {
        self.id = *key;
    }

    fn to_bytes(&self) -> Vec<u8> {
        bincode::serialize(&self.id).unwrap()
    }

    fn from_bytes(bytes: &[u8]) -> Option<Self> {
        let id: (u32, u32) = bincode::deserialize(bytes).ok()?;
        Some(Line { id })
    }

    fn get_sibling_trees() -> Vec<(&'static str, DeletionBehaviour)> {
        Vec::new()
    }

    fn get_child_trees() -> Vec<(&'static str, DeletionBehaviour)> {
        Vec::new()
    }
}

#[derive(Debug, Clone, PartialEq)]
struct Tag {
    id: String,
}

impl Entity for Tag {
    type Key = String;

    fn store_name() -> &'static str {
        "tags"
    }

    fn version() -> u32 {
        0
    }

    fn get_key(&self) -> String {
        self.id.clone()
    }

    fn set_key(&mut self, key: &String) {
        self.id = key.clone();
    }

    fn to_bytes(&self) -> Vec<u8> {
        bincode::serialize(&self.id).unwrap()
    }

    fn from_bytes(bytes: &[u8]) -> Option<Self> {
        let id: String = bincode::deserialize(bytes).ok()?;
        Some(Tag { id })
    }

    fn get_sibling_trees() -> Vec<(&'static str, DeletionBehaviour)> {
        Vec::new()
    }

    fn get_child_trees() -> Vec<(&'static str, DeletionBehaviour)> {
        Vec::new()
    }
}

fn open() -> sled::Db {
    sled::Config::new().temporary(true).open().unwrap()
}

fn notes(db: &mut sled::Db, texts: &[&str]) {
    for (i, text) in texts.iter().enumerate() {
        Note { id: i as u32, text: text.to_string() }.save(db).unwrap();
    }
}

fn dump(db: &sled::Db) -> Vec<(Vec<u8>, Vec<(Vec<u8>, Vec<u8>)>)> {
    let mut trees = vec![
        b"notes".to_vec(),
        b"lines".to_vec(),
        b"tags".to_vec(),
        relations_tree_name(),
        families_tree_name(),
    ];
    trees.sort();
    trees.into_iter().map(|t| (t.clone(), scan_all(db, &t).unwrap())).collect()
}

#[test]
fn u32_key_is_big_endian() {
    assert_eq!(1u32.as_bytes(), vec![0, 0, 0, 1]);
    assert_eq!(0x0102_0304u32.as_bytes(), vec![1, 2, 3, 4]);
    assert_eq!(u32::MAX.as_bytes(), vec![255, 255, 255, 255]);
    assert_eq!(u32_to_be_bytes(256), vec![0, 0, 1, 0]);
}

#[test]
fn u32_key_reads_back() {
    assert_eq!(u32_from_be_bytes(&[0, 0, 1, 0]), Some(256));
    assert_eq!(u32_from_be_bytes(&[1, 2, 3, 4]), Some(0x0102_0304));
    assert_eq!(u32_from_be_bytes(&[1, 2, 3]), None);
    assert_eq!(u32_from_be_bytes(&[1, 2, 3, 4, 5]), None);
    assert_eq!(u32_from_be_bytes(&[]), None);
}

#[test]
fn string_and_bytes_keys_are_their_bytes() {
    assert_eq!(AsBytes::as_bytes(&String::from("id3")), b"id3".to_vec());
    assert_eq!(AsBytes::as_bytes(&String::new()), Vec::<u8>::new());
    assert_eq!(AsBytes::as_bytes(&vec![9u8, 8, 7]), vec![9, 8, 7]);
}

#[test]
fn tuple_key_is_concatenation_of_its_parts() {
    assert_eq!((1u32, 2u32).as_bytes(), vec![0, 0, 0, 1, 0, 0, 0, 2]);
    assert_eq!((1u32, String::from("ab")).as_bytes(), vec![0, 0, 0, 1, 97, 98]);
    assert_eq!((String::from("id3"), 2u32).as_bytes(), vec![105, 100, 51, 0, 0, 0, 2]);
    assert_eq!(concat_bytes(&[1, 2], &[3]), vec![1, 2, 3]);
}

#[test]
fn smaller_number_has_smaller_key() {
    let pairs = [(0u32, 1u32), (255, 256), (256, 65_536), (1, u32::MAX), (0x00ff_ffff, 0x0100_0000)];
    for (a, b) in pairs {
        assert!(a.as_bytes() < b.as_bytes());
        assert!((a, 9u32).as_bytes() < (b, 0u32).as_bytes());
        assert!((7u32, a).as_bytes() < (7u32, b).as_bytes());
    }
}

#[test]
fn frame_is_length_then_content() {
    let mut out = vec![7u8];
    push_frame(&mut out, b"ab");
    assert_eq!(out, vec![7, 0, 0, 0, 0, 0, 0, 0, 2, 97, 98]);
    assert_eq!(read_frame(&out, 1), Some((b"ab".to_vec(), 11)));
    assert_eq!(read_frame(&out, 2), None);
    assert_eq!(read_frame(&[0, 0, 0, 0, 0, 0, 0, 0], 0), Some((Vec::new(), 8)));
    assert_eq!(read_frame(&[0, 0, 0, 0, 0, 0, 0, 3, 1, 2], 0), None);
    assert_eq!(read_frame(&[0, 0, 0], 0), None);
}

#[test]
fn raw_store_keeps_what_is_put() {
    let mut db = open();
    assert_eq!(get_raw(&db, b"t", b"k").unwrap(), None);
    assert!(!exists_raw(&db, b"t", b"k").unwrap());
    put_raw(&mut db, b"t", b"k", vec![1, 2]).unwrap();
    assert_eq!(get_raw(&db, b"t", b"k").unwrap(), Some(vec![1, 2]));
    assert_eq!(get_raw(&db, b"u", b"k").unwrap(), None);
    assert!(exists_raw(&db, b"t", b"k").unwrap());
    put_raw(&mut db, b"t", b"k", vec![3]).unwrap();
    assert_eq!(get_raw(&db, b"t", b"k").unwrap(), Some(vec![3]));
    remove_raw(&mut db, b"t", b"k").unwrap();
    assert_eq!(get_raw(&db, b"t", b"k").unwrap(), None);
    assert!(!exists_raw(&db, b"t", b"k").unwrap());
    remove_raw(&mut db, b"t", b"k").unwrap();
}

#[test]
fn raw_scans_ascend_and_respect_their_span() {
    let mut db = open();
    for key in [&b"b"[..], b"a", b"ab", b"abc", b"ac", b"c"] {
        put_raw(&mut db, b"t", key, key.to_vec()).unwrap();
    }
    put_raw(&mut db, b"other", b"ab", vec![0]).unwrap();
    let keys = |items: Vec<(Vec<u8>, Vec<u8>)>| -> Vec<Vec<u8>> {
        items.into_iter().map(|(k, v)| {
            assert_eq!(k, v);
            k
        }).collect()
    };
    assert_eq!(
        keys(scan_all(&db, b"t").unwrap()),
        vec![b"a".to_vec(), b"ab".to_vec(), b"abc".to_vec(), b"ac".to_vec(), b"b".to_vec(), b"c".to_vec()]
    );
    assert_eq!(keys(scan_prefix(&db, b"t", b"ab").unwrap()), vec![b"ab".to_vec(), b"abc".to_vec()]);
    assert_eq!(keys(scan_prefix(&db, b"t", b"").unwrap()).len(), 6);
    assert_eq!(keys(scan_prefix(&db, b"t", b"x").unwrap()).len(), 0);
    assert_eq!(
        keys(scan_range(&db, b"t", b"ab", b"b").unwrap()),
        vec![b"ab".to_vec(), b"abc".to_vec(), b"ac".to_vec()]
    );
    assert_eq!(keys(scan_range(&db, b"t", b"b", b"ab").unwrap()).len(), 0);
    assert_eq!(keys(scan_range(&db, b"t", b"b", b"b").unwrap()).len(), 0);
    assert_eq!(last_raw(&db, b"t").unwrap(), Some((b"c".to_vec(), b"c".to_vec())));
    assert_eq!(last_raw(&db, b"nothing").unwrap(), None);
}

#[test]
fn prefix_of_all_ones_is_scanned() {
    let mut db = open();
    put_raw(&mut db, b"t", &[255, 255], vec![1]).unwrap();
    put_raw(&mut db, b"t", &[255, 255, 0], vec![2]).unwrap();
    put_raw(&mut db, b"t", &[255, 254], vec![3]).unwrap();
    let found = scan_prefix(&db, b"t", &[255, 255]).unwrap();
    assert_eq!(found, vec![(vec![255, 255], vec![1]), (vec![255, 255, 0], vec![2])]);
}

#[test]
fn engine_failure_surfaces_as_io_error() {
    let failed: Result<u8, sled::Error> = Err(sled::Error::Unsupported(String::from("nope")));
    let e = surface(failed).unwrap_err();
    assert_eq!(e.kind(), ErrorKind::IoError);
    assert_eq!(e.to_string(), "Unsupported: nope");
    assert_eq!(surface::<u8>(Ok(5)).unwrap(), 5);
}

#[test]
fn saved_record_is_found_until_removed() {
    let mut db = open();
    let note = Note { id: 4, text: String::from("four") };
    note.save(&mut db).unwrap();
    assert_eq!(Note::get(&4, &db).unwrap(), Some(note.clone()));
    Note { id: 5, text: String::from("five") }.save(&mut db).unwrap();
    Note::remove(&5, &mut db).unwrap();
    assert_eq!(Note::get(&4, &db).unwrap(), Some(note.clone()));
    assert!(Note::is_present(&4, &db).unwrap());
    Note { id: 4, text: String::from("again") }.save(&mut db).unwrap();
    assert_eq!(Note::get(&4, &db).unwrap().unwrap().text, "again");
    Note::remove_from_u8_array(&4u32.as_bytes(), &mut db).unwrap();
    assert_eq!(Note::get(&4, &db).unwrap(), None);
    assert!(!Note::is_present(&4, &db).unwrap());
    assert_eq!(Note::get_from_u8_array(&[0, 0, 0, 4], &db).unwrap(), None);
}

#[test]
fn unreadable_record_is_an_integrity_error() {
    let mut db = open();
    put_raw(&mut db, b"notes", &[0, 0, 0, 1], vec![1]).unwrap();
    assert_eq!(Note::get(&1, &db).unwrap_err().kind(), ErrorKind::IntegrityError);
    assert_eq!(Note::get_all(&db).unwrap_err().kind(), ErrorKind::IntegrityError);
    assert!(Note::is_present(&1, &db).unwrap());
    assert_eq!(Note::get_each(&[1], &db), Vec::<Note>::new());
}

#[test]
fn scans_return_records_in_key_order() {
    let mut db = open();
    notes(&mut db, &["a", "b", "c", "d", "e"]);
    let ids = |found: Vec<Note>| -> Vec<u32> { found.into_iter().map(|n| n.id).collect() };
    assert_eq!(ids(Note::get_all(&db).unwrap()), vec![0, 1, 2, 3, 4]);
    assert_eq!(ids(Note::get_in_range(1u32, 3u32, &db).unwrap()), vec![1, 2]);
    assert_eq!(ids(Note::get_in_range(3u32, 1u32, &db).unwrap()), Vec::<u32>::new());
    assert_eq!(ids(Note::get_with_prefix(vec![0u8, 0, 0], &db).unwrap()), vec![0, 1, 2, 3, 4]);
    assert_eq!(ids(Note::get_with_prefix(Vec::<u8>::new(), &db).unwrap()), vec![0, 1, 2, 3, 4]);
    assert_eq!(ids(Note::get_with_prefix(3u32, &db).unwrap()), vec![3]);
    assert_eq!(Note::get_number(&db).unwrap(), 5);
    assert_eq!(Tag::get_number(&db).unwrap(), 0);
}

#[test]
fn windows_skip_and_take() {
    let mut db = open();
    notes(&mut db, &["a", "b", "c", "d", "e"]);
    let ids = |found: Vec<Note>| -> Vec<u32> { found.into_iter().map(|n| n.id).collect() };
    let none: Option<u32> = None;
    assert_eq!(ids(Note::get_from_start(1, 2, none, &db).unwrap()), vec![1, 2]);
    assert_eq!(ids(Note::get_from_start(0, 10, none, &db).unwrap()), vec![0, 1, 2, 3, 4]);
    assert_eq!(ids(Note::get_from_start(4, 3, none, &db).unwrap()), vec![4]);
    assert_eq!(ids(Note::get_from_start(5, 3, none, &db).unwrap()), Vec::<u32>::new());
    assert_eq!(ids(Note::get_from_start(2, 0, none, &db).unwrap()), Vec::<u32>::new());
    assert_eq!(ids(Note::get_from_start(usize::MAX, usize::MAX, none, &db).unwrap()), Vec::<u32>::new());
    assert_eq!(ids(Note::get_from_start(1, usize::MAX, none, &db).unwrap()), vec![1, 2, 3, 4]);
    assert_eq!(ids(Note::get_from_end(1, 2, none, &db).unwrap()), vec![2, 3]);
    assert_eq!(ids(Note::get_from_end(0, 1, none, &db).unwrap()), vec![4]);
    assert_eq!(ids(Note::get_from_end(3, 9, none, &db).unwrap()), vec![0, 1]);
    assert_eq!(ids(Note::get_from_end(7, 2, none, &db).unwrap()), Vec::<u32>::new());
    assert_eq!(ids(Note::get_from_start(0, 1, Some(vec![0u8, 0, 0, 3]), &db).unwrap()), vec![3]);
    assert_eq!(ids(Note::get_from_end(0, 5, Some(vec![0u8, 0, 0]), &db).unwrap()), vec![0, 1, 2, 3, 4]);
}

#[test]
fn filter_keeps_accepted_records_in_order() {
    let mut db = open();
    notes(&mut db, &["a", "bb", "c", "dd", "e"]);
    let long = Note::get_with_filter(|n: &Note| n.text.len() == 2, &db).unwrap();
    assert_eq!(long.iter().map(|n| n.id).collect::<Vec<_>>(), vec![1, 3]);
    let removed = Note::filter_remove(|n: &Note| n.text.len() == 2, &mut db).unwrap();
    assert_eq!(removed.iter().map(|n| n.id).collect::<Vec<_>>(), vec![1, 3]);
    assert_eq!(Note::get_all(&db).unwrap().iter().map(|n| n.id).collect::<Vec<_>>(), vec![0, 2, 4]);
    Note::filter_update(|n: &Note| n.id > 0, |n: &mut Note| n.text.push('!'), &mut db).unwrap();
    let texts: Vec<String> = Note::get_all(&db).unwrap().into_iter().map(|n| n.text).collect();
    assert_eq!(texts, vec!["a", "c!", "e!"]);
}

#[test]
fn update_rewrites_present_records_only() {
    let mut db = open();
    notes(&mut db, &["a"]);
    Note::update(&0, |n: &mut Note| n.text = String::from("z"), &mut db).unwrap();
    assert_eq!(Note::get(&0, &db).unwrap().unwrap().text, "z");
    Note::update(&9, |n: &mut Note| n.text = String::from("z"), &mut db).unwrap();
    assert_eq!(Note::get(&9, &db).unwrap(), None);
    assert_eq!(Note::get_number(&db).unwrap(), 1);
}

#[test]
fn update_of_bytes_that_are_no_record_is_an_integrity_error() {
    let mut db = open();
    notes(&mut db, &["a"]);
    put_raw(&mut db, b"notes", &[0, 0, 0, 7], vec![1]).unwrap();
    let before = dump(&db);
    let failure = Note::update(&7, |n: &mut Note| n.text = String::from("z"), &mut db).unwrap_err();
    assert_eq!(failure.kind(), ErrorKind::IntegrityError);
    assert_eq!(dump(&db), before);
    assert_eq!(get_raw(&db, b"notes", &[0, 0, 0, 7]).unwrap(), Some(vec![1]));
}

#[test]
fn outcome_of_a_rewrite_is_told_from_what_was_stored() {
    let note = Note { id: 3, text: String::from("c") };
    assert!(rewritten::<Note>(None).is_ok());
    assert!(rewritten::<Note>(Some(note.to_bytes())).is_ok());
    assert_eq!(rewritten::<Note>(Some(vec![1])).unwrap_err().kind(), ErrorKind::IntegrityError);
}

#[test]
fn batch_lookup_passes_over_missing_keys() {
    let mut db = open();
    notes(&mut db, &["a", "b", "c"]);
    let found = Note::get_each(&[2, 7, 0, 0], &db);
    assert_eq!(found.iter().map(|n| n.id).collect::<Vec<_>>(), vec![2, 0, 0]);
    let found = Note::get_each_u8(&vec![vec![0, 0, 0, 1], vec![1], vec![0, 0, 0, 2]], &db);
    assert_eq!(found.iter().map(|n| n.id).collect::<Vec<_>>(), vec![1, 2]);
    assert_eq!(Note::get_each(&[], &db), Vec::<Note>::new());
}

#[test]
fn next_key_follows_the_greatest() {
    let mut db = open();
    assert_eq!(Note::get_next_key(&db).unwrap(), 0);
    let mut first = Note { id: 77, text: String::from("a") };
    assert_eq!(first.save_next(&mut db).unwrap(), 0);
    assert_eq!(first.id, 0);
    let mut second = Note { id: 77, text: String::from("b") };
    assert_eq!(second.save_next(&mut db).unwrap(), 1);
    Note { id: 300, text: String::from("c") }.save(&mut db).unwrap();
    assert_eq!(Note::get_next_key(&db).unwrap(), 301);
    assert!(!Note::is_present(&301, &db).unwrap());
}

#[test]
fn next_key_needs_a_number_with_a_successor() {
    let mut db = open();
    Note { id: u32::MAX, text: String::from("last") }.save(&mut db).unwrap();
    assert_eq!(Note::get_next_key(&db).unwrap_err().kind(), ErrorKind::IntegrityError);
    let mut more = Note { id: 5, text: String::from("more") };
    assert_eq!(more.save_next(&mut db).unwrap_err().kind(), ErrorKind::IntegrityError);
    assert_eq!(more.id, 5);
    assert_eq!(Note::get_number(&db).unwrap(), 1);
    let mut other = open();
    put_raw(&mut other, b"notes", &[9, 9, 9, 9, 9], vec![1]).unwrap();
    assert_eq!(Note::get_next_key(&other).unwrap_err().kind(), ErrorKind::IntegrityError);
}

#[test]
fn descriptor_reads_back() {
    let siblings = vec![("entity_3", DeletionBehaviour::Cascade)];
    let children = vec![("a", DeletionBehaviour::Error), ("b", DeletionBehaviour::BreakLink)];
    let d = FamilyDescriptor::new("entity_1", 7, &siblings, &children);
    let bytes = d.to_bytes();
    assert_eq!(&bytes[..4], &[0, 0, 0, 7]);
    assert_eq!(&bytes[4..12], &[0, 0, 0, 0, 0, 0, 0, 8]);
    assert_eq!(&bytes[12..20], b"entity_1");
    let back = FamilyDescriptor::from_bytes(&bytes).unwrap();
    assert_eq!(back.tree_name, b"entity_1".to_vec());
    assert_eq!(back.version, 7);
    assert_eq!(back.sibling_trees, vec![(b"entity_3".to_vec(), DeletionBehaviour::Cascade)]);
    assert_eq!(
        back.child_trees,
        vec![(b"a".to_vec(), DeletionBehaviour::Error), (b"b".to_vec(), DeletionBehaviour::BreakLink)]
    );
    assert!(FamilyDescriptor::from_bytes(&bytes[..bytes.len() - 1]).is_none());
    let mut longer = bytes.clone();
    longer.push(0);
    assert!(FamilyDescriptor::from_bytes(&longer).is_none());
    assert!(FamilyDescriptor::from_bytes(&[]).is_none());
}

#[test]
fn policy_bytes_are_fixed() {
    assert_eq!(DeletionBehaviour::Cascade.to_byte(), 0);
    assert_eq!(DeletionBehaviour::Error.to_byte(), 1);
    assert_eq!(DeletionBehaviour::BreakLink.to_byte(), 2);
    assert_eq!(DeletionBehaviour::from_byte(0), Some(DeletionBehaviour::Cascade));
    assert_eq!(DeletionBehaviour::from_byte(1), Some(DeletionBehaviour::Error));
    assert_eq!(DeletionBehaviour::from_byte(2), Some(DeletionBehaviour::BreakLink));
    assert_eq!(DeletionBehaviour::from_byte(3), None);
}

#[test]
fn registration_is_idempotent_and_guards_the_schema() {
    let mut db = open();
    let none: Vec<(&'static str, DeletionBehaviour)> = Vec::new();
    let children = vec![("lines", DeletionBehaviour::Cascade)];
    assert!(!FamilyDescriptor::is_registered("notes", &db).unwrap());
    assert!(FamilyDescriptor::get("notes", &db).unwrap().is_none());
    Note::register(&mut db).unwrap();
    Note::register(&mut db).unwrap();
    assert!(FamilyDescriptor::is_registered("notes", &db).unwrap());
    let stored = FamilyDescriptor::get("notes", &db).unwrap().unwrap();
    assert_eq!(stored.version, 2);
    assert_eq!(stored.child_trees, vec![(b"lines".to_vec(), DeletionBehaviour::Cascade)]);
    let drift = FamilyDescriptor::new("notes", 2, &none, &none);
    assert_eq!(drift.register(&mut db).unwrap_err().kind(), ErrorKind::SchemaError);
    let older = FamilyDescriptor::new("notes", 1, &none, &children);
    assert_eq!(older.register(&mut db).unwrap_err().kind(), ErrorKind::SchemaError);
    assert_eq!(FamilyDescriptor::get("notes", &db).unwrap().unwrap().version, 2);
    let newer = FamilyDescriptor::new("notes", 5, &none, &children);
    newer.register(&mut db).unwrap();
    assert_eq!(FamilyDescriptor::get("notes", &db).unwrap().unwrap().version, 5);
    put_raw(&mut db, &families_tree_name(), b"tags", vec![1, 2, 3]).unwrap();
    assert_eq!(Tag::register(&mut db).unwrap_err().kind(), ErrorKind::IntegrityError);
    assert_eq!(FamilyDescriptor::get("tags", &db).unwrap_err().kind(), ErrorKind::IntegrityError);
}

#[test]
fn registration_is_decided_from_what_is_stored() {
    let none: Vec<(&'static str, DeletionBehaviour)> = Vec::new();
    let children = vec![("lines", DeletionBehaviour::Cascade)];
    let new = FamilyDescriptor::new("notes", 3, &none, &children);
    assert_eq!(decide_registration(&None, &new), Registration::Write);
    assert_eq!(decide_registration(&Some(vec![0]), &new), Registration::Unreadable);
    assert_eq!(decide_registration(&Some(new.to_bytes()), &new), Registration::Write);
    let low = FamilyDescriptor::new("notes", 2, &none, &children).to_bytes();
    assert_eq!(decide_registration(&Some(low), &new), Registration::Write);
    let high = FamilyDescriptor::new("notes", 4, &none, &children).to_bytes();
    assert_eq!(decide_registration(&Some(high), &new), Registration::Downgrade);
    let other = FamilyDescriptor::new("notes", 3, &children, &none).to_bytes();
    assert_eq!(decide_registration(&Some(other), &new), Registration::Drift);
}

#[test]
fn children_are_the_prefix_scan() {
    let mut db = open();
    Note::register(&mut db).unwrap();
    notes(&mut db, &["a", "b"]);
    for (parent, n) in [(0u32, 0u32), (0, 1), (1, 0), (1, 1), (1, 2), (256, 0)] {
        Line { id: (parent, n) }.save(&mut db).unwrap();
    }
    for parent in Note::get_all(&db).unwrap() {
        let children = parent.get_children::<Line>(&db).unwrap();
        let scanned = Line::get_with_prefix(parent.get_key(), &db).unwrap();
        assert_eq!(children, scanned);
        assert!(children.iter().all(|line| line.id.0 == parent.id));
    }
    let first = Note::get(&1, &db).unwrap().unwrap();
    assert_eq!(first.get_children::<Line>(&db).unwrap().len(), 3);
}

#[test]
fn link_has_two_halves_or_none() {
    let mut db = open();
    let a = RecordId::new(b"notes", &[0, 0, 0, 1]);
    let b = RecordId::new(b"tags", b"x");
    link(&mut db, &a, &b, DeletionBehaviour::BreakLink, DeletionBehaviour::Cascade).unwrap();
    let halves = scan_all(&db, &relations_tree_name()).unwrap();
    assert_eq!(halves.len(), 2);
    let forth = [
        &[0u8, 0, 0, 0, 0, 0, 0, 5][..], b"notes", &[0, 0, 0, 0, 0, 0, 0, 4], &[0, 0, 0, 1],
        &[0, 0, 0, 0, 0, 0, 0, 4], b"tags", b"x",
    ].concat();
    let back = [
        &[0u8, 0, 0, 0, 0, 0, 0, 4][..], b"tags", &[0, 0, 0, 0, 0, 0, 0, 1], b"x",
        &[0, 0, 0, 0, 0, 0, 0, 5], b"notes", &[0, 0, 0, 1],
    ].concat();
    assert_eq!(halves[0], (back, vec![0, 2]));
    assert_eq!(halves[1], (forth, vec![2, 0]));
    let seen = links_of(&db, &a).unwrap();
    assert_eq!(seen.len(), 1);
    assert_eq!(seen[0].target.store, b"tags".to_vec());
    assert_eq!(seen[0].target.key, b"x".to_vec());
    assert_eq!(seen[0].on_delete, DeletionBehaviour::BreakLink);
    assert_eq!(seen[0].target_on_delete, DeletionBehaviour::Cascade);
    let seen = links_of(&db, &b).unwrap();
    assert_eq!(seen[0].on_delete, DeletionBehaviour::Cascade);
    assert_eq!(seen[0].target_on_delete, DeletionBehaviour::BreakLink);
    unlink(&mut db, &b, &a).unwrap();
    assert_eq!(scan_all(&db, &relations_tree_name()).unwrap().len(), 0);
    unlink(&mut db, &a, &b).unwrap();
}

#[test]
fn half_without_mirror_is_an_integrity_error() {
    let mut db = open();
    let note = Note { id: 1, text: String::from("a") };
    let tag = Tag { id: String::from("x") };
    note.save(&mut db).unwrap();
    tag.save(&mut db).unwrap();
    note.create_relation(&tag, DeletionBehaviour::Cascade, DeletionBehaviour::Cascade, &mut db).unwrap();
    let halves = scan_all(&db, &relations_tree_name()).unwrap();
    remove_raw(&mut db, &relations_tree_name(), &halves[0].0).unwrap();
    assert_eq!(note.get_related::<Tag>(&db).unwrap_err().kind(), ErrorKind::IntegrityError);
    assert!(!note.has_related::<Tag>(&db));
    let before = dump(&db);
    assert_eq!(Note::remove(&1, &mut db).unwrap_err().kind(), ErrorKind::IntegrityError);
    assert_eq!(dump(&db), before);
    put_raw(&mut db, &relations_tree_name(), &halves[0].0, vec![9, 9]).unwrap();
    assert_eq!(tag.get_related::<Note>(&db).unwrap_err().kind(), ErrorKind::IntegrityError);
}

#[test]
fn relations_are_seen_from_both_ends() {
    let mut db = open();
    let note = Note { id: 1, text: String::from("a") };
    let x = Tag { id: String::from("x") };
    let y = Tag { id: String::from("y") };
    note.save(&mut db).unwrap();
    x.save(&mut db).unwrap();
    y.save(&mut db).unwrap();
    assert!(!note.has_related::<Tag>(&db));
    assert_eq!(note.get_single_related::<Tag>(&db).unwrap_err().kind(), ErrorKind::NotFound);
    note.create_relation(&y, DeletionBehaviour::BreakLink, DeletionBehaviour::BreakLink, &mut db).unwrap();
    note.create_relation(&x, DeletionBehaviour::BreakLink, DeletionBehaviour::BreakLink, &mut db).unwrap();
    assert!(note.has_related::<Tag>(&db));
    assert!(x.has_related::<Note>(&db));
    assert!(!x.has_related::<Tag>(&db));
    assert_eq!(note.get_related::<Tag>(&db).unwrap(), vec![x.clone(), y.clone()]);
    assert_eq!(note.get_single_related::<Tag>(&db).unwrap(), x.clone());
    assert_eq!(x.get_related::<Note>(&db).unwrap(), vec![note.clone()]);
    note.remove_relation(&x, &mut db).unwrap();
    assert_eq!(note.get_related::<Tag>(&db).unwrap(), vec![y.clone()]);
    assert!(!x.has_related::<Note>(&db));
    note.remove_relation_with_key::<Tag>(b"y", &mut db).unwrap();
    assert!(!note.has_related::<Tag>(&db));
    assert_eq!(scan_all(&db, &relations_tree_name()).unwrap().len(), 0);
}

#[test]
fn link_to_a_vanished_record_is_passed_over() {
    let mut db = open();
    let note = Note { id: 1, text: String::from("a") };
    let x = Tag { id: String::from("x") };
    let y = Tag { id: String::from("y") };
    note.save(&mut db).unwrap();
    x.save(&mut db).unwrap();
    y.save(&mut db).unwrap();
    note.create_relation(&x, DeletionBehaviour::BreakLink, DeletionBehaviour::BreakLink, &mut db).unwrap();
    note.create_relation(&y, DeletionBehaviour::BreakLink, DeletionBehaviour::BreakLink, &mut db).unwrap();
    Tag::remove_from_u8_array(b"x", &mut db).unwrap();
    assert_eq!(note.get_related::<Tag>(&db).unwrap(), vec![y.clone()]);
    assert_eq!(note.get_single_related::<Tag>(&db).unwrap(), y);
}

#[test]
fn remove_related_removes_records_and_links() {
    let mut db = open();
    let note = Note { id: 1, text: String::from("a") };
    let other = Note { id: 2, text: String::from("b") };
    let x = Tag { id: String::from("x") };
    let y = Tag { id: String::from("y") };
    let z = Tag { id: String::from("z") };
    for tag in [&x, &y, &z] {
        tag.save(&mut db).unwrap();
    }
    note.save(&mut db).unwrap();
    other.save(&mut db).unwrap();
    note.create_relation(&x, DeletionBehaviour::Error, DeletionBehaviour::Error, &mut db).unwrap();
    note.create_relation(&y, DeletionBehaviour::Error, DeletionBehaviour::Error, &mut db).unwrap();
    note.create_relation(&other, DeletionBehaviour::Error, DeletionBehaviour::Error, &mut db).unwrap();
    note.remove_related::<Tag>(&mut db).unwrap();
    assert_eq!(Tag::get_all(&db).unwrap(), vec![z]);
    assert!(!note.has_related::<Tag>(&db));
    assert_eq!(note.get_related::<Note>(&db).unwrap(), vec![other]);
    assert_eq!(scan_all(&db, &relations_tree_name()).unwrap().len(), 2);
}

#[test]
fn break_link_leaves_the_other_record() {
    let mut db = open();
    Note::register(&mut db).unwrap();
    let note = Note { id: 1, text: String::from("a") };
    let x = Tag { id: String::from("x") };
    note.save(&mut db).unwrap();
    x.save(&mut db).unwrap();
    Line { id: (1, 0) }.save(&mut db).unwrap();
    Line { id: (2, 0) }.save(&mut db).unwrap();
    note.create_relation(&x, DeletionBehaviour::BreakLink, DeletionBehaviour::Error, &mut db).unwrap();
    Note::remove(&1, &mut db).unwrap();
    assert_eq!(Note::get(&1, &db).unwrap(), None);
    assert_eq!(Tag::get(&String::from("x"), &db).unwrap(), Some(x.clone()));
    assert_eq!(Line::get_all(&db).unwrap(), vec![Line { id: (2, 0) }]);
    assert_eq!(scan_all(&db, &relations_tree_name()).unwrap().len(), 0);
    Tag::remove(&String::from("x"), &mut db).unwrap();
    assert_eq!(Tag::get_number(&db).unwrap(), 0);
}

#[test]
fn cascade_follows_links_in_a_circle() {
    let mut db = open();
    let a = Note { id: 1, text: String::from("a") };
    let b = Note { id: 2, text: String::from("b") };
    let c = Note { id: 3, text: String::from("c") };
    let d = Note { id: 4, text: String::from("d") };
    for n in [&a, &b, &c, &d] {
        n.save(&mut db).unwrap();
    }
    a.create_relation(&a, DeletionBehaviour::Cascade, DeletionBehaviour::Cascade, &mut db).unwrap();
    a.create_relation(&b, DeletionBehaviour::Cascade, DeletionBehaviour::Cascade, &mut db).unwrap();
    b.create_relation(&c, DeletionBehaviour::Cascade, DeletionBehaviour::Cascade, &mut db).unwrap();
    c.create_relation(&a, DeletionBehaviour::Cascade, DeletionBehaviour::Cascade, &mut db).unwrap();
    c.create_relation(&d, DeletionBehaviour::BreakLink, DeletionBehaviour::BreakLink, &mut db).unwrap();
    Note::remove(&2, &mut db).unwrap();
    assert_eq!(Note::get_all(&db).unwrap(), vec![d]);
    assert_eq!(scan_all(&db, &relations_tree_name()).unwrap().len(), 0);
}

#[test]
fn error_edge_to_a_record_found_before_is_passed_over() {
    let mut db = open();
    let root = Note { id: 1, text: String::from("root") };
    let early = Tag { id: String::from("a") };
    let late = Tag { id: String::from("b") };
    root.save(&mut db).unwrap();
    early.save(&mut db).unwrap();
    late.save(&mut db).unwrap();
    root.create_relation(&early, DeletionBehaviour::Cascade, DeletionBehaviour::BreakLink, &mut db).unwrap();
    root.create_relation(&late, DeletionBehaviour::Cascade, DeletionBehaviour::BreakLink, &mut db).unwrap();
    late.create_relation(&early, DeletionBehaviour::Error, DeletionBehaviour::BreakLink, &mut db).unwrap();
    Note::remove(&1, &mut db).unwrap();
    assert_eq!(Note::get_number(&db).unwrap(), 0);
    assert_eq!(Tag::get_number(&db).unwrap(), 0);
    assert_eq!(scan_all(&db, &relations_tree_name()).unwrap().len(), 0);
}

#[test]
fn error_edge_to_a_record_found_later_refuses() {
    let mut db = open();
    let root = Note { id: 1, text: String::from("root") };
    let early = Tag { id: String::from("a") };
    let late = Tag { id: String::from("b") };
    root.save(&mut db).unwrap();
    early.save(&mut db).unwrap();
    late.save(&mut db).unwrap();
    root.create_relation(&early, DeletionBehaviour::Cascade, DeletionBehaviour::BreakLink, &mut db).unwrap();
    root.create_relation(&late, DeletionBehaviour::Cascade, DeletionBehaviour::BreakLink, &mut db).unwrap();
    early.create_relation(&late, DeletionBehaviour::Error, DeletionBehaviour::BreakLink, &mut db).unwrap();
    let before = dump(&db);
    let failure = Note::remove(&1, &mut db).unwrap_err();
    assert_eq!(failure.kind(), ErrorKind::PolicyViolation);
    assert_eq!(dump(&db), before);
    Tag::remove(&String::from("b"), &mut db).unwrap();
    assert_eq!(Tag::get_all(&db).unwrap(), vec![early.clone()]);
    Note::remove(&1, &mut db).unwrap();
    assert_eq!(Note::get_number(&db).unwrap(), 0);
    assert_eq!(Tag::get_number(&db).unwrap(), 0);
}

#[test]
fn declared_edges_are_looked_at_before_links() {
    let mut db = open();
    Note::register(&mut db).unwrap();
    let parent = Note { id: 1, text: String::from("parent") };
    let child = Line { id: (1, 0) };
    parent.save(&mut db).unwrap();
    child.save(&mut db).unwrap();
    parent.create_relation(&child, DeletionBehaviour::Error, DeletionBehaviour::Error, &mut db).unwrap();
    Note::remove(&1, &mut db).unwrap();
    assert_eq!(Note::get_number(&db).unwrap(), 0);
    assert_eq!(Line::get_number(&db).unwrap(), 0);
    assert_eq!(scan_all(&db, &relations_tree_name()).unwrap().len(), 0);
}

#[test]
fn refused_deletion_changes_nothing() {
    let mut db = open();
    Note::register(&mut db).unwrap();
    let a = Note { id: 1, text: String::from("a") };
    let b = Note { id: 2, text: String::from("b") };
    let x = Tag { id: String::from("x") };
    a.save(&mut db).unwrap();
    b.save(&mut db).unwrap();
    x.save(&mut db).unwrap();
    Line { id: (1, 0) }.save(&mut db).unwrap();
    a.create_relation(&b, DeletionBehaviour::Cascade, DeletionBehaviour::BreakLink, &mut db).unwrap();
    b.create_relation(&x, DeletionBehaviour::Error, DeletionBehaviour::Cascade, &mut db).unwrap();
    let before = dump(&db);
    let failure = Note::remove(&1, &mut db).unwrap_err();
    assert_eq!(failure.kind(), ErrorKind::PolicyViolation);
    assert_eq!(dump(&db), before);
    Tag::remove(&String::from("x"), &mut db).unwrap();
    assert_eq!(Note::get_all(&db).unwrap(), vec![a.clone()]);
    assert_eq!(Line::get_number(&db).unwrap(), 1);
    Note::remove(&1, &mut db).unwrap();
    assert_eq!(Line::get_number(&db).unwrap(), 0);
}

#[test]
fn removing_by_prefix_takes_out_the_listed_records_only() {
    let mut db = open();
    Note::register(&mut db).unwrap();
    notes(&mut db, &["a", "b", "c"]);
    Note { id: 256, text: String::from("far") }.save(&mut db).unwrap();
    Line { id: (1, 7) }.save(&mut db).unwrap();
    let tag = Tag { id: String::from("x") };
    tag.save(&mut db).unwrap();
    Note { id: 2, text: String::from("c") }
        .create_relation(&tag, DeletionBehaviour::Cascade, DeletionBehaviour::Error, &mut db)
        .unwrap();
    let links = scan_all(&db, &relations_tree_name()).unwrap();
    Note::remove_prefixed(vec![0u8, 0, 0], &mut db).unwrap();
    assert_eq!(Note::get_all(&db).unwrap().iter().map(|n| n.id).collect::<Vec<_>>(), vec![256]);
    assert_eq!(Line::get_all(&db).unwrap(), vec![Line { id: (1, 7) }]);
    assert_eq!(Tag::get_all(&db).unwrap(), vec![tag]);
    assert_eq!(scan_all(&db, &relations_tree_name()).unwrap(), links);
}

#[test]
fn removing_by_filter_takes_out_the_accepted_records_only() {
    let mut db = open();
    Note::register(&mut db).unwrap();
    notes(&mut db, &["a", "b", "c"]);
    Line { id: (1, 7) }.save(&mut db).unwrap();
    let tag = Tag { id: String::from("x") };
    tag.save(&mut db).unwrap();
    Note { id: 1, text: String::from("b") }
        .create_relation(&tag, DeletionBehaviour::Error, DeletionBehaviour::Error, &mut db)
        .unwrap();
    let links = scan_all(&db, &relations_tree_name()).unwrap();
    let removed = Note::filter_remove(|n: &Note| n.id == 1, &mut db).unwrap();
    assert_eq!(removed, vec![Note { id: 1, text: String::from("b") }]);
    assert_eq!(Note::get_all(&db).unwrap().iter().map(|n| n.id).collect::<Vec<_>>(), vec![0, 2]);
    assert_eq!(Line::get_all(&db).unwrap(), vec![Line { id: (1, 7) }]);
    assert_eq!(Tag::get_all(&db).unwrap(), vec![tag]);
    assert_eq!(scan_all(&db, &relations_tree_name()).unwrap(), links);
}

#[test]
fn removal_by_filter_stops_at_bytes_that_are_no_record() {
    let mut db = open();
    notes(&mut db, &["a", "b"]);
    put_raw(&mut db, b"notes", &[0, 0, 0, 7], vec![1]).unwrap();
    let before = dump(&db);
    let failure = Note::filter_remove(|_: &Note| true, &mut db).unwrap_err();
    assert_eq!(failure.kind(), ErrorKind::IntegrityError);
    assert_eq!(dump(&db), before);
    let failure = Note::remove_prefixed(vec![0u8], &mut db).unwrap_err();
    assert_eq!(failure.kind(), ErrorKind::IntegrityError);
    assert_eq!(dump(&db), before);
}

#[test]
fn removing_no_record_changes_nothing() {
    let mut db = open();
    notes(&mut db, &["a", "b"]);
    let before = dump(&db);
    remove_each::<Note>(&Vec::new(), &mut db).unwrap();
    assert_eq!(dump(&db), before);
    remove_each(&vec![Note { id: 1, text: String::new() }, Note { id: 5, text: String::new() }], &mut db)
        .unwrap();
    assert_eq!(Note::get_all(&db).unwrap().iter().map(|n| n.id).collect::<Vec<_>>(), vec![0]);
}

#[test]
fn siblings_must_be_declared_on_both_sides() {
    let mut db = open();
    let note = Note { id: 1, text: String::from("a") };
    note.save(&mut db).unwrap();
    let mut twin = Note { id: 9, text: String::from("b") };
    let before = dump(&db);
    let failure = note.save_sibling(&mut twin, &mut db).unwrap_err();
    assert_eq!(failure.kind(), ErrorKind::SchemaError);
    assert_eq!(twin.id, 9);
    assert_eq!(dump(&db), before);
    assert_eq!(note.get_sibling::<Note>(&db).unwrap(), Some(note.clone()));
}

#[test]
fn export_carries_the_links() {
    let mut db = open();
    let a = Note { id: 1, text: String::from("a") };
    let b = Note { id: 2, text: String::from("b") };
    let x = Tag { id: String::from("x") };
    a.save(&mut db).unwrap();
    b.save(&mut db).unwrap();
    x.save(&mut db).unwrap();
    a.create_relation(&x, DeletionBehaviour::Cascade, DeletionBehaviour::Error, &mut db).unwrap();
    let wrapper = JsonWrapper::from(Note::get_all(&db).unwrap(), &db).unwrap();
    assert_eq!(wrapper.0.len(), 2);
    assert_eq!(wrapper.0[0].0, a);
    assert_eq!(wrapper.0[1].0, b);
    assert!(wrapper.0[1].1.is_none());
    let relations = wrapper.0[0].1.as_ref().unwrap();
    assert_eq!(relations.related_entities.len(), 1);
    assert_eq!(relations.related_entities[0].target.store, b"tags".to_vec());
    assert_eq!(relations.related_entities[0].target.key, b"x".to_vec());
    assert_eq!(relations.related_entities[0].on_delete, DeletionBehaviour::Cascade);
    assert_eq!(relations.related_entities[0].target_on_delete, DeletionBehaviour::Error);
    let mut copy = open();
    wrapper.save(&mut copy).unwrap();
    assert_eq!(Note::get_all(&copy).unwrap(), vec![a.clone(), b]);
    assert_eq!(
        scan_all(&copy, &relations_tree_name()).unwrap(),
        scan_all(&db, &relations_tree_name()).unwrap()
    );
    assert!(a.has_related::<Tag>(&copy));
}

#[test]
fn empty_key_is_a_key() {
    let mut db = open();
    put_raw(&mut db, b"t", b"", vec![1]).unwrap();
    put_raw(&mut db, b"t", &[0], vec![2]).unwrap();
    assert_eq!(get_raw(&db, b"t", b"").unwrap(), Some(vec![1]));
    assert_eq!(scan_all(&db, b"t").unwrap(), vec![(vec![], vec![1]), (vec![0], vec![2])]);
    assert_eq!(scan_range(&db, b"t", b"", &[0]).unwrap(), vec![(vec![], vec![1])]);
    assert_eq!(last_raw(&db, b"t").unwrap(), Some((vec![0], vec![2])));
    remove_raw(&mut db, b"t", b"").unwrap();
    assert_eq!(get_raw(&db, b"t", b"").unwrap(), None);
    put_raw(&mut db, b"", b"k", vec![3]).unwrap();
    assert_eq!(get_raw(&db, b"", b"k").unwrap(), Some(vec![3]));
}

#[test]
fn ascii_strings_are_ordered_by_their_keys() {
    let words = ["", "A", "Z", "a", "ab", "abc", "b", "id1", "id10", "id2", "~"];
    for pair in words.windows(2) {
        assert!(pair[0] < pair[1]);
        assert!(AsBytes::as_bytes(&pair[0].to_string()) < AsBytes::as_bytes(&pair[1].to_string()));
        assert!(
            (7u32, pair[0].to_string()).as_bytes() < (7u32, pair[1].to_string()).as_bytes()
        );
    }
}

#[test]
fn different_keys_have_different_bytes() {
    let strings = [String::from("a"), String::from("ab"), String::from("b"), String::new()];
    let numbers = [0u32, 1, 255, 256, 65_536, u32::MAX];
    let mut seen: Vec<Vec<u8>> = Vec::new();
    for s in &strings {
        for n in &numbers {
            seen.push((s.clone(), *n).as_bytes());
        }
    }
    let total = seen.len();
    seen.sort();
    seen.dedup();
    assert_eq!(seen.len(), total);
    let mut seen: Vec<Vec<u8>> = Vec::new();
    for n in &numbers {
        for s in &strings {
            seen.push((*n, s.clone()).as_bytes());
        }
    }
    let total = seen.len();
    seen.sort();
    seen.dedup();
    assert_eq!(seen.len(), total);
    let mut seen: Vec<Vec<u8>> = Vec::new();
    for n in &numbers {
        for m in &numbers {
            seen.push((*n, *m).as_bytes());
        }
    }
    let total = seen.len();
    seen.sort();
    seen.dedup();
    assert_eq!(seen.len(), total);
}

#[test]
fn string_followed_by_number_loses_the_order_at_a_prefix() {
    let a = (String::from("a"), u32::MAX);
    let b = (String::from("a\u{1}"), 0u32);
    assert!(a < b);
    assert!(a.as_bytes() > b.as_bytes());
    let c = (String::from("ab"), u32::MAX);
    let d = (String::from("ac"), 0u32);
    assert!(c < d);
    assert!(c.as_bytes() < d.as_bytes());
}

#[test]
fn next_key_exceeds_every_key() {
    let mut db = open();
    for id in [5u32, 0, 70_000, 12] {
        Note { id, text: String::new() }.save(&mut db).unwrap();
    }
    let next = Note::get_next_key(&db).unwrap();
    assert_eq!(next, 70_001);
    for note in Note::get_all(&db).unwrap() {
        assert!(note.id < next);
    }
}

#[test]
fn a_failed_read_of_links_counts_as_no_link() {
    let one = Link {
        target: RecordId::new(b"tags", b"x"),
        on_delete: DeletionBehaviour::Cascade,
        target_on_delete: DeletionBehaviour::Error,
    };
    assert!(any_link(&Ok(vec![one])));
    assert!(!any_link(&Ok(Vec::new())));
    let failed: Result<u8, sled::Error> = Err(sled::Error::Unsupported(String::from("nope")));
    assert!(!any_link(&Err(surface(failed).unwrap_err())));
    assert!(!any_link(&Err(reindeer::StoreError::new(ErrorKind::IntegrityError, "half"))));
}

#[test]
fn answers_are_gathered_in_their_order() {
    let a = Note { id: 1, text: String::from("a") };
    let b = Note { id: 2, text: String::from("b") };
    let answers = vec![
        Ok(Some(a.clone())),
        Ok(None),
        Err(StoreError::new(ErrorKind::IoError, "no")),
        Ok(Some(b.clone())),
        Err(StoreError::new(ErrorKind::IntegrityError, "no")),
        Ok(Some(a.clone())),
    ];
    assert_eq!(gather(answers), vec![a.clone(), b, a]);
    assert_eq!(gather::<Note>(Vec::new()), Vec::new());
    assert_eq!(gather::<Note>(vec![Ok(None)]), Vec::new());
}

#[test]
fn batch_lookup_passes_over_unreadable_records() {
    let mut db = open();
    notes(&mut db, &["a", "b", "c"]);
    put_raw(&mut db, b"notes", &[0, 0, 0, 1], vec![1]).unwrap();
    let found = Note::get_each(&[0, 1, 2], &db);
    assert_eq!(found.iter().map(|n| n.id).collect::<Vec<_>>(), vec![0, 2]);
    let found = Note::get_each_u8(&vec![vec![0, 0, 0, 2], vec![0, 0, 0, 1]], &db);
    assert_eq!(found.iter().map(|n| n.id).collect::<Vec<_>>(), vec![2]);
}

#[test]
fn first_found_is_the_first_or_not_found() {
    let a = Note { id: 1, text: String::from("a") };
    let b = Note { id: 2, text: String::from("b") };
    assert_eq!(first_found(vec![a.clone(), b.clone()]).unwrap(), a);
    assert_eq!(first_found(vec![b.clone()]).unwrap(), b);
    assert_eq!(first_found::<Note>(Vec::new()).unwrap_err().kind(), ErrorKind::NotFound);
}

#[test]
fn a_vanished_target_adds_nothing() {
    let a = Note { id: 1, text: String::from("a") };
    let mut out = vec![a.clone()];
    take_up(&mut out, None);
    assert_eq!(out, vec![a.clone()]);
    take_up(&mut out, Some(Note { id: 2, text: String::from("b") }));
    assert_eq!(out, vec![a, Note { id: 2, text: String::from("b") }]);
}

#[test]
fn step_is_told_from_policy_and_whether_found() {
    assert_eq!(step_at(true, DeletionBehaviour::Error), Step::PassOver);
    assert_eq!(step_at(true, DeletionBehaviour::Cascade), Step::PassOver);
    assert_eq!(step_at(true, DeletionBehaviour::BreakLink), Step::PassOver);
    assert_eq!(step_at(false, DeletionBehaviour::Error), Step::Refuse);
    assert_eq!(step_at(false, DeletionBehaviour::BreakLink), Step::PassOver);
    assert_eq!(step_at(false, DeletionBehaviour::Cascade), Step::Follow);
}

#[test]
fn relations_stand_beside_a_record_that_has_links() {
    assert!(relations_beside(Vec::new()).is_none());
    let link = Link {
        target: RecordId::new(b"tags", b"x"),
        on_delete: DeletionBehaviour::Cascade,
        target_on_delete: DeletionBehaviour::Error,
    };
    let beside = relations_beside(vec![link]).unwrap();
    assert_eq!(beside.related_entities.len(), 1);
    assert_eq!(beside.related_entities[0].target.key, b"x".to_vec());
    assert_eq!(beside.related_entities[0].on_delete, DeletionBehaviour::Cascade);
    assert_eq!(beside.related_entities[0].target_on_delete, DeletionBehaviour::Error);
}

#[test]
fn link_of_a_record_to_itself_is_carried_over_as_it_is() {
    let mut db = open();
    let a = Note { id: 1, text: String::from("a") };
    a.save(&mut db).unwrap();
    let me = RecordId::new(b"notes", &[0, 0, 0, 1]);
    let half = reindeer::relation::link_key_bytes(&me, &me);
    put_raw(&mut db, &relations_tree_name(), &half, vec![0, 1]).unwrap();
    let wrapper = JsonWrapper::from(Note::get_all(&db).unwrap(), &db).unwrap();
    let carried = wrapper.0[0].1.as_ref().unwrap();
    assert_eq!(carried.related_entities.len(), 1);
    assert_eq!(carried.related_entities[0].on_delete, DeletionBehaviour::Cascade);
    assert_eq!(carried.related_entities[0].target_on_delete, DeletionBehaviour::Error);
    let mut copy = open();
    wrapper.save(&mut copy).unwrap();
    assert_eq!(get_raw(&copy, &relations_tree_name(), &half).unwrap(), Some(vec![0, 1]));
    assert_eq!(
        scan_all(&copy, &relations_tree_name()).unwrap(),
        scan_all(&db, &relations_tree_name()).unwrap()
    );
    assert_eq!(Note::get_all(&copy).unwrap(), vec![a]);
}

#[test]
fn restored_link_has_both_halves_as_carried() {
    let mut db = open();
    let a = RecordId::new(b"notes", &[0, 0, 0, 1]);
    let x = RecordId::new(b"tags", b"x");
    let carried = Link {
        target: RecordId::new(b"tags", b"x"),
        on_delete: DeletionBehaviour::BreakLink,
        target_on_delete: DeletionBehaviour::Error,
    };
    restore(&mut db, &a, &carried).unwrap();
    let forth = reindeer::relation::link_key_bytes(&a, &x);
    let back = reindeer::relation::link_key_bytes(&x, &a);
    assert_eq!(get_raw(&db, &relations_tree_name(), &forth).unwrap(), Some(vec![2, 1]));
    assert_eq!(get_raw(&db, &relations_tree_name(), &back).unwrap(), Some(vec![1, 2]));
    assert_eq!(scan_all(&db, &relations_tree_name()).unwrap().len(), 2);
    let own = Link {
        target: RecordId::new(b"notes", &[0, 0, 0, 1]),
        on_delete: DeletionBehaviour::Cascade,
        target_on_delete: DeletionBehaviour::Error,
    };
    link_all(&a, &vec![own], &mut db).unwrap();
    let itself = reindeer::relation::link_key_bytes(&a, &a);
    assert_eq!(get_raw(&db, &relations_tree_name(), &itself).unwrap(), Some(vec![0, 1]));
    assert_eq!(scan_all(&db, &relations_tree_name()).unwrap().len(), 3);
}

#[test]
fn empty_export_and_import_succeed() {
    let mut db = open();
    notes(&mut db, &["a"]);
    let before = dump(&db);
    let wrapper = JsonWrapper::<Note>::from(Vec::new(), &db).unwrap();
    assert!(wrapper.0.is_empty());
    wrapper.save(&mut db).unwrap();
    assert_eq!(dump(&db), before);
    link_all(&RecordId::new(b"notes", &[0, 0, 0, 0]), &Vec::new(), &mut db).unwrap();
    assert_eq!(dump(&db), before);
}

#[test]
fn decimal_digits_are_read_as_a_number() {
    assert_eq!(number_in("0"), Some(0));
    assert_eq!(number_in("12"), Some(12));
    assert_eq!(number_in("+7"), Some(7));
    assert_eq!(number_in("0000000000042"), Some(42));
    assert_eq!(number_in("4294967295"), Some(u32::MAX));
    assert_eq!(number_in("4294967296"), None);
    assert_eq!(number_in("99999999999999999999999"), None);
    assert_eq!(number_in(""), None);
    assert_eq!(number_in("+"), None);
    assert_eq!(number_in("-1"), None);
    assert_eq!(number_in("1_000"), None);
    assert_eq!(number_in("12a"), None);
    assert_eq!(number_in(" 1"), None);
    assert_eq!(number_in("++1"), None);
    assert_eq!(read_decimal(b"305"), Some(305));
    assert_eq!(read_decimal(&[0x31, 0xc3, 0xa9]), None);
    for text in ["0", "+15", "4294967295", "4294967296", "", "+", "-3", "07", "1e3"] {
        assert_eq!(number_in(text), text.parse::<u32>().ok());
    }
}

#[test]
fn string_parent_finds_children_of_longer_strings_too() {
    let under = |parent: &str, child: (String, u32)| child.as_bytes().starts_with(&parent.to_string().as_bytes());
    assert!(under("ab", (String::from("ab"), 1)));
    assert!(under("ab", (String::from("abc"), 1)));
    assert!(!under("ab", (String::from("ac"), 1)));
    assert!(!under("ab", (String::from("ba"), 0x6162)));
}

#[test]
fn export_of_records_linked_among_themselves_comes_back() {
    let mut db = open();
    notes(&mut db, &["a", "b", "c"]);
    let all = Note::get_all(&db).unwrap();
    all[0].create_relation(&all[1], DeletionBehaviour::Cascade, DeletionBehaviour::Error, &mut db).unwrap();
    all[1].create_relation(&all[2], DeletionBehaviour::BreakLink, DeletionBehaviour::Cascade, &mut db).unwrap();
    all[2].create_relation(&all[2], DeletionBehaviour::Error, DeletionBehaviour::BreakLink, &mut db).unwrap();
    let tag = Tag { id: String::from("x") };
    tag.save(&mut db).unwrap();
    all[0].create_relation(&tag, DeletionBehaviour::Error, DeletionBehaviour::Error, &mut db).unwrap();
    let wrapper = JsonWrapper::from(Note::get_all(&db).unwrap(), &db).unwrap();
    assert_eq!(wrapper.0.iter().map(|p| p.1.as_ref().map(|r| r.related_entities.len())).collect::<Vec<_>>(), vec![
        Some(2),
        Some(2),
        Some(2),
    ]);
    let mut copy = open();
    wrapper.save(&mut copy).unwrap();
    assert_eq!(Note::get_all(&copy).unwrap(), all);
    assert_eq!(
        scan_all(&copy, &relations_tree_name()).unwrap(),
        scan_all(&db, &relations_tree_name()).unwrap()
    );
}

#[test]
fn found_bytes_are_decoded_or_an_integrity_error() {
    let note = Note { id: 3, text: String::from("c") };
    assert_eq!(record_in::<Note>(None).unwrap(), None);
    assert_eq!(record_in::<Note>(Some(note.to_bytes())).unwrap(), Some(note));
    assert_eq!(record_in::<Note>(Some(vec![1])).unwrap_err().kind(), ErrorKind::IntegrityError);
}
