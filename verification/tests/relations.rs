use reindeer::{
    AutoIncrementEntity, DeletionBehaviour, Entity, EntityStore, ErrorKind, FamilyDescriptor,
    StoreError,
};
use uuid::Uuid;

#[derive(Debug, Clone, PartialEq)]
struct Entity1 {
    id: u32,
    prop1: String,
}

impl Entity for Entity1 {
    type Key = u32;

    fn store_name() -> &'static str {
        "entity_1"
    }

    fn version() -> u32 {
        1
    }

    fn get_key(&self) -> u32 {
        self.id
    }

    fn set_key(&mut self, key: &u32) {
        self.id = *key;
    }

    fn to_bytes(&self) -> Vec<u8> {
        bincode::serialize(&(self.id, &self.prop1)).unwrap()
    }

    fn from_bytes(bytes: &[u8]) -> Option<Self> {
        let (id, prop1): (u32, String) = bincode::deserialize(bytes).ok()?;
        Some(Entity1 { id, prop1 })
    }

    fn get_sibling_trees() -> Vec<(&'static str, DeletionBehaviour)> {
        vec![("entity_3", DeletionBehaviour::Cascade)]
    }

    fn get_child_trees() -> Vec<(&'static str, DeletionBehaviour)> {
        Vec::new()
    }
}

#[derive(Debug, Clone, PartialEq)]
struct Entity2 {
    id: String,
    prop2: u32,
}

impl Entity for Entity2 {
    type Key = String;

    fn store_name() -> &'static str {
        "entity_2"
    }

    fn version() -> u32 {
        1
    }

    fn get_key(&self) -> String {
        self.id.clone()
    }

    fn set_key(&mut self, key: &String) {
        self.id = key.clone();
    }

    fn to_bytes(&self) -> Vec<u8> {
        bincode::serialize(&(&self.id, self.prop2)).unwrap()
    }

    fn from_bytes(bytes: &[u8]) -> Option<Self> {
        let (id, prop2): (String, u32) = bincode::deserialize(bytes).ok()?;
        Some(Entity2 { id, prop2 })
    }

    fn get_sibling_trees() -> Vec<(&'static str, DeletionBehaviour)> {
        Vec::new()
    }

    fn get_child_trees() -> Vec<(&'static str, DeletionBehaviour)> {
        vec![("child_entity_1", DeletionBehaviour::Cascade)]
    }
}

#[derive(Debug, Clone, PartialEq)]
struct Entity3 {
    id: u32,
}

impl Entity for Entity3 {
    type Key = u32;

    fn store_name() -> &'static str {
        "entity_3"
    }

    fn version() -> u32 {
        1
    }

    fn get_key(&self) -> u32 {
        self.id
    }

    fn set_key(&mut self, key: &u32) {
        self.id = *key;
    }

    fn to_bytes(&self) -> Vec<u8> {
        bincode::serialize(&self.id).unwrap()
    }

    fn from_bytes(bytes: &[u8]) -> Option<Self> {
        let id: u32 = bincode::deserialize(bytes).ok()?;
        Some(Entity3 { id })
    }

    fn get_sibling_trees() -> Vec<(&'static str, DeletionBehaviour)> {
        vec![("entity_1", DeletionBehaviour::Error)]
    }

    fn get_child_trees() -> Vec<(&'static str, DeletionBehaviour)> {
        vec![("child_entity_2", DeletionBehaviour::Error)]
    }
}

#[derive(Debug, Clone, PartialEq)]
struct ChildEntity1 {
    id: (String, u32),
}

impl Entity for ChildEntity1 {
    type Key = (String, u32);

    fn store_name() -> &'static str {
        "child_entity_1"
    }

    fn version() -> u32 {
        1
    }

    fn get_key(&self) -> (String, u32) {
        self.id.clone()
    }

    fn set_key(&mut self, key: &(String, u32)) {
        self.id = key.clone();
    }

    fn to_bytes(&self) -> Vec<u8> {
        bincode::serialize(&self.id).unwrap()
    }

    fn from_bytes(bytes: &[u8]) -> Option<Self> {
        let id: (String, u32) = bincode::deserialize(bytes).ok()?;
        Some(ChildEntity1 { id })
    }

    fn get_sibling_trees() -> Vec<(&'static str, DeletionBehaviour)> {
        Vec::new()
    }

    fn get_child_trees() -> Vec<(&'static str, DeletionBehaviour)> {
        Vec::new()
    }
}

#[derive(Debug, Clone, PartialEq)]
struct ChildEntity2 {
    id: (u32, u32),
}

impl Entity for ChildEntity2 {
    type Key = (u32, u32);

    fn store_name() -> &'static str {
        "child_entity_2"
    }

    fn version() -> u32 {
        1
    }

    fn get_key(&self) -> (u32, u32) {
        self.id
    }

    fn set_key(&mut self, key: &(u32, u32)) {
        self.id = *key;
    }

    fn to_bytes(&self) -> Vec<u8> {
        bincode::serialize(&self.id).unwrap()
    }

    fn from_bytes(bytes: &[u8]) -> Option<Self> {
        let id: (u32, u32) = bincode::deserialize(bytes).ok()?;
        Some(ChildEntity2 { id })
    }

    fn get_sibling_trees() -> Vec<(&'static str, DeletionBehaviour)> {
        Vec::new()
    }

    fn get_child_trees() -> Vec<(&'static str, DeletionBehaviour)> {
        Vec::new()
    }
}

fn get_random_name() -> String {
    format!("sled-entity-test-{}", Uuid::new_v4().to_string())
}

fn set_up(name: &str) -> Result<sled::Db, StoreError> {
    let mut db = sled::Config::new()
        .path(format!("/tmp/{}", name))
        .temporary(true)
        .open()
        .unwrap();
    Entity1::register(&mut db)?;
    Entity2::register(&mut db)?;
    Entity3::register(&mut db)?;
    ChildEntity1::register(&mut db)?;
    ChildEntity2::register(&mut db)?;
    Ok(db)
}

fn set_up_content(db: &mut sled::Db) -> Result<(), StoreError> {
    let mut e1 = Entity1 { id: 0, prop1: String::from("Hello, World!") };
    e1.save_next(db)?;
    let mut e1 = Entity1 { id: 0, prop1: String::from("Hello, Nancy!") };
    e1.save_next(db)?;
    let mut e1 = Entity1 { id: 0, prop1: String::from("Hello, Beeboo!") };
    e1.save_next(db)?;
    Entity2 { id: String::from("id1"), prop2: 3 }.save(db)?;
    Entity2 { id: String::from("id2"), prop2: 5 }.save(db)?;
    Entity2 { id: String::from("id3"), prop2: 1000 }.save(db)?;
    Entity3 { id: 2 }.save(db)?;
    for i in 0..3u32 {
        ChildEntity1 { id: (String::from("id3"), i) }.save(db)?;
        ChildEntity2 { id: (2, i) }.save(db)?;
    }
    Ok(())
}

fn tear_down(db: sled::Db) -> Result<(), StoreError> {
    drop(db);
    Ok(())
}

#[test]
fn create_and_register() -> Result<(), StoreError> {
    let name = get_random_name();
    let db = set_up(&name)?;
    assert!(FamilyDescriptor::is_registered(&String::from("entity_1"), &db)?);
    assert!(FamilyDescriptor::is_registered(&String::from("entity_2"), &db)?);
    assert!(FamilyDescriptor::is_registered(&String::from("child_entity_1"), &db)?);
    let fam_desc = FamilyDescriptor::get(&String::from("entity_1"), &db)?;
    assert!(fam_desc.is_some());
    assert_eq!(fam_desc.unwrap().sibling_trees.len(), 1);
    tear_down(db)?;
    Ok(())
}

#[test]
fn test_save_save_next_and_get() -> Result<(), StoreError> {
    let name = get_random_name();
    let mut db = set_up(&name)?;
    set_up_content(&mut db)?;
    let e1_0 = Entity1::get(&0, &db)?;
    let e1_1 = Entity1::get(&1, &db)?;
    let e2_1 = Entity2::get(&String::from("id1"), &db)?;
    let e2_2 = Entity2::get(&String::from("id2"), &db)?;
    assert!(e1_0.is_some());
    assert!(e1_1.is_some());
    assert!(e2_1.is_some());
    assert!(e2_2.is_some());
    let e1_0 = e1_0.unwrap();
    let e1_1 = e1_1.unwrap();
    let e2_1 = e2_1.unwrap();
    let e2_2 = e2_2.unwrap();
    assert_eq!(e1_0.id, 0);
    assert_eq!(e1_0.prop1, "Hello, World!");
    assert_eq!(e1_1.id, 1);
    assert_eq!(e1_1.prop1, "Hello, Nancy!");
    assert!(Entity1::get(&8, &db)?.is_none());
    assert_eq!(e2_1.prop2, 3);
    assert_eq!(e2_2.prop2, 5);
    tear_down(db)?;
    Ok(())
}

#[test]
fn test_save_and_get_children() -> Result<(), StoreError> {
    let name = get_random_name();
    let mut db = set_up(&name)?;
    set_up_content(&mut db)?;
    let child_1 = ChildEntity1::get(&(String::from("id3"), 0), &db)?;
    assert!(child_1.is_some());
    let e2_3 = Entity2::get(&String::from("id3"), &db)?.unwrap();
    let children = e2_3.get_children::<ChildEntity1>(&db)?;
    assert_eq!(children.len(), 3);
    tear_down(db)?;
    Ok(())
}

#[test]
fn test_cascade_children() -> Result<(), StoreError> {
    let name = get_random_name();
    let mut db = set_up(&name)?;
    set_up_content(&mut db)?;
    let e2_3 = Entity2::get(&String::from("id3"), &db)?.unwrap();
    let children = e2_3.get_children::<ChildEntity1>(&db)?;
    assert_eq!(children.len(), 3);
    Entity2::remove(&String::from("id3"), &mut db)?;
    assert!(Entity2::get(&String::from("id3"), &db)?.is_none());
    assert_eq!(e2_3.get_children::<ChildEntity1>(&db)?.len(), 0);
    tear_down(db)?;
    Ok(())
}

#[test]
fn test_delete_children_error() -> Result<(), StoreError> {
    let name = get_random_name();
    let mut db = set_up(&name)?;
    set_up_content(&mut db)?;
    let e3_2 = Entity3::get(&2, &db)?.unwrap();
    let children = e3_2.get_children::<ChildEntity2>(&db)?;
    assert_eq!(children.len(), 3);
    assert!(Entity3::remove(&2, &mut db).is_err());
    let e3_2 = Entity3::get(&2, &db)?;
    assert!(e3_2.is_some());
    assert_eq!(e3_2.unwrap().get_children::<ChildEntity2>(&db)?.len(), 3);
    tear_down(db)?;
    Ok(())
}

#[test]
fn test_add_sibling() -> Result<(), StoreError> {
    let name = get_random_name();
    let mut db = set_up(&name)?;
    set_up_content(&mut db)?;
    let mut e1 = Entity1 { id: 0, prop1: String::from("First Sibling") };
    e1.save_next(&mut db)?;
    let mut e3 = Entity3 { id: 0 };
    e1.save_sibling(&mut e3, &mut db)?;
    assert_eq!(e3.id, e1.id);
    assert_eq!(e3.id, 3);
    tear_down(db)?;
    Ok(())
}

#[test]
fn test_delete_sibling_cascade() -> Result<(), StoreError> {
    let name = get_random_name();
    let mut db = set_up(&name)?;
    set_up_content(&mut db)?;
    let mut e1 = Entity1 { id: 0, prop1: String::from("First Sibling") };
    e1.save_next(&mut db)?;
    let mut e3 = Entity3 { id: 0 };
    e1.save_sibling(&mut e3, &mut db)?;
    assert!(Entity1::remove(&e1.get_key(), &mut db).is_ok());
    assert!(Entity1::get(&e1.get_key(), &db)?.is_none());
    assert!(Entity3::get(&e3.get_key(), &db)?.is_none());
    tear_down(db)?;
    Ok(())
}

#[test]
fn test_delete_sibling_error() -> Result<(), StoreError> {
    let name = get_random_name();
    let mut db = set_up(&name)?;
    set_up_content(&mut db)?;
    let mut e1 = Entity1 { id: 0, prop1: String::from("First Sibling") };
    e1.save_next(&mut db)?;
    let mut e3 = Entity3 { id: 0 };
    e1.save_sibling(&mut e3, &mut db)?;
    assert!(Entity3::remove(&e1.get_key(), &mut db).is_err());
    assert!(Entity1::get(&e1.get_key(), &db)?.is_some());
    assert!(Entity3::get(&e3.get_key(), &db)?.is_some());
    tear_down(db)?;
    Ok(())
}

#[test]
fn test_free_relation() -> Result<(), StoreError> {
    let name = get_random_name();
    let mut db = set_up(&name)?;
    set_up_content(&mut db)?;
    let e1 = Entity1::get(&2, &db)?.unwrap();
    let e2_1 = Entity2::get(&String::from("id1"), &db)?.unwrap();
    let e2_2 = Entity2::get(&String::from("id2"), &db)?.unwrap();
    assert!(e1
        .create_relation(&e2_1, DeletionBehaviour::Cascade, DeletionBehaviour::Error, &mut db)
        .is_ok());
    assert!(e1
        .create_relation(&e2_2, DeletionBehaviour::Cascade, DeletionBehaviour::Error, &mut db)
        .is_ok());
    let related = e1.get_related::<Entity2>(&db)?;
    assert_eq!(related.len(), 2);
    assert_eq!(related[0].get_key(), "id1");
    assert_eq!(related[1].get_key(), "id2");
    tear_down(db)?;
    Ok(())
}

#[test]
fn test_free_relation_cascade() -> Result<(), StoreError> {
    let name = get_random_name();
    let mut db = set_up(&name)?;
    set_up_content(&mut db)?;
    let mut e1 = Entity1 { id: 0, prop1: String::from("First Sibling") };
    e1.save_next(&mut db)?;
    let e2_1 = Entity2::get(&String::from("id1"), &db)?.unwrap();
    let e2_2 = Entity2::get(&String::from("id2"), &db)?.unwrap();
    assert!(e1
        .create_relation(&e2_1, DeletionBehaviour::Cascade, DeletionBehaviour::Error, &mut db)
        .is_ok());
    assert!(e1
        .create_relation(&e2_2, DeletionBehaviour::Cascade, DeletionBehaviour::Error, &mut db)
        .is_ok());
    let related = e1.get_related::<Entity2>(&db)?;
    assert_eq!(related.len(), 2);
    assert!(Entity1::remove(&e1.get_key(), &mut db).is_ok());
    assert_eq!(e1.get_related::<Entity2>(&db)?.len(), 0);
    assert!(Entity2::get(&String::from("id1"), &db)?.is_none());
    assert!(Entity2::get(&String::from("id2"), &db)?.is_none());
    tear_down(db)?;
    Ok(())
}

#[test]
fn test_free_relation_error() -> Result<(), StoreError> {
    let name = get_random_name();
    let mut db = set_up(&name)?;
    set_up_content(&mut db)?;
    let mut e1 = Entity1 { id: 0, prop1: String::from("First Sibling") };
    e1.save_next(&mut db)?;
    let e2_1 = Entity2::get(&String::from("id1"), &db)?.unwrap();
    let e2_2 = Entity2::get(&String::from("id2"), &db)?.unwrap();
    assert!(e1
        .create_relation(&e2_1, DeletionBehaviour::Cascade, DeletionBehaviour::Error, &mut db)
        .is_ok());
    assert!(e1
        .create_relation(&e2_2, DeletionBehaviour::Cascade, DeletionBehaviour::Error, &mut db)
        .is_ok());
    let related = e1.get_related::<Entity2>(&db)?;
    assert_eq!(related.len(), 2);
    assert!(Entity2::remove(&e2_1.get_key(), &mut db).is_err());
    assert_eq!(e1.get_related::<Entity2>(&db)?.len(), 2);
    tear_down(db)?;
    Ok(())
}

#[test]
fn test_recursive_cascade() -> Result<(), StoreError> {
    let name = get_random_name();
    let mut db = set_up(&name)?;
    set_up_content(&mut db)?;
    let mut e1 = Entity1 { id: 0, prop1: String::from("First Sibling") };
    e1.save_next(&mut db)?;
    let e2_1 = Entity2::get(&String::from("id1"), &db)?.unwrap();
    let e2_3 = Entity2::get(&String::from("id3"), &db)?.unwrap();
    assert!(e1
        .create_relation(&e2_1, DeletionBehaviour::Cascade, DeletionBehaviour::Error, &mut db)
        .is_ok());
    assert!(e1
        .create_relation(&e2_3, DeletionBehaviour::Cascade, DeletionBehaviour::Error, &mut db)
        .is_ok());
    let related = e1.get_related::<Entity2>(&db)?;
    assert_eq!(related.len(), 2);
    assert!(Entity1::remove(&e1.get_key(), &mut db).is_ok());
    assert_eq!(e1.get_related::<Entity2>(&db)?.len(), 0);
    assert_eq!(ChildEntity1::get_number(&db)?, 0);
    tear_down(db)?;
    Ok(())
}

#[test]
fn test_recursive_error() -> Result<(), StoreError> {
    let name = get_random_name();
    let mut db = set_up(&name)?;
    set_up_content(&mut db)?;
    let e1 = Entity1::get(&2, &db)?.unwrap();
    let e2_1 = Entity2::get(&String::from("id1"), &db)?.unwrap();
    let e2_3 = Entity2::get(&String::from("id3"), &db)?.unwrap();
    assert!(e1
        .create_relation(&e2_1, DeletionBehaviour::Cascade, DeletionBehaviour::Error, &mut db)
        .is_ok());
    assert!(e1
        .create_relation(&e2_3, DeletionBehaviour::Cascade, DeletionBehaviour::Error, &mut db)
        .is_ok());
    let related = e1.get_related::<Entity2>(&db)?;
    assert_eq!(related.len(), 2);
    assert!(Entity1::remove(&e1.get_key(), &mut db).is_err());
    assert_eq!(e1.get_related::<Entity2>(&db)?.len(), 2);
    assert_eq!(ChildEntity1::get_number(&db)?, 3);
    tear_down(db)?;
    Ok(())
}

#[test]
fn policy_violation_is_reported_by_kind() -> Result<(), StoreError> {
    let name = get_random_name();
    let mut db = set_up(&name)?;
    set_up_content(&mut db)?;
    let failure = Entity3::remove(&2, &mut db).unwrap_err();
    assert_eq!(failure.kind(), ErrorKind::PolicyViolation);
    assert_eq!(failure.to_string(), "A related record forbids the deletion");
    assert_eq!(ChildEntity2::get_number(&db)?, 3);
    assert_eq!(Entity3::get_number(&db)?, 1);
    tear_down(db)?;
    Ok(())
}

#[test]
fn recursive_cascade_leaves_no_link_behind() -> Result<(), StoreError> {
    let name = get_random_name();
    let mut db = set_up(&name)?;
    set_up_content(&mut db)?;
    let mut e1 = Entity1 { id: 0, prop1: String::from("First Sibling") };
    e1.save_next(&mut db)?;
    let e2_1 = Entity2::get(&String::from("id1"), &db)?.unwrap();
    let e2_3 = Entity2::get(&String::from("id3"), &db)?.unwrap();
    e1.create_relation(&e2_1, DeletionBehaviour::Cascade, DeletionBehaviour::Cascade, &mut db)?;
    e1.create_relation(&e2_3, DeletionBehaviour::Cascade, DeletionBehaviour::Cascade, &mut db)?;
    let links = reindeer::relation::relations_tree_name();
    assert_eq!(reindeer::store::scan_all(&db, &links)?.len(), 4);
    Entity1::remove(&e1.get_key(), &mut db)?;
    assert!(Entity1::get(&3, &db)?.is_none());
    assert!(Entity2::get(&String::from("id1"), &db)?.is_none());
    assert!(Entity2::get(&String::from("id3"), &db)?.is_none());
    assert_eq!(Entity2::get_number(&db)?, 1);
    assert_eq!(ChildEntity1::get_number(&db)?, 0);
    assert_eq!(reindeer::store::scan_all(&db, &links)?.len(), 0);
    assert_eq!(Entity1::get_number(&db)?, 3);
    tear_down(db)?;
    Ok(())
}

#[test]
fn refused_deletion_keeps_records_and_links() -> Result<(), StoreError> {
    let name = get_random_name();
    let mut db = set_up(&name)?;
    set_up_content(&mut db)?;
    let mut e1 = Entity1 { id: 0, prop1: String::from("First Sibling") };
    e1.save_next(&mut db)?;
    let e2_1 = Entity2::get(&String::from("id1"), &db)?.unwrap();
    let e2_3 = Entity2::get(&String::from("id3"), &db)?.unwrap();
    e1.create_relation(&e2_1, DeletionBehaviour::Cascade, DeletionBehaviour::Error, &mut db)?;
    e1.create_relation(&e2_3, DeletionBehaviour::Cascade, DeletionBehaviour::Error, &mut db)?;
    let links = reindeer::relation::relations_tree_name();
    let before = reindeer::store::scan_all(&db, &links)?;
    assert_eq!(before.len(), 4);
    let failure = Entity2::remove(&String::from("id1"), &mut db).unwrap_err();
    assert_eq!(failure.kind(), ErrorKind::PolicyViolation);
    assert_eq!(Entity1::get(&3, &db)?, Some(e1.clone()));
    assert_eq!(Entity2::get(&String::from("id1"), &db)?, Some(e2_1));
    assert_eq!(reindeer::store::scan_all(&db, &links)?, before);
    assert_eq!(ChildEntity1::get_number(&db)?, 3);
    tear_down(db)?;
    Ok(())
}

#[test]
fn auto_increment_starts_at_zero() -> Result<(), StoreError> {
    let name = get_random_name();
    let mut db = set_up(&name)?;
    let mut first = Entity1 { id: 9, prop1: String::from("a") };
    let mut second = Entity1 { id: 9, prop1: String::from("b") };
    assert_eq!(first.save_next(&mut db)?, 0);
    assert_eq!(second.save_next(&mut db)?, 1);
    assert_eq!(Entity1::get(&0, &db)?, Some(first));
    assert_eq!(Entity1::get(&1, &db)?, Some(second));
    assert_eq!(Entity1::get(&8, &db)?, None);
    tear_down(db)?;
    Ok(())
}

#[test]
fn self_link_keeps_the_policy_given_last() -> Result<(), StoreError> {
    let name = get_random_name();
    let mut db = set_up(&name)?;
    let e = Entity2 { id: String::from("solo"), prop2: 1 };
    e.save(&mut db)?;
    e.create_relation(&e, DeletionBehaviour::Cascade, DeletionBehaviour::Error, &mut db)?;
    let links = reindeer::relation::relations_tree_name();
    let halves = reindeer::store::scan_all(&db, &links)?;
    assert_eq!(halves.len(), 1);
    assert_eq!(halves[0].1, vec![1, 0]);
    assert_eq!(e.get_related::<Entity2>(&db)?, vec![e.clone()]);
    Entity2::remove(&String::from("solo"), &mut db)?;
    assert_eq!(Entity2::get_number(&db)?, 0);
    assert_eq!(reindeer::store::scan_all(&db, &links)?.len(), 0);
    tear_down(db)?;
    Ok(())
}
