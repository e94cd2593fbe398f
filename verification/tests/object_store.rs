use glass::ident::Id;
use glass::rainfusion::Mod;
use glass::rainfusion::ModDependency;
use glass::rainfusion::ModType;
use glass::store::Store;
use glass::store::current_object_count;

fn id(v: u128) -> Id {
    Id { value: v }
}

fn full_mod(name: &str) -> Mod {
    Mod {
        name: Some(name.to_owned()),
        author: Some("Example Author".to_owned()),
        img_url: Some("localhost".to_owned()),
        summary: Some("Example Summary".to_owned()),
        description: Some("Example Description".to_owned()),
        version: Some("0.1.0".to_owned()),
        item_type: ModType::Mod,
        dependencies: Some(vec![]),
        tags: Some(vec!["test".to_owned()]),
    }
}

#[test]
fn test_insert_retrieve_remove() {
    // insert a "Mod" record under an explicit identifier, read it back
    // unchanged, then remove it and find the store empty again
    let mut store = Store::new("mods".to_owned());
    let rid = id(0x426497c2_1f94_4a75_889f_ecc04629da1d);
    let record = full_mod("Example Mod");
    let got = store.insert(&record, Some(rid)).unwrap();
    assert_eq!(got, rid);
    assert_eq!(store.retrieve_typed(rid), record);
    assert_eq!(store.count(), 1);
    store.remove(rid);
    assert_eq!(store.count(), 0);
    assert_eq!(store.retrieve(rid), Vec::<(String, String)>::new());
}

#[test]
fn test_insert_with_dependencies() {
    let mut store = Store::new("mods".to_owned());
    let mut record = full_mod("With Deps");
    record.dependencies = Some(vec![(
        id(0x2b770fa6_749f_4aee_b49d_7bc4a0fe5dbe),
        ModDependency {
            name: "Example Dependency".to_string(),
            summary: "Example Summary".to_string(),
            version: "0.0.1".to_string(),
        },
    )]);
    let rid = store.insert(&record, None).unwrap();
    assert_ne!(rid, Id::nil());
    assert_eq!(store.retrieve_typed(rid), record);
}

#[test]
fn test_count_restored_after_insert_remove() {
    let mut store = Store::new("mods".to_owned());
    store.insert(&full_mod("one"), Some(id(1))).unwrap();
    store.insert(&full_mod("two"), Some(id(2))).unwrap();
    let before = store.count();
    store.insert(&full_mod("three"), Some(id(3))).unwrap();
    store.remove(id(3));
    assert_eq!(store.count(), before);
    assert_eq!(store.retrieve(id(3)), Vec::<(String, String)>::new());
    assert_eq!(current_object_count(&store), 2);
}

#[test]
fn test_edit_isolates_fields() {
    let mut store = Store::new("mods".to_owned());
    let rid = id(11);
    store.insert(&full_mod("Example Mod"), Some(rid)).unwrap();
    let before = store.retrieve(rid);
    store.edit(
        rid,
        vec![("summary".to_owned(), "Updated Summary".to_owned())],
    );
    let after = store.retrieve(rid);
    assert_eq!(after.len(), before.len());
    for (b, a) in before.iter().zip(after.iter()) {
        assert_eq!(b.0, a.0);
        if b.0 == "summary" {
            assert_eq!(a.1, "Updated Summary");
        } else {
            assert_eq!(b.1, a.1);
        }
    }
    // the ordering entry is untouched
    assert_eq!(store.count(), 1);
}

#[test]
fn test_edit_absent_creates_bag() {
    let mut store = Store::new("mods".to_owned());
    store.edit(id(5), vec![("name".to_owned(), "ghosted".to_owned())]);
    assert_eq!(
        store.retrieve(id(5)),
        vec![("name".to_owned(), "ghosted".to_owned())]
    );
    // no ordering entry was created
    assert_eq!(store.count(), 0);
}

#[test]
fn test_pagination_completeness() {
    // pages 1..k, sentinel markers stripped, reproduce all() exactly
    let mut store = Store::new("mods".to_owned());
    for i in 0..10u128 {
        store.insert(&full_mod(&format!("mod {}", i)), Some(id(i + 1))).unwrap();
    }
    let everything = store.all();
    assert_eq!(everything.len(), 10);
    let mut joined: Vec<(Id, Vec<(String, String)>)> = Vec::new();
    for n in 1..=2isize {
        for row in store.page(n) {
            if row.0 != Id::nil() {
                joined.push(row);
            }
        }
    }
    assert_eq!(joined, everything);
}

#[test]
fn test_page_sentinel() {
    let mut store = Store::new("mods".to_owned());
    for i in 0..10u128 {
        store.insert(&full_mod(&format!("mod {}", i)), Some(id(i + 1))).unwrap();
    }
    let page1 = store.page(1);
    // a full page whose window misses the last identifier has no sentinel
    assert_eq!(page1.len(), 8);
    let page2 = store.page(2);
    // the page holding the last identifier ends with the sentinel row
    assert_eq!(page2.len(), 3);
    assert_eq!(page2[2].0, Id::nil());
    assert_eq!(page2[2].1, Vec::<(String, String)>::new());
}

#[test]
fn test_first_last_sentinels() {
    let mut store = Store::new("mods".to_owned());
    assert_eq!(store.first(), Id::nil());
    assert_eq!(store.last(), Id::nil());
    store.insert(&full_mod("a"), Some(id(1))).unwrap();
    store.insert(&full_mod("b"), Some(id(2))).unwrap();
    assert_eq!(store.first(), id(1));
    assert_eq!(store.last(), id(2));
}

#[test]
fn test_duplicate_insert_keeps_one_bag() {
    // inserting twice under one identifier makes two ordering entries
    // pointing at one bag; nothing guards against the reuse
    let mut store = Store::new("mods".to_owned());
    let rid = id(77);
    store.insert(&full_mod("first"), Some(rid)).unwrap();
    store.insert(&full_mod("second"), Some(rid)).unwrap();
    assert_eq!(store.count(), 2);
    assert_eq!(store.retrieve_typed(rid), full_mod("second"));
    store.remove(rid);
    assert_eq!(store.count(), 0);
}

#[test]
fn test_retrieve_absent_is_empty() {
    let store = Store::new("mods".to_owned());
    assert_eq!(store.retrieve(id(123)), Vec::<(String, String)>::new());
    assert_eq!(store.retrieve_typed(id(123)), Mod::new());
}

#[test]
fn test_index_name() {
    let store = Store::new("mods".to_owned());
    assert_eq!(store.index_name(), "mods");
}
