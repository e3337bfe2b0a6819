use quizlate::card::Card;
use quizlate::catalogue::Catalogue;
use quizlate::list_item::ListItem;
use quizlate::storage::Storage;
use quizlate::storage::StorageError;
use quizlate::study_set::StudySet;

fn sample_set(name: &str, tags: &[&str], words: &[(&str, &str)]) -> StudySet {
    let mut s = StudySet::new(name.to_string());
    for t in tags {
        s.add_tag(t.to_string());
    }
    for (i, (w, a)) in words.iter().enumerate() {
        s.add_card(Card::new(i, w.to_string(), a.to_string(), String::new()));
    }
    s
}

#[test]
fn add_study_set_creates_item_and_file() {
    let mut cat = Catalogue::new();
    let mut store = Storage::new();
    let s = sample_set("greek", &["lang"], &[("alpha", "a")]);
    cat.add_study_set(&mut store, s, 0);
    assert_eq!(cat.get_num_of_items(), 1);
    let items = cat.get_inventory();
    assert_eq!(items[0].get_id(), 0);
    assert_eq!(items[0].get_name(), "greek");
    assert_eq!(items[0].get_all_tags(), vec!["lang".to_string()]);
    assert_eq!(items[0].get_num_of_cards(), 1);
    let read = store.read_set_file("greek".to_string()).unwrap();
    assert_eq!(read.get_set_name(), "greek");
    assert_eq!(read.get_num_of_cards(), 1);
}

#[test]
fn catalogue_all_tags_dedup_first_seen_order() {
    let mut cat = Catalogue::new();
    let mut store = Storage::new();
    cat.add_study_set(&mut store, sample_set("s1", &["b", "a"], &[]), 0);
    cat.add_study_set(&mut store, sample_set("s2", &["a", "c"], &[]), 1);
    assert_eq!(
        cat.get_all_tags(),
        vec!["b".to_string(), "a".to_string(), "c".to_string()]
    );
}

#[test]
fn get_items_by_tags_filters_in_order() {
    let mut cat = Catalogue::new();
    let mut store = Storage::new();
    cat.add_study_set(&mut store, sample_set("s1", &["a"], &[]), 0);
    cat.add_study_set(&mut store, sample_set("s2", &["b"], &[]), 1);
    cat.add_study_set(&mut store, sample_set("s3", &["a", "b"], &[]), 2);
    let any = cat.get_items_by_tags(vec!["a".to_string()], true);
    assert_eq!(any.len(), 2);
    assert_eq!(any[0].get_name(), "s1");
    assert_eq!(any[1].get_name(), "s3");
    let all = cat.get_items_by_tags(vec!["a".to_string(), "b".to_string()], false);
    assert_eq!(all.len(), 1);
    assert_eq!(all[0].get_name(), "s3");
    // With no tags: all-match keeps everything, any-match keeps nothing.
    assert_eq!(cat.get_items_by_tags(vec![], false).len(), 3);
    assert_eq!(cat.get_items_by_tags(vec![], true).len(), 0);
}

#[test]
fn untagged_sets_are_listed() {
    let mut cat = Catalogue::new();
    let mut store = Storage::new();
    cat.add_study_set(&mut store, sample_set("plain", &[], &[]), 0);
    cat.add_study_set(&mut store, sample_set("tagged", &["t"], &[]), 1);
    let untagged = cat.get_all_untagged_study_sets();
    assert_eq!(untagged.len(), 1);
    assert_eq!(untagged[0].get_name(), "plain");
}

#[test]
fn get_item_by_id_returns_first_match_or_empty() {
    let mut cat = Catalogue::new();
    let mut store = Storage::new();
    cat.add_study_set(&mut store, sample_set("s1", &[], &[]), 0);
    cat.add_study_set(&mut store, sample_set("s2", &[], &[]), 1);
    let hit = cat.get_item_by_id(1);
    assert_eq!(hit.len(), 1);
    assert_eq!(hit[0].get_name(), "s2");
    assert_eq!(cat.get_item_by_id(9).len(), 0);
}

#[test]
fn update_set_with_rename_moves_file_and_rewrites_item() {
    // After an update that changes the name, the old file is gone, the new
    // file holds the full new contents, and the summary mirrors them.
    let mut cat = Catalogue::new();
    let mut store = Storage::new();
    cat.add_study_set(&mut store, sample_set("old_name", &[], &[("w", "a")]), 0);
    let mut s = store.read_set_file("old_name".to_string()).unwrap();
    s.rename_set("new_name".to_string());
    s.add_tag("fresh".to_string());
    s.add_card(Card::new(1, "w2".to_string(), "a2".to_string(), String::new()));
    assert!(cat.update_set(&mut store, 0, s).is_ok());
    assert!(matches!(
        store.read_set_file("old_name".to_string()),
        Err(StorageError::NotFound)
    ));
    let read = store.read_set_file("new_name".to_string()).unwrap();
    assert_eq!(read.get_set_name(), "new_name");
    assert_eq!(read.get_num_of_cards(), 2);
    assert_eq!(read.get_all_tags(), vec!["fresh".to_string()]);
    let items = cat.get_inventory();
    assert_eq!(items[0].get_name(), "new_name");
    assert_eq!(items[0].get_all_tags(), vec!["fresh".to_string()]);
    assert_eq!(items[0].get_num_of_cards(), 2);
}

#[test]
fn update_set_rename_onto_existing_name_is_refused() {
    let mut cat = Catalogue::new();
    let mut store = Storage::new();
    cat.add_study_set(&mut store, sample_set("first", &[], &[]), 0);
    cat.add_study_set(&mut store, sample_set("second", &[], &[]), 1);
    let mut s = store.read_set_file("first".to_string()).unwrap();
    s.rename_set("second".to_string());
    assert_eq!(
        cat.update_set(&mut store, 0, s),
        Err(StorageError::AlreadyExists)
    );
    // Nothing moved: both files still exist under their old names.
    assert!(store.read_set_file("first".to_string()).is_ok());
    assert!(store.read_set_file("second".to_string()).is_ok());
    assert_eq!(cat.get_inventory()[0].get_name(), "first");
}

#[test]
fn update_set_of_unknown_id_changes_nothing() {
    let mut cat = Catalogue::new();
    let mut store = Storage::new();
    cat.add_study_set(&mut store, sample_set("only", &[], &[]), 0);
    let s = sample_set("only", &[], &[("w", "a")]);
    assert!(cat.update_set(&mut store, 42, s).is_ok());
    assert_eq!(store.read_set_file("only".to_string()).unwrap().get_num_of_cards(), 0);
}

#[test]
fn delete_item_renumbers_and_removes_file() {
    // Deleting position 1 of 3 leaves ids 0..1 in the original relative
    // order, with the backing file removed.
    let mut cat = Catalogue::new();
    let mut store = Storage::new();
    cat.add_study_set(&mut store, sample_set("s1", &[], &[]), 0);
    cat.add_study_set(&mut store, sample_set("s2", &[], &[]), 1);
    cat.add_study_set(&mut store, sample_set("s3", &[], &[]), 2);
    assert!(cat.delete_item_by_id(&mut store, 1).is_ok());
    let items = cat.get_inventory();
    assert_eq!(items.len(), 2);
    assert_eq!(items[0].get_id(), 0);
    assert_eq!(items[0].get_name(), "s1");
    assert_eq!(items[1].get_id(), 1);
    assert_eq!(items[1].get_name(), "s3");
    assert!(matches!(
        store.read_set_file("s2".to_string()),
        Err(StorageError::NotFound)
    ));
    assert!(store.read_set_file("s1".to_string()).is_ok());
    assert!(store.read_set_file("s3".to_string()).is_ok());
}

#[test]
fn delete_item_without_backing_file_is_refused() {
    let mut cat = Catalogue::new();
    let mut store = Storage::new();
    let orphan = ListItem::new(0, "ghostly".to_string(), vec![], 0);
    cat = Catalogue::from_items(vec![orphan]);
    assert_eq!(
        cat.delete_item_by_id(&mut store, 0),
        Err(StorageError::NotFound)
    );
    assert_eq!(cat.get_num_of_items(), 1);
}

#[test]
fn storage_error_paths() {
    let mut store = Storage::new();
    assert_eq!(
        store.rename_set_file("absent".to_string(), "other".to_string()),
        Err(StorageError::NotFound)
    );
    assert!(matches!(
        store.read_set_file("absent".to_string()),
        Err(StorageError::NotFound)
    ));
    assert_eq!(
        store.delete_set_file("absent".to_string()),
        Err(StorageError::NotFound)
    );
    let s = sample_set("a", &[], &[]);
    assert_eq!(store.update_set_file(&s), Err(StorageError::NotFound));
    store.create_set_file(&s);
    assert!(store.update_set_file(&s).is_ok());
    let t = sample_set("b", &[], &[]);
    store.create_set_file(&t);
    assert_eq!(
        store.rename_set_file("a".to_string(), "b".to_string()),
        Err(StorageError::AlreadyExists)
    );
    assert!(store.rename_set_file("a".to_string(), "c".to_string()).is_ok());
    assert!(store.read_set_file("a".to_string()).is_err());
    assert!(store.read_set_file("c".to_string()).is_ok());
}

#[test]
fn inventory_round_trips_through_store() {
    let mut cat = Catalogue::new();
    let mut store = Storage::new();
    cat.add_study_set(&mut store, sample_set("s1", &["t"], &[("w", "a")]), 0);
    store.update_inventory(cat.clone());
    let read = store.read_inventory_file();
    assert_eq!(read.get_num_of_items(), 1);
    assert_eq!(read.get_all_names(), vec!["s1".to_string()]);
}

#[test]
fn full_session_scenario() {
    // Start with an empty catalogue; add set "L1" with no tags and two
    // cards; tag it; delete the first card; query by tags.
    let mut cat = Catalogue::new();
    let mut store = Storage::new();
    let mut l1 = StudySet::new("L1".to_string());
    l1.add_card(Card::new(
        0,
        "楽しい".to_string(),
        "たのしい".to_string(),
        String::new(),
    ));
    l1.add_card(Card::new(
        1,
        "難しい".to_string(),
        "むずかしい".to_string(),
        String::new(),
    ));
    cat.add_study_set(&mut store, l1, 0);
    store.update_inventory(cat.clone());

    let inv = store.read_inventory_file().get_inventory();
    assert_eq!(inv.len(), 1);
    assert_eq!(inv[0].get_name(), "L1");
    assert_eq!(inv[0].get_num_of_cards(), 2);
    assert!(inv[0].get_all_tags().is_empty());

    let mut s = store.read_set_file("L1".to_string()).unwrap();
    s.add_tag("JLPT-N5".to_string());
    assert!(cat.update_set(&mut store, 0, s).is_ok());
    store.update_inventory(cat.clone());
    assert_eq!(cat.get_all_tags(), vec!["JLPT-N5".to_string()]);

    let mut s = store.read_set_file("L1".to_string()).unwrap();
    s.delete_card(0);
    assert!(cat.update_set(&mut store, 0, s).is_ok());
    store.update_inventory(cat.clone());

    let back = store.read_set_file("L1".to_string()).unwrap();
    assert_eq!(back.get_num_of_cards(), 1);
    assert_eq!(back.get_card(0).get_id(), 0);
    assert_eq!(back.get_card(0).get_word(), "難しい");

    let hits = cat.get_items_by_tags(vec!["JLPT-N5".to_string()], true);
    assert_eq!(hits.len(), 1);
    assert_eq!(hits[0].get_name(), "L1");
    let misses = cat.get_items_by_tags(vec!["other".to_string()], true);
    assert!(misses.is_empty());
}
