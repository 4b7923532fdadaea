use std::time::{SystemTime, UNIX_EPOCH};
use stickerbook::recent_model::DEFAULT_MAX_ITEMS;
use stickerbook::recent_store::{RecentItem, RecentStore, SavedStore};

fn paths(store: &RecentStore) -> Vec<String> {
    store.items().iter().map(|item| item.path.clone()).collect()
}

fn records(store: &RecentStore) -> Vec<(String, u64)> {
    store.items().iter().map(|item| (item.path.clone(), item.timestamp)).collect()
}

fn record(path: &str, timestamp: u64) -> RecentItem {
    RecentItem { path: path.to_string(), timestamp }
}

fn pair(path: &str, timestamp: u64) -> (String, u64) {
    (path.to_string(), timestamp)
}

#[test]
fn new_store_is_empty() {
    let store = RecentStore::new(7);
    assert!(store.items().is_empty());
    assert_eq!(store.save().max_items, 7);
}

#[test]
fn touching_a_known_path_moves_it_to_the_front() {
    let mut store = RecentStore::new(3);
    store.add("a".to_string());
    store.add("b".to_string());
    store.add("c".to_string());
    store.add("a".to_string());
    assert_eq!(paths(&store), vec!["a", "c", "b"]);
}

#[test]
fn touching_beyond_capacity_evicts_the_oldest() {
    let mut store = RecentStore::new(2);
    store.add("a".to_string());
    store.add("b".to_string());
    store.add("c".to_string());
    assert_eq!(paths(&store), vec!["c", "b"]);
}

#[test]
fn add_at_keeps_the_given_timestamps() {
    let mut store = RecentStore::new(3);
    store.add_at("a".to_string(), 10);
    store.add_at("b".to_string(), 20);
    store.add_at("c".to_string(), 30);
    store.add_at("a".to_string(), 40);
    assert_eq!(records(&store), vec![pair("a", 40), pair("c", 30), pair("b", 20)]);
}

#[test]
fn touched_path_is_first() {
    let mut store = RecentStore::new(4);
    for (n, path) in ["x", "y", "z", "y", "x", "w", "v"].iter().enumerate() {
        store.add_at(path.to_string(), n as u64);
        assert_eq!(store.items()[0].path, *path);
        assert_eq!(store.items()[0].timestamp, n as u64);
    }
}

#[test]
fn no_path_occurs_twice_and_the_capacity_holds() {
    let mut store = RecentStore::new(3);
    let touched = ["a", "b", "a", "c", "d", "b", "b", "a", "e", "c", "a"];
    for (n, path) in touched.iter().enumerate() {
        store.add_at(path.to_string(), n as u64);
        let seen = paths(&store);
        assert!(seen.len() <= 3);
        for i in 0..seen.len() {
            for j in (i + 1)..seen.len() {
                assert_ne!(seen[i], seen[j]);
            }
        }
    }
    assert_eq!(paths(&store), vec!["a", "c", "e"]);
}

#[test]
fn one_touch_more_than_capacity_leaves_the_most_recent() {
    let mut store = RecentStore::new(3);
    store.add_at("old".to_string(), 1);
    for (n, path) in ["first", "second", "third", "fourth"].iter().enumerate() {
        store.add_at(path.to_string(), 10 + n as u64);
    }
    assert_eq!(records(&store), vec![pair("fourth", 13), pair("third", 12), pair("second", 11)]);
}

#[test]
fn touching_again_only_renews_the_timestamp() {
    let mut once = RecentStore::new(3);
    let mut twice = RecentStore::new(3);
    for store in [&mut once, &mut twice] {
        store.add_at("a".to_string(), 1);
        store.add_at("b".to_string(), 2);
    }
    once.add_at("a".to_string(), 9);
    twice.add_at("a".to_string(), 5);
    twice.add_at("a".to_string(), 9);
    assert_eq!(records(&once), records(&twice));
    assert_eq!(records(&twice), vec![pair("a", 9), pair("b", 2)]);
}

#[test]
fn store_without_room_stays_empty() {
    let mut store = RecentStore::new(0);
    store.add_at("a".to_string(), 1);
    store.add("b".to_string());
    assert!(store.items().is_empty());
}

#[test]
fn store_of_one_keeps_the_last_touched() {
    let mut store = RecentStore::new(1);
    store.add_at("a".to_string(), 1);
    store.add_at("b".to_string(), 2);
    assert_eq!(records(&store), vec![pair("b", 2)]);
}

#[test]
fn remove_takes_the_path_out_wherever_it_stands() {
    for gone in ["a", "b", "c"] {
        let mut store = RecentStore::new(5);
        store.add_at("a".to_string(), 1);
        store.add_at("b".to_string(), 2);
        store.add_at("c".to_string(), 3);
        store.remove(gone);
        let left = paths(&store);
        assert_eq!(left.len(), 2);
        assert!(!left.iter().any(|path| path == gone));
        let expected: Vec<&str> = ["c", "b", "a"].into_iter().filter(|path| *path != gone).collect();
        assert_eq!(left, expected);
    }
}

#[test]
fn remove_of_a_missing_path_changes_nothing() {
    let mut store = RecentStore::new(5);
    store.add_at("a".to_string(), 1);
    store.add_at("b".to_string(), 2);
    store.remove("zzz");
    assert_eq!(records(&store), vec![pair("b", 2), pair("a", 1)]);
    let mut empty = RecentStore::new(2);
    empty.remove("a");
    assert!(empty.items().is_empty());
}

#[test]
fn removed_path_can_come_back() {
    let mut store = RecentStore::new(2);
    store.add_at("a".to_string(), 1);
    store.add_at("b".to_string(), 2);
    store.remove("a");
    store.add_at("c".to_string(), 3);
    store.add_at("a".to_string(), 4);
    assert_eq!(records(&store), vec![pair("a", 4), pair("c", 3)]);
}

#[test]
fn add_stamps_with_the_system_clock() {
    let before = SystemTime::now().duration_since(UNIX_EPOCH).unwrap().as_secs();
    let mut store = RecentStore::new(2);
    store.add("a".to_string());
    let after = SystemTime::now().duration_since(UNIX_EPOCH).unwrap().as_secs();
    let stamped = store.items()[0].timestamp;
    assert!(before <= stamped && stamped <= after);
    assert!(stamped > 1_600_000_000);
}

#[test]
fn save_gives_the_records_and_the_capacity() {
    let mut store = RecentStore::new(4);
    store.add_at("a".to_string(), 1);
    store.add_at("b".to_string(), 2);
    let saved = store.save();
    assert_eq!(saved.max_items, 4);
    let kept: Vec<(String, u64)> =
        saved.items.iter().map(|item| (item.path.clone(), item.timestamp)).collect();
    assert_eq!(kept, vec![pair("b", 2), pair("a", 1)]);
    assert_eq!(records(&store), kept);
}

#[test]
fn saved_store_loads_as_it_was() {
    let mut store = RecentStore::new(3);
    store.add_at("a".to_string(), 1);
    store.add_at("b".to_string(), 2);
    store.add_at("c".to_string(), 3);
    store.remove("b");
    let again = RecentStore::load(Some(store.save()));
    assert_eq!(records(&again), records(&store));
    assert_eq!(again.save().max_items, 3);
    let mut grown = again;
    grown.add_at("d".to_string(), 4);
    grown.add_at("e".to_string(), 5);
    assert_eq!(paths(&grown), vec!["e", "d", "c"]);
}

#[test]
fn loading_nothing_gives_an_empty_store_of_fifty() {
    let store = RecentStore::load(None);
    assert!(store.items().is_empty());
    assert_eq!(store.save().max_items, 50);
    assert_eq!(DEFAULT_MAX_ITEMS, 50);
}

#[test]
fn loading_a_path_twice_falls_back() {
    let saved = SavedStore {
        items: vec![record("a", 3), record("b", 2), record("a", 1)],
        max_items: 10,
    };
    let store = RecentStore::load(Some(saved));
    assert!(store.items().is_empty());
    assert_eq!(store.save().max_items, 50);
}

#[test]
fn loading_more_records_than_capacity_falls_back() {
    let saved = SavedStore { items: vec![record("a", 3), record("b", 2)], max_items: 1 };
    let store = RecentStore::load(Some(saved));
    assert!(store.items().is_empty());
    assert_eq!(store.save().max_items, 50);
}

#[test]
fn loading_a_full_list_keeps_it() {
    let saved = SavedStore { items: vec![record("a", 3), record("b", 2)], max_items: 2 };
    let store = RecentStore::load(Some(saved));
    assert_eq!(records(&store), vec![pair("a", 3), pair("b", 2)]);
    assert_eq!(store.save().max_items, 2);
    let one = RecentStore::load(Some(SavedStore { items: vec![], max_items: 1 }));
    assert!(one.items().is_empty());
    assert_eq!(one.save().max_items, 1);
}

#[test]
fn loading_a_capacity_of_zero_falls_back() {
    let store = RecentStore::load(Some(SavedStore { items: vec![], max_items: 0 }));
    assert!(store.items().is_empty());
    assert_eq!(store.save().max_items, 50);
    let again = RecentStore::load(Some(RecentStore::new(0).save()));
    assert!(again.items().is_empty());
    assert_eq!(again.save().max_items, 50);
}

#[test]
fn loaded_store_can_always_hold_a_record() {
    let saved: [Option<SavedStore>; 4] = [
        None,
        Some(SavedStore { items: vec![], max_items: 0 }),
        Some(SavedStore { items: vec![record("a", 1), record("a", 2)], max_items: 5 }),
        Some(SavedStore { items: vec![record("a", 1)], max_items: 1 }),
    ];
    for left in saved {
        let mut store = RecentStore::load(left);
        assert!(store.save().max_items >= 1);
        store.add_at("fresh".to_string(), 9);
        assert_eq!(store.items()[0].path, "fresh");
    }
}

#[test]
fn rising_timestamps_keep_the_newest_first() {
    let mut store = RecentStore::new(3);
    for (n, path) in ["a", "b", "a", "c", "d", "b"].iter().enumerate() {
        store.add_at(path.to_string(), 100 + n as u64);
        let times: Vec<u64> = store.items().iter().map(|item| item.timestamp).collect();
        assert!(times.windows(2).all(|pair| pair[0] >= pair[1]));
    }
    assert_eq!(records(&store), vec![pair("b", 105), pair("d", 104), pair("c", 103)]);
    store.remove("d");
    assert_eq!(records(&store), vec![pair("b", 105), pair("c", 103)]);
}

#[test]
fn store_shows_its_records_when_printed() {
    let mut store = RecentStore::new(2);
    store.add_at("a.png".to_string(), 1);
    let printed = format!("{:?}", store);
    assert!(printed.contains("a.png"));
    assert!(printed.contains("max_items"));
}

#[test]
fn cloned_record_equals_the_record() {
    let item = record("sticker.gif", 77);
    let copy = item.clone();
    assert_eq!(copy.path, "sticker.gif");
    assert_eq!(copy.timestamp, 77);
    assert_eq!(format!("{:?}", copy), format!("{:?}", item));
}

#[test]
fn paths_differ_by_case_and_by_length() {
    let mut store = RecentStore::new(5);
    store.add_at("a".to_string(), 1);
    store.add_at("A".to_string(), 2);
    store.add_at("aa".to_string(), 3);
    store.add_at("".to_string(), 4);
    assert_eq!(paths(&store), vec!["", "aa", "A", "a"]);
    store.remove("");
    assert_eq!(paths(&store), vec!["aa", "A", "a"]);
}
