//! The list of recently used stickers: bounded, most recent first, one
//! record per path.

use crate::clock::unix_seconds;
use crate::recent_model::{
    at_other_path, distinct_paths, lemma_filter_keeps_passing, lemma_filter_skips_failing,
    lemma_remove_wf, lemma_touch_wf, ItemModel, StoreModel, DEFAULT_MAX_ITEMS,
};
use vstd::prelude::*;

verus! {

/// A sticker that was used, and when.
#[derive(Debug)]
pub struct RecentItem {
    pub path: String,
    /// Seconds since the Unix epoch.
    pub timestamp: u64,
}

impl View for RecentItem {
    type V = ItemModel;

    open spec fn view(&self) -> ItemModel {
        ItemModel { path: self.path@, timestamp: self.timestamp }
    }
}

impl Clone for RecentItem {
    fn clone(&self) -> (copy: Self)
        ensures
            copy@ == self@,
    {
        RecentItem { path: self.path.clone(), timestamp: self.timestamp }
    }
}

/// The records of `items` as contracts see them.
pub open spec fn item_models(items: Seq<RecentItem>) -> Seq<ItemModel> {
    items.map_values(|item: RecentItem| item@)
}

/// What a store leaves behind for the next run: its records, most recent
/// first, and its capacity.
#[derive(Debug)]
pub struct SavedStore {
    pub items: Vec<RecentItem>,
    pub max_items: usize,
}

impl View for SavedStore {
    type V = StoreModel;

    open spec fn view(&self) -> StoreModel {
        StoreModel { items: item_models(self.items@), capacity: self.max_items as nat }
    }
}

/// The view of what was left behind, if anything was.
pub open spec fn saved_model(saved: Option<SavedStore>) -> Option<StoreModel> {
    match saved {
        Some(left) => Some(left@),
        None => None,
    }
}

/// Takes the records at `path` out of `items` and keeps the others in
/// their order.
fn drop_path(items: &mut Vec<RecentItem>, path: &String)
    ensures
        item_models(final(items)@) == item_models(old(items)@).filter(at_other_path(path@)),
{
    let ghost pred = at_other_path(path@);
    let mut i: usize = 0;
    while i < items.len()
        invariant
            i <= items.len(),
            pred == at_other_path(path@),
            item_models(items@).filter(pred) == item_models(old(items)@).filter(pred),
            forall|k: int| 0 <= k < i ==> pred(#[trigger] item_models(items@)[k]),
        decreases items.len() - i,
    {
        if items[i].path == *path {
            proof {
                lemma_filter_skips_failing(item_models(items@), pred, i as int);
                assert(item_models(items@.remove(i as int)) =~= item_models(items@).remove(
                    i as int,
                ));
            }
            items.remove(i);
        } else {
            i += 1;
        }
    }
    proof {
        lemma_filter_keeps_passing(item_models(items@), pred);
    }
}

/// Whether no two records of `items` share a path.
fn has_distinct_paths(items: &Vec<RecentItem>) -> (distinct: bool)
    ensures
        distinct == distinct_paths(item_models(items@)),
{
    let ghost models = item_models(items@);
    let mut j: usize = 0;
    while j < items.len()
        invariant
            j <= items.len(),
            models == item_models(items@),
            forall|a: int, b: int| 0 <= a < b < j ==> models[a].path != models[b].path,
        decreases items.len() - j,
    {
        let mut i: usize = 0;
        while i < j
            invariant
                i <= j < items.len(),
                models == item_models(items@),
                forall|a: int| 0 <= a < i ==> models[a].path != models[j as int].path,
            decreases j - i,
        {
            if items[i].path == items[j].path {
                assert(models[i as int].path == models[j as int].path);
                return false;
            }
            i += 1;
        }
        j += 1;
    }
    true
}

/// The stickers used most recently, most recent first.
#[derive(Debug)]
pub struct RecentStore {
    items: Vec<RecentItem>,
    max_items: usize,
}

impl View for RecentStore {
    type V = StoreModel;

    closed spec fn view(&self) -> StoreModel {
        StoreModel { items: item_models(self.items@), capacity: self.max_items as nat }
    }
}

impl RecentStore {
    #[verifier::type_invariant]
    spec fn inv(self) -> bool {
        self@.wf()
    }

    /// An empty store that keeps at most `max_items` records.
    pub fn new(max_items: usize) -> (store: Self)
        ensures
            store@ == StoreModel::empty(max_items as nat),
    {
        let store = RecentStore { items: Vec::new(), max_items };
        assert(store@.items =~= Seq::empty());
        store
    }

    /// The store that a run starts from, given what the last run left
    /// behind, if anything: the same records and capacity where no path
    /// occurs twice, the records are within the capacity and the capacity is
    /// at least 1, else an empty store of capacity [`DEFAULT_MAX_ITEMS`].
    pub fn load(saved: Option<SavedStore>) -> (store: Self)
        ensures
            store@ == StoreModel::restored(saved_model(saved)),
            store@.wf(),
            store@.capacity >= 1,
    {
        match saved {
            Some(left) => {
                if left.max_items >= 1 && left.items.len() <= left.max_items
                    && has_distinct_paths(&left.items) {
                    RecentStore { items: left.items, max_items: left.max_items }
                } else {
                    RecentStore::new(DEFAULT_MAX_ITEMS)
                }
            },
            None => RecentStore::new(DEFAULT_MAX_ITEMS),
        }
    }

    /// What the store leaves behind for the next run: a copy of its records,
    /// in their order, and its capacity.
    pub fn save(&self) -> (saved: SavedStore)
        ensures
            saved@ == self@,
    {
        let mut items: Vec<RecentItem> = Vec::new();
        let mut i: usize = 0;
        while i < self.items.len()
            invariant
                i <= self.items.len(),
                item_models(items@) == item_models(self.items@).take(i as int),
            decreases self.items.len() - i,
        {
            let copy = self.items[i].clone();
            proof {
                assert(copy@ == self.items@[i as int]@);
                assert(item_models(items@.push(copy)) =~= item_models(items@).push(copy@));
                assert(item_models(self.items@).take(i + 1) =~= item_models(self.items@).take(
                    i as int,
                ).push(copy@));
            }
            items.push(copy);
            i += 1;
        }
        proof {
            assert(item_models(self.items@).take(i as int) =~= item_models(self.items@));
        }
        SavedStore { items, max_items: self.max_items }
    }

    /// Records that `path` was used at `timestamp`: its record, if there is
    /// one, leaves its place; a fresh record goes to the front; and the
    /// oldest records fall off the end as far as the capacity is exceeded.
    pub fn add_at(&mut self, path: String, timestamp: u64)
        ensures
            final(self)@ == old(self)@.touch(path@, timestamp),
            final(self)@.wf(),
    {
        proof {
            use_type_invariant(&*self);
        }
        let ghost before = self@;
        let mut items: Vec<RecentItem> = Vec::new();
        std::mem::swap(&mut items, &mut self.items);
        drop_path(&mut items, &path);
        let ghost rest = item_models(items@);
        let ghost fresh = ItemModel { path: path@, timestamp };
        items.insert(0, RecentItem { path, timestamp });
        proof {
            assert(item_models(items@) =~= seq![fresh] + rest);
        }
        if items.len() > self.max_items {
            let ghost moved = items@;
            items.truncate(self.max_items);
            proof {
                assert(item_models(items@) =~= item_models(moved).take(self.max_items as int));
            }
        }
        proof {
            lemma_touch_wf(before, fresh.path, timestamp);
        }
        self.items = items;
    }

    /// Records that `path` was used now, by the system clock, as
    /// [`RecentStore::add_at`] does for the clock's reading.
    pub fn add(&mut self, path: String)
        ensures
            exists|timestamp: u64| final(self)@ == #[trigger] old(self)@.touch(path@, timestamp),
            final(self)@.wf(),
    {
        let timestamp = unix_seconds();
        self.add_at(path, timestamp);
    }

    /// Takes the record at `path` out of the list, if there is one.
    pub fn remove(&mut self, path: &str)
        ensures
            final(self)@ == old(self)@.remove(path@),
            final(self)@.wf(),
    {
        proof {
            use_type_invariant(&*self);
        }
        let ghost before = self@;
        let key = path.to_owned();
        let mut items: Vec<RecentItem> = Vec::new();
        std::mem::swap(&mut items, &mut self.items);
        drop_path(&mut items, &key);
        proof {
            lemma_remove_wf(before, path@);
        }
        self.items = items;
    }

    /// The records, most recent first.
    pub fn items(&self) -> (items: &[RecentItem])
        ensures
            item_models(items@) == self@.items,
            self@.wf(),
    {
        proof {
            use_type_invariant(self);
        }
        self.items.as_slice()
    }
}

} // verus!
