//! The list of recently used stickers as contracts see it, and what holds
//! of it.

use vstd::prelude::*;

verus! {

/// Capacity of the list that a run starts from when nothing usable was left
/// behind.
pub const DEFAULT_MAX_ITEMS: usize = 50;

/// One record of the list: a sticker's path and when it was last used.
pub struct ItemModel {
    pub path: Seq<char>,
    pub timestamp: u64,
}

/// The list: its records, most recent first, and its capacity.
pub struct StoreModel {
    pub items: Seq<ItemModel>,
    pub capacity: nat,
}

/// Holds of the records that lie at another path than `path`.
pub open spec fn at_other_path(path: Seq<char>) -> spec_fn(ItemModel) -> bool {
    |item: ItemModel| item.path != path
}

/// No two records of `items` share a path.
pub open spec fn distinct_paths(items: Seq<ItemModel>) -> bool {
    forall|i: int, j: int| 0 <= i < j < items.len() ==> items[i].path != items[j].path
}

/// The timestamps of `items` never rise from one record to the next: what
/// was used later stands further to the front.
pub open spec fn newest_first(items: Seq<ItemModel>) -> bool {
    forall|i: int, j: int| 0 <= i < j < items.len() ==> items[i].timestamp >= items[j].timestamp
}

/// Some record of `items` lies at `path`.
pub open spec fn holds_path(items: Seq<ItemModel>, path: Seq<char>) -> bool {
    exists|i: int| 0 <= i < items.len() && #[trigger] items[i].path == path
}

impl StoreModel {
    /// The empty list of the given capacity.
    pub open spec fn empty(capacity: nat) -> StoreModel {
        StoreModel { items: Seq::empty(), capacity }
    }

    /// No path occurs twice and the list is within its capacity.
    pub open spec fn wf(self) -> bool {
        &&& distinct_paths(self.items)
        &&& self.items.len() <= self.capacity
    }

    /// The list without the records at `path`.
    pub open spec fn remove(self, path: Seq<char>) -> StoreModel {
        StoreModel { items: self.items.filter(at_other_path(path)), capacity: self.capacity }
    }

    /// The list after `path` was used at `timestamp`: its record moves to the
    /// front, and what no longer fits falls off the end.
    pub open spec fn touch(self, path: Seq<char>, timestamp: u64) -> StoreModel {
        let moved = seq![ItemModel { path, timestamp }] + self.remove(path).items;
        StoreModel {
            items: if moved.len() <= self.capacity {
                moved
            } else {
                moved.take(self.capacity as int)
            },
            capacity: self.capacity,
        }
    }

    /// The list after each record of `uses` was touched in turn, the first
    /// of them first.
    pub open spec fn touch_all(self, uses: Seq<ItemModel>) -> StoreModel
        decreases uses.len(),
    {
        if uses.len() == 0 {
            self
        } else {
            self.touch_all(uses.drop_last()).touch(uses.last().path, uses.last().timestamp)
        }
    }

    /// What was left behind can be taken up again: no path occurs twice, the
    /// records are within the capacity, and the capacity is at least 1.
    pub open spec fn usable(self) -> bool {
        self.wf() && self.capacity >= 1
    }

    /// What a run starts from, given what the last run left behind: that
    /// list where it is usable, else the empty list of capacity
    /// [`DEFAULT_MAX_ITEMS`].
    pub open spec fn restored(saved: Option<StoreModel>) -> StoreModel {
        match saved {
            Some(list) if list.usable() => list,
            _ => StoreModel::empty(DEFAULT_MAX_ITEMS as nat),
        }
    }
}

/// A filter keeps a sequence whose records all pass it.
pub(crate) proof fn lemma_filter_keeps_passing(items: Seq<ItemModel>, pred: spec_fn(ItemModel) -> bool)
    requires
        forall|i: int| 0 <= i < items.len() ==> pred(#[trigger] items[i]),
    ensures
        items.filter(pred) == items,
    decreases items.len(),
{
    reveal(Seq::filter);
    if items.len() > 0 {
        lemma_filter_keeps_passing(items.drop_last(), pred);
        assert(items.drop_last().push(items.last()) =~= items);
    }
}

/// Dropping a record that fails a filter does not change what passes it.
pub(crate) proof fn lemma_filter_skips_failing(
    items: Seq<ItemModel>,
    pred: spec_fn(ItemModel) -> bool,
    at: int,
)
    requires
        0 <= at < items.len(),
        !pred(items[at]),
    ensures
        items.remove(at).filter(pred) == items.filter(pred),
{
    let head = items.take(at);
    let tail = items.skip(at + 1);
    let one = Seq::<ItemModel>::empty().push(items[at]);
    assert(items =~= head + one + tail);
    assert(items.remove(at) =~= head + tail);
    Seq::<ItemModel>::empty().lemma_filter_push(items[at], pred);
    assert(Seq::<ItemModel>::empty().filter(pred) =~= Seq::<ItemModel>::empty()) by {
        reveal(Seq::filter);
    }
    Seq::filter_distributes_over_add(head, one, pred);
    Seq::filter_distributes_over_add(head + one, tail, pred);
    Seq::filter_distributes_over_add(head, tail, pred);
    assert(head.filter(pred) + Seq::<ItemModel>::empty() =~= head.filter(pred));
}

/// What is left after the records at `path` are gone: nothing at `path`,
/// nothing that was not there before, no path twice where none was, and
/// the order by time where there was one.
pub proof fn lemma_remove_facts(list: StoreModel, path: Seq<char>)
    ensures
        list.remove(path).items.len() <= list.items.len(),
        !holds_path(list.remove(path).items, path),
        forall|k: int|
            0 <= k < list.remove(path).items.len() ==> list.items.contains(
                #[trigger] list.remove(path).items[k],
            ),
        distinct_paths(list.items) ==> distinct_paths(list.remove(path).items),
        newest_first(list.items) ==> newest_first(list.remove(path).items),
    decreases list.items.len(),
{
    reveal(Seq::filter);
    let pred = at_other_path(path);
    let kept = list.items.filter(pred);
    if list.items.len() > 0 {
        let shorter = StoreModel { items: list.items.drop_last(), capacity: list.capacity };
        lemma_remove_facts(shorter, path);
        let before = shorter.items.filter(pred);
        let last = list.items.last();
        assert forall|k: int| 0 <= k < kept.len() implies list.items.contains(
            #[trigger] kept[k],
        ) by {
            if k < before.len() {
                assert(shorter.items.contains(before[k]));
                let i = choose|i: int| 0 <= i < shorter.items.len() && shorter.items[i] == before[k];
                assert(list.items[i] == kept[k]);
            } else {
                assert(list.items[list.items.len() - 1] == kept[k]);
            }
        }
        if distinct_paths(list.items) {
            assert(distinct_paths(shorter.items)) by {
                assert forall|i: int, j: int| 0 <= i < j < shorter.items.len() implies shorter.items[i].path
                    != shorter.items[j].path by {
                    assert(shorter.items[i] == list.items[i]);
                    assert(shorter.items[j] == list.items[j]);
                }
            }
            assert forall|i: int, j: int| 0 <= i < j < kept.len() implies kept[i].path
                != kept[j].path by {
                if j < before.len() {
                    assert(kept[i] == before[i] && kept[j] == before[j]);
                } else {
                    assert(kept[j] == last);
                    assert(shorter.items.contains(before[i]));
                    let k = choose|k: int|
                        0 <= k < shorter.items.len() && shorter.items[k] == before[i];
                    assert(list.items[k] == kept[i]);
                }
            }
        }
        if newest_first(list.items) {
            assert(newest_first(shorter.items)) by {
                assert forall|i: int, j: int| 0 <= i < j < shorter.items.len() implies shorter.items[i].timestamp
                    >= shorter.items[j].timestamp by {
                    assert(shorter.items[i] == list.items[i]);
                    assert(shorter.items[j] == list.items[j]);
                }
            }
            assert forall|i: int, j: int| 0 <= i < j < kept.len() implies kept[i].timestamp
                >= kept[j].timestamp by {
                if j < before.len() {
                    assert(kept[i] == before[i] && kept[j] == before[j]);
                } else {
                    assert(kept[j] == last);
                    assert(shorter.items.contains(before[i]));
                    let k = choose|k: int|
                        0 <= k < shorter.items.len() && shorter.items[k] == before[i];
                    assert(list.items[k] == kept[i]);
                }
            }
        }
    }
}

/// Removing a path leaves a well-formed list well formed, and within the
/// length it had.
pub proof fn lemma_remove_wf(list: StoreModel, path: Seq<char>)
    requires
        list.wf(),
    ensures
        list.remove(path).wf(),
        list.remove(path).items.len() <= list.items.len(),
{
    lemma_remove_facts(list, path);
}

/// After a path is removed no record lies at it, wherever it stood before.
pub proof fn lemma_remove_absent(list: StoreModel, path: Seq<char>)
    ensures
        !holds_path(list.remove(path).items, path),
{
    lemma_remove_facts(list, path);
}

/// Removing a path that no record lies at changes nothing.
pub proof fn lemma_remove_missing(list: StoreModel, path: Seq<char>)
    requires
        !holds_path(list.items, path),
    ensures
        list.remove(path) == list,
{
    assert forall|i: int| 0 <= i < list.items.len() implies at_other_path(path)(
        #[trigger] list.items[i],
    ) by {
        assert(list.items[i].path != path);
    }
    lemma_filter_keeps_passing(list.items, at_other_path(path));
}

/// A touch never leaves more records than the capacity, whatever the list
/// was; and it leaves a list without a path twice where there was none.
pub proof fn lemma_touch_wf(list: StoreModel, path: Seq<char>, timestamp: u64)
    ensures
        list.touch(path, timestamp).items.len() <= list.capacity,
        list.touch(path, timestamp).capacity == list.capacity,
        distinct_paths(list.items) ==> list.touch(path, timestamp).wf(),
{
    lemma_remove_facts(list, path);
    let rest = list.remove(path).items;
    let moved = seq![ItemModel { path, timestamp }] + rest;
    let after = list.touch(path, timestamp).items;
    if distinct_paths(list.items) {
        assert forall|i: int, j: int| 0 <= i < j < moved.len() implies moved[i].path
            != moved[j].path by {
            assert(moved[j] == rest[j - 1]);
            if i == 0 {
                assert(rest[j - 1].path != path);
            } else {
                assert(moved[i] == rest[i - 1]);
            }
        }
        assert forall|i: int, j: int| 0 <= i < j < after.len() implies after[i].path
            != after[j].path by {
            assert(after[i] == moved[i] && after[j] == moved[j]);
        }
    }
}

/// A list in the order of its timestamps stays in that order when a path is
/// removed, and when a path is touched at a time that is not earlier than
/// any time in the list.
pub proof fn lemma_time_order_kept(list: StoreModel, path: Seq<char>, timestamp: u64)
    requires
        newest_first(list.items),
    ensures
        newest_first(list.remove(path).items),
        (forall|i: int| 0 <= i < list.items.len() ==> timestamp >= list.items[i].timestamp)
            ==> newest_first(list.touch(path, timestamp).items),
{
    lemma_remove_facts(list, path);
    let rest = list.remove(path).items;
    let moved = seq![ItemModel { path, timestamp }] + rest;
    let after = list.touch(path, timestamp).items;
    if forall|i: int| 0 <= i < list.items.len() ==> timestamp >= list.items[i].timestamp {
        assert forall|i: int, j: int| 0 <= i < j < moved.len() implies moved[i].timestamp
            >= moved[j].timestamp by {
            assert(moved[j] == rest[j - 1]);
            if i == 0 {
                assert(list.items.contains(rest[j - 1]));
                let k = choose|k: int| 0 <= k < list.items.len() && list.items[k] == rest[j - 1];
                assert(timestamp >= list.items[k].timestamp);
            } else {
                assert(moved[i] == rest[i - 1]);
            }
        }
        assert forall|i: int, j: int| 0 <= i < j < after.len() implies after[i].timestamp
            >= after[j].timestamp by {
            assert(after[i] == moved[i] && after[j] == moved[j]);
        }
    }
}

/// Right after a touch the touched path is the first record, with the
/// timestamp of that touch, in every list that can hold a record at all.
pub proof fn lemma_touch_front(list: StoreModel, path: Seq<char>, timestamp: u64)
    requires
        list.capacity > 0,
    ensures
        list.touch(path, timestamp).items.len() > 0,
        list.touch(path, timestamp).items[0] == (ItemModel { path, timestamp }),
{
}

/// Touching the same path again, with no other touch between, only renews
/// its timestamp: the order and the other records stay.
pub proof fn lemma_touch_again(list: StoreModel, path: Seq<char>, first: u64, second: u64)
    ensures
        list.touch(path, first).touch(path, second) == list.touch(path, second),
{
    lemma_remove_facts(list, path);
    let pred = at_other_path(path);
    let rest = list.remove(path).items;
    let once = list.touch(path, first);
    let head = seq![ItemModel { path, timestamp: first }];
    if list.capacity == 0 {
        assert(once.items =~= Seq::<ItemModel>::empty());
        assert(once.items.filter(pred) =~= Seq::<ItemModel>::empty()) by {
            reveal(Seq::filter);
        }
        assert(list.touch(path, second).items =~= Seq::<ItemModel>::empty());
        assert(once.touch(path, second).items =~= Seq::<ItemModel>::empty());
    } else {
        // What follows the touched record is a prefix of `rest`.
        let tail = once.items.skip(1);
        assert(once.items =~= head + tail);
        assert forall|i: int| 0 <= i < tail.len() implies pred(#[trigger] tail[i]) by {
            assert(tail[i] == rest[i]);
            assert(rest[i].path != path);
        }
        lemma_filter_keeps_passing(tail, pred);
        assert(Seq::<ItemModel>::empty().push(head[0]) =~= head);
        Seq::<ItemModel>::empty().lemma_filter_push(head[0], pred);
        assert(Seq::<ItemModel>::empty().filter(pred) =~= Seq::<ItemModel>::empty()) by {
            reveal(Seq::filter);
        }
        Seq::filter_distributes_over_add(head, tail, pred);
        assert(once.items.filter(pred) =~= tail);
        assert(once.touch(path, second).items =~= list.touch(path, second).items);
    }
}

/// However many touches follow one another, a list without a path twice
/// never comes to hold one twice, nor more records than its capacity.
pub proof fn lemma_touch_all_wf(list: StoreModel, uses: Seq<ItemModel>)
    requires
        list.wf(),
    ensures
        list.touch_all(uses).wf(),
        list.touch_all(uses).capacity == list.capacity,
    decreases uses.len(),
{
    if uses.len() > 0 {
        lemma_touch_all_wf(list, uses.drop_last());
        lemma_touch_wf(list.touch_all(uses.drop_last()), uses.last().path, uses.last().timestamp);
    }
}

/// After touches of paths that all differ, the list starts with the most
/// recent of them, the last touched first, as far as its capacity reaches.
pub proof fn lemma_recent_touches_lead(list: StoreModel, uses: Seq<ItemModel>)
    requires
        distinct_paths(uses),
    ensures
        list.touch_all(uses).capacity == list.capacity,
        uses.len() <= list.capacity ==> list.touch_all(uses).items.len() >= uses.len()
            && list.touch_all(uses).items.take(uses.len() as int) == uses.reverse(),
        uses.len() > list.capacity ==> list.touch_all(uses).items == uses.reverse().take(
            list.capacity as int,
        ),
    decreases uses.len(),
{
    let capacity = list.capacity;
    if uses.len() == 0 {
        assert(list.touch_all(uses).items.take(0) =~= uses.reverse());
    } else {
        let earlier = uses.drop_last();
        let last = uses.last();
        assert(distinct_paths(earlier)) by {
            assert forall|i: int, j: int| 0 <= i < j < earlier.len() implies earlier[i].path
                != earlier[j].path by {
                assert(earlier[i] == uses[i] && earlier[j] == uses[j]);
            }
        }
        lemma_recent_touches_lead(list, earlier);
        let before = list.touch_all(earlier);
        let after = before.touch(last.path, last.timestamp);
        assert(after == list.touch_all(uses));
        let pred = at_other_path(last.path);
        // The records that lead `before` are the earlier touches, none at
        // the path touched last.
        let lead: int = if earlier.len() <= capacity {
            earlier.len() as int
        } else {
            capacity as int
        };
        let front = before.items.take(lead);
        let back = before.items.skip(lead);
        assert(front =~= earlier.reverse().take(lead));
        assert(before.items =~= front + back);
        assert forall|i: int| 0 <= i < front.len() implies pred(#[trigger] front[i]) by {
            assert(front[i] == earlier[earlier.len() - 1 - i]);
            assert(uses[earlier.len() - 1 - i] == earlier[earlier.len() - 1 - i]);
            assert(uses[uses.len() - 1] == last);
        }
        lemma_filter_keeps_passing(front, pred);
        Seq::filter_distributes_over_add(front, back, pred);
        let rest = before.remove(last.path).items;
        assert(rest == front + back.filter(pred));
        assert(uses.reverse() =~= seq![last] + earlier.reverse());
        if uses.len() <= capacity {
            assert(after.items.take(uses.len() as int) =~= uses.reverse());
        } else {
            assert(after.items =~= uses.reverse().take(capacity as int));
        }
    }
}

/// Touching more paths than the list can hold, all of them different,
/// leaves exactly the most recent ones, the last touched first; what was
/// touched earliest is gone.
pub proof fn lemma_overflow_evicts_oldest(list: StoreModel, uses: Seq<ItemModel>)
    requires
        distinct_paths(uses),
        uses.len() > list.capacity,
    ensures
        list.touch_all(uses).items == uses.reverse().take(list.capacity as int),
        !holds_path(list.touch_all(uses).items, uses[0].path),
{
    lemma_recent_touches_lead(list, uses);
    let left = list.touch_all(uses).items;
    assert forall|i: int| 0 <= i < left.len() implies #[trigger] left[i].path
        != uses[0].path by {
        assert(left[i] == uses[uses.len() - 1 - i]);
    }
}

/// What a well-formed list of a capacity of at least 1 leaves behind brings
/// the same list back, record by record and with its capacity.
pub proof fn lemma_restore_saved(list: StoreModel)
    requires
        list.wf(),
        list.capacity >= 1,
    ensures
        StoreModel::restored(Some(list)) == list,
{
}

/// With nothing left behind, or with a list that holds a path twice, more
/// records than its capacity or a capacity of 0, a run starts from the
/// empty list of capacity 50.
pub proof fn lemma_restore_fallback(saved: Option<StoreModel>)
    requires
        saved matches Some(list) ==> !list.wf() || list.capacity == 0,
    ensures
        StoreModel::restored(saved) == StoreModel::empty(50),
{
}

/// Whatever was left behind, a run starts from a well-formed list that can
/// hold a record.
pub proof fn lemma_restored_wf(saved: Option<StoreModel>)
    ensures
        StoreModel::restored(saved).wf(),
        StoreModel::restored(saved).capacity >= 1,
{
}

} // verus!
