//! The bin-packer: entries are sorted by size and put, largest first, into
//! the first group that has room for them.

use vstd::prelude::*;
use vstd::multiset::{lemma_multiset_empty_len, Multiset};
use vstd::seq_lib::{lemma_multiset_commutative, to_multiset_build};
use crate::{Entry, EntryView};

verus! {

/// Entries that become one container, with the sum of their sizes.
#[derive(Debug)]
pub struct Group {
    pub size: u64,
    pub entries: Vec<Entry>,
}

/// What a group is, as plain values.
pub struct GroupView {
    pub size: u64,
    pub entries: Seq<EntryView>,
}

impl View for Group {
    type V = GroupView;

    open spec fn view(&self) -> GroupView {
        GroupView { size: self.size, entries: entry_views(self.entries@) }
    }
}

/// The entries as plain values.
pub open spec fn entry_views(entries: Seq<Entry>) -> Seq<EntryView> {
    entries.map_values(|e: Entry| e@)
}

/// The groups as plain values.
pub open spec fn group_views(groups: Seq<Group>) -> Seq<GroupView> {
    groups.map_values(|g: Group| g@)
}

/// Two runs in descending order of size as one: where the sizes are equal,
/// what stands in `left` comes first.
pub open spec fn merge_by_size(left: Seq<EntryView>, right: Seq<EntryView>) -> Seq<EntryView>
    decreases left.len() + right.len(),
{
    if left.len() == 0 {
        right
    } else if right.len() == 0 {
        left
    } else if left.last().size >= right.last().size {
        merge_by_size(left, right.drop_last()).push(right.last())
    } else {
        merge_by_size(left.drop_last(), right).push(left.last())
    }
}

/// The entries in descending order of size, by halving and merging: entries
/// of one size keep their order.
pub open spec fn sort_by_size(entries: Seq<EntryView>) -> Seq<EntryView>
    decreases entries.len(),
{
    if entries.len() <= 1 {
        entries
    } else {
        let mid = (entries.len() / 2) as int;
        merge_by_size(sort_by_size(entries.take(mid)), sort_by_size(entries.skip(mid)))
    }
}

/// Whether an entry of `size` still goes into a group of `group_size`.
pub open spec fn fits(group_size: u64, size: u64, max_group_size: u64) -> bool {
    group_size + size <= max_group_size
}

/// The first group that has room for an entry of `size`, if any has.
pub open spec fn first_fit(groups: Seq<GroupView>, size: u64, max_group_size: u64) -> Option<int>
    decreases groups.len(),
{
    if groups.len() == 0 {
        None
    } else {
        match first_fit(groups.drop_last(), size, max_group_size) {
            Some(g) => Some(g),
            None => if fits(groups.last().size, size, max_group_size) {
                Some(groups.len() - 1)
            } else {
                None
            },
        }
    }
}

/// The first place whose group is smaller than `size`: where a group of
/// `size` goes so that the sizes go on descending.
pub open spec fn slot(groups: Seq<GroupView>, size: u64) -> int
    decreases groups.len(),
{
    if groups.len() == 0 {
        0
    } else {
        let before = slot(groups.drop_last(), size);
        if before < groups.len() - 1 || groups.last().size < size {
            before
        } else {
            groups.len() as int
        }
    }
}

/// The groups after `entry` was put into the first that has room for it, or
/// into a new last one where none has. A group that has outgrown the one
/// before it moves up to its place by size.
pub open spec fn place(groups: Seq<GroupView>, entry: EntryView, max_group_size: u64) -> Seq<
    GroupView,
> {
    match first_fit(groups, entry.size, max_group_size) {
        None => groups.push(GroupView { size: entry.size, entries: seq![entry] }),
        Some(g) => {
            let grown = GroupView {
                size: (groups[g].size + entry.size) as u64,
                entries: groups[g].entries.push(entry),
            };
            if g == 0 || groups[g - 1].size >= grown.size {
                groups.update(g, grown)
            } else {
                let rest = groups.remove(g);
                rest.insert(slot(rest, grown.size), grown)
            }
        },
    }
}

/// The groups after the entries were placed one by one, in their order.
pub open spec fn place_all(entries: Seq<EntryView>, max_group_size: u64) -> Seq<GroupView>
    decreases entries.len(),
{
    if entries.len() == 0 {
        Seq::empty()
    } else {
        place(place_all(entries.drop_last(), max_group_size), entries.last(), max_group_size)
    }
}

/// The groups that `index` is packed into under `max_group_size`.
pub open spec fn grouping(index: Seq<EntryView>, max_group_size: u64) -> Seq<GroupView> {
    place_all(sort_by_size(index), max_group_size)
}

/// The sum of the sizes of `entries`.
pub open spec fn total_size(entries: Seq<EntryView>) -> nat
    decreases entries.len(),
{
    if entries.len() == 0 {
        0
    } else {
        total_size(entries.drop_last()) + entries.last().size as nat
    }
}

/// All entries of all groups.
pub open spec fn all_entries(groups: Seq<GroupView>) -> Multiset<EntryView>
    decreases groups.len(),
{
    if groups.len() == 0 {
        Multiset::empty()
    } else {
        all_entries(groups.drop_last()).add(groups.last().entries.to_multiset())
    }
}

/// The sizes descend.
pub open spec fn descending(entries: Seq<EntryView>) -> bool {
    forall|i: int, j: int| 0 <= i < j < entries.len() ==> entries[i].size >= entries[j].size
}

/// The group's size is the sum of its entries' sizes, and is within the cap
/// unless the group is one entry that is itself larger than the cap.
pub open spec fn bounded(group: GroupView, max_group_size: u64) -> bool {
    &&& group.size == total_size(group.entries)
    &&& group.entries.len() > 0
    &&& group.size <= max_group_size || (group.entries.len() == 1 && group.entries[0].size
        > max_group_size)
}

/// No entries make the empty multiset.
pub proof fn lemma_no_entries(entries: Seq<EntryView>)
    requires
        entries.len() == 0,
    ensures
        entries.to_multiset() == Multiset::<EntryView>::empty(),
{
    entries.to_multiset_ensures();
    lemma_multiset_empty_len(entries.to_multiset());
    assert(entries.to_multiset() =~= Multiset::<EntryView>::empty());
}

pub proof fn lemma_first_fit(groups: Seq<GroupView>, size: u64, max_group_size: u64)
    ensures
        match first_fit(groups, size, max_group_size) {
            Some(g) => {
                &&& 0 <= g < groups.len()
                &&& fits(groups[g].size, size, max_group_size)
                &&& forall|k: int| 0 <= k < g ==> !fits(#[trigger] groups[k].size, size, max_group_size)
            },
            None => forall|k: int|
                0 <= k < groups.len() ==> !fits(#[trigger] groups[k].size, size, max_group_size),
        },
    decreases groups.len(),
{
    if groups.len() > 0 {
        lemma_first_fit(groups.drop_last(), size, max_group_size);
        assert forall|k: int| 0 <= k < groups.len() - 1 implies groups.drop_last()[k]
            == groups[k] by {}
        match first_fit(groups.drop_last(), size, max_group_size) {
            Some(g) => {
                assert(groups.drop_last()[g] == groups[g]);
                assert forall|k: int| 0 <= k < g implies !fits(
                    #[trigger] groups[k].size,
                    size,
                    max_group_size,
                ) by {
                    assert(groups.drop_last()[k] == groups[k]);
                }
            },
            None => {
                assert forall|k: int| 0 <= k < groups.len() - 1 implies !fits(
                    #[trigger] groups[k].size,
                    size,
                    max_group_size,
                ) by {
                    assert(groups.drop_last()[k] == groups[k]);
                }
            },
        }
    }
}

pub proof fn lemma_slot(groups: Seq<GroupView>, size: u64)
    ensures
        0 <= slot(groups, size) <= groups.len(),
        forall|k: int| 0 <= k < slot(groups, size) ==> (#[trigger] groups[k]).size >= size,
        slot(groups, size) < groups.len() ==> groups[slot(groups, size)].size < size,
    decreases groups.len(),
{
    if groups.len() > 0 {
        lemma_slot(groups.drop_last(), size);
        let before = slot(groups.drop_last(), size);
        assert forall|k: int| 0 <= k < before implies (#[trigger] groups[k]).size >= size by {
            assert(groups.drop_last()[k] == groups[k]);
        }
        if before < groups.len() - 1 {
            assert(groups.drop_last()[before] == groups[before]);
        }
    }
}

pub proof fn lemma_total_size_push(entries: Seq<EntryView>, entry: EntryView)
    ensures
        total_size(entries.push(entry)) == total_size(entries) + entry.size,
{
    assert(entries.push(entry).drop_last() =~= entries);
}

pub proof fn lemma_all_entries_concat(left: Seq<GroupView>, right: Seq<GroupView>)
    ensures
        all_entries(left + right) == all_entries(left).add(all_entries(right)),
    decreases right.len(),
{
    if right.len() == 0 {
        assert(left + right =~= left);
        assert(all_entries(left + right) =~= all_entries(left).add(all_entries(right)));
    } else {
        assert((left + right).drop_last() =~= left + right.drop_last());
        lemma_all_entries_concat(left, right.drop_last());
        assert(all_entries(left + right) =~= all_entries(left).add(all_entries(right)));
    }
}

pub proof fn lemma_all_entries_one(group: GroupView)
    ensures
        all_entries(seq![group]) == group.entries.to_multiset(),
{
    assert(seq![group].drop_last() =~= Seq::<GroupView>::empty());
    assert(all_entries(seq![group].drop_last()) =~= Multiset::<EntryView>::empty());
    assert(all_entries(seq![group]) =~= group.entries.to_multiset());
}

/// Groups that are bounded stay so where one of them is replaced by a
/// bounded group, or a bounded group is put among them.
pub proof fn lemma_bounded_update(
    groups: Seq<GroupView>,
    g: int,
    grown: GroupView,
    max_group_size: u64,
)
    requires
        0 <= g < groups.len(),
        forall|k: int| 0 <= k < groups.len() ==> bounded(#[trigger] groups[k], max_group_size),
        bounded(grown, max_group_size),
    ensures
        forall|k: int|
            0 <= k < groups.len() ==> bounded(
                #[trigger] groups.update(g, grown)[k],
                max_group_size,
            ),
        forall|at: int, k: int|
            0 <= at < groups.len() && 0 <= k < groups.len() ==> bounded(
                #[trigger] groups.remove(g).insert(at, grown)[k],
                max_group_size,
            ),
{
    assert forall|k: int| 0 <= k < groups.len() implies bounded(
        #[trigger] groups.update(g, grown)[k],
        max_group_size,
    ) by {
        if k != g {
            assert(groups.update(g, grown)[k] == groups[k]);
        }
    }
    assert forall|at: int, k: int| 0 <= at < groups.len() && 0 <= k < groups.len() implies bounded(
        #[trigger] groups.remove(g).insert(at, grown)[k],
        max_group_size,
    ) by {
        let rest = groups.remove(g);
        let placed = rest.insert(at, grown);
        if k != at {
            let r = if k < at { k } else { k - 1 };
            assert(placed[k] == rest[r]);
            if r < g {
                assert(rest[r] == groups[r]);
            } else {
                assert(rest[r] == groups[r + 1]);
            }
        }
    }
}

/// Replacing a group by one with one more entry, there or at another place,
/// adds that entry to the entries of the groups.
pub proof fn lemma_all_entries_grow(groups: Seq<GroupView>, g: int, entry: EntryView, size: u64)
    requires
        0 <= g < groups.len(),
    ensures
        all_entries(
            groups.update(g, GroupView { size, entries: groups[g].entries.push(entry) }),
        ) == all_entries(groups).insert(entry),
        forall|at: int|
            0 <= at < groups.len() ==> all_entries(
                #[trigger] groups.remove(g).insert(
                    at,
                    GroupView { size, entries: groups[g].entries.push(entry) },
                ),
            ) == all_entries(groups).insert(entry),
{
    let grown = GroupView { size, entries: groups[g].entries.push(entry) };
    let before = groups.take(g);
    let after = groups.skip(g + 1);
    let rest = groups.remove(g);
    assert(groups =~= before + seq![groups[g]] + after);
    lemma_all_entries_concat(before + seq![groups[g]], after);
    lemma_all_entries_concat(before, seq![groups[g]]);
    lemma_all_entries_one(groups[g]);
    lemma_all_entries_one(grown);
    to_multiset_build(groups[g].entries, entry);
    assert(groups.update(g, grown) =~= before + seq![grown] + after);
    lemma_all_entries_concat(before + seq![grown], after);
    lemma_all_entries_concat(before, seq![grown]);
    assert(all_entries(groups.update(g, grown)) =~= all_entries(groups).insert(entry));
    assert(rest =~= before + after);
    lemma_all_entries_concat(before, after);
    let others = all_entries(rest);
    let old_entries = groups[g].entries.to_multiset();
    assert(all_entries(groups) =~= others.add(old_entries));
    assert forall|at: int| 0 <= at < groups.len() implies all_entries(
        #[trigger] rest.insert(at, grown),
    ) == all_entries(groups).insert(entry) by {
        let placed = rest.insert(at, grown);
        let left = rest.take(at);
        let right = rest.skip(at);
        assert(placed =~= left + seq![grown] + right);
        assert(rest =~= left + right);
        lemma_all_entries_concat(left, right);
        lemma_all_entries_concat(left + seq![grown], right);
        lemma_all_entries_concat(left, seq![grown]);
        assert(others =~= all_entries(left).add(all_entries(right)));
        assert(all_entries(placed) =~= all_entries(left).add(old_entries.insert(entry)).add(
            all_entries(right),
        ));
        assert(all_entries(placed) =~= others.add(old_entries).insert(entry));
    }
}

/// Placing an entry adds it to the entries of the groups, and to nothing
/// else; and groups that were bounded are so thereafter.
pub proof fn lemma_place(groups: Seq<GroupView>, entry: EntryView, max_group_size: u64)
    requires
        forall|g: int| 0 <= g < groups.len() ==> bounded(#[trigger] groups[g], max_group_size),
    ensures
        all_entries(place(groups, entry, max_group_size)) == all_entries(groups).insert(entry),
        forall|g: int|
            0 <= g < place(groups, entry, max_group_size).len() ==> bounded(
                #[trigger] place(groups, entry, max_group_size)[g],
                max_group_size,
            ),
{
    let placed = place(groups, entry, max_group_size);
    lemma_first_fit(groups, entry.size, max_group_size);
    match first_fit(groups, entry.size, max_group_size) {
        None => {
            let fresh = GroupView { size: entry.size, entries: seq![entry] };
            assert(placed =~= groups + seq![fresh]);
            lemma_all_entries_concat(groups, seq![fresh]);
            lemma_all_entries_one(fresh);
            to_multiset_build(Seq::<EntryView>::empty(), entry);
            assert(seq![entry] =~= Seq::<EntryView>::empty().push(entry));
            lemma_no_entries(Seq::<EntryView>::empty());
            assert(all_entries(placed) =~= all_entries(groups).insert(entry));
            lemma_total_size_push(Seq::<EntryView>::empty(), entry);
            assert(bounded(fresh, max_group_size));
            assert forall|g: int| 0 <= g < placed.len() implies bounded(
                #[trigger] placed[g],
                max_group_size,
            ) by {
                if g < groups.len() {
                    assert(placed[g] == groups[g]);
                }
            }
        },
        Some(g) => {
            let size = (groups[g].size + entry.size) as u64;
            let grown = GroupView { size, entries: groups[g].entries.push(entry) };
            assert(bounded(groups[g], max_group_size));
            lemma_total_size_push(groups[g].entries, entry);
            assert(bounded(grown, max_group_size));
            lemma_all_entries_grow(groups, g, entry, size);
            lemma_bounded_update(groups, g, grown, max_group_size);
            if !(g == 0 || groups[g - 1].size >= grown.size) {
                let rest = groups.remove(g);
                let at = slot(rest, grown.size);
                lemma_slot(rest, grown.size);
                assert(placed == rest.insert(at, grown));
                assert forall|k: int| 0 <= k < placed.len() implies bounded(
                    #[trigger] placed[k],
                    max_group_size,
                ) by {
                    assert(bounded(groups.remove(g).insert(at, grown)[k], max_group_size));
                }
            }
        },
    }
}

/// Placing entries one by one puts each into one group, and keeps every
/// group bounded.
pub proof fn lemma_place_all(entries: Seq<EntryView>, max_group_size: u64)
    ensures
        all_entries(place_all(entries, max_group_size)) == entries.to_multiset(),
        forall|g: int|
            0 <= g < place_all(entries, max_group_size).len() ==> bounded(
                #[trigger] place_all(entries, max_group_size)[g],
                max_group_size,
            ),
    decreases entries.len(),
{
    if entries.len() == 0 {
        lemma_no_entries(entries);
    } else {
        lemma_place_all(entries.drop_last(), max_group_size);
        lemma_place(place_all(entries.drop_last(), max_group_size), entries.last(), max_group_size);
        to_multiset_build(entries.drop_last(), entries.last());
        assert(entries.drop_last().push(entries.last()) =~= entries);
    }
}

/// Merging keeps every entry, and the descending order.
pub proof fn lemma_merge(left: Seq<EntryView>, right: Seq<EntryView>)
    requires
        descending(left),
        descending(right),
    ensures
        descending(merge_by_size(left, right)),
        merge_by_size(left, right).to_multiset() == left.to_multiset().add(right.to_multiset()),
        merge_by_size(left, right).len() == left.len() + right.len(),
        left.len() + right.len() > 0 ==> merge_by_size(left, right).last().size == if left.len()
            == 0 {
            right.last().size
        } else if right.len() == 0 {
            left.last().size
        } else if left.last().size >= right.last().size {
            right.last().size
        } else {
            left.last().size
        },
    decreases left.len() + right.len(),
{
    let merged = merge_by_size(left, right);
    if left.len() == 0 {
        lemma_no_entries(left);
        assert(merged.to_multiset() =~= left.to_multiset().add(right.to_multiset()));
    } else if right.len() == 0 {
        lemma_no_entries(right);
        assert(merged.to_multiset() =~= left.to_multiset().add(right.to_multiset()));
    } else if left.last().size >= right.last().size {
        let front = right.drop_last();
        let inner = merge_by_size(left, front);
        assert(descending(front));
        lemma_merge(left, front);
        to_multiset_build(inner, right.last());
        to_multiset_build(front, right.last());
        assert(front.push(right.last()) =~= right);
        assert(merged.to_multiset() =~= left.to_multiset().add(right.to_multiset()));
        lemma_descending_push(inner, right.last());
    } else {
        let front = left.drop_last();
        let inner = merge_by_size(front, right);
        assert(descending(front));
        lemma_merge(front, right);
        to_multiset_build(inner, left.last());
        to_multiset_build(front, left.last());
        assert(front.push(left.last()) =~= left);
        assert(merged.to_multiset() =~= left.to_multiset().add(right.to_multiset()));
        lemma_descending_push(inner, left.last());
    }
}

/// A descending run stays one when an entry no larger than its last is put
/// behind it.
pub proof fn lemma_descending_push(entries: Seq<EntryView>, entry: EntryView)
    requires
        descending(entries),
        entries.len() > 0 ==> entries.last().size >= entry.size,
    ensures
        descending(entries.push(entry)),
{
}

/// Sorting keeps every entry, each as often as it was there, and puts them
/// in descending order of size.
pub proof fn lemma_sort_by_size(entries: Seq<EntryView>)
    ensures
        descending(sort_by_size(entries)),
        sort_by_size(entries).to_multiset() == entries.to_multiset(),
        sort_by_size(entries).len() == entries.len(),
    decreases entries.len(),
{
    if entries.len() > 1 {
        let mid = (entries.len() / 2) as int;
        lemma_sort_by_size(entries.take(mid));
        lemma_sort_by_size(entries.skip(mid));
        lemma_merge(sort_by_size(entries.take(mid)), sort_by_size(entries.skip(mid)));
        lemma_multiset_commutative(entries.take(mid), entries.skip(mid));
        assert(entries.take(mid) + entries.skip(mid) =~= entries);
    }
}

/// Whether an entry has the size `size`.
pub open spec fn has_size(size: u64) -> spec_fn(EntryView) -> bool {
    |e: EntryView| e.size == size
}

/// The entries of one size, in their order.
pub open spec fn of_size(entries: Seq<EntryView>, size: u64) -> Seq<EntryView> {
    entries.filter(has_size(size))
}

/// Where no entry has the size, there are no entries of that size.
pub proof fn lemma_none_of_size(entries: Seq<EntryView>, size: u64)
    requires
        forall|i: int| 0 <= i < entries.len() ==> (#[trigger] entries[i]).size != size,
    ensures
        of_size(entries, size) == Seq::<EntryView>::empty(),
    decreases entries.len(),
{
    if entries.len() == 0 {
        reveal(Seq::filter);
    } else {
        let front = entries.drop_last();
        assert forall|i: int| 0 <= i < front.len() implies (#[trigger] front[i]).size != size by {
            assert(front[i] == entries[i]);
        }
        lemma_none_of_size(front, size);
        front.lemma_filter_push(entries.last(), has_size(size));
        assert(front.push(entries.last()) =~= entries);
        assert(entries[entries.len() - 1].size != size);
    }
}

/// Merging keeps the entries of one size in their order, those of the left
/// run before those of the right.
pub proof fn lemma_merge_keeps_order(left: Seq<EntryView>, right: Seq<EntryView>, size: u64)
    requires
        descending(left),
        descending(right),
    ensures
        of_size(merge_by_size(left, right), size) == of_size(left, size) + of_size(right, size),
    decreases left.len() + right.len(),
{
    let pred = has_size(size);
    if left.len() == 0 {
        lemma_none_of_size(left, size);
        assert(of_size(left, size) + of_size(right, size) =~= of_size(right, size));
    } else if right.len() == 0 {
        lemma_none_of_size(right, size);
        assert(of_size(left, size) + of_size(right, size) =~= of_size(left, size));
    } else if left.last().size >= right.last().size {
        let front = right.drop_last();
        let inner = merge_by_size(left, front);
        assert(descending(front));
        lemma_merge_keeps_order(left, front, size);
        inner.lemma_filter_push(right.last(), pred);
        front.lemma_filter_push(right.last(), pred);
        assert(front.push(right.last()) =~= right);
        assert((of_size(left, size) + of_size(front, size)).push(right.last()) =~= of_size(
            left,
            size,
        ) + of_size(front, size).push(right.last()));
    } else {
        let front = left.drop_last();
        let inner = merge_by_size(front, right);
        assert(descending(front));
        lemma_merge_keeps_order(front, right, size);
        inner.lemma_filter_push(left.last(), pred);
        front.lemma_filter_push(left.last(), pred);
        assert(front.push(left.last()) =~= left);
        if left.last().size == size {
            assert forall|i: int| 0 <= i < right.len() implies (#[trigger] right[i]).size
                != size by {
                assert(right[i].size >= right[right.len() - 1].size);
            }
            lemma_none_of_size(right, size);
            assert((of_size(front, size) + of_size(right, size)).push(left.last()) =~= of_size(
                front,
                size,
            ).push(left.last()) + of_size(right, size));
        }
    }
}

/// Sorting keeps the entries of one size in the order that they had.
pub proof fn lemma_sort_keeps_order(entries: Seq<EntryView>, size: u64)
    ensures
        of_size(sort_by_size(entries), size) == of_size(entries, size),
    decreases entries.len(),
{
    if entries.len() > 1 {
        let mid = (entries.len() / 2) as int;
        let left = entries.take(mid);
        let right = entries.skip(mid);
        lemma_sort_by_size(left);
        lemma_sort_by_size(right);
        lemma_sort_keeps_order(left, size);
        lemma_sort_keeps_order(right, size);
        lemma_merge_keeps_order(sort_by_size(left), sort_by_size(right), size);
        Seq::filter_distributes_over_add(left, right, has_size(size));
        assert(left + right =~= entries);
    }
}

/// Every entry belongs to exactly one group: the entries of the groups are
/// those of the index, each as often as it is there.
pub proof fn lemma_grouping_partitions(index: Seq<EntryView>, max_group_size: u64)
    ensures
        all_entries(grouping(index, max_group_size)) == index.to_multiset(),
{
    lemma_sort_by_size(index);
    lemma_place_all(sort_by_size(index), max_group_size);
}

/// Bin-packing bound: the size of every group is the sum of its entries'
/// sizes, and it is at most the cap unless the group is exactly one entry
/// that is larger than the cap.
pub proof fn lemma_grouping_bound(index: Seq<EntryView>, max_group_size: u64, g: int)
    requires
        0 <= g < grouping(index, max_group_size).len(),
    ensures
        bounded(grouping(index, max_group_size)[g], max_group_size),
{
    lemma_place_all(sort_by_size(index), max_group_size);
}

/// The sizes of the groups descend.
pub open spec fn descending_groups(groups: Seq<GroupView>) -> bool {
    forall|i: int, j: int|
        0 <= i < j < groups.len() ==> (#[trigger] groups[i]).size >= (#[trigger] groups[j]).size
}

/// Every group is at least of `size`.
pub open spec fn at_least(groups: Seq<GroupView>, size: u64) -> bool {
    forall|g: int| 0 <= g < groups.len() ==> (#[trigger] groups[g]).size >= size
}

/// Taking a group out leaves the others in their order.
pub proof fn lemma_remove_descending(groups: Seq<GroupView>, g: int)
    requires
        descending_groups(groups),
        0 <= g < groups.len(),
    ensures
        descending_groups(groups.remove(g)),
{
    let rest = groups.remove(g);
    assert forall|i: int, j: int| 0 <= i < j < rest.len() implies (#[trigger] rest[i]).size >= (
    #[trigger] rest[j]).size by {
        let a = if i < g { i } else { i + 1 };
        let b = if j < g { j } else { j + 1 };
        assert(rest[i] == groups[a]);
        assert(rest[j] == groups[b]);
    }
}

/// Where the sizes of the groups descend and none is smaller than the entry,
/// placing the entry leaves it so.
pub proof fn lemma_place_descending(groups: Seq<GroupView>, entry: EntryView, max_group_size: u64)
    requires
        descending_groups(groups),
        at_least(groups, entry.size),
    ensures
        descending_groups(place(groups, entry, max_group_size)),
        at_least(place(groups, entry, max_group_size), entry.size),
{
    let placed = place(groups, entry, max_group_size);
    lemma_first_fit(groups, entry.size, max_group_size);
    match first_fit(groups, entry.size, max_group_size) {
        None => {
            assert forall|i: int, j: int| 0 <= i < j < placed.len() implies (
            #[trigger] placed[i]).size >= (#[trigger] placed[j]).size by {
                assert(placed[i] == groups[i]);
                if j < groups.len() {
                    assert(placed[j] == groups[j]);
                }
            }
            assert forall|g: int| 0 <= g < placed.len() implies (#[trigger] placed[g]).size
                >= entry.size by {
                if g < groups.len() {
                    assert(placed[g] == groups[g]);
                }
            }
        },
        Some(g) => {
            let grown = GroupView {
                size: (groups[g].size + entry.size) as u64,
                entries: groups[g].entries.push(entry),
            };
            assert(grown.size >= groups[g].size);
            if g == 0 || groups[g - 1].size >= grown.size {
                assert forall|i: int, j: int| 0 <= i < j < placed.len() implies (
                #[trigger] placed[i]).size >= (#[trigger] placed[j]).size by {
                    if i == g {
                        assert(placed[j] == groups[j]);
                        assert(groups[g].size >= groups[j].size);
                    } else if j == g {
                        assert(placed[i] == groups[i]);
                        assert(groups[i].size >= groups[g - 1].size);
                    } else {
                        assert(placed[i] == groups[i]);
                        assert(placed[j] == groups[j]);
                    }
                }
                assert forall|k: int| 0 <= k < placed.len() implies (#[trigger] placed[k]).size
                    >= entry.size by {
                    if k != g {
                        assert(placed[k] == groups[k]);
                    }
                }
            } else {
                let rest = groups.remove(g);
                let at = slot(rest, grown.size);
                lemma_remove_descending(groups, g);
                lemma_slot(rest, grown.size);
                assert forall|k: int| 0 <= k < rest.len() implies (#[trigger] rest[k]).size
                    >= entry.size by {
                    let a = if k < g { k } else { k + 1 };
                    assert(rest[k] == groups[a]);
                }
                assert forall|i: int, j: int| 0 <= i < j < placed.len() implies (
                #[trigger] placed[i]).size >= (#[trigger] placed[j]).size by {
                    if i == at {
                        assert(placed[j] == rest[j - 1]);
                        if at < j - 1 {
                            assert(rest[at].size >= rest[j - 1].size);
                        }
                    } else if j == at {
                        assert(placed[i] == rest[i]);
                    } else {
                        let a = if i < at { i } else { i - 1 };
                        let b = if j < at { j } else { j - 1 };
                        assert(placed[i] == rest[a]);
                        assert(placed[j] == rest[b]);
                    }
                }
                assert forall|k: int| 0 <= k < placed.len() implies (#[trigger] placed[k]).size
                    >= entry.size by {
                    if k != at {
                        let a = if k < at { k } else { k - 1 };
                        assert(placed[k] == rest[a]);
                    }
                }
            }
        },
    }
}

/// Placing entries in descending order of size leaves the sizes of the
/// groups descending, and no group smaller than the last entry.
pub proof fn lemma_place_all_descending(entries: Seq<EntryView>, max_group_size: u64)
    requires
        descending(entries),
    ensures
        descending_groups(place_all(entries, max_group_size)),
        entries.len() > 0 ==> at_least(place_all(entries, max_group_size), entries.last().size),
    decreases entries.len(),
{
    if entries.len() > 0 {
        let front = entries.drop_last();
        let groups = place_all(front, max_group_size);
        assert forall|i: int, j: int| 0 <= i < j < front.len() implies front[i].size
            >= front[j].size by {
            assert(front[i] == entries[i]);
            assert(front[j] == entries[j]);
        }
        lemma_place_all_descending(front, max_group_size);
        if front.len() > 0 {
            assert(front.last() == entries[entries.len() - 2]);
            assert(entries[entries.len() - 2].size >= entries[entries.len() - 1].size);
        }
        assert(at_least(groups, entries.last().size));
        lemma_place_descending(groups, entries.last(), max_group_size);
    }
}

/// The groups come in descending order of size.
pub proof fn lemma_grouping_descending(index: Seq<EntryView>, max_group_size: u64)
    ensures
        descending_groups(grouping(index, max_group_size)),
{
    lemma_sort_by_size(index);
    lemma_place_all_descending(sort_by_size(index), max_group_size);
}

/// Merges two runs in descending order of size into one.
fn merge(left: Vec<Entry>, right: Vec<Entry>) -> (merged: Vec<Entry>)
    ensures
        entry_views(merged@) == merge_by_size(entry_views(left@), entry_views(right@)),
{
    let ghost goal = merge_by_size(entry_views(left@), entry_views(right@));
    let mut left = left;
    let mut right = right;
    let mut tail: Vec<Entry> = Vec::new();
    assert(goal + entry_views(tail@).reverse() =~= goal);
    while left.len() > 0 && right.len() > 0
        invariant
            goal == merge_by_size(entry_views(left@), entry_views(right@)) + entry_views(
                tail@,
            ).reverse(),
        decreases left@.len() + right@.len(),
    {
        let ghost before = merge_by_size(entry_views(left@), entry_views(right@));
        let ghost lefts = entry_views(left@);
        let ghost rights = entry_views(right@);
        let ghost tails = entry_views(tail@);
        let from_right = left[left.len() - 1].size >= right[right.len() - 1].size;
        let popped = if from_right { right.pop() } else { left.pop() };
        match popped {
            Some(entry) => {
                proof {
                    if from_right {
                        assert(entry_views(right@) =~= rights.drop_last());
                        assert(entry@ == rights.last());
                    } else {
                        assert(entry_views(left@) =~= lefts.drop_last());
                        assert(entry@ == lefts.last());
                    }
                    let inner = merge_by_size(entry_views(left@), entry_views(right@));
                    assert(before == inner.push(entry@));
                    assert(entry_views(tail@.push(entry)) =~= tails.push(entry@));
                    assert(tails.push(entry@).reverse() =~= seq![entry@] + tails.reverse());
                    assert(inner.push(entry@) + tails.reverse() =~= inner + (seq![entry@]
                        + tails.reverse()));
                }
                tail.push(entry);
            },
            None => vstd::pervasive::unreached(),
        }
    }
    let mut merged = if left.len() == 0 { right } else { left };
    while tail.len() > 0
        invariant
            goal == entry_views(merged@) + entry_views(tail@).reverse(),
        decreases tail@.len(),
    {
        let ghost done = entry_views(merged@);
        let ghost tails = entry_views(tail@);
        match tail.pop() {
            Some(entry) => {
                proof {
                    assert(entry_views(tail@) =~= tails.drop_last());
                    assert(entry@ == tails.last());
                    assert(tails.reverse() =~= seq![entry@] + tails.drop_last().reverse());
                    assert(entry_views(merged@.push(entry)) =~= done.push(entry@));
                    assert(done.push(entry@) + tails.drop_last().reverse() =~= done + tails.reverse());
                }
                merged.push(entry);
            },
            None => vstd::pervasive::unreached(),
        }
    }
    assert(entry_views(merged@) + entry_views(tail@).reverse() =~= entry_views(merged@));
    merged
}

/// Sorts the entries by size, largest first; entries of one size keep their
/// order.
pub fn sort_entries(entries: Vec<Entry>) -> (sorted: Vec<Entry>)
    ensures
        entry_views(sorted@) == sort_by_size(entry_views(entries@)),
    decreases entries@.len(),
{
    if entries.len() <= 1 {
        return entries;
    }
    let ghost all = entry_views(entries@);
    let mid = entries.len() / 2;
    let mut left = entries;
    let right = left.split_off(mid);
    proof {
        assert(entry_views(left@) =~= all.take(mid as int));
        assert(entry_views(right@) =~= all.skip(mid as int));
    }
    let left = sort_entries(left);
    let right = sort_entries(right);
    merge(left, right)
}

/// Finds the first group that has room for an entry of `size`.
fn find_first_fit(groups: &Vec<Group>, size: u64, max_group_size: u64) -> (found: Option<usize>)
    ensures
        match found {
            Some(g) => first_fit(group_views(groups@), size, max_group_size) == Some(g as int),
            None => first_fit(group_views(groups@), size, max_group_size) is None,
        },
{
    let ghost all = group_views(groups@);
    let mut g: usize = 0;
    assert(all.take(0) =~= Seq::<GroupView>::empty());
    while g < groups.len()
        invariant
            0 <= g <= groups@.len(),
            all == group_views(groups@),
            first_fit(all.take(g as int), size, max_group_size) is None,
        decreases groups@.len() - g,
    {
        let ghost next = all.take(g as int + 1);
        assert(next.drop_last() =~= all.take(g as int));
        assert(next.last() == groups@[g as int]@);
        if size <= max_group_size && groups[g].size <= max_group_size - size {
            proof {
                lemma_first_fit_prefix(all, g as int + 1, size, max_group_size);
            }
            return Some(g);
        }
        g = g + 1;
    }
    assert(all.take(g as int) =~= all);
    None
}

/// What is the first fit among the first groups is the first fit among all.
pub proof fn lemma_first_fit_prefix(groups: Seq<GroupView>, n: int, size: u64, max_group_size: u64)
    requires
        0 <= n <= groups.len(),
        first_fit(groups.take(n), size, max_group_size) is Some,
    ensures
        first_fit(groups, size, max_group_size) == first_fit(groups.take(n), size, max_group_size),
    decreases groups.len() - n,
{
    if n < groups.len() {
        assert(groups.take(n + 1).drop_last() =~= groups.take(n));
        lemma_first_fit_prefix(groups, n + 1, size, max_group_size);
    } else {
        assert(groups.take(n) =~= groups);
    }
}

/// Finds, by halving, the first place whose group is smaller than `size`.
fn find_slot(groups: &Vec<Group>, size: u64) -> (at: usize)
    requires
        descending_groups(group_views(groups@)),
    ensures
        at == slot(group_views(groups@), size),
        at <= groups@.len(),
{
    let ghost all = group_views(groups@);
    let mut low: usize = 0;
    let mut high: usize = groups.len();
    while low < high
        invariant
            0 <= low <= high <= groups@.len(),
            all == group_views(groups@),
            descending_groups(all),
            forall|k: int| 0 <= k < low ==> (#[trigger] all[k]).size >= size,
            forall|k: int| high <= k < all.len() ==> (#[trigger] all[k]).size < size,
        decreases high - low,
    {
        let mid = low + (high - low) / 2;
        assert(all[mid as int] == groups@[mid as int]@);
        if groups[mid].size >= size {
            low = mid + 1;
        } else {
            high = mid;
        }
    }
    proof {
        let at = slot(all, size);
        lemma_slot(all, size);
        if low < at {
            assert(all[low as int].size >= size);
        } else if at < low {
            assert(all[at].size >= size);
        }
    }
    low
}

/// Puts `entry` into the first group that has room for it, or into a new
/// last one.
fn place_entry(groups: &mut Vec<Group>, entry: Entry, max_group_size: u64)
    requires
        descending_groups(group_views(old(groups)@)),
        at_least(group_views(old(groups)@), entry.size),
    ensures
        group_views(final(groups)@) == place(group_views(old(groups)@), entry@, max_group_size),
        descending_groups(group_views(final(groups)@)),
        at_least(group_views(final(groups)@), entry.size),
{
    let ghost before = group_views(groups@);
    proof {
        lemma_first_fit(before, entry.size, max_group_size);
        lemma_place_descending(before, entry@, max_group_size);
    }
    match find_first_fit(groups, entry.size, max_group_size) {
        None => {
            let size = entry.size;
            let mut entries: Vec<Entry> = Vec::new();
            entries.push(entry);
            assert(entry_views(entries@) =~= seq![entry@]);
            groups.push(Group { size, entries });
            assert(group_views(groups@) =~= before.push(
                GroupView { size: entry.size, entries: seq![entry@] },
            ));
        },
        Some(g) => {
            let ghost grown = GroupView {
                size: (before[g as int].size + entry.size) as u64,
                entries: before[g as int].entries.push(entry@),
            };
            assert(before[g as int] == groups@[g as int]@);
            let size = groups[g].size + entry.size;
            groups[g].size = size;
            groups[g].entries.push(entry);
            proof {
                assert(entry_views(groups@[g as int].entries@) =~= before[g as int].entries.push(
                    entry@,
                ));
                assert(group_views(groups@) =~= before.update(g as int, grown));
            }
            if g == 0 || groups[g - 1].size >= size {
                return ;
            }
            let group = groups.remove(g);
            proof {
                assert(group_views(groups@) =~= before.remove(g as int));
                lemma_remove_descending(before, g as int);
            }
            let at = find_slot(groups, size);
            groups.insert(at, group);
            assert(group_views(groups@) =~= before.remove(g as int).insert(at as int, grown));
        },
    }
}

/// Packs `index` into groups of at most `max_group_size`: the entries are
/// sorted by size, largest first, and each goes into the first group that
/// has room for it; an entry larger than the cap gets a group of its own.
/// The groups are those of `grouping`, which the same index and cap always
/// give.
pub fn create_groups(index: Vec<Entry>, max_group_size: u64) -> (groups: Vec<Group>)
    ensures
        group_views(groups@) == grouping(entry_views(index@), max_group_size),
{
    let mut sorted = sort_entries(index);
    let ghost entries = entry_views(sorted@);
    // The entries are taken from the back, so the order is turned first.
    let mut reversed: Vec<Entry> = Vec::new();
    assert(entry_views(sorted@) + entry_views(reversed@).reverse() =~= entries);
    while sorted.len() > 0
        invariant
            entries == entry_views(sorted@) + entry_views(reversed@).reverse(),
        decreases sorted@.len(),
    {
        let ghost front = entry_views(sorted@);
        let ghost back = entry_views(reversed@);
        match sorted.pop() {
            Some(entry) => {
                proof {
                    assert(entry_views(sorted@) =~= front.drop_last());
                    assert(entry_views(reversed@.push(entry)) =~= back.push(entry@));
                    assert(back.push(entry@).reverse() =~= seq![entry@] + back.reverse());
                    assert(front.drop_last() + (seq![front.last()] + back.reverse()) =~= front
                        + back.reverse());
                }
                reversed.push(entry);
            },
            None => vstd::pervasive::unreached(),
        }
    }
    let mut groups: Vec<Group> = Vec::new();
    let ghost mut placed: int = 0;
    proof {
        assert(entry_views(sorted@) + entry_views(reversed@).reverse() =~= entry_views(
            reversed@,
        ).reverse());
        assert(entries.take(0) =~= Seq::<EntryView>::empty());
        assert(entries.skip(0) =~= entries);
        assert(group_views(groups@) =~= Seq::<GroupView>::empty());
    }
    proof {
        lemma_sort_by_size(entry_views(index@));
    }
    while reversed.len() > 0
        invariant
            0 <= placed <= entries.len(),
            descending(entries),
            entry_views(reversed@).reverse() == entries.skip(placed),
            group_views(groups@) == place_all(entries.take(placed), max_group_size),
            descending_groups(group_views(groups@)),
            placed > 0 ==> at_least(group_views(groups@), entries[placed - 1].size),
        decreases reversed@.len(),
    {
        let ghost back = entry_views(reversed@);
        match reversed.pop() {
            Some(entry) => {
                proof {
                    assert(entry_views(reversed@) =~= back.drop_last());
                    assert(entry@ == back.last());
                    assert(back.reverse().len() == back.len());
                    assert(back.reverse()[0] == back.last());
                    assert(entries.skip(placed)[0] == entries[placed]);
                    assert(back.drop_last().reverse() =~= back.reverse().skip(1));
                    assert(entries.skip(placed).skip(1) =~= entries.skip(placed + 1));
                    assert(entries.take(placed + 1).drop_last() =~= entries.take(placed));
                    if placed > 0 {
                        assert(entries[placed - 1].size >= entries[placed].size);
                    }
                }
                place_entry(&mut groups, entry, max_group_size);
                proof {
                    placed = placed + 1;
                }
            },
            None => vstd::pervasive::unreached(),
        }
    }
    assert(entries.take(placed) =~= entries);
    groups
}

/// The items in the opposite order.
pub fn reversed<T>(items: Vec<T>) -> (turned: Vec<T>)
    ensures
        turned@ == items@.reverse(),
{
    let mut rest = items;
    let mut turned: Vec<T> = Vec::new();
    assert(rest@ + turned@.reverse() =~= items@);
    while rest.len() > 0
        invariant
            items@ == rest@ + turned@.reverse(),
        decreases rest@.len(),
    {
        let ghost front = rest@;
        let ghost back = turned@;
        match rest.pop() {
            Some(item) => {
                proof {
                    assert(back.push(item).reverse() =~= seq![item] + back.reverse());
                    assert(front.drop_last() + (seq![front.last()] + back.reverse()) =~= front
                        + back.reverse());
                }
                turned.push(item);
            },
            None => vstd::pervasive::unreached(),
        }
    }
    assert(turned@ =~= items@.reverse());
    turned
}

/// The entries of one group are among the entries of all.
pub proof fn lemma_group_is_part(groups: Seq<GroupView>, g: int)
    requires
        0 <= g < groups.len(),
    ensures
        groups[g].entries.to_multiset().subset_of(all_entries(groups)),
{
    let before = groups.take(g);
    let after = groups.skip(g + 1);
    assert(groups =~= before + seq![groups[g]] + after);
    lemma_all_entries_concat(before + seq![groups[g]], after);
    lemma_all_entries_concat(before, seq![groups[g]]);
    lemma_all_entries_one(groups[g]);
}

} // verus!
