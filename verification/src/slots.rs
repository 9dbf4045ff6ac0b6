//! Slot tables: growable tables whose freed slots are handed out again, so
//! that an identifier stays the same for as long as its slot is taken.

use vstd::prelude::*;

verus! {

/// `i` is the first free slot of the table, or its length when every slot is
/// taken.
pub open spec fn is_first_free<T>(slots: Seq<Option<T>>, i: int) -> bool {
    &&& 0 <= i <= slots.len()
    &&& forall|k: int| 0 <= k < i ==> (#[trigger] slots[k]) is Some
    &&& i < slots.len() ==> slots[i] is None
}

/// The slot that the next insertion takes.
pub open spec fn first_free<T>(slots: Seq<Option<T>>) -> int {
    choose|i: int| is_first_free(slots, i)
}

/// The table after `value` was put into slot `first_free(slots)`: a free
/// slot is filled, a full table grows by one.
pub open spec fn inserted<T>(slots: Seq<Option<T>>, value: T) -> Seq<Option<T>> {
    if first_free(slots) < slots.len() {
        slots.update(first_free(slots), Some(value))
    } else {
        slots.push(Some(value))
    }
}

/// At most one position is the first free slot.
pub proof fn lemma_first_free_unique<T>(slots: Seq<Option<T>>, i: int, j: int)
    requires
        is_first_free(slots, i),
        is_first_free(slots, j),
    ensures
        i == j,
{
    if i < j {
        assert(slots[i] is Some);
    } else if j < i {
        assert(slots[j] is Some);
    }
}

/// Every table has a first free slot.
pub proof fn lemma_first_free_exists<T>(slots: Seq<Option<T>>)
    ensures
        is_first_free(slots, first_free(slots)),
    decreases slots.len(),
{
    if slots.len() == 0 {
        assert(is_first_free(slots, 0));
    } else {
        let front = slots.drop_last();
        lemma_first_free_exists(front);
        let i = first_free(front);
        assert(forall|k: int| 0 <= k < front.len() ==> front[k] == slots[k]);
        if i < front.len() {
            assert(is_first_free(slots, i));
        } else if slots.last() is None {
            assert(is_first_free(slots, slots.len() - 1));
        } else {
            assert forall|k: int| 0 <= k < slots.len() implies (#[trigger] slots[k]) is Some by {
                if k < front.len() {
                    assert(front[k] is Some);
                }
            }
            assert(is_first_free(slots, slots.len() as int));
        }
    }
}

/// Finds the slot that the next insertion takes.
pub fn find_free<T>(slots: &Vec<Option<T>>) -> (id: usize)
    ensures
        id == first_free(slots@),
        is_first_free(slots@, id as int),
{
    let n: usize = slots.len();
    let mut i: usize = 0;
    while i < n
        invariant
            n == slots@.len(),
            i <= n,
            forall|k: int| 0 <= k < i ==> (#[trigger] slots@[k]) is Some,
        decreases n - i,
    {
        if slots[i].is_none() {
            proof {
                assert(is_first_free(slots@, i as int));
                lemma_first_free_unique(slots@, i as int, first_free(slots@));
            }
            return i;
        }
        i = i + 1;
    }
    proof {
        assert(is_first_free(slots@, n as int));
        lemma_first_free_unique(slots@, n as int, first_free(slots@));
    }
    n
}

/// Puts `value` into the first free slot, growing the table when none is
/// free, and returns the slot.
pub fn insert_slot<T>(slots: &mut Vec<Option<T>>, value: T) -> (id: usize)
    ensures
        id == first_free(old(slots)@),
        is_first_free(old(slots)@, id as int),
        final(slots)@ == inserted(old(slots)@, value),
        final(slots)@.len() == (if id < old(slots)@.len() {
            old(slots)@.len()
        } else {
            old(slots)@.len() + 1
        }),
        final(slots)@[id as int] == Some(value),
        forall|k: int| 0 <= k < old(slots)@.len() && k != id ==> final(slots)@[k] == old(slots)@[k],
{
    let id: usize = find_free(slots);
    if id < slots.len() {
        slots[id] = Some(value);
    } else {
        slots.push(Some(value));
    }
    id
}

/// The row read as if it went on with zeros: entry `i`, or zero past the end.
pub open spec fn entry(row: Seq<usize>, i: int) -> int {
    if 0 <= i < row.len() {
        row[i] as int
    } else {
        0
    }
}

/// The row grown with zeros to hold entry `i`, and that entry raised by one.
pub open spec fn bumped(row: Seq<usize>, i: int) -> Seq<usize> {
    Seq::new(
        if row.len() > i {
            row.len()
        } else {
            (i + 1) as nat
        },
        |k: int| (entry(row, k) + (if k == i { 1int } else { 0int })) as usize,
    )
}

/// The row with entry `i` lowered by one, unless it is zero or past the end.
pub open spec fn lowered(row: Seq<usize>, i: int) -> Seq<usize> {
    if 0 <= i < row.len() && row[i] > 0 {
        row.update(i, (row[i] - 1) as usize)
    } else {
        row
    }
}

/// Grows the row with zeros to hold entry `i`, and raises that entry by one.
pub fn bump(row: &mut Vec<usize>, i: usize)
    requires
        i < usize::MAX,
        entry(old(row)@, i as int) < usize::MAX,
    ensures
        final(row)@ == bumped(old(row)@, i as int),
{
    while row.len() <= i
        invariant
            i < usize::MAX,
            old(row)@.len() <= row@.len(),
            row@.len() <= old(row)@.len() || row@.len() <= i + 1,
            forall|k: int| 0 <= k < row@.len() ==> #[trigger] row@[k] == entry(old(row)@, k),
        decreases i + 1 - row@.len(),
    {
        row.push(0);
    }
    let value: usize = row[i];
    row[i] = value + 1;
    assert(row@ =~= bumped(old(row)@, i as int));
}

/// Lowers entry `i` of the row by one, unless it is zero or past the end.
pub fn lower(row: &mut Vec<usize>, i: usize)
    ensures
        final(row)@ == lowered(old(row)@, i as int),
{
    if i < row.len() {
        let value: usize = row[i];
        if value > 0 {
            row[i] = value - 1;
        }
    }
}

} // verus!
