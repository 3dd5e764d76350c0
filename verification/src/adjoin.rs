//! Lists that hold nothing twice: an item joins a list at its end, unless the
//! list holds it already.

use vstd::prelude::*;

verus! {

/// `list` with `item` at its end, unless `list` holds `item` already.
pub open spec fn adjoin<T>(list: Seq<T>, item: T) -> Seq<T> {
    if list.contains(item) {
        list
    } else {
        list.push(item)
    }
}

/// `list` with the items of `items` adjoined one after the other.
pub open spec fn adjoin_all<T>(list: Seq<T>, items: Seq<T>) -> Seq<T>
    decreases items.len(),
{
    if items.len() == 0 {
        list
    } else {
        adjoin(adjoin_all(list, items.drop_last()), items.last())
    }
}

/// `list` with `item` adjoined, unless `seen` holds `item`.
pub open spec fn adjoin_unless_in<T>(list: Seq<T>, item: T, seen: Seq<T>) -> Seq<T> {
    if seen.contains(item) {
        list
    } else {
        adjoin(list, item)
    }
}

/// `list` with those of `items` adjoined, one after the other, that `seen` does not hold.
pub open spec fn adjoin_all_unless_in<T>(list: Seq<T>, items: Seq<T>, seen: Seq<T>) -> Seq<T>
    decreases items.len(),
{
    if items.len() == 0 {
        list
    } else {
        adjoin_unless_in(
            adjoin_all_unless_in(list, items.drop_last(), seen),
            items.last(),
            seen,
        )
    }
}

/// An adjoined item is a member, beside the members that the list had.
pub proof fn lemma_adjoin_members<T>(list: Seq<T>, item: T)
    ensures
        forall|other: T| #[trigger]
            adjoin(list, item).contains(other) <==> list.contains(other) || other == item,
        list.no_duplicates() ==> adjoin(list, item).no_duplicates(),
{
    assert forall|other: T| #[trigger]
        adjoin(list, item).contains(other) <==> list.contains(other) || other == item by {
        if list.contains(other) {
            let i = choose|i: int| 0 <= i < list.len() && list[i] == other;
            assert(adjoin(list, item)[i] == other);
        }
        if other == item && !list.contains(item) {
            assert(list.push(item)[list.len() as int] == item);
        }
    }
}

/// What a list holds after items were adjoined: what it held, in the same
/// places, and the items; and nothing twice if it held nothing twice.
pub proof fn lemma_adjoin_all<T>(list: Seq<T>, items: Seq<T>)
    ensures
        list.is_prefix_of(adjoin_all(list, items)),
        forall|item: T| #[trigger]
            adjoin_all(list, items).contains(item) <==> list.contains(item) || items.contains(
                item,
            ),
        list.no_duplicates() ==> adjoin_all(list, items).no_duplicates(),
    decreases items.len(),
{
    if items.len() > 0 {
        let shorter = adjoin_all(list, items.drop_last());
        lemma_adjoin_all(list, items.drop_last());
        assert forall|item: T| #[trigger]
            adjoin_all(list, items).contains(item) <==> list.contains(item) || items.contains(
                item,
            ) by {
            if items.contains(item) {
                let i = choose|i: int| 0 <= i < items.len() && items[i] == item;
                if i < items.len() - 1 {
                    assert(items.drop_last()[i] == item);
                    assert(items.drop_last().contains(item));
                }
            }
            if items.drop_last().contains(item) {
                let i = choose|i: int| 0 <= i < items.len() - 1 && items.drop_last()[i] == item;
                assert(items[i] == item);
            }
            if shorter.contains(item) {
                let i = choose|i: int| 0 <= i < shorter.len() && shorter[i] == item;
                assert(shorter.push(items.last())[i] == item);
            }
            assert(items[items.len() - 1] == items.last());
            if !shorter.contains(items.last()) {
                assert(shorter.push(items.last())[shorter.len() as int] == items.last());
            }
        }
    }
}

/// What a list holds after items were adjoined that `seen` does not hold: what
/// it held, in the same places, and some of the items; and nothing twice if it
/// held nothing twice.
pub proof fn lemma_adjoin_all_unless_in<T>(list: Seq<T>, items: Seq<T>, seen: Seq<T>)
    ensures
        list.is_prefix_of(adjoin_all_unless_in(list, items, seen)),
        forall|item: T| #[trigger]
            adjoin_all_unless_in(list, items, seen).contains(item) ==> list.contains(item)
                || items.contains(item),
        list.no_duplicates() ==> adjoin_all_unless_in(list, items, seen).no_duplicates(),
    decreases items.len(),
{
    if items.len() > 0 {
        let shorter = adjoin_all_unless_in(list, items.drop_last(), seen);
        lemma_adjoin_all_unless_in(list, items.drop_last(), seen);
        assert forall|item: T| #[trigger]
            adjoin_all_unless_in(list, items, seen).contains(item) implies list.contains(item)
            || items.contains(item) by {
            let longer = adjoin_all_unless_in(list, items, seen);
            let i = choose|i: int| 0 <= i < longer.len() && longer[i] == item;
            if i < shorter.len() {
                assert(shorter[i] == item);
                assert(shorter.contains(item));
                if items.drop_last().contains(item) {
                    let j = choose|j: int|
                        0 <= j < items.len() - 1 && items.drop_last()[j] == item;
                    assert(items[j] == item);
                }
            } else {
                assert(items[items.len() - 1] == item);
            }
        }
    }
}

} // verus!
