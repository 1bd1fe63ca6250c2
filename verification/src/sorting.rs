//! Lists that are put into the order of their items' ids.
use vstd::prelude::*;

use crate::ordered::models;
use crate::text;

verus! {

/// Items that have an id.
pub trait Named: View + Sized {
    /// The id of the item of a model.
    spec fn id_of(model: Self::V) -> Seq<char>;

    /// The id of this item.
    fn id(&self) -> (r: &str)
        ensures
            r@ == Self::id_of(self@),
    ;
}

/// Where the first item of an id stands, or behind the end.
pub open spec fn first_of<T: Named>(list: Seq<T::V>, id: Seq<char>) -> int
    decreases list.len(),
{
    if list.len() == 0 || T::id_of(list[0]) == id {
        0
    } else {
        1 + first_of::<T>(list.drop_first(), id)
    }
}

/// Whether every item's id is less than that of any item behind it.
pub open spec fn strictly_by_id<T: Named>(list: Seq<T::V>) -> bool {
    forall|i: int, j: int|
        0 <= i < j < list.len() ==> text::text_less(
            T::id_of(#[trigger] list[i]),
            T::id_of(#[trigger] list[j]),
        )
}

/// A sorted list with one more item, which stands behind all whose ids are not greater.
pub open spec fn slotted<T: Named>(list: Seq<T::V>, item: T::V) -> Seq<T::V>
    decreases list.len(),
{
    if list.len() == 0 || !text::text_less(T::id_of(item), T::id_of(list.last())) {
        list.push(item)
    } else {
        slotted::<T>(list.drop_last(), item).push(list.last())
    }
}

/// A list in ascending order of its items' ids; items of the same id keep their order.
pub open spec fn sorted_by_id<T: Named>(list: Seq<T::V>) -> Seq<T::V>
    decreases list.len(),
{
    if list.len() == 0 {
        list
    } else {
        slotted::<T>(sorted_by_id::<T>(list.drop_last()), list.last())
    }
}

pub proof fn lemma_first_of<T: Named>(list: Seq<T::V>, id: Seq<char>)
    ensures
        0 <= first_of::<T>(list, id) <= list.len(),
        forall|i: int|
            0 <= i < first_of::<T>(list, id) ==> T::id_of(#[trigger] list[i]) != id,
        first_of::<T>(list, id) < list.len() ==> T::id_of(list[first_of::<T>(list, id)]) == id,
    decreases list.len(),
{
    if list.len() > 0 && T::id_of(list[0]) != id {
        let rest = list.drop_first();
        lemma_first_of::<T>(rest, id);
        assert forall|i: int| 0 <= i < first_of::<T>(list, id) implies T::id_of(
            #[trigger] list[i],
        ) != id by {
            if i > 0 {
                assert(list[i] == rest[i - 1]);
            }
        }
    }
}

pub proof fn lemma_first_of_is<T: Named>(list: Seq<T::V>, id: Seq<char>, at: int)
    requires
        0 <= at <= list.len(),
        forall|i: int| 0 <= i < at ==> T::id_of(#[trigger] list[i]) != id,
        at < list.len() ==> T::id_of(list[at]) == id,
    ensures
        first_of::<T>(list, id) == at,
    decreases list.len(),
{
    if at > 0 {
        assert(T::id_of(list[0]) != id);
        let rest = list.drop_first();
        assert forall|i: int| 0 <= i < at - 1 implies T::id_of(#[trigger] rest[i]) != id by {
            assert(rest[i] == list[i + 1]);
        }
        lemma_first_of_is::<T>(rest, id, at - 1);
    }
}

/// Where the first item of an id stands, or behind the end.
pub fn find_first<T: Named>(list: &Vec<T>, id: &str) -> (r: usize)
    ensures
        r == first_of::<T>(models(list@), id@),
        r <= list.len(),
        forall|k: int| 0 <= k < r ==> T::id_of(#[trigger] models(list@)[k]) != id@,
        r < list.len() ==> T::id_of(models(list@)[r as int]) == id@,
{
    let ghost all = models(list@);
    let mut i: usize = 0;
    while i < list.len() && !text::same_text(list[i].id(), id)
        invariant
            i <= list.len(),
            all == models(list@),
            forall|k: int| 0 <= k < i ==> T::id_of(#[trigger] all[k]) != id@,
        decreases list.len() - i,
    {
        assert(all[i as int] == list@[i as int]@);
        i = i + 1;
    }
    proof {
        if i < list.len() {
            assert(all[i as int] == list@[i as int]@);
        }
        lemma_first_of_is::<T>(all, id@, i as int);
    }
    i
}

proof fn lemma_slotted_is<T: Named>(list: Seq<T::V>, item: T::V, at: int)
    requires
        0 <= at <= list.len(),
        forall|i: int|
            at <= i < list.len() ==> text::text_less(T::id_of(item), T::id_of(#[trigger] list[i])),
        at > 0 ==> !text::text_less(T::id_of(item), T::id_of(list[at - 1])),
    ensures
        slotted::<T>(list, item) == list.insert(at, item),
    decreases list.len(),
{
    if at == list.len() {
        assert(list.push(item) =~= list.insert(at, item));
    } else {
        let short = list.drop_last();
        assert(text::text_less(T::id_of(item), T::id_of(list[list.len() - 1])));
        assert forall|i: int| at <= i < short.len() implies text::text_less(
            T::id_of(item),
            T::id_of(#[trigger] short[i]),
        ) by {
            assert(short[i] == list[i]);
        }
        lemma_slotted_is::<T>(short, item, at);
        assert(short.insert(at, item).push(list.last()) =~= list.insert(at, item));
    }
}

proof fn lemma_sorted_len<T: Named>(list: Seq<T::V>)
    ensures
        sorted_by_id::<T>(list).len() == list.len(),
    decreases list.len(),
{
    if list.len() > 0 {
        lemma_sorted_len::<T>(list.drop_last());
        lemma_slotted_len::<T>(sorted_by_id::<T>(list.drop_last()), list.last());
    }
}

proof fn lemma_slotted_len<T: Named>(list: Seq<T::V>, item: T::V)
    ensures
        slotted::<T>(list, item).len() == list.len() + 1,
    decreases list.len(),
{
    if list.len() > 0 {
        lemma_slotted_len::<T>(list.drop_last(), item);
    }
}

/// Puts a list into ascending order of its items' ids; items of the same id keep their order.
pub fn sort_by_id<T: Named>(list: &mut Vec<T>)
    ensures
        models(final(list)@) == sorted_by_id::<T>(models(old(list)@)),
{
    let ghost all = models(list@);
    let mut i: usize = 0;
    proof {
        assert(all =~= sorted_by_id::<T>(all.take(0)) + all.skip(0));
    }
    while i < list.len()
        invariant
            i <= list.len(),
            list.len() == all.len(),
            models(list@) == sorted_by_id::<T>(all.take(i as int)) + all.skip(i as int),
        decreases list.len() - i,
    {
        let ghost front = sorted_by_id::<T>(all.take(i as int));
        let ghost item = all[i as int];
        let ghost held = models(list@);
        proof {
            lemma_sorted_len::<T>(all.take(i as int));
            assert(held[i as int] == item);
            assert(list@[i as int]@ == item);
        }
        let mut at: usize = i;
        while at > 0 && text::precedes(list[i].id(), list[at - 1].id())
            invariant
                at <= i < list.len(),
                held == models(list@),
                front.len() == i,
                forall|k: int| 0 <= k < i ==> #[trigger] front[k] == held[k],
                item == list@[i as int]@,
                forall|k: int|
                    at <= k < i ==> text::text_less(T::id_of(item), T::id_of(#[trigger] front[k])),
            decreases at,
        {
            proof {
                assert(front[at - 1] == held[at - 1]);
                assert(held[at - 1] == list@[at - 1]@);
            }
            at = at - 1;
        }
        proof {
            if at > 0 {
                assert(front[at - 1] == held[at - 1]);
                assert(held[at - 1] == list@[at - 1]@);
            }
            lemma_slotted_is::<T>(front, item, at as int);
            assert(all.take(i + 1).drop_last() =~= all.take(i as int));
            assert(all.take(i + 1).last() == item);
        }
        let ghost items = list@;
        let moved: T = list.remove(i);
        list.insert(at, moved);
        proof {
            let now = models(list@);
            let want = front.insert(at as int, item) + all.skip(i + 1);
            assert(list@ =~= items.remove(i as int).insert(at as int, items[i as int]));
            assert forall|k: int| 0 <= k < now.len() implies #[trigger] now[k] == want[k] by {
                if k < at {
                    assert(now[k] == held[k]);
                } else if at < k <= i {
                    assert(now[k] == held[k - 1]);
                    assert(front[k - 1] == held[k - 1]);
                } else if k > i {
                    assert(now[k] == held[k]);
                    assert(held[k] == all[k]);
                }
            }
            assert(now =~= want);
        }
        i = i + 1;
    }
    proof {
        assert(all.take(i as int) =~= all);
        assert(sorted_by_id::<T>(all) + all.skip(i as int) =~= sorted_by_id::<T>(all));
    }
}

/// A list of which every item's id is less than that of any item behind it is not changed by
/// sorting.
pub proof fn law_sorted_stays<T: Named>(list: Seq<T::V>)
    requires
        strictly_by_id::<T>(list),
    ensures
        sorted_by_id::<T>(list) == list,
    decreases list.len(),
{
    if list.len() > 0 {
        let short = list.drop_last();
        assert forall|i: int, j: int| 0 <= i < j < short.len() implies text::text_less(
            T::id_of(#[trigger] short[i]),
            T::id_of(#[trigger] short[j]),
        ) by {
            assert(short[i] == list[i]);
            assert(short[j] == list[j]);
        }
        law_sorted_stays::<T>(short);
        let item = list.last();
        if short.len() > 0 {
            assert(text::text_less(
                T::id_of(list[short.len() - 1]),
                T::id_of(list[list.len() - 1]),
            ));
            if text::text_less(T::id_of(item), T::id_of(short.last())) {
                text::lemma_text_less_transitive(
                    T::id_of(item),
                    T::id_of(short.last()),
                    T::id_of(item),
                );
                text::lemma_text_less_irreflexive(T::id_of(item));
            }
        }
        assert(short.push(item) =~= list);
    }
}

proof fn lemma_slotted<T: Named>(list: Seq<T::V>, item: T::V, id: Seq<char>)
    requires
        forall|i: int, j: int|
            0 <= i < j < list.len() ==> !text::text_less(
                T::id_of(#[trigger] list[j]),
                T::id_of(#[trigger] list[i]),
            ),
    ensures
        forall|i: int, j: int|
            0 <= i < j < slotted::<T>(list, item).len() ==> !text::text_less(
                T::id_of(#[trigger] slotted::<T>(list, item)[j]),
                T::id_of(#[trigger] slotted::<T>(list, item)[i]),
            ),
        slotted::<T>(list, item).filter(|m: T::V| T::id_of(m) == id) == list.push(item).filter(
            |m: T::V| T::id_of(m) == id,
        ),
        slotted::<T>(list, item).to_multiset() == list.push(item).to_multiset(),
        forall|i: int|
            0 <= i < slotted::<T>(list, item).len() ==> #[trigger] slotted::<T>(list, item)[i]
                == item || list.contains(slotted::<T>(list, item)[i]),
    decreases list.len(),
{
    let test = |m: T::V| T::id_of(m) == id;
    let out = slotted::<T>(list, item);
    if list.len() == 0 || !text::text_less(T::id_of(item), T::id_of(list.last())) {
        assert forall|i: int, j: int| 0 <= i < j < out.len() implies !text::text_less(
            T::id_of(#[trigger] out[j]),
            T::id_of(#[trigger] out[i]),
        ) by {
            if j == list.len() {
                let top = list.len() - 1;
                if text::text_less(T::id_of(item), T::id_of(list[i])) {
                    if i < top {
                        assert(!text::text_less(T::id_of(list[top]), T::id_of(list[i])));
                        text::lemma_text_less_total(T::id_of(list[top]), T::id_of(list[i]));
                        if T::id_of(list[top]) != T::id_of(list[i]) {
                            text::lemma_text_less_transitive(
                                T::id_of(item),
                                T::id_of(list[i]),
                                T::id_of(list[top]),
                            );
                        }
                    }
                }
            }
        }
        assert forall|i: int| 0 <= i < out.len() implies #[trigger] out[i] == item
            || list.contains(out[i]) by {
            if i < list.len() {
                assert(out[i] == list[i]);
            }
        }
    } else {
        let short = list.drop_last();
        let last = list.last();
        assert forall|i: int, j: int| 0 <= i < j < short.len() implies !text::text_less(
            T::id_of(#[trigger] short[j]),
            T::id_of(#[trigger] short[i]),
        ) by {
            assert(short[i] == list[i]);
            assert(short[j] == list[j]);
        }
        lemma_slotted::<T>(short, item, id);
        let inner = slotted::<T>(short, item);
        assert forall|i: int| 0 <= i < out.len() implies #[trigger] out[i] == item
            || list.contains(out[i]) by {
            if i < inner.len() {
                assert(out[i] == inner[i]);
                if inner[i] != item {
                    let k = choose|k: int| 0 <= k < short.len() && short[k] == inner[i];
                    assert(list[k] == inner[i]);
                }
            } else {
                assert(out[i] == list[list.len() - 1]);
            }
        }
        assert forall|i: int, j: int| 0 <= i < j < out.len() implies !text::text_less(
            T::id_of(#[trigger] out[j]),
            T::id_of(#[trigger] out[i]),
        ) by {
            if j < inner.len() {
                assert(out[i] == inner[i]);
                assert(out[j] == inner[j]);
            } else {
                assert(out[i] == inner[i]);
                if inner[i] == item {
                    if text::text_less(T::id_of(last), T::id_of(item)) {
                        text::lemma_text_less_transitive(
                            T::id_of(last),
                            T::id_of(item),
                            T::id_of(last),
                        );
                        text::lemma_text_less_irreflexive(T::id_of(last));
                    }
                } else {
                    let k = choose|k: int| 0 <= k < short.len() && short[k] == inner[i];
                    assert(list[k] == inner[i]);
                    assert(!text::text_less(T::id_of(list[list.len() - 1]), T::id_of(list[k])));
                }
            }
        }
        assert(T::id_of(item) != T::id_of(last)) by {
            text::lemma_text_less_irreflexive(T::id_of(last));
        }
        assert(out.drop_last() =~= inner);
        assert(list.push(item).drop_last() =~= list);
        assert(short.push(item).drop_last() =~= short);
        reveal(Seq::filter);
        assert(out.filter(test) == if test(last) {
            inner.filter(test).push(last)
        } else {
            inner.filter(test)
        });
        assert(list.filter(test) == if test(last) {
            short.filter(test).push(last)
        } else {
            short.filter(test)
        });
        assert(list.push(item).filter(test) == if test(item) {
            list.filter(test).push(item)
        } else {
            list.filter(test)
        });
        assert(short.push(item).filter(test) == if test(item) {
            short.filter(test).push(item)
        } else {
            short.filter(test)
        });
        broadcast use vstd::seq_lib::group_to_multiset_ensures;

        assert(list =~= short.push(last));
        assert(out.to_multiset() =~= list.push(item).to_multiset());
    }
}

/// Sorting puts items into ascending order of their ids, keeps every item as often as it was
/// there, and leaves items of the same id in their order.
pub proof fn law_sorting<T: Named>(list: Seq<T::V>, id: Seq<char>)
    ensures
        sorted_by_id::<T>(list).len() == list.len(),
        forall|i: int, j: int|
            0 <= i < j < list.len() ==> !text::text_less(
                T::id_of(#[trigger] sorted_by_id::<T>(list)[j]),
                T::id_of(#[trigger] sorted_by_id::<T>(list)[i]),
            ),
        sorted_by_id::<T>(list).to_multiset() == list.to_multiset(),
        sorted_by_id::<T>(list).filter(|m: T::V| T::id_of(m) == id) == list.filter(
            |m: T::V| T::id_of(m) == id,
        ),
    decreases list.len(),
{
    lemma_sorted_len::<T>(list);
    if list.len() > 0 {
        let test = |m: T::V| T::id_of(m) == id;
        let short = list.drop_last();
        law_sorting::<T>(short, id);
        lemma_sorted_len::<T>(short);
        let inner = sorted_by_id::<T>(short);
        let item = list.last();
        lemma_slotted::<T>(inner, item, id);
        assert(inner.push(item).drop_last() =~= inner);
        reveal(Seq::filter);
        assert(list.filter(test) == if test(item) {
            short.filter(test).push(item)
        } else {
            short.filter(test)
        });
        assert(inner.push(item).filter(test) == if test(item) {
            inner.filter(test).push(item)
        } else {
            inner.filter(test)
        });
        broadcast use vstd::seq_lib::group_to_multiset_ensures;

        assert(list =~= short.push(item));
    }
}

/// A sorted list holds what the list held, and nothing else.
pub proof fn lemma_sorted_contains<T: Named>(list: Seq<T::V>, item: T::V)
    ensures
        sorted_by_id::<T>(list).contains(item) <==> list.contains(item),
{
    law_sorting::<T>(list, T::id_of(item));
    broadcast use vstd::seq_lib::group_to_multiset_ensures;

    assert(sorted_by_id::<T>(list).contains(item) <==> sorted_by_id::<T>(list).to_multiset().count(
        item,
    ) > 0);
    assert(list.contains(item) <==> list.to_multiset().count(item) > 0);
}

/// One more item of a new id leaves a list, once it is sorted, strictly in order.
pub proof fn law_sorting_one_more<T: Named>(list: Seq<T::V>, item: T::V)
    requires
        strictly_by_id::<T>(list),
        first_of::<T>(list, T::id_of(item)) == list.len(),
    ensures
        strictly_by_id::<T>(sorted_by_id::<T>(list.push(item))),
{
    let id = T::id_of(item);
    let all = list.push(item);
    let out = sorted_by_id::<T>(all);
    lemma_first_of::<T>(list, id);
    law_sorting::<T>(all, id);
    assert(all.drop_last() =~= list);
    law_sorted_stays::<T>(list);
    assert(out == slotted::<T>(list, item));
    lemma_slotted_strict::<T>(list, item);
}

proof fn lemma_slotted_strict<T: Named>(list: Seq<T::V>, item: T::V)
    requires
        strictly_by_id::<T>(list),
        forall|i: int| 0 <= i < list.len() ==> T::id_of(#[trigger] list[i]) != T::id_of(item),
    ensures
        strictly_by_id::<T>(slotted::<T>(list, item)),
        forall|i: int|
            0 <= i < slotted::<T>(list, item).len() ==> #[trigger] slotted::<T>(list, item)[i]
                == item || list.contains(slotted::<T>(list, item)[i]),
    decreases list.len(),
{
    let out = slotted::<T>(list, item);
    if list.len() == 0 || !text::text_less(T::id_of(item), T::id_of(list.last())) {
        assert forall|i: int, j: int| 0 <= i < j < out.len() implies text::text_less(
            T::id_of(#[trigger] out[i]),
            T::id_of(#[trigger] out[j]),
        ) by {
            if j == list.len() {
                let top = list.len() - 1;
                text::lemma_text_less_total(T::id_of(item), T::id_of(list[top]));
                assert(T::id_of(list[top]) != T::id_of(item));
                if i < top {
                    assert(text::text_less(T::id_of(list[i]), T::id_of(list[top])));
                    text::lemma_text_less_transitive(
                        T::id_of(list[i]),
                        T::id_of(list[top]),
                        T::id_of(item),
                    );
                }
            }
        }
        assert forall|i: int| 0 <= i < out.len() implies #[trigger] out[i] == item
            || list.contains(out[i]) by {
            if i < list.len() {
                assert(out[i] == list[i]);
            }
        }
    } else {
        let short = list.drop_last();
        assert forall|i: int, j: int| 0 <= i < j < short.len() implies text::text_less(
            T::id_of(#[trigger] short[i]),
            T::id_of(#[trigger] short[j]),
        ) by {
            assert(short[i] == list[i]);
            assert(short[j] == list[j]);
        }
        assert forall|i: int| 0 <= i < short.len() implies T::id_of(#[trigger] short[i])
            != T::id_of(item) by {
            assert(short[i] == list[i]);
        }
        lemma_slotted_strict::<T>(short, item);
        let inner = slotted::<T>(short, item);
        assert forall|i: int| 0 <= i < out.len() implies #[trigger] out[i] == item
            || list.contains(out[i]) by {
            if i < inner.len() {
                assert(out[i] == inner[i]);
                if inner[i] != item {
                    let k = choose|k: int| 0 <= k < short.len() && short[k] == inner[i];
                    assert(list[k] == inner[i]);
                }
            } else {
                assert(out[i] == list[list.len() - 1]);
            }
        }
        assert forall|i: int, j: int| 0 <= i < j < out.len() implies text::text_less(
            T::id_of(#[trigger] out[i]),
            T::id_of(#[trigger] out[j]),
        ) by {
            assert(out[i] == inner[i]);
            if j < inner.len() {
                assert(out[j] == inner[j]);
            } else if inner[i] != item {
                let k = choose|k: int| 0 <= k < short.len() && short[k] == inner[i];
                assert(list[k] == inner[i]);
                assert(text::text_less(T::id_of(list[k]), T::id_of(list[list.len() - 1])));
            }
        }
    }
}

} // verus!
