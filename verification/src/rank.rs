//! Choosing and ordering the best results.
use vstd::multiset::Multiset;
use vstd::prelude::*;

use crate::ordered::models;
use crate::results::{RankedModel, RankedNodeResult};
use crate::text;

verus! {

broadcast use {vstd::seq_lib::group_to_multiset_ensures, vstd::multiset::group_multiset_properties};

// ---------------------------------------------------------------------------------------------
// The order of scores
// ---------------------------------------------------------------------------------------------

/// Where a single, given by its bits, stands in the total order of IEEE 754: below zero the order
/// of the bits is turned around, and the negative zero comes right before the positive one.
pub open spec fn total_place(bits: u32) -> int {
    if bits < 0x8000_0000 {
        bits as int
    } else {
        0x7fff_ffff - bits
    }
}

/// Where a single that is a number stands by its value: both zeros stand at the same place.
pub open spec fn value_place(bits: u32) -> int {
    if bits < 0x8000_0000 {
        bits as int
    } else {
        0x8000_0000 - bits
    }
}

/// Whether the bits of a single are those of a number, an infinite one among them.
pub open spec fn is_number(bits: u32) -> bool {
    bits <= 0x7f80_0000 || 0x8000_0000 <= bits <= 0xff80_0000
}

/// Whether a result is to be kept rather than another one: it has the greater score, or the same
/// score and the lesser id.
pub open spec fn better(a: RankedModel, b: RankedModel) -> bool {
    total_place(a.score) > total_place(b.score) || (total_place(a.score) == total_place(b.score)
        && text::text_less(a.node.id, b.node.id))
}

/// Whether a result is to be listed before another one: it has the greater score, or the same
/// score and the lesser id. A score that is no number counts as the same as any other.
pub open spec fn comes_before(a: RankedModel, b: RankedModel) -> bool {
    if is_number(a.score) && is_number(b.score) && value_place(a.score) != value_place(b.score) {
        value_place(a.score) > value_place(b.score)
    } else {
        text::text_less(a.node.id, b.node.id)
    }
}

/// Where a single stands in the total order.
fn total_place_of(bits: u32) -> (r: i64)
    ensures
        r == total_place(bits),
{
    if bits < 0x8000_0000 {
        bits as i64
    } else {
        0x7fff_ffff - bits as i64
    }
}

/// Where a single stands by its value.
pub fn value_place_of(bits: u32) -> (r: i64)
    ensures
        r == value_place(bits),
{
    if bits < 0x8000_0000 {
        bits as i64
    } else {
        0x8000_0000 - bits as i64
    }
}

/// Whether a result is to be kept rather than another one.
pub fn is_better(a: &RankedNodeResult, b: &RankedNodeResult) -> (r: bool)
    ensures
        r == better(a@, b@),
{
    let left: i64 = total_place_of(a.score);
    let right: i64 = total_place_of(b.score);
    left > right || (left == right && text::precedes(a.node.id.as_str(), b.node.id.as_str()))
}

/// Whether the bits of a single are those of a number.
pub fn holds_number(bits: u32) -> (r: bool)
    ensures
        r == is_number(bits),
{
    bits <= 0x7f80_0000 || (0x8000_0000 <= bits && bits <= 0xff80_0000)
}

/// Whether a result is to be listed before another one.
pub fn is_before(a: &RankedNodeResult, b: &RankedNodeResult) -> (r: bool)
    ensures
        r == comes_before(a@, b@),
{
    let left: i64 = value_place_of(a.score);
    let right: i64 = value_place_of(b.score);
    if holds_number(a.score) && holds_number(b.score) && left != right {
        left > right
    } else {
        text::precedes(a.node.id.as_str(), b.node.id.as_str())
    }
}

proof fn lemma_better_transitive(a: RankedModel, b: RankedModel, c: RankedModel)
    requires
        !better(a, b),
        !better(b, c),
    ensures
        !better(a, c),
{
    let (i, j, k) = (a.node.id, b.node.id, c.node.id);
    text::lemma_text_less_total(i, j);
    text::lemma_text_less_total(j, k);
    if text::text_less(k, j) && text::text_less(j, i) {
        text::lemma_text_less_transitive(k, j, i);
    }
    if text::text_less(i, k) && text::text_less(k, i) {
        text::lemma_text_less_transitive(i, k, i);
    }
    text::lemma_text_less_irreflexive(i);
}

proof fn lemma_before_transitive(a: RankedModel, b: RankedModel, c: RankedModel)
    requires
        !comes_before(a, b),
        !comes_before(b, c),
        is_number(a.score) == is_number(b.score),
        is_number(b.score) == is_number(c.score),
    ensures
        !comes_before(a, c),
{
    let (i, j, k) = (a.node.id, b.node.id, c.node.id);
    text::lemma_text_less_total(i, j);
    text::lemma_text_less_total(j, k);
    if text::text_less(k, j) && text::text_less(j, i) {
        text::lemma_text_less_transitive(k, j, i);
    }
    if text::text_less(i, k) && text::text_less(k, i) {
        text::lemma_text_less_transitive(i, k, i);
    }
    text::lemma_text_less_irreflexive(i);
}

proof fn lemma_before_asymmetric(a: RankedModel, b: RankedModel)
    requires
        comes_before(a, b),
    ensures
        !comes_before(b, a),
{
    if text::text_less(a.node.id, b.node.id) && text::text_less(b.node.id, a.node.id) {
        text::lemma_text_less_transitive(a.node.id, b.node.id, a.node.id);
    }
    text::lemma_text_less_irreflexive(a.node.id);
}

proof fn lemma_better_asymmetric(a: RankedModel, b: RankedModel)
    requires
        better(a, b),
    ensures
        !better(b, a),
{
    if text::text_less(a.node.id, b.node.id) && text::text_less(b.node.id, a.node.id) {
        text::lemma_text_less_transitive(a.node.id, b.node.id, a.node.id);
    }
    text::lemma_text_less_irreflexive(a.node.id);
}

// ---------------------------------------------------------------------------------------------
// The best ones
// ---------------------------------------------------------------------------------------------

/// Where the first of the results stands that is better than no other one.
pub open spec fn worst_at(kept: Seq<RankedModel>) -> int
    decreases kept.len(),
{
    if kept.len() <= 1 {
        0
    } else {
        let before = worst_at(kept.drop_last());
        if better(kept[before], kept.last()) {
            kept.len() - 1
        } else {
            before
        }
    }
}

/// The results to keep after one more has come: all of them up to the limit; after that, the new
/// one in the place of the worst one, if it is better.
pub open spec fn kept_with(kept: Seq<RankedModel>, limit: usize, result: RankedModel) -> Seq<
    RankedModel,
> {
    if limit == 0 {
        kept
    } else if kept.len() < limit {
        kept.push(result)
    } else if better(result, kept[worst_at(kept)]) {
        kept.remove(worst_at(kept)).push(result)
    } else {
        kept
    }
}

proof fn lemma_worst(kept: Seq<RankedModel>)
    requires
        kept.len() > 0,
    ensures
        0 <= worst_at(kept) < kept.len(),
        forall|i: int|
            0 <= i < kept.len() ==> !better(kept[worst_at(kept)], #[trigger] kept[i]),
    decreases kept.len(),
{
    if kept.len() == 1 {
        text::lemma_text_less_irreflexive(kept[0].node.id);
    } else {
        let short = kept.drop_last();
        lemma_worst(short);
        let before = worst_at(short);
        let last = kept.last();
        text::lemma_text_less_irreflexive(last.node.id);
        assert forall|i: int| 0 <= i < kept.len() implies !better(
            kept[worst_at(kept)],
            #[trigger] kept[i],
        ) by {
            if i < short.len() {
                assert(short[i] == kept[i]);
                if better(kept[before], last) {
                    lemma_better_asymmetric(kept[before], last);
                    lemma_better_transitive(last, kept[before], kept[i]);
                }
            }
        }
    }
}

/// Where the first of the results stands that is better than no other one.
fn find_worst(kept: &Vec<RankedNodeResult>) -> (r: usize)
    requires
        kept.len() > 0,
    ensures
        r == worst_at(models(kept@)),
        r < kept.len(),
{
    let ghost all = models(kept@);
    let mut worst: usize = 0;
    let mut i: usize = 1;
    proof {
        assert(all.take(1).len() == 1);
    }
    while i < kept.len()
        invariant
            1 <= i <= kept.len(),
            worst < i,
            all == models(kept@),
            worst == worst_at(all.take(i as int)),
        decreases kept.len() - i,
    {
        proof {
            assert(all.take(i + 1).drop_last() =~= all.take(i as int));
            assert(all.take(i + 1)[worst as int] == kept@[worst as int]@);
            assert(all.take(i + 1).last() == kept@[i as int]@);
        }
        if is_better(&kept[worst], &kept[i]) {
            worst = i;
        }
        i = i + 1;
    }
    proof {
        assert(all.take(i as int) =~= all);
    }
    worst
}

/// Keeps a result, if it is one of the best.
pub fn push_top_ranked_result(
    kept: &mut Vec<RankedNodeResult>,
    limit: usize,
    result: RankedNodeResult,
)
    ensures
        models(final(kept)@) == kept_with(models(old(kept)@), limit, result@),
{
    if limit == 0 {
        return;
    }
    let ghost before = kept@;
    if kept.len() < limit {
        kept.push(result);
        proof {
            assert(models(kept@) =~= models(before).push(result@));
        }
        return;
    }
    let worst: usize = find_worst(kept);
    if is_better(&result, &kept[worst]) {
        kept.remove(worst);
        kept.push(result);
        proof {
            assert(models(kept@) =~= models(before).remove(worst as int).push(result@));
        }
    }
}

/// Whether some results are the best of all, up to the limit: what is left out is better than none
/// of them.
pub open spec fn are_best(kept: Seq<RankedModel>, all: Multiset<RankedModel>, limit: nat) -> bool {
    &&& kept.to_multiset().subset_of(all)
    &&& kept.len() == (if all.len() < limit {
        all.len()
    } else {
        limit
    })
    &&& forall|a: RankedModel, i: int|
        0 <= i < kept.len() && #[trigger] all.difference_with(kept.to_multiset()).contains(a)
            ==> !better(a, #[trigger] kept[i])
}

/// Results that are the best of those seen stay so as one more comes.
pub proof fn law_kept_are_best(
    kept: Seq<RankedModel>,
    all: Multiset<RankedModel>,
    limit: usize,
    result: RankedModel,
)
    requires
        are_best(kept, all, limit as nat),
    ensures
        are_best(kept_with(kept, limit, result), all.insert(result), limit as nat),
{
    let next = kept_with(kept, limit, result);
    let more = all.insert(result);
    let held = kept.to_multiset();
    assert(held.len() == kept.len());
    if limit == 0 {
        assert(kept.len() == 0);
        assert(held.subset_of(more));
    } else if kept.len() < limit {
        assert(next.to_multiset() =~= held.insert(result));
        assert(all.len() < limit);
        assert(held =~= all) by {
            lemma_same_size(held, all);
        }
        assert(more.difference_with(next.to_multiset()) =~= Multiset::empty());
    } else {
        lemma_worst(kept);
        let at = worst_at(kept);
        let worst = kept[at];
        let left_out = all.difference_with(held);
        if better(result, worst) {
            let rest = kept.remove(at);
            assert(next == rest.push(result));
            assert(next.to_multiset() =~= held.remove(worst).insert(result));
            assert(held.contains(worst));
            assert(more.difference_with(next.to_multiset()) =~= left_out.insert(worst)) by {
                assert forall|a: RankedModel|
                    more.difference_with(next.to_multiset()).count(a) == left_out.insert(
                        worst,
                    ).count(a) by {
                    assert(held.count(a) <= all.count(a));
                    assert(held.count(worst) >= 1);
                    assert(all.count(worst) >= held.count(worst));
                }
            }
            assert forall|a: RankedModel, i: int|
                0 <= i < next.len() && #[trigger] more.difference_with(
                    next.to_multiset(),
                ).contains(a) implies !better(a, #[trigger] next[i]) by {
                let b = next[i];
                if i == next.len() - 1 {
                    assert(b == result);
                    lemma_better_asymmetric(result, worst);
                    if a != worst {
                        assert(left_out.contains(a));
                        assert(!better(a, kept[at]));
                        lemma_better_transitive(a, worst, result);
                    }
                } else {
                    let j = if i < at {
                        i
                    } else {
                        i + 1
                    };
                    assert(b == kept[j]);
                    if a != worst {
                        assert(left_out.contains(a));
                        assert(!better(a, kept[j]));
                    }
                }
            }
            assert(next.to_multiset().subset_of(more)) by {
                assert forall|a: RankedModel| next.to_multiset().count(a) <= more.count(a) by {
                    assert(held.count(a) <= all.count(a));
                }
            }
            assert(more.len() == all.len() + 1);
            assert(next.len() == kept.len());
        } else {
            assert(more.difference_with(held) =~= left_out.insert(result)) by {
                assert forall|a: RankedModel|
                    more.difference_with(held).count(a) == left_out.insert(result).count(a) by {
                    assert(held.count(a) <= all.count(a));
                }
            }
            assert forall|a: RankedModel, i: int|
                0 <= i < next.len() && #[trigger] more.difference_with(
                    next.to_multiset(),
                ).contains(a) implies !better(a, #[trigger] next[i]) by {
                if a == result {
                    lemma_better_transitive(result, worst, kept[i]);
                } else {
                    assert(left_out.contains(a));
                    assert(!better(a, kept[i]));
                }
            }
            assert(held.subset_of(more)) by {
                assert forall|a: RankedModel| held.count(a) <= more.count(a) by {
                    assert(held.count(a) <= all.count(a));
                }
            }
        }
    }
}

proof fn lemma_same_size(part: Multiset<RankedModel>, whole: Multiset<RankedModel>)
    requires
        part.subset_of(whole),
        part.len() == whole.len(),
    ensures
        part == whole,
{
    let left = whole.difference_with(part);
    assert(whole =~= part.add(left));
    assert(left.len() == 0);
    assert forall|a: RankedModel| part.count(a) == whole.count(a) by {
        if left.count(a) > 0 {
            assert(left.contains(a));
            assert(left =~= left.remove(a).insert(a));
            assert(left.len() == left.remove(a).len() + 1);
        }
    }
    assert(part =~= whole);
}

// ---------------------------------------------------------------------------------------------
// Their order
// ---------------------------------------------------------------------------------------------

/// Whether no result is to be listed before one that stands ahead of it.
pub open spec fn in_order(results: Seq<RankedModel>) -> bool {
    forall|i: int, j: int|
        0 <= i < j < results.len() ==> !comes_before(#[trigger] results[j], #[trigger] results[i])
}

/// Whether results can be put in order: what is not to be listed before a result is not to be
/// listed before any that the result is not to be listed before. Scores that are numbers always
/// can, and so can scores of which none is; see [`law_numbers_can_be_ordered`].
#[verifier::opaque]
pub open spec fn orderly(results: Multiset<RankedModel>) -> bool {
    forall|a: RankedModel, b: RankedModel, c: RankedModel|
        results.contains(a) && results.contains(b) && results.contains(c) && !#[trigger]
            comes_before(a, b) && !#[trigger] comes_before(b, c) ==> !comes_before(a, c)
}

proof fn lemma_orderly(
    results: Multiset<RankedModel>,
    a: RankedModel,
    b: RankedModel,
    c: RankedModel,
)
    requires
        orderly(results),
        results.contains(a),
        results.contains(b),
        results.contains(c),
        !comes_before(a, b),
        !comes_before(b, c),
    ensures
        !comes_before(a, c),
{
    reveal(orderly);
}

/// Results whose scores are all numbers can be put in order, and so can results of whose scores
/// none is a number.
pub proof fn law_numbers_can_be_ordered(results: Multiset<RankedModel>)
    requires
        (forall|a: RankedModel| #[trigger] results.contains(a) ==> is_number(a.score)) || (forall|
            a: RankedModel,
        | #[trigger] results.contains(a) ==> !is_number(a.score)),
    ensures
        orderly(results),
{
    reveal(orderly);
    assert forall|a: RankedModel, b: RankedModel, c: RankedModel|
        results.contains(a) && results.contains(b) && results.contains(c) && !#[trigger]
            comes_before(a, b) && !#[trigger] comes_before(b, c) implies !comes_before(a, c) by {
        lemma_before_transitive(a, b, c);
    }
}

/// Puts a result where it belongs among others that are in order.
fn place(sorted: &mut Vec<RankedNodeResult>, result: RankedNodeResult)
    ensures
        models(final(sorted)@).to_multiset() == models(old(sorted)@).to_multiset().insert(result@),
        in_order(models(old(sorted)@)) && orderly(models(final(sorted)@).to_multiset())
            ==> in_order(models(final(sorted)@)),
{
    let ghost before = models(sorted@);
    let mut at: usize = 0;
    while at < sorted.len() && !is_before(&result, &sorted[at])
        invariant
            at <= sorted.len(),
            before == models(sorted@),
            forall|i: int| 0 <= i < at ==> !comes_before(result@, #[trigger] before[i]),
        decreases sorted.len() - at,
    {
        proof {
            assert(before[at as int] == sorted@[at as int]@);
        }
        at = at + 1;
    }
    proof {
        if at < sorted.len() {
            assert(before[at as int] == sorted@[at as int]@);
            assert(comes_before(result@, before[at as int]));
        }
    }
    sorted.insert(at, result);
    proof {
        let after = models(sorted@);
        assert(after =~= before.insert(at as int, result@));
        assert(after.remove(at as int) =~= before);
        assert(after.to_multiset() =~= before.to_multiset().insert(result@)) by {
            assert(after.remove(at as int).to_multiset() =~= after.to_multiset().remove(
                after[at as int],
            ));
            assert(after.contains(result@)) by {
                assert(after[at as int] == result@);
            }
            assert(after.to_multiset().count(result@) > 0);
        }
        if in_order(before) && orderly(after.to_multiset()) {
            assert forall|i: int, j: int| 0 <= i < j < after.len() implies !comes_before(
                #[trigger] after[j],
                #[trigger] after[i],
            ) by {
                if i < at && j == at {
                    assert(after[i] == before[i]);
                } else if i == at {
                    assert(after[j] == before[j - 1]);
                    lemma_before_asymmetric(result@, before[at as int]);
                    if j - 1 > at {
                        assert(!comes_before(before[j - 1], before[at as int]));
                        assert(after[at + 1] == before[at as int]);
                        assert(after.contains(after[j]));
                        assert(after.contains(after[at + 1]));
                        assert(after.contains(after[i]));
                        lemma_orderly(
                            after.to_multiset(),
                            before[j - 1],
                            before[at as int],
                            result@,
                        );
                    }
                } else {
                    let k = if i < at {
                        i
                    } else {
                        i - 1
                    };
                    let l = if j < at {
                        j
                    } else {
                        j - 1
                    };
                    assert(after[i] == before[k]);
                    assert(after[j] == before[l]);
                }
            }
        }
    }
}

proof fn lemma_orderly_part(part: Multiset<RankedModel>, whole: Multiset<RankedModel>)
    requires
        orderly(whole),
        part.subset_of(whole),
    ensures
        orderly(part),
{
    reveal(orderly);
    assert forall|a: RankedModel| part.contains(a) implies whole.contains(a) by {
        assert(part.count(a) <= whole.count(a));
    }
}

/// The results in the order in which they are to be listed, if they can be put in order; in some
/// order otherwise.
pub fn finalize_top_ranked_results(kept: Vec<RankedNodeResult>) -> (r: Vec<RankedNodeResult>)
    ensures
        models(r@).to_multiset() == models(kept@).to_multiset(),
        orderly(models(kept@).to_multiset()) ==> in_order(models(r@)),
        r.len() == kept.len(),
{
    let ghost all = models(kept@);
    let mut left: Vec<RankedNodeResult> = kept;
    let mut sorted: Vec<RankedNodeResult> = Vec::new();
    proof {
        assert(models(sorted@).to_multiset() =~= Multiset::empty());
        assert(models(left@).to_multiset().add(models(sorted@).to_multiset()) =~= all.to_multiset());
    }
    while left.len() > 0
        invariant
            orderly(all.to_multiset()) ==> in_order(models(sorted@)),
            models(left@).to_multiset().add(models(sorted@).to_multiset()) == all.to_multiset(),
        decreases left.len(),
    {
        let ghost left0 = models(left@);
        let ghost sorted0 = models(sorted@);
        match left.pop() {
            Some(result) => {
                proof {
                    assert(left0 =~= models(left@).push(result@));
                    assert(left0.to_multiset() =~= models(left@).to_multiset().insert(result@));
                }
                place(&mut sorted, result);
                proof {
                    assert(models(left@).to_multiset().add(models(sorted@).to_multiset())
                        =~= left0.to_multiset().add(sorted0.to_multiset()));
                    if orderly(all.to_multiset()) {
                        lemma_orderly_part(models(sorted@).to_multiset(), all.to_multiset());
                    }
                }
            },
            None => {},
        }
    }
    proof {
        assert(models(left@).to_multiset() =~= Multiset::empty());
        assert(models(sorted@).to_multiset() =~= all.to_multiset());
        assert(models(sorted@).len() == models(sorted@).to_multiset().len());
        assert(all.len() == all.to_multiset().len());
    }
    sorted
}

/// Two listings of the same results are the same, provided that no two results have the same id.
pub proof fn law_listing_is_unique(a: Seq<RankedModel>, b: Seq<RankedModel>)
    requires
        in_order(a),
        in_order(b),
        a.to_multiset() == b.to_multiset(),
        forall|i: int, j: int|
            0 <= i < j < a.len() ==> (#[trigger] a[i]).node.id != (#[trigger] a[j]).node.id,
    ensures
        a == b,
    decreases a.len(),
{
    assert(a.len() == a.to_multiset().len());
    assert(b.len() == b.to_multiset().len());
    if a.len() == 0 {
        assert(a =~= b);
    } else {
        assert(a.to_multiset().count(a[0]) > 0) by {
            assert(a.contains(a[0]));
        }
        assert(b.contains(a[0]));
        let k = choose|k: int| 0 <= k < b.len() && b[k] == a[0];
        assert(b.to_multiset().count(b[0]) > 0) by {
            assert(b.contains(b[0]));
        }
        assert(a.contains(b[0]));
        let l = choose|l: int| 0 <= l < a.len() && a[l] == b[0];
        if l > 0 {
            assert(!comes_before(a[l], a[0]));
            if k > 0 {
                assert(!comes_before(b[k], b[0]));
            }
            text::lemma_text_less_total(a[0].node.id, a[l].node.id);
        }
        assert(a[0] == b[0]);
        let ra = a.remove(0);
        let rb = b.remove(0);
        assert(ra.to_multiset() =~= a.to_multiset().remove(a[0]));
        assert(rb.to_multiset() =~= b.to_multiset().remove(b[0]));
        assert forall|i: int, j: int| 0 <= i < j < ra.len() implies !comes_before(
            #[trigger] ra[j],
            #[trigger] ra[i],
        ) && ra[i].node.id != ra[j].node.id by {
            assert(ra[i] == a[i + 1]);
            assert(ra[j] == a[j + 1]);
        }
        assert forall|i: int, j: int| 0 <= i < j < rb.len() implies !comes_before(
            #[trigger] rb[j],
            #[trigger] rb[i],
        ) by {
            assert(rb[i] == b[i + 1]);
            assert(rb[j] == b[j + 1]);
        }
        law_listing_is_unique(ra, rb);
        assert(a =~= seq![a[0]] + ra);
        assert(b =~= seq![b[0]] + rb);
    }
}

/// Whether a listing is that of the best results, up to the limit: these results, in order if they
/// can be put in order.
pub open spec fn is_listing(listed: Seq<RankedModel>, all: Seq<RankedModel>, limit: nat) -> bool {
    &&& are_best(listed, all.to_multiset(), limit)
    &&& orderly(listed.to_multiset()) ==> in_order(listed)
}

/// A listing of results whose scores are all numbers is in order, and so is one of results of whose
/// scores none is a number.
pub proof fn law_listings_are_in_order(
    listed: Seq<RankedModel>,
    all: Seq<RankedModel>,
    limit: nat,
)
    requires
        is_listing(listed, all, limit),
        (forall|i: int| 0 <= i < all.len() ==> is_number((#[trigger] all[i]).score)) || (forall|
            i: int,
        | 0 <= i < all.len() ==> !is_number((#[trigger] all[i]).score)),
    ensures
        in_order(listed),
{
    let held = listed.to_multiset();
    assert forall|a: RankedModel| #[trigger] held.contains(a) implies exists|i: int|
        0 <= i < all.len() && #[trigger] all[i] == a by {
        assert(held.count(a) <= all.to_multiset().count(a));
        assert(all.contains(a));
    }
    law_numbers_can_be_ordered(held);
}

/// The best results, up to the limit, in the order in which they are to be listed.
pub fn top_ranked(results: Vec<RankedNodeResult>, limit: usize) -> (r: Vec<RankedNodeResult>)
    ensures
        is_listing(models(r@), models(results@), limit as nat),
{
    let ghost all = models(results@);
    let mut left: Vec<RankedNodeResult> = results;
    let mut kept: Vec<RankedNodeResult> = Vec::new();
    let ghost mut seen: Seq<RankedModel> = Seq::empty();
    proof {
        assert(models(kept@) =~= Seq::empty());
        assert(seen.to_multiset() =~= Multiset::empty());
        assert(models(left@).to_multiset().add(seen.to_multiset()) =~= all.to_multiset());
    }
    while left.len() > 0
        invariant
            are_best(models(kept@), seen.to_multiset(), limit as nat),
            models(left@).to_multiset().add(seen.to_multiset()) == all.to_multiset(),
        decreases left.len(),
    {
        let ghost left0 = models(left@);
        match left.pop() {
            Some(result) => {
                proof {
                    assert(left0 =~= models(left@).push(result@));
                    assert(left0.to_multiset() =~= models(left@).to_multiset().insert(result@));
                    law_kept_are_best(models(kept@), seen.to_multiset(), limit, result@);
                    let before = seen;
                    seen = seen.push(result@);
                    assert(seen.to_multiset() =~= before.to_multiset().insert(result@));
                    assert(models(left@).to_multiset().add(seen.to_multiset())
                        =~= left0.to_multiset().add(before.to_multiset()));
                }
                push_top_ranked_result(&mut kept, limit, result);
            },
            None => {},
        }
    }
    proof {
        assert(models(left@).to_multiset() =~= Multiset::empty());
        assert(seen.to_multiset() =~= all.to_multiset());
    }
    let ghost chosen = models(kept@);
    let sorted: Vec<RankedNodeResult> = finalize_top_ranked_results(kept);
    proof {
        let listed = models(sorted@);
        let whole = all.to_multiset();
        assert forall|a: RankedModel, i: int|
            0 <= i < listed.len() && #[trigger] whole.difference_with(
                listed.to_multiset(),
            ).contains(a) implies !better(a, #[trigger] listed[i]) by {
            assert(listed.contains(listed[i]));
            assert(chosen.to_multiset().count(listed[i]) > 0);
            assert(chosen.contains(listed[i]));
            let j = choose|j: int| 0 <= j < chosen.len() && chosen[j] == listed[i];
            assert(!better(a, chosen[j]));
        }
    }
    sorted
}

} // verus!
