//! What can be reached from a node in a number of hops.
use vstd::prelude::*;

verus! {

/// The nodes that can be reached from a node in at most the given number of hops.
pub open spec fn reach(
    hops: spec_fn(Seq<char>, Seq<char>) -> bool,
    start: Seq<char>,
    count: nat,
) -> Set<Seq<char>>
    decreases count,
{
    if count == 0 {
        Set::empty().insert(start)
    } else {
        let near = reach(hops, start, (count - 1) as nat);
        Set::new(|b: Seq<char>| near.contains(b) || one_hop(hops, near, b))
    }
}

/// Whether a node is one hop from one of the given nodes.
pub open spec fn one_hop(
    hops: spec_fn(Seq<char>, Seq<char>) -> bool,
    near: Set<Seq<char>>,
    b: Seq<char>,
) -> bool {
    exists|a: Seq<char>| near.contains(a) && #[trigger] hops(a, b)
}

/// Whether no hop leads out of a set of nodes.
pub open spec fn closed_under(
    hops: spec_fn(Seq<char>, Seq<char>) -> bool,
    nodes: Set<Seq<char>>,
) -> bool {
    forall|a: Seq<char>, b: Seq<char>|
        nodes.contains(a) && #[trigger] hops(a, b) ==> nodes.contains(b)
}

/// More hops reach no less.
pub proof fn lemma_reach_grows(
    hops: spec_fn(Seq<char>, Seq<char>) -> bool,
    start: Seq<char>,
    m: nat,
    n: nat,
)
    requires
        m <= n,
    ensures
        reach(hops, start, m).subset_of(reach(hops, start, n)),
        reach(hops, start, n).contains(start),
    decreases n,
{
    if n > 0 {
        if m < n {
            lemma_reach_grows(hops, start, m, (n - 1) as nat);
        } else {
            lemma_reach_grows(hops, start, (m - 1) as nat, (n - 1) as nat);
        }
    }
}

/// Once no hop leads out, more hops reach no more.
pub proof fn lemma_reach_closed(
    hops: spec_fn(Seq<char>, Seq<char>) -> bool,
    start: Seq<char>,
    m: nat,
    n: nat,
)
    requires
        m <= n,
        closed_under(hops, reach(hops, start, m)),
    ensures
        reach(hops, start, n) == reach(hops, start, m),
    decreases n,
{
    if m < n {
        lemma_reach_closed(hops, start, m, (n - 1) as nat);
        assert(reach(hops, start, n) =~= reach(hops, start, m));
    }
}

/// A hop from what can be reached.
pub proof fn lemma_reach_hop(
    hops: spec_fn(Seq<char>, Seq<char>) -> bool,
    start: Seq<char>,
    n: nat,
    a: Seq<char>,
    b: Seq<char>,
)
    requires
        reach(hops, start, n).contains(a),
        hops(a, b),
    ensures
        reach(hops, start, n + 1).contains(b),
{
    assert(one_hop(hops, reach(hops, start, n), b));
}

/// What can be reached in a number of hops through what can be reached in another.
pub proof fn lemma_reach_joins(
    hops: spec_fn(Seq<char>, Seq<char>) -> bool,
    start: Seq<char>,
    m: nat,
    middle: Seq<char>,
    n: nat,
    end: Seq<char>,
)
    requires
        reach(hops, start, m).contains(middle),
        reach(hops, middle, n).contains(end),
    ensures
        reach(hops, start, m + n).contains(end),
    decreases n,
{
    if n > 0 {
        let near = reach(hops, middle, (n - 1) as nat);
        if near.contains(end) {
            lemma_reach_joins(hops, start, m, middle, (n - 1) as nat, end);
            lemma_reach_grows(hops, start, (m + n - 1) as nat, m + n);
        } else {
            let a = choose|a: Seq<char>| near.contains(a) && #[trigger] hops(a, end);
            lemma_reach_joins(hops, start, m, middle, (n - 1) as nat, a);
            lemma_reach_hop(hops, start, (m + n - 1) as nat, a, end);
        }
    }
}

/// Whether the second relation is the first one turned around.
pub open spec fn turned(
    hops: spec_fn(Seq<char>, Seq<char>) -> bool,
    back: spec_fn(Seq<char>, Seq<char>) -> bool,
) -> bool {
    forall|a: Seq<char>, b: Seq<char>| #[trigger] hops(a, b) <==> back(b, a)
}

/// Where the hops back are the hops turned around, what can be reached from a node reaches that
/// node back.
pub proof fn lemma_reach_back(
    hops: spec_fn(Seq<char>, Seq<char>) -> bool,
    back: spec_fn(Seq<char>, Seq<char>) -> bool,
    start: Seq<char>,
    n: nat,
    end: Seq<char>,
)
    requires
        turned(hops, back),
        reach(hops, start, n).contains(end),
    ensures
        reach(back, end, n).contains(start),
    decreases n,
{
    if n > 0 {
        let near = reach(hops, start, (n - 1) as nat);
        if near.contains(end) {
            lemma_reach_back(hops, back, start, (n - 1) as nat, end);
            lemma_reach_grows(back, end, (n - 1) as nat, n);
        } else {
            let a = choose|a: Seq<char>| near.contains(a) && #[trigger] hops(a, end);
            lemma_reach_back(hops, back, start, (n - 1) as nat, a);
            assert(back(end, a));
            assert(reach(back, end, 0).contains(end));
            lemma_reach_hop(back, end, 0, end, a);
            lemma_reach_joins(back, end, 1, a, (n - 1) as nat, start);
        }
    }
}

/// What can be reached in two runs of hops has a node between them.
pub proof fn lemma_reach_splits(
    hops: spec_fn(Seq<char>, Seq<char>) -> bool,
    start: Seq<char>,
    m: nat,
    n: nat,
    end: Seq<char>,
) -> (middle: Seq<char>)
    requires
        reach(hops, start, m + n).contains(end),
    ensures
        reach(hops, start, m).contains(middle),
        reach(hops, middle, n).contains(end),
    decreases n,
{
    if n == 0 {
        end
    } else {
        let near = reach(hops, start, (m + n - 1) as nat);
        if near.contains(end) {
            let middle = lemma_reach_splits(hops, start, m, (n - 1) as nat, end);
            lemma_reach_grows(hops, middle, (n - 1) as nat, n);
            middle
        } else {
            let a = choose|a: Seq<char>| near.contains(a) && #[trigger] hops(a, end);
            let middle = lemma_reach_splits(hops, start, m, (n - 1) as nat, a);
            lemma_reach_hop(hops, middle, (n - 1) as nat, a, end);
            middle
        }
    }
}

/// Where the hops back are the hops turned around and nothing is within reach of both ends in the
/// given numbers of hops, the ends are further apart than both numbers together.
pub proof fn lemma_apart(
    hops: spec_fn(Seq<char>, Seq<char>) -> bool,
    back: spec_fn(Seq<char>, Seq<char>) -> bool,
    start: Seq<char>,
    m: nat,
    end: Seq<char>,
    n: nat,
)
    requires
        turned(hops, back),
        reach(hops, start, m).disjoint(reach(back, end, n)),
    ensures
        !reach(hops, start, m + n).contains(end),
{
    if reach(hops, start, m + n).contains(end) {
        let middle = lemma_reach_splits(hops, start, m, n, end);
        lemma_reach_back(hops, back, middle, n, end);
        assert(reach(back, end, n).contains(middle));
    }
}

/// What a list holds after one more item has been put at its end.
pub proof fn lemma_push_contains(list: Seq<Seq<char>>, item: Seq<char>, b: Seq<char>)
    ensures
        list.push(item).contains(b) <==> list.contains(b) || b == item,
{
    if list.contains(b) {
        let k = choose|k: int| 0 <= k < list.len() && list[k] == b;
        assert(list.push(item)[k] == b);
    }
    if b == item {
        assert(list.push(item)[list.len() as int] == b);
    }
}

} // verus!
