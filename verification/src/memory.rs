//! How memories are ranked, and what can be tidied up among them.
use vstd::prelude::*;
use vstd::string::*;

use crate::common::{join2, join3, ErrorModel, NodeId, Result, Undr9Error};
use crate::ordered::{
    lemma_filter_step, models, same_key, sorted_keys, ItemList, OrderedKey, OrderedMap, OrderedSet,
    Replicate,
};
use crate::records::{
    BatchModel, EdgeModel, EdgeRecord, NodeModel, NodeRecord, WriteBatch,
};
use crate::text;

verus! {

/// How much each part of a score counts, each as the bits of a single.
#[derive(Debug, Clone, Copy, PartialEq, Eq, Structural)]
pub struct RankingWeights {
    pub structural: u32,
    pub semantic: u32,
    pub temporal: u32,
    pub importance: u32,
    pub confidence: u32,
}

impl RankingWeights {
    /// 0.30, 0.30, 0.15, 0.15 and 0.10.
    pub open spec fn standard() -> RankingWeights {
        RankingWeights {
            structural: 0x3e99_999a,
            semantic: 0x3e99_999a,
            temporal: 0x3e19_999a,
            importance: 0x3e19_999a,
            confidence: 0x3dcc_cccd,
        }
    }
}

impl Default for RankingWeights {
    fn default() -> (r: Self)
        ensures
            r == RankingWeights::standard(),
    {
        RankingWeights {
            structural: 0x3e99_999a,
            semantic: 0x3e99_999a,
            temporal: 0x3e19_999a,
            importance: 0x3e19_999a,
            confidence: 0x3dcc_cccd,
        }
    }
}

/// A named way of ranking.
#[derive(Debug, PartialEq, Eq)]
pub struct RetrievalProfile {
    pub name: String,
    pub weights: RankingWeights,
}

impl RetrievalProfile {
    /// The profile `v1-default`.
    pub fn v1_default() -> (r: Self)
        ensures
            r.name@ == "v1-default"@,
            r.weights == RankingWeights::standard(),
    {
        RetrievalProfile { name: "v1-default".to_owned(), weights: RankingWeights::default() }
    }
}

/// What is wrong with the name of a profile, if anything is.
pub open spec fn profile_error(name: Option<Seq<char>>) -> Option<ErrorModel> {
    match name {
        Some(value) => if value == "v1-default"@ {
            None
        } else {
            Some(
                ErrorModel::Validation(
                    "unsupported retrieval profile '"@ + value + "'"@,
                ),
            )
        },
        None => None,
    }
}

/// The profile of a name; `v1-default` if none is given.
pub fn resolve_retrieval_profile(name: Option<&str>) -> (r: Result<RetrievalProfile>)
    ensures
        r is Ok <==> profile_error(text::optional_text(name)) is None,
        r matches Ok(profile) ==> profile.name@ == "v1-default"@ && profile.weights
            == RankingWeights::standard(),
        r matches Err(e) ==> profile_error(text::optional_text(name)) == Some(e@),
{
    match name {
        Some(value) => {
            if text::same_text(value, "v1-default") {
                Ok(RetrievalProfile::v1_default())
            } else {
                Err(
                    Undr9Error::Validation(
                        join3("unsupported retrieval profile '", value, "'"),
                    ),
                )
            }
        },
        None => Ok(RetrievalProfile::v1_default()),
    }
}

// ---------------------------------------------------------------------------------------------
// Tidying up
// ---------------------------------------------------------------------------------------------

/// After how many milliseconds a memory is stale: thirty days.
pub const STALE_AFTER_MS: i64 = 2_592_000_000;

/// What is to be done with a memory.
#[derive(Debug, Clone, Copy, PartialEq, Eq, Structural)]
pub enum ConsolidationAction {
    Merge,
    Link,
    Demote,
    Archive,
}

/// Something to be done with memories, and the batch that undoes it.
#[derive(Debug, PartialEq, Eq)]
pub struct ConsolidationEvent {
    pub event_id: String,
    pub action: ConsolidationAction,
    pub target_node_id: NodeId,
    pub related_node_ids: Vec<NodeId>,
    pub detail: String,
    pub reverse_batch: WriteBatch,
}

/// The model of something to be done with memories.
pub struct EventModel {
    pub event_id: Seq<char>,
    pub action: ConsolidationAction,
    pub target_node_id: Seq<char>,
    pub related_node_ids: Seq<Seq<char>>,
    pub detail: Seq<char>,
    pub reverse_batch: BatchModel,
}

impl View for ConsolidationEvent {
    type V = EventModel;

    open spec fn view(&self) -> EventModel {
        EventModel {
            event_id: self.event_id@,
            action: self.action,
            target_node_id: self.target_node_id@,
            related_node_ids: models(self.related_node_ids@),
            detail: self.detail@,
            reverse_batch: self.reverse_batch@,
        }
    }
}

/// What duplicates have in common: their type and their unique key.
#[derive(Debug, PartialEq, Eq)]
pub struct GroupKey {
    pub node_type: String,
    pub unique_key: String,
}

impl View for GroupKey {
    type V = (Seq<char>, Seq<char>);

    open spec fn view(&self) -> (Seq<char>, Seq<char>) {
        (self.node_type@, self.unique_key@)
    }
}

impl OrderedKey for GroupKey {
    open spec fn less(a: (Seq<char>, Seq<char>), b: (Seq<char>, Seq<char>)) -> bool {
        text::text_less(a.0, b.0) || (a.0 == b.0 && text::text_less(a.1, b.1))
    }

    proof fn less_irreflexive(a: (Seq<char>, Seq<char>)) {
        text::lemma_text_less_irreflexive(a.0);
        text::lemma_text_less_irreflexive(a.1);
    }

    proof fn less_transitive(
        a: (Seq<char>, Seq<char>),
        b: (Seq<char>, Seq<char>),
        c: (Seq<char>, Seq<char>),
    ) {
        if text::text_less(a.0, b.0) && text::text_less(b.0, c.0) {
            text::lemma_text_less_transitive(a.0, b.0, c.0);
        }
        if text::text_less(a.1, b.1) && text::text_less(b.1, c.1) {
            text::lemma_text_less_transitive(a.1, b.1, c.1);
        }
    }

    proof fn less_total(a: (Seq<char>, Seq<char>), b: (Seq<char>, Seq<char>)) {
        text::lemma_text_less_total(a.0, b.0);
        text::lemma_text_less_total(a.1, b.1);
    }

    fn before(&self, other: &Self) -> (r: bool) {
        text::precedes(self.node_type.as_str(), other.node_type.as_str()) || (text::same_text(
            self.node_type.as_str(),
            other.node_type.as_str(),
        ) && text::precedes(self.unique_key.as_str(), other.unique_key.as_str()))
    }
}

/// What a node has in common with its duplicates, if it can have any.
pub open spec fn group_key(node: NodeModel) -> Option<(Seq<char>, Seq<char>)> {
    match node.unique_key() {
        Some(key) => Some((node.node_type, key)),
        None => None,
    }
}

/// The keys of nodes.
pub open spec fn group_keys(nodes: Seq<NodeModel>) -> Set<(Seq<char>, Seq<char>)> {
    Set::new(
        |key: (Seq<char>, Seq<char>)|
            exists|i: int| 0 <= i < nodes.len() && #[trigger] group_key(nodes[i]) == Some(key),
    )
}

/// The nodes of a key, in their order.
pub open spec fn group_of(nodes: Seq<NodeModel>, key: (Seq<char>, Seq<char>)) -> Seq<NodeModel> {
    nodes.filter(|node: NodeModel| group_key(node) == Some(key))
}

/// The least id of nodes.
pub open spec fn least_id(nodes: Seq<NodeModel>) -> Seq<char>
    decreases nodes.len(),
{
    if nodes.len() <= 1 {
        nodes[0].id
    } else {
        let before = least_id(nodes.drop_last());
        if text::text_less(nodes.last().id, before) {
            nodes.last().id
        } else {
            before
        }
    }
}

/// The ids of the nodes that do not have the given one.
pub open spec fn other_ids(nodes: Seq<NodeModel>, id: Seq<char>) -> Seq<Seq<char>>
    decreases nodes.len(),
{
    if nodes.len() == 0 {
        Seq::empty()
    } else {
        let before = other_ids(nodes.drop_last(), id);
        if nodes.last().id == id {
            before
        } else {
            before.push(nodes.last().id)
        }
    }
}

/// The first node of an id.
pub open spec fn first_with_id(nodes: Seq<NodeModel>, id: Seq<char>) -> Option<NodeModel>
    decreases nodes.len(),
{
    if nodes.len() == 0 {
        None
    } else {
        match first_with_id(nodes.drop_last(), id) {
            Some(node) => Some(node),
            None => if nodes.last().id == id {
                Some(nodes.last())
            } else {
                None
            },
        }
    }
}

/// The first nodes of ids.
pub open spec fn nodes_with_ids(nodes: Seq<NodeModel>, ids: Seq<Seq<char>>) -> Seq<NodeModel>
    decreases ids.len(),
{
    if ids.len() == 0 {
        Seq::empty()
    } else {
        let before = nodes_with_ids(nodes, ids.drop_last());
        match first_with_id(nodes, ids.last()) {
            Some(node) => before.push(node),
            None => before,
        }
    }
}

/// The merge of the nodes of a key: into the one of the least id, where others have another id.
pub open spec fn merge_event(nodes: Seq<NodeModel>, key: (Seq<char>, Seq<char>)) -> Option<
    EventModel,
> {
    let group = group_of(nodes, key);
    let primary = least_id(group);
    let others = other_ids(group, primary);
    if group.len() < 2 || others.len() == 0 {
        None
    } else {
        Some(
            EventModel {
                event_id: "merge:"@ + primary,
                action: ConsolidationAction::Merge,
                target_node_id: primary,
                related_node_ids: others,
                detail: "merged duplicate memory nodes for "@ + key.0 + ":"@ + key.1,
                reverse_batch: BatchModel {
                    nodes_upserted: nodes_with_ids(nodes, others),
                    ..BatchModel::empty()
                },
            },
        )
    }
}

/// The merges of the nodes of keys.
pub open spec fn merge_events(nodes: Seq<NodeModel>, keys: Seq<(Seq<char>, Seq<char>)>) -> Seq<
    EventModel,
>
    decreases keys.len(),
{
    if keys.len() == 0 {
        Seq::empty()
    } else {
        let before = merge_events(nodes, keys.drop_last());
        match merge_event(nodes, keys.last()) {
            Some(event) => before.push(event),
            None => before,
        }
    }
}

/// Whether an edge ends at a node.
pub open spec fn touched(edges: Seq<EdgeModel>, id: Seq<char>) -> bool {
    exists|i: int|
        0 <= i < edges.len() && ((#[trigger] edges[i]).source == id || edges[i].target == id)
}

/// What undoes a change of one node.
pub open spec fn restoring(node: NodeModel) -> BatchModel {
    BatchModel { nodes_upserted: seq![node], ..BatchModel::empty() }
}

/// The demotion of a node that no edge ends at.
pub open spec fn demotion(node: NodeModel) -> EventModel {
    EventModel {
        event_id: "demote:"@ + node.id,
        action: ConsolidationAction::Demote,
        target_node_id: node.id,
        related_node_ids: Seq::empty(),
        detail: "demoted isolated memory"@,
        reverse_batch: restoring(node),
    }
}

/// The archiving of a node that is stale.
pub open spec fn archiving(node: NodeModel) -> EventModel {
    EventModel {
        event_id: "archive:"@ + node.id,
        action: ConsolidationAction::Archive,
        target_node_id: node.id,
        related_node_ids: Seq::empty(),
        detail: "archived stale memory"@,
        reverse_batch: restoring(node),
    }
}

/// What is to be done with single nodes, in their order.
pub open spec fn upkeep_events(nodes: Seq<NodeModel>, edges: Seq<EdgeModel>, now: i64) -> Seq<
    EventModel,
>
    decreases nodes.len(),
{
    if nodes.len() == 0 {
        Seq::empty()
    } else {
        let node = nodes.last();
        let before = upkeep_events(nodes.drop_last(), edges, now);
        let with_demotion = if touched(edges, node.id) {
            before
        } else {
            before.push(demotion(node))
        };
        match node.timestamp() {
            Some(time) => if now - time > STALE_AFTER_MS {
                with_demotion.push(archiving(node))
            } else {
                with_demotion
            },
            None => with_demotion,
        }
    }
}

/// What is to be done with memories: merges first, by type and unique key, then what concerns
/// single nodes.
pub open spec fn consolidation(nodes: Seq<NodeModel>, edges: Seq<EdgeModel>, now: i64) -> Seq<
    EventModel,
> {
    merge_events(nodes, sorted_keys::<GroupKey>(group_keys(nodes))) + upkeep_events(
        nodes,
        edges,
        now,
    )
}

/// The least id of nodes.
fn find_least_id(nodes: &Vec<NodeRecord>) -> (r: NodeId)
    requires
        nodes.len() > 0,
    ensures
        r@ == least_id(models(nodes@)),
{
    let ghost all = models(nodes@);
    let mut best: usize = 0;
    let mut i: usize = 1;
    proof {
        assert(all.take(1)[0] == nodes@[0]@);
    }
    while i < nodes.len()
        invariant
            1 <= i <= nodes.len(),
            best < i,
            all == models(nodes@),
            nodes@[best as int]@.id == least_id(all.take(i as int)),
        decreases nodes.len() - i,
    {
        proof {
            assert(all.take(i + 1).drop_last() =~= all.take(i as int));
            assert(all.take(i + 1).last() == nodes@[i as int]@);
        }
        if text::precedes(nodes[i].id.as_str(), nodes[best].id.as_str()) {
            best = i;
        }
        i = i + 1;
    }
    proof {
        assert(all.take(i as int) =~= all);
    }
    nodes[best].id.clone()
}

/// The ids of the nodes that do not have the given one.
fn collect_other_ids(nodes: &Vec<NodeRecord>, id: &NodeId) -> (r: Vec<NodeId>)
    ensures
        models(r@) == other_ids(models(nodes@), id@),
{
    let ghost all = models(nodes@);
    let mut out: Vec<NodeId> = Vec::new();
    let mut i: usize = 0;
    proof {
        assert(all.take(0).len() == 0);
        assert(models(out@) =~= Seq::empty());
    }
    while i < nodes.len()
        invariant
            i <= nodes.len(),
            all == models(nodes@),
            models(out@) == other_ids(all.take(i as int), id@),
        decreases nodes.len() - i,
    {
        proof {
            assert(all.take(i + 1).drop_last() =~= all.take(i as int));
            assert(all.take(i + 1).last() == nodes@[i as int]@);
        }
        let ghost held = out@;
        if !same_key(&nodes[i].id, id) {
            out.push(nodes[i].id.clone());
            proof {
                assert(models(out@) =~= models(held).push(nodes@[i as int]@.id));
            }
        }
        i = i + 1;
    }
    proof {
        assert(all.take(i as int) =~= all);
    }
    out
}

/// The first node of an id.
fn find_with_id(nodes: &[NodeRecord], id: &NodeId) -> (r: Option<NodeRecord>)
    ensures
        crate::graph::optional_view(r) == first_with_id(models(nodes@), id@),
{
    let ghost all = models(nodes@);
    let mut i: usize = 0;
    proof {
        assert(all.take(0).len() == 0);
    }
    while i < nodes.len()
        invariant
            i <= nodes.len(),
            all == models(nodes@),
            first_with_id(all.take(i as int), id@) is None,
        decreases nodes.len() - i,
    {
        proof {
            assert(all.take(i + 1).drop_last() =~= all.take(i as int));
            assert(all.take(i + 1).last() == nodes@[i as int]@);
        }
        if same_key(&nodes[i].id, id) {
            proof {
                lemma_first_stays(all, id@, i + 1);
            }
            return Some(nodes[i].replicate());
        }
        i = i + 1;
    }
    proof {
        assert(all.take(i as int) =~= all);
    }
    None
}

proof fn lemma_first_stays(nodes: Seq<NodeModel>, id: Seq<char>, i: int)
    requires
        0 <= i <= nodes.len(),
        first_with_id(nodes.take(i), id) is Some,
    ensures
        first_with_id(nodes, id) == first_with_id(nodes.take(i), id),
    decreases nodes.len(),
{
    if i == nodes.len() {
        assert(nodes.take(i) =~= nodes);
    } else {
        assert(nodes.drop_last().take(i) =~= nodes.take(i));
        lemma_first_stays(nodes.drop_last(), id, i);
    }
}

/// The first nodes of ids.
fn collect_with_ids(nodes: &[NodeRecord], ids: &Vec<NodeId>) -> (r: Vec<NodeRecord>)
    ensures
        models(r@) == nodes_with_ids(models(nodes@), models(ids@)),
{
    let ghost all = models(ids@);
    let mut out: Vec<NodeRecord> = Vec::new();
    let mut i: usize = 0;
    proof {
        assert(all.take(0).len() == 0);
        assert(models(out@) =~= Seq::empty());
    }
    while i < ids.len()
        invariant
            i <= ids.len(),
            all == models(ids@),
            models(out@) == nodes_with_ids(models(nodes@), all.take(i as int)),
        decreases ids.len() - i,
    {
        proof {
            assert(all.take(i + 1).drop_last() =~= all.take(i as int));
            assert(all.take(i + 1).last() == ids@[i as int]@);
        }
        let ghost held = out@;
        match find_with_id(nodes, &ids[i]) {
            Some(node) => {
                out.push(node);
                proof {
                    assert(models(out@) =~= models(held).push(node@));
                }
            },
            None => {},
        }
        i = i + 1;
    }
    proof {
        assert(all.take(i as int) =~= all);
    }
    out
}

/// Whether groups are those of nodes.
spec fn groups_of(
    groups: Map<(Seq<char>, Seq<char>), Seq<NodeModel>>,
    nodes: Seq<NodeModel>,
) -> bool {
    &&& groups.dom() == group_keys(nodes)
    &&& forall|key: (Seq<char>, Seq<char>)| #[trigger]
        groups.contains_key(key) ==> groups[key] == group_of(nodes, key)
}

proof fn lemma_group_step(nodes: Seq<NodeModel>, i: int)
    requires
        0 <= i < nodes.len(),
    ensures
        group_keys(nodes.take(i + 1)) == (match group_key(nodes[i]) {
            Some(key) => group_keys(nodes.take(i)).insert(key),
            None => group_keys(nodes.take(i)),
        }),
        forall|key: (Seq<char>, Seq<char>)| #[trigger]
            group_of(nodes.take(i + 1), key) == if group_key(nodes[i]) == Some(key) {
                group_of(nodes.take(i), key).push(nodes[i])
            } else {
                group_of(nodes.take(i), key)
            },
        forall|key: (Seq<char>, Seq<char>)|
            !group_keys(nodes.take(i)).contains(key) ==> #[trigger] group_of(
                nodes.take(i),
                key,
            ).len() == 0,
{
    let short = nodes.take(i);
    let long = nodes.take(i + 1);
    assert forall|key: (Seq<char>, Seq<char>)|
        group_keys(long).contains(key) <==> (match group_key(nodes[i]) {
            Some(k) => group_keys(short).insert(k),
            None => group_keys(short),
        }).contains(key) by {
        if group_keys(long).contains(key) {
            let j = choose|j: int|
                0 <= j < long.len() && #[trigger] group_key(long[j]) == Some(key);
            if j < i {
                assert(group_key(short[j]) == Some(key));
            }
        }
        if group_keys(short).contains(key) {
            let j = choose|j: int|
                0 <= j < short.len() && #[trigger] group_key(short[j]) == Some(key);
            assert(group_key(long[j]) == Some(key));
        }
        if group_key(nodes[i]) == Some(key) {
            assert(group_key(long[i]) == Some(key));
        }
    }
    assert(group_keys(long) =~= (match group_key(nodes[i]) {
        Some(k) => group_keys(short).insert(k),
        None => group_keys(short),
    }));
    assert forall|key: (Seq<char>, Seq<char>)| #[trigger] group_of(long, key) == if group_key(
        nodes[i],
    ) == Some(key) {
        group_of(short, key).push(nodes[i])
    } else {
        group_of(short, key)
    } by {
        lemma_filter_step(nodes, |node: NodeModel| group_key(node) == Some(key), i);
    }
    assert forall|key: (Seq<char>, Seq<char>)|
        !group_keys(short).contains(key) implies #[trigger] group_of(short, key).len() == 0 by {
        let test = |node: NodeModel| group_key(node) == Some(key);
        assert forall|node: NodeModel| short.contains(node) implies !test(node) by {
            let j = choose|j: int| 0 <= j < short.len() && short[j] == node;
            assert(group_key(short[j]) != Some(key));
        }
        short.lemma_all_neg_filter_empty(test);
    }
}

/// The nodes that can have duplicates, by what they have in common with them.
fn group_nodes(nodes: &[NodeRecord]) -> (r: OrderedMap<GroupKey, ItemList<NodeRecord>>)
    ensures
        groups_of(r@, models(nodes@)),
{
    let ghost all = models(nodes@);
    let mut groups: OrderedMap<GroupKey, ItemList<NodeRecord>> = OrderedMap::new();
    let mut i: usize = 0;
    proof {
        assert(group_keys(all.take(0)) =~= Set::empty());
        assert(groups@.dom() =~= Set::empty());
    }
    while i < nodes.len()
        invariant
            i <= nodes.len(),
            all == models(nodes@),
            groups_of(groups@, all.take(i as int)),
        decreases nodes.len() - i,
    {
        let ghost groups0 = groups@;
        proof {
            lemma_group_step(all, i as int);
            assert(all[i as int] == nodes@[i as int]@);
        }
        match nodes[i].unique_key() {
            Some(unique_key) => {
                let key: GroupKey = GroupKey {
                    node_type: nodes[i].node_type.clone(),
                    unique_key: unique_key.to_owned(),
                };
                let ghost model = key@;
                let mut list: ItemList<NodeRecord> = match groups.remove(&key) {
                    Some(list) => list,
                    None => ItemList { items: Vec::new() },
                };
                let ghost held = list@;
                proof {
                    assert(held =~= group_of(all.take(i as int), model));
                }
                list.items.push(nodes[i].replicate());
                proof {
                    assert(list@ =~= held.push(all[i as int]));
                }
                groups.insert(key, list);
                proof {
                    assert(groups@.dom() =~= groups0.dom().insert(model));
                    assert forall|k: (Seq<char>, Seq<char>)| #[trigger]
                        groups@.contains_key(k) implies groups@[k] == group_of(
                        all.take(i + 1),
                        k,
                    ) by {
                        if k != model {
                            assert(groups0.contains_key(k));
                        }
                    }
                }
            },
            None => {
                proof {
                    assert forall|k: (Seq<char>, Seq<char>)| #[trigger]
                        groups@.contains_key(k) implies groups@[k] == group_of(
                        all.take(i + 1),
                        k,
                    ) by {
                        assert(groups0.contains_key(k));
                    }
                }
            },
        }
        i = i + 1;
    }
    proof {
        assert(all.take(i as int) =~= all);
    }
    groups
}

/// The nodes that edges end at.
fn touched_ids(edges: &[EdgeRecord]) -> (r: OrderedSet<NodeId>)
    ensures
        forall|id: Seq<char>| #[trigger] r@.contains(id) <==> touched(models(edges@), id),
{
    let ghost all = models(edges@);
    let mut ids: OrderedSet<NodeId> = OrderedSet::new();
    let mut i: usize = 0;
    while i < edges.len()
        invariant
            i <= edges.len(),
            all == models(edges@),
            forall|id: Seq<char>| #[trigger]
                ids@.contains(id) <==> exists|k: int|
                    0 <= k < i && ((#[trigger] all[k]).source == id || all[k].target == id),
        decreases edges.len() - i,
    {
        proof {
            assert(all[i as int] == edges@[i as int]@);
        }
        ids.insert(edges[i].source.clone());
        ids.insert(edges[i].target.clone());
        i = i + 1;
    }
    ids
}

/// Puts an event at the end of a list.
fn add_event(events: &mut Vec<ConsolidationEvent>, event: ConsolidationEvent)
    ensures
        models(final(events)@) == models(old(events)@).push(event@),
{
    let ghost held = events@;
    events.push(event);
    proof {
        assert(models(events@) =~= models(held).push(event@));
    }
}

/// The batch that puts a node back.
fn restoring_batch(node: &NodeRecord) -> (r: WriteBatch)
    ensures
        r@ == restoring(node@),
{
    let mut batch: WriteBatch = WriteBatch::default();
    let mut nodes: Vec<NodeRecord> = Vec::new();
    nodes.push(node.replicate());
    batch.nodes_upserted = nodes;
    proof {
        assert(models(nodes@) =~= seq![node@]);
    }
    batch
}

/// The merge of the nodes of a group.
fn merge_group(nodes: &[NodeRecord], key: &GroupKey, group: &Vec<NodeRecord>) -> (r: Option<
    ConsolidationEvent,
>)
    requires
        models(group@) == group_of(models(nodes@), key@),
    ensures
        crate::graph::optional_view(r) == merge_event(models(nodes@), key@),
{
    proof {
        assert(models(group@).len() == group.len());
    }
    if group.len() < 2 {
        return None;
    }
    let primary: NodeId = find_least_id(group);
    let others: Vec<NodeId> = collect_other_ids(group, &primary);
    proof {
        assert(models(others@).len() == others.len());
    }
    if others.len() == 0 {
        return None;
    }
    let mut batch: WriteBatch = WriteBatch::default();
    batch.nodes_upserted = collect_with_ids(nodes, &others);
    let mut detail: String = join3(
        "merged duplicate memory nodes for ",
        key.node_type.as_str(),
        ":",
    );
    detail.append(key.unique_key.as_str());
    Some(
        ConsolidationEvent {
            event_id: join2("merge:", primary.as_str()),
            action: ConsolidationAction::Merge,
            target_node_id: primary,
            related_node_ids: others,
            detail,
            reverse_batch: batch,
        },
    )
}

/// An event that concerns a single node.
fn single_event(
    action: ConsolidationAction,
    prefix: &str,
    detail: &str,
    node: &NodeRecord,
) -> (r: ConsolidationEvent)
    ensures
        r@ == (EventModel {
            event_id: prefix@ + node@.id,
            action,
            target_node_id: node@.id,
            related_node_ids: Seq::empty(),
            detail: detail@,
            reverse_batch: restoring(node@),
        }),
{
    let related_node_ids: Vec<NodeId> = Vec::new();
    proof {
        assert(models(related_node_ids@) =~= Seq::empty());
    }
    ConsolidationEvent {
        event_id: join2(prefix, node.id.as_str()),
        action,
        target_node_id: node.id.clone(),
        related_node_ids,
        detail: detail.to_owned(),
        reverse_batch: restoring_batch(node),
    }
}

/// Finds what can be tidied up among memories.
pub struct MemoryConsolidator;

impl MemoryConsolidator {
    /// What is to be done with memories: see [`consolidation`]. The time between a node's
    /// timestamp and now has to be one that a signed number of milliseconds can hold.
    pub fn analyze(nodes: &[NodeRecord], edges: &[EdgeRecord], now_epoch_ms: i64) -> (r: Vec<
        ConsolidationEvent,
    >)
        requires
            forall|i: int|
                0 <= i < nodes@.len() ==> ((#[trigger] nodes@[i])@.timestamp() matches Some(time)
                    ==> i64::MIN <= now_epoch_ms - time <= i64::MAX),
        ensures
            models(r@) == consolidation(models(nodes@), models(edges@), now_epoch_ms),
    {
        let ghost all = models(nodes@);
        let incident: OrderedSet<NodeId> = touched_ids(edges);
        let groups: OrderedMap<GroupKey, ItemList<NodeRecord>> = group_nodes(nodes);
        let mut events: Vec<ConsolidationEvent> = Vec::new();
        let count: usize = groups.len();
        let ghost keys = groups.keys();
        let mut g: usize = 0;
        proof {
            assert(keys.take(0).len() == 0);
            assert(models(events@) =~= Seq::empty());
        }
        while g < count
            invariant
                g <= count,
                count == keys.len(),
                keys == groups.keys(),
                all == models(nodes@),
                groups_of(groups@, all),
                models(events@) == merge_events(all, keys.take(g as int)),
            decreases count - g,
        {
            proof {
                assert(keys.take(g + 1).drop_last() =~= keys.take(g as int));
                assert(keys.take(g + 1).last() == keys[g as int]);
            }
            let list: &ItemList<NodeRecord> = groups.value_at(g);
            match merge_group(nodes, groups.key_at(g), &list.items) {
                Some(event) => add_event(&mut events, event),
                None => {},
            }
            g = g + 1;
        }
        proof {
            assert(keys.take(g as int) =~= keys);
        }
        let ghost merges = models(events@);
        let mut i: usize = 0;
        proof {
            assert(all.take(0).len() == 0);
            assert(merges + upkeep_events(all.take(0), models(edges@), now_epoch_ms) =~= merges);
        }
        while i < nodes.len()
            invariant
                i <= nodes.len(),
                all == models(nodes@),
                forall|k: int|
                    0 <= k < nodes@.len() ==> ((#[trigger] nodes@[k])@.timestamp() matches Some(
                        time,
                    ) ==> i64::MIN <= now_epoch_ms - time <= i64::MAX),
                forall|id: Seq<char>| #[trigger]
                    incident@.contains(id) <==> touched(models(edges@), id),
                models(events@) == merges + upkeep_events(
                    all.take(i as int),
                    models(edges@),
                    now_epoch_ms,
                ),
            decreases nodes.len() - i,
        {
            let ghost before = upkeep_events(all.take(i as int), models(edges@), now_epoch_ms);
            let ghost events0 = models(events@);
            proof {
                assert(all.take(i + 1).drop_last() =~= all.take(i as int));
                assert(all.take(i + 1).last() == nodes@[i as int]@);
            }
            let node: &NodeRecord = &nodes[i];
            if !incident.contains(&node.id) {
                add_event(
                    &mut events,
                    single_event(
                        ConsolidationAction::Demote,
                        "demote:",
                        "demoted isolated memory",
                        node,
                    ),
                );
            }
            match node.timestamp_ms() {
                Some(timestamp) => {
                    if now_epoch_ms - timestamp > STALE_AFTER_MS {
                        add_event(
                            &mut events,
                            single_event(
                                ConsolidationAction::Archive,
                                "archive:",
                                "archived stale memory",
                                node,
                            ),
                        );
                    }
                },
                None => {},
            }
            proof {
                assert(models(events@) =~= merges + upkeep_events(
                    all.take(i + 1),
                    models(edges@),
                    now_epoch_ms,
                ));
            }
            i = i + 1;
        }
        proof {
            assert(all.take(i as int) =~= all);
        }
        events
    }
}

/// Whether the batch of an event puts back, as it was, every node that the event takes away or
/// changes: the related nodes of a merge, which its target is not among, and the target of
/// another event.
pub open spec fn restores(nodes: Seq<NodeModel>, event: EventModel) -> bool {
    let put_back = event.reverse_batch.nodes_upserted;
    &&& event.reverse_batch == BatchModel { nodes_upserted: put_back, ..BatchModel::empty() }
    &&& forall|k: int| 0 <= k < put_back.len() ==> nodes.contains(#[trigger] put_back[k])
    &&& if event.action == ConsolidationAction::Merge {
        &&& put_back.len() == event.related_node_ids.len()
        &&& forall|k: int|
            0 <= k < put_back.len() ==> (#[trigger] put_back[k]).id == event.related_node_ids[k]
        &&& !event.related_node_ids.contains(event.target_node_id)
    } else {
        put_back.len() == 1 && put_back[0].id == event.target_node_id
    }
}

proof fn lemma_first_with_id(nodes: Seq<NodeModel>, id: Seq<char>, i: int)
    requires
        0 <= i < nodes.len(),
        nodes[i].id == id,
    ensures
        first_with_id(nodes, id) matches Some(node) && node.id == id && nodes.contains(node),
    decreases nodes.len(),
{
    let short = nodes.drop_last();
    if i < short.len() {
        lemma_first_with_id(short, id, i);
        let node = first_with_id(short, id)->0;
        let k = choose|k: int| 0 <= k < short.len() && short[k] == node;
        assert(nodes[k] == node);
    } else {
        match first_with_id(short, id) {
            Some(node) => {
                lemma_first_is_there(short, id);
                let k = choose|k: int| 0 <= k < short.len() && short[k] == node;
                assert(nodes[k] == node);
            },
            None => {
                assert(nodes[i] == nodes.last());
            },
        }
    }
}

proof fn lemma_first_is_there(nodes: Seq<NodeModel>, id: Seq<char>)
    requires
        first_with_id(nodes, id) is Some,
    ensures
        nodes.contains(first_with_id(nodes, id)->0),
        first_with_id(nodes, id)->0.id == id,
    decreases nodes.len(),
{
    let short = nodes.drop_last();
    if first_with_id(short, id) is Some {
        lemma_first_is_there(short, id);
        let node = first_with_id(short, id)->0;
        let k = choose|k: int| 0 <= k < short.len() && short[k] == node;
        assert(nodes[k] == node);
    } else {
        assert(nodes[nodes.len() - 1] == nodes.last());
    }
}

/// Whether a node has an id.
spec fn has_id(nodes: Seq<NodeModel>, id: Seq<char>) -> bool {
    exists|i: int| 0 <= i < nodes.len() && (#[trigger] nodes[i]).id == id
}

proof fn lemma_other_ids(group: Seq<NodeModel>, id: Seq<char>)
    ensures
        !other_ids(group, id).contains(id),
        forall|k: int|
            0 <= k < other_ids(group, id).len() ==> has_id(
                group,
                #[trigger] other_ids(group, id)[k],
            ),
    decreases group.len(),
{
    if group.len() > 0 {
        let short = group.drop_last();
        lemma_other_ids(short, id);
        let all = other_ids(group, id);
        let before = other_ids(short, id);
        assert forall|k: int| 0 <= k < all.len() implies has_id(group, #[trigger] all[k]) by {
            if k < before.len() {
                assert(has_id(short, before[k]));
                let i = choose|i: int| 0 <= i < short.len() && (#[trigger] short[i]).id == before[k];
                assert(group[i].id == all[k]);
            } else {
                assert(group[group.len() - 1].id == all[k]);
            }
        }
        if all.contains(id) {
            let k = choose|k: int| 0 <= k < all.len() && all[k] == id;
            assert(before[k] == id);
        }
    }
}

proof fn lemma_nodes_with_ids(nodes: Seq<NodeModel>, ids: Seq<Seq<char>>)
    requires
        forall|k: int| 0 <= k < ids.len() ==> has_id(nodes, #[trigger] ids[k]),
    ensures
        nodes_with_ids(nodes, ids).len() == ids.len(),
        forall|k: int|
            0 <= k < ids.len() ==> (#[trigger] nodes_with_ids(nodes, ids)[k]).id == ids[k]
                && nodes.contains(nodes_with_ids(nodes, ids)[k]),
    decreases ids.len(),
{
    if ids.len() > 0 {
        let short = ids.drop_last();
        assert forall|k: int| 0 <= k < short.len() implies has_id(nodes, #[trigger] short[k]) by {
            assert(short[k] == ids[k]);
        }
        lemma_nodes_with_ids(nodes, short);
        let last = ids[ids.len() - 1];
        assert(has_id(nodes, last));
        let i = choose|i: int| 0 <= i < nodes.len() && (#[trigger] nodes[i]).id == last;
        lemma_first_with_id(nodes, last, i);
    }
}

proof fn lemma_merge_restores(nodes: Seq<NodeModel>, key: (Seq<char>, Seq<char>))
    requires
        merge_event(nodes, key) is Some,
    ensures
        restores(nodes, merge_event(nodes, key)->0),
{
    let group = group_of(nodes, key);
    let primary = least_id(group);
    let others = other_ids(group, primary);
    lemma_other_ids(group, primary);
    assert forall|k: int| 0 <= k < others.len() implies has_id(nodes, #[trigger] others[k]) by {
        assert(has_id(group, others[k]));
        let i = choose|i: int| 0 <= i < group.len() && (#[trigger] group[i]).id == others[k];
        assert(group.contains(group[i]));
        nodes.lemma_filter_contains_rev(|node: NodeModel| group_key(node) == Some(key), group[i]);
        let j = choose|j: int| 0 <= j < nodes.len() && nodes[j] == group[i];
        assert(nodes[j].id == others[k]);
    }
    lemma_nodes_with_ids(nodes, others);
}

proof fn lemma_merges_restore(nodes: Seq<NodeModel>, keys: Seq<(Seq<char>, Seq<char>)>)
    ensures
        forall|k: int|
            0 <= k < merge_events(nodes, keys).len() ==> restores(
                nodes,
                #[trigger] merge_events(nodes, keys)[k],
            ),
    decreases keys.len(),
{
    if keys.len() > 0 {
        let before = merge_events(nodes, keys.drop_last());
        let all = merge_events(nodes, keys);
        lemma_merges_restore(nodes, keys.drop_last());
        if merge_event(nodes, keys.last()) is Some {
            lemma_merge_restores(nodes, keys.last());
        }
        assert forall|k: int| 0 <= k < all.len() implies restores(nodes, #[trigger] all[k]) by {
            if k < before.len() {
                assert(all[k] == before[k]);
            }
        }
    }
}

proof fn lemma_upkeep_restores(
    all: Seq<NodeModel>,
    nodes: Seq<NodeModel>,
    edges: Seq<EdgeModel>,
    now: i64,
)
    requires
        forall|i: int| 0 <= i < nodes.len() ==> all.contains(#[trigger] nodes[i]),
    ensures
        forall|k: int|
            0 <= k < upkeep_events(nodes, edges, now).len() ==> restores(
                all,
                #[trigger] upkeep_events(nodes, edges, now)[k],
            ),
    decreases nodes.len(),
{
    if nodes.len() > 0 {
        let short = nodes.drop_last();
        assert forall|i: int| 0 <= i < short.len() implies all.contains(#[trigger] short[i]) by {
            assert(short[i] == nodes[i]);
        }
        lemma_upkeep_restores(all, short, edges, now);
        let node = nodes[nodes.len() - 1];
        assert(all.contains(node));
        let before = upkeep_events(short, edges, now);
        let events = upkeep_events(nodes, edges, now);
        assert(restores(all, demotion(node)));
        assert(restores(all, archiving(node)));
        assert forall|k: int| 0 <= k < events.len() implies restores(all, #[trigger] events[k]) by {
            if k < before.len() {
                assert(events[k] == before[k]);
            }
        }
    }
}

/// Everything that is to be done with memories can be undone: the batch of every event puts back
/// the nodes that it concerns as they were.
pub proof fn law_consolidation_can_be_undone(
    nodes: Seq<NodeModel>,
    edges: Seq<EdgeModel>,
    now: i64,
)
    ensures
        forall|k: int|
            0 <= k < consolidation(nodes, edges, now).len() ==> restores(
                nodes,
                #[trigger] consolidation(nodes, edges, now)[k],
            ),
{
    let keys = sorted_keys::<GroupKey>(group_keys(nodes));
    lemma_merges_restore(nodes, keys);
    assert forall|i: int| 0 <= i < nodes.len() implies nodes.contains(#[trigger] nodes[i]) by {}
    lemma_upkeep_restores(nodes, nodes, edges, now);
    let merges = merge_events(nodes, keys);
    let all = consolidation(nodes, edges, now);
    assert forall|k: int| 0 <= k < all.len() implies restores(nodes, #[trigger] all[k]) by {
        if k < merges.len() {
            assert(all[k] == merges[k]);
        } else {
            assert(all[k] == upkeep_events(nodes, edges, now)[k - merges.len()]);
        }
    }
}

} // verus!
