//! The nodes of a cluster, and who leads it.
use vstd::prelude::*;
use vstd::string::*;

use crate::common::{join3, ErrorModel, Result, Undr9Error};
use crate::ordered::{lemma_filter_step, models, replicate_items, Replicate};
use crate::sorting::{
    find_first, first_of, law_sorting_one_more, lemma_first_of, lemma_sorted_contains,
    sort_by_id, sorted_by_id, strictly_by_id, Named,
};
use crate::text;

verus! {

/// What a node of a cluster does.
#[derive(Debug, Clone, Copy, PartialEq, Eq, Structural)]
pub enum NodeRole {
    Primary,
    Replica,
    Candidate,
}

/// A node of a cluster.
#[derive(Debug, PartialEq, Eq)]
pub struct ClusterNode {
    pub node_id: String,
    pub address: String,
    pub role: NodeRole,
    pub healthy: bool,
}

/// The model of a node of a cluster.
pub struct ClusterNodeModel {
    pub node_id: Seq<char>,
    pub address: Seq<char>,
    pub role: NodeRole,
    pub healthy: bool,
}

impl View for ClusterNode {
    type V = ClusterNodeModel;

    open spec fn view(&self) -> ClusterNodeModel {
        ClusterNodeModel {
            node_id: self.node_id@,
            address: self.address@,
            role: self.role,
            healthy: self.healthy,
        }
    }
}

impl Replicate for ClusterNode {
    fn replicate(&self) -> (r: Self) {
        ClusterNode {
            node_id: self.node_id.clone(),
            address: self.address.clone(),
            role: self.role,
            healthy: self.healthy,
        }
    }
}

impl Named for ClusterNode {
    open spec fn id_of(model: ClusterNodeModel) -> Seq<char> {
        model.node_id
    }

    fn id(&self) -> (r: &str) {
        self.node_id.as_str()
    }
}

/// The nodes of a cluster and who leads them.
#[derive(Debug, PartialEq, Eq)]
pub struct ClusterTopology {
    pub term: u64,
    pub leader_node_id: Option<String>,
    pub nodes: Vec<ClusterNode>,
}

/// The model of the nodes of a cluster and who leads them.
pub struct TopologyModel {
    pub term: u64,
    pub leader_node_id: Option<Seq<char>>,
    pub nodes: Seq<ClusterNodeModel>,
}

impl View for ClusterTopology {
    type V = TopologyModel;

    open spec fn view(&self) -> TopologyModel {
        TopologyModel {
            term: self.term,
            leader_node_id: text::optional_string(self.leader_node_id),
            nodes: models(self.nodes@),
        }
    }
}

impl Replicate for ClusterTopology {
    fn replicate(&self) -> (r: Self) {
        ClusterTopology {
            term: self.term,
            leader_node_id: text::copy_optional(&self.leader_node_id),
            nodes: replicate_items(&self.nodes),
        }
    }
}

/// A change of the leader.
#[derive(Debug, PartialEq, Eq)]
pub struct FailoverPlan {
    pub old_leader_node_id: Option<String>,
    pub new_leader_node_id: String,
    pub term: u64,
}

/// Whether nodes stand in ascending order of their ids, no two of which are the same.
pub open spec fn by_id(nodes: Seq<ClusterNodeModel>) -> bool {
    strictly_by_id::<ClusterNode>(nodes)
}

/// Whether a node has an id.
pub open spec fn has_id(nodes: Seq<ClusterNodeModel>, id: Seq<char>) -> bool {
    exists|i: int| 0 <= i < nodes.len() && (#[trigger] nodes[i]).node_id == id
}

/// Nodes with one more, sorted by their ids; nodes of the same id keep their order.
pub open spec fn with_node(nodes: Seq<ClusterNodeModel>, node: ClusterNodeModel) -> Seq<
    ClusterNodeModel,
> {
    sorted_by_id::<ClusterNode>(nodes.push(node))
}

/// Nodes of which the first of an id is another one.
pub open spec fn replaced(
    nodes: Seq<ClusterNodeModel>,
    id: Seq<char>,
    change: spec_fn(ClusterNodeModel) -> ClusterNodeModel,
) -> Seq<ClusterNodeModel> {
    let at = first_of::<ClusterNode>(nodes, id);
    if at < nodes.len() {
        nodes.update(at, change(nodes[at]))
    } else {
        nodes
    }
}

/// Nodes that the one of an id leads: it is the primary and healthy, and what was a primary is a
/// replica.
pub open spec fn led_by(nodes: Seq<ClusterNodeModel>, id: Seq<char>) -> Seq<ClusterNodeModel> {
    Seq::new(
        nodes.len(),
        |i: int|
            if nodes[i].node_id == id {
                ClusterNodeModel { role: NodeRole::Primary, healthy: true, ..nodes[i] }
            } else if nodes[i].role == NodeRole::Primary {
                ClusterNodeModel { role: NodeRole::Replica, ..nodes[i] }
            } else {
                nodes[i]
            },
    )
}

/// A cluster of one node.
pub open spec fn lone_topology(id: Seq<char>, address: Seq<char>) -> TopologyModel {
    TopologyModel {
        term: 1,
        leader_node_id: Some(id),
        nodes: seq![
            ClusterNodeModel { node_id: id, address, role: NodeRole::Primary, healthy: true },
        ],
    }
}

/// What is said of a node that is not there.
pub open spec fn missing_node(id: Seq<char>) -> ErrorModel {
    ErrorModel::NotFound("cluster node '"@ + id + "' was not found"@)
}

/// A node that is written into a cluster is in it.
pub proof fn lemma_node_is_there(nodes: Seq<ClusterNodeModel>, node: ClusterNodeModel)
    ensures
        has_id(nodes, node.node_id) ==> has_id(
            replaced(nodes, node.node_id, |n: ClusterNodeModel| node),
            node.node_id,
        ),
        has_id(with_node(nodes, node), node.node_id),
{
    let after = with_node(nodes, node);
    assert(nodes.push(node)[nodes.len() as int] == node);
    lemma_sorted_contains::<ClusterNode>(nodes.push(node), node);
    let place = choose|i: int| 0 <= i < after.len() && after[i] == node;
    assert(after[place].node_id == node.node_id);
    if has_id(nodes, node.node_id) {
        lemma_has_id(nodes, node.node_id);
        lemma_first_of::<ClusterNode>(nodes, node.node_id);
        let at = first_of::<ClusterNode>(nodes, node.node_id);
        assert(replaced(nodes, node.node_id, |n: ClusterNodeModel| node)[at] == node);
    }
}

/// Nodes have an id if and only if there is a first one of it.
proof fn lemma_has_id(nodes: Seq<ClusterNodeModel>, id: Seq<char>)
    ensures
        has_id(nodes, id) <==> first_of::<ClusterNode>(nodes, id) < nodes.len(),
{
    lemma_first_of::<ClusterNode>(nodes, id);
    let at = first_of::<ClusterNode>(nodes, id);
    if at < nodes.len() {
        assert(nodes[at].node_id == id);
    }
    if has_id(nodes, id) {
        let i = choose|i: int| 0 <= i < nodes.len() && (#[trigger] nodes[i]).node_id == id;
        if at == nodes.len() {
            assert(ClusterNode::id_of(nodes[i]) != id);
        }
    }
}

impl ClusterTopology {
    /// A cluster of one node.
    pub fn single_node_with_id(node_id: &str, address: &str) -> (r: Self)
        ensures
            r@ == lone_topology(node_id@, address@),
    {
        let mut nodes: Vec<ClusterNode> = Vec::new();
        nodes.push(
            ClusterNode {
                node_id: node_id.to_owned(),
                address: address.to_owned(),
                role: NodeRole::Primary,
                healthy: true,
            },
        );
        proof {
            assert(models(nodes@) =~= lone_topology(node_id@, address@).nodes);
        }
        ClusterTopology { term: 1, leader_node_id: Some(node_id.to_owned()), nodes }
    }

    /// A cluster of the one node `node-1`.
    pub fn single_node(address: &str) -> (r: Self)
        ensures
            r@ == lone_topology("node-1"@, address@),
    {
        ClusterTopology::single_node_with_id("node-1", address)
    }
}

/// Keeps the nodes of a cluster.
#[derive(Debug, PartialEq, Eq)]
pub struct ClusterManager {
    topology: ClusterTopology,
}

impl View for ClusterManager {
    type V = TopologyModel;

    closed spec fn view(&self) -> TopologyModel {
        self.topology@
    }
}

/// Where the first node of an id stands.
fn find_node(nodes: &Vec<ClusterNode>, node_id: &str) -> (r: Option<usize>)
    ensures
        match r {
            Some(i) => i < nodes.len() && i == first_of::<ClusterNode>(models(nodes@), node_id@)
                && nodes@[i as int]@.node_id == node_id@ && has_id(models(nodes@), node_id@),
            None => !has_id(models(nodes@), node_id@),
        },
{
    proof {
        lemma_has_id(models(nodes@), node_id@);
    }
    let at: usize = find_first(nodes, node_id);
    if at < nodes.len() {
        assert(models(nodes@)[at as int] == nodes@[at as int]@);
        Some(at)
    } else {
        None
    }
}

/// Adds a node and sorts the nodes by their ids.
fn add_sorted(nodes: &mut Vec<ClusterNode>, node: ClusterNode)
    ensures
        models(final(nodes)@) == with_node(models(old(nodes)@), node@),
{
    let ghost before = models(nodes@);
    nodes.push(node);
    proof {
        assert(models(nodes@) =~= before.push(node@));
    }
    sort_by_id(nodes);
}

/// Makes the node of an id lead, if there is one; what led before does so no longer in any case.
fn lead(nodes: &mut Vec<ClusterNode>, node_id: &str) -> (r: bool)
    ensures
        models(final(nodes)@) == led_by(models(old(nodes)@), node_id@),
        r == has_id(models(old(nodes)@), node_id@),
{
    let ghost before = models(nodes@);
    let ghost want = led_by(before, node_id@);
    let mut found: bool = false;
    let mut i: usize = 0;
    while i < nodes.len()
        invariant
            i <= nodes.len(),
            nodes.len() == before.len(),
            want == led_by(before, node_id@),
            forall|k: int| 0 <= k < i ==> (#[trigger] nodes@[k])@ == want[k],
            forall|k: int| i <= k < nodes.len() ==> (#[trigger] nodes@[k])@ == before[k],
            found == exists|k: int| 0 <= k < i && (#[trigger] before[k]).node_id == node_id@,
        decreases nodes.len() - i,
    {
        let ghost held = nodes@;
        assert(nodes@[i as int]@ == before[i as int]);
        let current: ClusterNode = nodes[i].replicate();
        if text::same_text(current.node_id.as_str(), node_id) {
            nodes[i] = ClusterNode { role: NodeRole::Primary, healthy: true, ..current };
            found = true;
        } else if current.role == NodeRole::Primary {
            nodes[i] = ClusterNode { role: NodeRole::Replica, ..current };
        }
        proof {
            assert(nodes@[i as int]@ == want[i as int]);
        }
        i = i + 1;
    }
    proof {
        assert(models(nodes@) =~= want);
    }
    found
}

/// What is said of a node that is not there.
fn missing(node_id: &str) -> (r: Undr9Error)
    ensures
        r@ == missing_node(node_id@),
{
    Undr9Error::NotFound(join3("cluster node '", node_id, "' was not found"))
}

impl ClusterManager {
    /// The manager of a topology that was stored.
    pub fn from_stored(topology: ClusterTopology) -> (r: Self)
        ensures
            r@ == topology@,
    {
        ClusterManager { topology }
    }

    /// A cluster of one node.
    pub fn single_node_with_id(node_id: &str, address: &str) -> (r: Self)
        ensures
            r@ == lone_topology(node_id@, address@),
    {
        ClusterManager { topology: ClusterTopology::single_node_with_id(node_id, address) }
    }

    /// A cluster of the one node `node-1`.
    pub fn single_node(address: &str) -> (r: Self)
        ensures
            r@ == lone_topology("node-1"@, address@),
    {
        ClusterManager::single_node_with_id("node-1", address)
    }

    /// The nodes and who leads them.
    pub fn topology(&self) -> (r: &ClusterTopology)
        ensures
            r@ == self@,
    {
        &self.topology
    }

    /// Adds a replica, unless there is a node of its id.
    pub fn add_replica(&mut self, node_id: &str, address: &str) -> (r: Result<()>)
        ensures
            r is Ok <==> !has_id(old(self)@.nodes, node_id@),
            r is Ok ==> final(self)@ == (TopologyModel {
                nodes: with_node(
                    old(self)@.nodes,
                    ClusterNodeModel {
                        node_id: node_id@,
                        address: address@,
                        role: NodeRole::Replica,
                        healthy: true,
                    },
                ),
                ..old(self)@
            }),
            r matches Err(e) ==> final(self)@ == old(self)@ && e@ == ErrorModel::Conflict(
                "cluster node '"@ + node_id@ + "' already exists"@,
            ),
    {
        if find_node(&self.topology.nodes, node_id).is_some() {
            return Err(
                Undr9Error::Conflict(join3("cluster node '", node_id, "' already exists")),
            );
        }
        let node: ClusterNode = ClusterNode {
            node_id: node_id.to_owned(),
            address: address.to_owned(),
            role: NodeRole::Replica,
            healthy: true,
        };
        add_sorted(&mut self.topology.nodes, node);
        Ok(())
    }

    /// Sets what is known of the first node of an id, and adds one if there is none.
    pub fn upsert_node(&mut self, node_id: &str, address: &str, role: NodeRole, healthy: bool)
        ensures
            ({
                let node = ClusterNodeModel { node_id: node_id@, address: address@, role, healthy };
                final(self)@ == (TopologyModel {
                    nodes: if has_id(old(self)@.nodes, node_id@) {
                        replaced(old(self)@.nodes, node_id@, |n: ClusterNodeModel| node)
                    } else {
                        with_node(old(self)@.nodes, node)
                    },
                    ..old(self)@
                })
            }),
    {
        let ghost before = self@.nodes;
        let node: ClusterNode = ClusterNode {
            node_id: node_id.to_owned(),
            address: address.to_owned(),
            role,
            healthy,
        };
        let ghost model = node@;
        match find_node(&self.topology.nodes, node_id) {
            Some(at) => {
                self.topology.nodes[at] = node;
                proof {
                    assert(self@.nodes =~= before.update(at as int, model));
                }
            },
            None => {
                add_sorted(&mut self.topology.nodes, node);
            },
        }
    }

    /// Sets whether the first node of an id is healthy.
    pub fn mark_node_health(&mut self, node_id: &str, healthy: bool) -> (r: Result<()>)
        ensures
            r is Ok <==> has_id(old(self)@.nodes, node_id@),
            r is Ok ==> final(self)@ == (TopologyModel {
                nodes: replaced(
                    old(self)@.nodes,
                    node_id@,
                    |n: ClusterNodeModel| ClusterNodeModel { healthy, ..n },
                ),
                ..old(self)@
            }),
            r matches Err(e) ==> final(self)@ == old(self)@ && e@ == missing_node(node_id@),
    {
        match find_node(&self.topology.nodes, node_id) {
            Some(at) => {
                let ghost before = self@.nodes;
                let current: ClusterNode = self.topology.nodes[at].replicate();
                self.topology.nodes[at] = ClusterNode { healthy, ..current };
                proof {
                    assert(self@.nodes =~= before.update(
                        at as int,
                        ClusterNodeModel { healthy, ..before[at as int] },
                    ));
                }
                Ok(())
            },
            None => Err(missing(node_id)),
        }
    }

    /// Makes a node the leader of the next term. Where there is no such node, no node is a primary
    /// any more, and the leader and the term stay as they are.
    pub fn promote_node(&mut self, node_id: &str) -> (r: Result<FailoverPlan>)
        requires
            has_id(old(self)@.nodes, node_id@) ==> old(self)@.term < u64::MAX,
        ensures
            final(self)@.nodes == led_by(old(self)@.nodes, node_id@),
            r is Ok <==> has_id(old(self)@.nodes, node_id@),
            r matches Ok(plan) ==> {
                &&& final(self)@.term == old(self)@.term + 1
                &&& final(self)@.leader_node_id == Some(node_id@)
                &&& text::optional_string(plan.old_leader_node_id) == old(self)@.leader_node_id
                &&& plan.new_leader_node_id@ == node_id@
                &&& plan.term == final(self)@.term
            },
            r matches Err(e) ==> final(self)@.term == old(self)@.term && final(self)@.leader_node_id == old(self)@.leader_node_id && e@ == missing_node(node_id@),
    {
        let old_leader: Option<String> = text::copy_optional(&self.topology.leader_node_id);
        let found: bool = lead(&mut self.topology.nodes, node_id);
        if !found {
            return Err(missing(node_id));
        }
        self.topology.term = self.topology.term + 1;
        self.topology.leader_node_id = Some(node_id.to_owned());
        let term: u64 = self.topology.term;
        Ok(
            FailoverPlan {
                old_leader_node_id: old_leader,
                new_leader_node_id: node_id.to_owned(),
                term,
            },
        )
    }

    /// Makes a node the leader: of the next term, unless it leads already. Where there is no such
    /// node, no node is a primary any more, and the leader and the term stay as they are.
    pub fn ensure_leader(&mut self, node_id: &str) -> (r: Result<FailoverPlan>)
        requires
            has_id(old(self)@.nodes, node_id@) && old(self)@.leader_node_id != Some(node_id@)
                ==> old(self)@.term < u64::MAX,
        ensures
            final(self)@.nodes == led_by(old(self)@.nodes, node_id@),
            r is Ok <==> has_id(old(self)@.nodes, node_id@),
            r matches Ok(plan) ==> {
                &&& final(self)@.term == (if old(self)@.leader_node_id == Some(node_id@) {
                    old(self)@.term as int
                } else {
                    old(self)@.term + 1
                })
                &&& final(self)@.leader_node_id == Some(node_id@)
                &&& text::optional_string(plan.old_leader_node_id) == old(self)@.leader_node_id
                &&& plan.new_leader_node_id@ == node_id@
                &&& plan.term == final(self)@.term
            },
            r matches Err(e) ==> final(self)@.term == old(self)@.term && final(self)@.leader_node_id == old(self)@.leader_node_id && e@ == missing_node(node_id@),
    {
        let old_leader: Option<String> = text::copy_optional(&self.topology.leader_node_id);
        let found: bool = lead(&mut self.topology.nodes, node_id);
        if !found {
            return Err(missing(node_id));
        }
        if !text::same_optional_text(text::as_optional_text(&old_leader), Some(node_id)) {
            self.topology.term = self.topology.term + 1;
        }
        self.topology.leader_node_id = Some(node_id.to_owned());
        let term: u64 = self.topology.term;
        Ok(
            FailoverPlan {
                old_leader_node_id: old_leader,
                new_leader_node_id: node_id.to_owned(),
                term,
            },
        )
    }

    /// Takes note that a node leads; the term stays as it is. Where there is no such node, no node
    /// is a primary any more, and the leader stays as it is.
    pub fn observe_leader(&mut self, node_id: &str) -> (r: Result<()>)
        ensures
            final(self)@.nodes == led_by(old(self)@.nodes, node_id@),
            final(self)@.term == old(self)@.term,
            r is Ok <==> has_id(old(self)@.nodes, node_id@),
            r is Ok ==> final(self)@.leader_node_id == Some(node_id@),
            r matches Err(e) ==> final(self)@.leader_node_id == old(self)@.leader_node_id && e@
                == missing_node(node_id@),
    {
        let found: bool = lead(&mut self.topology.nodes, node_id);
        if !found {
            return Err(missing(node_id));
        }
        self.topology.leader_node_id = Some(node_id.to_owned());
        Ok(())
    }

    /// The node that leads: the first of the leader's id, if there is one.
    pub fn leader(&self) -> (r: Option<&ClusterNode>)
        ensures
            match r {
                Some(node) => self@.leader_node_id == Some(node@.node_id) && has_id(
                    self@.nodes,
                    node@.node_id,
                ) && node@ == self@.nodes[first_of::<ClusterNode>(self@.nodes, node@.node_id)],
                None => self@.leader_node_id matches Some(id) ==> !has_id(self@.nodes, id),
            },
    {
        match &self.topology.leader_node_id {
            Some(leader_id) => match find_node(&self.topology.nodes, leader_id.as_str()) {
                Some(at) => {
                    proof {
                        assert(self@.nodes[at as int] == self.topology.nodes@[at as int]@);
                    }
                    Some(&self.topology.nodes[at])
                },
                None => None,
            },
            None => None,
        }
    }

    /// The healthy replicas.
    pub fn readable_replicas(&self) -> (r: Vec<ClusterNode>)
        ensures
            models(r@) == self@.nodes.filter(
                |n: ClusterNodeModel| n.role == NodeRole::Replica && n.healthy,
            ),
    {
        let ghost all = self@.nodes;
        let ghost test = |n: ClusterNodeModel| n.role == NodeRole::Replica && n.healthy;
        let nodes: &Vec<ClusterNode> = &self.topology.nodes;
        let mut out: Vec<ClusterNode> = Vec::new();
        let mut i: usize = 0;
        proof {
            reveal(Seq::filter);
            assert(all.take(0).filter(test).len() == 0);
            assert(models(out@) =~= all.take(0).filter(test));
        }
        while i < nodes.len()
            invariant
                i <= nodes.len(),
                all == models(nodes@),
                test == (|n: ClusterNodeModel| n.role == NodeRole::Replica && n.healthy),
                models(out@) == all.take(i as int).filter(test),
            decreases nodes.len() - i,
        {
            proof {
                lemma_filter_step(all, test, i as int);
                assert(all[i as int] == nodes@[i as int]@);
            }
            let ghost held = out@;
            if nodes[i].role == NodeRole::Replica && nodes[i].healthy {
                out.push(nodes[i].replicate());
                proof {
                    assert(models(out@) =~= models(held).push(nodes@[i as int]@));
                }
            }
            i = i + 1;
        }
        proof {
            assert(all.take(i as int) =~= all);
        }
        out
    }
}

/// A cluster whose nodes stand in ascending order of their ids keeps them so: when a node of a new
/// id is added, when what is known of a node changes but for its id, and when a node is made to
/// lead.
pub proof fn law_nodes_stay_in_order(
    nodes: Seq<ClusterNodeModel>,
    node: ClusterNodeModel,
    id: Seq<char>,
    change: spec_fn(ClusterNodeModel) -> ClusterNodeModel,
)
    requires
        by_id(nodes),
        forall|n: ClusterNodeModel| n.node_id == id ==> (#[trigger] change(n)).node_id == id,
    ensures
        !has_id(nodes, node.node_id) ==> by_id(with_node(nodes, node)),
        by_id(replaced(nodes, id, change)),
        by_id(led_by(nodes, id)),
{
    if !has_id(nodes, node.node_id) {
        lemma_has_id(nodes, node.node_id);
        lemma_first_of::<ClusterNode>(nodes, node.node_id);
        law_sorting_one_more::<ClusterNode>(nodes, node);
    }
    lemma_first_of::<ClusterNode>(nodes, id);
    let changed = replaced(nodes, id, change);
    assert forall|i: int, j: int| 0 <= i < j < changed.len() implies text::text_less(
        ClusterNode::id_of(#[trigger] changed[i]),
        ClusterNode::id_of(#[trigger] changed[j]),
    ) by {
        assert(changed[i].node_id == nodes[i].node_id);
        assert(changed[j].node_id == nodes[j].node_id);
    }
    let led = led_by(nodes, id);
    assert forall|i: int, j: int| 0 <= i < j < led.len() implies text::text_less(
        ClusterNode::id_of(#[trigger] led[i]),
        ClusterNode::id_of(#[trigger] led[j]),
    ) by {
        assert(led[i].node_id == nodes[i].node_id);
        assert(led[j].node_id == nodes[j].node_id);
    }
}

/// Once a node leads, it is a healthy primary and no other node is a primary.
pub proof fn law_one_primary(nodes: Seq<ClusterNodeModel>, id: Seq<char>)
    ensures
        forall|i: int|
            0 <= i < nodes.len() ==> {
                &&& (#[trigger] led_by(nodes, id)[i]).role == NodeRole::Primary <==> nodes[i].node_id
                    == id
                &&& nodes[i].node_id == id ==> led_by(nodes, id)[i].healthy
                &&& led_by(nodes, id)[i].node_id == nodes[i].node_id
                &&& led_by(nodes, id)[i].address == nodes[i].address
            },
{
}

/// To make the same node lead twice is to make it lead once.
pub proof fn law_leading_twice(nodes: Seq<ClusterNodeModel>, id: Seq<char>)
    ensures
        led_by(led_by(nodes, id), id) == led_by(nodes, id),
        has_id(led_by(nodes, id), id) == has_id(nodes, id),
{
    let once = led_by(nodes, id);
    assert(led_by(once, id) =~= once);
    if has_id(nodes, id) {
        let i = choose|i: int| 0 <= i < nodes.len() && (#[trigger] nodes[i]).node_id == id;
        assert(once[i].node_id == id);
    }
    if has_id(once, id) {
        let i = choose|i: int| 0 <= i < once.len() && (#[trigger] once[i]).node_id == id;
        assert(nodes[i].node_id == id);
    }
}

} // verus!
