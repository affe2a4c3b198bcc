//! The values that the library works on: the nodes and edges of a thought
//! graph, and the paths that a search through it finds.
use vstd::prelude::*;

verus! {

/// A node of a graph: one comment or reply.
#[derive(Debug)]
pub struct Node {
    pub id: i64,
    pub app_id: String,
    pub content: String,
}

/// What a [`Node`] holds.
pub struct NodeView {
    pub id: i64,
    pub app_id: Seq<char>,
    pub content: Seq<char>,
}

/// A directed edge between two nodes, by their ids.
#[derive(Debug)]
pub struct Edge {
    pub from_node_id: i64,
    pub to_node_id: i64,
    /// `"reply"` or `"ref"`.
    pub kind: String,
    pub label: String,
}

/// What an [`Edge`] holds.
pub struct EdgeView {
    pub from_node_id: i64,
    pub to_node_id: i64,
    pub kind: Seq<char>,
    pub label: Seq<char>,
}

/// One step of a path: the edge that was walked along.
#[derive(Debug)]
pub struct PathStep {
    /// `"reply"` or `"ref"`.
    pub kind: String,
    /// Whether the step goes against the arrow of the edge.
    pub reversed: bool,
    pub label: String,
}

/// What a [`PathStep`] holds.
pub struct StepView {
    pub kind: Seq<char>,
    pub reversed: bool,
    pub label: Seq<char>,
}

/// A path through a graph: `steps[i]` leads from `nodes[i]` to `nodes[i + 1]`.
#[derive(Debug)]
pub struct PathHit {
    pub nodes: Vec<Node>,
    pub steps: Vec<PathStep>,
}

/// What a [`PathHit`] holds.
#[verifier::ext_equal]
pub struct HitView {
    pub nodes: Seq<NodeView>,
    pub steps: Seq<StepView>,
}

impl View for Node {
    type V = NodeView;

    open spec fn view(&self) -> NodeView {
        NodeView { id: self.id, app_id: self.app_id@, content: self.content@ }
    }
}

impl DeepView for Node {
    type V = NodeView;

    open spec fn deep_view(&self) -> NodeView {
        self@
    }
}

impl View for Edge {
    type V = EdgeView;

    open spec fn view(&self) -> EdgeView {
        EdgeView {
            from_node_id: self.from_node_id,
            to_node_id: self.to_node_id,
            kind: self.kind@,
            label: self.label@,
        }
    }
}

impl DeepView for Edge {
    type V = EdgeView;

    open spec fn deep_view(&self) -> EdgeView {
        self@
    }
}

impl View for PathStep {
    type V = StepView;

    open spec fn view(&self) -> StepView {
        StepView { kind: self.kind@, reversed: self.reversed, label: self.label@ }
    }
}

impl DeepView for PathStep {
    type V = StepView;

    open spec fn deep_view(&self) -> StepView {
        self@
    }
}

impl View for PathHit {
    type V = HitView;

    open spec fn view(&self) -> HitView {
        HitView { nodes: self.nodes.deep_view(), steps: self.steps.deep_view() }
    }
}

impl DeepView for PathHit {
    type V = HitView;

    open spec fn deep_view(&self) -> HitView {
        self@
    }
}

impl Clone for Node {
    fn clone(&self) -> (res: Self)
        ensures
            res@ == self@,
    {
        Node { id: self.id, app_id: self.app_id.clone(), content: self.content.clone() }
    }
}

impl Clone for PathStep {
    fn clone(&self) -> (res: Self)
        ensures
            res@ == self@,
    {
        PathStep { kind: self.kind.clone(), reversed: self.reversed, label: self.label.clone() }
    }
}

/// What is said of a node is said of all that it holds.
pub proof fn law_nodes_are_seen_whole(n: Node)
    ensures
        n.deep_view() == n@,
        n@.id == n.id,
        n@.app_id == n.app_id@,
        n@.content == n.content@,
{
}

/// What is said of an edge is said of all that it holds.
pub proof fn law_edges_are_seen_whole(e: Edge)
    ensures
        e.deep_view() == e@,
        e@.from_node_id == e.from_node_id,
        e@.to_node_id == e.to_node_id,
        e@.kind == e.kind@,
        e@.label == e.label@,
{
}

/// What is said of a path is said of all of its nodes and steps.
pub proof fn law_paths_are_seen_whole(hit: PathHit, i: int)
    ensures
        hit.deep_view() == hit@,
        hit@.nodes.len() == hit.nodes@.len(),
        0 <= i < hit.nodes@.len() ==> hit@.nodes[i] == hit.nodes@[i]@,
        hit@.steps.len() == hit.steps@.len(),
        0 <= i < hit.steps@.len() ==> hit@.steps[i].kind == hit.steps@[i].kind@
            && hit@.steps[i].reversed == hit.steps@[i].reversed && hit@.steps[i].label
            == hit.steps@[i].label@,
{
}

} // verus!
