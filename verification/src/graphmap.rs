use vstd::prelude::*;

verus! {

/// Marker type for petgraph's directed graphs; it carries no data.
#[verifier::external_type_specification]
#[verifier::external_body]
pub struct ExDirected(petgraph::Directed);

/// petgraph's `GraphMap`: an adjacency-map graph keyed by the node values
/// themselves. Opaque here; its contents are spoken of through
/// `graph_nodes` and `graph_edges` below.
#[verifier::external_type_specification]
#[verifier::external_body]
#[verifier::reject_recursive_types(N)]
#[verifier::reject_recursive_types(E)]
#[verifier::reject_recursive_types(Ty)]
#[verifier::reject_recursive_types(S)]
pub struct ExGraphMap<N, E, Ty, S>(petgraph::graphmap::GraphMap<N, E, Ty, S>) where
    S: std::hash::BuildHasher;

/// The concrete graph representation: a petgraph directed graph map whose
/// nodes are interned identifier indices and whose edge weights are the
/// `mandatory` flags.
pub type ModGraphMap = petgraph::graphmap::DiGraphMap<usize, bool>;

/// The nodes a directed graph map holds, in insertion order. petgraph backs
/// the node set with an insertion-ordered index map, and nodes are only
/// ever appended by the operations wrapped here.
pub uninterp spec fn graph_nodes(g: ModGraphMap) -> Seq<usize>;

/// The directed edges a graph map holds: each ordered pair maps to its
/// weight, here the `mandatory` flag. A graph map never holds parallel
/// edges, so a map is the exact model.
pub uninterp spec fn graph_edges(g: ModGraphMap) -> Map<
    (usize, usize),
    bool,
>;

/// The node order after inserting `n`: unchanged when present, appended
/// when new.
pub open spec fn push_node(ns: Seq<usize>, n: usize) -> Seq<usize> {
    if ns.contains(n) {
        ns
    } else {
        ns.push(n)
    }
}

/// The empty edge model.
pub open spec fn empty_edges() -> Map<(usize, usize), bool> {
    Map::empty()
}

/// Relies on `GraphMap::new`: a fresh graph has no nodes and no edges.
#[verifier::external_body]
pub(crate) fn gm_new() -> (r: ModGraphMap)
    ensures
        graph_nodes(r) == Seq::<usize>::empty(),
        graph_edges(r) == empty_edges(),
{
    petgraph::graphmap::DiGraphMap::new()
}

/// Relies on `GraphMap::add_node`: inserts the node at the end of the node
/// order; a node already present is left where it is. Edges are untouched.
#[verifier::external_body]
pub(crate) fn gm_add_node(g: &mut ModGraphMap, n: usize)
    ensures
        graph_nodes(*final(g)) == push_node(graph_nodes(*old(g)), n),
        graph_edges(*final(g)) == graph_edges(*old(g)),
{
    g.add_node(n);
}

/// Relies on `GraphMap::add_edge` on a directed graph: inserts the edge
/// `a -> b` or overwrites its weight, and inserts whichever endpoints were
/// missing, `a` before `b`.
#[verifier::external_body]
pub(crate) fn gm_add_edge(
    g: &mut ModGraphMap,
    a: usize,
    b: usize,
    mandatory: bool,
)
    ensures
        graph_nodes(*final(g)) == push_node(push_node(graph_nodes(*old(g)), a), b),
        graph_edges(*final(g)) == graph_edges(*old(g)).insert((a, b), mandatory),
{
    g.add_edge(a, b, mandatory);
}

/// Relies on `GraphMap::remove_edge` on a directed graph: removes the edge
/// `a -> b` if present and returns its weight; the nodes are untouched.
#[verifier::external_body]
pub(crate) fn gm_remove_edge(
    g: &mut ModGraphMap,
    a: usize,
    b: usize,
) -> (r: Option<bool>)
    ensures
        graph_nodes(*final(g)) == graph_nodes(*old(g)),
        graph_edges(*final(g)) == graph_edges(*old(g)).remove((a, b)),
        r == (if graph_edges(*old(g)).dom().contains((a, b)) {
            Some(graph_edges(*old(g))[(a, b)])
        } else {
            None::<bool>
        }),
{
    g.remove_edge(a, b)
}

/// Relies on `GraphMap::contains_edge` on a directed graph.
#[verifier::external_body]
pub(crate) fn gm_contains_edge(
    g: &ModGraphMap,
    a: usize,
    b: usize,
) -> (r: bool)
    ensures
        r == graph_edges(*g).dom().contains((a, b)),
{
    g.contains_edge(a, b)
}

/// Relies on `GraphMap::edge_weight` on a directed graph: the weight of
/// the edge `a -> b`, if that edge is present.
#[verifier::external_body]
pub(crate) fn gm_edge_weight(
    g: &ModGraphMap,
    a: usize,
    b: usize,
) -> (r: Option<bool>)
    ensures
        r == (if graph_edges(*g).dom().contains((a, b)) {
            Some(graph_edges(*g)[(a, b)])
        } else {
            None::<bool>
        }),
{
    g.edge_weight(a, b).copied()
}

/// Relies on `GraphMap::edge_count`: the number of edges the graph holds.
#[verifier::external_body]
pub(crate) fn gm_edge_count(g: &ModGraphMap) -> (r: usize)
    ensures
        r == graph_edges(*g).dom().len(),
{
    g.edge_count()
}

} // verus!
