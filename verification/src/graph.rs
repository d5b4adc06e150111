use vstd::prelude::*;

use crate::graphmap::{
    empty_edges, gm_add_edge, gm_add_node, gm_contains_edge, gm_edge_count, gm_edge_weight, gm_new,
    gm_remove_edge, graph_edges, graph_nodes, push_node, ModGraphMap,
};
use crate::record::{DepModel, ModRecord, RecordModel};

verus! {

/// The mod-loader runtime's own identifier: dependencies on it are not
/// part of the mod graph.
pub open spec fn loader_id() -> Seq<char> {
    "forge"@
}

/// The host game's identifier: dependencies on it are not part of the mod
/// graph.
pub open spec fn game_id() -> Seq<char> {
    "minecraft"@
}

/// Whether `s` names one of the two platform pseudo-identifiers excluded
/// from the graph.
pub open spec fn is_platform(s: Seq<char>) -> bool {
    s == loader_id() || s == game_id()
}

/// The index of the first occurrence of `s` in `names`, or `names.len()`
/// when `s` does not occur.
pub open spec fn find_name(names: Seq<Seq<char>>, s: Seq<char>) -> int
    decreases names.len(),
{
    if names.len() == 0 {
        0
    } else if names[0] == s {
        0
    } else {
        1 + find_name(names.drop_first(), s)
    }
}

/// The name table after interning `s`: unchanged when present, appended
/// when new.
pub open spec fn push_name(names: Seq<Seq<char>>, s: Seq<char>) -> Seq<Seq<char>> {
    if names.contains(s) {
        names
    } else {
        names.push(s)
    }
}

/// No identifier occurs twice in the table.
pub open spec fn distinct_names(names: Seq<Seq<char>>) -> bool {
    forall|k: int, l: int| 0 <= k < l < names.len() ==> names[k] != names[l]
}

/// The node order of a well-formed graph: the interned indices in order.
pub open spec fn identity_nodes(n: nat) -> Seq<usize> {
    Seq::new(n, |i: int| i as usize)
}

/// `find_name` ignores a prefix in which `s` does not occur.
proof fn lemma_find_prefix(names: Seq<Seq<char>>, s: Seq<char>, k: int)
    requires
        0 <= k <= names.len(),
        forall|i: int| 0 <= i < k ==> names[i] != s,
    ensures
        find_name(names, s) == k + find_name(names.skip(k), s),
    decreases k,
{
    if k == 0 {
        assert(names.skip(0) =~= names);
    } else {
        lemma_find_prefix(names, s, k - 1);
        assert(names.skip(k - 1)[0] == names[k - 1]);
        assert(names.skip(k - 1).drop_first() =~= names.skip(k));
    }
}

/// `find_name` is the first occurrence: everything before it differs from
/// `s`, and it lands on `s` whenever `s` occurs at all.
proof fn lemma_find_props(names: Seq<Seq<char>>, s: Seq<char>)
    ensures
        0 <= find_name(names, s) <= names.len(),
        find_name(names, s) < names.len() ==> names[find_name(names, s)] == s,
        forall|i: int| 0 <= i < find_name(names, s) ==> names[i] != s,
        names.contains(s) ==> find_name(names, s) < names.len(),
    decreases names.len(),
{
    if names.len() == 0 {
    } else if names[0] == s {
        assert(names.contains(s)) by {
            assert(names[0] == s);
        }
    } else {
        let d = names.drop_first();
        lemma_find_props(d, s);
        let f = find_name(names, s);
        assert forall|i: int| 0 <= i < f implies names[i] != s by {
            if i > 0 {
                assert(d[i - 1] == names[i]);
            }
        }
        if names.contains(s) {
            let w = choose|i: int| 0 <= i < names.len() && names[i] == s;
            assert(w > 0);
            assert(d[w - 1] == s);
            assert(d.contains(s));
        }
        if f < names.len() {
            assert(names[f] == d[f - 1]);
        }
    }
}

/// If `s` stands at `k` and nowhere earlier, `find_name` returns `k`.
proof fn lemma_find_at(names: Seq<Seq<char>>, s: Seq<char>, k: int)
    requires
        0 <= k < names.len(),
        names[k] == s,
        forall|i: int| 0 <= i < k ==> names[i] != s,
    ensures
        find_name(names, s) == k,
{
    lemma_find_prefix(names, s, k);
    assert(names.skip(k)[0] == names[k]);
}

/// Interning another identifier does not move an identifier already
/// present.
proof fn lemma_find_stable(n1: Seq<Seq<char>>, s: Seq<char>, t: Seq<char>, a: usize)
    requires
        a as int == find_name(n1, s),
        (a as int) < n1.len(),
        n1[a as int] == s,
    ensures
        find_name(push_name(n1, t), s) == a as int,
{
    lemma_find_props(n1, s);
    let n2 = push_name(n1, t);
    assert(n2[a as int] == n1[a as int]);
    assert forall|i: int| 0 <= i < a as int implies n2[i] != s by {
        assert(n2[i] == n1[i]);
    }
    lemma_find_at(n2, s, a as int);
}

/// `identity_nodes` holds exactly the indices below `n`.
proof fn lemma_identity_contains(n: nat, v: usize)
    ensures
        identity_nodes(n).contains(v) <==> (v as nat) < n,
{
    if (v as nat) < n {
        assert(identity_nodes(n)[v as int] == v);
    }
    if identity_nodes(n).contains(v) {
        let i = choose|i: int| 0 <= i < n && identity_nodes(n)[i] == v;
        assert(identity_nodes(n)[i] == i as usize);
    }
}

/// Interning one identifier keeps the graph's node order in step with the
/// name table: inserting the interned index extends the identity order
/// exactly when the table grew.
proof fn lemma_intern_node_sync(names0: Seq<Seq<char>>, s: Seq<char>, a: usize)
    requires
        a as int == find_name(push_name(names0, s), s),
        (a as int) < push_name(names0, s).len(),
        push_name(names0, s)[a as int] == s,
    ensures
        push_node(identity_nodes(names0.len()), a) =~= identity_nodes(push_name(names0, s).len()),
{
    let n1 = push_name(names0, s);
    if names0.contains(s) {
        lemma_identity_contains(names0.len(), a);
    } else {
        assert(n1 == names0.push(s));
        assert(a as int == names0.len()) by {
            if (a as int) < names0.len() {
                assert(n1[a as int] == names0[a as int]);
                assert(names0.contains(s)) by {
                    assert(names0[a as int] == s);
                }
            }
        }
        lemma_identity_contains(names0.len(), a);
        assert(!identity_nodes(names0.len()).contains(a));
    }
}

/// The state the graph builder threads through its fold: the name table
/// and the edge map over interned indices.
#[verifier::ext_equal]
pub ghost struct BuildState {
    pub names: Seq<Seq<char>>,
    pub edges: Map<(usize, usize), bool>,
}

/// One dependency declaration's effect: nothing for a platform target;
/// otherwise the source and target are interned (source first) and the
/// edge source -> target is inserted, overwriting any earlier flag.
pub open spec fn dep_step(st: BuildState, src: Seq<char>, target: Seq<char>, mandatory: bool) -> BuildState {
    if is_platform(target) {
        st
    } else {
        let n1 = push_name(st.names, src);
        let a = find_name(n1, src) as usize;
        let n2 = push_name(n1, target);
        let b = find_name(n2, target) as usize;
        BuildState { names: n2, edges: st.edges.insert((a, b), mandatory) }
    }
}

/// The effect of one record's dependency list, in order.
pub open spec fn add_deps(st: BuildState, src: Seq<char>, deps: Seq<DepModel>) -> BuildState
    decreases deps.len(),
{
    if deps.len() == 0 {
        st
    } else {
        add_deps(dep_step(st, src, deps[0].target, deps[0].mandatory), src, deps.drop_first())
    }
}

/// The effect of every record's dependency list, in record order.
pub open spec fn add_edges(st: BuildState, recs: Seq<RecordModel>) -> BuildState
    decreases recs.len(),
{
    if recs.len() == 0 {
        st
    } else {
        add_edges(add_deps(st, recs[0].mod_id, recs[0].deps), recs.drop_first())
    }
}

/// The name table after the node pass: every non-empty declared mod
/// identifier, in record order, first occurrence only.
pub open spec fn add_names(names: Seq<Seq<char>>, recs: Seq<RecordModel>) -> Seq<Seq<char>>
    decreases recs.len(),
{
    if recs.len() == 0 {
        names
    } else {
        add_names(
            if recs[0].mod_id.len() == 0 {
                names
            } else {
                push_name(names, recs[0].mod_id)
            },
            recs.drop_first(),
        )
    }
}

/// The dependency graph an inventory builds: a node pass over the declared
/// identifiers, then an edge pass over the declared dependencies.
pub open spec fn build_spec(recs: Seq<RecordModel>) -> BuildState {
    add_edges(BuildState { names: add_names(Seq::empty(), recs), edges: Map::empty() }, recs)
}

/// The dependency graph: mod identifiers interned into a name table, and a
/// petgraph directed graph over the interned indices.
pub struct DepGraph {
    names: Vec<String>,
    g: ModGraphMap,
}

impl DepGraph {
    /// The interned identifiers, in insertion order.
    pub closed spec fn names_spec(self) -> Seq<Seq<char>> {
        self.names.deep_view()
    }

    /// The edge map: each ordered pair of interned indices that is an edge
    /// maps to its `mandatory` flag.
    pub closed spec fn edges_spec(self) -> Map<(usize, usize), bool> {
        graph_edges(self.g)
    }

    /// Well-formedness: the graph's nodes are exactly the interned indices
    /// in order, the name table has no duplicates, and every edge joins
    /// interned indices.
    pub closed spec fn wf(self) -> bool {
        &&& graph_nodes(self.g) == identity_nodes(self.names_spec().len())
        &&& distinct_names(self.names_spec())
        &&& self.edges_spec().dom().finite()
        &&& forall|e: (usize, usize)|
            self.edges_spec().dom().contains(e) ==> e.0 < self.names_spec().len() && e.1
                < self.names_spec().len()
    }

    /// The number of nodes of the graph.
    pub fn node_count(&self) -> (r: usize)
        ensures
            r == self.names_spec().len(),
    {
        self.names.len()
    }

    /// The number of edges of the graph.
    pub fn edge_count(&self) -> (r: usize)
        ensures
            r == self.edges_spec().dom().len(),
    {
        gm_edge_count(&self.g)
    }

    /// The identifier a node index stands for.
    pub fn name_of(&self, i: usize) -> (r: &String)
        requires
            i < self.names_spec().len(),
        ensures
            r@ == self.names_spec()[i as int],
    {
        proof {
            assert(self.names_spec()[i as int] == self.names@[i as int]@);
        }
        &self.names[i]
    }

    /// Whether the edge `a -> b` is present, and if so with which
    /// `mandatory` flag.
    pub fn edge_flag(&self, a: usize, b: usize) -> (r: Option<bool>)
        ensures
            r == (if self.edges_spec().dom().contains((a, b)) {
                Some(self.edges_spec()[(a, b)])
            } else {
                None::<bool>
            }),
    {
        gm_edge_weight(&self.g, a, b)
    }
}

/// Interns `s`: returns the index of its first occurrence in the table,
/// appending it when absent.
fn intern(names: &mut Vec<String>, s: &String) -> (id: usize)
    ensures
        final(names).deep_view() == push_name(old(names).deep_view(), s@),
        id as int == find_name(push_name(old(names).deep_view(), s@), s@),
        id < final(names)@.len(),
        final(names).deep_view()[id as int] == s@,
        final(names)@.len() >= old(names)@.len(),
        distinct_names(old(names).deep_view()) ==> distinct_names(final(names).deep_view()),
{
    let ghost old_dv = names.deep_view();
    let mut k: usize = 0;
    while k < names.len()
        invariant
            k <= names.len(),
            names.deep_view() == old_dv,
            forall|i: int| 0 <= i < k ==> old_dv[i] != s@,
        decreases names.len() - k,
    {
        if names[k] == *s {
            proof {
                assert(old_dv[k as int] == names@[k as int]@);
                assert(old_dv.contains(s@)) by {
                    assert(old_dv[k as int] == s@);
                }
                lemma_find_at(old_dv, s@, k as int);
            }
            return k;
        }
        proof {
            assert(old_dv[k as int] == names@[k as int]@);
        }
        k = k + 1;
    }
    let id = names.len();
    names.push(s.clone());
    proof {
        assert(!old_dv.contains(s@));
        assert(names.deep_view() =~= old_dv.push(s@));
        lemma_find_at(names.deep_view(), s@, id as int);
        if distinct_names(old_dv) {
            let new_dv = names.deep_view();
            assert forall|x: int, l: int| 0 <= x < l < new_dv.len() implies new_dv[x] != new_dv[l] by {
                if l == new_dv.len() - 1 {
                    assert(new_dv[x] == old_dv[x]);
                    if new_dv[x] == s@ {
                        assert(old_dv.contains(s@)) by {
                            assert(old_dv[x] == s@);
                        }
                        assert(false);
                    }
                }
            }
        }
    }
    id
}

/// Builds the dependency graph of an inventory: every non-empty declared
/// mod identifier becomes a node; every declared dependency becomes a
/// directed edge from the declaring mod to its target, carrying the
/// `mandatory` flag, except that dependencies on the two platform
/// pseudo-identifiers are excluded entirely. A dependency on an identifier
/// never declared as a mod still inserts the edge, interning the missing
/// endpoint.
pub fn build_graph(records: &Vec<ModRecord>) -> (r: DepGraph)
    ensures
        r.wf(),
        r.names_spec() == build_spec(records.deep_view()).names,
        r.edges_spec() == build_spec(records.deep_view()).edges,
        forall|e: (usize, usize)|
            r.edges_spec().dom().contains(e) ==> !is_platform(r.names_spec()[e.1 as int]),
{
    let ghost recs = records.deep_view();
    let mut names: Vec<String> = Vec::new();
    let mut g = gm_new();
    proof {
        assert(names.deep_view() =~= Seq::<Seq<char>>::empty());
        assert(identity_nodes(0) =~= Seq::<usize>::empty());
        assert(recs.skip(0) =~= recs);
    }
    let mut k: usize = 0;
    while k < records.len()
        invariant
            k <= records.len(),
            recs == records.deep_view(),
            add_names(names.deep_view(), recs.skip(k as int)) == add_names(Seq::empty(), recs),
            graph_nodes(g) == identity_nodes(names.deep_view().len()),
            graph_edges(g) == empty_edges(),
            distinct_names(names.deep_view()),
        decreases records.len() - k,
    {
        proof {
            assert(recs.skip(k as int)[0] == recs[k as int]);
            assert(recs.skip(k as int).drop_first() =~= recs.skip(k as int + 1));
            assert(recs[k as int] == records@[k as int].deep_view());
        }
        if !records[k].mod_id.as_str().is_empty() {
            let ghost names0 = names.deep_view();
            let id = intern(&mut names, &records[k].mod_id);
            proof {
                assert(records@[k as int].mod_id@ == recs[k as int].mod_id);
                lemma_intern_node_sync(names0, recs[k as int].mod_id, id);
            }
            gm_add_node(&mut g, id);
        }
        k = k + 1;
    }
    proof {
        assert(recs.skip(records@.len() as int) =~= Seq::<RecordModel>::empty());
        assert(empty_edges() == Map::<(usize, usize), bool>::empty());
        assert(recs.skip(0) =~= recs);
    }
    // Edge pass: the graph state now matches the spec state after the node
    // pass; fold every dependency list over it.
    let ghost st0 = BuildState { names: names.deep_view(), edges: graph_edges(g) };
    let mut k: usize = 0;
    while k < records.len()
        invariant
            k <= records.len(),
            recs == records.deep_view(),
            add_edges(
                BuildState { names: names.deep_view(), edges: graph_edges(g) },
                recs.skip(k as int),
            ) == add_edges(st0, recs),
            graph_nodes(g) == identity_nodes(names.deep_view().len()),
            distinct_names(names.deep_view()),
            graph_edges(g).dom().finite(),
            forall|e: (usize, usize)|
                graph_edges(g).dom().contains(e) ==> e.0 < names.deep_view().len() && e.1
                    < names.deep_view().len(),
            forall|e: (usize, usize)|
                graph_edges(g).dom().contains(e) ==> !is_platform(names.deep_view()[e.1 as int]),
        decreases records.len() - k,
    {
        proof {
            assert(recs.skip(k as int)[0] == recs[k as int]);
            assert(recs.skip(k as int).drop_first() =~= recs.skip(k as int + 1));
            assert(recs[k as int] == records@[k as int].deep_view());
        }
        let ghost deps = recs[k as int].deps;
        let ghost src = recs[k as int].mod_id;
        let ghost stk = BuildState { names: names.deep_view(), edges: graph_edges(g) };
        proof {
            assert(deps.skip(0) =~= deps);
        }
        let loader: String = "forge".to_owned();
        let game: String = "minecraft".to_owned();
        let mut j: usize = 0;
        while j < records[k].deps.len()
            invariant
                j <= records@[k as int].deps@.len(),
                k < records.len(),
                recs == records.deep_view(),
                deps == recs[k as int].deps,
                src == recs[k as int].mod_id,
                loader@ == loader_id(),
                game@ == game_id(),
                add_deps(
                    BuildState { names: names.deep_view(), edges: graph_edges(g) },
                    src,
                    deps.skip(j as int),
                ) == add_deps(stk, src, deps),
                graph_nodes(g) == identity_nodes(names.deep_view().len()),
                distinct_names(names.deep_view()),
                graph_edges(g).dom().finite(),
                forall|e: (usize, usize)|
                    graph_edges(g).dom().contains(e) ==> e.0 < names.deep_view().len() && e.1
                        < names.deep_view().len(),
                forall|e: (usize, usize)|
                    graph_edges(g).dom().contains(e) ==> !is_platform(
                        names.deep_view()[e.1 as int],
                    ),
            decreases records@[k as int].deps@.len() - j,
        {
            proof {
                assert(deps.skip(j as int)[0] == deps[j as int]);
                assert(deps.skip(j as int).drop_first() =~= deps.skip(j as int + 1));
                assert(deps[j as int] == records@[k as int].deps@[j as int].deep_view());
            }
            let target_is_loader = records[k].deps[j].target == loader;
            let target_is_game = records[k].deps[j].target == game;
            if !target_is_loader && !target_is_game {
                let ghost names0 = names.deep_view();
                let ghost edges0 = graph_edges(g);
                let a = intern(&mut names, &records[k].mod_id);
                let ghost n1 = names.deep_view();
                let b = intern(&mut names, &records[k].deps[j].target);
                let ghost n2 = names.deep_view();
                let mandatory = records[k].deps[j].mandatory;
                gm_add_edge(&mut g, a, b, mandatory);
                proof {
                    let t = deps[j as int].target;
                    assert(records@[k as int].mod_id@ == src);
                    assert(records@[k as int].deps@[j as int].target@ == t);
                    assert(!is_platform(t));
                    // The interned indices match the spec's.
                    assert(n1 == push_name(names0, src));
                    assert(n2 == push_name(n1, t));
                    lemma_find_stable(n1, src, t, a);
                    // The node order stays the interned indices in order.
                    lemma_intern_node_sync(names0, src, a);
                    lemma_intern_node_sync(n1, t, b);
                    let stn = dep_step(
                        BuildState { names: names0, edges: edges0 },
                        src,
                        t,
                        deps[j as int].mandatory,
                    );
                    assert(BuildState { names: names.deep_view(), edges: graph_edges(g) } =~= stn);
                }
            }
            j = j + 1;
        }
        proof {
            assert(deps.skip(records@[k as int].deps@.len() as int) =~= Seq::<DepModel>::empty());
        }
        k = k + 1;
    }
    proof {
        assert(recs.skip(records@.len() as int) =~= Seq::<RecordModel>::empty());
    }
    DepGraph { names, g }
}


/// The edges left once every self-loop below `i` is removed.
pub open spec fn strip_below(e: Map<(usize, usize), bool>, i: int) -> Map<(usize, usize), bool> {
    Map::new(
        |k: (usize, usize)| e.dom().contains(k) && !(k.0 == k.1 && (k.0 as int) < i),
        |k: (usize, usize)| e[k],
    )
}

/// The edges left once every self-loop is removed.
pub open spec fn strip_loops(e: Map<(usize, usize), bool>) -> Map<(usize, usize), bool> {
    Map::new(|k: (usize, usize)| e.dom().contains(k) && k.0 != k.1, |k: (usize, usize)| e[k])
}

/// The innermost step of the reduction pass, for fixed `a` and `b`: walk
/// `c` upward from `c0`; whenever the edge `b -> c` is present in the
/// current edge set, remove `a -> c`.
pub open spec fn rm_targets(
    e: Map<(usize, usize), bool>,
    a: usize,
    b: usize,
    c0: int,
    n: int,
) -> Map<(usize, usize), bool>
    decreases n - c0,
{
    if c0 >= n {
        e
    } else {
        let e2 = if e.dom().contains((b, c0 as usize)) {
            e.remove((a, c0 as usize))
        } else {
            e
        };
        rm_targets(e2, a, b, c0 + 1, n)
    }
}

/// The middle level of the reduction pass, for fixed `a`: walk `b` upward
/// from `b0`; whenever the edge `a -> b` is present in the current edge
/// set, run the innermost step over every `c`.
pub open spec fn reduce_over_b(
    e: Map<(usize, usize), bool>,
    a: usize,
    b0: int,
    n: int,
) -> Map<(usize, usize), bool>
    decreases n - b0,
{
    if b0 >= n {
        e
    } else {
        let e2 = if e.dom().contains((a, b0 as usize)) {
            rm_targets(e, a, b0 as usize, 0, n)
        } else {
            e
        };
        reduce_over_b(e2, a, b0 + 1, n)
    }
}

/// The outer level of the reduction pass: walk `a` upward from `a0`.
pub open spec fn reduce_over_a(e: Map<(usize, usize), bool>, a0: int, n: int) -> Map<
    (usize, usize),
    bool,
>
    decreases n - a0,
{
    if a0 >= n {
        e
    } else {
        reduce_over_a(reduce_over_b(e, a0 as usize, 0, n), a0 + 1, n)
    }
}

/// The single reduction pass over a graph with nodes `0 .. n`: first every
/// self-loop is removed, then one pass over all ordered node triples
/// `(a, b, c)` in ascending order removes `a -> c` whenever `a -> b` and
/// `b -> c` are both present at that moment. Removals made earlier in the
/// pass are visible to later triples; the pass is not iterated to a fixed
/// point.
pub open spec fn reduce_spec(e: Map<(usize, usize), bool>, n: int) -> Map<(usize, usize), bool> {
    reduce_over_a(strip_loops(e), 0, n)
}

impl DepGraph {
    /// Removes self-loops, then performs the single two-hop reduction
    /// pass: for every ordered triple `(a, b, c)` of nodes in ascending
    /// index order, if the edges `a -> b` and `b -> c` are present in the
    /// current edge set, the edge `a -> c` is removed. The surviving edges
    /// keep their `mandatory` flags; no edge is ever added.
    pub fn reduce(&mut self)
        requires
            old(self).wf(),
        ensures
            final(self).wf(),
            final(self).names_spec() == old(self).names_spec(),
            final(self).edges_spec() == reduce_spec(
                old(self).edges_spec(),
                old(self).names_spec().len() as int,
            ),
            forall|v: usize| !final(self).edges_spec().dom().contains((v, v)),
            forall|k: (usize, usize)|
                final(self).edges_spec().dom().contains(k) ==> old(self).edges_spec().dom().contains(
                    k,
                ) && final(self).edges_spec()[k] == old(self).edges_spec()[k],
    {
        let n = self.names.len();
        let ghost names_init = self.names;
        let ghost nodes_init = graph_nodes(self.g);
        let ghost e0 = graph_edges(self.g);
        proof {
            assert(graph_edges(self.g) =~= strip_below(e0, 0));
        }
        let mut i: usize = 0;
        while i < n
            invariant
                i <= n,
                n == self.names@.len(),
                self.names == names_init,
                graph_nodes(self.g) == nodes_init,
                graph_edges(self.g) == strip_below(e0, i as int),
                e0.dom().finite(),
                forall|e: (usize, usize)| e0.dom().contains(e) ==> e.0 < n && e.1 < n,
            decreases n - i,
        {
            gm_remove_edge(&mut self.g, i, i);
            proof {
                assert(graph_edges(self.g) =~= strip_below(e0, i as int + 1));
            }
            i = i + 1;
        }
        proof {
            assert(graph_edges(self.g) =~= strip_loops(e0));
            assert(strip_loops(e0).dom() =~= e0.dom().difference(
                Set::new(|k: (usize, usize)| k.0 == k.1),
            ));
            assert(e0.dom().difference(Set::new(|k: (usize, usize)| k.0 == k.1)).finite());
        }
        let ghost es = graph_edges(self.g);
        let mut a: usize = 0;
        while a < n
            invariant
                a <= n,
                n == self.names@.len(),
                self.names == names_init,
                graph_nodes(self.g) == nodes_init,
                reduce_over_a(graph_edges(self.g), a as int, n as int) == reduce_over_a(
                    es,
                    0,
                    n as int,
                ),
                graph_edges(self.g).dom().finite(),
                forall|v: usize| !graph_edges(self.g).dom().contains((v, v)),
                forall|k: (usize, usize)| #[trigger]
                    graph_edges(self.g).dom().contains(k) ==> e0.dom().contains(k) && graph_edges(
                        self.g,
                    )[k] == e0[k],
                forall|e: (usize, usize)| e0.dom().contains(e) ==> e.0 < n && e.1 < n,
            decreases n - a,
        {
            let ghost ea = graph_edges(self.g);
            let mut b: usize = 0;
            while b < n
                invariant
                    b <= n,
                    a < n,
                    n == self.names@.len(),
                    self.names == names_init,
                    graph_nodes(self.g) == nodes_init,
                    reduce_over_b(graph_edges(self.g), a, b as int, n as int) == reduce_over_b(
                        ea,
                        a,
                        0,
                        n as int,
                    ),
                    graph_edges(self.g).dom().finite(),
                    forall|v: usize| !graph_edges(self.g).dom().contains((v, v)),
                    forall|k: (usize, usize)| #[trigger]
                        graph_edges(self.g).dom().contains(k) ==> e0.dom().contains(k)
                            && graph_edges(self.g)[k] == e0[k],
                    forall|e: (usize, usize)| e0.dom().contains(e) ==> e.0 < n && e.1 < n,
                decreases n - b,
            {
                if gm_contains_edge(&self.g, a, b) {
                    let ghost eb = graph_edges(self.g);
                    let mut c: usize = 0;
                    while c < n
                        invariant
                            c <= n,
                            n == self.names@.len(),
                            self.names == names_init,
                            graph_nodes(self.g) == nodes_init,
                            rm_targets(graph_edges(self.g), a, b, c as int, n as int) == rm_targets(
                                eb,
                                a,
                                b,
                                0,
                                n as int,
                            ),
                            graph_edges(self.g).dom().finite(),
                            forall|v: usize| !graph_edges(self.g).dom().contains((v, v)),
                            forall|k: (usize, usize)| #[trigger]
                                graph_edges(self.g).dom().contains(k) ==> e0.dom().contains(k)
                                    && graph_edges(self.g)[k] == e0[k],
                            forall|e: (usize, usize)| e0.dom().contains(e) ==> e.0 < n && e.1 < n,
                        decreases n - c,
                    {
                        if gm_contains_edge(&self.g, b, c) {
                            gm_remove_edge(&mut self.g, a, c);
                        }
                        c = c + 1;
                    }
                }
                b = b + 1;
            }
            a = a + 1;
        }
        proof {
            assert(graph_edges(self.g) == reduce_spec(e0, n as int));
        }
    }
}


/// Law: an empty scan yields an empty world: no load outcomes means no
/// inventory records, and no records mean a graph with no names and no
/// edges.
pub proof fn lemma_empty_scan()
    ensures
        crate::record::inventory_spec(Seq::empty()) == Seq::<RecordModel>::empty(),
        build_spec(Seq::empty()).names == Seq::<Seq<char>>::empty(),
        build_spec(Seq::empty()).edges == Map::<(usize, usize), bool>::empty(),
{
}

/// `push_name` keeps every identifier already present.
proof fn lemma_push_name_keeps(names: Seq<Seq<char>>, s: Seq<char>, x: Seq<char>)
    requires
        names.contains(x),
    ensures
        push_name(names, s).contains(x),
{
    let w = choose|i: int| 0 <= i < names.len() && names[i] == x;
    assert(push_name(names, s)[w] == x);
}

/// The node pass only ever extends the name table.
proof fn lemma_add_names_mono(names: Seq<Seq<char>>, recs: Seq<RecordModel>, x: Seq<char>)
    requires
        names.contains(x),
    ensures
        add_names(names, recs).contains(x),
    decreases recs.len(),
{
    if recs.len() > 0 {
        if recs[0].mod_id.len() == 0 {
            lemma_add_names_mono(names, recs.drop_first(), x);
        } else {
            lemma_push_name_keeps(names, recs[0].mod_id, x);
            lemma_add_names_mono(push_name(names, recs[0].mod_id), recs.drop_first(), x);
        }
    }
}

/// The edge pass of one dependency list only ever extends the name table.
proof fn lemma_add_deps_mono(st: BuildState, src: Seq<char>, deps: Seq<DepModel>, x: Seq<char>)
    requires
        st.names.contains(x),
    ensures
        add_deps(st, src, deps).names.contains(x),
    decreases deps.len(),
{
    if deps.len() > 0 {
        let st2 = dep_step(st, src, deps[0].target, deps[0].mandatory);
        if !is_platform(deps[0].target) {
            lemma_push_name_keeps(st.names, src, x);
            lemma_push_name_keeps(push_name(st.names, src), deps[0].target, x);
        }
        lemma_add_deps_mono(st2, src, deps.drop_first(), x);
    }
}

/// The whole edge pass only ever extends the name table.
proof fn lemma_add_edges_mono(st: BuildState, recs: Seq<RecordModel>, x: Seq<char>)
    requires
        st.names.contains(x),
    ensures
        add_edges(st, recs).names.contains(x),
    decreases recs.len(),
{
    if recs.len() > 0 {
        lemma_add_deps_mono(st, recs[0].mod_id, recs[0].deps, x);
        lemma_add_edges_mono(add_deps(st, recs[0].mod_id, recs[0].deps), recs.drop_first(), x);
    }
}

/// The node pass picks up every non-empty declared identifier.
proof fn lemma_add_names_contains(names: Seq<Seq<char>>, recs: Seq<RecordModel>, i: int)
    requires
        0 <= i < recs.len(),
        recs[i].mod_id.len() > 0,
    ensures
        add_names(names, recs).contains(recs[i].mod_id),
    decreases recs.len(),
{
    if i == 0 {
        let n2 = push_name(names, recs[0].mod_id);
        assert(n2.contains(recs[0].mod_id)) by {
            if names.contains(recs[0].mod_id) {
            } else {
                assert(n2[names.len() as int] == recs[0].mod_id);
            }
        }
        lemma_add_names_mono(n2, recs.drop_first(), recs[0].mod_id);
    } else {
        assert(recs.drop_first()[i - 1] == recs[i]);
        lemma_add_names_contains(
            if recs[0].mod_id.len() == 0 {
                names
            } else {
                push_name(names, recs[0].mod_id)
            },
            recs.drop_first(),
            i - 1,
        );
    }
}

/// Law: every non-empty declared mod identifier is a node of the built
/// graph. Together with well-formedness of the built graph, which says
/// the name table holds no identifier twice, an identifier declared by
/// several records has exactly one node.
pub proof fn lemma_node_for_each_mod(recs: Seq<RecordModel>, i: int)
    requires
        0 <= i < recs.len(),
        recs[i].mod_id.len() > 0,
    ensures
        build_spec(recs).names.contains(recs[i].mod_id),
{
    lemma_add_names_contains(Seq::empty(), recs, i);
    lemma_add_edges_mono(
        BuildState { names: add_names(Seq::empty(), recs), edges: Map::empty() },
        recs,
        recs[i].mod_id,
    );
}

/// One edge map lies inside another, with the same flags.
pub open spec fn edge_subset(e: Map<(usize, usize), bool>, big: Map<(usize, usize), bool>) -> bool {
    forall|k: (usize, usize)| #[trigger]
        e.dom().contains(k) ==> big.dom().contains(k) && e[k] == big[k]
}

/// No two-hop path joins `u` to `v` in `e`.
pub open spec fn no_two_hop(e: Map<(usize, usize), bool>, u: usize, v: usize) -> bool {
    forall|x: usize| !(e.dom().contains((u, x)) && #[trigger] e.dom().contains((x, v)))
}

/// The innermost reduction step only removes edges.
proof fn lemma_rm_targets_sub(e: Map<(usize, usize), bool>, a: usize, b: usize, c0: int, n: int)
    ensures
        edge_subset(rm_targets(e, a, b, c0, n), e),
    decreases n - c0,
{
    if c0 < n {
        let e2 = if e.dom().contains((b, c0 as usize)) {
            e.remove((a, c0 as usize))
        } else {
            e
        };
        lemma_rm_targets_sub(e2, a, b, c0 + 1, n);
    }
}

/// The middle reduction level only removes edges.
proof fn lemma_over_b_sub(e: Map<(usize, usize), bool>, a: usize, b0: int, n: int)
    ensures
        edge_subset(reduce_over_b(e, a, b0, n), e),
    decreases n - b0,
{
    if b0 < n {
        let e2 = if e.dom().contains((a, b0 as usize)) {
            rm_targets(e, a, b0 as usize, 0, n)
        } else {
            e
        };
        lemma_rm_targets_sub(e, a, b0 as usize, 0, n);
        lemma_over_b_sub(e2, a, b0 + 1, n);
    }
}

/// The outer reduction level only removes edges.
proof fn lemma_over_a_sub(e: Map<(usize, usize), bool>, a0: int, n: int)
    ensures
        edge_subset(reduce_over_a(e, a0, n), e),
    decreases n - a0,
{
    if a0 < n {
        lemma_over_b_sub(e, a0 as usize, 0, n);
        lemma_over_a_sub(reduce_over_b(e, a0 as usize, 0, n), a0 + 1, n);
    }
}

/// An edge with no two-hop witness in `big` survives the innermost step.
proof fn lemma_rm_keeps(
    e: Map<(usize, usize), bool>,
    big: Map<(usize, usize), bool>,
    a: usize,
    b: usize,
    c0: int,
    n: int,
    u: usize,
    v: usize,
)
    requires
        edge_subset(e, big),
        big.dom().contains((a, b)),
        e.dom().contains((u, v)),
        no_two_hop(big, u, v),
    ensures
        rm_targets(e, a, b, c0, n).dom().contains((u, v)),
    decreases n - c0,
{
    if c0 >= n {
    } else {
        let cu = c0 as usize;
        let e2 = if e.dom().contains((b, cu)) {
            e.remove((a, cu))
        } else {
            e
        };
        if e.dom().contains((b, cu)) && u == a && v == cu {
            assert(big.dom().contains((u, b)));
            assert(big.dom().contains((b, v)));
            assert(false);
        }
        lemma_rm_keeps(e2, big, a, b, c0 + 1, n, u, v);
    }
}

/// An edge with no two-hop witness in `big` survives the middle level.
proof fn lemma_b_keeps(
    e: Map<(usize, usize), bool>,
    big: Map<(usize, usize), bool>,
    a: usize,
    b0: int,
    n: int,
    u: usize,
    v: usize,
)
    requires
        edge_subset(e, big),
        e.dom().contains((u, v)),
        no_two_hop(big, u, v),
    ensures
        reduce_over_b(e, a, b0, n).dom().contains((u, v)),
    decreases n - b0,
{
    if b0 >= n {
    } else {
        let bu = b0 as usize;
        let e2 = if e.dom().contains((a, bu)) {
            rm_targets(e, a, bu, 0, n)
        } else {
            e
        };
        if e.dom().contains((a, bu)) {
            lemma_rm_keeps(e, big, a, bu, 0, n, u, v);
            lemma_rm_targets_sub(e, a, bu, 0, n);
        }
        lemma_b_keeps(e2, big, a, b0 + 1, n, u, v);
    }
}

/// An edge with no two-hop witness in `big` survives the whole pass.
proof fn lemma_a_keeps(
    e: Map<(usize, usize), bool>,
    big: Map<(usize, usize), bool>,
    a0: int,
    n: int,
    u: usize,
    v: usize,
)
    requires
        edge_subset(e, big),
        e.dom().contains((u, v)),
        no_two_hop(big, u, v),
    ensures
        reduce_over_a(e, a0, n).dom().contains((u, v)),
    decreases n - a0,
{
    if a0 >= n {
    } else {
        let au = a0 as usize;
        let e2 = reduce_over_b(e, au, 0, n);
        lemma_b_keeps(e, big, au, 0, n, u, v);
        lemma_over_b_sub(e, au, 0, n);
        lemma_a_keeps(e2, big, a0 + 1, n, u, v);
    }
}

/// Once the inner walk reaches `c` with `b -> c` present, `a -> c` is
/// gone from its result.
proof fn lemma_rm_removes(e: Map<(usize, usize), bool>, a: usize, b: usize, c0: int, n: int, c: usize)
    requires
        a != b,
        e.dom().contains((b, c)),
        c0 <= c as int,
        (c as int) < n,
    ensures
        (!rm_targets(e, a, b, c0, n).dom().contains((a, c))),
    decreases n - c0,
{
    let cu = c0 as usize;
    let e2 = if e.dom().contains((b, cu)) {
        e.remove((a, cu))
    } else {
        e
    };
    if c0 == c as int {
        assert(!e2.dom().contains((a, c)));
        lemma_rm_targets_sub(e2, a, b, c0 + 1, n);
    } else {
        assert(e2.dom().contains((b, c)));
        lemma_rm_removes(e2, a, b, c0 + 1, n, c);
    }
}

/// Once the middle walk reaches `b` with `a -> b` and `b -> c` present,
/// `a -> c` is gone from its result.
proof fn lemma_b_removes(
    e: Map<(usize, usize), bool>,
    big: Map<(usize, usize), bool>,
    a: usize,
    b0: int,
    n: int,
    b: usize,
    c: usize,
)
    requires
        a != b,
        edge_subset(e, big),
        no_two_hop(big, a, b),
        no_two_hop(big, b, c),
        e.dom().contains((a, b)),
        e.dom().contains((b, c)),
        b0 <= b as int,
        (b as int) < n,
        0 <= c as int,
        (c as int) < n,
    ensures
        (!reduce_over_b(e, a, b0, n).dom().contains((a, c))),
    decreases n - b0,
{
    let bu = b0 as usize;
    let e2 = if e.dom().contains((a, bu)) {
        rm_targets(e, a, bu, 0, n)
    } else {
        e
    };
    if b0 == b as int {
        lemma_rm_removes(e, a, b, 0, n, c);
        lemma_rm_targets_sub(e, a, b, 0, n);
        lemma_over_b_sub(e2, a, b0 + 1, n);
        assert(!e2.dom().contains((a, c)));
    } else {
        if e.dom().contains((a, bu)) {
            lemma_rm_keeps(e, big, a, bu, 0, n, a, b);
            lemma_rm_keeps(e, big, a, bu, 0, n, b, c);
            lemma_rm_targets_sub(e, a, bu, 0, n);
        }
        lemma_b_removes(e2, big, a, b0 + 1, n, b, c);
    }
}

/// Once the outer walk reaches `a` with `a -> b` and `b -> c` present,
/// `a -> c` is gone from the pass's result.
proof fn lemma_a_removes(
    e: Map<(usize, usize), bool>,
    big: Map<(usize, usize), bool>,
    a0: int,
    n: int,
    a: usize,
    b: usize,
    c: usize,
)
    requires
        a != b,
        edge_subset(e, big),
        no_two_hop(big, a, b),
        no_two_hop(big, b, c),
        e.dom().contains((a, b)),
        e.dom().contains((b, c)),
        a0 <= a as int,
        (a as int) < n,
        0 <= b as int,
        (b as int) < n,
        0 <= c as int,
        (c as int) < n,
    ensures
        (!reduce_over_a(e, a0, n).dom().contains((a, c))),
    decreases n - a0,
{
    let au = a0 as usize;
    let e2 = reduce_over_b(e, au, 0, n);
    if a0 == a as int {
        lemma_b_removes(e, big, a, 0, n, b, c);
        lemma_over_b_sub(e, au, 0, n);
        lemma_over_a_sub(e2, a0 + 1, n);
        assert(!e2.dom().contains((a, c)));
    } else {
        lemma_b_keeps(e, big, au, 0, n, a, b);
        lemma_b_keeps(e, big, au, 0, n, b, c);
        lemma_over_b_sub(e, au, 0, n);
        lemma_a_removes(e2, big, a0 + 1, n, a, b, c);
    }
}

/// Law: when the edge set holds exactly `a -> b`, `b -> c` and `a -> c`
/// over three distinct nodes, one reduction pass removes the two-hop
/// shortcut `a -> c` and keeps `a -> b` and `b -> c`, with their flags.
pub proof fn lemma_two_hop_reduction(
    e: Map<(usize, usize), bool>,
    n: int,
    a: usize,
    b: usize,
    c: usize,
    x: bool,
    y: bool,
    z: bool,
)
    requires
        a != b,
        b != c,
        a != c,
        (a as int) < n,
        (b as int) < n,
        (c as int) < n,
        e == Map::<(usize, usize), bool>::empty().insert((a, b), x).insert((b, c), y).insert(
            (a, c),
            z,
        ),
    ensures
        reduce_spec(e, n) == Map::<(usize, usize), bool>::empty().insert((a, b), x).insert(
            (b, c),
            y,
        ),
{
    let e0 = strip_loops(e);
    assert(e0 =~= e);
    assert(no_two_hop(e0, a, b)) by {
        assert forall|w: usize|
            !(e0.dom().contains((a, w)) && #[trigger] e0.dom().contains((w, b))) by {
            if e0.dom().contains((a, w)) {
                assert(w == b || w == c);
                assert(!e0.dom().contains((b, b)));
                assert(!e0.dom().contains((c, b)));
            }
        }
    }
    assert(no_two_hop(e0, b, c)) by {
        assert forall|w: usize|
            !(e0.dom().contains((b, w)) && #[trigger] e0.dom().contains((w, c))) by {
            if e0.dom().contains((b, w)) {
                assert(w == c);
                assert(!e0.dom().contains((c, c)));
            }
        }
    }
    let r = reduce_spec(e, n);
    lemma_a_keeps(e0, e0, 0, n, a, b);
    lemma_a_keeps(e0, e0, 0, n, b, c);
    lemma_a_removes(e0, e0, 0, n, a, b, c);
    lemma_over_a_sub(e0, 0, n);
    assert(r =~= Map::<(usize, usize), bool>::empty().insert((a, b), x).insert((b, c), y)) by {
        assert forall|k: (usize, usize)| #[trigger] r.dom().contains(k) implies (k == (a, b) || k
            == (b, c)) by {
            assert(e0.dom().contains(k));
            assert(k != (a, c));
        }
        assert(r.dom().contains((a, b)));
        assert(r.dom().contains((b, c)));
        assert(r[(a, b)] == e0[(a, b)]);
        assert(r[(b, c)] == e0[(b, c)]);
    }
}


/// `v` can be reached from `u` along edges of `e` by a path of at most
/// `fuel + 1` edges.
pub open spec fn reaches(e: Map<(usize, usize), bool>, u: usize, v: usize, fuel: nat) -> bool
    decreases fuel,
{
    if e.dom().contains((u, v)) {
        true
    } else if fuel == 0 {
        false
    } else {
        exists|w: usize| #[trigger]
            e.dom().contains((u, w)) && reaches(e, w, v, (fuel - 1) as nat)
    }
}

/// `v` can be reached from `u` along edges of `e`.
pub open spec fn reachable(e: Map<(usize, usize), bool>, u: usize, v: usize) -> bool {
    exists|fuel: nat| reaches(e, u, v, fuel)
}

/// `e` holds no self-loop.
pub open spec fn no_self_edges(e: Map<(usize, usize), bool>) -> bool {
    forall|w: usize| !e.dom().contains((w, w))
}

/// More fuel never hurts.
proof fn lemma_reaches_mono(e: Map<(usize, usize), bool>, u: usize, v: usize, f1: nat, f2: nat)
    requires
        reaches(e, u, v, f1),
        f1 <= f2,
    ensures
        reaches(e, u, v, f2),
    decreases f1,
{
    if !e.dom().contains((u, v)) {
        let w = choose|w: usize| #[trigger]
            e.dom().contains((u, w)) && reaches(e, w, v, (f1 - 1) as nat);
        lemma_reaches_mono(e, w, v, (f1 - 1) as nat, (f2 - 1) as nat);
    }
}

/// Removing the edge `a -> c` keeps every pair reachable, provided the
/// two-hop replacement `a -> b`, `b -> c` stays behind.
proof fn lemma_remove_preserves_reach(
    e: Map<(usize, usize), bool>,
    a: usize,
    b: usize,
    c: usize,
    u: usize,
    v: usize,
    fuel: nat,
)
    requires
        e.dom().contains((a, b)),
        e.dom().contains((b, c)),
        a != b,
        b != c,
        reaches(e, u, v, fuel),
    ensures
        reaches(e.remove((a, c)), u, v, 2 * fuel + 1),
    decreases fuel,
{
    let e2 = e.remove((a, c));
    assert(e2.dom().contains((a, b)));
    assert(e2.dom().contains((b, c)));
    if e.dom().contains((u, v)) {
        if u == a && v == c {
            assert(reaches(e2, b, v, 0));
            assert(reaches(e2, u, v, 1)) by {
                assert(e2.dom().contains((u, b)) && reaches(e2, b, v, 0));
            }
            lemma_reaches_mono(e2, u, v, 1, 2 * fuel + 1);
        } else {
            assert(e2.dom().contains((u, v)));
        }
    } else {
        let w = choose|w: usize| #[trigger]
            e.dom().contains((u, w)) && reaches(e, w, v, (fuel - 1) as nat);
        lemma_remove_preserves_reach(e, a, b, c, w, v, (fuel - 1) as nat);
        assert(reaches(e2, w, v, (2 * (fuel - 1) + 1) as nat));
        if u == a && w == c {
            assert(reaches(e2, b, v, 2 * fuel)) by {
                assert(e2.dom().contains((b, w)) && reaches(e2, w, v, (2 * fuel - 1) as nat)) by {
                    lemma_reaches_mono(e2, w, v, (2 * (fuel - 1) + 1) as nat, (2 * fuel - 1) as nat);
                }
            }
            assert(reaches(e2, u, v, 2 * fuel + 1)) by {
                assert(e2.dom().contains((u, b)) && reaches(e2, b, v, 2 * fuel));
            }
        } else {
            assert(e2.dom().contains((u, w)));
            assert(reaches(e2, u, v, 2 * fuel + 1)) by {
                assert(e2.dom().contains((u, w)) && reaches(e2, w, v, 2 * fuel)) by {
                    lemma_reaches_mono(e2, w, v, (2 * (fuel - 1) + 1) as nat, 2 * fuel);
                }
            }
        }
    }
}

/// Every pair reachable in `e1` is reachable in `e2`.
pub open spec fn closure_preserved(
    e1: Map<(usize, usize), bool>,
    e2: Map<(usize, usize), bool>,
) -> bool {
    forall|u: usize, v: usize| #[trigger] reachable(e1, u, v) ==> reachable(e2, u, v)
}

/// The innermost reduction walk keeps the edge `a -> b`, keeps the edge
/// set free of self-loops, and keeps every reachable pair reachable.
proof fn lemma_rm_preserves_closure(e: Map<(usize, usize), bool>, a: usize, b: usize, c0: int, n: int)
    requires
        no_self_edges(e),
        e.dom().contains((a, b)),
    ensures
        no_self_edges(rm_targets(e, a, b, c0, n)),
        rm_targets(e, a, b, c0, n).dom().contains((a, b)),
        closure_preserved(e, rm_targets(e, a, b, c0, n)),
    decreases n - c0,
{
    if c0 >= n {
    } else {
        let cu = c0 as usize;
        if e.dom().contains((b, cu)) {
            let e2 = e.remove((a, cu));
            assert(a != b);
            assert(b != cu);
            assert(e2.dom().contains((a, b)));
            lemma_rm_preserves_closure(e2, a, b, c0 + 1, n);
            assert forall|u: usize, v: usize| #[trigger] reachable(e, u, v) implies reachable(
                e2,
                u,
                v,
            ) by {
                let fuel = choose|fuel: nat| reaches(e, u, v, fuel);
                lemma_remove_preserves_reach(e, a, b, cu, u, v, fuel);
            }
        } else {
            lemma_rm_preserves_closure(e, a, b, c0 + 1, n);
        }
    }
}

/// The middle reduction level keeps the edge set free of self-loops and
/// keeps every reachable pair reachable.
proof fn lemma_b_preserves_closure(e: Map<(usize, usize), bool>, a: usize, b0: int, n: int)
    requires
        no_self_edges(e),
    ensures
        no_self_edges(reduce_over_b(e, a, b0, n)),
        closure_preserved(e, reduce_over_b(e, a, b0, n)),
    decreases n - b0,
{
    if b0 >= n {
    } else {
        let bu = b0 as usize;
        let e2 = if e.dom().contains((a, bu)) {
            rm_targets(e, a, bu, 0, n)
        } else {
            e
        };
        if e.dom().contains((a, bu)) {
            lemma_rm_preserves_closure(e, a, bu, 0, n);
        }
        lemma_b_preserves_closure(e2, a, b0 + 1, n);
    }
}

/// The whole pass keeps the edge set free of self-loops and keeps every
/// reachable pair reachable.
proof fn lemma_a_preserves_closure(e: Map<(usize, usize), bool>, a0: int, n: int)
    requires
        no_self_edges(e),
    ensures
        no_self_edges(reduce_over_a(e, a0, n)),
        closure_preserved(e, reduce_over_a(e, a0, n)),
    decreases n - a0,
{
    if a0 >= n {
    } else {
        let au = a0 as usize;
        lemma_b_preserves_closure(e, au, 0, n);
        lemma_a_preserves_closure(reduce_over_b(e, au, 0, n), a0 + 1, n);
    }
}

/// Law: the reduction pass preserves reachability. Every ordered pair
/// joined by a path once the self-loops are gone is still joined by a
/// path after the pass: the pass removes an edge only when a two-hop
/// replacement is present at that moment.
pub proof fn lemma_reduction_preserves_reachability(
    e: Map<(usize, usize), bool>,
    n: int,
    u: usize,
    v: usize,
)
    requires
        reachable(strip_loops(e), u, v),
    ensures
        reachable(reduce_spec(e, n), u, v),
{
    assert(no_self_edges(strip_loops(e)));
    lemma_a_preserves_closure(strip_loops(e), 0, n);
}

} // verus!
