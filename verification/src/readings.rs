//! The search for readings of a composition with distinct text. Which step
//! is taken next is decided by the caller, by the cost of the steps; this
//! module decides, for each step taken, whether it reaches a state not yet
//! settled, whether it finishes a reading, and which steps follow from it.
use vstd::prelude::*;
use vstd::string::StringExecFns;

use crate::conversion::{
    glued, interval_texts, lemma_filter_take_step, lemma_glue_keeps_text, Composition,
};
use crate::engine::{
    candidate_text, edge_fits, edge_interval, edges_from, hops_ordered, path_to, reconstruct,
    CandidateView, Edge, Hop, NO_PARENT,
};
use crate::text::{str_eq, string_view};

verus! {

/// The text of a path: the texts of its edges one after another.
pub open spec fn reading_text(texts: Seq<Seq<char>>, path: Seq<Edge>) -> Seq<char>
    decreases path.len(),
{
    if path.len() == 0 {
        Seq::empty()
    } else {
        reading_text(texts, path.drop_last()) + texts[path.last().sn as int]
    }
}

/// Whether entry `v` of the graph holds edges that leave node `v` for a
/// later node no further than `len`, each with a text.
pub open spec fn graph_wf(graph: Seq<Seq<Edge>>, len: nat, n_texts: nat) -> bool {
    &&& graph.len() == len
    &&& forall|v: int, j: int|
        0 <= v < len && 0 <= j < graph[v].len() ==> {
            let e = #[trigger] graph[v][j];
            e.start == v && v < e.end <= len && e.sn < n_texts
        }
}

/// Whether `path` leads from node `from` to node `to` along edges of
/// `graph`.
pub open spec fn is_graph_path(graph: Seq<Seq<Edge>>, path: Seq<Edge>, from: int, to: int) -> bool {
    &&& path.len() == 0 ==> from == to
    &&& path.len() > 0 ==> path[0].start == from && path.last().end == to
    &&& forall|i: int| 0 <= i < path.len() - 1 ==> (#[trigger] path[i]).end == path[i + 1].start
    &&& forall|i: int|
        0 <= i < path.len() ==> (#[trigger] path[i]).start < graph.len() && graph[path[i].start as int].contains(
            path[i],
        )
}

/// Whether the state of being at `node` having read `text` is settled.
pub open spec fn is_settled(closed: Seq<(usize, Seq<char>)>, node: usize, text: Seq<char>) -> bool {
    closed.contains((node, text))
}

/// What taking a step did.
#[derive(Debug, Clone, Copy, PartialEq, Eq, Structural)]
pub enum Visit {
    /// The step reaches a settled state: nothing changed.
    Skip,
    /// The step finished a new reading.
    Found,
    /// The step finished the last reading asked for, or all of them were
    /// found already.
    Done,
    /// The step settled its state; the steps from the one numbered here on
    /// follow from it.
    Expanded(usize),
}

/// Whether every step but the first comes from an earlier one, reaches a
/// node no further than `len` along a path of the graph from node `0`, and
/// has read the text of that path.
pub open spec fn hops_consistent(
    g: Seq<Seq<Edge>>,
    t: Seq<Seq<char>>,
    h: Seq<Hop>,
    s: Seq<Seq<char>>,
    len: usize,
) -> bool {
    &&& h.len() == s.len()
    &&& h.len() >= 1
    &&& h[0] == root_hop()
    &&& forall|i: int| 0 < i < h.len() ==> (#[trigger] h[i]).parent < i
    &&& forall|i: int|
        0 <= i < h.len() ==> (#[trigger] h[i]).node <= len && s[i] == reading_text(t, path_to(h, i))
            && is_graph_path(g, path_to(h, i), 0, h[i].node as int)
}

/// Whether every reading leads from node `0` to node `len` along the graph,
/// has its end state settled, reads a text no other reading reads, and there
/// are at most `k` of them when `k` is not `0`.
pub open spec fn readings_consistent(
    g: Seq<Seq<Edge>>,
    t: Seq<Seq<char>>,
    r: Seq<Seq<Edge>>,
    closed: Seq<(usize, Seq<char>)>,
    len: usize,
    k: usize,
) -> bool {
    &&& forall|m: int|
        0 <= m < r.len() ==> is_graph_path(g, #[trigger] r[m], 0, len as int) && is_settled(
            closed,
            len,
            reading_text(t, r[m]),
        )
    &&& forall|m1: int, m2: int|
        0 <= m1 < m2 < r.len() ==> reading_text(t, #[trigger] r[m1]) != reading_text(
            t,
            #[trigger] r[m2],
        )
    &&& k > 0 ==> r.len() <= k
}

/// The path to a step depends on the steps up to it alone.
proof fn lemma_path_to_frame(a: Seq<Hop>, b: Seq<Hop>, i: int)
    requires
        0 <= i < a.len(),
        i < b.len(),
        forall|j: int| 0 <= j <= i ==> a[j] == b[j],
    ensures
        path_to(a, i) == path_to(b, i),
    decreases i,
{
    if a[i].parent != NO_PARENT && a[i].parent < i {
        lemma_path_to_frame(a, b, a[i].parent as int);
    }
}

/// A path of the graph followed by an edge of the graph that leaves its
/// last node is a path of the graph.
proof fn lemma_graph_path_push(g: Seq<Seq<Edge>>, p: Seq<Edge>, e: Edge, from: int, to: int)
    requires
        is_graph_path(g, p, from, to),
        e.start == to,
        0 <= to < g.len(),
        g[to].contains(e),
    ensures
        is_graph_path(g, p.push(e), from, e.end as int),
{
    let q = p.push(e);
    assert forall|i: int| 0 <= i < q.len() - 1 implies (#[trigger] q[i]).end == q[i + 1].start by {
        if i < p.len() - 1 {
            assert(q[i] == p[i] && q[i + 1] == p[i + 1]);
        } else {
            assert(q[i] == p.last() && q[i + 1] == e);
        }
    }
    assert forall|i: int| 0 <= i < q.len() implies (#[trigger] q[i]).start < g.len() && g[q[i].start as int].contains(q[i]) by {
        if i < p.len() {
            assert(q[i] == p[i]);
        }
    }
}

/// Steps added after the last one, each from step `idx` along an edge of the
/// graph that leaves its node and having read its text and the edge's,
/// keep the steps consistent.
proof fn lemma_hops_extended(
    g: Seq<Seq<Edge>>,
    t: Seq<Seq<char>>,
    h0: Seq<Hop>,
    s0: Seq<Seq<char>>,
    h1: Seq<Hop>,
    s1: Seq<Seq<char>>,
    len: usize,
    idx: int,
)
    requires
        graph_wf(g, len as nat, t.len()),
        hops_consistent(g, t, h0, s0, len),
        0 <= idx < h0.len(),
        idx < NO_PARENT,
        h0[idx].node < len,
        h1.len() == s1.len(),
        h1.len() >= h0.len(),
        forall|i: int| 0 <= i < h0.len() ==> h1[i] == h0[i] && s1[i] == s0[i],
        forall|i: int|
            h0.len() <= i < h1.len() ==> (#[trigger] h1[i]).parent == idx && g[h0[idx].node as int].contains(
                Edge { start: h0[idx].node, end: h1[i].node, sn: h1[i].edge_sn },
            ) && s1[i] == s0[idx] + t[h1[i].edge_sn as int],
    ensures
        hops_consistent(g, t, h1, s1, len),
{
    assert forall|i: int| 0 < i < h1.len() implies (#[trigger] h1[i]).parent < i by {
        if i < h0.len() {
            assert(h1[i] == h0[i]);
        }
    }
    assert forall|i: int|
        0 <= i < h1.len() implies (#[trigger] h1[i]).node <= len && s1[i] == reading_text(
            t,
            path_to(h1, i),
        ) && is_graph_path(g, path_to(h1, i), 0, h1[i].node as int) by {
        if i < h0.len() {
            assert(h1[i] == h0[i]);
            lemma_path_to_frame(h1, h0, i);
        } else {
            let node = h0[idx].node;
            let e = Edge { start: node, end: h1[i].node, sn: h1[i].edge_sn };
            assert(h1[idx] == h0[idx]);
            lemma_path_to_frame(h1, h0, idx);
            assert(h1[i].parent == idx && idx < i);
            assert(path_to(h1, i) == path_to(h1, idx).push(e));
            let j = choose|j: int| 0 <= j < g[node as int].len() && g[node as int][j] == e;
            assert(g[node as int][j] == e);
            lemma_graph_path_push(g, path_to(h0, idx), e, 0, node as int);
            assert(path_to(h1, idx).push(e).drop_last() =~= path_to(h1, idx));
        }
    }
}

/// A new reading whose end state was not settled, once that state is
/// settled, keeps the readings consistent.
proof fn lemma_reading_added(
    g: Seq<Seq<Edge>>,
    t: Seq<Seq<char>>,
    r: Seq<Seq<Edge>>,
    closed: Seq<(usize, Seq<char>)>,
    len: usize,
    k: usize,
    p: Seq<Edge>,
)
    requires
        readings_consistent(g, t, r, closed, len, k),
        !is_settled(closed, len, reading_text(t, p)),
        is_graph_path(g, p, 0, len as int),
        k > 0 ==> r.len() < k,
    ensures
        readings_consistent(g, t, r.push(p), closed.push((len, reading_text(t, p))), len, k),
{
    let r1 = r.push(p);
    let c1 = closed.push((len, reading_text(t, p)));
    assert forall|m: int| 0 <= m < r1.len() implies is_graph_path(g, #[trigger] r1[m], 0, len as int)
        && is_settled(c1, len, reading_text(t, r1[m])) by {
        if m < r.len() {
            assert(r1[m] == r[m]);
            assert(closed.contains((len, reading_text(t, r[m]))));
            let j = choose|j: int| 0 <= j < closed.len() && closed[j] == (len, reading_text(t, r[m]));
            assert(c1[j] == closed[j]);
        } else {
            assert(c1[closed.len() as int] == (len, reading_text(t, p)));
        }
    }
    assert forall|m1: int, m2: int| 0 <= m1 < m2 < r1.len() implies reading_text(
        t,
        #[trigger] r1[m1],
    ) != reading_text(t, #[trigger] r1[m2]) by {
        assert(r1[m1] == r[m1]);
        if m2 < r.len() {
            assert(r1[m2] == r[m2]);
        } else {
            assert(is_settled(closed, len, reading_text(t, r[m1])));
        }
    }
}

/// Settling one more state keeps the readings consistent.
proof fn lemma_state_settled(
    g: Seq<Seq<Edge>>,
    t: Seq<Seq<char>>,
    r: Seq<Seq<Edge>>,
    closed: Seq<(usize, Seq<char>)>,
    len: usize,
    k: usize,
    state: (usize, Seq<char>),
)
    requires
        readings_consistent(g, t, r, closed, len, k),
    ensures
        readings_consistent(g, t, r, closed.push(state), len, k),
{
    let c1 = closed.push(state);
    assert forall|m: int| 0 <= m < r.len() implies is_graph_path(g, #[trigger] r[m], 0, len as int)
        && is_settled(c1, len, reading_text(t, r[m])) by {
        assert(closed.contains((len, reading_text(t, r[m]))));
        let j = choose|j: int| 0 <= j < closed.len() && closed[j] == (len, reading_text(t, r[m]));
        assert(c1[j] == closed[j]);
    }
}

fn settled(closed: &Vec<(usize, String)>, node: usize, text: &str) -> (res: bool)
    ensures
        res == is_settled(closed@.map_values(state_view()), node, text@),
{
    let ghost c = closed@.map_values(state_view());
    let mut i: usize = 0;
    while i < closed.len()
        invariant
            c == closed@.map_values(state_view()),
            i <= closed@.len(),
            forall|j: int| 0 <= j < i ==> c[j] != (node, text@),
        decreases closed@.len() - i,
    {
        if closed[i].0 == node && str_eq(closed[i].1.as_str(), text) {
            assert(c[i as int] == (node, text@));
            return true;
        }
        assert(c[i as int] != (node, text@));
        i = i + 1;
    }
    false
}

/// The edges that leave `node` for a state that is not settled, having read
/// `surf` so far.
pub open spec fn open_edges(
    g: Seq<Seq<Edge>>,
    t: Seq<Seq<char>>,
    closed: Seq<(usize, Seq<char>)>,
    node: usize,
    surf: Seq<char>,
) -> Seq<Edge> {
    g[node as int].filter(|e: Edge| !is_settled(closed, e.end, surf + t[e.sn as int]))
}

/// The graph of the edges that `find_edges` gives for a composition is one
/// that a search over the composition can start from.
pub proof fn lemma_found_edges_make_a_search_graph(
    com: Composition,
    edges: Seq<Edge>,
    cands: Seq<CandidateView>,
    graph: Seq<Seq<Edge>>,
)
    requires
        edges.len() == cands.len(),
        forall|k: int|
            0 <= k < edges.len() ==> #[trigger] edges[k].sn == k && edge_fits(com, edges[k], cands[k]),
        graph.len() == com.symbols_spec().len(),
        forall|v: int| 0 <= v < graph.len() ==> #[trigger] graph[v] == edges_from(edges, v),
    ensures
        graph_wf(graph, com.symbols_spec().len(), cands.len()),
{
    assert forall|v: int, j: int|
        0 <= v < com.symbols_spec().len() && 0 <= j < graph[v].len() implies {
        let e = #[trigger] graph[v][j];
        e.start == v && v < e.end <= com.symbols_spec().len() && e.sn < cands.len()
    } by {
        let pred = |e: Edge| e.start == v;
        assert(graph[v] == edges.filter(pred));
        edges.lemma_filter_pred(pred, j);
        assert(edges.filter(pred).contains(graph[v][j]));
        edges.lemma_filter_contains_rev(pred, graph[v][j]);
        let k = choose|k: int| 0 <= k < edges.len() && edges[k] == graph[v][j];
        assert(edges[k].sn == k && edge_fits(com, edges[k], cands[k]));
    }
}

/// The glued intervals of a reading show the text of the reading: the texts
/// of the intervals that `path_intervals` makes of `path`, put together, are
/// the texts of its edges' candidates put together.
pub proof fn lemma_path_intervals_show_reading(
    com: Composition,
    path: Seq<Edge>,
    cands: Seq<CandidateView>,
)
    requires
        forall|i: int| 0 <= i < path.len() ==> (#[trigger] path[i]).sn < cands.len(),
    ensures
        interval_texts(
            glued(com, path.map_values(|e: Edge| edge_interval(e, cands[e.sn as int]))),
        ).flatten() == reading_text(cands.map_values(|c: CandidateView| candidate_text(c)), path),
{
    let ivs = path.map_values(|e: Edge| edge_interval(e, cands[e.sn as int]));
    lemma_glue_keeps_text(com, ivs);
    interval_texts(ivs).lemma_flatten_and_flatten_alt_are_equivalent();
    lemma_edge_texts(path, cands);
}

/// Two readings with different text, the readings a search finds, still
/// show different text once `path_intervals` has glued their intervals.
pub proof fn lemma_distinct_readings_show_distinct_text(
    com: Composition,
    cands: Seq<CandidateView>,
    p1: Seq<Edge>,
    p2: Seq<Edge>,
)
    requires
        forall|i: int| 0 <= i < p1.len() ==> (#[trigger] p1[i]).sn < cands.len(),
        forall|i: int| 0 <= i < p2.len() ==> (#[trigger] p2[i]).sn < cands.len(),
        reading_text(cands.map_values(|c: CandidateView| candidate_text(c)), p1) != reading_text(
            cands.map_values(|c: CandidateView| candidate_text(c)),
            p2,
        ),
    ensures
        interval_texts(glued(com, p1.map_values(|e: Edge| edge_interval(e, cands[e.sn as int]))))
            .flatten() != interval_texts(
            glued(com, p2.map_values(|e: Edge| edge_interval(e, cands[e.sn as int]))),
        ).flatten(),
{
    lemma_path_intervals_show_reading(com, p1, cands);
    lemma_path_intervals_show_reading(com, p2, cands);
}

proof fn lemma_edge_texts(path: Seq<Edge>, cands: Seq<CandidateView>)
    requires
        forall|i: int| 0 <= i < path.len() ==> (#[trigger] path[i]).sn < cands.len(),
    ensures
        interval_texts(path.map_values(|e: Edge| edge_interval(e, cands[e.sn as int]))).flatten_alt()
            == reading_text(cands.map_values(|c: CandidateView| candidate_text(c)), path),
    decreases path.len(),
{
    let t = cands.map_values(|c: CandidateView| candidate_text(c));
    let its = interval_texts(path.map_values(|e: Edge| edge_interval(e, cands[e.sn as int])));
    if path.len() == 0 {
        assert(its =~= Seq::<Seq<char>>::empty());
    } else {
        let q = path.drop_last();
        lemma_edge_texts(q, cands);
        assert(its.drop_last() =~= interval_texts(
            q.map_values(|e: Edge| edge_interval(e, cands[e.sn as int])),
        ));
        assert(its.last() == t[path.last().sn as int]);
    }
}

/// The state of a search for at most `k` readings with distinct text from
/// node `0` to node `len` of an edge graph.
#[derive(Debug)]
pub struct DistinctSearch {
    len: usize,
    k: usize,
    graph: Vec<Vec<Edge>>,
    texts: Vec<String>,
    hops: Vec<Hop>,
    surfaces: Vec<String>,
    closed: Vec<(usize, String)>,
    results: Vec<Vec<Edge>>,
}

/// The view of each list of edges.
pub open spec fn edges_view() -> spec_fn(Vec<Edge>) -> Seq<Edge> {
    |v: Vec<Edge>| v@
}

/// The view of each settled state.
pub open spec fn state_view() -> spec_fn((usize, String)) -> (usize, Seq<char>) {
    |c: (usize, String)| (c.0, c.1@)
}

/// The first step: node `0`, nothing read.
pub open spec fn root_hop() -> Hop {
    Hop { node: 0, parent: NO_PARENT, edge_sn: NO_PARENT }
}

impl DistinctSearch {
    /// The node the readings end at.
    pub closed spec fn len_spec(self) -> usize {
        self.len
    }

    /// The number of readings asked for.
    pub closed spec fn k_spec(self) -> usize {
        self.k
    }

    /// The edges that leave each node.
    pub closed spec fn graph_spec(self) -> Seq<Seq<Edge>> {
        self.graph@.map_values(edges_view())
    }

    /// The text of each edge, by its number.
    pub closed spec fn texts_spec(self) -> Seq<Seq<char>> {
        self.texts@.map_values(string_view())
    }

    /// The steps made so far.
    pub closed spec fn hops_spec(self) -> Seq<Hop> {
        self.hops@
    }

    /// The text read by each step.
    pub closed spec fn surfaces_spec(self) -> Seq<Seq<char>> {
        self.surfaces@.map_values(string_view())
    }

    /// The settled states.
    pub closed spec fn closed_spec(self) -> Seq<(usize, Seq<char>)> {
        self.closed@.map_values(state_view())
    }

    /// The readings found, in the order they were found.
    pub closed spec fn readings_spec(self) -> Seq<Seq<Edge>> {
        self.results@.map_values(edges_view())
    }

    #[verifier::type_invariant]
    spec fn searching(self) -> bool {
        &&& graph_wf(self.graph_spec(), self.len as nat, self.texts_spec().len())
        &&& hops_consistent(
            self.graph_spec(),
            self.texts_spec(),
            self.hops_spec(),
            self.surfaces_spec(),
            self.len,
        )
        &&& readings_consistent(
            self.graph_spec(),
            self.texts_spec(),
            self.readings_spec(),
            self.closed_spec(),
            self.len,
            self.k,
        )
    }

    /// A search over `graph`, whose edge numbered `sn` reads `texts[sn]`,
    /// for at most `k` readings from node `0` to node `len`; it stands at
    /// node `0` having read nothing.
    pub fn new(len: usize, k: usize, graph: Vec<Vec<Edge>>, texts: Vec<String>) -> (res:
        DistinctSearch)
        requires
            graph_wf(graph@.map_values(edges_view()), len as nat, texts@.len()),
        ensures
            res.len_spec() == len,
            res.k_spec() == k,
            res.graph_spec() == graph@.map_values(edges_view()),
            res.texts_spec() == texts@.map_values(string_view()),
            res.hops_spec() == seq![root_hop()],
            res.surfaces_spec() == seq![Seq::<char>::empty()],
            res.closed_spec() == Seq::<(usize, Seq<char>)>::empty(),
            res.readings_spec() == Seq::<Seq<Edge>>::empty(),
    {
        let mut hops: Vec<Hop> = Vec::new();
        hops.push(Hop { node: 0, parent: NO_PARENT, edge_sn: NO_PARENT });
        let mut surfaces: Vec<String> = Vec::new();
        surfaces.push(String::new());
        let closed: Vec<(usize, String)> = Vec::new();
        let results: Vec<Vec<Edge>> = Vec::new();
        let res = DistinctSearch { len, k, graph, texts, hops, surfaces, closed, results };
        assert(res.surfaces_spec() =~= seq![Seq::<char>::empty()]);
        assert(res.closed_spec() =~= Seq::<(usize, Seq<char>)>::empty());
        assert(res.readings_spec() =~= Seq::<Seq<Edge>>::empty());
        assert(path_to(res.hops_spec(), 0) =~= Seq::<Edge>::empty());
        res
    }

    /// The number of steps made so far.
    pub fn step_count(&self) -> (res: usize)
        ensures
            res == self.hops_spec().len(),
    {
        self.hops.len()
    }

    /// The step numbered `i`.
    pub fn hop(&self, i: usize) -> (res: Hop)
        requires
            i < self.hops_spec().len(),
        ensures
            res == self.hops_spec()[i as int],
    {
        self.hops[i]
    }

    /// The readings found, in the order they were found. Each one leads from
    /// node `0` to the last node along edges of the graph, no two read the
    /// same text, and there are at most `k` of them when `k` is not `0`.
    pub fn readings(&self) -> (res: &Vec<Vec<Edge>>)
        ensures
            res@.map_values(edges_view()) == self.readings_spec(),
            forall|m: int|
                0 <= m < res@.len() ==> is_graph_path(
                    self.graph_spec(),
                    #[trigger] res@[m]@,
                    0,
                    self.len_spec() as int,
                ),
            forall|m1: int, m2: int|
                0 <= m1 < m2 < res@.len() ==> reading_text(self.texts_spec(), #[trigger] res@[m1]@)
                    != reading_text(self.texts_spec(), #[trigger] res@[m2]@),
            self.k_spec() > 0 ==> res@.len() <= self.k_spec(),
    {
        proof {
            use_type_invariant(self);
            let r = self.readings_spec();
            assert forall|m: int| 0 <= m < self.results@.len() implies is_graph_path(
                self.graph_spec(),
                #[trigger] self.results@[m]@,
                0,
                self.len as int,
            ) by {
                assert(r[m] == self.results@[m]@);
            }
            assert forall|m1: int, m2: int|
                0 <= m1 < m2 < self.results@.len() implies reading_text(
                self.texts_spec(),
                #[trigger] self.results@[m1]@,
            ) != reading_text(self.texts_spec(), #[trigger] self.results@[m2]@) by {
                assert(r[m1] == self.results@[m1]@);
                assert(r[m2] == self.results@[m2]@);
            }
        }
        &self.results
    }

    /// Takes step `idx`. When `k` readings were found already, it does
    /// nothing and the search is done. When the state of the step, its node
    /// and what it has read, is settled, it does nothing. Otherwise it
    /// settles that state; a step at the last node finishes a reading, the
    /// path to it, and the search is done when that makes `k` readings; a
    /// step at another node is followed by one new step along each edge that
    /// leaves the node for a state not settled.
    pub fn visit(&mut self, idx: usize) -> (res: Visit)
        requires
            idx < old(self).hops_spec().len(),
        ensures
            final(self).len_spec() == old(self).len_spec(),
            final(self).k_spec() == old(self).k_spec(),
            final(self).graph_spec() == old(self).graph_spec(),
            final(self).texts_spec() == old(self).texts_spec(),
            ({
                let node = old(self).hops_spec()[idx as int].node;
                let surf = old(self).surfaces_spec()[idx as int];
                let settled_now = old(self).closed_spec().push((node, surf));
                if old(self).k_spec() > 0 && old(self).readings_spec().len() >= old(self).k_spec() {
                    &&& res == Visit::Done
                    &&& final(self).hops_spec() == old(self).hops_spec()
                    &&& final(self).surfaces_spec() == old(self).surfaces_spec()
                    &&& final(self).closed_spec() == old(self).closed_spec()
                    &&& final(self).readings_spec() == old(self).readings_spec()
                } else if is_settled(old(self).closed_spec(), node, surf) {
                    &&& res == Visit::Skip
                    &&& final(self).hops_spec() == old(self).hops_spec()
                    &&& final(self).surfaces_spec() == old(self).surfaces_spec()
                    &&& final(self).closed_spec() == old(self).closed_spec()
                    &&& final(self).readings_spec() == old(self).readings_spec()
                } else if node == old(self).len_spec() {
                    &&& final(self).hops_spec() == old(self).hops_spec()
                    &&& final(self).surfaces_spec() == old(self).surfaces_spec()
                    &&& final(self).closed_spec() == settled_now
                    &&& final(self).readings_spec() == old(self).readings_spec().push(
                        path_to(old(self).hops_spec(), idx as int),
                    )
                    &&& res == if final(self).readings_spec().len() == old(self).k_spec() {
                        Visit::Done
                    } else {
                        Visit::Found
                    }
                } else {
                    let next = open_edges(
                        old(self).graph_spec(),
                        old(self).texts_spec(),
                        settled_now,
                        node,
                        surf,
                    );
                    &&& final(self).closed_spec() == settled_now
                    &&& final(self).readings_spec() == old(self).readings_spec()
                    &&& final(self).hops_spec() == old(self).hops_spec() + next.map_values(
                        |e: Edge| Hop { node: e.end, parent: idx, edge_sn: e.sn },
                    )
                    &&& final(self).surfaces_spec() == old(self).surfaces_spec() + next.map_values(
                        |e: Edge| surf + old(self).texts_spec()[e.sn as int],
                    )
                    &&& res == Visit::Expanded(old(self).hops_spec().len() as usize)
                }
            }),
    {
        proof {
            use_type_invariant(&*self);
        }
        if self.k > 0 && self.results.len() >= self.k {
            return Visit::Done;
        }
        let node = self.hops[idx].node;
        let surface = self.surfaces[idx].clone();
        assert(surface@ == self.surfaces_spec()[idx as int]);
        if settled(&self.closed, node, surface.as_str()) {
            return Visit::Skip;
        }
        let ghost g = self.graph_spec();
        let ghost t = self.texts_spec();
        let ghost h0 = self.hops_spec();
        let ghost s0 = self.surfaces_spec();
        let ghost c0 = self.closed_spec();
        let ghost r0 = self.readings_spec();
        let ghost surf = surface@;
        let ghost cl1 = c0.push((node, surf));
        let mut taken = DistinctSearch::new(0, 0, Vec::new(), Vec::new());
        std::mem::swap(&mut taken, self);
        proof {
            use_type_invariant(&taken);
        }
        let DistinctSearch { len, k, graph, texts, mut hops, mut surfaces, mut closed, mut results } =
            taken;
        let ghost closed_before = closed@;
        closed.push((node, surface.clone()));
        assert(closed@.map_values(state_view()) =~= cl1) by {
            assert(closed@ == closed_before.push(closed@.last()));
        }
        let res;
        if node == len {
            proof {
                assert(hops_ordered(hops@)) by {
                    assert forall|i: int| 0 <= i < hops@.len() implies #[trigger] hops@[i].parent
                        == NO_PARENT || hops@[i].parent < i by {
                        if i > 0 {
                            assert(h0[i].parent < i);
                        } else {
                            assert(h0[0] == root_hop());
                        }
                    }
                }
                lemma_reading_added(g, t, r0, c0, len, k, path_to(h0, idx as int));
            }
            let path = reconstruct(&hops, idx);
            let ghost before = results@;
            results.push(path);
            assert(results@.map_values(edges_view()) =~= r0.push(path_to(h0, idx as int))) by {
                assert(results@ == before.push(results@.last()));
                assert(before.map_values(edges_view()) == r0);
            }
            res = if results.len() == k {
                Visit::Done
            } else {
                Visit::Found
            };
        } else {
            proof {
                lemma_state_settled(g, t, r0, c0, len, k, (node, surf));
            }
            let first = hops.len();
            let out: &Vec<Edge> = &graph[node];
            assert(out@ == g[node as int]);
            let ghost pred = |e: Edge| !is_settled(cl1, e.end, surf + t[e.sn as int]);
            let ghost mk_hop = |e: Edge| Hop { node: e.end, parent: idx, edge_sn: e.sn };
            let ghost mk_surf = |e: Edge| surf + t[e.sn as int];
            let mut j: usize = 0;
            while j < out.len()
                invariant
                    graph_wf(g, len as nat, t.len()),
                    g == graph@.map_values(edges_view()),
                    t == texts@.map_values(string_view()),
                    node < len,
                    out@ == g[node as int],
                    closed@.map_values(state_view()) == cl1,
                    surface@ == surf,
                    pred == (|e: Edge| !is_settled(cl1, e.end, surf + t[e.sn as int])),
                    mk_hop == (|e: Edge| Hop { node: e.end, parent: idx, edge_sn: e.sn }),
                    mk_surf == (|e: Edge| surf + t[e.sn as int]),
                    j <= out@.len(),
                    first == h0.len(),
                    h0.len() == s0.len(),
                    hops@ == h0 + out@.take(j as int).filter(pred).map_values(mk_hop),
                    surfaces@.map_values(string_view()) == s0 + out@.take(j as int).filter(
                        pred,
                    ).map_values(mk_surf),
                    forall|i: int|
                        h0.len() <= i < hops@.len() ==> (#[trigger] hops@[i]).parent == idx
                            && g[node as int].contains(
                            Edge { start: node, end: hops@[i].node, sn: hops@[i].edge_sn },
                        ) && surfaces@.map_values(string_view())[i] == surf + t[hops@[i].edge_sn as int],
                decreases out@.len() - j,
            {
                let e = out[j];
                assert(g[node as int][j as int] == e);
                let next = surface.clone().concat(texts[e.sn].as_str());
                assert(texts@[e.sn as int]@ == t[e.sn as int]);
                proof {
                    lemma_filter_take_step(out@, j as int, pred);
                }
                assert(next@ == mk_surf(e));
                if !settled(&closed, e.end, next.as_str()) {
                    let ghost hb = hops@;
                    let ghost sb = surfaces@;
                    let ghost nv = next@;
                    let ghost kept = out@.take(j as int).filter(pred);
                    hops.push(Hop { node: e.end, parent: idx, edge_sn: e.sn });
                    surfaces.push(next);
                    assert(kept.push(e).map_values(mk_hop) =~= kept.map_values(mk_hop).push(
                        mk_hop(e),
                    ));
                    assert(kept.push(e).map_values(mk_surf) =~= kept.map_values(mk_surf).push(
                        mk_surf(e),
                    ));
                    assert(hops@ =~= h0 + kept.push(e).map_values(mk_hop));
                    assert(surfaces@.map_values(string_view()) =~= s0 + kept.push(e).map_values(
                        mk_surf,
                    )) by {
                        assert(surfaces@.map_values(string_view()) =~= sb.map_values(string_view()).push(nv));
                    }
                    assert(e.start == node);
                    assert(Edge { start: node, end: e.end, sn: e.sn } == e);
                    assert(g[node as int].contains(e));
                    assert forall|i: int| h0.len() <= i < hops@.len() implies (#[trigger] hops@[i]).parent
                        == idx && g[node as int].contains(
                        Edge { start: node, end: hops@[i].node, sn: hops@[i].edge_sn },
                    ) && surfaces@.map_values(string_view())[i] == surf + t[hops@[i].edge_sn as int] by {
                        if i < hb.len() {
                            assert(hops@[i] == hb[i]);
                            assert(surfaces@[i] == sb[i]);
                        }
                    }
                }
                j = j + 1;
            }
            assert(out@.take(out@.len() as int) =~= out@);
            proof {
                lemma_hops_extended(
                    g,
                    t,
                    h0,
                    s0,
                    hops@,
                    surfaces@.map_values(string_view()),
                    len,
                    idx as int,
                );
            }
            res = Visit::Expanded(first);
        }
        *self = DistinctSearch { len, k, graph, texts, hops, surfaces, closed, results };
        res
    }
}

} // verus!
