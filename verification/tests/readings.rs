use std::cmp::Reverse;
use std::collections::BinaryHeap;

use chewing::engine::{Edge, Hop, NO_PARENT};
use chewing::readings::{DistinctSearch, Visit};

fn edge(start: usize, end: usize, sn: usize) -> Edge {
    Edge { start, end, sn }
}

fn graph_of(len: usize, edges: &[Edge]) -> Vec<Vec<Edge>> {
    (0..len).map(|v| edges.iter().copied().filter(|e| e.start == v).collect()).collect()
}

fn texts_of(texts: &[&str]) -> Vec<String> {
    texts.iter().map(|t| t.to_string()).collect()
}

/// Takes the cheapest step first, as the conversion does, with `cost[sn]` the
/// cost of edge `sn`; costs here are small whole numbers, so their order is
/// exact.
fn best_first(len: usize, edges: &[Edge], cost: &[u64], texts: &[&str], k: usize) -> Vec<Vec<Edge>> {
    let graph = graph_of(len, edges);
    let mut h = vec![u64::MAX; len + 1];
    h[len] = 0;
    for v in (0..len).rev() {
        for e in &graph[v] {
            if h[e.end] != u64::MAX {
                h[v] = h[v].min(cost[e.sn] + h[e.end]);
            }
        }
    }
    let mut search = DistinctSearch::new(len, k, graph, texts_of(texts));
    let mut g = vec![0u64];
    let mut open = BinaryHeap::new();
    open.push(Reverse((h[0], 0usize)));
    while let Some(Reverse((_, idx))) = open.pop() {
        match search.visit(idx) {
            Visit::Skip | Visit::Found => continue,
            Visit::Done => break,
            Visit::Expanded(first) => {
                for child in first..search.step_count() {
                    let hop = search.hop(child);
                    let ng = g[idx] + cost[hop.edge_sn];
                    g.push(ng);
                    open.push(Reverse((ng.saturating_add(h[hop.node]), child)));
                }
            }
        }
    }
    search.readings().clone()
}

#[test]
fn simple_shortest_path() {
    let edges = [edge(0, 1, 0), edge(0, 2, 2), edge(1, 2, 1)];
    let cost = [1, 1, 3];
    assert_eq!(
        vec![vec![edge(0, 1, 0), edge(1, 2, 1)]],
        best_first(2, &edges, &cost, &["測", "試", "測試"], 1)
    );
}

#[test]
fn multi_edge_shortest_path() {
    let edges = [edge(0, 1, 0), edge(0, 1, 3), edge(0, 2, 2), edge(1, 2, 1)];
    let cost = [1, 1, 3, 2];
    assert_eq!(
        vec![vec![edge(0, 1, 0), edge(1, 2, 1)]],
        best_first(2, &edges, &cost, &["測", "試", "測試", "策"], 1)
    );
}

#[test]
fn readings_with_equal_text_count_once() {
    let edges = [edge(0, 1, 0), edge(0, 2, 2), edge(1, 2, 1)];
    let cost = [2, 2, 1];
    let readings = best_first(2, &edges, &cost, &["哈", "哈", "哈哈"], 10);
    assert_eq!(vec![vec![edge(0, 2, 2)]], readings);
}

#[test]
fn readings_come_cheapest_first_and_stop_at_k() {
    let edges = [edge(0, 1, 0), edge(0, 2, 2), edge(1, 2, 1), edge(0, 1, 3)];
    let cost = [1, 1, 5, 2];
    let texts = ["測", "試", "測驗", "策"];
    assert_eq!(
        vec![
            vec![edge(0, 1, 0), edge(1, 2, 1)],
            vec![edge(0, 1, 3), edge(1, 2, 1)],
            vec![edge(0, 2, 2)],
        ],
        best_first(2, &edges, &cost, &texts, 10)
    );
    assert_eq!(2, best_first(2, &edges, &cost, &texts, 2).len());
}

#[test]
fn visit_settles_expands_and_finishes() {
    let graph = graph_of(2, &[edge(0, 1, 0), edge(0, 2, 2), edge(1, 2, 1)]);
    let mut search = DistinctSearch::new(2, 2, graph, texts_of(&["a", "b", "ab"]));
    assert_eq!(1, search.step_count());
    assert_eq!(Hop { node: 0, parent: NO_PARENT, edge_sn: NO_PARENT }, search.hop(0));
    assert_eq!(Visit::Expanded(1), search.visit(0));
    assert_eq!(3, search.step_count());
    assert_eq!(Hop { node: 1, parent: 0, edge_sn: 0 }, search.hop(1));
    assert_eq!(Hop { node: 2, parent: 0, edge_sn: 2 }, search.hop(2));
    assert_eq!(Visit::Skip, search.visit(0));
    assert_eq!(Visit::Found, search.visit(2));
    assert_eq!(vec![vec![edge(0, 2, 2)]], *search.readings());
    assert_eq!(Visit::Expanded(3), search.visit(1));
    assert_eq!(3, search.step_count());
    assert_eq!(Visit::Skip, search.visit(2));
}

#[test]
fn visit_stops_after_k_readings() {
    let graph = graph_of(1, &[edge(0, 1, 0), edge(0, 1, 1)]);
    let mut search = DistinctSearch::new(1, 1, graph, texts_of(&["a", "b"]));
    assert_eq!(Visit::Expanded(1), search.visit(0));
    assert_eq!(Visit::Done, search.visit(1));
    assert_eq!(Visit::Done, search.visit(2));
    assert_eq!(vec![vec![edge(0, 1, 0)]], *search.readings());
}
