//! Conversions of whole compositions: the library gives the candidates, the
//! edge graph, the steps of the search and the intervals of each reading;
//! the scores and the order of the steps are computed here as the
//! conversion computes them, with floating point.
use std::cmp::{Ordering, Reverse};
use std::collections::BinaryHeap;

use chewing::conversion::{ChewingEngine, Composition, Gap, Interval, LookupStrategy, Symbol};
use chewing::engine::{
    edge_graph, path_intervals, Dictionary, Edge, Phrase, PhraseCandidate, MAX_FREQ,
};
use chewing::readings::{DistinctSearch, Visit};
use chewing::zhuyin::Bopomofo::{
    self, A, AI, AU, B, C, D, E, EI, EN, G, H, I, K, M, O, SH, TONE2, TONE3, TONE4, U, X,
};
use chewing::zhuyin::Syllable;

fn syl(symbols: &[Bopomofo]) -> Syllable {
    let mut builder = Syllable::builder();
    for &b in symbols {
        builder = builder.insert(b).unwrap();
    }
    builder.build()
}

struct TestDictionary {
    entries: Vec<(Vec<Syllable>, Vec<(&'static str, u32)>)>,
}

impl TestDictionary {
    fn add_phrase(&mut self, syllables: &[Syllable], phrase: (&'static str, u32)) {
        self.entries.push((syllables.to_vec(), vec![phrase]));
    }
}

impl Dictionary for TestDictionary {
    fn lookup(&self, syllables: &[Syllable], _strategy: LookupStrategy) -> Vec<Phrase> {
        self.entries
            .iter()
            .filter(|(reading, _)| reading.as_slice() == syllables)
            .flat_map(|(_, phrases)| phrases.iter())
            .map(|(text, freq)| Phrase::new(text.to_string(), *freq))
            .collect()
    }
}

fn test_dictionary() -> TestDictionary {
    TestDictionary {
        entries: vec![
            (vec![syl(&[G, U, O, TONE2])], vec![("國", 1)]),
            (vec![syl(&[M, I, EN, TONE2])], vec![("民", 1)]),
            (vec![syl(&[D, A, TONE4])], vec![("大", 1)]),
            (vec![syl(&[H, U, EI, TONE4])], vec![("會", 1)]),
            (vec![syl(&[D, AI, TONE4])], vec![("代", 1)]),
            (vec![syl(&[B, I, AU, TONE3])], vec![("表", 1), ("錶", 1)]),
            (vec![syl(&[G, U, O, TONE2]), syl(&[M, I, EN, TONE2])], vec![("國民", 200)]),
            (vec![syl(&[D, A, TONE4]), syl(&[H, U, EI, TONE4])], vec![("大會", 200)]),
            (
                vec![syl(&[D, AI, TONE4]), syl(&[B, I, AU, TONE3])],
                vec![("代表", 200), ("戴錶", 100)],
            ),
            (vec![syl(&[X, I, EN])], vec![("心", 1)]),
            (vec![syl(&[K, U, TONE4]), syl(&[I, EN])], vec![("庫音", 300)]),
            (
                vec![syl(&[X, I, EN]), syl(&[K, U, TONE4]), syl(&[I, EN])],
                vec![("新酷音", 200)],
            ),
            (
                vec![syl(&[C, E, TONE4]), syl(&[SH, TONE4]), syl(&[I, TONE2])],
                vec![("測試儀", 42)],
            ),
            (vec![syl(&[C, E, TONE4]), syl(&[SH, TONE4])], vec![("測試", 9318)]),
            (vec![syl(&[I, TONE2]), syl(&[X, I, A, TONE4])], vec![("一下", 10576)]),
            (vec![syl(&[X, I, A, TONE4])], vec![("下", 10576)]),
            (vec![syl(&[H, A])], vec![("哈", 1)]),
            (vec![syl(&[H, A]), syl(&[H, A])], vec![("哈哈", 1)]),
        ],
    }
}

#[derive(Debug, Default, Clone, PartialEq)]
struct Outcome {
    intervals: Vec<Interval>,
    log_prob: f64,
}

const TSI_SRC_SUM_FREQ: f64 = 58376702.0;

fn log_length_prob(len: usize) -> f64 {
    match len {
        1 => -2.063494,
        2 => -0.654789,
        3 => -1.692290,
        4 => -1.872849,
        5 => -4.679164,
        _ => -5.056246,
    }
}

fn candidate_log_prob(candidate: &PhraseCandidate, len: usize) -> f64 {
    match candidate {
        PhraseCandidate::Symbol(_) | PhraseCandidate::Selected(_) => 0.0,
        PhraseCandidate::Phrase(phrase) => {
            (phrase.freq().clamp(1, MAX_FREQ) as f64 / TSI_SRC_SUM_FREQ).ln() + log_length_prob(len)
        }
    }
}

fn interval_log_prob(candidate: &PhraseCandidate, start: usize, end: usize) -> f64 {
    candidate_log_prob(candidate, end - start) + log_length_prob(end - start)
}

#[derive(Clone, Copy, PartialEq)]
struct OrderedF64(f64);

impl Eq for OrderedF64 {}

impl PartialOrd for OrderedF64 {
    fn partial_cmp(&self, other: &Self) -> Option<Ordering> {
        Some(self.cmp(other))
    }
}

impl Ord for OrderedF64 {
    fn cmp(&self, other: &Self) -> Ordering {
        self.0.total_cmp(&other.0)
    }
}

fn convert(engine: &ChewingEngine, dict: &dyn Dictionary, comp: &Composition) -> Vec<Outcome> {
    if comp.is_empty() {
        return vec![Outcome::default()];
    }
    let (edges, candidates) = engine.find_edges(dict, comp);
    if edges.is_empty() {
        return vec![Outcome::default()];
    }
    let len = comp.len();
    let graph = edge_graph(len, &edges);
    let costs: Vec<f64> = edges
        .iter()
        .map(|e| -interval_log_prob(&candidates[e.sn], e.start, e.end))
        .collect();
    let mut h = vec![f64::INFINITY; len + 1];
    h[len] = 0.0;
    for v in (0..len).rev() {
        for e in &graph[v] {
            let c = costs[e.sn] + h[e.end];
            if c < h[v] {
                h[v] = c;
            }
        }
    }
    let texts: Vec<String> = candidates.iter().map(|c| c.text()).collect();
    let mut search = DistinctSearch::new(len, ChewingEngine::MAX_OUT_PATHS, graph, texts);
    let mut g: Vec<f64> = vec![0.0];
    let mut open = BinaryHeap::new();
    open.push(Reverse((OrderedF64(h[0]), 0usize)));
    while let Some(Reverse((_, idx))) = open.pop() {
        match search.visit(idx) {
            Visit::Skip | Visit::Found => continue,
            Visit::Done => break,
            Visit::Expanded(first) => {
                for child in first..search.step_count() {
                    let hop = search.hop(child);
                    let ng = g[idx] + costs[hop.edge_sn];
                    g.push(ng);
                    open.push(Reverse((OrderedF64(ng + h[hop.node]), child)));
                }
            }
        }
    }
    search
        .readings()
        .iter()
        .map(|path| Outcome {
            intervals: path_intervals(comp, path, &candidates),
            log_prob: path
                .iter()
                .map(|e: &Edge| interval_log_prob(&candidates[e.sn], e.start, e.end))
                .sum(),
        })
        .collect()
}

fn composition(symbols: &[Syllable]) -> Composition {
    let mut composition = Composition::new();
    for s in symbols {
        composition.push(Symbol::from(*s));
    }
    composition
}

fn interval(start: usize, end: usize, text: &str) -> Interval {
    Interval { start, end, is_phrase: true, text: text.to_string() }
}

fn six_syllables() -> Composition {
    composition(&[
        syl(&[G, U, O, TONE2]),
        syl(&[M, I, EN, TONE2]),
        syl(&[D, A, TONE4]),
        syl(&[H, U, EI, TONE4]),
        syl(&[D, AI, TONE4]),
        syl(&[B, I, AU, TONE3]),
    ])
}

#[test]
fn convert_empty_composition() {
    let dict = test_dictionary();
    let engine = ChewingEngine::new();
    let composition = Composition::new();
    assert_eq!(vec![Outcome::default()], convert(&engine, &dict, &composition));
}

#[test]
fn convert_zero_length_entry() {
    let mut dict = test_dictionary();
    dict.add_phrase(&[], ("", 0));
    let engine = ChewingEngine::new();
    let composition = composition(&[syl(&[C, E, TONE4]), syl(&[SH, TONE4])]);
    assert_eq!(
        vec![interval(0, 2, "測試")],
        convert(&engine, &dict, &composition)[0].intervals
    );
}

#[test]
fn convert_simple_chinese_composition() {
    let dict = test_dictionary();
    let engine = ChewingEngine::new();
    let composition = six_syllables();
    assert_eq!(
        vec![interval(0, 2, "國民"), interval(2, 4, "大會"), interval(4, 6, "代表")],
        convert(&engine, &dict, &composition)[0].intervals
    );
}

#[test]
fn convert_chinese_composition_with_breaks() {
    let dict = test_dictionary();
    let engine = ChewingEngine::new();
    let mut composition = six_syllables();
    composition.set_gap(1, Gap::Break);
    composition.set_gap(5, Gap::Break);
    assert_eq!(
        vec![
            interval(0, 1, "國"),
            interval(1, 2, "民"),
            interval(2, 4, "大會"),
            interval(4, 5, "代"),
            interval(5, 6, "表"),
        ],
        convert(&engine, &dict, &composition)[0].intervals
    );
}

#[test]
fn convert_chinese_composition_with_good_selection() {
    let dict = test_dictionary();
    let engine = ChewingEngine::new();
    let mut composition = six_syllables();
    composition.push_selection(interval(4, 6, "戴錶"));
    assert_eq!(
        vec![interval(0, 2, "國民"), interval(2, 4, "大會"), interval(4, 6, "戴錶")],
        convert(&engine, &dict, &composition)[0].intervals
    );
}

#[test]
fn convert_chinese_composition_with_substring_selection() {
    let dict = test_dictionary();
    let engine = ChewingEngine::new();
    let mut composition =
        composition(&[syl(&[X, I, EN]), syl(&[K, U, TONE4]), syl(&[I, EN])]);
    composition.push_selection(interval(1, 3, "酷音"));
    assert_eq!(
        vec![interval(0, 3, "新酷音")],
        convert(&engine, &dict, &composition)[0].intervals
    );
}

#[test]
fn multiple_single_word_selection() {
    let dict = test_dictionary();
    let engine = ChewingEngine::new();
    let mut composition = composition(&[syl(&[D, AI, TONE4]), syl(&[B, I, AU, TONE3])]);
    for selection in [interval(0, 1, "代"), interval(1, 2, "錶")] {
        composition.push_selection(selection);
    }
    assert_eq!(
        vec![interval(0, 1, "代"), interval(1, 2, "錶")],
        convert(&engine, &dict, &composition)[0].intervals
    );
}

#[test]
fn convert_cycle_alternatives() {
    let dict = test_dictionary();
    let engine = ChewingEngine::new();
    let composition = composition(&[
        syl(&[C, E, TONE4]),
        syl(&[SH, TONE4]),
        syl(&[I, TONE2]),
        syl(&[X, I, A, TONE4]),
    ]);
    assert_eq!(
        vec![interval(0, 2, "測試"), interval(2, 4, "一下")],
        convert(&engine, &dict, &composition)[0].intervals
    );
    assert_eq!(
        vec![interval(0, 3, "測試儀"), interval(3, 4, "下")],
        convert(&engine, &dict, &composition)[1].intervals
    );
    assert_eq!(
        Some(vec![interval(0, 2, "測試"), interval(2, 4, "一下")]),
        convert(&engine, &dict, &composition)
            .into_iter()
            .cycle()
            .nth(2)
            .map(|p| p.intervals)
    );
}

#[test]
fn convert_collapses_equal_text_resegmentations() {
    let dict = test_dictionary();
    let engine = ChewingEngine::new();
    let composition = composition(&vec![syl(&[H, A]); 80]);
    let outcomes = convert(&engine, &dict, &composition);
    assert_eq!(1, outcomes.len());
    assert_eq!(40, outcomes[0].intervals.len());
}
