use chewing::conversion::{ChewingEngine, Composition, Gap, Interval, LookupStrategy, Symbol};
use chewing::engine::{
    edge_graph, path_intervals, rank_phrases, reconstruct, Dictionary, Edge, Hop, Phrase,
    PhraseCandidate, MAX_PHRASES, NO_PARENT,
};
use chewing::zhuyin::Bopomofo::{self, AI, AU, B, C, D, E, G, I, M, O, SH, TONE2, TONE3, TONE4, U, X, A, EN};
use chewing::zhuyin::Syllable;

fn syl(symbols: &[Bopomofo]) -> Syllable {
    let mut builder = Syllable::builder();
    for &b in symbols {
        builder = builder.insert(b).unwrap();
    }
    builder.build()
}

struct TestDictionary {
    entries: Vec<(Vec<Syllable>, Vec<(&'static str, u32)>)>,
}

impl Dictionary for TestDictionary {
    fn lookup(&self, syllables: &[Syllable], _strategy: LookupStrategy) -> Vec<Phrase> {
        for (reading, phrases) in &self.entries {
            if reading.as_slice() == syllables {
                return phrases
                    .iter()
                    .map(|(text, freq)| Phrase::new(text.to_string(), *freq))
                    .collect();
            }
        }
        vec![]
    }
}

fn dai() -> Syllable {
    syl(&[D, AI, TONE4])
}

fn biau() -> Syllable {
    syl(&[B, I, AU, TONE3])
}

fn test_dictionary() -> TestDictionary {
    TestDictionary {
        entries: vec![
            (vec![dai()], vec![("代", 1)]),
            (vec![biau()], vec![("表", 1), ("錶", 1)]),
            (vec![dai(), biau()], vec![("戴錶", 100), ("代表", 200)]),
            (vec![syl(&[G, U, O, TONE2])], vec![("國", 1)]),
            (vec![syl(&[M, I, EN, TONE2])], vec![("民", 1)]),
            (vec![syl(&[C, E, TONE4]), syl(&[SH, TONE4])], vec![("測試", 9318)]),
        ],
    }
}

fn composition(syllables: &[Syllable]) -> Composition {
    let mut com = Composition::new();
    for s in syllables {
        com.push(Symbol::from(*s));
    }
    com
}

fn texts(candidates: &[PhraseCandidate]) -> Vec<String> {
    candidates.iter().map(|c| c.text()).collect()
}

fn phrases(list: &[(&str, u32)]) -> Vec<Phrase> {
    list.iter().map(|(t, f)| Phrase::new(t.to_string(), *f)).collect()
}

#[test]
fn best_phrases_come_most_frequent_first() {
    let engine = ChewingEngine::new();
    let com = composition(&[dai(), biau()]);
    let found = engine.find_best_phrases(&test_dictionary(), 0, com.symbols(), &com);
    assert_eq!(vec!["代表", "戴錶"], texts(&found));
    assert!(matches!(&found[0], PhraseCandidate::Phrase(p) if p.freq() == 200));
}

#[test]
fn best_phrases_of_equal_rank_keep_dictionary_order() {
    let engine = ChewingEngine::new();
    let com = composition(&[biau()]);
    let found = engine.find_best_phrases(&test_dictionary(), 0, com.symbols(), &com);
    assert_eq!(vec!["表", "錶"], texts(&found));
}

#[test]
fn no_best_phrase_across_a_break() {
    let engine = ChewingEngine::new();
    let mut com = composition(&[dai(), biau()]);
    com.set_gap(1, Gap::Break);
    let found = engine.find_best_phrases(&test_dictionary(), 0, com.symbols(), &com);
    assert!(found.is_empty());
}

#[test]
fn a_typed_character_stands_for_itself() {
    let engine = ChewingEngine::new();
    let mut com = Composition::new();
    com.push(Symbol::from('a'));
    com.push(Symbol::from(dai()));
    let found = engine.find_best_phrases(&test_dictionary(), 0, &com.symbols()[0..1], &com);
    assert!(matches!(found.as_slice(), [PhraseCandidate::Symbol('a')]));
    let mixed = engine.find_best_phrases(&test_dictionary(), 0, com.symbols(), &com);
    assert!(mixed.is_empty());
}

#[test]
fn best_phrases_show_the_selected_text() {
    let engine = ChewingEngine::new();
    let mut com = composition(&[dai(), biau()]);
    com.push_selection(Interval { start: 0, end: 1, is_phrase: true, text: "戴".to_string() });
    let found = engine.find_best_phrases(&test_dictionary(), 0, com.symbols(), &com);
    assert_eq!(vec!["戴錶"], texts(&found));
}

#[test]
fn a_crossing_selection_rules_a_run_out() {
    let engine = ChewingEngine::new();
    let mut com = composition(&[dai(), biau(), dai()]);
    com.push_selection(Interval { start: 1, end: 3, is_phrase: true, text: "錶代".to_string() });
    let found = engine.find_best_phrases(&test_dictionary(), 0, &com.symbols()[0..2], &com);
    assert!(found.is_empty());
}

#[test]
fn a_selection_is_offered_when_no_phrase_matches_it() {
    let engine = ChewingEngine::new();
    let mut com = composition(&[dai(), biau()]);
    com.push_selection(Interval { start: 0, end: 2, is_phrase: true, text: "呆錶".to_string() });
    let found = engine.find_best_phrases(&test_dictionary(), 0, com.symbols(), &com);
    assert!(matches!(found.as_slice(), [PhraseCandidate::Selected(t)] if t == "呆錶"));
}

#[test]
fn ranking_keeps_at_most_ten_phrases_and_caps_frequencies() {
    let com = composition(&[dai()]);
    let mut list: Vec<(&str, u32)> = vec![
        ("a", 0),
        ("b", 1),
        ("c", 20_000_000),
        ("d", 9_999_999),
        ("e", 5),
    ];
    for _ in 0..10 {
        list.push(("f", 2));
    }
    let ranked = rank_phrases(&com, 0, 1, &phrases(&list));
    assert_eq!(MAX_PHRASES, ranked.len());
    assert_eq!(vec!["c", "d", "e", "f", "f", "f", "f", "f", "f", "f"], texts(&ranked));
    let few = rank_phrases(&com, 0, 1, &phrases(&[("a", 0), ("b", 1), ("c", 3)]));
    assert_eq!(vec!["c", "a", "b"], texts(&few));
    assert!(rank_phrases(&com, 0, 1, &vec![]).is_empty());
}

#[test]
fn edges_cover_every_run_in_order() {
    let engine = ChewingEngine::new();
    let com = composition(&[dai(), biau()]);
    let (edges, candidates) = engine.find_edges(&test_dictionary(), &com);
    let runs: Vec<(usize, usize, usize)> = edges.iter().map(|e| (e.start, e.end, e.sn)).collect();
    assert_eq!(vec![(0, 1, 0), (0, 2, 1), (0, 2, 2), (1, 2, 3), (1, 2, 4)], runs);
    assert_eq!(vec!["代", "代表", "戴錶", "表", "錶"], texts(&candidates));
}

#[test]
fn edges_skip_runs_across_a_break_and_keep_typed_characters() {
    let engine = ChewingEngine::new();
    let mut com = composition(&[dai(), biau()]);
    com.push(Symbol::from('!'));
    com.set_gap(1, Gap::Break);
    let (edges, candidates) = engine.find_edges(&test_dictionary(), &com);
    let runs: Vec<(usize, usize)> = edges.iter().map(|e| (e.start, e.end)).collect();
    assert_eq!(vec![(0, 1), (1, 2), (1, 2), (2, 3)], runs);
    assert_eq!(vec!["代", "表", "錶", "!"], texts(&candidates));
    assert!(matches!(candidates[3], PhraseCandidate::Symbol('!')));
}

#[test]
fn edges_are_never_longer_than_fifteen_symbols() {
    let engine = ChewingEngine::new();
    let com = composition(&vec![syl(&[X, I, A]); 17]);
    let (edges, _) = engine.find_edges(&test_dictionary(), &com);
    assert!(edges.is_empty());
    let empty = TestDictionary { entries: vec![(vec![syl(&[X, I, A]); 16], vec![("x", 1)])] };
    let (edges, _) = engine.find_edges(&empty, &com);
    assert!(edges.is_empty());
    let fifteen = TestDictionary { entries: vec![(vec![syl(&[X, I, A]); 15], vec![("y", 1)])] };
    let (edges, _) = engine.find_edges(&fifteen, &com);
    let runs: Vec<(usize, usize)> = edges.iter().map(|e| (e.start, e.end)).collect();
    assert_eq!(vec![(0, 15), (1, 16), (2, 17)], runs);
}

#[test]
fn graph_groups_edges_by_start() {
    let edges = vec![
        Edge { start: 0, end: 1, sn: 0 },
        Edge { start: 0, end: 2, sn: 1 },
        Edge { start: 1, end: 2, sn: 2 },
    ];
    let graph = edge_graph(3, &edges);
    assert_eq!(3, graph.len());
    assert_eq!(vec![edges[0], edges[1]], graph[0]);
    assert_eq!(vec![edges[2]], graph[1]);
    assert!(graph[2].is_empty());
}

#[test]
fn reconstruct_reads_a_path_back_from_its_last_step() {
    let arena = vec![
        Hop { node: 0, parent: NO_PARENT, edge_sn: NO_PARENT },
        Hop { node: 1, parent: 0, edge_sn: 0 },
        Hop { node: 2, parent: 0, edge_sn: 2 },
        Hop { node: 2, parent: 1, edge_sn: 1 },
    ];
    assert_eq!(
        vec![Edge { start: 0, end: 1, sn: 0 }, Edge { start: 1, end: 2, sn: 1 }],
        reconstruct(&arena, 3)
    );
    assert_eq!(vec![Edge { start: 0, end: 2, sn: 2 }], reconstruct(&arena, 2));
    assert!(reconstruct(&arena, 0).is_empty());
}

#[test]
fn candidates_make_intervals() {
    let symbol = PhraseCandidate::Symbol('a');
    let phrase = PhraseCandidate::Phrase(Phrase::new("代表".to_string(), 200));
    let selected = PhraseCandidate::Selected("戴錶".to_string());
    assert_eq!(
        Interval { start: 0, end: 1, is_phrase: false, text: "a".to_string() },
        symbol.to_interval(0, 1)
    );
    assert_eq!(
        Interval { start: 1, end: 3, is_phrase: true, text: "代表".to_string() },
        phrase.to_interval(1, 3)
    );
    assert_eq!(
        Interval { start: 1, end: 3, is_phrase: true, text: "戴錶".to_string() },
        selected.to_interval(1, 3)
    );
    let p = Phrase::new("測".to_string(), 3);
    assert_eq!("測", p.as_str());
    assert_eq!(3, p.freq());
    assert_eq!("測", p.clone().as_str());
}

#[test]
fn path_intervals_glue_phrases_across_a_glue_gap() {
    let mut com = composition(&[dai(), biau(), dai()]);
    com.set_gap(1, Gap::Glue);
    let candidates = vec![
        PhraseCandidate::Phrase(Phrase::new("代".to_string(), 1)),
        PhraseCandidate::Phrase(Phrase::new("表".to_string(), 1)),
        PhraseCandidate::Symbol('!'),
    ];
    let path = vec![
        Edge { start: 0, end: 1, sn: 0 },
        Edge { start: 1, end: 2, sn: 1 },
        Edge { start: 2, end: 3, sn: 2 },
    ];
    assert_eq!(
        vec![
            Interval { start: 0, end: 2, is_phrase: true, text: "代表".to_string() },
            Interval { start: 2, end: 3, is_phrase: false, text: "!".to_string() },
        ],
        path_intervals(&com, &path, &candidates)
    );
    assert!(path_intervals(&com, &vec![], &candidates).is_empty());
}
