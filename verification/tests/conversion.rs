use chewing::conversion::{glue_fn, glue_intervals, ChewingEngine, Composition, Gap, Interval, LookupStrategy, Symbol};
use chewing::grapheme::Grapheme;
use chewing::zhuyin::{Bopomofo, Syllable};

fn syl(symbols: &[Bopomofo]) -> Syllable {
    let mut builder = Syllable::builder();
    for &b in symbols {
        builder = builder.insert(b).unwrap();
    }
    builder.build()
}

fn interval(start: usize, end: usize, is_phrase: bool, text: &str) -> Interval {
    Interval { start, end, is_phrase, text: text.to_string() }
}

fn composition(n: usize) -> Composition {
    let mut com = Composition::new();
    for _ in 0..n {
        com.push(Symbol::from(syl(&[Bopomofo::H, Bopomofo::A])));
    }
    com
}

#[test]
fn engine_starts_with_standard_lookup() {
    assert_eq!(LookupStrategy::Standard, ChewingEngine::new().lookup_strategy());
    assert_eq!(LookupStrategy::Standard, ChewingEngine::default().lookup_strategy());
    assert_eq!(10, ChewingEngine::MAX_OUT_PATHS);
}

#[test]
fn composition_gaps_are_between_symbols() {
    let mut com = composition(3);
    assert_eq!(3, com.len());
    assert_eq!(None, com.gap(0));
    assert_eq!(Some(Gap::Murmur), com.gap(1));
    assert_eq!(Some(Gap::Murmur), com.gap(2));
    assert_eq!(None, com.gap(3));
    com.set_gap(2, Gap::Break);
    assert_eq!(Some(Gap::Break), com.gap(2));
    assert_eq!(Some(Gap::Murmur), com.gap(1));
}

#[test]
fn glue_merges_phrases_across_a_glue_gap() {
    let mut com = composition(3);
    com.set_gap(1, Gap::Glue);
    let acc = glue_fn(&com, vec![], interval(0, 1, true, "哈"));
    let acc = glue_fn(&com, acc, interval(1, 3, true, "哈哈"));
    assert_eq!(vec![interval(0, 3, true, "哈哈哈")], acc);
}

#[test]
fn glue_keeps_symbols_and_murmur_gaps_apart() {
    let mut com = composition(3);
    com.set_gap(1, Gap::Glue);
    let acc = glue_fn(&com, vec![], interval(0, 1, false, "a"));
    let acc = glue_fn(&com, acc, interval(1, 2, true, "哈"));
    assert_eq!(2, acc.len());
    let acc = glue_fn(&com, acc, interval(2, 3, true, "哈"));
    assert_eq!(
        vec![interval(0, 1, false, "a"), interval(1, 2, true, "哈"), interval(2, 3, true, "哈")],
        acc
    );
}

#[test]
fn glue_intervals_keeps_the_text() {
    let mut com = composition(4);
    com.set_gap(1, Gap::Glue);
    com.set_gap(3, Gap::Glue);
    let ivs = vec![
        interval(0, 1, true, "一"),
        interval(1, 2, true, "二"),
        interval(2, 3, true, "三"),
        interval(3, 4, true, "四"),
    ];
    let glued = glue_intervals(&com, &ivs);
    assert_eq!(vec![interval(0, 2, true, "一二"), interval(2, 4, true, "三四")], glued);
}

#[test]
fn span_with_a_break_inside_is_refused() {
    let mut com = composition(4);
    com.set_gap(2, Gap::Break);
    assert!(com.phrase_span_allowed(0, 2));
    assert!(!com.phrase_span_allowed(1, 3));
    assert!(com.phrase_span_allowed(2, 4));
}

#[test]
fn span_crossing_a_selection_is_refused() {
    let mut com = composition(4);
    com.push_selection(interval(1, 3, true, "酷音"));
    assert!(!com.phrase_span_allowed(0, 2));
    assert!(com.phrase_span_allowed(0, 3));
    assert!(com.phrase_span_allowed(3, 4));
}

#[test]
fn phrase_must_show_the_selected_text() {
    let mut com = composition(3);
    com.push_selection(interval(1, 3, true, "酷音"));
    assert!(com.phrase_agrees_with_selections(0, 3, "新酷音"));
    assert!(!com.phrase_agrees_with_selections(0, 3, "心庫音"));
    assert!(com.phrase_agrees_with_selections(0, 2, "心庫"));
}

#[test]
fn forced_selection_covers_exactly_the_span() {
    let mut com = composition(3);
    com.push_selection(interval(1, 3, true, "酷音"));
    assert_eq!(Some("酷音".to_string()), com.forced_selection(1, 3));
    assert_eq!(None, com.forced_selection(0, 3));
}

#[test]
fn new_selection_drops_the_ones_it_overlaps() {
    let mut com = composition(4);
    com.push_selection(interval(0, 2, true, "國民"));
    com.push_selection(interval(2, 4, true, "大會"));
    com.push_selection(interval(1, 3, true, "民大"));
    assert_eq!(&[interval(1, 3, true, "民大")], com.selections());
}

#[test]
fn symbol_kinds() {
    let s = Symbol::from(syl(&[Bopomofo::C, Bopomofo::E]));
    assert!(s.is_syllable());
    assert!(!s.is_char());
    assert_eq!(None, s.as_str());
    assert_eq!(Some(syl(&[Bopomofo::C, Bopomofo::E])), s.to_syllable());
    let c = Symbol::from('好');
    assert!(c.is_char());
    assert_eq!(Some("好"), c.as_str());
    assert_eq!(Some('好'), c.to_char());
    let e = Symbol::from(Grapheme::try_from("e\u{301}").unwrap());
    assert_eq!(None, e.to_char());
    assert_ne!(c, e);
    assert_ne!(c, s);
}
