use chewing::conversion::Symbol;
use chewing::grapheme::Grapheme;
use chewing::symbol::{SpecialSymbolSelector, SymbolSelector};
use chewing::zhuyin::{Bopomofo, Syllable};

fn syl(symbols: &[Bopomofo]) -> Syllable {
    let mut builder = Syllable::builder();
    for &b in symbols {
        builder = builder.insert(b).unwrap();
    }
    builder.build()
}

#[test]
fn select_level_one_leaf() {
    let mut sel = SymbolSelector::new("…\n※\n常用符號=，、。\n");

    assert_eq!(vec!["…", "※", "常用符號"], sel.menu());
    assert_eq!(Symbol::from('…'), sel.select(0).unwrap());
}

#[test]
fn select_level_two_leaf() {
    let mut sel = SymbolSelector::new("…\n※\n常用符號=，、。\n");

    assert_eq!(vec!["…", "※", "常用符號"], sel.menu());
    assert_eq!(None, sel.select(2));
    assert_eq!(vec!["，", "、", "。"], sel.menu());
    assert_eq!(Symbol::from('，'), sel.select(0).unwrap());
}

#[test]
fn special_symbol_of_multi_codepoint_character_has_no_category() {
    // No category holds an emoji sequence, so the menu is empty rather
    // than the lookup panicking
    let symbol = Symbol::from(Grapheme::try_from("\u{1F468}\u{200D}\u{1F469}").unwrap());
    let sel = SpecialSymbolSelector::new(symbol);

    assert!(sel.menu().is_empty());
    assert_eq!(None, sel.select(0));
}

#[test]
fn special_symbol_of_syllable_has_no_category() {
    let sel = SpecialSymbolSelector::new(Symbol::from(syl(&[Bopomofo::C, Bopomofo::E])));

    assert!(sel.menu().is_empty());
    assert_eq!(None, sel.select(0));
}

#[test]
fn special_symbol_of_plain_character_still_works() {
    let sel = SpecialSymbolSelector::new(Symbol::from('('));

    assert_eq!(vec!["（", "Ⅸ"], sel.menu());
    assert_eq!(Some(Symbol::from('（')), sel.select(0));
}

#[test]
fn select_multi_codepoint_level_one_leaf() {
    let mut sel =
        SymbolSelector::new("\u{1F468}\u{200D}\u{1F469}\u{200D}\u{1F467}\n\u{1F1F9}\u{1F1FC}\n");

    assert_eq!(
        vec![
            "\u{1F468}\u{200D}\u{1F469}\u{200D}\u{1F467}",
            "\u{1F1F9}\u{1F1FC}"
        ],
        sel.menu()
    );
    assert_eq!(
        Symbol::from(Grapheme::try_from("\u{1F468}\u{200D}\u{1F469}\u{200D}\u{1F467}").unwrap()),
        sel.select(0).unwrap()
    );
}

#[test]
fn select_multi_codepoint_level_two_leaf() {
    // A row of a keycap sequence, an ideographic variation sequence and a
    // plain character
    let mut sel = SymbolSelector::new("符號=1\u{FE0F}\u{20E3}\u{908A}\u{E0100}\u{908A}\n");

    assert_eq!(None, sel.select(0));
    assert_eq!(
        vec!["1\u{FE0F}\u{20E3}", "\u{908A}\u{E0100}", "\u{908A}"],
        sel.menu()
    );
    assert_eq!(
        Symbol::from(Grapheme::try_from("\u{908A}\u{E0100}").unwrap()),
        sel.select(1).unwrap()
    );
}

#[test]
fn select_empty_level_two_leaf() {
    let mut sel = SymbolSelector::new("…\n※\n常用符號=，、。\n\n");

    assert_eq!(vec!["…", "※", "常用符號", ""], sel.menu());
    assert_eq!(None, sel.select(3));
    assert_eq!(vec!["…", "※", "常用符號", ""], sel.menu());
}

#[test]
fn symbol_selector_out_of_range_keeps_level_one() {
    let mut sel = SymbolSelector::new("…\n常用符號=，、。");
    assert!(!sel.is_empty());
    assert_eq!(None, sel.select(5));
    assert_eq!(vec!["…", "常用符號"], sel.menu());
    assert_eq!(None, sel.select(1));
    assert_eq!(None, sel.select(7));
    assert_eq!(vec!["…", "常用符號"], sel.menu());
    assert!(SymbolSelector::new("").is_empty());
}

#[test]
fn special_symbol_select_past_the_row() {
    let sel = SpecialSymbolSelector::new(Symbol::from('('));
    assert_eq!(Some(Symbol::from('Ⅸ')), sel.select(1));
    assert_eq!(None, sel.select(2));
    assert_eq!(None, sel.select(usize::MAX));
    let sel = SpecialSymbolSelector::new(Symbol::from('（'));
    assert_eq!(vec!["（", "Ⅸ"], sel.menu());
}
