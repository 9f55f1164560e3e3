use chewing::grapheme::{graphemes, Grapheme, GraphemeError};

fn split(str: &str) -> Vec<&str> {
    graphemes(str).collect()
}

#[test]
fn split_single_codepoint_characters() {
    assert_eq!(vec!["酷", "音", "，", "a"], split("酷音，a"));
}

#[test]
fn split_empty_string() {
    assert!(split("").is_empty());
}

#[test]
fn split_supplementary_plane_characters() {
    // U+20B9F is a single codepoint outside the BMP
    assert_eq!(vec!["\u{20B9F}", "好"], split("\u{20B9F}好"));
}

#[test]
fn split_ideographic_variation_sequence() {
    assert_eq!(
        vec!["邊\u{E0100}", "邊\u{E0101}", "邊"],
        split("邊\u{E0100}邊\u{E0101}邊")
    );
}

#[test]
fn split_variation_selector_16() {
    assert_eq!(vec!["☺\u{FE0F}", "☺"], split("☺\u{FE0F}☺"));
}

#[test]
fn split_combining_mark() {
    assert_eq!(vec!["e\u{301}", "e"], split("e\u{301}e"));
}

#[test]
fn split_zwj_sequence() {
    assert_eq!(
        vec!["👨\u{200D}👩\u{200D}👧", "好"],
        split("👨\u{200D}👩\u{200D}👧好")
    );
}

#[test]
fn split_emoji_modifier() {
    assert_eq!(vec!["👍\u{1F3FB}", "👍"], split("👍\u{1F3FB}👍"));
}

#[test]
fn split_keycap_sequence() {
    assert_eq!(vec!["1\u{FE0F}\u{20E3}", "2"], split("1\u{FE0F}\u{20E3}2"));
}

#[test]
fn split_regional_indicator_pairs() {
    assert_eq!(vec!["🇹🇼", "🇯🇵", "🇦"], split("🇹🇼🇯🇵🇦"));
}

#[test]
fn split_tag_sequence() {
    // The flag of England, a black flag followed by tag characters
    let england = "\u{1F3F4}\u{E0067}\u{E0062}\u{E0065}\u{E006E}\u{E0067}\u{E007F}";
    assert_eq!(vec![england, "好"], split(&format!("{england}好")));
}

#[test]
fn split_leading_combining_mark() {
    // A combining mark with nothing to combine with stands on its own
    assert_eq!(vec!["\u{301}", "e"], split("\u{301}e"));
}

#[test]
fn split_cluster_longer_than_capacity_at_codepoint_boundary() {
    let long: String = std::iter::once('a')
        .chain(std::iter::repeat_n('\u{301}', 40))
        .collect();
    let parts = split(&long);

    assert!(parts.len() > 1, "the cluster should be split");
    assert!(parts.iter().all(|part| part.len() <= Grapheme::CAPACITY));
    assert_eq!(long, parts.concat(), "no codepoint should be lost");
}

#[test]
fn split_cluster_exactly_at_capacity_stays_whole() {
    // 1 byte base plus 31 two byte combining marks is exactly the capacity
    let exact: String = std::iter::once('a')
        .chain(std::iter::repeat_n('\u{301}', 31))
        .collect();
    assert_eq!(Grapheme::CAPACITY, exact.len());

    assert_eq!(vec![exact.as_str()], split(&exact));
    assert!(Grapheme::try_from(exact.as_str()).is_ok());

    // One more mark does not fit and starts a new grapheme
    let over = format!("{exact}\u{301}");
    assert_eq!(vec![exact.as_str(), "\u{301}"], split(&over));
    assert!(Grapheme::try_from(over.as_str()).is_err());
}

#[test]
fn split_trailing_zero_width_joiner() {
    // A ZWJ with nothing after it stays with the character it follows
    assert_eq!(vec!["\u{1F468}\u{200D}"], split("\u{1F468}\u{200D}"));
}

#[test]
fn split_zwj_chain_cut_by_capacity() {
    // 4 + 7 * 9 = 67 bytes, so the chain cannot stay in one grapheme
    let chain = format!("\u{1F468}{}", "\u{200D}\u{1F468}".repeat(9));
    let parts = split(&chain);

    assert_eq!(chain, parts.concat(), "no codepoint should be lost");
    assert!(parts.iter().all(|part| part.len() <= Grapheme::CAPACITY));
    assert!(parts.len() > 1, "the chain should be split");
}

#[test]
fn split_leading_zero_width_joiner() {
    // A ZWJ with nothing before it does not swallow the next character
    assert_eq!(vec!["\u{200D}", "a"], split("\u{200D}a"));
}

#[test]
fn every_split_fits_in_a_grapheme() {
    let text = "酷音邊\u{E0100}👨\u{200D}👩\u{200D}👧🇹🇼1\u{FE0F}\u{20E3}";
    for part in split(text) {
        assert!(Grapheme::try_from(part).is_ok(), "{part} should fit");
    }
}

#[test]
fn grapheme_from_char() {
    assert_eq!("酷", Grapheme::from('酷').as_str());
    assert_eq!("\u{20B9F}", Grapheme::from('\u{20B9F}').as_str());
}

#[test]
fn grapheme_rejects_empty_and_too_long_strings() {
    assert!(Grapheme::try_from("").is_err());
    assert!(Grapheme::try_from("好".repeat(30).as_str()).is_err());
}

#[test]
fn grapheme_error_is_readable() {
    let empty = Grapheme::try_from("").unwrap_err();
    assert_eq!("a grapheme cannot be empty", empty.to_string());

    let too_long = Grapheme::try_from("好".repeat(30).as_str()).unwrap_err();
    assert_eq!(
        format!("a grapheme cannot be longer than 63 bytes, got 90"),
        too_long.to_string()
    );
    assert_ne!(GraphemeError { len: 0 }, too_long);
}

#[test]
fn grapheme_compares_by_text() {
    assert_eq!(Grapheme::from('好'), Grapheme::try_from("好").unwrap());
    assert_ne!(
        Grapheme::from('好'),
        Grapheme::try_from("好\u{E0100}").unwrap()
    );
    assert!(Grapheme::from('a') < Grapheme::from('b'));
    assert_eq!("好", Grapheme::from('好'));
}

#[test]
fn grapheme_error_records_the_length() {
    assert_eq!(GraphemeError { len: 0 }, Grapheme::try_from("").unwrap_err());
    assert_eq!(GraphemeError { len: 90 }, Grapheme::try_from("好".repeat(30).as_str()).unwrap_err());
}

#[test]
fn graphemes_order_as_their_text() {
    assert!(Grapheme::from('a') < Grapheme::try_from("a\u{301}").unwrap());
    assert!(Grapheme::from('b') > Grapheme::from('a'));
    assert_eq!(
        Some(std::cmp::Ordering::Equal),
        Grapheme::from('好').partial_cmp(&Grapheme::try_from("好").unwrap())
    );
}

#[test]
fn graphemes_as_str_keeps_the_rest() {
    let mut it = graphemes("ab");
    assert_eq!(Some("a"), it.next());
    assert_eq!("b", it.as_str());
    assert_eq!(Some("b"), it.next());
    assert_eq!(None, it.next());
    assert_eq!("", it.as_str());
}

#[test]
fn graphemes_concatenate_back_to_the_text() {
    let text = "🇹🇼🇯\u{200D}a\u{301}\u{301}\u{E0100}";
    let parts = split(text);
    assert_eq!(text, parts.concat());
    // A regional indicator only takes another regional indicator
    assert_eq!(vec!["🇹🇼", "🇯", "\u{200D}", "a\u{301}\u{301}\u{E0100}"], parts);
}

#[test]
fn grapheme_reads_as_a_string_slice() {
    let g = Grapheme::try_from("é").unwrap();
    let s: &str = g.as_ref();
    assert_eq!("é", s);
    assert_eq!(2, g.len());
    assert!(g.starts_with('é'));
}

#[test]
fn documented_examples() {
    let chars: Vec<&str> = graphemes("邊\u{E0100}好").collect();
    assert_eq!(vec!["邊\u{E0100}", "好"], chars);
    let ch = Grapheme::try_from("邊\u{E0100}").unwrap();
    assert_eq!("邊\u{E0100}", ch.as_str());
}

#[test]
fn graphemes_sort_in_byte_order_of_their_text() {
    let mut v = vec![
        Grapheme::try_from("b").unwrap(),
        Grapheme::try_from("ab").unwrap(),
        Grapheme::try_from("a").unwrap(),
        Grapheme::try_from("a\u{0}").unwrap(),
    ];
    v.sort();
    let texts: Vec<&str> = v.iter().map(|g| g.as_str()).collect();
    assert_eq!(vec!["a", "a\u{0}", "ab", "b"], texts);
    assert_eq!(
        Some(std::cmp::Ordering::Less),
        Grapheme::from('a').partial_cmp(&Grapheme::from('b'))
    );
    assert_eq!(std::cmp::Ordering::Less, Grapheme::from('a').cmp(&Grapheme::from('b')));
}
