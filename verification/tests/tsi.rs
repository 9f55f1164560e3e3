use chewing::tsi::{
    fix_common_syllable_errors, length_stats, parse_line, FrontMatter, MetadataKey, ParseLineError,
    SourceLine, SourceReader,
};
use chewing::zhuyin::Bopomofo::{self, A, AN, AU, CH, D, ENG, I, IU, T, TONE2, TONE3, TONE4};
use chewing::zhuyin::Syllable;

fn syl(symbols: &[Bopomofo]) -> Syllable {
    let mut builder = Syllable::builder();
    for &b in symbols {
        builder = builder.insert(b).unwrap();
    }
    builder.build()
}

#[test]
fn parse_ssv() {
    let line = "鑰匙 668 ㄧㄠˋ ㄔˊ # not official";
    if let Ok((syllables, phrase, freq)) = parse_line(' ', &line, false) {
        assert_eq!(syllables, vec![syl(&[I, AU, TONE4]), syl(&[CH, TONE2])]);
        assert_eq!("鑰匙", phrase);
        assert_eq!(668, freq);
    } else {
        panic!()
    }
}

#[test]
fn parse_ssv_multiple_whitespace() {
    let line = "鑰匙     668 ㄧㄠˋ ㄔˊ # not official";
    if let Ok((syllables, phrase, freq)) = parse_line(' ', &line, false) {
        assert_eq!(syllables, vec![syl(&[I, AU, TONE4]), syl(&[CH, TONE2])]);
        assert_eq!("鑰匙", phrase);
        assert_eq!(668, freq);
    } else {
        panic!()
    }
}

#[test]
fn parse_ssv_syllable_errors() {
    let line = "地永天長 50 ㄉ一ˋ ㄩㄥˇ ㄊ一ㄢ ㄔ丫ˊ";
    if let Ok((syllables, phrase, freq)) = parse_line(' ', &line, true) {
        assert_eq!(
            syllables,
            vec![
                syl(&[D, I, TONE4]),
                syl(&[IU, ENG, TONE3]),
                syl(&[T, I, AN]),
                syl(&[CH, A, TONE2])
            ]
        );
        assert_eq!("地永天長", phrase);
        assert_eq!(50, freq);
    } else {
        panic!()
    }
}

#[test]
fn parse_csv() {
    let line = "鑰匙,668,ㄧㄠˋ ㄔˊ # not official";
    if let Ok((syllables, phrase, freq)) = parse_line(',', &line, false) {
        assert_eq!(syllables, vec![syl(&[I, AU, TONE4]), syl(&[CH, TONE2])]);
        assert_eq!("鑰匙", phrase);
        assert_eq!(668, freq);
    } else {
        panic!()
    }
}

#[test]
fn parse_csv_quoted() {
    let line = "\"鑰匙\",668,\"ㄧㄠˋ ㄔˊ # not official\"";
    if let Ok((syllables, phrase, freq)) = parse_line(',', &line, false) {
        assert_eq!(syllables, vec![syl(&[I, AU, TONE4]), syl(&[CH, TONE2])]);
        assert_eq!("鑰匙", phrase);
        assert_eq!(668, freq);
    } else {
        panic!()
    }
}

#[test]
fn parse_line_reports_missing_fields() {
    assert_eq!(Err(ParseLineError::MissingPhrase), parse_line(' ', "   ", false).map(|r| r.2));
    assert_eq!(Err(ParseLineError::MissingFrequency), parse_line(' ', "鑰匙", false).map(|r| r.2));
    assert_eq!(Err(ParseLineError::InvalidFrequency), parse_line(' ', "鑰匙 x1 ㄧㄠˋ", false).map(|r| r.2));
    assert_eq!(
        Err(ParseLineError::InvalidFrequency),
        parse_line(' ', "鑰匙 4294967296 ㄧㄠˋ", false).map(|r| r.2)
    );
    assert_eq!(Ok(4294967295), parse_line(' ', "鑰匙 +4294967295", false).map(|r| r.2));
}

#[test]
fn parse_line_reports_bad_syllables() {
    assert_eq!(
        Err(ParseLineError::InvalidBopomofo('一')),
        parse_line(' ', "地 50 ㄉ一ˋ", false).map(|r| r.2)
    );
    assert_eq!(
        Err(ParseLineError::InvalidSyllable(Bopomofo::I)),
        parse_line(' ', "地 50 ˋㄧ", false).map(|r| r.2)
    );
    assert_eq!('ㄧ', fix_common_syllable_errors('一'));
    assert_eq!('ㄚ', fix_common_syllable_errors('丫'));
    assert_eq!('a', fix_common_syllable_errors('a'));
}

#[test]
fn source_reader_reads_front_matter_then_phrases() {
    let mut reader = SourceReader::new();
    match reader.classify(' ', "# dc:title  酷音詞庫  ", false) {
        SourceLine::Metadata(MetadataKey::Title, value) => assert_eq!(" 酷音詞庫", value),
        other => panic!("{:?}", other),
    }
    match reader.classify(',', "#dc:rights,CC0,,", false) {
        SourceLine::Metadata(MetadataKey::Rights, value) => assert_eq!("CC0", value),
        other => panic!("{:?}", other),
    }
    match reader.classify(' ', "# dc:source x", false) {
        SourceLine::Metadata(MetadataKey::Other, value) => assert_eq!("x", value),
        other => panic!("{:?}", other),
    }
    assert!(matches!(reader.classify(' ', "#nodelimiter", false), SourceLine::InvalidMetadata));
    assert!(matches!(reader.classify(' ', "   \t", false), SourceLine::Blank));
    match reader.classify(' ', "  鑰匙 668 ㄧㄠˋ ㄔˊ  ", false) {
        SourceLine::Entry(syllables, phrase, freq) => {
            assert_eq!(syllables, vec![syl(&[I, AU, TONE4]), syl(&[CH, TONE2])]);
            assert_eq!("鑰匙", phrase);
            assert_eq!(668, freq);
        }
        other => panic!("{:?}", other),
    }
    assert!(matches!(reader.classify(' ', "# dc:title other", false), SourceLine::Comment));
    assert!(matches!(reader.classify(' ', "地 50 ㄉㄧˋ ㄉㄧˋ", false), SourceLine::WordCountMismatch));
    assert!(matches!(
        reader.classify(' ', "鑰匙", false),
        SourceLine::Invalid(ParseLineError::MissingFrequency)
    ));
}

#[test]
fn source_reader_without_front_matter() {
    let mut reader = SourceReader::new();
    match reader.classify(',', "鑰匙,668,ㄧㄠˋ ㄔˊ", false) {
        SourceLine::Entry(_, phrase, 668) => assert_eq!("鑰匙", phrase),
        other => panic!("{:?}", other),
    }
    assert!(matches!(reader.classify(',', "# later", false), SourceLine::Comment));
}

#[test]
fn length_stats_groups_rows_by_phrase() {
    let groups: Vec<Vec<(u32, usize)>> = vec![
        vec![(10, 2)],
        vec![(5, 1), (5, 1)],
        vec![(3, 2), (4, 3)],
        vec![(7, 8)],
    ];
    let stats = length_stats(&groups);
    assert_eq!(29, stats.d);
    assert_eq!(vec![0, 1, 2, 0, 0, 0, 1], stats.len_counts);
    assert_eq!(1, stats.n_aggregate);
    assert_eq!(1, stats.n_per_reading);
    assert_eq!(1, stats.n_mixed_len);
    assert_eq!(6, stats.total_rows);
}

#[test]
fn length_stats_cuts_summed_frequency_to_32_bits() {
    let groups: Vec<Vec<(u32, usize)>> = vec![vec![(u32::MAX, 1), (1, 1)], vec![]];
    let stats = length_stats(&groups);
    assert_eq!(0, stats.d);
    assert_eq!(vec![0, 1, 0, 0, 0, 0, 1], stats.len_counts);
    assert_eq!(0, stats.n_aggregate);
    assert_eq!(1, stats.n_per_reading);
    assert_eq!(0, stats.n_mixed_len);
    assert_eq!(2, stats.total_rows);
}

#[test]
fn front_matter_keeps_the_value_of_each_known_key() {
    let mut front = FrontMatter {
        name: "n".to_string(),
        copyright: "c".to_string(),
        license: "l".to_string(),
        version: "v".to_string(),
        usage: "u".to_string(),
    };
    front.set(MetadataKey::Title, "酷音".to_string());
    front.set(MetadataKey::Type, "system".to_string());
    front.set(MetadataKey::Other, "x".to_string());
    assert_eq!("酷音", front.name);
    assert_eq!("c", front.copyright);
    assert_eq!("l", front.license);
    assert_eq!("v", front.version);
    assert_eq!("system", front.usage);
    front.set(MetadataKey::Rights, "CC0".to_string());
    front.set(MetadataKey::License, "MIT".to_string());
    front.set(MetadataKey::Identifier, "1.0".to_string());
    assert_eq!("CC0", front.copyright);
    assert_eq!("MIT", front.license);
    assert_eq!("1.0", front.version);
}
