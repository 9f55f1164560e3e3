use chewing::zhuyin::{Bopomofo, BopomofoError, BopomofoKind, Syllable, SyllableError};

#[test]
fn bopomofo_from_char() {
    assert_eq!(Ok(Bopomofo::B), Bopomofo::try_from('ㄅ'));
    assert_eq!(Ok(Bopomofo::I), Bopomofo::try_from('ㄧ'));
    assert_eq!(Ok(Bopomofo::ER), Bopomofo::try_from('ㄦ'));
    assert_eq!(Ok(Bopomofo::TONE4), Bopomofo::try_from('ˋ'));
    assert_eq!(Err(BopomofoError { ch: '一' }), Bopomofo::try_from('一'));
}

#[test]
fn bopomofo_kinds() {
    assert_eq!(BopomofoKind::Initial, Bopomofo::ZH.kind());
    assert_eq!(BopomofoKind::Medial, Bopomofo::IU.kind());
    assert_eq!(BopomofoKind::Rime, Bopomofo::ENG.kind());
    assert_eq!(BopomofoKind::Tone, Bopomofo::TONE5.kind());
}

#[test]
fn syllable_symbols_come_in_order() {
    let b = Syllable::builder().insert(Bopomofo::I).unwrap();
    assert_eq!(Err(SyllableError { symbol: Bopomofo::B }), b.insert(Bopomofo::B).map(|b| b.build()));
    assert_eq!(Err(SyllableError { symbol: Bopomofo::U }), b.insert(Bopomofo::U).map(|b| b.build()));
    let s = b.insert(Bopomofo::AU).unwrap().insert(Bopomofo::TONE4).unwrap().build();
    assert!(!s.is_empty());
    assert!(Syllable::new().is_empty());
    assert_eq!(Syllable::default(), Syllable::new());
}
