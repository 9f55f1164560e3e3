//! Zhuyin (Bopomofo) symbols and the syllables they make.
use vstd::prelude::*;

verus! {

/// One Zhuyin symbol.
#[allow(non_camel_case_types, clippy::upper_case_acronyms)]
#[derive(Clone, Copy, Debug, PartialEq, Eq, Structural, Hash)]
pub enum Bopomofo {
    /// ㄅ
    B,
    /// ㄆ
    P,
    /// ㄇ
    M,
    /// ㄈ
    F,
    /// ㄉ
    D,
    /// ㄊ
    T,
    /// ㄋ
    N,
    /// ㄌ
    L,
    /// ㄍ
    G,
    /// ㄎ
    K,
    /// ㄏ
    H,
    /// ㄐ
    J,
    /// ㄑ
    Q,
    /// ㄒ
    X,
    /// ㄓ
    ZH,
    /// ㄔ
    CH,
    /// ㄕ
    SH,
    /// ㄖ
    R,
    /// ㄗ
    Z,
    /// ㄘ
    C,
    /// ㄙ
    S,
    /// ㄧ
    I,
    /// ㄨ
    U,
    /// ㄩ
    IU,
    /// ㄚ
    A,
    /// ㄛ
    O,
    /// ㄜ
    E,
    /// ㄝ
    EH,
    /// ㄞ
    AI,
    /// ㄟ
    EI,
    /// ㄠ
    AU,
    /// ㄡ
    OU,
    /// ㄢ
    AN,
    /// ㄣ
    EN,
    /// ㄤ
    ANG,
    /// ㄥ
    ENG,
    /// ㄦ
    ER,
    /// ˉ
    TONE1,
    /// ˊ
    TONE2,
    /// ˇ
    TONE3,
    /// ˋ
    TONE4,
    /// ˙
    TONE5,
}

/// The part of a syllable that a Zhuyin symbol belongs to.
#[derive(Clone, Copy, Debug, PartialEq, Eq, Structural, Hash)]
pub enum BopomofoKind {
    Initial,
    Medial,
    Rime,
    Tone,
}

/// The position of a kind in a syllable: initial, medial, rime, tone.
pub open spec fn kind_index(kind: BopomofoKind) -> nat {
    match kind {
        BopomofoKind::Initial => 0,
        BopomofoKind::Medial => 1,
        BopomofoKind::Rime => 2,
        BopomofoKind::Tone => 3,
    }
}

/// The kind of a Zhuyin symbol.
pub open spec fn bopomofo_kind(b: Bopomofo) -> BopomofoKind {
    match b {
        Bopomofo::B => BopomofoKind::Initial,
        Bopomofo::P => BopomofoKind::Initial,
        Bopomofo::M => BopomofoKind::Initial,
        Bopomofo::F => BopomofoKind::Initial,
        Bopomofo::D => BopomofoKind::Initial,
        Bopomofo::T => BopomofoKind::Initial,
        Bopomofo::N => BopomofoKind::Initial,
        Bopomofo::L => BopomofoKind::Initial,
        Bopomofo::G => BopomofoKind::Initial,
        Bopomofo::K => BopomofoKind::Initial,
        Bopomofo::H => BopomofoKind::Initial,
        Bopomofo::J => BopomofoKind::Initial,
        Bopomofo::Q => BopomofoKind::Initial,
        Bopomofo::X => BopomofoKind::Initial,
        Bopomofo::ZH => BopomofoKind::Initial,
        Bopomofo::CH => BopomofoKind::Initial,
        Bopomofo::SH => BopomofoKind::Initial,
        Bopomofo::R => BopomofoKind::Initial,
        Bopomofo::Z => BopomofoKind::Initial,
        Bopomofo::C => BopomofoKind::Initial,
        Bopomofo::S => BopomofoKind::Initial,
        Bopomofo::I => BopomofoKind::Medial,
        Bopomofo::U => BopomofoKind::Medial,
        Bopomofo::IU => BopomofoKind::Medial,
        Bopomofo::A => BopomofoKind::Rime,
        Bopomofo::O => BopomofoKind::Rime,
        Bopomofo::E => BopomofoKind::Rime,
        Bopomofo::EH => BopomofoKind::Rime,
        Bopomofo::AI => BopomofoKind::Rime,
        Bopomofo::EI => BopomofoKind::Rime,
        Bopomofo::AU => BopomofoKind::Rime,
        Bopomofo::OU => BopomofoKind::Rime,
        Bopomofo::AN => BopomofoKind::Rime,
        Bopomofo::EN => BopomofoKind::Rime,
        Bopomofo::ANG => BopomofoKind::Rime,
        Bopomofo::ENG => BopomofoKind::Rime,
        Bopomofo::ER => BopomofoKind::Rime,
        Bopomofo::TONE1 => BopomofoKind::Tone,
        Bopomofo::TONE2 => BopomofoKind::Tone,
        Bopomofo::TONE3 => BopomofoKind::Tone,
        Bopomofo::TONE4 => BopomofoKind::Tone,
        Bopomofo::TONE5 => BopomofoKind::Tone,
    }
}

/// The Zhuyin symbol written as `c`, if any.
pub open spec fn bopomofo_of_char(c: char) -> Option<Bopomofo> {
    if c == '\u{3105}' {
        Some(Bopomofo::B)
    } else if c == '\u{3106}' {
        Some(Bopomofo::P)
    } else if c == '\u{3107}' {
        Some(Bopomofo::M)
    } else if c == '\u{3108}' {
        Some(Bopomofo::F)
    } else if c == '\u{3109}' {
        Some(Bopomofo::D)
    } else if c == '\u{310A}' {
        Some(Bopomofo::T)
    } else if c == '\u{310B}' {
        Some(Bopomofo::N)
    } else if c == '\u{310C}' {
        Some(Bopomofo::L)
    } else if c == '\u{310D}' {
        Some(Bopomofo::G)
    } else if c == '\u{310E}' {
        Some(Bopomofo::K)
    } else if c == '\u{310F}' {
        Some(Bopomofo::H)
    } else if c == '\u{3110}' {
        Some(Bopomofo::J)
    } else if c == '\u{3111}' {
        Some(Bopomofo::Q)
    } else if c == '\u{3112}' {
        Some(Bopomofo::X)
    } else if c == '\u{3113}' {
        Some(Bopomofo::ZH)
    } else if c == '\u{3114}' {
        Some(Bopomofo::CH)
    } else if c == '\u{3115}' {
        Some(Bopomofo::SH)
    } else if c == '\u{3116}' {
        Some(Bopomofo::R)
    } else if c == '\u{3117}' {
        Some(Bopomofo::Z)
    } else if c == '\u{3118}' {
        Some(Bopomofo::C)
    } else if c == '\u{3119}' {
        Some(Bopomofo::S)
    } else if c == '\u{3127}' {
        Some(Bopomofo::I)
    } else if c == '\u{3128}' {
        Some(Bopomofo::U)
    } else if c == '\u{3129}' {
        Some(Bopomofo::IU)
    } else if c == '\u{311A}' {
        Some(Bopomofo::A)
    } else if c == '\u{311B}' {
        Some(Bopomofo::O)
    } else if c == '\u{311C}' {
        Some(Bopomofo::E)
    } else if c == '\u{311D}' {
        Some(Bopomofo::EH)
    } else if c == '\u{311E}' {
        Some(Bopomofo::AI)
    } else if c == '\u{311F}' {
        Some(Bopomofo::EI)
    } else if c == '\u{3120}' {
        Some(Bopomofo::AU)
    } else if c == '\u{3121}' {
        Some(Bopomofo::OU)
    } else if c == '\u{3122}' {
        Some(Bopomofo::AN)
    } else if c == '\u{3123}' {
        Some(Bopomofo::EN)
    } else if c == '\u{3124}' {
        Some(Bopomofo::ANG)
    } else if c == '\u{3125}' {
        Some(Bopomofo::ENG)
    } else if c == '\u{3126}' {
        Some(Bopomofo::ER)
    } else if c == '\u{02C9}' {
        Some(Bopomofo::TONE1)
    } else if c == '\u{02CA}' {
        Some(Bopomofo::TONE2)
    } else if c == '\u{02C7}' {
        Some(Bopomofo::TONE3)
    } else if c == '\u{02CB}' {
        Some(Bopomofo::TONE4)
    } else if c == '\u{02D9}' {
        Some(Bopomofo::TONE5)
    } else {
        None
    }
}

/// The error returned for a character that is not a Zhuyin symbol.
#[derive(Clone, Copy, Debug, PartialEq, Eq, Structural)]
pub struct BopomofoError {
    /// The character that is not a Zhuyin symbol.
    pub ch: char,
}

impl Bopomofo {
    /// The kind of the symbol.
    pub fn kind(&self) -> (res: BopomofoKind)
        ensures
            res == bopomofo_kind(*self),
    {
        match self {
            Bopomofo::B => BopomofoKind::Initial,
            Bopomofo::P => BopomofoKind::Initial,
            Bopomofo::M => BopomofoKind::Initial,
            Bopomofo::F => BopomofoKind::Initial,
            Bopomofo::D => BopomofoKind::Initial,
            Bopomofo::T => BopomofoKind::Initial,
            Bopomofo::N => BopomofoKind::Initial,
            Bopomofo::L => BopomofoKind::Initial,
            Bopomofo::G => BopomofoKind::Initial,
            Bopomofo::K => BopomofoKind::Initial,
            Bopomofo::H => BopomofoKind::Initial,
            Bopomofo::J => BopomofoKind::Initial,
            Bopomofo::Q => BopomofoKind::Initial,
            Bopomofo::X => BopomofoKind::Initial,
            Bopomofo::ZH => BopomofoKind::Initial,
            Bopomofo::CH => BopomofoKind::Initial,
            Bopomofo::SH => BopomofoKind::Initial,
            Bopomofo::R => BopomofoKind::Initial,
            Bopomofo::Z => BopomofoKind::Initial,
            Bopomofo::C => BopomofoKind::Initial,
            Bopomofo::S => BopomofoKind::Initial,
            Bopomofo::I => BopomofoKind::Medial,
            Bopomofo::U => BopomofoKind::Medial,
            Bopomofo::IU => BopomofoKind::Medial,
            Bopomofo::A => BopomofoKind::Rime,
            Bopomofo::O => BopomofoKind::Rime,
            Bopomofo::E => BopomofoKind::Rime,
            Bopomofo::EH => BopomofoKind::Rime,
            Bopomofo::AI => BopomofoKind::Rime,
            Bopomofo::EI => BopomofoKind::Rime,
            Bopomofo::AU => BopomofoKind::Rime,
            Bopomofo::OU => BopomofoKind::Rime,
            Bopomofo::AN => BopomofoKind::Rime,
            Bopomofo::EN => BopomofoKind::Rime,
            Bopomofo::ANG => BopomofoKind::Rime,
            Bopomofo::ENG => BopomofoKind::Rime,
            Bopomofo::ER => BopomofoKind::Rime,
            Bopomofo::TONE1 => BopomofoKind::Tone,
            Bopomofo::TONE2 => BopomofoKind::Tone,
            Bopomofo::TONE3 => BopomofoKind::Tone,
            Bopomofo::TONE4 => BopomofoKind::Tone,
            Bopomofo::TONE5 => BopomofoKind::Tone,
        }
    }
}

impl TryFrom<char> for Bopomofo {
    type Error = BopomofoError;

    /// The Zhuyin symbol written as `value`.
    fn try_from(value: char) -> (res: Result<Bopomofo, BopomofoError>) {
        if value == '\u{3105}' {
            Ok(Bopomofo::B)
        } else if value == '\u{3106}' {
            Ok(Bopomofo::P)
        } else if value == '\u{3107}' {
            Ok(Bopomofo::M)
        } else if value == '\u{3108}' {
            Ok(Bopomofo::F)
        } else if value == '\u{3109}' {
            Ok(Bopomofo::D)
        } else if value == '\u{310A}' {
            Ok(Bopomofo::T)
        } else if value == '\u{310B}' {
            Ok(Bopomofo::N)
        } else if value == '\u{310C}' {
            Ok(Bopomofo::L)
        } else if value == '\u{310D}' {
            Ok(Bopomofo::G)
        } else if value == '\u{310E}' {
            Ok(Bopomofo::K)
        } else if value == '\u{310F}' {
            Ok(Bopomofo::H)
        } else if value == '\u{3110}' {
            Ok(Bopomofo::J)
        } else if value == '\u{3111}' {
            Ok(Bopomofo::Q)
        } else if value == '\u{3112}' {
            Ok(Bopomofo::X)
        } else if value == '\u{3113}' {
            Ok(Bopomofo::ZH)
        } else if value == '\u{3114}' {
            Ok(Bopomofo::CH)
        } else if value == '\u{3115}' {
            Ok(Bopomofo::SH)
        } else if value == '\u{3116}' {
            Ok(Bopomofo::R)
        } else if value == '\u{3117}' {
            Ok(Bopomofo::Z)
        } else if value == '\u{3118}' {
            Ok(Bopomofo::C)
        } else if value == '\u{3119}' {
            Ok(Bopomofo::S)
        } else if value == '\u{3127}' {
            Ok(Bopomofo::I)
        } else if value == '\u{3128}' {
            Ok(Bopomofo::U)
        } else if value == '\u{3129}' {
            Ok(Bopomofo::IU)
        } else if value == '\u{311A}' {
            Ok(Bopomofo::A)
        } else if value == '\u{311B}' {
            Ok(Bopomofo::O)
        } else if value == '\u{311C}' {
            Ok(Bopomofo::E)
        } else if value == '\u{311D}' {
            Ok(Bopomofo::EH)
        } else if value == '\u{311E}' {
            Ok(Bopomofo::AI)
        } else if value == '\u{311F}' {
            Ok(Bopomofo::EI)
        } else if value == '\u{3120}' {
            Ok(Bopomofo::AU)
        } else if value == '\u{3121}' {
            Ok(Bopomofo::OU)
        } else if value == '\u{3122}' {
            Ok(Bopomofo::AN)
        } else if value == '\u{3123}' {
            Ok(Bopomofo::EN)
        } else if value == '\u{3124}' {
            Ok(Bopomofo::ANG)
        } else if value == '\u{3125}' {
            Ok(Bopomofo::ENG)
        } else if value == '\u{3126}' {
            Ok(Bopomofo::ER)
        } else if value == '\u{02C9}' {
            Ok(Bopomofo::TONE1)
        } else if value == '\u{02CA}' {
            Ok(Bopomofo::TONE2)
        } else if value == '\u{02C7}' {
            Ok(Bopomofo::TONE3)
        } else if value == '\u{02CB}' {
            Ok(Bopomofo::TONE4)
        } else if value == '\u{02D9}' {
            Ok(Bopomofo::TONE5)
        } else {
            Err(BopomofoError { ch: value })
        }
    }
}

impl vstd::std_specs::convert::TryFromSpecImpl<char> for Bopomofo {
    open spec fn obeys_try_from_spec() -> bool {
        true
    }

    open spec fn try_from_spec(v: char) -> Result<Bopomofo, BopomofoError> {
        match bopomofo_of_char(v) {
            Some(b) => Ok(b),
            None => Err(BopomofoError { ch: v }),
        }
    }
}

/// The Zhuyin symbols of an optional slot.
pub open spec fn slot_seq(slot: Option<Bopomofo>) -> Seq<Bopomofo> {
    match slot {
        Some(b) => seq![b],
        None => Seq::empty(),
    }
}

/// Whether the kinds of the symbols strictly increase: at most one symbol of
/// each kind, in the order initial, medial, rime, tone.
pub open spec fn well_ordered(s: Seq<Bopomofo>) -> bool {
    forall|i: int, j: int|
        0 <= i < j < s.len() ==> kind_index(bopomofo_kind(#[trigger] s[i])) < kind_index(
            bopomofo_kind(#[trigger] s[j]),
        )
}

/// Whether the symbol `b` may follow the symbols `s` in a syllable.
pub open spec fn can_follow(s: Seq<Bopomofo>, b: Bopomofo) -> bool {
    s.len() == 0 || kind_index(bopomofo_kind(s.last())) < kind_index(bopomofo_kind(b))
}

/// A Zhuyin syllable: at most one initial, one medial, one rime and one tone.
#[derive(Clone, Copy, Debug, PartialEq, Eq, Structural, Hash)]
pub struct Syllable {
    initial: Option<Bopomofo>,
    medial: Option<Bopomofo>,
    rime: Option<Bopomofo>,
    tone: Option<Bopomofo>,
}

impl View for Syllable {
    type V = Seq<Bopomofo>;

    /// The symbols of the syllable in order.
    closed spec fn view(&self) -> Seq<Bopomofo> {
        slot_seq(self.initial) + slot_seq(self.medial) + slot_seq(self.rime) + slot_seq(self.tone)
    }
}

impl Syllable {
    #[verifier::type_invariant]
    spec fn slots_hold_their_kind(self) -> bool {
        &&& (self.initial matches Some(b) ==> bopomofo_kind(b) == BopomofoKind::Initial)
        &&& (self.medial matches Some(b) ==> bopomofo_kind(b) == BopomofoKind::Medial)
        &&& (self.rime matches Some(b) ==> bopomofo_kind(b) == BopomofoKind::Rime)
        &&& (self.tone matches Some(b) ==> bopomofo_kind(b) == BopomofoKind::Tone)
    }

    proof fn lemma_view_well_ordered(self)
        requires
            self.slots_hold_their_kind(),
        ensures
            well_ordered(self@),
            self@.len() <= 4,
    {
        let v = self@;
        assert forall|i: int, j: int| 0 <= i < j < v.len() implies kind_index(
            bopomofo_kind(#[trigger] v[i]),
        ) < kind_index(bopomofo_kind(#[trigger] v[j])) by {
            let a = slot_seq(self.initial);
            let b = slot_seq(self.medial);
            let c = slot_seq(self.rime);
            let d = slot_seq(self.tone);
            assert(v == a + b + c + d);
        }
    }

    /// The empty syllable.
    pub fn new() -> (res: Syllable)
        ensures
            res@ == Seq::<Bopomofo>::empty(),
    {
        let res = Syllable { initial: None, medial: None, rime: None, tone: None };
        assert(res@ =~= Seq::<Bopomofo>::empty());
        res
    }

    /// Starts building a syllable one symbol at a time.
    pub fn builder() -> (res: SyllableBuilder)
        ensures
            res@ == Seq::<Bopomofo>::empty(),
    {
        SyllableBuilder { syllable: Syllable::new() }
    }

    /// Whether the syllable has no symbol.
    pub fn is_empty(&self) -> (res: bool)
        ensures
            res == (self@.len() == 0),
    {
        self.initial.is_none() && self.medial.is_none() && self.rime.is_none()
            && self.tone.is_none()
    }
}

impl Default for Syllable {
    /// The empty syllable.
    fn default() -> (res: Syllable)
        ensures
            res@ == Seq::<Bopomofo>::empty(),
    {
        Syllable::new()
    }
}

/// The error returned when a symbol cannot follow the symbols already in a
/// syllable: its kind is already there, or comes earlier.
#[derive(Clone, Copy, Debug, PartialEq, Eq, Structural)]
pub struct SyllableError {
    /// The symbol that was refused.
    pub symbol: Bopomofo,
}

/// Builds a syllable one symbol at a time.
#[derive(Clone, Copy, Debug)]
pub struct SyllableBuilder {
    syllable: Syllable,
}

impl View for SyllableBuilder {
    type V = Seq<Bopomofo>;

    /// The symbols inserted so far.
    closed spec fn view(&self) -> Seq<Bopomofo> {
        self.syllable@
    }
}

impl SyllableBuilder {
    /// Adds a symbol after the ones already there. Fails when the syllable
    /// already holds a symbol of the same kind or of a later kind.
    pub fn insert(self, bopomofo: Bopomofo) -> (res: Result<SyllableBuilder, SyllableError>)
        ensures
            res is Ok <==> can_follow(self@, bopomofo),
            res matches Ok(b) ==> b@ == self@.push(bopomofo),
            res matches Err(e) ==> e.symbol == bopomofo,
    {
        let syl = self.syllable;
        proof {
            use_type_invariant(&syl);
            syl.lemma_view_well_ordered();
        }
        let ghost v = syl@;
        let ghost a = slot_seq(syl.initial);
        let ghost b = slot_seq(syl.medial);
        let ghost c = slot_seq(syl.rime);
        let ghost d = slot_seq(syl.tone);
        assert(v == a + b + c + d);
        let kind = bopomofo.kind();
        match kind {
            BopomofoKind::Initial => {
                if syl.initial.is_some() || syl.medial.is_some() || syl.rime.is_some()
                    || syl.tone.is_some() {
                    return Err(SyllableError { symbol: bopomofo });
                }
                let n = Syllable { initial: Some(bopomofo), ..syl };
                assert(n@ =~= v.push(bopomofo));
                Ok(SyllableBuilder { syllable: n })
            },
            BopomofoKind::Medial => {
                if syl.medial.is_some() || syl.rime.is_some() || syl.tone.is_some() {
                    return Err(SyllableError { symbol: bopomofo });
                }
                let n = Syllable { medial: Some(bopomofo), ..syl };
                assert(n@ =~= v.push(bopomofo));
                Ok(SyllableBuilder { syllable: n })
            },
            BopomofoKind::Rime => {
                if syl.rime.is_some() || syl.tone.is_some() {
                    return Err(SyllableError { symbol: bopomofo });
                }
                let n = Syllable { rime: Some(bopomofo), ..syl };
                assert(n@ =~= v.push(bopomofo));
                Ok(SyllableBuilder { syllable: n })
            },
            BopomofoKind::Tone => {
                if syl.tone.is_some() {
                    return Err(SyllableError { symbol: bopomofo });
                }
                let n = Syllable { tone: Some(bopomofo), ..syl };
                assert(n@ =~= v.push(bopomofo));
                Ok(SyllableBuilder { syllable: n })
            },
        }
    }

    /// The syllable made of the inserted symbols.
    pub fn build(self) -> (res: Syllable)
        ensures
            res@ == self@,
            well_ordered(res@),
    {
        proof {
            use_type_invariant(&self.syllable);
            self.syllable.lemma_view_well_ordered();
        }
        self.syllable
    }
}

} // verus!
