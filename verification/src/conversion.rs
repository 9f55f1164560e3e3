//! Symbols of a composition and the intervals a conversion splits it into.
use vstd::prelude::*;
use vstd::string::StringExecFns;

use crate::grapheme::grapheme_of;
use crate::grapheme::Grapheme;
use crate::zhuyin::Syllable;

verus! {

/// One unit of the pre-edit buffer: a Zhuyin syllable or a user perceived
/// character typed as is.
#[derive(Clone, Copy, Debug)]
pub enum Symbol {
    Syllable(Syllable),
    Char(Grapheme),
}

/// The text of a symbol that is a character, `None` for a syllable.
pub open spec fn symbol_text(s: Symbol) -> Option<Seq<char>> {
    match s {
        Symbol::Char(g) => Some(g@),
        Symbol::Syllable(_) => None,
    }
}

/// Two symbols are equal when they are the same syllable or the same text.
pub open spec fn same_symbol(a: Symbol, b: Symbol) -> bool {
    match (a, b) {
        (Symbol::Syllable(x), Symbol::Syllable(y)) => x == y,
        (Symbol::Char(x), Symbol::Char(y)) => x@ == y@,
        _ => false,
    }
}

impl Symbol {
    /// Whether the symbol is a character.
    pub fn is_char(&self) -> (res: bool)
        ensures
            res == (*self is Char),
    {
        match self {
            Symbol::Char(_) => true,
            Symbol::Syllable(_) => false,
        }
    }

    /// Whether the symbol is a syllable.
    pub fn is_syllable(&self) -> (res: bool)
        ensures
            res == (*self is Syllable),
    {
        match self {
            Symbol::Char(_) => false,
            Symbol::Syllable(_) => true,
        }
    }

    /// The syllable, if the symbol is one.
    pub fn to_syllable(&self) -> (res: Option<Syllable>)
        ensures
            res == (match *self {
                Symbol::Syllable(s) => Some(s),
                Symbol::Char(_) => None,
            }),
    {
        match self {
            Symbol::Syllable(s) => Some(*s),
            Symbol::Char(_) => None,
        }
    }

    /// The text of the symbol, if it is a character.
    pub fn as_str(&self) -> (res: Option<&str>)
        ensures
            res is Some <==> symbol_text(*self) is Some,
            res matches Some(t) ==> symbol_text(*self) == Some(t@),
    {
        match self {
            Symbol::Char(g) => Some(g.as_str()),
            Symbol::Syllable(_) => None,
        }
    }

    /// The codepoint, if the symbol is a character made of one codepoint.
    pub fn to_char(&self) -> (res: Option<char>)
        ensures
            res == (match *self {
                Symbol::Char(g) => if g@.len() == 1 {
                    Some(g@[0])
                } else {
                    None
                },
                Symbol::Syllable(_) => None,
            }),
    {
        match self {
            Symbol::Char(g) => {
                let s = g.as_str();
                if s.unicode_len() == 1 {
                    Some(s.get_char(0))
                } else {
                    None
                }
            },
            Symbol::Syllable(_) => None,
        }
    }
}

impl PartialEq for Symbol {
    fn eq(&self, other: &Symbol) -> (res: bool) {
        match (self, other) {
            (Symbol::Syllable(a), Symbol::Syllable(b)) => a == b,
            (Symbol::Char(a), Symbol::Char(b)) => a == b,
            _ => false,
        }
    }
}

impl vstd::std_specs::cmp::PartialEqSpecImpl for Symbol {
    open spec fn obeys_eq_spec() -> bool {
        true
    }

    open spec fn eq_spec(&self, other: &Symbol) -> bool {
        same_symbol(*self, *other)
    }
}

impl Eq for Symbol {}

impl From<char> for Symbol {
    /// The symbol of a character made of one codepoint.
    fn from(value: char) -> (res: Symbol) {
        Symbol::Char(Grapheme::from(value))
    }
}

impl vstd::std_specs::convert::FromSpecImpl<char> for Symbol {
    open spec fn obeys_from_spec() -> bool {
        true
    }

    open spec fn from_spec(v: char) -> Symbol {
        Symbol::Char(grapheme_of(seq![v]))
    }
}

impl From<Grapheme> for Symbol {
    /// The symbol of a user perceived character.
    fn from(value: Grapheme) -> (res: Symbol) {
        Symbol::Char(value)
    }
}

impl vstd::std_specs::convert::FromSpecImpl<Grapheme> for Symbol {
    open spec fn obeys_from_spec() -> bool {
        true
    }

    open spec fn from_spec(v: Grapheme) -> Symbol {
        Symbol::Char(v)
    }
}

impl From<Syllable> for Symbol {
    /// The symbol of a syllable.
    fn from(value: Syllable) -> (res: Symbol) {
        Symbol::Syllable(value)
    }
}

impl vstd::std_specs::convert::FromSpecImpl<Syllable> for Symbol {
    open spec fn obeys_from_spec() -> bool {
        true
    }

    open spec fn from_spec(v: Syllable) -> Symbol {
        Symbol::Syllable(v)
    }
}


/// What lies between two neighbouring symbols of a composition.
#[derive(Clone, Copy, Debug, PartialEq, Eq, Structural)]
pub enum Gap {
    /// No constraint.
    Murmur,
    /// The symbols never belong to the same phrase.
    Break,
    /// Phrases on either side are shown as one.
    Glue,
}

/// A run `[start, end)` of symbols converted to `text`.
#[derive(Debug, PartialEq, Eq)]
pub struct Interval {
    pub start: usize,
    pub end: usize,
    pub is_phrase: bool,
    pub text: String,
}

impl View for Interval {
    type V = (usize, usize, bool, Seq<char>);

    open spec fn view(&self) -> (usize, usize, bool, Seq<char>) {
        (self.start, self.end, self.is_phrase, self.text@)
    }
}

/// The view of each interval.
pub open spec fn interval_view() -> spec_fn(Interval) -> (usize, usize, bool, Seq<char>) {
    |i: Interval| i@
}

/// Whether `[a_start, a_end)` and `[b_start, b_end)` overlap.
pub open spec fn ranges_intersect(a_start: int, a_end: int, b_start: int, b_end: int) -> bool {
    (if a_start < b_start { b_start } else { a_start }) < (if a_end < b_end { a_end } else { b_end })
}

impl Clone for Interval {
    fn clone(&self) -> (res: Interval)
        ensures
            res@ == self@,
    {
        Interval {
            start: self.start,
            end: self.end,
            is_phrase: self.is_phrase,
            text: self.text.clone(),
        }
    }
}

impl Interval {
    /// Whether the interval overlaps `[start, end)`.
    pub fn intersect_range(&self, start: usize, end: usize) -> (res: bool)
        ensures
            res == ranges_intersect(self.start as int, self.end as int, start as int, end as int),
    {
        let lo = if self.start < start {
            start
        } else {
            self.start
        };
        let hi = if self.end < end {
            self.end
        } else {
            end
        };
        lo < hi
    }

    /// Whether the interval lies inside `[start, end)`.
    pub fn is_contained_by(&self, start: usize, end: usize) -> (res: bool)
        ensures
            res == (start <= self.start && self.end <= end),
    {
        start <= self.start && end >= self.end
    }
}

/// Whether a selection survives a new one over `[start, end)`: it does
/// when the two do not overlap.
pub open spec fn keeps_selection(start: usize, end: usize) -> spec_fn(
    (usize, usize, bool, Seq<char>),
) -> bool {
    |s: (usize, usize, bool, Seq<char>)| !ranges_intersect(s.0 as int, s.1 as int, start as int, end as int)
}

pub(crate) proof fn lemma_filter_take_step<A>(s: Seq<A>, i: int, pred: spec_fn(A) -> bool)
    requires
        0 <= i < s.len(),
    ensures
        s.take(i + 1).filter(pred) == (if pred(s[i]) {
            s.take(i).filter(pred).push(s[i])
        } else {
            s.take(i).filter(pred)
        }),
{
    reveal(Seq::filter);
    assert(s.take(i + 1).drop_last() =~= s.take(i));
    assert(s.take(i + 1).last() == s[i]);
}

/// The symbols typed so far, the gaps between them, and the intervals the
/// user has picked.
#[derive(Debug)]
pub struct Composition {
    symbols: Vec<Symbol>,
    gaps: Vec<Gap>,
    selections: Vec<Interval>,
}

impl Clone for Composition {
    fn clone(&self) -> (res: Composition)
        ensures
            res.symbols_spec() == self.symbols_spec(),
            forall|i: int| #[trigger] res.gap_spec(i) == self.gap_spec(i),
            res.selections_spec() == self.selections_spec(),
    {
        proof {
            use_type_invariant(self);
        }
        let symbols = self.symbols.clone();
        let gaps = self.gaps.clone();
        let selections = self.selections.clone();
        assert(symbols@ =~= self.symbols@);
        assert(gaps@ =~= self.gaps@);
        assert(selections@.map_values(interval_view()) =~= self.selections@.map_values(
            interval_view(),
        ));
        Composition { symbols, gaps, selections }
    }
}

impl Composition {
    #[verifier::type_invariant]
    spec fn one_gap_between_neighbours(self) -> bool {
        &&& if self.symbols@.len() == 0 {
            self.gaps@.len() == 0
        } else {
            self.gaps@.len() + 1 == self.symbols@.len()
        }
        &&& forall|k: int|
            0 <= k < self.selections@.len() ==> #[trigger] self.selections@[k].start
                <= self.selections@[k].end
    }

    /// The symbols.
    pub closed spec fn symbols_spec(self) -> Seq<Symbol> {
        self.symbols@
    }

    /// The gap before the symbol at index `i`, for `0 < i < len`.
    pub closed spec fn gap_spec(self, i: int) -> Option<Gap> {
        if 0 < i < self.symbols@.len() {
            Some(self.gaps@[i - 1])
        } else {
            None
        }
    }

    /// The selected intervals.
    pub closed spec fn selections_spec(self) -> Seq<(usize, usize, bool, Seq<char>)> {
        self.selections@.map_values(interval_view())
    }

    /// An empty composition.
    pub fn new() -> (res: Composition)
        ensures
            res.symbols_spec().len() == 0,
            res.selections_spec().len() == 0,
    {
        Composition { symbols: Vec::new(), gaps: Vec::new(), selections: Vec::new() }
    }

    /// The number of symbols.
    pub fn len(&self) -> (res: usize)
        ensures
            res == self.symbols_spec().len(),
    {
        self.symbols.len()
    }

    /// Whether there is no symbol.
    pub fn is_empty(&self) -> (res: bool)
        ensures
            res == (self.symbols_spec().len() == 0),
    {
        self.symbols.len() == 0
    }

    /// The symbols.
    pub fn symbols(&self) -> (res: &[Symbol])
        ensures
            res@ == self.symbols_spec(),
    {
        self.symbols.as_slice()
    }

    /// The selected intervals.
    pub fn selections(&self) -> (res: &[Interval])
        ensures
            res@.map_values(interval_view()) == self.selections_spec(),
    {
        self.selections.as_slice()
    }

    /// The gap before the symbol at index `index`, if there is a symbol on
    /// each side of it.
    pub fn gap(&self, index: usize) -> (res: Option<Gap>)
        ensures
            res == self.gap_spec(index as int),
    {
        proof {
            use_type_invariant(self);
        }
        if index == 0 || index >= self.symbols.len() {
            None
        } else {
            Some(self.gaps[index - 1])
        }
    }

    /// Appends a symbol; the new gap, if any, is a murmur.
    pub fn push(&mut self, symbol: Symbol)
        ensures
            final(self).symbols_spec() == old(self).symbols_spec().push(symbol),
            final(self).selections_spec() == old(self).selections_spec(),
            forall|i: int|
                0 < i < old(self).symbols_spec().len() ==> #[trigger] final(self).gap_spec(i)
                    == old(self).gap_spec(i),
            old(self).symbols_spec().len() > 0 ==> final(self).gap_spec(
                old(self).symbols_spec().len() as int,
            ) == Some(Gap::Murmur),
    {
        let mut taken = Composition::new();
        std::mem::swap(&mut taken, self);
        proof {
            use_type_invariant(&taken);
        }
        let Composition { mut symbols, mut gaps, selections } = taken;
        if symbols.len() > 0 {
            gaps.push(Gap::Murmur);
        }
        symbols.push(symbol);
        *self = Composition { symbols, gaps, selections };
    }

    /// Sets the gap before the symbol at index `index`.
    pub fn set_gap(&mut self, index: usize, gap: Gap)
        requires
            0 < index < old(self).symbols_spec().len(),
        ensures
            final(self).symbols_spec() == old(self).symbols_spec(),
            final(self).selections_spec() == old(self).selections_spec(),
            final(self).gap_spec(index as int) == Some(gap),
            forall|i: int| i != index ==> #[trigger] final(self).gap_spec(i) == old(self).gap_spec(i),
    {
        let mut taken = Composition::new();
        std::mem::swap(&mut taken, self);
        proof {
            use_type_invariant(&taken);
        }
        let Composition { symbols, mut gaps, selections } = taken;
        gaps.set(index - 1, gap);
        *self = Composition { symbols, gaps, selections };
    }

    /// Adds a selected interval. Earlier selections that overlap it are
    /// dropped.
    pub fn push_selection(&mut self, interval: Interval)
        requires
            interval.start <= interval.end,
        ensures
            final(self).symbols_spec() == old(self).symbols_spec(),
            forall|i: int| #[trigger] final(self).gap_spec(i) == old(self).gap_spec(i),
            final(self).selections_spec() == old(self).selections_spec().filter(
                keeps_selection(interval.start, interval.end),
            ).push(interval@),
    {
        proof {
            use_type_invariant(&*self);
        }
        let ghost pred = keeps_selection(interval.start, interval.end);
        let mut kept: Vec<Interval> = Vec::new();
        let mut i: usize = 0;
        while i < self.selections.len()
            invariant
                pred == keeps_selection(interval.start, interval.end),
                i <= self.selections@.len(),
                forall|k: int|
                    0 <= k < self.selections@.len() ==> #[trigger] self.selections@[k].start
                        <= self.selections@[k].end,
                forall|k: int|
                    0 <= k < kept@.len() ==> #[trigger] kept@[k].start <= kept@[k].end,
                kept@.map_values(interval_view()) == self.selections@.map_values(interval_view()).take(i as int).filter(pred),
            decreases self.selections@.len() - i,
        {
            let ghost sel = self.selections@.map_values(interval_view());
            proof {
                lemma_filter_take_step(sel, i as int, pred);
            }
            if !self.selections[i].intersect_range(interval.start, interval.end) {
                let ghost before = kept@;
                kept.push(self.selections[i].clone());
                assert(kept@.map_values(interval_view()) =~= before.map_values(interval_view()).push(sel[i as int]));
            }
            i = i + 1;
        }
        proof {
            let sel = self.selections@.map_values(interval_view());
            assert(sel.take(sel.len() as int) =~= sel);
        }
        let ghost before = kept@;
        kept.push(interval);
        assert(kept@.map_values(interval_view()) =~= before.map_values(interval_view()).push(
            kept@.last()@,
        ));
        let mut taken = Composition::new();
        std::mem::swap(&mut taken, self);
        proof {
            use_type_invariant(&taken);
        }
        let Composition { symbols, gaps, selections: _ } = taken;
        *self = Composition { symbols, gaps, selections: kept };
    }
}


/// The view of an interval: start, end, whether it is a phrase, text.
pub type IntervalView = (usize, usize, bool, Seq<char>);

/// Appends `iv` to the intervals `acc`: a phrase that follows a phrase across
/// a glue gap is merged into it.
pub open spec fn glue_spec(com: Composition, acc: Seq<IntervalView>, iv: IntervalView) -> Seq<
    IntervalView,
> {
    if acc.len() == 0 {
        seq![iv]
    } else {
        let last = acc.last();
        if !last.2 || !iv.2 {
            acc.push(iv)
        } else if com.gap_spec(last.1 as int) == Some(Gap::Glue) {
            acc.drop_last().push((last.0, iv.1, true, last.3 + iv.3))
        } else {
            acc.push(iv)
        }
    }
}

/// The intervals of a reading, glued from left to right.
pub open spec fn glued(com: Composition, ivs: Seq<IntervalView>) -> Seq<IntervalView> {
    ivs.fold_left(Seq::empty(), |acc: Seq<IntervalView>, iv: IntervalView| glue_spec(com, acc, iv))
}

/// Appends `interval` to `acc`, merging it into the last interval when both
/// are phrases and the gap between them is a glue.
pub fn glue_fn(com: &Composition, acc: Vec<Interval>, interval: Interval) -> (res: Vec<Interval>)
    ensures
        res@.map_values(interval_view()) == glue_spec(
            *com,
            acc@.map_values(interval_view()),
            interval@,
        ),
{
    let mut acc = acc;
    let ghost before = acc@.map_values(interval_view());
    if acc.len() == 0 {
        acc.push(interval);
        assert(acc@.map_values(interval_view()) =~= seq![interval@]);
        return acc;
    }
    let n = acc.len();
    let last_is_phrase = acc[n - 1].is_phrase;
    let last_end = acc[n - 1].end;
    assert(before.last() == acc@[n - 1]@);
    if !last_is_phrase || !interval.is_phrase {
        acc.push(interval);
        assert(acc@.map_values(interval_view()) =~= before.push(interval@));
        return acc;
    }
    if let Some(Gap::Glue) = com.gap(last_end) {
        let last = acc.pop().unwrap();
        let text = last.text.concat(interval.text.as_str());
        let merged = Interval { start: last.start, end: interval.end, is_phrase: true, text };
        let ghost popped = acc@.map_values(interval_view());
        assert(popped =~= before.drop_last());
        acc.push(merged);
        assert(acc@.map_values(interval_view()) =~= before.drop_last().push(merged@));
    } else {
        acc.push(interval);
        assert(acc@.map_values(interval_view()) =~= before.push(interval@));
    }
    acc
}

/// Glues the intervals of a reading from left to right with [`glue_fn`].
pub fn glue_intervals(com: &Composition, intervals: &Vec<Interval>) -> (res: Vec<Interval>)
    ensures
        res@.map_values(interval_view()) == glued(*com, intervals@.map_values(interval_view())),
{
    let ghost ivs = intervals@.map_values(interval_view());
    let ghost f = |acc: Seq<IntervalView>, iv: IntervalView| glue_spec(*com, acc, iv);
    let mut acc: Vec<Interval> = Vec::new();
    let mut i: usize = 0;
    while i < intervals.len()
        invariant
            ivs == intervals@.map_values(interval_view()),
            f == (|acc: Seq<IntervalView>, iv: IntervalView| glue_spec(*com, acc, iv)),
            i <= intervals@.len(),
            acc@.map_values(interval_view()) == ivs.take(i as int).fold_left(Seq::empty(), f),
        decreases intervals@.len() - i,
    {
        assert(ivs.take(i + 1).drop_last() =~= ivs.take(i as int));
        acc = glue_fn(com, acc, intervals[i].clone());
        i = i + 1;
    }
    assert(ivs.take(ivs.len() as int) =~= ivs);
    acc
}

/// A break at any gap strictly inside a run, not only the first one, keeps
/// every phrase off that run.
pub proof fn lemma_break_inside_forbids_phrase(com: Composition, start: int, end: int, i: int)
    requires
        start < i < end,
        com.gap_spec(i) == Some(Gap::Break),
    ensures
        !no_break_inside(com, start, end),
{
}

/// A phrase that covers exactly the run `[start, end)` shows the selections
/// inside the run when, and only when, its characters at the places the
/// selection covers, counted from the start of the run, are the selection's
/// text.
pub proof fn lemma_selection_shown_at_its_place(com: Composition, start: int, end: int, p: Seq<char>)
    requires
        0 <= start <= end,
        p.len() == end - start,
        forall|k: int|
            0 <= k < com.selections_spec().len() ==> (#[trigger] com.selections_spec()[k]).0
                <= com.selections_spec()[k].1,
    ensures
        agrees_with_selections(com, start, end, p) == forall|k: int|
            0 <= k < com.selections_spec().len() ==> {
                let sel = #[trigger] com.selections_spec()[k];
                (start <= sel.0 && sel.1 <= end) ==> p.subrange(sel.0 - start, sel.1 - start) == sel.3
            },
{
    assert forall|k: int| 0 <= k < com.selections_spec().len() implies {
        let sel = #[trigger] com.selections_spec()[k];
        (start <= sel.0 && sel.1 <= end) ==> char_window(p, sel.0 - start, sel.1 - sel.0)
            == p.subrange(sel.0 - start, sel.1 - start)
    } by {}
}

/// Gluing never merges a character typed as is: an interval that is not a
/// phrase, or that follows one that is not, is appended as it is. A merge
/// happens only between two phrases across a glue gap, and it always
/// happens there: the last phrase then runs on to the new one's end and its
/// text is followed by the new one's.
pub proof fn lemma_glue_keeps_typed_characters(
    com: Composition,
    acc: Seq<IntervalView>,
    iv: IntervalView,
)
    ensures
        (!iv.2 || acc.len() == 0 || !acc.last().2) ==> glue_spec(com, acc, iv) == acc.push(iv),
        glue_spec(com, acc, iv).len() == acc.len() ==> acc.len() > 0 && acc.last().2 && iv.2
            && com.gap_spec(acc.last().1 as int) == Some(Gap::Glue),
        glue_spec(com, acc, iv).len() == acc.len() + 1 || glue_spec(com, acc, iv).len() == acc.len(),
        acc.len() > 0 && acc.last().2 && iv.2 && com.gap_spec(acc.last().1 as int) == Some(Gap::Glue)
            ==> glue_spec(com, acc, iv).len() == acc.len() && glue_spec(com, acc, iv).last() == (
            acc.last().0,
            iv.1,
            true,
            acc.last().3 + iv.3,
        ) && glue_spec(com, acc, iv).drop_last() == acc.drop_last(),
{
    if acc.len() == 0 {
        assert(seq![iv] =~= acc.push(iv));
    }
}

/// Every interval of a reading that is not a phrase is still one of the
/// glued intervals, with its start, end and text.
pub proof fn lemma_glued_keeps_typed_characters(com: Composition, ivs: Seq<IntervalView>)
    ensures
        forall|i: int| 0 <= i < ivs.len() && !(#[trigger] ivs[i]).2 ==> glued(com, ivs).contains(ivs[i]),
    decreases ivs.len(),
{
    if ivs.len() > 0 {
        let prev = ivs.drop_last();
        lemma_glued_keeps_typed_characters(com, prev);
        let acc = glued(com, prev);
        let f = |a: Seq<IntervalView>, x: IntervalView| glue_spec(com, a, x);
        assert(glued(com, ivs) == glue_spec(com, acc, ivs.last()));
        lemma_glue_keeps_typed_characters(com, acc, ivs.last());
        let r = glue_spec(com, acc, ivs.last());
        assert forall|i: int| 0 <= i < ivs.len() && !(#[trigger] ivs[i]).2 implies r.contains(ivs[i]) by {
            if i == ivs.len() - 1 {
                assert(r == acc.push(ivs.last()));
                assert(r[acc.len() as int] == ivs[i]);
            } else {
                assert(prev[i] == ivs[i]);
                assert(acc.contains(ivs[i]));
                let j = choose|j: int| 0 <= j < acc.len() && acc[j] == ivs[i];
                if r == acc.push(ivs.last()) {
                    assert(r[j] == acc[j]);
                } else {
                    let last = acc.last();
                    assert(last.2);
                    assert(j != acc.len() - 1);
                    assert(r == acc.drop_last().push((last.0, ivs.last().1, true, last.3 + ivs.last().3)));
                    assert(r[j] == acc[j]);
                }
            }
        }
    }
}

/// The texts of intervals.
pub open spec fn interval_texts(ivs: Seq<IntervalView>) -> Seq<Seq<char>> {
    ivs.map_values(|iv: IntervalView| iv.3)
}

proof fn lemma_glue_spec_text(com: Composition, acc: Seq<IntervalView>, iv: IntervalView)
    ensures
        interval_texts(glue_spec(com, acc, iv)).flatten_alt() == interval_texts(acc).flatten_alt()
            + iv.3,
{
    let r = glue_spec(com, acc, iv);
    if acc.len() == 0 {
        assert(interval_texts(r).drop_last() =~= interval_texts(acc));
        assert(interval_texts(acc) =~= Seq::<Seq<char>>::empty());
        assert(interval_texts(acc).flatten_alt() =~= Seq::<char>::empty());
    } else {
        let last = acc.last();
        if r == acc.push(iv) {
            assert(interval_texts(r).drop_last() =~= interval_texts(acc));
        } else {
            let merged = (last.0, iv.1, true, last.3 + iv.3);
            assert(r == acc.drop_last().push(merged));
            assert(interval_texts(r).drop_last() =~= interval_texts(acc.drop_last()));
            assert(interval_texts(acc).drop_last() =~= interval_texts(acc.drop_last()));
            assert(interval_texts(acc).last() == last.3);
            assert(interval_texts(acc.drop_last()).flatten_alt() + (last.3 + iv.3)
                =~= interval_texts(acc.drop_last()).flatten_alt() + last.3 + iv.3);
        }
    }
}

/// Gluing never changes the text of a reading: the texts of the glued
/// intervals, put together, are the texts of the intervals put together.
pub proof fn lemma_glue_keeps_text(com: Composition, ivs: Seq<IntervalView>)
    ensures
        interval_texts(glued(com, ivs)).flatten() == interval_texts(ivs).flatten(),
        glued(com, ivs).len() <= ivs.len(),
    decreases ivs.len(),
{
    interval_texts(glued(com, ivs)).lemma_flatten_and_flatten_alt_are_equivalent();
    interval_texts(ivs).lemma_flatten_and_flatten_alt_are_equivalent();
    if ivs.len() == 0 {
        assert(interval_texts(ivs).flatten_alt() =~= Seq::<char>::empty());
        assert(interval_texts(glued(com, ivs)).flatten_alt() =~= Seq::<char>::empty());
    } else {
        let f = |acc: Seq<IntervalView>, iv: IntervalView| glue_spec(com, acc, iv);
        lemma_glue_keeps_text(com, ivs.drop_last());
        interval_texts(glued(com, ivs.drop_last())).lemma_flatten_and_flatten_alt_are_equivalent();
        interval_texts(ivs.drop_last()).lemma_flatten_and_flatten_alt_are_equivalent();
        assert(glued(com, ivs) == glue_spec(com, glued(com, ivs.drop_last()), ivs.last()));
        lemma_glue_spec_text(com, glued(com, ivs.drop_last()), ivs.last());
        assert(interval_texts(ivs).drop_last() =~= interval_texts(ivs.drop_last()));
        assert(interval_texts(ivs).last() == ivs.last().3);
    }
}

/// Whether no break lies strictly inside `[start, end)`.
pub open spec fn no_break_inside(com: Composition, start: int, end: int) -> bool {
    forall|i: int| start < i < end ==> #[trigger] com.gap_spec(i) != Some(Gap::Break)
}

/// Whether no selection crosses the border of `[start, end)`: each one is
/// either disjoint from it or inside it.
pub open spec fn no_crossing_selection(com: Composition, start: int, end: int) -> bool {
    forall|k: int|
        0 <= k < com.selections_spec().len() ==> {
            let s = #[trigger] com.selections_spec()[k];
            ranges_intersect(s.0 as int, s.1 as int, start, end) ==> (start <= s.0 && s.1 <= end)
        }
}

/// The codepoints of `p` from `offset` on, at most `len` of them.
pub open spec fn char_window(p: Seq<char>, offset: int, len: int) -> Seq<char> {
    let a = if offset < p.len() { offset } else { p.len() as int };
    let b = if offset + len < p.len() { offset + len } else { p.len() as int };
    p.subrange(a, b)
}

/// Whether the phrase `p` over `[start, end)` shows the text of every
/// selection inside `[start, end)` at that selection's place.
pub open spec fn agrees_with_selections(com: Composition, start: int, end: int, p: Seq<char>) -> bool {
    forall|k: int|
        0 <= k < com.selections_spec().len() ==> {
            let s = #[trigger] com.selections_spec()[k];
            (start <= s.0 && s.1 <= end) ==> char_window(p, s.0 - start, s.1 - s.0) == s.3
        }
}

/// The index of the first selection that covers exactly `[start, end)`.
pub open spec fn exact_selection(com: Composition, start: int, end: int) -> Option<int> {
    let sels = com.selections_spec();
    if exists|k: int| 0 <= k < sels.len() && sels[k].0 == start && sels[k].1 == end {
        Some(
            choose|k: int|
                0 <= k < sels.len() && sels[k].0 == start && sels[k].1 == end && forall|j: int|
                    0 <= j < k ==> !(sels[j].0 == start && sels[j].1 == end),
        )
    } else {
        None
    }
}

proof fn lemma_first_exact_selection(com: Composition, start: int, end: int, k: int)
    requires
        0 <= k < com.selections_spec().len(),
        com.selections_spec()[k].0 == start && com.selections_spec()[k].1 == end,
        forall|j: int|
            0 <= j < k ==> !(com.selections_spec()[j].0 == start && com.selections_spec()[j].1
                == end),
    ensures
        exact_selection(com, start, end) == Some(k),
{
    let sels = com.selections_spec();
    let c = choose|k: int|
        0 <= k < sels.len() && sels[k].0 == start && sels[k].1 == end && forall|j: int|
            0 <= j < k ==> !(sels[j].0 == start && sels[j].1 == end);
    assert(0 <= c < sels.len() && sels[c].0 == start && sels[c].1 == end);
    if c < k {
        assert(!(sels[c].0 == start && sels[c].1 == end));
    } else if c > k {
        assert(!(sels[k].0 == start && sels[k].1 == end));
    }
}

impl Composition {
    /// Whether a phrase may cover `[start, end)`: no break lies inside it and
    /// no selection crosses its border.
    pub fn phrase_span_allowed(&self, start: usize, end: usize) -> (res: bool)
        ensures
            res == (no_break_inside(*self, start as int, end as int) && no_crossing_selection(
                *self,
                start as int,
                end as int,
            )),
    {
        let mut i = start;
        while i < end
            invariant
                start <= i,
                forall|j: int| start < j <= i && j < end ==> #[trigger] self.gap_spec(j) != Some(
                    Gap::Break,
                ),
            decreases end - i,
        {
            i = i + 1;
            if i < end {
                if let Some(Gap::Break) = self.gap(i) {
                    return false;
                }
            }
        }
        let sels = self.selections();
        let mut k: usize = 0;
        while k < sels.len()
            invariant
                sels@.map_values(interval_view()) == self.selections_spec(),
                no_break_inside(*self, start as int, end as int),
                k <= sels@.len(),
                forall|m: int|
                    0 <= m < k ==> {
                        let s = #[trigger] self.selections_spec()[m];
                        ranges_intersect(s.0 as int, s.1 as int, start as int, end as int) ==> (
                        start <= s.0 && s.1 <= end)
                    },
            decreases sels@.len() - k,
        {
            assert(self.selections_spec()[k as int] == sels@[k as int]@);
            if sels[k].intersect_range(start, end) && !sels[k].is_contained_by(start, end) {
                return false;
            }
            k = k + 1;
        }
        true
    }

    /// Whether the phrase `phrase` over `[start, end)` shows the text of every
    /// selection inside `[start, end)` at that selection's place.
    pub fn phrase_agrees_with_selections(&self, start: usize, end: usize, phrase: &str) -> (res:
        bool)
        ensures
            res == agrees_with_selections(*self, start as int, end as int, phrase@),
    {
        proof {
            use_type_invariant(self);
        }
        let sels = self.selections.as_slice();
        let plen = phrase.unicode_len();
        let mut k: usize = 0;
        while k < sels.len()
            invariant
                sels@.map_values(interval_view()) == self.selections_spec(),
                sels@ == self.selections@,
                forall|m: int| 0 <= m < sels@.len() ==> #[trigger] sels@[m].start <= sels@[m].end,
                plen == phrase@.len(),
                k <= sels@.len(),
                forall|m: int|
                    0 <= m < k ==> {
                        let s = #[trigger] self.selections_spec()[m];
                        (start <= s.0 && s.1 <= end) ==> char_window(
                            phrase@,
                            s.0 - start,
                            s.1 - s.0,
                        ) == s.3
                    },
            decreases sels@.len() - k,
        {
            let sel = &sels[k];
            assert(self.selections_spec()[k as int] == sel@);
            if start <= sel.start && end >= sel.end {
                let offset = sel.start - start;
                let len = sel.end - sel.start;
                let a = if offset < plen {
                    offset
                } else {
                    plen
                };
                let b = if len < plen - a {
                    a + len
                } else {
                    plen
                };
                let ghost window = phrase@.subrange(a as int, b as int);
                assert(window == char_window(phrase@, sel.start - start, sel.end - sel.start));
                let text = sel.text.as_str();
                if b - a != text.unicode_len() {
                    return false;
                }
                let mut j: usize = 0;
                while j < b - a
                    invariant
                        a <= b <= plen,
                        plen == phrase@.len(),
                        text@.len() == b - a,
                        window == phrase@.subrange(a as int, b as int),
                        window == char_window(phrase@, sel.start - start, sel.end - sel.start),
                        k < self.selections_spec().len(),
                        self.selections_spec()[k as int] == sel@,
                        text@ == sel.text@,
                        start <= sel.start && sel.end <= end,
                        j <= b - a,
                        forall|t: int| 0 <= t < j ==> window[t] == text@[t],
                    decreases b - a - j,
                {
                    if phrase.get_char(a + j) != text.get_char(j) {
                        assert(window[j as int] != text@[j as int]);
                        assert(window != text@);
                        return false;
                    }
                    j = j + 1;
                }
                assert(window =~= text@);
            }
            k = k + 1;
        }
        true
    }

    /// The text of the first selection that covers exactly `[start, end)`.
    pub fn forced_selection(&self, start: usize, end: usize) -> (res: Option<String>)
        ensures
            res is Some <==> exact_selection(*self, start as int, end as int) is Some,
            res matches Some(t) ==> t@ == self.selections_spec()[exact_selection(
                *self,
                start as int,
                end as int,
            )->0].3,
    {
        let sels = self.selections();
        let mut k: usize = 0;
        while k < sels.len()
            invariant
                sels@.map_values(interval_view()) == self.selections_spec(),
                k <= sels@.len(),
                forall|j: int|
                    0 <= j < k ==> !(self.selections_spec()[j].0 == start
                        && self.selections_spec()[j].1 == end),
            decreases sels@.len() - k,
        {
            assert(self.selections_spec()[k as int] == sels@[k as int]@);
            if sels[k].start == start && sels[k].end == end {
                proof {
                    lemma_first_exact_selection(*self, start as int, end as int, k as int);
                }
                return Some(sels[k].text.clone());
            }
            k = k + 1;
        }
        proof {
            let sl = self.selections_spec();
            assert forall|m: int| 0 <= m < sl.len() implies !(sl[m].0 == start && sl[m].1 == end) by {
            }
        }
        None
    }
}

/// How phrases are looked up in a dictionary.
#[derive(Clone, Copy, Debug, PartialEq, Eq, Structural)]
pub enum LookupStrategy {
    /// Phrases whose syllables are exactly the ones asked for.
    Standard,
    /// Phrases whose syllables start with the ones asked for.
    FuzzyPartialPrefix,
}

impl Default for LookupStrategy {
    fn default() -> (res: LookupStrategy)
        ensures
            res == LookupStrategy::Standard,
    {
        LookupStrategy::Standard
    }
}

/// The default Chewing conversion method.
#[derive(Debug)]
pub struct ChewingEngine {
    pub(crate) lookup_strategy: LookupStrategy,
}

impl View for ChewingEngine {
    type V = LookupStrategy;

    /// The lookup strategy of the engine.
    closed spec fn view(&self) -> LookupStrategy {
        self.lookup_strategy
    }
}

impl ChewingEngine {
    /// The largest number of readings a conversion offers.
    pub const MAX_OUT_PATHS: usize = 10;

    /// Creates a new conversion engine.
    pub fn new() -> (res: ChewingEngine)
        ensures
            res@ == LookupStrategy::Standard,
    {
        ChewingEngine { lookup_strategy: LookupStrategy::Standard }
    }

    /// How the engine looks phrases up.
    pub fn lookup_strategy(&self) -> (res: LookupStrategy)
        ensures
            res == self@,
    {
        self.lookup_strategy
    }
}

impl Default for ChewingEngine {
    fn default() -> (res: ChewingEngine)
        ensures
            res@ == LookupStrategy::Standard,
    {
        ChewingEngine::new()
    }
}
} // verus!
