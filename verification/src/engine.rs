//! The parts of the Chewing conversion that decide which phrases may cover
//! which runs of symbols, in which order they are offered, and how a path
//! through the resulting graph is read back.
use vstd::prelude::*;

use crate::conversion::{
    agrees_with_selections, exact_selection, glue_intervals, glued, interval_view,
    lemma_filter_take_step, no_break_inside, no_crossing_selection, ChewingEngine, Composition,
    Gap, Interval, IntervalView, LookupStrategy, Symbol,
};
use crate::text::push_char;
use crate::zhuyin::Syllable;

verus! {

/// A run longer than this many symbols is never looked up.
pub const MAX_PHRASE_LEN: usize = 15;

/// At most this many dictionary phrases are offered for one run.
pub const MAX_PHRASES: usize = 10;

/// Frequencies above this one rank as this one.
pub const MAX_FREQ: u32 = 9999999;

/// A phrase of a dictionary: its text and how often it occurs.
#[derive(Debug)]
pub struct Phrase {
    text: String,
    freq: u32,
}

/// The view of a phrase: its text and its frequency.
pub type PhraseView = (Seq<char>, u32);

impl View for Phrase {
    type V = PhraseView;

    closed spec fn view(&self) -> PhraseView {
        (self.text@, self.freq)
    }
}

/// The view of each phrase.
pub open spec fn phrase_view() -> spec_fn(Phrase) -> PhraseView {
    |p: Phrase| p@
}

impl Phrase {
    /// A phrase with the text `text` and the frequency `freq`.
    pub fn new(text: String, freq: u32) -> (res: Phrase)
        ensures
            res@ == (text@, freq),
    {
        Phrase { text, freq }
    }

    /// The text of the phrase.
    pub fn as_str(&self) -> (res: &str)
        ensures
            res@ == self@.0,
    {
        self.text.as_str()
    }

    /// How often the phrase occurs.
    pub fn freq(&self) -> (res: u32)
        ensures
            res == self@.1,
    {
        self.freq
    }
}

impl Clone for Phrase {
    fn clone(&self) -> (res: Phrase)
        ensures
            res@ == self@,
    {
        Phrase { text: self.text.clone(), freq: self.freq }
    }
}

/// A store of phrases, looked up by their Zhuyin reading. An implementation
/// gives the same phrases, in the same order, whenever it is asked for the
/// same syllables with the same strategy; `lookup_spec` names them.
pub trait Dictionary {
    /// The phrases the dictionary holds for `syllables`, found as `strategy`
    /// says, in the order it gives them. A dictionary whose lookup is
    /// verified defines it; the default names no particular list.
    closed spec fn lookup_spec(&self, syllables: Seq<Syllable>, strategy: LookupStrategy) -> Seq<
        PhraseView,
    > {
        choose|phrases: Seq<PhraseView>| phrases.len() >= 0
    }

    /// The phrases read as `syllables`, found as `strategy` says.
    fn lookup(&self, syllables: &[Syllable], strategy: LookupStrategy) -> (res: Vec<Phrase>)
        ensures
            res@.map_values(phrase_view()) == self.lookup_spec(syllables@, strategy),
    ;
}

/// What may cover a run of symbols in a reading of the composition.
#[derive(Debug)]
pub enum PhraseCandidate {
    /// A character typed as is, which stands for itself.
    Symbol(char),
    /// A phrase of the dictionary.
    Phrase(Phrase),
    /// The text of a selection that no dictionary phrase matches.
    Selected(String),
}

/// The view of a candidate.
pub enum CandidateView {
    Symbol(char),
    Phrase(Seq<char>, u32),
    Selected(Seq<char>),
}

impl View for PhraseCandidate {
    type V = CandidateView;

    open spec fn view(&self) -> CandidateView {
        match self {
            PhraseCandidate::Symbol(c) => CandidateView::Symbol(*c),
            PhraseCandidate::Phrase(p) => CandidateView::Phrase(p@.0, p@.1),
            PhraseCandidate::Selected(t) => CandidateView::Selected(t@),
        }
    }
}

/// The view of each candidate.
pub open spec fn candidate_view() -> spec_fn(PhraseCandidate) -> CandidateView {
    |c: PhraseCandidate| c@
}

/// The text a candidate puts in the reading.
pub open spec fn candidate_text(c: CandidateView) -> Seq<char> {
    match c {
        CandidateView::Symbol(ch) => seq![ch],
        CandidateView::Phrase(t, _) => t,
        CandidateView::Selected(t) => t,
    }
}

impl PhraseCandidate {
    /// The text the candidate puts in the reading.
    pub fn text(&self) -> (res: String)
        ensures
            res@ == candidate_text(self@),
    {
        match self {
            PhraseCandidate::Symbol(c) => {
                let mut s = String::new();
                push_char(&mut s, *c);
                s
            },
            PhraseCandidate::Phrase(p) => p.as_str().to_owned(),
            PhraseCandidate::Selected(t) => t.clone(),
        }
    }

    /// The interval the candidate makes over `[start, end)`: a phrase unless
    /// it is a character typed as is.
    pub fn to_interval(&self, start: usize, end: usize) -> (res: Interval)
        ensures
            res@ == (start, end, !(self@ is Symbol), candidate_text(self@)),
    {
        let is_phrase = match self {
            PhraseCandidate::Symbol(_) => false,
            _ => true,
        };
        Interval { start, end, is_phrase, text: self.text() }
    }
}

/// The frequency a phrase ranks by: its frequency, at least 1 and at most
/// `MAX_FREQ`.
pub open spec fn freq_key(f: u32) -> u32 {
    if f < 1 {
        1
    } else if f > MAX_FREQ {
        MAX_FREQ
    } else {
        f
    }
}

/// Whether the phrase at `i` ranks highest in `s` and no phrase before it
/// ranks as high.
pub open spec fn is_first_most_frequent(s: Seq<PhraseView>, i: int) -> bool {
    &&& 0 <= i < s.len()
    &&& forall|j: int| 0 <= j < s.len() ==> freq_key(#[trigger] s[j].1) <= freq_key(s[i].1)
    &&& forall|j: int| 0 <= j < i ==> freq_key(#[trigger] s[j].1) < freq_key(s[i].1)
}

/// The first `m` phrases of `s` in order of frequency, highest first;
/// phrases that rank alike keep their order.
pub open spec fn most_frequent_first(s: Seq<PhraseView>, m: nat) -> Seq<PhraseView>
    decreases m,
{
    if m == 0 || s.len() == 0 {
        Seq::empty()
    } else {
        let i = choose|i: int| is_first_most_frequent(s, i);
        seq![s[i]] + most_frequent_first(s.remove(i), (m - 1) as nat)
    }
}

/// At most one phrase is the first most frequent one.
proof fn lemma_first_most_frequent_unique(s: Seq<PhraseView>, i: int, k: int)
    requires
        is_first_most_frequent(s, i),
        is_first_most_frequent(s, k),
    ensures
        i == k,
{
    if i < k {
        assert(freq_key(s[i].1) < freq_key(s[k].1));
        assert(freq_key(s[k].1) <= freq_key(s[i].1));
    } else if k < i {
        assert(freq_key(s[k].1) < freq_key(s[i].1));
        assert(freq_key(s[i].1) <= freq_key(s[k].1));
    }
}

fn clamped_freq(f: u32) -> (res: u32)
    ensures
        res == freq_key(f),
{
    if f < 1 {
        1
    } else if f > MAX_FREQ {
        MAX_FREQ
    } else {
        f
    }
}

fn first_most_frequent(s: &Vec<Phrase>) -> (res: usize)
    requires
        s@.len() > 0,
    ensures
        is_first_most_frequent(s@.map_values(phrase_view()), res as int),
{
    let ghost v = s@.map_values(phrase_view());
    let mut best: usize = 0;
    let mut best_key = clamped_freq(s[0].freq());
    let mut j: usize = 1;
    while j < s.len()
        invariant
            v == s@.map_values(phrase_view()),
            0 <= best < j <= s@.len(),
            best_key == freq_key(v[best as int].1),
            forall|t: int| 0 <= t < j ==> freq_key(#[trigger] v[t].1) <= best_key,
            forall|t: int| 0 <= t < best ==> freq_key(#[trigger] v[t].1) < best_key,
        decreases s@.len() - j,
    {
        let key = clamped_freq(s[j].freq());
        if key > best_key {
            best = j;
            best_key = key;
        }
        j = j + 1;
    }
    best
}

/// Takes the first `m` phrases of `found` in order of frequency.
fn take_most_frequent(found: Vec<Phrase>, m: usize) -> (res: Vec<Phrase>)
    ensures
        res@.map_values(phrase_view()) == most_frequent_first(
            found@.map_values(phrase_view()),
            m as nat,
        ),
{
    let ghost all = found@.map_values(phrase_view());
    let mut rest = found;
    let mut out: Vec<Phrase> = Vec::new();
    assert(out@.map_values(phrase_view()) + most_frequent_first(all, m as nat) =~= most_frequent_first(all, m as nat));
    while out.len() < m && rest.len() > 0
        invariant
            out@.len() <= m,
            most_frequent_first(all, m as nat) == out@.map_values(phrase_view())
                + most_frequent_first(rest@.map_values(phrase_view()), (m - out@.len()) as nat),
        decreases m - out@.len(),
    {
        let ghost r = rest@.map_values(phrase_view());
        let ghost left = (m - out@.len()) as nat;
        let i = first_most_frequent(&rest);
        proof {
            let c = choose|i: int| is_first_most_frequent(r, i);
            lemma_first_most_frequent_unique(r, c, i as int);
        }
        let ghost before = out@.map_values(phrase_view());
        let p = rest.remove(i);
        assert(rest@.map_values(phrase_view()) =~= r.remove(i as int));
        out.push(p);
        assert(out@.map_values(phrase_view()) =~= before.push(r[i as int]));
        assert(most_frequent_first(r, left) == seq![r[i as int]] + most_frequent_first(
            r.remove(i as int),
            (left - 1) as nat,
        ));
        assert(before.push(r[i as int]) + most_frequent_first(r.remove(i as int), (left - 1) as nat)
            =~= before + (seq![r[i as int]] + most_frequent_first(r.remove(i as int), (left - 1) as nat)));
    }
    proof {
        let r = rest@.map_values(phrase_view());
        let left = (m - out@.len()) as nat;
        assert(most_frequent_first(r, left) =~= Seq::<PhraseView>::empty());
        assert(out@.map_values(phrase_view()) + Seq::<PhraseView>::empty() =~= out@.map_values(
            phrase_view(),
        ));
    }
    out
}

/// Whether a phrase over `[start, end)` shows the text of every selection
/// inside that run.
pub open spec fn shows_selections(com: Composition, start: int, end: int) -> spec_fn(
    PhraseView,
) -> bool {
    |p: PhraseView| agrees_with_selections(com, start, end, p.0)
}

/// The dictionary phrases offered for `[start, end)` out of those found:
/// the ones that show the selections inside the run, at most `MAX_PHRASES`
/// of them, most frequent first.
pub open spec fn ranked_phrases(
    com: Composition,
    start: int,
    end: int,
    found: Seq<PhraseView>,
) -> Seq<PhraseView> {
    most_frequent_first(found.filter(shows_selections(com, start, end)), MAX_PHRASES as nat)
}

/// The candidates for `[start, end)` when the dictionary finds `found`: the
/// ranked phrases, or, when there is none, the text of the first selection
/// that covers exactly that run.
pub open spec fn span_candidates(
    com: Composition,
    start: int,
    end: int,
    found: Seq<PhraseView>,
) -> Seq<CandidateView> {
    let r = ranked_phrases(com, start, end, found);
    if r.len() > 0 {
        r.map_values(|p: PhraseView| CandidateView::Phrase(p.0, p.1))
    } else {
        match exact_selection(com, start, end) {
            Some(k) => seq![CandidateView::Selected(com.selections_spec()[k].3)],
            None => Seq::empty(),
        }
    }
}

fn keep_agreeing(com: &Composition, start: usize, end: usize, found: &Vec<Phrase>) -> (res: Vec<
    Phrase,
>)
    ensures
        res@.map_values(phrase_view()) == found@.map_values(phrase_view()).filter(
            shows_selections(*com, start as int, end as int),
        ),
{
    let ghost all = found@.map_values(phrase_view());
    let ghost pred = shows_selections(*com, start as int, end as int);
    let mut kept: Vec<Phrase> = Vec::new();
    let mut i: usize = 0;
    while i < found.len()
        invariant
            all == found@.map_values(phrase_view()),
            pred == shows_selections(*com, start as int, end as int),
            i <= found@.len(),
            kept@.map_values(phrase_view()) == all.take(i as int).filter(pred),
        decreases found@.len() - i,
    {
        proof {
            lemma_filter_take_step(all, i as int, pred);
        }
        if com.phrase_agrees_with_selections(start, end, found[i].as_str()) {
            let ghost before = kept@.map_values(phrase_view());
            kept.push(found[i].clone());
            assert(kept@.map_values(phrase_view()) =~= before.push(all[i as int]));
        }
        i = i + 1;
    }
    assert(all.take(found@.len() as int) =~= all);
    kept
}

/// The candidates for `[start, end)` when the dictionary finds `found`.
pub fn rank_phrases(com: &Composition, start: usize, end: usize, found: &Vec<Phrase>) -> (res: Vec<
    PhraseCandidate,
>)
    ensures
        res@.map_values(candidate_view()) == span_candidates(
            *com,
            start as int,
            end as int,
            found@.map_values(phrase_view()),
        ),
{
    let kept = keep_agreeing(com, start, end, found);
    let ranked = take_most_frequent(kept, MAX_PHRASES);
    let ghost r = ranked@.map_values(phrase_view());
    let mut out: Vec<PhraseCandidate> = Vec::new();
    if ranked.len() > 0 {
        let mut i: usize = 0;
        while i < ranked.len()
            invariant
                r == ranked@.map_values(phrase_view()),
                i <= ranked@.len(),
                out@.map_values(candidate_view()) == r.take(i as int).map_values(
                    |p: PhraseView| CandidateView::Phrase(p.0, p.1),
                ),
            decreases ranked@.len() - i,
        {
            let ghost before = out@.map_values(candidate_view());
            let p = ranked[i].clone();
            assert(p@ == r[i as int]);
            out.push(PhraseCandidate::Phrase(p));
            assert(out@.map_values(candidate_view()) =~= before.push(
                CandidateView::Phrase(r[i as int].0, r[i as int].1),
            ));
            assert(r.take(i + 1) =~= r.take(i as int).push(r[i as int]));
            assert(out@.map_values(candidate_view()) =~= r.take(i + 1).map_values(
                |p: PhraseView| CandidateView::Phrase(p.0, p.1),
            ));
            i = i + 1;
        }
        assert(r.take(ranked@.len() as int) =~= r);
    } else {
        match com.forced_selection(start, end) {
            Some(text) => {
                out.push(PhraseCandidate::Selected(text));
                assert(out@.map_values(candidate_view()) =~= seq![
                    CandidateView::Selected(out@[0]->Selected_0@),
                ]);
            },
            None => {
                assert(out@.map_values(candidate_view()) =~= Seq::<CandidateView>::empty());
            },
        }
    }
    out
}

/// Whether a phrase may cover `[start, end)`: no break lies inside it and
/// no selection crosses its border.
pub open spec fn span_allowed(com: Composition, start: int, end: int) -> bool {
    no_break_inside(com, start, end) && no_crossing_selection(com, start, end)
}

/// The codepoint of a symbol that is a character made of one codepoint.
pub open spec fn single_char(s: Symbol) -> Option<char> {
    match s {
        Symbol::Char(g) => if g@.len() == 1 {
            Some(g@[0])
        } else {
            None
        },
        Symbol::Syllable(_) => None,
    }
}

/// The syllables of a run of symbols that are all syllables.
pub open spec fn run_syllables(s: Seq<Symbol>) -> Seq<Syllable> {
    s.map_values(|x: Symbol| x->Syllable_0)
}

/// Whether every symbol is a syllable.
pub open spec fn all_syllables(s: Seq<Symbol>) -> bool {
    forall|i: int| 0 <= i < s.len() ==> #[trigger] s[i] is Syllable
}

fn symbol_candidate(c: char) -> (res: Vec<PhraseCandidate>)
    ensures
        res@.len() == 1,
        res@[0]@ == CandidateView::Symbol(c),
{
    let mut one: Vec<PhraseCandidate> = Vec::new();
    one.push(PhraseCandidate::Symbol(c));
    one
}

/// Whether the candidate `c` may stand for the run of symbols `run`: a
/// character typed as is stands for a run of itself alone, a phrase for a
/// run of syllables.
pub open spec fn candidate_fits_run(run: Seq<Symbol>, c: CandidateView) -> bool {
    match c {
        CandidateView::Symbol(ch) => run.len() == 1 && single_char(run[0]) == Some(ch),
        _ => all_syllables(run),
    }
}

impl ChewingEngine {
    /// The candidates for the run of `symbols` that starts at `start` in
    /// `com`: none where a break lies inside the run or a selection crosses
    /// its border; the character itself for a run of one character; none for
    /// another run with a character in it; otherwise what `rank_phrases`
    /// makes of the phrases that `dict` finds for the syllables of the run
    /// with the engine's lookup strategy.
    pub fn find_best_phrases<D: Dictionary + ?Sized>(
        &self,
        dict: &D,
        start: usize,
        symbols: &[Symbol],
        com: &Composition,
    ) -> (res: Vec<PhraseCandidate>)
        requires
            start + symbols@.len() <= usize::MAX,
        ensures
            !span_allowed(*com, start as int, start + symbols@.len()) ==> res@.len() == 0,
            span_allowed(*com, start as int, start + symbols@.len()) && symbols@.len() == 1 && (
            single_char(symbols@[0]) is Some) ==> res@.len() == 1 && res@[0]@ == CandidateView::Symbol(
                single_char(symbols@[0])->0,
            ),
            span_allowed(*com, start as int, start + symbols@.len()) && !(symbols@.len() == 1 && (
            single_char(symbols@[0]) is Some)) && !all_syllables(symbols@) ==> res@.len() == 0,
            span_allowed(*com, start as int, start + symbols@.len()) && !(symbols@.len() == 1 && (
            single_char(symbols@[0]) is Some)) && all_syllables(symbols@) ==> res@.map_values(
                candidate_view(),
            ) == span_candidates(
                *com,
                start as int,
                start + symbols@.len(),
                dict.lookup_spec(run_syllables(symbols@), self@),
            ),
            forall|i: int|
                0 <= i < res@.len() ==> span_allowed(*com, start as int, start + symbols@.len())
                    && candidate_fits_run(symbols@, #[trigger] res@[i]@),
            forall|g: int|
                start < g < start + symbols@.len() && #[trigger] com.gap_spec(g) == Some(Gap::Break)
                    ==> res@.len() == 0,
    {
        let end = start + symbols.len();
        if !com.phrase_span_allowed(start, end) {
            return Vec::new();
        }
        if symbols.len() == 1 {
            if let Some(c) = symbols[0].to_char() {
                return symbol_candidate(c);
            }
        }
        let mut syllables: Vec<Syllable> = Vec::new();
        let mut i: usize = 0;
        while i < symbols.len()
            invariant
                i <= symbols@.len(),
                end == start + symbols@.len(),
                no_break_inside(*com, start as int, end as int),
                no_crossing_selection(*com, start as int, end as int),
                symbols@.len() == 1 ==> single_char(symbols@[0]) is None,
                forall|j: int| 0 <= j < i ==> #[trigger] symbols@[j] is Syllable,
                syllables@ == run_syllables(symbols@.take(i as int)),
            decreases symbols@.len() - i,
        {
            match symbols[i].to_syllable() {
                Some(s) => {
                    syllables.push(s);
                    assert(run_syllables(symbols@.take(i + 1)) =~= run_syllables(
                        symbols@.take(i as int),
                    ).push(s));
                },
                None => {
                    assert(!all_syllables(symbols@));
                    return Vec::new();
                },
            }
            i = i + 1;
        }
        assert(symbols@.take(symbols@.len() as int) =~= symbols@);
        let strategy = self.lookup_strategy();
        let found = dict.lookup(syllables.as_slice(), strategy);
        let res = rank_phrases(com, start, end, &found);
        assert(res@.map_values(candidate_view()) == span_candidates(
            *com,
            start as int,
            end as int,
            found@.map_values(phrase_view()),
        ));
        proof {
            lemma_span_candidates_are_phrases(
                *com,
                start as int,
                end as int,
                found@.map_values(phrase_view()),
            );
            assert forall|i: int| 0 <= i < res@.len() implies candidate_fits_run(
                symbols@,
                #[trigger] res@[i]@,
            ) by {
                assert(res@.map_values(candidate_view())[i] == res@[i]@);
            }
        }
        res
    }
}

/// The phrase numbered `sn` covers the symbols `[start, end)`.
#[derive(Clone, Copy, Debug, PartialEq, Eq, Structural)]
pub struct Edge {
    pub start: usize,
    pub end: usize,
    pub sn: usize,
}

/// Whether the candidate `c` may cover the run of `e` in `com`, as
/// `find_best_phrases` offers it.
pub open spec fn edge_fits(com: Composition, e: Edge, c: CandidateView) -> bool {
    let sym = com.symbols_spec();
    &&& e.start < e.end <= sym.len()
    &&& e.end - e.start <= MAX_PHRASE_LEN
    &&& no_break_inside(com, e.start as int, e.end as int)
    &&& no_crossing_selection(com, e.start as int, e.end as int)
    &&& match c {
        CandidateView::Symbol(ch) => e.end == e.start + 1 && single_char(sym[e.start as int]) == Some(
            ch,
        ),
        _ => all_syllables(sym.subrange(e.start as int, e.end as int)),
    }
}

/// Whether `a` comes no later than `b` when runs are taken by start, then
/// by end.
pub open spec fn edge_precedes(a: Edge, b: Edge) -> bool {
    a.start < b.start || (a.start == b.start && a.end <= b.end)
}

/// Whether the character at `s` has its own edge.
pub open spec fn has_symbol_edge(
    com: Composition,
    edges: Seq<Edge>,
    cands: Seq<CandidateView>,
    s: int,
) -> bool {
    exists|k: int|
        0 <= k < edges.len() && #[trigger] edges[k].start == s && edges[k].end == s + 1
            && cands[k] == CandidateView::Symbol(single_char(com.symbols_spec()[s])->0)
}

/// No candidate that `span_candidates` makes is a character typed as is.
proof fn lemma_span_candidates_are_phrases(
    com: Composition,
    start: int,
    end: int,
    found: Seq<PhraseView>,
)
    ensures
        forall|i: int|
            0 <= i < span_candidates(com, start, end, found).len() ==> !(#[trigger] span_candidates(
                com,
                start,
                end,
                found,
            )[i] is Symbol),
{
}

/// What `find_best_phrases` offers for the run `[s, e)` of `com` when the
/// dictionary finds `found` for it.
pub open spec fn run_candidates(
    com: Composition,
    s: int,
    e: int,
    found: Seq<PhraseView>,
) -> Seq<CandidateView> {
    let run = com.symbols_spec().subrange(s, e);
    if !span_allowed(com, s, e) {
        Seq::empty()
    } else if run.len() == 1 && (single_char(run[0]) is Some) {
        seq![CandidateView::Symbol(single_char(run[0])->0)]
    } else if !all_syllables(run) {
        Seq::empty()
    } else {
        span_candidates(com, s, e, found)
    }
}

/// The candidates of the first `n` edges that cover the run `[s, e)`, in
/// their order.
pub open spec fn run_block(
    edges: Seq<Edge>,
    cands: Seq<CandidateView>,
    n: nat,
    s: int,
    e: int,
) -> Seq<CandidateView>
    decreases n,
{
    if n == 0 {
        Seq::empty()
    } else {
        let before = run_block(edges, cands, (n - 1) as nat, s, e);
        if edges[n - 1].start == s && edges[n - 1].end == e {
            before.push(cands[n - 1])
        } else {
            before
        }
    }
}

/// The run blocks of the first `n` edges depend on those edges alone.
proof fn lemma_run_block_frame(
    a: Seq<Edge>,
    ca: Seq<CandidateView>,
    b: Seq<Edge>,
    cb: Seq<CandidateView>,
    n: nat,
    s: int,
    e: int,
)
    requires
        n <= a.len() && n <= b.len() && n <= ca.len() && n <= cb.len(),
        forall|k: int| 0 <= k < n ==> a[k] == b[k],
        forall|k: int| 0 <= k < n ==> ca[k] == cb[k],
    ensures
        run_block(a, ca, n, s, e) == run_block(b, cb, n, s, e),
    decreases n,
{
    if n > 0 {
        lemma_run_block_frame(a, ca, b, cb, (n - 1) as nat, s, e);
        assert(a[n - 1] == b[n - 1] && ca[n - 1] == cb[n - 1]);
    }
}

/// Edges that all cover `[s0, e0)` add their candidates to the block of
/// that run and to no other block.
proof fn lemma_run_block_append(
    edges: Seq<Edge>,
    cands: Seq<CandidateView>,
    n: nat,
    m: nat,
    s0: int,
    e0: int,
    s: int,
    e: int,
)
    requires
        n + m <= edges.len() && n + m <= cands.len(),
        forall|t: int|
            0 <= t < m ==> (#[trigger] edges[n + t]).start == s0 && edges[n + t].end == e0,
    ensures
        run_block(edges, cands, n + m, s, e) == run_block(edges, cands, n, s, e) + if s == s0 && e
            == e0 {
            cands.subrange(n as int, (n + m) as int)
        } else {
            Seq::empty()
        },
    decreases m,
{
    if m == 0 {
        assert(cands.subrange(n as int, n as int) =~= Seq::<CandidateView>::empty());
        assert(run_block(edges, cands, n, s, e) + Seq::<CandidateView>::empty() =~= run_block(
            edges,
            cands,
            n,
            s,
            e,
        ));
    } else {
        lemma_run_block_append(edges, cands, n, (m - 1) as nat, s0, e0, s, e);
        assert(edges[n + (m - 1)].start == s0 && edges[n + (m - 1)].end == e0);
        if s == s0 && e == e0 {
            assert(cands.subrange(n as int, (n + m) as int) =~= cands.subrange(n as int, (n + m - 1) as int).push(
                cands[n + m - 1],
            ));
            assert(run_block(edges, cands, n, s, e) + cands.subrange(n as int, (n + m) as int) =~= (
            run_block(edges, cands, n, s, e) + cands.subrange(n as int, (n + m - 1) as int)).push(
                cands[n + m - 1],
            ));
        }
    }
}

/// A run that no edge covers has no candidates.
proof fn lemma_run_block_absent(edges: Seq<Edge>, cands: Seq<CandidateView>, n: nat, s: int, e: int)
    requires
        n <= edges.len(),
        forall|k: int| 0 <= k < n ==> !((#[trigger] edges[k]).start == s && edges[k].end == e),
    ensures
        run_block(edges, cands, n, s, e) == Seq::<CandidateView>::empty(),
    decreases n,
{
    if n > 0 {
        lemma_run_block_absent(edges, cands, (n - 1) as nat, s, e);
        assert(!(edges[n - 1].start == s && edges[n - 1].end == e));
    }
}

/// What `find_best_phrases` offers for the run `[s, e)` of `com` when `dict`
/// is asked for the syllables of the run with `strategy`.
pub open spec fn dict_run_candidates<D: Dictionary + ?Sized>(
    dict: &D,
    strategy: LookupStrategy,
    com: Composition,
    s: int,
    e: int,
) -> Seq<CandidateView> {
    run_candidates(
        com,
        s,
        e,
        dict.lookup_spec(run_syllables(com.symbols_spec().subrange(s, e)), strategy),
    )
}

/// A run with a break at any gap strictly inside it gets no candidate,
/// whatever the dictionary holds, so no edge covers it.
pub proof fn lemma_break_inside_rules_out_run<D: Dictionary + ?Sized>(
    dict: &D,
    strategy: LookupStrategy,
    com: Composition,
    start: int,
    end: int,
    g: int,
)
    requires
        start < g < end,
        com.gap_spec(g) == Some(Gap::Break),
    ensures
        !span_allowed(com, start, end),
        dict_run_candidates(dict, strategy, com, start, end).len() == 0,
{
}

/// Whether the edges give the run `[s, e)` what `find_best_phrases` offers
/// for it when `dict` is asked with `strategy`.
pub open spec fn run_offered<D: Dictionary + ?Sized>(
    dict: &D,
    strategy: LookupStrategy,
    com: Composition,
    edges: Seq<Edge>,
    cands: Seq<CandidateView>,
    s: int,
    e: int,
) -> bool {
    run_block(edges, cands, edges.len(), s, e) == dict_run_candidates(dict, strategy, com, s, e)
}

/// What `find_best_phrases` returned for a run of `com` is what
/// `run_candidates` says for the phrases the dictionary found.
proof fn lemma_offered_run(
    com: Composition,
    start: int,
    end: int,
    run: Seq<Symbol>,
    c: Seq<CandidateView>,
    f: Seq<PhraseCandidate>,
    found: Seq<PhraseView>,
)
    requires
        0 <= start < end <= com.symbols_spec().len(),
        run == com.symbols_spec().subrange(start, end),
        c == f.map_values(candidate_view()),
        !span_allowed(com, start, end) ==> f.len() == 0,
        span_allowed(com, start, end) && run.len() == 1 && (single_char(run[0]) is Some) ==> f.len()
            == 1 && f[0]@ == CandidateView::Symbol(single_char(run[0])->0),
        span_allowed(com, start, end) && !(run.len() == 1 && (single_char(run[0]) is Some))
            && !all_syllables(run) ==> f.len() == 0,
        span_allowed(com, start, end) && !(run.len() == 1 && (single_char(run[0]) is Some))
            && all_syllables(run) ==> c == span_candidates(com, start, end, found),
    ensures
        c == run_candidates(com, start, end, found),
{
    if !span_allowed(com, start, end) {
        assert(c =~= run_candidates(com, start, end, found));
    } else if run.len() == 1 && (single_char(run[0]) is Some) {
        assert(c =~= run_candidates(com, start, end, found));
    } else if !all_syllables(run) {
        assert(c =~= run_candidates(com, start, end, found));
    }
}

/// Appends the candidates `found` for `[start, end)` to `phrases`, each
/// with an edge numbered as its place.
fn push_candidates(
    edges: &mut Vec<Edge>,
    phrases: &mut Vec<PhraseCandidate>,
    start: usize,
    end: usize,
    found: Vec<PhraseCandidate>,
)
    requires
        old(edges)@.len() == old(phrases)@.len(),
    ensures
        final(edges)@.len() == final(phrases)@.len(),
        final(edges)@.len() == old(edges)@.len() + found@.len(),
        forall|k: int| 0 <= k < old(edges)@.len() ==> #[trigger] final(edges)@[k] == old(edges)@[k],
        forall|t: int|
            0 <= t < found@.len() ==> (#[trigger] final(edges)@[old(edges)@.len() + t]).start == start
                && final(edges)@[old(edges)@.len() + t].end == end && final(edges)@[old(edges)@.len()
                + t].sn == old(edges)@.len() + t,
        forall|k: int| 0 <= k < old(phrases)@.len() ==> #[trigger] final(phrases)@[k]@ == old(phrases)@[k]@,
        forall|t: int|
            0 <= t < found@.len() ==> #[trigger] final(phrases)@[old(phrases)@.len() + t]@
                == found@[t]@,
{
    let ghost e0 = edges@;
    let ghost p0 = phrases@;
    let ghost f0 = found@;
    let total = found.len();
    let mut rest = found;
    let mut taken: usize = 0;
    while rest.len() > 0
        invariant
            f0.len() == total,
            f0.len() == taken + rest@.len(),
            forall|t: int| 0 <= t < rest@.len() ==> #[trigger] rest@[t]@ == f0[taken + t]@,
            edges@.len() == phrases@.len(),
            edges@.len() == e0.len() + taken,
            p0.len() == e0.len(),
            forall|k: int| 0 <= k < e0.len() ==> #[trigger] edges@[k] == e0[k],
            forall|t: int|
                0 <= t < taken ==> (#[trigger] edges@[e0.len() + t]).start == start && edges@[e0.len()
                    + t].end == end && edges@[e0.len() + t].sn == e0.len() + t,
            forall|k: int| 0 <= k < p0.len() ==> #[trigger] phrases@[k]@ == p0[k]@,
            forall|t: int| 0 <= t < taken ==> #[trigger] phrases@[p0.len() + t]@ == f0[t]@,
        decreases rest@.len(),
    {
        let ghost r0 = rest@;
        let cand = rest.remove(0);
        assert(cand@ == f0[taken as int]@);
        assert forall|t: int| 0 <= t < rest@.len() implies #[trigger] rest@[t]@ == f0[taken + 1
            + t]@ by {
            assert(rest@[t] == r0[t + 1]);
        }
        let sn = edges.len();
        edges.push(Edge { start, end, sn });
        phrases.push(cand);
        assert forall|t: int| 0 <= t < taken + 1 implies #[trigger] phrases@[p0.len() + t]@
            == f0[t]@ by {
            if t < taken {
            }
        }
        taken = taken + 1;
    }
}

impl ChewingEngine {
    /// Every candidate for every run of the composition that is at most
    /// `MAX_PHRASE_LEN` symbols long, runs taken by start, then by end: the
    /// edges of each run carry what `find_best_phrases` offers for it, in
    /// that order, for the phrases `dict` finds; edge `k` carries candidate
    /// `k`.
    #[verifier::spinoff_prover]
    pub fn find_edges<D: Dictionary + ?Sized>(&self, dict: &D, com: &Composition) -> (res: (
        Vec<Edge>,
        Vec<PhraseCandidate>,
    ))
        ensures
            res.0@.len() == res.1@.len(),
            forall|k: int|
                0 <= k < res.0@.len() ==> #[trigger] res.0@[k].sn == k && edge_fits(
                    *com,
                    res.0@[k],
                    res.1@[k]@,
                ),
            forall|k: int, m: int|
                0 <= k < m < res.0@.len() ==> edge_precedes(#[trigger] res.0@[k], #[trigger] res.0@[m]),
            forall|k: int, g: int|
                0 <= k < res.0@.len() && (#[trigger] res.0@[k]).start < g < res.0@[k].end ==> #[trigger] com.gap_spec(g)
                    != Some(Gap::Break),
            forall|s: int|
                0 <= s < com.symbols_spec().len() && single_char(#[trigger] com.symbols_spec()[s]) is Some
                    && no_crossing_selection(*com, s, s + 1) ==> has_symbol_edge(
                    *com,
                    res.0@,
                    res.1@.map_values(candidate_view()),
                    s,
                ),
            forall|s: int, e: int|
                0 <= s < e <= com.symbols_spec().len() && e - s <= MAX_PHRASE_LEN ==> #[trigger] run_offered(
                    dict,
                    self@,
                    *com,
                    res.0@,
                    res.1@.map_values(candidate_view()),
                    s,
                    e,
                ),
    {
        let symbols = com.symbols();
        let n = symbols.len();
        let mut edges: Vec<Edge> = Vec::new();
        let mut phrases: Vec<PhraseCandidate> = Vec::new();
        let mut start: usize = 0;
        while start < n
            invariant
                symbols@ == com.symbols_spec(),
                n == symbols@.len(),
                start <= n,
                edges@.len() == phrases@.len(),
                forall|k: int|
                    0 <= k < edges@.len() ==> #[trigger] edges@[k].sn == k && edge_fits(
                        *com,
                        edges@[k],
                        phrases@[k]@,
                    ),
                forall|k: int, m: int|
                    0 <= k < m < edges@.len() ==> edge_precedes(#[trigger] edges@[k], #[trigger] edges@[m]),
                forall|k: int| 0 <= k < edges@.len() ==> #[trigger] edges@[k].start < start,
                forall|s: int|
                    0 <= s < start && single_char(#[trigger] com.symbols_spec()[s]) is Some
                        && no_crossing_selection(*com, s, s + 1) ==> has_symbol_edge(
                        *com,
                        edges@,
                        phrases@.map_values(candidate_view()),
                        s,
                    ),
                forall|s: int, e: int|
                    0 <= s < start && s < e <= n && e - s <= MAX_PHRASE_LEN ==> #[trigger] run_offered(
                    dict,
                    self@,
                        *com,
                        edges@,
                        phrases@.map_values(candidate_view()),
                        s,
                        e,
                    ),
            decreases n - start,
        {
            let max_len = if n - start > MAX_PHRASE_LEN {
                MAX_PHRASE_LEN
            } else {
                n - start
            };
            let mut len: usize = 1;
            while len <= max_len
                invariant
                    symbols@ == com.symbols_spec(),
                    n == symbols@.len(),
                    start < n,
                    1 <= max_len <= MAX_PHRASE_LEN,
                    start + max_len <= n,
                    1 <= len <= max_len + 1,
                    edges@.len() == phrases@.len(),
                    forall|k: int|
                        0 <= k < edges@.len() ==> #[trigger] edges@[k].sn == k && edge_fits(
                            *com,
                            edges@[k],
                            phrases@[k]@,
                        ),
                    forall|k: int, m: int|
                        0 <= k < m < edges@.len() ==> edge_precedes(#[trigger] edges@[k], #[trigger] edges@[m]),
                    forall|k: int|
                        0 <= k < edges@.len() ==> #[trigger] edges@[k].start < start || (
                        edges@[k].start == start && edges@[k].end < start + len),
                    forall|s: int|
                        0 <= s < start && single_char(#[trigger] com.symbols_spec()[s]) is Some
                            && no_crossing_selection(*com, s, s + 1) ==> has_symbol_edge(
                            *com,
                            edges@,
                            phrases@.map_values(candidate_view()),
                            s,
                        ),
                    len > 1 ==> (single_char(com.symbols_spec()[start as int]) is Some
                        && no_crossing_selection(*com, start as int, start + 1) ==> has_symbol_edge(
                        *com,
                        edges@,
                        phrases@.map_values(candidate_view()),
                        start as int,
                    )),
                    forall|s: int, e: int|
                        (0 <= s < start || (s == start && e < start + len)) && s < e <= n && e - s
                            <= MAX_PHRASE_LEN ==> #[trigger] run_offered(
                    dict,
                    self@,
                            *com,
                            edges@,
                            phrases@.map_values(candidate_view()),
                            s,
                            e,
                        ),
                    n - start <= MAX_PHRASE_LEN ==> max_len == n - start,
                    n - start > MAX_PHRASE_LEN ==> max_len == MAX_PHRASE_LEN,
                decreases max_len + 1 - len,
            {
                let end = start + len;
                let run = vstd::slice::slice_subrange(symbols, start, end);
                let found = self.find_best_phrases(dict, start, run, com);
                let ghost e0 = edges@;
                let ghost p0 = phrases@;
                let ghost f0 = found@;
                proof {
                    assert(run@ =~= com.symbols_spec().subrange(start as int, end as int));
                    if len == 1 && single_char(com.symbols_spec()[start as int]) is Some
                        && no_crossing_selection(*com, start as int, start + 1) {
                        assert(run@[0] == com.symbols_spec()[start as int]);
                        assert(span_allowed(*com, start as int, end as int));
                    }
                }
                proof {
                    lemma_offered_run(
                        *com,
                        start as int,
                        end as int,
                        run@,
                        f0.map_values(candidate_view()),
                        f0,
                        dict.lookup_spec(run_syllables(run@), self@),
                    );
                }
                push_candidates(&mut edges, &mut phrases, start, end, found);
                proof {
                    let pvn = phrases@.map_values(candidate_view());
                    let pvo = p0.map_values(candidate_view());
                    let nn = e0.len();
                    let m = f0.len();
                    assert forall|s: int, e: int|
                        (0 <= s < start || (s == start && e < start + len + 1)) && s < e <= n && e - s
                            <= MAX_PHRASE_LEN implies #[trigger] run_offered(
                    dict,
                    self@,
                        *com,
                        edges@,
                        pvn,
                        s,
                        e,
                    ) by {
                        assert forall|t: int| 0 <= t < m implies (#[trigger] edges@[nn + t]).start
                            == start && edges@[nn + t].end == end by {}
                        lemma_run_block_append(edges@, pvn, nn, m, start as int, end as int, s, e);
                        assert forall|k: int| 0 <= k < nn implies edges@[k] == e0[k] by {}
                        assert forall|k: int| 0 <= k < nn implies pvn[k] == pvo[k] by {
                            assert(phrases@[k]@ == p0[k]@);
                        }
                        lemma_run_block_frame(edges@, pvn, e0, pvo, nn, s, e);
                        assert(edges@.len() == nn + m);
                        if s == start && e == end {
                            assert forall|k: int| 0 <= k < nn implies !((#[trigger] e0[k]).start == s
                                && e0[k].end == e) by {}
                            lemma_run_block_absent(e0, pvo, nn, s, e);
                            assert(pvn.subrange(nn as int, (nn + m) as int) =~= f0.map_values(
                                candidate_view(),
                            )) by {
                                assert forall|t: int| 0 <= t < m implies pvn[nn + t] == f0[t]@ by {
                                    assert(phrases@[p0.len() + t]@ == f0[t]@);
                                }
                            }
                            assert(run_block(edges@, pvn, edges@.len(), s, e) =~= f0.map_values(
                                candidate_view(),
                            ));
                        } else {
                            assert(run_offered(dict, self@, *com, e0, pvo, s, e));
                            assert(run_block(edges@, pvn, edges@.len(), s, e) =~= run_block(
                                e0,
                                pvo,
                                e0.len(),
                                s,
                                e,
                            ));
                        }
                    }
                }
                proof {
                    let pv = phrases@.map_values(candidate_view());
                    let pv0 = p0.map_values(candidate_view());
                    assert forall|k: int|
                        0 <= k < edges@.len() implies #[trigger] edges@[k].sn == k && edge_fits(
                        *com,
                        edges@[k],
                        phrases@[k]@,
                    ) by {
                        if k >= e0.len() {
                            let t = k - e0.len();
                            assert(edges@[e0.len() + t].sn == e0.len() + t);
                            assert(edges@[k].start == start && edges@[k].end == end);
                            assert(phrases@[p0.len() + t]@ == f0[t]@);
                            assert(span_allowed(*com, start as int, start + run@.len())
                                && candidate_fits_run(run@, f0[t]@));
                            assert(run@ == com.symbols_spec().subrange(start as int, end as int));
                            match f0[t]@ {
                                CandidateView::Symbol(ch) => {
                                    assert(run@[0] == com.symbols_spec()[start as int]);
                                },
                                _ => {},
                            }
                        } else {
                            assert(edges@[k] == e0[k]);
                            assert(phrases@[k]@ == p0[k]@);
                            assert(e0[k].sn == k);
                        }
                    }
                    assert forall|k: int, m: int|
                        0 <= k < m < edges@.len() implies edge_precedes(
                        #[trigger] edges@[k],
                        #[trigger] edges@[m],
                    ) by {
                        if m >= e0.len() {
                            assert(edges@[e0.len() + (m - e0.len())] == edges@[m]);
                            if k >= e0.len() {
                                assert(edges@[e0.len() + (k - e0.len())] == edges@[k]);
                            }
                        }
                    }
                    assert forall|k: int|
                        0 <= k < edges@.len() implies #[trigger] edges@[k].start < start || (
                        edges@[k].start == start && edges@[k].end < start + len + 1) by {
                        if k >= e0.len() {
                            assert(edges@[e0.len() + (k - e0.len())] == edges@[k]);
                        }
                    }
                    assert forall|s: int|
                        0 <= s <= start && single_char(#[trigger] com.symbols_spec()[s]) is Some
                            && no_crossing_selection(*com, s, s + 1) && (s < start || len > 1)
                            implies has_symbol_edge(*com, edges@, pv, s) by {
                        assert(has_symbol_edge(*com, e0, pv0, s));
                        let k = choose|k: int|
                            0 <= k < e0.len() && #[trigger] e0[k].start == s && e0[k].end == s + 1
                                && pv0[k] == CandidateView::Symbol(
                                single_char(com.symbols_spec()[s])->0,
                            );
                        assert(edges@[k] == e0[k]);
                        assert(phrases@[k]@ == p0[k]@);
                        assert(pv[k] == pv0[k]);
                    }
                    if len == 1 && single_char(com.symbols_spec()[start as int]) is Some
                        && no_crossing_selection(*com, start as int, start + 1) {
                        assert(run@[0] == com.symbols_spec()[start as int]);
                        assert(span_allowed(*com, start as int, start + run@.len()));
                        assert(f0.len() == 1);
                        let k = e0.len() as int;
                        assert(edges@[e0.len() + 0int] == edges@[k]);
                        assert(edges@[k].start == start && edges@[k].end == start + 1);
                        assert(phrases@[p0.len() + 0int]@ == f0[0]@);
                        assert(pv[k] == phrases@[k]@);
                        assert(has_symbol_edge(*com, edges@, pv, start as int));
                    }
                }
                len = len + 1;
            }
            start = start + 1;
        }
        proof {
            assert forall|k: int, g: int|
                0 <= k < edges@.len() && (#[trigger] edges@[k]).start < g < edges@[k].end implies #[trigger] com.gap_spec(
                g,
            ) != Some(Gap::Break) by {
                assert(edges@[k].sn == k && edge_fits(*com, edges@[k], phrases@[k]@));
            }
        }
        (edges, phrases)
    }
}

/// The edges that leave node `v`, in their order.
pub open spec fn edges_from(edges: Seq<Edge>, v: int) -> Seq<Edge> {
    edges.filter(|e: Edge| e.start == v)
}

fn collect_edges_from(edges: &Vec<Edge>, v: usize) -> (res: Vec<Edge>)
    ensures
        res@ == edges_from(edges@, v as int),
{
    let ghost pred = |e: Edge| e.start == v;
    let mut out: Vec<Edge> = Vec::new();
    let mut i: usize = 0;
    while i < edges.len()
        invariant
            pred == (|e: Edge| e.start == v),
            i <= edges@.len(),
            out@ == edges@.take(i as int).filter(pred),
        decreases edges@.len() - i,
    {
        proof {
            lemma_filter_take_step(edges@, i as int, pred);
        }
        if edges[i].start == v {
            out.push(edges[i]);
        }
        i = i + 1;
    }
    assert(edges@.take(edges@.len() as int) =~= edges@);
    out
}

/// The graph of the edges over the nodes `0..len`: entry `v` holds the
/// edges that leave node `v`, in their order.
pub fn edge_graph(len: usize, edges: &Vec<Edge>) -> (graph: Vec<Vec<Edge>>)
    requires
        forall|k: int| 0 <= k < edges@.len() ==> #[trigger] edges@[k].start < len,
    ensures
        graph@.len() == len,
        forall|v: int| 0 <= v < len ==> #[trigger] graph@[v]@ == edges_from(edges@, v),
{
    let mut graph: Vec<Vec<Edge>> = Vec::new();
    let mut v: usize = 0;
    while v < len
        invariant
            v <= len,
            graph@.len() == v,
            forall|u: int| 0 <= u < v ==> #[trigger] graph@[u]@ == edges_from(edges@, u),
        decreases len - v,
    {
        let from = collect_edges_from(edges, v);
        graph.push(from);
        v = v + 1;
    }
    graph
}

/// Marks the step a search starts from.
pub const NO_PARENT: usize = usize::MAX;

/// One step of a search through the edge graph: the node it reached, the
/// step it came from (`NO_PARENT` for the first step), and the number of the
/// edge it took.
#[derive(Clone, Copy, Debug, PartialEq, Eq, Structural)]
pub struct Hop {
    pub node: usize,
    pub parent: usize,
    pub edge_sn: usize,
}

/// Whether every step comes after the step it came from.
pub open spec fn hops_ordered(arena: Seq<Hop>) -> bool {
    forall|i: int|
        0 <= i < arena.len() ==> #[trigger] arena[i].parent == NO_PARENT || arena[i].parent < i
}

/// The edges taken from the first step to step `idx`, first edge first.
pub open spec fn path_to(arena: Seq<Hop>, idx: int) -> Seq<Edge>
    decreases idx,
{
    if 0 <= idx < arena.len() && arena[idx].parent != NO_PARENT && arena[idx].parent < idx {
        let p = arena[idx].parent as int;
        path_to(arena, p).push(
            Edge { start: arena[p].node, end: arena[idx].node, sn: arena[idx].edge_sn },
        )
    } else {
        Seq::empty()
    }
}

/// The edges taken from the first step to step `idx`, first edge first.
pub fn reconstruct(arena: &Vec<Hop>, idx: usize) -> (res: Vec<Edge>)
    requires
        idx < arena@.len(),
        hops_ordered(arena@),
    ensures
        res@ == path_to(arena@, idx as int),
{
    let mut edges: Vec<Edge> = Vec::new();
    let mut cur = idx;
    assert(path_to(arena@, idx as int) =~= path_to(arena@, cur as int) + edges@);
    while arena[cur].parent != NO_PARENT
        invariant
            cur < arena@.len(),
            hops_ordered(arena@),
            path_to(arena@, idx as int) == path_to(arena@, cur as int) + edges@,
        decreases cur,
    {
        let p = arena[cur].parent;
        assert(p < cur);
        let e = Edge { start: arena[p].node, end: arena[cur].node, sn: arena[cur].edge_sn };
        let ghost before = edges@;
        edges.insert(0, e);
        assert(path_to(arena@, cur as int) == path_to(arena@, p as int).push(e));
        assert(path_to(arena@, p as int).push(e) + before =~= path_to(arena@, p as int) + edges@);
        cur = p;
    }
    assert(path_to(arena@, cur as int) =~= Seq::<Edge>::empty());
    assert(Seq::<Edge>::empty() + edges@ =~= edges@);
    edges
}

/// Taking phrases in order of frequency takes `m` of them, or all of them
/// when there are fewer, each one out of `s`, and never a less frequent one
/// before a more frequent one.
pub proof fn lemma_most_frequent_first(s: Seq<PhraseView>, m: nat)
    ensures
        most_frequent_first(s, m).len() == if m < s.len() {
            m
        } else {
            s.len()
        },
        forall|k: int|
            0 <= k < most_frequent_first(s, m).len() ==> s.contains(
                #[trigger] most_frequent_first(s, m)[k],
            ),
        forall|k: int, l: int|
            0 <= k < l < most_frequent_first(s, m).len() ==> freq_key(
                (#[trigger] most_frequent_first(s, m)[k]).1,
            ) >= freq_key((#[trigger] most_frequent_first(s, m)[l]).1),
    decreases m,
{
    if m == 0 || s.len() == 0 {
    } else {
        let i = choose|i: int| is_first_most_frequent(s, i);
        lemma_first_most_frequent_exists(s);
        let rest = s.remove(i);
        lemma_most_frequent_first(rest, (m - 1) as nat);
        let r = most_frequent_first(s, m);
        let t = most_frequent_first(rest, (m - 1) as nat);
        assert(r == seq![s[i]] + t);
        assert forall|k: int| 0 <= k < r.len() implies s.contains(#[trigger] r[k]) by {
            if k == 0 {
                assert(s[i] == r[0]);
            } else {
                assert(r[k] == t[k - 1]);
                assert(rest.contains(t[k - 1]));
                let j = choose|j: int| 0 <= j < rest.len() && rest[j] == t[k - 1];
                if j < i {
                    assert(s[j] == rest[j]);
                } else {
                    assert(s[j + 1] == rest[j]);
                }
            }
        }
        assert forall|k: int, l: int| 0 <= k < l < r.len() implies freq_key(
            (#[trigger] r[k]).1,
        ) >= freq_key((#[trigger] r[l]).1) by {
            assert(r[l] == t[l - 1]);
            if k == 0 {
                assert(rest.contains(t[l - 1]));
                let j = choose|j: int| 0 <= j < rest.len() && rest[j] == t[l - 1];
                if j < i {
                    assert(s[j] == rest[j]);
                } else {
                    assert(s[j + 1] == rest[j]);
                }
            } else {
                assert(r[k] == t[k - 1]);
            }
        }
    }
}

/// A nonempty list of phrases has a first most frequent one.
proof fn lemma_first_most_frequent_exists(s: Seq<PhraseView>)
    requires
        s.len() > 0,
    ensures
        exists|i: int| is_first_most_frequent(s, i),
    decreases s.len(),
{
    if s.len() == 1 {
        assert(is_first_most_frequent(s, 0));
    } else {
        let t = s.drop_last();
        lemma_first_most_frequent_exists(t);
        let i = choose|i: int| is_first_most_frequent(t, i);
        assert forall|j: int| 0 <= j < t.len() implies #[trigger] s[j] == t[j] by {}
        assert(freq_key(t[i].1) == freq_key(s[i].1));
        if freq_key(s.last().1) > freq_key(s[i].1) {
            assert forall|j: int| 0 <= j < s.len() implies freq_key(#[trigger] s[j].1) <= freq_key(
                s[s.len() - 1].1,
            ) by {
                if j < t.len() {
                    assert(freq_key(t[j].1) <= freq_key(t[i].1));
                }
            }
            assert(is_first_most_frequent(s, s.len() - 1));
        } else {
            assert forall|j: int| 0 <= j < s.len() implies freq_key(#[trigger] s[j].1) <= freq_key(
                s[i].1,
            ) by {
                if j < t.len() {
                    assert(freq_key(t[j].1) <= freq_key(t[i].1));
                }
            }
            assert forall|j: int| 0 <= j < i implies freq_key(#[trigger] s[j].1) < freq_key(
                s[i].1,
            ) by {
                assert(freq_key(t[j].1) < freq_key(t[i].1));
            }
            assert(is_first_most_frequent(s, i));
        }
    }
}

/// The edges from the first step to a step form a path: each edge starts
/// where the one before ends, the first starts at the node of the first
/// step, and the last ends at the node of the step.
pub proof fn lemma_path_is_connected(arena: Seq<Hop>, idx: int)
    requires
        0 <= idx < arena.len(),
        hops_ordered(arena),
    ensures
        forall|k: int|
            0 <= k < path_to(arena, idx).len() - 1 ==> (#[trigger] path_to(arena, idx)[k]).end
                == path_to(arena, idx)[k + 1].start,
        path_to(arena, idx).len() > 0 ==> path_to(arena, idx).last().end == arena[idx].node,
        path_to(arena, idx).len() > 0 ==> path_to(arena, idx)[0].start == arena[root_of(
            arena,
            idx,
        )].node,
        0 <= root_of(arena, idx) < arena.len(),
        arena[root_of(arena, idx)].parent == NO_PARENT,
    decreases idx,
{
    if arena[idx].parent != NO_PARENT {
        let p = arena[idx].parent as int;
        lemma_path_is_connected(arena, p);
        let q = path_to(arena, p);
        let e = Edge { start: arena[p].node, end: arena[idx].node, sn: arena[idx].edge_sn };
        assert(path_to(arena, idx) == q.push(e));
        if q.len() > 0 {
            assert(q.push(e)[q.len() - 1] == q.last());
            assert(q.push(e)[0] == q[0]);
        }
    }
}

/// The first step that `idx` goes back to.
pub open spec fn root_of(arena: Seq<Hop>, idx: int) -> int
    decreases idx,
{
    if 0 <= idx < arena.len() && arena[idx].parent != NO_PARENT && arena[idx].parent < idx {
        root_of(arena, arena[idx].parent as int)
    } else {
        idx
    }
}

/// The phrases that rank as `x`.
pub open spec fn ranks_as(x: u32) -> spec_fn(PhraseView) -> bool {
    |p: PhraseView| freq_key(p.1) == x
}

/// Phrases that rank alike are taken in the order they were found: the ones
/// taken that rank as `x` are the first ones found that rank as `x`.
pub proof fn lemma_most_frequent_first_keeps_order(s: Seq<PhraseView>, m: nat, x: u32)
    ensures
        most_frequent_first(s, m).filter(ranks_as(x)).is_prefix_of(s.filter(ranks_as(x))),
    decreases m,
{
    let p = ranks_as(x);
    if m == 0 || s.len() == 0 {
        assert(most_frequent_first(s, m).filter(p) =~= Seq::<PhraseView>::empty());
    } else {
        lemma_first_most_frequent_exists(s);
        let i = choose|i: int| is_first_most_frequent(s, i);
        let rest = s.remove(i);
        let t = most_frequent_first(rest, (m - 1) as nat);
        lemma_most_frequent_first_keeps_order(rest, (m - 1) as nat, x);
        assert(most_frequent_first(s, m) == seq![s[i]] + t);
        t.lemma_filter_prepend(s[i], p);
        let before = s.take(i);
        let after = s.skip(i + 1);
        assert(s =~= before + (seq![s[i]] + after));
        assert(rest =~= before + after);
        Seq::filter_distributes_over_add(before, seq![s[i]] + after, p);
        Seq::filter_distributes_over_add(before, after, p);
        after.lemma_filter_prepend(s[i], p);
        if p(s[i]) {
            assert(before.all(|y: PhraseView| !p(y))) by {
                assert forall|j: int| 0 <= j < before.len() implies !p(#[trigger] before[j]) by {
                    assert(before[j] == s[j]);
                    assert(freq_key(s[j].1) < freq_key(s[i].1));
                }
            }
            before.lemma_all_neg_filter_empty(p);
            assert(before.filter(p) =~= Seq::<PhraseView>::empty());
            assert(s.filter(p) =~= seq![s[i]] + after.filter(p));
            assert(rest.filter(p) =~= after.filter(p));
            let a = t.filter(p);
            let b = after.filter(p);
            assert((seq![s[i]] + a) =~= (seq![s[i]] + b).subrange(0, a.len() + 1int));
        } else {
            assert(s.filter(p) =~= rest.filter(p));
            assert(most_frequent_first(s, m).filter(p) =~= t.filter(p));
        }
    }
}

/// The interval that the candidate `c` makes over the run of `e`.
pub open spec fn edge_interval(e: Edge, c: CandidateView) -> IntervalView {
    (e.start, e.end, !(c is Symbol), candidate_text(c))
}

/// The intervals of the reading that follows `path`, each edge numbered
/// `sn` making the interval of candidate `sn` over its run, glued from left
/// to right.
pub fn path_intervals(com: &Composition, path: &Vec<Edge>, candidates: &Vec<PhraseCandidate>) -> (res:
    Vec<Interval>)
    requires
        forall|i: int| 0 <= i < path@.len() ==> (#[trigger] path@[i]).sn < candidates@.len(),
    ensures
        res@.map_values(interval_view()) == glued(
            *com,
            path@.map_values(|e: Edge| edge_interval(e, candidates@[e.sn as int]@)),
        ),
{
    let ghost want = path@.map_values(|e: Edge| edge_interval(e, candidates@[e.sn as int]@));
    let mut intervals: Vec<Interval> = Vec::new();
    let mut i: usize = 0;
    while i < path.len()
        invariant
            want == path@.map_values(|e: Edge| edge_interval(e, candidates@[e.sn as int]@)),
            forall|j: int| 0 <= j < path@.len() ==> (#[trigger] path@[j]).sn < candidates@.len(),
            i <= path@.len(),
            intervals@.map_values(interval_view()) == want.take(i as int),
        decreases path@.len() - i,
    {
        let e = path[i];
        let iv = candidates[e.sn].to_interval(e.start, e.end);
        let ghost before = intervals@.map_values(interval_view());
        intervals.push(iv);
        assert(intervals@.map_values(interval_view()) =~= want.take(i + 1)) by {
            assert(intervals@.map_values(interval_view()) =~= before.push(want[i as int]));
        }
        i = i + 1;
    }
    assert(want.take(path@.len() as int) =~= want);
    glue_intervals(com, &intervals)
}

} // verus!
