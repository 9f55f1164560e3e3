//! Parsing the lines of a phrase source file: a phrase, its frequency, and
//! the Zhuyin syllables of the phrase, separated by spaces or commas.
use vstd::prelude::*;
use vstd::std_specs::iter::IteratorSpec;

use crate::grapheme::graphemes;
use crate::grapheme::split_graphemes;
use crate::text::split_once_char;
use crate::text::split_once_spec;
use crate::text::str_eq;
use crate::zhuyin::bopomofo_of_char;
use crate::zhuyin::can_follow;
use crate::zhuyin::Bopomofo;
use crate::zhuyin::Syllable;

verus! {

broadcast use vstd::string::group_string_axioms;

/// Whether `c` has the Unicode `White_Space` property.
pub open spec fn white_space(c: char) -> bool {
    let u = c as u32;
    ||| 0x09 <= u <= 0x0D
    ||| u == 0x20
    ||| u == 0x85
    ||| u == 0xA0
    ||| u == 0x1680
    ||| 0x2000 <= u <= 0x200A
    ||| u == 0x2028
    ||| u == 0x2029
    ||| u == 0x202F
    ||| u == 0x205F
    ||| u == 0x3000
}

fn is_white_space(c: char) -> (res: bool)
    ensures
        res == white_space(c),
{
    let u = c as u32;
    (0x09 <= u && u <= 0x0D) || u == 0x20 || u == 0x85 || u == 0xA0 || u == 0x1680 || (0x2000
        <= u && u <= 0x200A) || u == 0x2028 || u == 0x2029 || u == 0x202F || u == 0x205F || u
        == 0x3000
}

/// What separates the fields of a line.
#[derive(Clone, Copy, Debug, PartialEq, Eq, Structural)]
pub enum Separator {
    /// One given character.
    Char(char),
    /// A comma or any white space.
    CommaOrSpace,
}

pub open spec fn separates(sep: Separator, c: char) -> bool {
    match sep {
        Separator::Char(d) => c == d,
        Separator::CommaOrSpace => c == ',' || white_space(c),
    }
}

fn is_separator(sep: Separator, c: char) -> (res: bool)
    ensures
        res == separates(sep, c),
{
    match sep {
        Separator::Char(d) => c == d,
        Separator::CommaOrSpace => c == ',' || is_white_space(c),
    }
}

/// The fields found in the first `i` codepoints of `s`, as ranges, and where
/// the field still open starts.
pub open spec fn field_scan(s: Seq<char>, sep: Separator, i: int) -> (Seq<(int, int)>, int)
    decreases i,
{
    if i <= 0 {
        (Seq::empty(), 0)
    } else {
        let (r, start) = field_scan(s, sep, i - 1);
        if separates(sep, s[i - 1]) {
            (if start < i - 1 { r.push((start, i - 1)) } else { r }, i)
        } else {
            (r, start)
        }
    }
}

/// The fields of `s`: the maximal non empty runs of codepoints that are not
/// separators, as ranges.
pub open spec fn field_ranges(s: Seq<char>, sep: Separator) -> Seq<(int, int)> {
    let (r, start) = field_scan(s, sep, s.len() as int);
    if start < s.len() {
        r.push((start, s.len() as int))
    } else {
        r
    }
}

/// The fields of `s`.
pub open spec fn fields(s: Seq<char>, sep: Separator) -> Seq<Seq<char>> {
    field_ranges(s, sep).map_values(|r: (int, int)| s.subrange(r.0, r.1))
}

/// A set of characters that can be trimmed off the ends of a text.
#[derive(Clone, Copy, Debug, PartialEq, Eq, Structural)]
pub enum CharClass {
    /// The double quote.
    Quote,
    /// White space.
    WhiteSpace,
    /// One given character.
    Only(char),
}

pub open spec fn in_class(cls: CharClass, c: char) -> bool {
    match cls {
        CharClass::Quote => c == '"',
        CharClass::WhiteSpace => white_space(c),
        CharClass::Only(d) => c == d,
    }
}

fn is_in_class(cls: CharClass, c: char) -> (res: bool)
    ensures
        res == in_class(cls, c),
{
    match cls {
        CharClass::Quote => c == '"',
        CharClass::WhiteSpace => is_white_space(c),
        CharClass::Only(d) => c == d,
    }
}

/// `p` without its leading characters of the class.
pub open spec fn trim_start_in(p: Seq<char>, cls: CharClass) -> Seq<char>
    decreases p.len(),
{
    if p.len() > 0 && in_class(cls, p[0]) {
        trim_start_in(p.drop_first(), cls)
    } else {
        p
    }
}

/// `p` without its trailing characters of the class.
pub open spec fn trim_end_in(p: Seq<char>, cls: CharClass) -> Seq<char>
    decreases p.len(),
{
    if p.len() > 0 && in_class(cls, p.last()) {
        trim_end_in(p.drop_last(), cls)
    } else {
        p
    }
}

/// `p` without its leading and trailing characters of the class.
pub open spec fn trim_in(p: Seq<char>, cls: CharClass) -> Seq<char> {
    trim_end_in(trim_start_in(p, cls), cls)
}

/// `p` without its leading and trailing double quotes.
pub open spec fn trim_quotes(p: Seq<char>) -> Seq<char> {
    trim_in(p, CharClass::Quote)
}

pub open spec fn is_digit(c: char) -> bool {
    '0' <= c <= '9'
}

/// The value of a run of decimal digits.
pub open spec fn digits_value(d: Seq<char>) -> nat
    decreases d.len(),
{
    if d.len() == 0 {
        0
    } else {
        10 * digits_value(d.drop_last()) + ((d.last() as u32 - '0' as u32) as nat)
    }
}

/// `p` without one leading `+`.
pub open spec fn strip_plus(p: Seq<char>) -> Seq<char> {
    if p.len() > 0 && p[0] == '+' {
        p.drop_first()
    } else {
        p
    }
}

/// Whether every codepoint of `d` is a decimal digit.
pub open spec fn all_digits(d: Seq<char>) -> bool {
    forall|i: int| 0 <= i < d.len() ==> is_digit(#[trigger] d[i])
}

/// The number written in `p`, as `u32` reads it: an optional `+`, then one or
/// more decimal digits, of a value that fits.
pub open spec fn parse_u32_spec(p: Seq<char>) -> Option<u32> {
    let d = strip_plus(p);
    if d.len() > 0 && all_digits(d) && digits_value(d) <= u32::MAX {
        Some(digits_value(d) as u32)
    } else {
        None
    }
}

/// Why a line could not be parsed.
#[derive(Clone, Copy, Debug, PartialEq, Eq, Structural)]
pub enum ParseLineError {
    /// The line has no phrase.
    MissingPhrase,
    /// The line has no frequency.
    MissingFrequency,
    /// The frequency is not a number that fits in `u32`.
    InvalidFrequency,
    /// A syllable holds a character that is not a Zhuyin symbol.
    InvalidBopomofo(char),
    /// A Zhuyin symbol cannot follow the ones before it in its syllable.
    InvalidSyllable(Bopomofo),
}

/// Replaces the CJK characters that look like Zhuyin symbols by those
/// symbols.
pub open spec fn fix_spec(c: char) -> char {
    if c == '\u{4E00}' {
        '\u{3127}'
    } else if c == '\u{4E2B}' {
        '\u{311A}'
    } else {
        c
    }
}

/// Replaces 一 by ㄧ and 丫 by ㄚ, two common mistakes in syllables.
pub fn fix_common_syllable_errors(c: char) -> (res: char)
    ensures
        res == fix_spec(c),
{
    if c == '\u{4E00}' {
        '\u{3127}'
    } else if c == '\u{4E2B}' {
        '\u{311A}'
    } else {
        c
    }
}

/// The Zhuyin symbols written in `t`, each character fixed first when `fix`
/// holds.
pub open spec fn syllable_of(t: Seq<char>, fix: bool) -> Result<Seq<Bopomofo>, ParseLineError>
    decreases t.len(),
{
    if t.len() == 0 {
        Ok(Seq::empty())
    } else {
        match syllable_of(t.drop_last(), fix) {
            Err(e) => Err(e),
            Ok(v) => {
                let c = if fix {
                    fix_spec(t.last())
                } else {
                    t.last()
                };
                match bopomofo_of_char(c) {
                    None => Err(ParseLineError::InvalidBopomofo(c)),
                    Some(b) => if can_follow(v, b) {
                        Ok(v.push(b))
                    } else {
                        Err(ParseLineError::InvalidSyllable(b))
                    },
                }
            },
        }
    }
}

/// The syllables written in the fields `toks`: each field without its
/// quotes, skipping empty ones, up to a field that starts with `#`.
pub open spec fn syllables_of(toks: Seq<Seq<char>>, fix: bool) -> Result<
    Seq<Seq<Bopomofo>>,
    ParseLineError,
>
    decreases toks.len(),
{
    if toks.len() == 0 {
        Ok(Seq::empty())
    } else {
        let t = trim_quotes(toks[0]);
        if t.len() == 0 {
            syllables_of(toks.drop_first(), fix)
        } else if t[0] == '#' {
            Ok(Seq::empty())
        } else {
            match syllable_of(t, fix) {
                Err(e) => Err(e),
                Ok(v) => match syllables_of(toks.drop_first(), fix) {
                    Err(e) => Err(e),
                    Ok(rest) => Ok(seq![v] + rest),
                },
            }
        }
    }
}

/// The fields after the first two.
pub open spec fn after_two(toks: Seq<Seq<char>>) -> Seq<Seq<char>> {
    if toks.len() >= 2 {
        toks.skip(2)
    } else {
        Seq::empty()
    }
}

/// What a line of a phrase source file holds: the syllables, the phrase and
/// its frequency. The phrase and the frequency are the first two fields
/// between `delimiter`s; the syllables are the fields between commas or
/// white space after the first two.
pub open spec fn parse_line_spec(delimiter: char, s: Seq<char>, fix: bool) -> Result<
    (Seq<Seq<Bopomofo>>, Seq<char>, u32),
    ParseLineError,
> {
    let t = fields(s, Separator::Char(delimiter));
    if t.len() < 1 {
        Err(ParseLineError::MissingPhrase)
    } else if t.len() < 2 {
        Err(ParseLineError::MissingFrequency)
    } else {
        match parse_u32_spec(trim_quotes(t[1])) {
            None => Err(ParseLineError::InvalidFrequency),
            Some(freq) => match syllables_of(after_two(fields(s, Separator::CommaOrSpace)), fix) {
                Err(e) => Err(e),
                Ok(syls) => Ok((syls, trim_quotes(t[0]), freq)),
            },
        }
    }
}

/// The view of each syllable.
pub open spec fn syllable_view() -> spec_fn(Syllable) -> Seq<Bopomofo> {
    |s: Syllable| s@
}


/// The view of each range as integers.
pub open spec fn range_view() -> spec_fn((usize, usize)) -> (int, int) {
    |r: (usize, usize)| (r.0 as int, r.1 as int)
}

/// The codepoints of a string.
fn chars_of(text: &str) -> (res: Vec<char>)
    ensures
        res@ == text@,
{
    let ghost s = text@;
    proof {
        crate::grapheme::lemma_len_le_utf8_size(s);
    }
    let size = text.as_bytes().len();
    let mut chars = text.chars();
    let mut out: Vec<char> = Vec::new();
    assert(s.skip(0) =~= s);
    loop
        invariant
            s == text@,
            s.len() <= size,
            IteratorSpec::remaining(&chars) == s.skip(out@.len() as int),
            out@ == s.take(out@.len() as int),
            out@.len() <= s.len(),
        ensures
            out@ == s,
        decreases s.len() - out@.len(),
    {
        let ghost i = out@.len() as int;
        match chars.next() {
            None => {
                assert(s.take(i) =~= s);
                break ;
            },
            Some(c) => {
                assert(c == s[i]);
                out.push(c);
                assert(out@ =~= s.take(i + 1));
                assert(s.skip(i).drop_first() =~= s.skip(i + 1));
            },
        }
    }
    out
}

/// The fields of `s` as ranges of codepoint indices.
fn field_ranges_exec(s: &Vec<char>, sep: Separator) -> (res: Vec<(usize, usize)>)
    ensures
        res@.map_values(range_view()) == field_ranges(s@, sep),
        forall|k: int|
            #![trigger res@[k]]
            0 <= k < res@.len() ==> res@[k].0 < res@[k].1 && res@[k].1 <= s@.len(),
{
    let mut r: Vec<(usize, usize)> = Vec::new();
    let mut start: usize = 0;
    let mut i: usize = 0;
    while i < s.len()
        invariant
            i <= s@.len(),
            start <= i,
            field_scan(s@, sep, i as int) == (r@.map_values(range_view()), start as int),
            forall|k: int| #![trigger r@[k]] 0 <= k < r@.len() ==> r@[k].0 < r@[k].1 && r@[k].1 <= i,
        decreases s@.len() - i,
    {
        if is_separator(sep, s[i]) {
            if start < i {
                let ghost before = r@.map_values(range_view());
                let ghost old_r = r@;
                r.push((start, i));
                assert forall|k: int| #![trigger r@[k]] 0 <= k < r@.len() implies r@[k].0 < r@[k].1
                    && r@[k].1 <= i by {
                    if k < old_r.len() {
                        assert(r@[k] == old_r[k]);
                    }
                }
                assert(r@.map_values(range_view()) =~= before.push((start as int, i as int)));
            }
            start = i + 1;
        }
        i = i + 1;
    }
    if start < s.len() {
        let ghost before = r@.map_values(range_view());
        let ghost old_r = r@;
        r.push((start, s.len()));
        assert forall|k: int| #![trigger r@[k]] 0 <= k < r@.len() implies r@[k].0 < r@[k].1
            && r@[k].1 <= s@.len() by {
            if k < old_r.len() {
                assert(r@[k] == old_r[k]);
            }
        }
        assert(r@.map_values(range_view()) =~= before.push((start as int, s@.len() as int)));
    }
    r
}

/// Where `[a, b)` starts once its leading characters of the class are gone.
fn trim_start_range(s: &Vec<char>, a: usize, b: usize, cls: CharClass) -> (res: usize)
    requires
        a <= b <= s@.len(),
    ensures
        a <= res <= b,
        s@.subrange(res as int, b as int) == trim_start_in(s@.subrange(a as int, b as int), cls),
{
    let mut x = a;
    while x < b && is_in_class(cls, s[x])
        invariant
            a <= x <= b <= s@.len(),
            trim_start_in(s@.subrange(a as int, b as int), cls) == trim_start_in(
                s@.subrange(x as int, b as int),
                cls,
            ),
        decreases b - x,
    {
        assert(s@.subrange(x as int, b as int).drop_first() =~= s@.subrange(x + 1, b as int));
        x = x + 1;
    }
    x
}

/// Where `[a, b)` ends once its trailing characters of the class are gone.
fn trim_end_range(s: &Vec<char>, a: usize, b: usize, cls: CharClass) -> (res: usize)
    requires
        a <= b <= s@.len(),
    ensures
        a <= res <= b,
        s@.subrange(a as int, res as int) == trim_end_in(s@.subrange(a as int, b as int), cls),
{
    let mut y = b;
    while y > a && is_in_class(cls, s[y - 1])
        invariant
            a <= y <= b <= s@.len(),
            trim_end_in(s@.subrange(a as int, b as int), cls) == trim_end_in(
                s@.subrange(a as int, y as int),
                cls,
            ),
        decreases y - a,
    {
        assert(s@.subrange(a as int, y as int).drop_last() =~= s@.subrange(a as int, y - 1));
        y = y - 1;
    }
    y
}

/// The range left of `[a, b)` once the characters of the class at both ends
/// are gone.
fn trim_range_in(s: &Vec<char>, a: usize, b: usize, cls: CharClass) -> (res: (usize, usize))
    requires
        a <= b <= s@.len(),
    ensures
        a <= res.0 <= res.1 <= b,
        s@.subrange(res.0 as int, res.1 as int) == trim_in(s@.subrange(a as int, b as int), cls),
{
    let x = trim_start_range(s, a, b, cls);
    let y = trim_end_range(s, x, b, cls);
    (x, y)
}

/// The range left of `[a, b)` once the double quotes at both ends are gone.
fn trim_range(s: &Vec<char>, a: usize, b: usize) -> (res: (usize, usize))
    requires
        a <= b <= s@.len(),
    ensures
        a <= res.0 <= res.1 <= b,
        s@.subrange(res.0 as int, res.1 as int) == trim_quotes(s@.subrange(a as int, b as int)),
{
    trim_range_in(s, a, b, CharClass::Quote)
}

proof fn lemma_digits_value_mono(d: Seq<char>, m: int)
    requires
        0 <= m <= d.len(),
        forall|i: int| 0 <= i < d.len() ==> is_digit(#[trigger] d[i]),
    ensures
        digits_value(d.take(m)) <= digits_value(d),
    decreases d.len(),
{
    if m < d.len() {
        assert(d.drop_last().take(m) =~= d.take(m));
        assert forall|i: int| 0 <= i < d.drop_last().len() implies is_digit(
            #[trigger] d.drop_last()[i],
        ) by {
            assert(d.drop_last()[i] == d[i]);
        }
        lemma_digits_value_mono(d.drop_last(), m);
    } else {
        assert(d.take(m) =~= d);
    }
}

/// The number written in `[a, b)`, as `u32` reads it.
fn parse_u32_range(s: &Vec<char>, a: usize, b: usize) -> (res: Option<u32>)
    requires
        a <= b <= s@.len(),
    ensures
        res == parse_u32_spec(s@.subrange(a as int, b as int)),
{
    let ghost p = s@.subrange(a as int, b as int);
    let mut i = a;
    assert(p.len() > 0 ==> p[0] == s@[a as int]);
    if i < b && s[i] == '+' {
        assert(p.drop_first() =~= s@.subrange(a + 1, b as int));
        i = i + 1;
    }
    let ds = i;
    let ghost d = strip_plus(p);
    assert(d =~= s@.subrange(ds as int, b as int));
    if ds == b {
        return None;
    }
    let mut v: u64 = 0;
    assert(s@.subrange(ds as int, ds as int) =~= Seq::<char>::empty());
    while i < b
        invariant
            a <= ds <= i <= b <= s@.len(),
            p == s@.subrange(a as int, b as int),
            d == strip_plus(p),
            d == s@.subrange(ds as int, b as int),
            d.len() > 0,
            forall|j: int| ds <= j < i ==> is_digit(#[trigger] s@[j]),
            v == digits_value(s@.subrange(ds as int, i as int)),
            v <= u32::MAX,
        decreases b - i,
    {
        let c = s[i];
        assert(d[i - ds] == c);
        if !('0' <= c && c <= '9') {
            assert(!is_digit(d[i - ds]));
            assert(!all_digits(d));
            assert(parse_u32_spec(p) is None);
            return None;
        }
        assert(s@.subrange(ds as int, i + 1).drop_last() =~= s@.subrange(ds as int, i as int));
        assert(s@.subrange(ds as int, i + 1).last() == c);
        let digit = (c as u32 - '0' as u32) as u64;
        let nv = v * 10 + digit;
        if nv > 0xFFFF_FFFF {
            proof {
                assert(digits_value(s@.subrange(ds as int, i + 1)) == nv);
                if all_digits(d) {
                    assert(d.take(i + 1 - ds) =~= s@.subrange(ds as int, i + 1));
                    lemma_digits_value_mono(d, i + 1 - ds);
                    assert(digits_value(d) > u32::MAX);
                }
                assert(parse_u32_spec(p) is None);
            }
            return None;
        }
        v = nv;
        i = i + 1;
    }
    assert(s@.subrange(ds as int, i as int) =~= d);
    assert(all_digits(d)) by {
        assert forall|j: int| 0 <= j < d.len() implies is_digit(#[trigger] d[j]) by {
            assert(d[j] == s@[ds + j]);
        }
    }
    Some(v as u32)
}

proof fn lemma_syllable_of_err(t: Seq<char>, m: int, fix: bool)
    requires
        0 <= m <= t.len(),
        syllable_of(t.take(m), fix) is Err,
    ensures
        syllable_of(t, fix) == syllable_of(t.take(m), fix),
    decreases t.len(),
{
    if m == t.len() {
        assert(t.take(m) =~= t);
    } else {
        assert(t.drop_last().take(m) =~= t.take(m));
        lemma_syllable_of_err(t.drop_last(), m, fix);
    }
}

/// The syllable written in `[a, b)`.
fn syllable_range(s: &Vec<char>, a: usize, b: usize, fix: bool) -> (res: Result<
    Syllable,
    ParseLineError,
>)
    requires
        a <= b <= s@.len(),
    ensures
        match res {
            Ok(syl) => syllable_of(s@.subrange(a as int, b as int), fix) == Ok::<
                Seq<Bopomofo>,
                ParseLineError,
            >(syl@),
            Err(e) => syllable_of(s@.subrange(a as int, b as int), fix) == Err::<
                Seq<Bopomofo>,
                ParseLineError,
            >(e),
        },
{
    let ghost t = s@.subrange(a as int, b as int);
    let mut builder = Syllable::builder();
    let mut i = a;
    assert(s@.subrange(a as int, a as int) =~= Seq::<char>::empty());
    while i < b
        invariant
            a <= i <= b <= s@.len(),
            t == s@.subrange(a as int, b as int),
            syllable_of(s@.subrange(a as int, i as int), fix) == Ok::<
                Seq<Bopomofo>,
                ParseLineError,
            >(builder@),
        decreases b - i,
    {
        let ghost next = s@.subrange(a as int, i + 1);
        assert(next.drop_last() =~= s@.subrange(a as int, i as int));
        assert(next.last() == s@[i as int]);
        assert(t.take(i + 1 - a) =~= next);
        let c = s[i];
        let c = if fix {
            fix_common_syllable_errors(c)
        } else {
            c
        };
        let bo = match Bopomofo::try_from(c) {
            Ok(x) => x,
            Err(_) => {
                proof {
                    lemma_syllable_of_err(t, i + 1 - a, fix);
                }
                return Err(ParseLineError::InvalidBopomofo(c));
            },
        };
        builder = match builder.insert(bo) {
            Ok(nb) => nb,
            Err(_) => {
                proof {
                    lemma_syllable_of_err(t, i + 1 - a, fix);
                }
                return Err(ParseLineError::InvalidSyllable(bo));
            },
        };
        i = i + 1;
    }
    Ok(builder.build())
}

/// The syllables found so far, followed by what the remaining fields give.
pub open spec fn prepend_syllables(
    done: Seq<Seq<Bopomofo>>,
    rest: Result<Seq<Seq<Bopomofo>>, ParseLineError>,
) -> Result<Seq<Seq<Bopomofo>>, ParseLineError> {
    match rest {
        Ok(x) => Ok(done + x),
        Err(e) => Err(e),
    }
}

/// Parses one line of a phrase source file: the phrase, its frequency and
/// its syllables. With `fix`, the characters 一 and 丫 in syllables are read
/// as the Zhuyin symbols ㄧ and ㄚ.
pub fn parse_line(delimiter: char, line: &str, fix: bool) -> (res: Result<
    (Vec<Syllable>, &str, u32),
    ParseLineError,
>)
    ensures
        match res {
            Ok((syls, phrase, freq)) => parse_line_spec(delimiter, line@, fix) == Ok::<
                (Seq<Seq<Bopomofo>>, Seq<char>, u32),
                ParseLineError,
            >((syls@.map_values(syllable_view()), phrase@, freq)),
            Err(e) => parse_line_spec(delimiter, line@, fix) == Err::<
                (Seq<Seq<Bopomofo>>, Seq<char>, u32),
                ParseLineError,
            >(e),
        },
{
    let chars = chars_of(line);
    let ghost s = chars@;
    let first = field_ranges_exec(&chars, Separator::Char(delimiter));
    let ghost f1 = fields(s, Separator::Char(delimiter));
    assert(f1.len() == first@.len());
    if first.len() < 1 {
        return Err(ParseLineError::MissingPhrase);
    }
    if first.len() < 2 {
        return Err(ParseLineError::MissingFrequency);
    }
    assert(f1[0] == s.subrange(first@[0].0 as int, first@[0].1 as int));
    assert(f1[1] == s.subrange(first@[1].0 as int, first@[1].1 as int));
    let (pa, pb) = trim_range(&chars, first[0].0, first[0].1);
    let (fa, fb) = trim_range(&chars, first[1].0, first[1].1);
    let freq = match parse_u32_range(&chars, fa, fb) {
        Some(f) => f,
        None => return Err(ParseLineError::InvalidFrequency),
    };
    let second = field_ranges_exec(&chars, Separator::CommaOrSpace);
    let ghost f2 = fields(s, Separator::CommaOrSpace);
    assert(f2.len() == second@.len());
    let mut syls: Vec<Syllable> = Vec::new();
    if second.len() >= 2 {
        let mut k: usize = 2;
        let mut hashed = false;
        assert(after_two(f2) =~= f2.subrange(2, f2.len() as int));
        assert(syls@.map_values(syllable_view()) + Seq::<Seq<Bopomofo>>::empty()
            =~= syls@.map_values(syllable_view()));
        while k < second.len() && !hashed
            invariant
                s == chars@,
                s == line@,
                f1 == fields(s, Separator::Char(delimiter)),
                f1.len() >= 2,
                parse_u32_spec(trim_quotes(f1[1])) == Some(freq),
                f2 == fields(s, Separator::CommaOrSpace),
                f2.len() == second@.len(),
                second@.map_values(range_view()) == field_ranges(s, Separator::CommaOrSpace),
                forall|j: int|
                    #![trigger second@[j]]
                    0 <= j < second@.len() ==> second@[j].0 < second@[j].1 && second@[j].1
                        <= s.len(),
                2 <= k <= second@.len(),
                hashed ==> syllables_of(after_two(f2), fix) == Ok::<
                    Seq<Seq<Bopomofo>>,
                    ParseLineError,
                >(syls@.map_values(syllable_view())),
                !hashed ==> syllables_of(after_two(f2), fix) == prepend_syllables(
                    syls@.map_values(syllable_view()),
                    syllables_of(f2.subrange(k as int, f2.len() as int), fix),
                ),
            decreases second@.len() - k, if hashed {
                0int
            } else {
                1int
            },
        {
            let ghost rest = f2.subrange(k as int, f2.len() as int);
            let ghost done = syls@.map_values(syllable_view());
            assert(second@[k as int].0 < second@[k as int].1 && second@[k as int].1 <= s.len());
            assert(rest[0] == f2[k as int]);
            assert(field_ranges(s, Separator::CommaOrSpace)[k as int] == (
            second@[k as int].0 as int, second@[k as int].1 as int));
            assert(f2[k as int] == s.subrange(second@[k as int].0 as int, second@[k as int].1 as int));
            assert(rest.drop_first() =~= f2.subrange(k + 1, f2.len() as int));
            let (ta, tb) = trim_range(&chars, second[k].0, second[k].1);
            let ghost t = s.subrange(ta as int, tb as int);
            assert(t == trim_quotes(rest[0]));
            if ta == tb {
                assert(t =~= Seq::<char>::empty());
                assert(syllables_of(rest, fix) == syllables_of(rest.drop_first(), fix));
                k = k + 1;
            } else if chars[ta] == '#' {
                assert(t[0] == chars@[ta as int]);
                assert(syllables_of(rest, fix) == Ok::<Seq<Seq<Bopomofo>>, ParseLineError>(
                    Seq::empty(),
                ));
                assert(done + Seq::<Seq<Bopomofo>>::empty() =~= done);
                hashed = true;
            } else {
                assert(t[0] == chars@[ta as int]);
                let syl = match syllable_range(&chars, ta, tb, fix) {
                    Ok(x) => x,
                    Err(e) => {
                        assert(syllables_of(rest, fix) == Err::<Seq<Seq<Bopomofo>>, ParseLineError>(
                            e,
                        ));
                        return Err(e);
                    },
                };
                syls.push(syl);
                assert(syls@.map_values(syllable_view()) =~= done.push(syl@));
                proof {
                    match syllables_of(rest.drop_first(), fix) {
                        Ok(x) => {
                            assert(syllables_of(rest, fix) == Ok::<
                                Seq<Seq<Bopomofo>>,
                                ParseLineError,
                            >(seq![syl@] + x));
                            assert(done + (seq![syl@] + x) =~= done.push(syl@) + x);
                        },
                        Err(e) => {
                            assert(syllables_of(rest, fix) == Err::<
                                Seq<Seq<Bopomofo>>,
                                ParseLineError,
                            >(e));
                        },
                    }
                }
                k = k + 1;
            }
        }
        proof {
            if !hashed {
                assert(f2.subrange(k as int, f2.len() as int) =~= Seq::<Seq<char>>::empty());
                assert(syls@.map_values(syllable_view()) + Seq::<Seq<Bopomofo>>::empty()
                    =~= syls@.map_values(syllable_view()));
            }
        }
    } else {
        assert(syls@.map_values(syllable_view()) =~= Seq::<Seq<Bopomofo>>::empty());
    }
    let phrase = line.substring_char(pa, pb);
    Ok((syls, phrase, freq))
}

/// A metadata key of the front matter of a phrase source file.
#[derive(Clone, Copy, Debug, PartialEq, Eq, Structural)]
pub enum MetadataKey {
    /// `dc:title`, the name of the dictionary.
    Title,
    /// `dc:rights`, its copyright.
    Rights,
    /// `dc:license`, its license.
    License,
    /// `dc:identifier`, its version.
    Identifier,
    /// `dc:type`, its usage.
    Type,
    /// Any other key, which is ignored.
    Other,
}

/// The metadata key written `k`.
pub open spec fn metadata_key(k: Seq<char>) -> MetadataKey {
    if k == "dc:title"@ {
        MetadataKey::Title
    } else if k == "dc:rights"@ {
        MetadataKey::Rights
    } else if k == "dc:license"@ {
        MetadataKey::License
    } else if k == "dc:identifier"@ {
        MetadataKey::Identifier
    } else if k == "dc:type"@ {
        MetadataKey::Type
    } else {
        MetadataKey::Other
    }
}

/// Each metadata key is named by its Dublin Core field and by nothing else:
/// `dc:title` is the title, `dc:rights` the rights, `dc:license` the
/// license, `dc:identifier` the identifier and `dc:type` the type; every
/// other text is an unknown key.
pub proof fn lemma_metadata_keys_by_field(k: Seq<char>)
    ensures
        (metadata_key(k) == MetadataKey::Title) == (k == "dc:title"@),
        (metadata_key(k) == MetadataKey::Rights) == (k == "dc:rights"@),
        (metadata_key(k) == MetadataKey::License) == (k == "dc:license"@),
        (metadata_key(k) == MetadataKey::Identifier) == (k == "dc:identifier"@),
        (metadata_key(k) == MetadataKey::Type) == (k == "dc:type"@),
        (metadata_key(k) == MetadataKey::Other) == (k != "dc:title"@ && k != "dc:rights"@ && k
            != "dc:license"@ && k != "dc:identifier"@ && k != "dc:type"@),
{
    reveal_strlit("dc:title");
    reveal_strlit("dc:rights");
    reveal_strlit("dc:license");
    reveal_strlit("dc:identifier");
    reveal_strlit("dc:type");
    assert("dc:title"@ != "dc:rights"@) by {
        assert("dc:title"@[3] != "dc:rights"@[3]);
    }
    assert("dc:title"@ != "dc:license"@) by {
        assert("dc:title"@[3] != "dc:license"@[3]);
    }
    assert("dc:title"@ != "dc:identifier"@) by {
        assert("dc:title"@[3] != "dc:identifier"@[3]);
    }
    assert("dc:title"@ != "dc:type"@) by {
        assert("dc:title"@[4] != "dc:type"@[4]);
    }
    assert("dc:rights"@ != "dc:license"@) by {
        assert("dc:rights"@[3] != "dc:license"@[3]);
    }
    assert("dc:rights"@ != "dc:identifier"@) by {
        assert("dc:rights"@[3] != "dc:identifier"@[3]);
    }
    assert("dc:rights"@ != "dc:type"@) by {
        assert("dc:rights"@[3] != "dc:type"@[3]);
    }
    assert("dc:license"@ != "dc:identifier"@) by {
        assert("dc:license"@[3] != "dc:identifier"@[3]);
    }
    assert("dc:license"@ != "dc:type"@) by {
        assert("dc:license"@[3] != "dc:type"@[3]);
    }
    assert("dc:identifier"@ != "dc:type"@) by {
        assert("dc:identifier"@[3] != "dc:type"@[3]);
    }
}

fn metadata_key_of(k: &str) -> (res: MetadataKey)
    ensures
        res == metadata_key(k@),
{
    if str_eq(k, "dc:title") {
        MetadataKey::Title
    } else if str_eq(k, "dc:rights") {
        MetadataKey::Rights
    } else if str_eq(k, "dc:license") {
        MetadataKey::License
    } else if str_eq(k, "dc:identifier") {
        MetadataKey::Identifier
    } else if str_eq(k, "dc:type") {
        MetadataKey::Type
    } else {
        MetadataKey::Other
    }
}

/// What the front matter of a phrase source file says of the dictionary.
#[derive(Debug)]
pub struct FrontMatter {
    /// `dc:title`.
    pub name: String,
    /// `dc:rights`.
    pub copyright: String,
    /// `dc:license`.
    pub license: String,
    /// `dc:identifier`.
    pub version: String,
    /// `dc:type`.
    pub usage: String,
}

impl FrontMatter {
    /// Records the value of a metadata line: the field the key names takes
    /// the value; an unknown key changes nothing.
    pub fn set(&mut self, key: MetadataKey, value: String)
        ensures
            final(self).name@ == (if key == MetadataKey::Title {
                value@
            } else {
                old(self).name@
            }),
            final(self).copyright@ == (if key == MetadataKey::Rights {
                value@
            } else {
                old(self).copyright@
            }),
            final(self).license@ == (if key == MetadataKey::License {
                value@
            } else {
                old(self).license@
            }),
            final(self).version@ == (if key == MetadataKey::Identifier {
                value@
            } else {
                old(self).version@
            }),
            final(self).usage@ == (if key == MetadataKey::Type {
                value@
            } else {
                old(self).usage@
            }),
    {
        match key {
            MetadataKey::Title => self.name = value,
            MetadataKey::Rights => self.copyright = value,
            MetadataKey::License => self.license = value,
            MetadataKey::Identifier => self.version = value,
            MetadataKey::Type => self.usage = value,
            MetadataKey::Other => {},
        }
    }
}

/// What one line of a phrase source file is.
#[derive(Debug)]
pub enum SourceLine<'a> {
    /// A line with nothing but white space.
    Blank,
    /// A comment after the front matter.
    Comment,
    /// A line of the front matter: a key and its value.
    Metadata(MetadataKey, String),
    /// A line of the front matter without a delimiter between key and value.
    InvalidMetadata,
    /// A phrase: its syllables, its text and its frequency.
    Entry(Vec<Syllable>, &'a str, u32),
    /// A phrase whose number of syllables is not its number of characters.
    WordCountMismatch,
    /// A line that cannot be parsed.
    Invalid(ParseLineError),
}

/// Whether `res` is what the trimmed line `t` gives as a phrase line.
pub open spec fn entry_result<'a>(res: SourceLine<'a>, delimiter: char, t: Seq<char>, fix: bool) -> bool {
    match parse_line_spec(delimiter, t, fix) {
        Err(e) => res matches SourceLine::Invalid(x) && x == e,
        Ok((syls, phrase, freq)) => if syls.len() != split_graphemes(phrase).len() {
            res is WordCountMismatch
        } else {
            res matches SourceLine::Entry(v, ph, fr) && v@.map_values(syllable_view()) == syls
                && ph@ == phrase && fr == freq
        },
    }
}

/// Whether `res` is what the trimmed line `t` gives as a front matter line:
/// without its leading `#`s and surrounding white space, a key and a value
/// around the first delimiter; the key without surrounding white space, the
/// value without trailing delimiters.
pub open spec fn metadata_result<'a>(res: SourceLine<'a>, delimiter: char, t: Seq<char>) -> bool {
    let m = trim_in(trim_start_in(t, CharClass::Only('#')), CharClass::WhiteSpace);
    match split_once_spec(m, delimiter) {
        None => res is InvalidMetadata,
        Some((k, v)) => res matches SourceLine::Metadata(key, value) && key == metadata_key(
            trim_in(k, CharClass::WhiteSpace),
        ) && value@ == trim_end_in(v, CharClass::Only(delimiter)),
    }
}

/// Reads a phrase source file line by line. The file starts with a front
/// matter of metadata lines that begin with `#`; the first line that does not
/// begin with `#` ends it. After the front matter, lines that begin with `#`
/// are comments and the others are phrases.
#[derive(Debug)]
pub struct SourceReader {
    read_front_matter: bool,
}

impl View for SourceReader {
    type V = bool;

    /// Whether the front matter is still being read.
    closed spec fn view(&self) -> bool {
        self.read_front_matter
    }
}

impl SourceReader {
    /// A reader at the start of a file.
    pub fn new() -> (res: SourceReader)
        ensures
            res@,
    {
        SourceReader { read_front_matter: true }
    }

    fn entry<'a>(delimiter: char, t: &'a str, fix: bool) -> (res: SourceLine<'a>)
        ensures
            entry_result(res, delimiter, t@, fix),
    {
        match parse_line(delimiter, t, fix) {
            Ok((syllables, phrase, freq)) => {
                let count = graphemes(phrase).collect().len();
                if syllables.len() != count {
                    SourceLine::WordCountMismatch
                } else {
                    SourceLine::Entry(syllables, phrase, freq)
                }
            },
            Err(e) => SourceLine::Invalid(e),
        }
    }

    fn metadata<'a>(delimiter: char, t: &'a str) -> (res: SourceLine<'a>)
        ensures
            metadata_result(res, delimiter, t@),
    {
        let tc = chars_of(t);
        assert(tc@.subrange(0, tc@.len() as int) =~= tc@);
        let x = trim_start_range(&tc, 0, tc.len(), CharClass::Only('#'));
        let (p, q) = trim_range_in(&tc, x, tc.len(), CharClass::WhiteSpace);
        let m = t.substring_char(p, q);
        match split_once_char(m, delimiter) {
            None => SourceLine::InvalidMetadata,
            Some((k, v)) => {
                let kc = chars_of(k.as_str());
                assert(kc@.subrange(0, kc@.len() as int) =~= kc@);
                let (ka, kb) = trim_range_in(&kc, 0, kc.len(), CharClass::WhiteSpace);
                let key = metadata_key_of(k.as_str().substring_char(ka, kb));
                let vc = chars_of(v.as_str());
                assert(vc@.subrange(0, vc@.len() as int) =~= vc@);
                let ve = trim_end_range(&vc, 0, vc.len(), CharClass::Only(delimiter));
                let value = v.as_str().substring_char(0, ve).to_owned();
                SourceLine::Metadata(key, value)
            },
        }
    }

    /// Tells what the next line of the file is.
    pub fn classify<'a>(&mut self, delimiter: char, line: &'a str, fix: bool) -> (res: SourceLine<'a>)
        ensures
            ({
                let t = trim_in(line@, CharClass::WhiteSpace);
                if t.len() == 0 {
                    &&& res is Blank
                    &&& final(self)@ == old(self)@
                } else if old(self)@ && t[0] != '#' {
                    &&& !final(self)@
                    &&& entry_result(res, delimiter, t, fix)
                } else if old(self)@ {
                    &&& final(self)@
                    &&& metadata_result(res, delimiter, t)
                } else if t[0] == '#' {
                    &&& res is Comment
                    &&& !final(self)@
                } else {
                    &&& !final(self)@
                    &&& entry_result(res, delimiter, t, fix)
                }
            }),
    {
        let chars = chars_of(line);
        assert(chars@.subrange(0, chars@.len() as int) =~= chars@);
        let (a, b) = trim_range_in(&chars, 0, chars.len(), CharClass::WhiteSpace);
        if a == b {
            return SourceLine::Blank;
        }
        let t = line.substring_char(a, b);
        assert(t@[0] == chars@[a as int]);
        if self.read_front_matter && chars[a] != '#' {
            self.read_front_matter = false;
            SourceReader::entry(delimiter, t, fix)
        } else if self.read_front_matter {
            SourceReader::metadata(delimiter, t)
        } else if chars[a] == '#' {
            SourceLine::Comment
        } else {
            SourceReader::entry(delimiter, t, fix)
        }
    }
}

/// Phrases of this many syllables or more share one length bucket.
pub const MAX_LEN: usize = 6;

/// The shortest reading of a phrase: the least syllable count of its rows.
pub open spec fn min_len(e: Seq<(u32, usize)>) -> nat
    decreases e.len(),
{
    if e.len() == 0 {
        MAX_LEN as nat
    } else {
        let rest = min_len(e.drop_last());
        if e.len() == 1 || (e.last().1 as nat) < rest {
            e.last().1 as nat
        } else {
            rest
        }
    }
}

/// The length bucket of a phrase: its shortest reading, at most `MAX_LEN`.
pub open spec fn bucket_of(e: Seq<(u32, usize)>) -> nat {
    if min_len(e) < MAX_LEN {
        min_len(e)
    } else {
        MAX_LEN as nat
    }
}

/// Whether the rows of a phrase have more than one syllable count.
pub open spec fn mixed_len(e: Seq<(u32, usize)>) -> bool {
    exists|i: int| 0 <= i < e.len() && #[trigger] e[i].1 != e[0].1
}

/// Whether all rows of a phrase have the same frequency.
pub open spec fn same_freq(e: Seq<(u32, usize)>) -> bool {
    forall|i: int| 0 <= i < e.len() ==> #[trigger] e[i].0 == e[0].0
}

/// A phrase listed more than once with one frequency: counted once.
pub open spec fn aggregate(e: Seq<(u32, usize)>) -> bool {
    e.len() > 1 && same_freq(e)
}

/// A phrase listed more than once with different frequencies: summed.
pub open spec fn per_reading(e: Seq<(u32, usize)>) -> bool {
    e.len() > 1 && !same_freq(e)
}

/// The sum of the frequencies of the rows of a phrase.
pub open spec fn freq_sum(e: Seq<(u32, usize)>) -> nat
    decreases e.len(),
{
    if e.len() == 0 {
        0
    } else {
        freq_sum(e.drop_last()) + e.last().0 as nat
    }
}

/// The frequency a phrase counts with: its one frequency when listed more
/// than once with the same frequency, otherwise the sum of its frequencies
/// cut to 32 bits.
pub open spec fn phrase_freq(e: Seq<(u32, usize)>) -> nat {
    if aggregate(e) {
        e[0].0 as nat
    } else {
        freq_sum(e) % 0x1_0000_0000
    }
}

/// The sum of what `f` gives for each group.
pub open spec fn sum_over(gs: Seq<Seq<(u32, usize)>>, f: spec_fn(Seq<(u32, usize)>) -> nat) -> nat
    decreases gs.len(),
{
    if gs.len() == 0 {
        0
    } else {
        sum_over(gs.drop_last(), f) + f(gs.last())
    }
}

/// The number of groups for which `f` holds.
pub open spec fn count_where(gs: Seq<Seq<(u32, usize)>>, f: spec_fn(Seq<(u32, usize)>) -> bool) -> nat
    decreases gs.len(),
{
    if gs.len() == 0 {
        0
    } else {
        count_where(gs.drop_last(), f) + if f(gs.last()) {
            1nat
        } else {
            0nat
        }
    }
}

/// Counts of the rows of a phrase source file, grouped by phrase, from
/// which the length prior is computed.
#[derive(Debug, Clone, PartialEq, Eq)]
pub struct LengthStats {
    /// The corrected sum of frequencies.
    pub d: u64,
    /// The number of phrases in each length bucket, `0..=MAX_LEN`.
    pub len_counts: Vec<usize>,
    /// Phrases listed more than once with one frequency.
    pub n_aggregate: usize,
    /// Phrases listed more than once with different frequencies.
    pub n_per_reading: usize,
    /// Phrases whose rows have different syllable counts.
    pub n_mixed_len: usize,
    /// The number of rows.
    pub total_rows: usize,
}

fn group_freq(e: &Vec<(u32, usize)>) -> (res: (u32, bool, bool))
    requires
        freq_sum(e@) <= u64::MAX,
    ensures
        res.0 == phrase_freq(e@),
        res.1 == aggregate(e@),
        res.2 == per_reading(e@),
{
    let mut same = true;
    let mut sum: u64 = 0;
    let mut i: usize = 0;
    while i < e.len()
        invariant
            i <= e@.len(),
            freq_sum(e@) <= u64::MAX,
            sum == freq_sum(e@.take(i as int)),
            same == (forall|j: int| 0 <= j < i ==> #[trigger] e@[j].0 == e@[0].0),
        decreases e@.len() - i,
    {
        assert(e@.take(i + 1).drop_last() =~= e@.take(i as int));
        proof {
            lemma_freq_sum_prefix(e@, i + 1);
        }
        if e[i].0 != e[0].0 {
            same = false;
        }
        sum = sum + e[i].0 as u64;
        i = i + 1;
    }
    assert(e@.take(e@.len() as int) =~= e@);
    #[verifier::truncate]
    let cut = sum as u32;
    assert(cut == sum % 0x1_0000_0000) by (bit_vector)
        requires
            cut == sum as u32,
    ;
    if e.len() > 1 && same {
        (e[0].0, true, false)
    } else {
        (cut, false, e.len() > 1)
    }
}

proof fn lemma_freq_sum_prefix(e: Seq<(u32, usize)>, m: int)
    requires
        0 <= m <= e.len(),
    ensures
        freq_sum(e.take(m)) <= freq_sum(e),
    decreases e.len(),
{
    if m < e.len() {
        assert(e.drop_last().take(m) =~= e.take(m));
        lemma_freq_sum_prefix(e.drop_last(), m);
    } else {
        assert(e.take(m) =~= e);
    }
}

fn group_lengths(e: &Vec<(u32, usize)>) -> (res: (usize, bool))
    ensures
        res.0 == bucket_of(e@),
        res.1 == mixed_len(e@),
{
    let mut least: usize = MAX_LEN;
    let mut mixed = false;
    let mut i: usize = 0;
    while i < e.len()
        invariant
            i <= e@.len(),
            least == min_len(e@.take(i as int)),
            mixed == (exists|j: int| 0 <= j < i && #[trigger] e@[j].1 != e@[0].1),
        decreases e@.len() - i,
    {
        assert(e@.take(i + 1).drop_last() =~= e@.take(i as int));
        assert(e@.take(i + 1).last() == e@[i as int]);
        if i == 0 || e[i].1 < least {
            least = e[i].1;
        }
        if e[i].1 != e[0].1 {
            mixed = true;
        }
        i = i + 1;
    }
    assert(e@.take(e@.len() as int) =~= e@);
    if least < MAX_LEN {
        (least, mixed)
    } else {
        (MAX_LEN, mixed)
    }
}

/// Counts the rows of a phrase source file grouped by phrase, one group of
/// `(frequency, syllable count)` rows per phrase.
pub fn length_stats(groups: &Vec<Vec<(u32, usize)>>) -> (res: LengthStats)
    requires
        sum_over(groups@.map_values(|g: Vec<(u32, usize)>| g@), |e: Seq<(u32, usize)>| phrase_freq(e))
            <= u64::MAX,
        forall|k: int| 0 <= k < groups@.len() ==> freq_sum(#[trigger] groups@[k]@) <= u64::MAX,
        sum_over(groups@.map_values(|g: Vec<(u32, usize)>| g@), |e: Seq<(u32, usize)>| e.len())
            <= usize::MAX,
    ensures
        ({
            let gs = groups@.map_values(|g: Vec<(u32, usize)>| g@);
            &&& res.d == sum_over(gs, |e: Seq<(u32, usize)>| phrase_freq(e))
            &&& res.len_counts@.len() == MAX_LEN + 1
            &&& forall|b: int|
                0 <= b <= MAX_LEN ==> #[trigger] res.len_counts@[b] == count_where(
                    gs,
                    |e: Seq<(u32, usize)>| bucket_of(e) == b,
                )
            &&& res.n_aggregate == count_where(gs, |e: Seq<(u32, usize)>| aggregate(e))
            &&& res.n_per_reading == count_where(gs, |e: Seq<(u32, usize)>| per_reading(e))
            &&& res.n_mixed_len == count_where(gs, |e: Seq<(u32, usize)>| mixed_len(e))
            &&& res.total_rows == sum_over(gs, |e: Seq<(u32, usize)>| e.len())
        }),
{
    let ghost gs = groups@.map_values(|g: Vec<(u32, usize)>| g@);
    let ghost pf = |e: Seq<(u32, usize)>| phrase_freq(e);
    let ghost rl = |e: Seq<(u32, usize)>| e.len();
    let ghost ag = |e: Seq<(u32, usize)>| aggregate(e);
    let ghost pr = |e: Seq<(u32, usize)>| per_reading(e);
    let ghost mx = |e: Seq<(u32, usize)>| mixed_len(e);
    let mut d: u64 = 0;
    let mut len_counts: Vec<usize> = vec![0, 0, 0, 0, 0, 0, 0];
    let mut n_aggregate: usize = 0;
    let mut n_per_reading: usize = 0;
    let mut n_mixed_len: usize = 0;
    let mut total_rows: usize = 0;
    let mut i: usize = 0;
    proof {
        lemma_sum_over_prefix(gs, 0, pf);
        lemma_sum_over_prefix(gs, 0, rl);
    }
    while i < groups.len()
        invariant
            gs == groups@.map_values(|g: Vec<(u32, usize)>| g@),
            pf == (|e: Seq<(u32, usize)>| phrase_freq(e)),
            rl == (|e: Seq<(u32, usize)>| e.len()),
            ag == (|e: Seq<(u32, usize)>| aggregate(e)),
            pr == (|e: Seq<(u32, usize)>| per_reading(e)),
            mx == (|e: Seq<(u32, usize)>| mixed_len(e)),
            sum_over(gs, pf) <= u64::MAX,
            sum_over(gs, rl) <= usize::MAX,
            forall|k: int| 0 <= k < groups@.len() ==> freq_sum(#[trigger] groups@[k]@) <= u64::MAX,
            i <= groups@.len(),
            d == sum_over(gs.take(i as int), pf),
            total_rows == sum_over(gs.take(i as int), rl),
            n_aggregate == count_where(gs.take(i as int), ag),
            n_per_reading == count_where(gs.take(i as int), pr),
            n_mixed_len == count_where(gs.take(i as int), mx),
            n_aggregate <= i && n_per_reading <= i && n_mixed_len <= i,
            len_counts@.len() == MAX_LEN + 1,
            forall|b: int|
                0 <= b <= MAX_LEN ==> #[trigger] len_counts@[b] == count_where(
                    gs.take(i as int),
                    |e: Seq<(u32, usize)>| bucket_of(e) == b,
                ),
            forall|b: int| 0 <= b <= MAX_LEN ==> #[trigger] len_counts@[b] <= i,
        decreases groups@.len() - i,
    {
        let ghost next = gs.take(i + 1);
        assert(next.drop_last() =~= gs.take(i as int));
        assert(next.last() == groups@[i as int]@);
        proof {
            lemma_sum_over_prefix(gs, i + 1, pf);
            lemma_sum_over_prefix(gs, i + 1, rl);
        }
        let (freq, is_aggregate, is_per_reading) = group_freq(&groups[i]);
        let (bucket, mixed) = group_lengths(&groups[i]);
        d = d + freq as u64;
        total_rows = total_rows + groups[i].len();
        if is_aggregate {
            n_aggregate = n_aggregate + 1;
        }
        if is_per_reading {
            n_per_reading = n_per_reading + 1;
        }
        if mixed {
            n_mixed_len = n_mixed_len + 1;
        }
        let ghost before = len_counts@;
        let c = len_counts[bucket];
        len_counts.set(bucket, c + 1);
        assert forall|b: int| 0 <= b <= MAX_LEN implies #[trigger] len_counts@[b] == count_where(
            next,
            |e: Seq<(u32, usize)>| bucket_of(e) == b,
        ) by {
            assert(before[b] == count_where(
                gs.take(i as int),
                |e: Seq<(u32, usize)>| bucket_of(e) == b,
            ));
        }
        i = i + 1;
    }
    assert(gs.take(groups@.len() as int) =~= gs);
    LengthStats { d, len_counts, n_aggregate, n_per_reading, n_mixed_len, total_rows }
}

proof fn lemma_sum_over_prefix(
    gs: Seq<Seq<(u32, usize)>>,
    m: int,
    f: spec_fn(Seq<(u32, usize)>) -> nat,
)
    requires
        0 <= m <= gs.len(),
    ensures
        sum_over(gs.take(m), f) <= sum_over(gs, f),
    decreases gs.len(),
{
    if m < gs.len() {
        assert(gs.drop_last().take(m) =~= gs.take(m));
        lemma_sum_over_prefix(gs.drop_last(), m, f);
    } else {
        assert(gs.take(m) =~= gs);
    }
}
} // verus!
