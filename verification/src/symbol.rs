//! Choosing symbols from tables: the symbol table, whose lines are
//! categories, and the table of special symbols that can replace a symbol.
use vstd::prelude::*;

use crate::conversion::symbol_text;
use crate::conversion::Symbol;
use crate::grapheme::fits_in_grapheme;
use crate::grapheme::grapheme_of;
use crate::grapheme::graphemes;
use crate::grapheme::lemma_split_graphemes_partition;
use crate::grapheme::split_graphemes;
use crate::grapheme::str_view;
use crate::grapheme::Grapheme;
use crate::text::lines_of;
use crate::text::split_once_char;
use crate::text::split_once_spec;
use crate::text::str_eq;
use crate::text::string_view;
use crate::text::text_lines;

verus! {

/// The symbol of a user perceived character, if it fits in a grapheme.
pub open spec fn symbol_of(t: Seq<char>) -> Option<Symbol> {
    if fits_in_grapheme(t) {
        Some(Symbol::Char(grapheme_of(t)))
    } else {
        None
    }
}

/// Converts a single user perceived character to a symbol, or `None` for a
/// text that does not fit in a [`Grapheme`].
fn to_symbol(str: &str) -> (res: Option<Symbol>)
    ensures
        res == symbol_of(str@),
{
    match Grapheme::try_from(str) {
        Ok(grapheme) => Some(Symbol::from(grapheme)),
        Err(_) => None,
    }
}

/// The graphemes of `text` as strings.
fn grapheme_strings(text: &str) -> (res: Vec<String>)
    ensures
        res@.map_values(string_view()) == split_graphemes(text@),
{
    let parts = graphemes(text).collect();
    let mut out: Vec<String> = Vec::new();
    let mut i: usize = 0;
    while i < parts.len()
        invariant
            parts@.map_values(str_view()) == split_graphemes(text@),
            i <= parts@.len(),
            out@.map_values(string_view()) == parts@.map_values(str_view()).take(i as int),
        decreases parts@.len() - i,
    {
        let ghost before = out@.map_values(string_view());
        out.push(parts[i].to_owned());
        assert(out@.map_values(string_view()) =~= before.push(parts@[i as int]@));
        assert(parts@.map_values(str_view()).take(i + 1) =~= parts@.map_values(str_view()).take(
            i as int,
        ).push(parts@[i as int]@));
        i = i + 1;
    }
    assert(parts@.map_values(str_view()).take(parts@.len() as int) =~= parts@.map_values(str_view()));
    out
}

/// The symbol of the `n`-th grapheme of `text`, if there is one.
fn nth_symbol(text: &str, n: usize) -> (res: Option<Symbol>)
    ensures
        res == (if n < split_graphemes(text@).len() {
            symbol_of(split_graphemes(text@)[n as int])
        } else {
            None
        }),
{
    let parts = graphemes(text).collect();
    assert(parts@.map_values(str_view()).len() == parts@.len());
    if n < parts.len() {
        assert(parts@.map_values(str_view())[n as int] == parts@[n as int]@);
        to_symbol(parts[n])
    } else {
        None
    }
}

/// Every grapheme of a text is a symbol: each entry of a menu made of
/// graphemes can be chosen, and gives the symbol of exactly that entry.
pub proof fn lemma_grapheme_entries_are_symbols(t: Seq<char>)
    ensures
        forall|i: int|
            0 <= i < split_graphemes(t).len() ==> (symbol_of(#[trigger] split_graphemes(t)[i])
                matches Some(sym) && symbol_text(sym) == Some(split_graphemes(t)[i])),
{
    lemma_split_graphemes_partition(t);
    assert forall|i: int| 0 <= i < split_graphemes(t).len() implies (symbol_of(
        #[trigger] split_graphemes(t)[i],
    ) matches Some(sym) && symbol_text(sym) == Some(split_graphemes(t)[i])) by {
        crate::grapheme::lemma_grapheme_of_view(split_graphemes(t)[i]);
    }
}

/// The categories and tables described by the lines of a symbol table: a
/// line `name=symbols` is a category with a table of symbols, any other
/// line is a symbol of its own.
pub open spec fn parse_symbol_lines(ls: Seq<Seq<char>>) -> (Seq<(Seq<char>, usize)>, Seq<Seq<char>>)
    decreases ls.len(),
{
    if ls.len() == 0 {
        (Seq::empty(), Seq::empty())
    } else {
        let (cats, tabs) = parse_symbol_lines(ls.drop_last());
        match split_once_spec(ls.last(), '=') {
            Some((name, row)) => (cats.push((name, tabs.len() as usize)), tabs.push(row)),
            None => (cats.push((ls.last(), usize::MAX)), tabs),
        }
    }
}

/// Each line of a symbol table is one category: a line `name=symbols` is
/// the category `name` whose table is `symbols`, any other line is a
/// category that is a symbol itself.
pub proof fn lemma_parse_symbol_lines(ls: Seq<Seq<char>>)
    requires
        ls.len() < usize::MAX,
    ensures
        parse_symbol_lines(ls).0.len() == ls.len(),
        parse_symbol_lines(ls).1.len() <= ls.len(),
        forall|k: int|
            0 <= k < ls.len() ==> {
                let (cats, tabs) = parse_symbol_lines(ls);
                match split_once_spec(#[trigger] ls[k], '=') {
                    Some((name, row)) => cats[k].0 == name && cats[k].1 < tabs.len() && tabs[cats[k].1 as int] == row,
                    None => cats[k] == (ls[k], usize::MAX),
                }
            },
    decreases ls.len(),
{
    if ls.len() > 0 {
        let prev = ls.drop_last();
        lemma_parse_symbol_lines(prev);
        let (cats, tabs) = parse_symbol_lines(ls);
        let (pc, pt) = parse_symbol_lines(prev);
        assert forall|k: int| 0 <= k < ls.len() implies {
            match split_once_spec(#[trigger] ls[k], '=') {
                Some((name, row)) => cats[k].0 == name && cats[k].1 < tabs.len() && tabs[cats[k].1 as int] == row,
                None => cats[k] == (ls[k], usize::MAX),
            }
        } by {
            if k < prev.len() {
                assert(ls[k] == prev[k]);
                assert(cats[k] == pc[k]);
                match split_once_spec(prev[k], '=') {
                    Some((name, row)) => {
                        assert(tabs[pc[k].1 as int] == pt[pc[k].1 as int]);
                    },
                    None => {},
                }
            }
        }
    }
}

/// The number of lines that hold `=`.
pub open spec fn row_lines(ls: Seq<Seq<char>>) -> nat
    decreases ls.len(),
{
    if ls.len() == 0 {
        0
    } else {
        row_lines(ls.drop_last()) + if split_once_spec(ls.last(), '=') is Some {
            1nat
        } else {
            0nat
        }
    }
}

proof fn lemma_tables_count_rows(ls: Seq<Seq<char>>)
    ensures
        parse_symbol_lines(ls).1.len() == row_lines(ls),
    decreases ls.len(),
{
    if ls.len() > 0 {
        lemma_tables_count_rows(ls.drop_last());
    }
}

/// What picking line `n` at the top level of a selector read from the lines
/// `ls` does, when at most 256 lines hold `=`: a line `name=row` opens the
/// table that is exactly `row`, whose menu is then the graphemes of `row`;
/// any other line is a category that is the line itself, and picking it
/// gives the symbol of its first grapheme.
pub proof fn lemma_top_level_pick(ls: Seq<Seq<char>>, n: int)
    requires
        ls.len() < usize::MAX,
        0 <= n < ls.len(),
        row_lines(ls) <= 256,
    ensures
        ({
            let (cats, tabs) = parse_symbol_lines(ls);
            match split_once_spec(ls[n], '=') {
                Some((name, row)) => {
                    &&& cats[n].1 != usize::MAX
                    &&& cats[n].1 < tabs.len()
                    &&& (cats[n].1 as u8) as int == cats[n].1
                    &&& tabs[(cats[n].1 as u8) as int] == row
                },
                None => cats[n].1 == usize::MAX && cats[n].0 == ls[n],
            }
        }),
{
    lemma_parse_symbol_lines(ls);
    lemma_tables_count_rows(ls);
    let (cats, tabs) = parse_symbol_lines(ls);
    assert(cats[n].1 == usize::MAX || cats[n].1 < tabs.len()) by {
        match split_once_spec(ls[n], '=') {
            Some((name, row)) => {},
            None => {},
        }
    }
}

/// The view of a category: its name, and the index of its table or
/// `usize::MAX` for a category that is a symbol itself.
pub open spec fn category_view() -> spec_fn((String, usize)) -> (Seq<char>, usize) {
    |c: (String, usize)| (c.0@, c.1)
}

/// The names of the categories.
pub open spec fn category_names(cats: Seq<(Seq<char>, usize)>) -> Seq<Seq<char>> {
    cats.map_values(|c: (Seq<char>, usize)| c.0)
}

/// A two level menu of symbols read from a symbol table.
#[derive(Debug)]
pub struct SymbolSelector {
    category: Vec<(String, usize)>,
    table: Vec<String>,
    cursor: Option<u8>,
}

impl SymbolSelector {
    #[verifier::type_invariant]
    spec fn indices_in_range(self) -> bool {
        &&& forall|k: int|
            0 <= k < self.category@.len() ==> (#[trigger] self.category@[k]).1 == usize::MAX
                || self.category@[k].1 < self.table@.len()
        &&& self.cursor matches Some(c) ==> c < self.table@.len()
    }

    /// The categories: a name, and the index of its table or `usize::MAX`.
    pub closed spec fn categories(self) -> Seq<(Seq<char>, usize)> {
        self.category@.map_values(category_view())
    }

    /// The tables of symbols.
    pub closed spec fn tables(self) -> Seq<Seq<char>> {
        self.table@.map_values(string_view())
    }

    /// The table shown, if any; otherwise the categories are shown.
    pub closed spec fn cursor(self) -> Option<u8> {
        self.cursor
    }

    /// Reads a symbol table, one category per line.
    pub fn new(text: &str) -> (res: SymbolSelector)
        ensures
            (res.categories(), res.tables()) == parse_symbol_lines(lines_of(text@)),
            res.cursor() is None,
    {
        let lines = text_lines(text);
        let ghost ls = lines@.map_values(string_view());
        let mut category: Vec<(String, usize)> = Vec::new();
        let mut table: Vec<String> = Vec::new();
        let mut i: usize = 0;
        while i < lines.len()
            invariant
                ls == lines@.map_values(string_view()),
                i <= lines@.len(),
                table@.len() <= i,
                (category@.map_values(category_view()), table@.map_values(string_view()))
                    == parse_symbol_lines(ls.take(i as int)),
                forall|k: int|
                    0 <= k < category@.len() ==> (#[trigger] category@[k]).1 == usize::MAX
                        || category@[k].1 < table@.len(),
            decreases lines@.len() - i,
        {
            let ghost cats = category@.map_values(category_view());
            let ghost tabs = table@.map_values(string_view());
            assert(ls.take(i + 1).drop_last() =~= ls.take(i as int));
            assert(ls.take(i + 1).last() == lines@[i as int]@);
            let line = lines[i].clone();
            match split_once_char(line.as_str(), '=') {
                Some((cat, tab)) => {
                    let index = table.len();
                    let ghost name = cat@;
                    let ghost row = tab@;
                    category.push((cat, index));
                    table.push(tab);
                    assert(category@.map_values(category_view()) =~= cats.push((name, index)));
                    assert(table@.map_values(string_view()) =~= tabs.push(row));
                },
                None => {
                    let ghost name = line@;
                    category.push((line, usize::MAX));
                    assert(category@.map_values(category_view()) =~= cats.push(
                        (name, usize::MAX),
                    ));
                },
            }
            i = i + 1;
        }
        assert(ls.take(lines@.len() as int) =~= ls);
        SymbolSelector { category, table, cursor: None }
    }

    /// Whether the table has no category.
    pub fn is_empty(&self) -> (res: bool)
        ensures
            res == (self.categories().len() == 0),
    {
        self.category.len() == 0
    }

    /// The entries shown: the symbols of the open table, or the names of
    /// the categories.
    pub fn menu(&self) -> (res: Vec<String>)
        ensures
            res@.map_values(string_view()) == (match self.cursor() {
                Some(c) => split_graphemes(self.tables()[c as int]),
                None => category_names(self.categories()),
            }),
    {
        proof {
            use_type_invariant(self);
        }
        match self.cursor {
            Some(cursor) => grapheme_strings(self.table[cursor as usize].as_str()),
            None => {
                let mut out: Vec<String> = Vec::new();
                let mut i: usize = 0;
                while i < self.category.len()
                    invariant
                        i <= self.category@.len(),
                        out@.map_values(string_view()) == category_names(self.categories()).take(i as int),
                    decreases self.category@.len() - i,
                {
                    let ghost before = out@.map_values(string_view());
                    let ghost names = category_names(self.categories());
                    let name = self.category[i].0.clone();
                    assert(self.categories()[i as int] == (self.category@[i as int].0@, self.category@[i as int].1));
                    assert(names[i as int] == name@);
                    out.push(name);
                    assert(out@.map_values(string_view()) =~= before.push(names[i as int]));
                    assert(names.take(i + 1) =~= names.take(i as int).push(names[i as int]));
                    i = i + 1;
                }
                assert(category_names(self.categories()).take(
                    self.category@.len() as int,
                ) =~= category_names(self.categories()));
                out
            },
        }
    }

    /// Picks the `n`-th entry. A category with a table opens the table and
    /// gives no symbol; a category that is a symbol, or an entry of an open
    /// table, gives its symbol and goes back to the categories.
    pub fn select(&mut self, n: usize) -> (res: Option<Symbol>)
        ensures
            final(self).categories() == old(self).categories(),
            final(self).tables() == old(self).tables(),
            ({
                let cats = old(self).categories();
                match old(self).cursor() {
                    None => if n >= cats.len() {
                        &&& res is None
                        &&& final(self).cursor() is None
                    } else if cats[n as int].1 == usize::MAX {
                        &&& final(self).cursor() is None
                        &&& res == (if cats[n as int].0.len() == 0 {
                            None
                        } else {
                            symbol_of(split_graphemes(cats[n as int].0)[0])
                        })
                    } else {
                        &&& final(self).cursor() == Some(cats[n as int].1 as u8)
                        &&& res is None
                    },
                    Some(c) => {
                        let parts = split_graphemes(old(self).tables()[c as int]);
                        &&& final(self).cursor() is None
                        &&& res == (if n < parts.len() {
                            symbol_of(parts[n as int])
                        } else {
                            None
                        })
                    },
                }
            }),
    {
        proof {
            use_type_invariant(&*self);
        }
        match self.cursor {
            None => {
                if self.category.len() <= n {
                    return None;
                }
                let index = self.category[n].1;
                if index == usize::MAX {
                    let res = nth_symbol(self.category[n].0.as_str(), 0);
                    proof {
                        let name = self.category@[n as int].0@;
                        if name.len() > 0 {
                            lemma_split_graphemes_partition(name);
                            assert(split_graphemes(name).len() > 0);
                        } else {
                            assert(split_graphemes(name) =~= Seq::<Seq<char>>::empty());
                        }
                    }
                    res
                } else {
                    #[verifier::truncate]
                    let cursor = index as u8;
                    let mut taken = SymbolSelector { category: Vec::new(), table: Vec::new(), cursor: None };
                    std::mem::swap(&mut taken, self);
                    let SymbolSelector { category, table, cursor: _ } = taken;
                    assert(cursor as usize <= index) by (bit_vector)
                        requires
                            cursor == index as u8,
                    ;
                    *self = SymbolSelector { category, table, cursor: Some(cursor) };
                    None
                }
            },
            Some(cursor) => {
                let res = nth_symbol(self.table[cursor as usize].as_str(), n);
                let mut taken = SymbolSelector { category: Vec::new(), table: Vec::new(), cursor: None };
                std::mem::swap(&mut taken, self);
                let SymbolSelector { category, table, cursor: _ } = taken;
                *self = SymbolSelector { category, table, cursor: None };
                res
            },
        }
    }
}

/// The rows of the special symbol table. A row begins with a symbol that
/// can be typed, followed by the symbols that can replace it.
pub open spec fn special_rows() -> Seq<Seq<char>> {
    seq![
        "0ø"@,
        "[「『《〈【〔"@,
        "]」』》〉】〕"@,
        "{｛"@,
        "}｝"@,
        "<，←"@,
        ">。→．"@,
        "?？¿"@,
        "!！Ⅰ¡"@,
        "@＠Ⅱ⊕⊙㊣﹫"@,
        "#＃Ⅲ﹟"@,
        "$＄Ⅳ€﹩￠∮￡￥"@,
        "%％Ⅴ"@,
        "^︿Ⅵ﹀︽︾"@,
        "&＆Ⅶ﹠"@,
        "*＊Ⅷ×※╳﹡☯☆★"@,
        "(（Ⅸ"@,
        ")）Ⅹ"@,
        "_-—－―–←→＿￣﹍﹉﹎﹊﹏﹋…‥¯⋯"@,
        "+＋±﹢"@,
        "=＝≒≠≡≦≧﹦"@,
        "`』『′‵"@,
        "~～"@,
        ":：；︰﹕"@,
        "\"；"@,
        "\'、＂＇…‥"@,
        "\\＼↖↘﹨"@,
        "/／÷↗↙∕"@,
        "|↑↓∣∥｜︳︴"@,
        "AÅΑα├╠╟╞"@,
        "BΒβ∵"@,
        "CΧχ┘╯╝╜╛㏄℃㎝♣©"@,
        "DΔδ◇◆┤╣╢╡♦"@,
        "EΕε┐╮╗╓╕"@,
        "FΦψ│║♀"@,
        "GΓγ"@,
        "HΗη♥"@,
        "IΙι"@,
        "Jφ"@,
        "KΚκ㎞㏎"@,
        "LΛλ㏒㏑"@,
        "MΜμ♂ℓ㎎㏕㎜㎡"@,
        "NΝν№"@,
        "OΟο"@,
        "PΠπ"@,
        "QΘθД┌╭╔╓╒"@,
        "RΡρ─═®"@,
        "SΣσ∴□■┼╬╪╫∫§♠"@,
        "TΤτθ△▲▽▼™⊿™"@,
        "UΥυμ∪∩"@,
        "Vν"@,
        "WΩω┬╦╤╥"@,
        "XΞξ┴╩╧╨"@,
        "YΨ"@,
        "ZΖζ└╰╚╙╘"@
    ]
}

/// The row of the special symbol table at index `i`.
fn special_row(i: usize) -> (res: &'static str)
    requires
        i < 55,
    ensures
        res@ == special_rows()[i as int],
{
    if i == 0 {
        "0ø"
    } else
    if i == 1 {
        "[「『《〈【〔"
    } else
    if i == 2 {
        "]」』》〉】〕"
    } else
    if i == 3 {
        "{｛"
    } else
    if i == 4 {
        "}｝"
    } else
    if i == 5 {
        "<，←"
    } else
    if i == 6 {
        ">。→．"
    } else
    if i == 7 {
        "?？¿"
    } else
    if i == 8 {
        "!！Ⅰ¡"
    } else
    if i == 9 {
        "@＠Ⅱ⊕⊙㊣﹫"
    } else
    if i == 10 {
        "#＃Ⅲ﹟"
    } else
    if i == 11 {
        "$＄Ⅳ€﹩￠∮￡￥"
    } else
    if i == 12 {
        "%％Ⅴ"
    } else
    if i == 13 {
        "^︿Ⅵ﹀︽︾"
    } else
    if i == 14 {
        "&＆Ⅶ﹠"
    } else
    if i == 15 {
        "*＊Ⅷ×※╳﹡☯☆★"
    } else
    if i == 16 {
        "(（Ⅸ"
    } else
    if i == 17 {
        ")）Ⅹ"
    } else
    if i == 18 {
        "_-—－―–←→＿￣﹍﹉﹎﹊﹏﹋…‥¯⋯"
    } else
    if i == 19 {
        "+＋±﹢"
    } else
    if i == 20 {
        "=＝≒≠≡≦≧﹦"
    } else
    if i == 21 {
        "`』『′‵"
    } else
    if i == 22 {
        "~～"
    } else
    if i == 23 {
        ":：；︰﹕"
    } else
    if i == 24 {
        "\"；"
    } else
    if i == 25 {
        "\'、＂＇…‥"
    } else
    if i == 26 {
        "\\＼↖↘﹨"
    } else
    if i == 27 {
        "/／÷↗↙∕"
    } else
    if i == 28 {
        "|↑↓∣∥｜︳︴"
    } else
    if i == 29 {
        "AÅΑα├╠╟╞"
    } else
    if i == 30 {
        "BΒβ∵"
    } else
    if i == 31 {
        "CΧχ┘╯╝╜╛㏄℃㎝♣©"
    } else
    if i == 32 {
        "DΔδ◇◆┤╣╢╡♦"
    } else
    if i == 33 {
        "EΕε┐╮╗╓╕"
    } else
    if i == 34 {
        "FΦψ│║♀"
    } else
    if i == 35 {
        "GΓγ"
    } else
    if i == 36 {
        "HΗη♥"
    } else
    if i == 37 {
        "IΙι"
    } else
    if i == 38 {
        "Jφ"
    } else
    if i == 39 {
        "KΚκ㎞㏎"
    } else
    if i == 40 {
        "LΛλ㏒㏑"
    } else
    if i == 41 {
        "MΜμ♂ℓ㎎㏕㎜㎡"
    } else
    if i == 42 {
        "NΝν№"
    } else
    if i == 43 {
        "OΟο"
    } else
    if i == 44 {
        "PΠπ"
    } else
    if i == 45 {
        "QΘθД┌╭╔╓╒"
    } else
    if i == 46 {
        "RΡρ─═®"
    } else
    if i == 47 {
        "SΣσ∴□■┼╬╪╫∫§♠"
    } else
    if i == 48 {
        "TΤτθ△▲▽▼™⊿™"
    } else
    if i == 49 {
        "UΥυμ∪∩"
    } else
    if i == 50 {
        "Vν"
    } else
    if i == 51 {
        "WΩω┬╦╤╥"
    } else
    if i == 52 {
        "XΞξ┴╩╧╨"
    } else
    if i == 53 {
        "YΨ"
    } else
 {
        "ZΖζ└╰╚╙╘"
    }
}

/// The first row, at index `i` or later, that holds the text `t` as one of
/// its graphemes.
pub open spec fn special_row_from(t: Seq<char>, i: int) -> Option<int>
    decreases 55 - i,
{
    if i >= 55 || i < 0 {
        None
    } else if split_graphemes(special_rows()[i]).contains(t) {
        Some(i)
    } else {
        special_row_from(t, i + 1)
    }
}

/// The row found for a text is the first row of the special symbol table
/// that holds it as one of its graphemes: that row holds it and no earlier
/// row does; when no row is found, no row holds it.
pub proof fn lemma_special_row_is_first(t: Seq<char>)
    ensures
        match special_row_from(t, 0) {
            Some(i) => 0 <= i < 55 && split_graphemes(special_rows()[i]).contains(t) && forall|j: int|
                0 <= j < i ==> !(#[trigger] split_graphemes(special_rows()[j])).contains(t),
            None => forall|j: int|
                0 <= j < 55 ==> !(#[trigger] split_graphemes(special_rows()[j])).contains(t),
        },
{
    lemma_special_row_from(t, 0);
}

proof fn lemma_special_row_from(t: Seq<char>, i: int)
    requires
        0 <= i <= 55,
    ensures
        match special_row_from(t, i) {
            Some(r) => i <= r < 55 && split_graphemes(special_rows()[r]).contains(t) && forall|j: int|
                i <= j < r ==> !(#[trigger] split_graphemes(special_rows()[j])).contains(t),
            None => forall|j: int|
                i <= j < 55 ==> !(#[trigger] split_graphemes(special_rows()[j])).contains(t),
        },
    decreases 55 - i,
{
    if i < 55 && !split_graphemes(special_rows()[i]).contains(t) {
        lemma_special_row_from(t, i + 1);
    }
}

/// The special category of a symbol is the first row of the table that
/// holds the symbol's text as one of its graphemes.
pub proof fn lemma_special_category_is_first_row(sym: Symbol)
    ensures
        special_category(sym) matches Some(row) ==> exists|i: int|
            0 <= i < 55 && row == special_rows()[i] && split_graphemes(row).contains(
                symbol_text(sym)->0,
            ) && forall|j: int|
                0 <= j < i ==> !(#[trigger] split_graphemes(special_rows()[j])).contains(
                    symbol_text(sym)->0,
                ),
        special_category(sym) is None ==> symbol_text(sym) is None || forall|j: int|
            0 <= j < 55 ==> !(#[trigger] split_graphemes(special_rows()[j])).contains(
                symbol_text(sym)->0,
            ),
{
    if let Some(t) = symbol_text(sym) {
        lemma_special_row_is_first(t);
    }
}

/// The row of the special symbol table for a symbol: the first row that
/// holds its text.
pub open spec fn special_category(s: Symbol) -> Option<Seq<char>> {
    match symbol_text(s) {
        None => None,
        Some(t) => match special_row_from(t, 0) {
            Some(i) => Some(special_rows()[i]),
            None => None,
        },
    }
}

/// The graphemes of a row after its first one.
pub open spec fn rest_of_row(row: Seq<char>) -> Seq<Seq<char>> {
    let p = split_graphemes(row);
    if p.len() == 0 {
        Seq::empty()
    } else {
        p.drop_first()
    }
}

/// Whether one of `parts` holds the same text as `s`.
fn contains_text(parts: &Vec<&str>, s: &str) -> (res: bool)
    ensures
        res == parts@.map_values(str_view()).contains(s@),
{
    let mut i: usize = 0;
    while i < parts.len()
        invariant
            i <= parts@.len(),
            forall|j: int| 0 <= j < i ==> parts@[j]@ != s@,
        decreases parts@.len() - i,
    {
        if str_eq(parts[i], s) {
            assert(parts@.map_values(str_view())[i as int] == s@);
            return true;
        }
        i = i + 1;
    }
    assert forall|j: int| 0 <= j < parts@.len() implies parts@.map_values(str_view())[j] != s@ by {
        assert(parts@.map_values(str_view())[j] == parts@[j]@);
    }
    false
}

/// The special symbols that can replace a symbol.
#[derive(Debug)]
pub struct SpecialSymbolSelector {
    symbol: Symbol,
}

impl View for SpecialSymbolSelector {
    type V = Symbol;

    /// The symbol to replace.
    closed spec fn view(&self) -> Symbol {
        self.symbol
    }
}

impl SpecialSymbolSelector {
    /// A menu of the symbols that can replace `symbol`.
    pub fn new(symbol: Symbol) -> (res: SpecialSymbolSelector)
        ensures
            res@ == symbol,
    {
        SpecialSymbolSelector { symbol }
    }

    /// The symbols that can replace the symbol: the rest of its row.
    pub fn menu(&self) -> (res: Vec<String>)
        ensures
            res@.map_values(string_view()) == (match special_category(self@) {
                Some(row) => rest_of_row(row),
                None => Seq::empty(),
            }),
    {
        match self.find_category() {
            Some(cat) => {
                let all = grapheme_strings(cat);
                let ghost p = split_graphemes(cat@);
                let mut out: Vec<String> = Vec::new();
                if all.len() == 0 {
                    assert(out@.map_values(string_view()) =~= rest_of_row(cat@));
                    return out;
                }
                let mut i: usize = 1;
                assert(p.subrange(1, 1) =~= Seq::<Seq<char>>::empty());
                while i < all.len()
                    invariant
                        p == split_graphemes(cat@),
                        all@.map_values(string_view()) == p,
                        1 <= i <= all@.len(),
                        out@.map_values(string_view()) == p.subrange(1, i as int),
                    decreases all@.len() - i,
                {
                    let ghost before = out@.map_values(string_view());
                    let item = all[i].clone();
                    assert(p[i as int] == item@);
                    out.push(item);
                    assert(out@.map_values(string_view()) =~= before.push(p[i as int]));
                    assert(p.subrange(1, i + 1) =~= p.subrange(1, i as int).push(p[i as int]));
                    i = i + 1;
                }
                assert(p.subrange(1, p.len() as int) =~= p.drop_first());
                out
            },
            None => Vec::new(),
        }
    }

    /// The `n`-th symbol that can replace the symbol.
    pub fn select(&self, n: usize) -> (res: Option<Symbol>)
        ensures
            res == (match special_category(self@) {
                Some(row) => if n + 1 < split_graphemes(row).len() {
                    symbol_of(split_graphemes(row)[n + 1])
                } else {
                    None
                },
                None => None,
            }),
    {
        match self.find_category() {
            Some(cat) => {
                if n < usize::MAX {
                    nth_symbol(cat, n + 1)
                } else {
                    let size = cat.as_bytes().len();
                    proof {
                        lemma_split_graphemes_partition(cat@);
                        crate::grapheme::lemma_len_le_utf8_size(cat@);
                        assert(split_graphemes(cat@).flatten() == cat@);
                        lemma_flatten_len_ge_count(split_graphemes(cat@));
                    }
                    None
                }
            },
            None => None,
        }
    }

    /// The row of the special symbol table that holds the symbol.
    fn find_category(&self) -> (res: Option<&'static str>)
        ensures
            match res {
                Some(r) => special_category(self@) == Some(r@),
                None => special_category(self@) is None,
            },
    {
        let symbol = match self.symbol.as_str() {
            Some(s) => s,
            None => return None,
        };
        let mut i: usize = 0;
        while i < 55
            invariant
                symbol_text(self@) == Some(symbol@),
                i <= 55,
                special_row_from(symbol@, 0) == special_row_from(symbol@, i as int),
            decreases 55 - i,
        {
            let row = special_row(i);
            let parts = graphemes(row).collect();
            if contains_text(&parts, symbol) {
                return Some(row);
            }
            i = i + 1;
        }
        None
    }
}

/// A sequence of non empty pieces has at least as many elements in all as
/// it has pieces.
proof fn lemma_flatten_len_ge_count(parts: Seq<Seq<char>>)
    requires
        forall|i: int| 0 <= i < parts.len() ==> 1 <= #[trigger] parts[i].len(),
    ensures
        parts.len() <= parts.flatten().len(),
    decreases parts.len(),
{
    if parts.len() > 0 {
        assert(parts.drop_first().len() == parts.len() - 1);
        assert forall|i: int| 0 <= i < parts.drop_first().len() implies 1 <= #[trigger] parts.drop_first()[i].len() by {
            assert(parts.drop_first()[i] == parts[i + 1]);
        }
        lemma_flatten_len_ge_count(parts.drop_first());
        assert(1 <= parts[0].len());
    }
}

} // verus!
