//! Splitting text into lines and at a separator.
use vstd::prelude::*;
use vstd::std_specs::iter::IteratorSpec;
use vstd::utf8::encode_utf8;

use crate::grapheme::lemma_len_le_utf8_size;

verus! {

broadcast use vstd::string::group_string_axioms;

/// The view of each string.
pub open spec fn string_view() -> spec_fn(String) -> Seq<char> {
    |s: String| s@
}

/// Calls `String::push`, which appends one character.
#[verifier::external_body]
pub(crate) fn push_char(s: &mut String, c: char)
    ensures
        final(s)@ == old(s)@.push(c),
{
    s.push(c)
}

/// The lines read so far from `s` and the line still open, as reading line
/// by line sees them: a line ends at `'\n'`, and a `'\r'` right before that
/// `'\n'` is not part of the line.
pub open spec fn line_state(s: Seq<char>) -> (Seq<Seq<char>>, Seq<char>)
    decreases s.len(),
{
    if s.len() == 0 {
        (Seq::empty(), Seq::empty())
    } else {
        let (done, open) = line_state(s.drop_last());
        if s.last() == '\n' {
            (done.push(strip_cr(open)), Seq::empty())
        } else {
            (done, open.push(s.last()))
        }
    }
}

/// A line without one trailing `'\r'`.
pub open spec fn strip_cr(line: Seq<char>) -> Seq<char> {
    if line.len() > 0 && line.last() == '\r' {
        line.drop_last()
    } else {
        line
    }
}

/// The lines of `s`: the text between line ends, and the text after the last
/// line end unless it is empty.
pub open spec fn lines_of(s: Seq<char>) -> Seq<Seq<char>> {
    let (done, open) = line_state(s);
    if open.len() > 0 {
        done.push(open)
    } else {
        done
    }
}

/// Splits a text into lines the way reading it line by line does.
pub fn text_lines(text: &str) -> (res: Vec<String>)
    ensures
        res@.map_values(string_view()) == lines_of(text@),
{
    let ghost s = text@;
    proof {
        lemma_len_le_utf8_size(s);
    }
    let size = text.as_bytes().len();
    let mut chars = text.chars();
    let mut done: Vec<String> = Vec::new();
    let mut open = String::new();
    let mut held_cr = false;
    let mut i: usize = 0;
    assert(s.skip(0) =~= s);
    loop
        invariant
            s == text@,
            s.len() <= size,
            IteratorSpec::remaining(&chars) == s.skip(i as int),
            i <= s.len(),
            line_state(s.take(i as int)) == (done@.map_values(string_view()), if held_cr {
                open@.push('\r')
            } else {
                open@
            }),
            !held_cr ==> open@.len() == 0 || open@.last() != '\r',
        ensures
            i == s.len(),
            line_state(s.take(i as int)) == (done@.map_values(string_view()), if held_cr {
                open@.push('\r')
            } else {
                open@
            }),
        decreases s.len() - i,
    {
        let ghost before = done@.map_values(string_view());
        let ghost open_before = open@;
        match chars.next() {
            None => {
                break ;
            },
            Some(c) => {
                assert(c == s[i as int]);
                assert(s.take(i + 1).drop_last() =~= s.take(i as int));
                assert(s.take(i + 1).last() == c);
                let ghost open0 = if held_cr {
                    open_before.push('\r')
                } else {
                    open_before
                };
                proof {
                    if held_cr {
                        assert(open0.drop_last() =~= open_before);
                    }
                }
                if c == '\n' {
                    done.push(open);
                    open = String::new();
                    held_cr = false;
                    assert(done@.map_values(string_view()) =~= before.push(open_before));
                } else {
                    if held_cr {
                        push_char(&mut open, '\r');
                    }
                    if c == '\r' {
                        held_cr = true;
                    } else {
                        push_char(&mut open, c);
                        held_cr = false;
                    }
                }
                assert(s.skip(i as int).drop_first() =~= s.skip(i + 1));
                i = i + 1;
            },
        }
    }
    assert(s.take(i as int) =~= s);
    if held_cr {
        push_char(&mut open, '\r');
    }
    if open.as_str().is_empty() {
        done
    } else {
        let ghost before = done@.map_values(string_view());
        let ghost last = open@;
        done.push(open);
        assert(done@.map_values(string_view()) =~= before.push(last));
        done
    }
}

/// The index of the first `c` in `s`, or the length of `s` when there is none.
pub open spec fn first_index_of(s: Seq<char>, c: char) -> int
    decreases s.len(),
{
    if s.len() == 0 {
        0
    } else if s[0] == c {
        0
    } else {
        1 + first_index_of(s.drop_first(), c)
    }
}

proof fn lemma_first_index_of(s: Seq<char>, c: char)
    ensures
        0 <= first_index_of(s, c) <= s.len(),
        first_index_of(s, c) < s.len() ==> s[first_index_of(s, c)] == c,
        forall|j: int| 0 <= j < first_index_of(s, c) ==> s[j] != c,
    decreases s.len(),
{
    if s.len() > 0 && s[0] != c {
        lemma_first_index_of(s.drop_first(), c);
        assert forall|j: int| 0 <= j < first_index_of(s, c) implies s[j] != c by {
            if j > 0 {
                assert(s[j] == s.drop_first()[j - 1]);
            }
        }
    }
}

/// The text before and after the first `c` in `s`, if there is one.
pub open spec fn split_once_spec(s: Seq<char>, c: char) -> Option<(Seq<char>, Seq<char>)> {
    let k = first_index_of(s, c);
    if k < s.len() {
        Some((s.take(k), s.skip(k + 1)))
    } else {
        None
    }
}

/// Splits `text` at the first `sep`.
pub fn split_once_char(text: &str, sep: char) -> (res: Option<(String, String)>)
    ensures
        match res {
            Some((a, b)) => split_once_spec(text@, sep) == Some((a@, b@)),
            None => split_once_spec(text@, sep) is None,
        },
{
    let ghost s = text@;
    proof {
        lemma_len_le_utf8_size(s);
        lemma_first_index_of(s, sep);
    }
    let ghost k = first_index_of(s, sep);
    let size = text.as_bytes().len();
    let mut chars = text.chars();
    let mut before = String::new();
    let mut after = String::new();
    let mut found = false;
    let mut i: usize = 0;
    assert(s.skip(0) =~= s);
    loop
        invariant
            s == text@,
            s.len() <= size,
            k == first_index_of(s, sep),
            0 <= k <= s.len(),
            k < s.len() ==> s[k] == sep,
            forall|j: int| 0 <= j < k ==> s[j] != sep,
            IteratorSpec::remaining(&chars) == s.skip(i as int),
            i <= s.len(),
            found == (k < i),
            !found ==> before@ == s.take(i as int),
            !found ==> after@.len() == 0,
            found ==> before@ == s.take(k) && after@ == s.subrange(k + 1, i as int),
        ensures
            i == s.len(),
            found == (k < i),
            !found ==> before@ == s.take(i as int),
            found ==> before@ == s.take(k) && after@ == s.subrange(k + 1, i as int),
        decreases s.len() - i,
    {
        match chars.next() {
            None => {
                break ;
            },
            Some(c) => {
                assert(c == s[i as int]);
                if found {
                    push_char(&mut after, c);
                    assert(after@ =~= s.subrange(k + 1, i + 1));
                } else if c == sep {
                    assert(i == k);
                    found = true;
                    assert(after@ =~= s.subrange(k + 1, i + 1));
                } else {
                    push_char(&mut before, c);
                    assert(before@ =~= s.take(i + 1));
                }
                assert(s.skip(i as int).drop_first() =~= s.skip(i + 1));
                i = i + 1;
            },
        }
    }
    if found {
        assert(after@ =~= s.skip(k + 1));
        Some((before, after))
    } else {
        None
    }
}

/// Whether two strings hold the same text.
pub fn str_eq(a: &str, b: &str) -> (res: bool)
    ensures
        res == (a@ == b@),
{
    let x = a.as_bytes();
    let y = b.as_bytes();
    if x.len() != y.len() {
        return false;
    }
    let mut i: usize = 0;
    while i < x.len()
        invariant
            x@.len() == y@.len(),
            x@ == encode_utf8(a@),
            y@ == encode_utf8(b@),
            i <= x@.len(),
            forall|j: int| 0 <= j < i ==> x@[j] == y@[j],
        decreases x@.len() - i,
    {
        if x[i] != y[i] {
            return false;
        }
        i = i + 1;
    }
    assert(x@ =~= y@);
    proof {
        crate::grapheme::lemma_encode_utf8_injective(a@, b@);
    }
    true
}

} // verus!
