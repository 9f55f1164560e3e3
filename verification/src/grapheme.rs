//! Grouping Unicode codepoints into user perceived characters.
//!
//! A user perceived character (a grapheme) is a base codepoint followed by
//! the codepoints that extend it: variation selectors, combining marks from the
//! common combining blocks, emoji modifiers, tag characters, and any codepoint
//! that follows a zero width joiner. Two regional indicators form a flag.
//! A grapheme never holds more than [`Grapheme::CAPACITY`] UTF-8 bytes: a
//! cluster that would be longer is cut at a codepoint boundary.
use vstd::prelude::*;
use vstd::string::StrSliceExecFns;
use vstd::string::StringExecFns;
use vstd::utf8::*;

verus! {

/// Zero width joiner.
pub const ZWJ: char = '\u{200D}';

/// The largest number of UTF-8 bytes a grapheme can hold.
pub const GRAPHEME_CAPACITY: usize = 63;

/// Whether the codepoint continues the grapheme it follows.
pub open spec fn extends_grapheme(c: char) -> bool {
    let u = c as u32;
    ||| 0x0300 <= u <= 0x036F
    ||| 0x1AB0 <= u <= 0x1AFF
    ||| 0x1DC0 <= u <= 0x1DFF
    ||| u == 0x200D
    ||| 0x20D0 <= u <= 0x20F0
    ||| 0x302A <= u <= 0x302F
    ||| 0x3099 <= u <= 0x309A
    ||| 0xFE00 <= u <= 0xFE0F
    ||| 0xFE20 <= u <= 0xFE2F
    ||| 0x1F3FB <= u <= 0x1F3FF
    ||| 0xE0020 <= u <= 0xE007F
    ||| 0xE0100 <= u <= 0xE01EF
}

/// Whether the codepoint is a regional indicator, two of which form a flag.
pub open spec fn regional_indicator(c: char) -> bool {
    0x1F1E6 <= c as u32 <= 0x1F1FF
}

/// The number of bytes of the UTF-8 encoding of `s`.
pub open spec fn utf8_size(s: Seq<char>) -> nat {
    encode_utf8(s).len()
}

/// Whether the codepoint at index `j` (not the first one) joins the grapheme
/// before it: it extends it, or it follows a zero width joiner that is not
/// the first codepoint.
pub open spec fn joins(s: Seq<char>, j: int) -> bool {
    extends_grapheme(s[j]) || (j >= 2 && s[j - 1] == ZWJ)
}

/// Whether the first `k` codepoints of `s` fit in a grapheme.
pub open spec fn fits(s: Seq<char>, k: int) -> bool {
    utf8_size(s.take(k)) <= GRAPHEME_CAPACITY
}

/// The number of codepoints of the first grapheme of `s`, stated by its
/// properties: a regional indicator takes one more regional indicator; any
/// other base takes the longest run of joining codepoints that fits.
pub open spec fn is_first_cluster(s: Seq<char>, k: int) -> bool {
    if s.len() == 0 {
        k == 0
    } else if regional_indicator(s[0]) {
        k == (if s.len() >= 2 && regional_indicator(s[1]) { 2int } else { 1int })
    } else {
        &&& 1 <= k <= s.len()
        &&& forall|j: int| 1 <= j < k ==> #[trigger] joins(s, j)
        &&& fits(s, k)
        &&& (k == s.len() || !joins(s, k) || !fits(s, k + 1))
    }
}

/// Extends a cluster that has `i` codepoints for as long as the next codepoint
/// joins it and still fits.
pub open spec fn cluster_scan(s: Seq<char>, i: int) -> int
    decreases s.len() - i,
{
    if 1 <= i < s.len() && joins(s, i) && fits(s, i + 1) {
        cluster_scan(s, i + 1)
    } else {
        i
    }
}

/// The number of codepoints of the first grapheme of `s`.
pub open spec fn first_cluster_len(s: Seq<char>) -> int {
    if s.len() == 0 {
        0
    } else if regional_indicator(s[0]) {
        if s.len() >= 2 && regional_indicator(s[1]) { 2 } else { 1 }
    } else {
        cluster_scan(s, 1)
    }
}

/// The graphemes of `s`, in order.
pub open spec fn split_graphemes(s: Seq<char>) -> Seq<Seq<char>>
    decreases s.len(),
{
    if s.len() == 0 {
        Seq::empty()
    } else {
        let k = first_cluster_len(s);
        if 1 <= k <= s.len() {
            seq![s.take(k)] + split_graphemes(s.skip(k))
        } else {
            seq![s]
        }
    }
}

pub proof fn lemma_encode_utf8_concat(a: Seq<char>, b: Seq<char>)
    ensures
        encode_utf8(a + b) == encode_utf8(a) + encode_utf8(b),
    decreases a.len(),
{
    if a.len() == 0 {
        assert(a + b =~= b);
        assert(encode_utf8(a) + encode_utf8(b) =~= encode_utf8(b));
    } else {
        lemma_encode_utf8_concat(a.drop_first(), b);
        assert((a + b).drop_first() =~= a.drop_first() + b);
        assert((a + b)[0] == a[0]);
        assert(encode_utf8(a + b) =~= encode_utf8(a) + encode_utf8(b));
    }
}

proof fn lemma_utf8_size_push(s: Seq<char>, c: char)
    ensures
        utf8_size(s.push(c)) == utf8_size(s) + encode_scalar(c as u32).len(),
{
    lemma_encode_utf8_concat(s, seq![c]);
    assert(s.push(c) =~= s + seq![c]);
    assert(seq![c].drop_first() =~= Seq::<char>::empty());
    assert(encode_utf8(seq![c]) == encode_scalar(c as u32) + encode_utf8(seq![c].drop_first()));
    assert(encode_utf8(Seq::<char>::empty()) =~= Seq::<u8>::empty());
    assert(encode_utf8(seq![c]) =~= encode_scalar(c as u32));
}

/// A proper prefix is strictly shorter in bytes.
proof fn lemma_utf8_size_take_strict(s: Seq<char>, k: int)
    requires
        0 <= k < s.len(),
    ensures
        utf8_size(s.take(k)) < utf8_size(s),
        k <= utf8_size(s.take(k)),
    decreases k,
{
    lemma_utf8_size_take_step(s, k);
    lemma_scalar_width(s[k]);
    lemma_utf8_size_take_mono(s, k + 1, s.len() as int);
    assert(s.take(s.len() as int) =~= s);
    if k > 0 {
        lemma_utf8_size_take_strict(s, k - 1);
        lemma_utf8_size_take_step(s, k - 1);
        lemma_scalar_width(s[k - 1]);
    } else {
        assert(s.take(0) =~= Seq::<char>::empty());
    }
}

proof fn lemma_utf8_size_take_step(s: Seq<char>, k: int)
    requires
        0 <= k < s.len(),
    ensures
        utf8_size(s.take(k + 1)) == utf8_size(s.take(k)) + encode_scalar(s[k] as u32).len(),
{
    assert(s.take(k + 1) =~= s.take(k).push(s[k]));
    lemma_utf8_size_push(s.take(k), s[k]);
}

proof fn lemma_scalar_width(c: char)
    ensures
        1 <= encode_scalar(c as u32).len() <= 4,
{
    char_is_scalar(c);
}

proof fn lemma_utf8_size_split(s: Seq<char>, k: int)
    requires
        0 <= k <= s.len(),
    ensures
        encode_utf8(s) == encode_utf8(s.take(k)) + encode_utf8(s.skip(k)),
        utf8_size(s.take(k)) <= utf8_size(s),
{
    assert(s.take(k) + s.skip(k) =~= s);
    lemma_encode_utf8_concat(s.take(k), s.skip(k));
}

/// A text has at least as many UTF-8 bytes as codepoints.
pub proof fn lemma_len_le_utf8_size(s: Seq<char>)
    ensures
        s.len() <= utf8_size(s),
{
    if s.len() > 0 {
        lemma_utf8_size_take_strict(s, s.len() - 1);
        assert(s.take(s.len() - 1) =~= s.drop_last());
        lemma_utf8_size_take_step(s, s.len() - 1);
        lemma_scalar_width(s[s.len() - 1]);
        assert(s.take(s.len() as int) =~= s);
    }
}

/// Injectivity of the UTF-8 encoding.
pub proof fn lemma_encode_utf8_injective(a: Seq<char>, b: Seq<char>)
    requires
        encode_utf8(a) == encode_utf8(b),
    ensures
        a == b,
{
    encode_utf8_decode_utf8(a);
    encode_utf8_decode_utf8(b);
}

proof fn lemma_prefix_is_char_boundary(s: Seq<char>, k: int)
    requires
        0 <= k <= s.len(),
    ensures
        is_char_boundary(encode_utf8(s), utf8_size(s.take(k)) as int),
    decreases k,
{
    let bytes = encode_utf8(s);
    encode_utf8_valid_utf8(s);
    if k == 0 {
        assert(s.take(0) =~= Seq::<char>::empty());
    } else {
        encode_utf8_first_scalar(s);
        assert(pop_first_scalar(bytes) =~= encode_utf8(s.drop_first()));
        lemma_prefix_is_char_boundary(s.drop_first(), k - 1);
        assert(s.take(k).drop_first() =~= s.drop_first().take(k - 1));
        assert(s.take(k)[0] == s[0]);
        lemma_utf8_size_split(s, k);
    }
}

/// Size of a prefix grows with its length.
proof fn lemma_utf8_size_take_mono(s: Seq<char>, a: int, b: int)
    requires
        0 <= a <= b <= s.len(),
    ensures
        utf8_size(s.take(a)) <= utf8_size(s.take(b)),
{
    let t = s.take(b);
    lemma_utf8_size_split(t, a);
    assert(t.take(a) =~= s.take(a));
}

proof fn lemma_cluster_scan(s: Seq<char>, i: int)
    requires
        1 <= i <= s.len(),
        forall|j: int| 1 <= j < i ==> #[trigger] joins(s, j),
        fits(s, i),
    ensures
        i <= cluster_scan(s, i) <= s.len(),
        forall|j: int| 1 <= j < cluster_scan(s, i) ==> #[trigger] joins(s, j),
        fits(s, cluster_scan(s, i)),
        cluster_scan(s, i) == s.len() || !joins(s, cluster_scan(s, i)) || !fits(
            s,
            cluster_scan(s, i) + 1,
        ),
    decreases s.len() - i,
{
    if 1 <= i < s.len() && joins(s, i) && fits(s, i + 1) {
        lemma_cluster_scan(s, i + 1);
    }
}

proof fn lemma_single_fits(s: Seq<char>)
    requires
        s.len() >= 1,
    ensures
        fits(s, 1),
        s.len() >= 2 ==> fits(s, 2),
{
    lemma_utf8_size_take_step(s, 0);
    assert(s.take(0) =~= Seq::<char>::empty());
    lemma_scalar_width(s[0]);
    if s.len() >= 2 {
        lemma_utf8_size_take_step(s, 1);
        lemma_scalar_width(s[1]);
    }
}

/// The first grapheme is exactly the one described by `is_first_cluster`.
pub proof fn lemma_first_cluster_len(s: Seq<char>)
    ensures
        is_first_cluster(s, first_cluster_len(s)),
        forall|k: int| is_first_cluster(s, k) ==> k == first_cluster_len(s),
        s.len() > 0 ==> 1 <= first_cluster_len(s) <= s.len(),
        fits(s, first_cluster_len(s)),
{
    if s.len() > 0 {
        lemma_single_fits(s);
        if !regional_indicator(s[0]) {
            lemma_cluster_scan(s, 1);
            let k0 = first_cluster_len(s);
            assert forall|k: int| is_first_cluster(s, k) implies k == k0 by {
                if k < k0 {
                    assert(joins(s, k));
                    lemma_utf8_size_take_mono(s, k + 1, k0);
                } else if k > k0 {
                    assert(joins(s, k0));
                    lemma_utf8_size_take_mono(s, k0 + 1, k);
                }
            }
        }
    } else {
        assert(s.take(0) =~= Seq::<char>::empty());
    }
}

/// The UTF-8 length of a codepoint.
fn char_utf8_len(c: char) -> (n: usize)
    ensures
        n == encode_scalar(c as u32).len(),
        1 <= n <= 4,
{
    proof {
        char_is_scalar(c);
    }
    let u = c as u32;
    if u <= 0x7F {
        1
    } else if u <= 0x7FF {
        2
    } else if u <= 0xFFFF {
        3
    } else {
        4
    }
}

fn is_extending(ch: char) -> (res: bool)
    ensures
        res == extends_grapheme(ch),
{
    let u = ch as u32;
    (0x0300 <= u && u <= 0x036F) || (0x1AB0 <= u && u <= 0x1AFF) || (0x1DC0 <= u && u <= 0x1DFF)
        || u == 0x200D || (0x20D0 <= u && u <= 0x20F0) || (0x302A <= u && u <= 0x302F) || (0x3099
        <= u && u <= 0x309A) || (0xFE00 <= u && u <= 0xFE0F) || (0xFE20 <= u && u <= 0xFE2F) || (
    0x1F3FB <= u && u <= 0x1F3FF) || (0xE0020 <= u && u <= 0xE007F) || (0xE0100 <= u && u
        <= 0xE01EF)
}

fn is_regional_indicator(ch: char) -> (res: bool)
    ensures
        res == regional_indicator(ch),
{
    let u = ch as u32;
    0x1F1E6 <= u && u <= 0x1F1FF
}

/// The view of each string slice.
pub open spec fn str_view<'a>() -> spec_fn(&'a str) -> Seq<char> {
    |g: &'a str| g@
}

/// Splits a string into user perceived characters.
pub fn graphemes(str: &str) -> (res: Graphemes<'_>)
    ensures
        res@ == str@,
{
    Graphemes { rest: str }
}

/// The user perceived characters of a string, taken one at a time.
#[derive(Debug, Clone)]
pub struct Graphemes<'a> {
    rest: &'a str,
}

impl<'a> View for Graphemes<'a> {
    type V = Seq<char>;

    closed spec fn view(&self) -> Seq<char> {
        self.rest@
    }
}

impl<'a> Graphemes<'a> {
    /// Returns the part of the string that has not been split yet.
    pub fn as_str(&self) -> (res: &'a str)
        ensures
            res@ == self@,
    {
        self.rest
    }

    /// Splits off the next user perceived character.
    pub fn next(&mut self) -> (res: Option<&'a str>)
        ensures
            old(self)@.len() == 0 <==> res is None,
            res is None ==> final(self)@ == old(self)@,
            res matches Some(g) ==> {
                &&& g@.len() == first_cluster_len(old(self)@)
                &&& is_first_cluster(old(self)@, g@.len() as int)
                &&& g@ == old(self)@.take(g@.len() as int)
                &&& final(self)@ == old(self)@.skip(g@.len() as int)
                &&& 1 <= utf8_size(g@) <= GRAPHEME_CAPACITY
                &&& g@ == split_graphemes(old(self)@)[0]
                &&& split_graphemes(final(self)@) == split_graphemes(old(self)@).drop_first()
            },
    {
        let s = self.rest;
        if s.is_empty() {
            return None;
        }
        let ghost sv = s@;
        proof {
            assert(sv.take(0) =~= Seq::<char>::empty());
            lemma_utf8_size_take_step(sv, 0);
        }
        let base = s.get_char(0);
        let mut end = char_utf8_len(base);
        let mut count: usize = 1;
        let size = s.as_bytes().len();
        proof {
            if sv.len() > 1 {
                lemma_utf8_size_take_strict(sv, 1);
            } else {
                assert(sv.take(1) =~= sv);
            }
        }
        if is_regional_indicator(base) {
            if end < size {
                let ch = s.get_char(1);
                if is_regional_indicator(ch) {
                    proof {
                        lemma_utf8_size_take_step(sv, 1);
                    }
                    end = end + char_utf8_len(ch);
                    count = 2;
                }
            }
        } else {
            let mut after_zwj = false;
            while end < size
                invariant
                    sv == s@,
                    size == utf8_size(sv),
                    count <= end,
                    count < sv.len() ==> end < size,
                    count == sv.len() ==> end == size,
                    !regional_indicator(sv[0]),
                    1 <= count <= sv.len(),
                    end == utf8_size(sv.take(count as int)),
                    end <= GRAPHEME_CAPACITY,
                    forall|j: int| 1 <= j < count ==> #[trigger] joins(sv, j),
                    after_zwj == (count >= 2 && sv[count - 1] == ZWJ),
                    cluster_scan(sv, count as int) == cluster_scan(sv, 1),
                ensures
                    1 <= count <= sv.len(),
                    end == utf8_size(sv.take(count as int)),
                    cluster_scan(sv, count as int) == count,
                    cluster_scan(sv, count as int) == cluster_scan(sv, 1),
                decreases sv.len() - count,
            {
                proof {
                    if count == sv.len() {
                        assert(sv.take(count as int) =~= sv);
                    }
                }
                let ch = s.get_char(count);
                if !after_zwj && !is_extending(ch) {
                    break;
                }
                let w = char_utf8_len(ch);
                proof {
                    lemma_utf8_size_take_step(sv, count as int);
                }
                if end + w > GRAPHEME_CAPACITY {
                    break;
                }
                end = end + w;
                after_zwj = ch == ZWJ;
                count = count + 1;
                proof {
                    if count < sv.len() {
                        lemma_utf8_size_take_strict(sv, count as int);
                    } else {
                        assert(sv.take(count as int) =~= sv);
                    }
                }
            }
        }
        proof {
            lemma_first_cluster_len(sv);
            lemma_prefix_is_char_boundary(sv, count as int);
            lemma_utf8_size_split(sv, count as int);
        }
        let (g, rest) = s.split_at(end);
        proof {
            let k = count as int;
            assert(encode_utf8(sv).subrange(0, end as int) =~= encode_utf8(sv.take(k)));
            assert(encode_utf8(sv).subrange(end as int, encode_utf8(sv).len() as int)
                =~= encode_utf8(sv.skip(k)));
            lemma_encode_utf8_injective(g@, sv.take(k));
            lemma_encode_utf8_injective(rest@, sv.skip(k));
            assert(first_cluster_len(sv) == k);
            assert(split_graphemes(sv) == seq![sv.take(k)] + split_graphemes(sv.skip(k)));
            assert(split_graphemes(sv).drop_first() =~= split_graphemes(sv.skip(k)));
        }
        self.rest = rest;
        Some(g)
    }
}


impl<'a> Graphemes<'a> {
    /// Splits the rest of the string into all its user perceived characters.
    pub fn collect(self) -> (res: Vec<&'a str>)
        ensures
            res@.map_values(str_view()) == split_graphemes(self@),
    {
        let mut it = self;
        let mut out: Vec<&'a str> = Vec::new();
        loop
            invariant
                split_graphemes(self@) == out@.map_values(str_view()) + split_graphemes(it@),
            decreases it@.len(),
        {
            let ghost before = it@;
            match it.next() {
                None => {
                    assert(split_graphemes(before) =~= Seq::<Seq<char>>::empty());
                    assert(out@.map_values(str_view()) + Seq::<Seq<char>>::empty()
                        =~= out@.map_values(str_view()));
                    return out;
                },
                Some(g) => {
                    proof {
                        lemma_first_cluster_len(before);
                    }
                    let ghost prev = out@;
                    out.push(g);
                    assert(out@.map_values(str_view()) =~= prev.map_values(str_view()).push(g@));
                    assert(split_graphemes(before) =~= seq![g@] + split_graphemes(it@));
                    assert(prev.map_values(str_view()) + (seq![g@] + split_graphemes(it@))
                        =~= prev.map_values(str_view()).push(g@) + split_graphemes(it@));
                },
            }
        }
    }
}

/// The graphemes of a string partition it: concatenated in order they give
/// back the string, none of them is empty, and none of them is longer than
/// [`GRAPHEME_CAPACITY`] bytes.
pub proof fn lemma_split_graphemes_partition(s: Seq<char>)
    ensures
        split_graphemes(s).flatten() == s,
        forall|i: int|
            0 <= i < split_graphemes(s).len() ==> {
                &&& 1 <= #[trigger] split_graphemes(s)[i].len()
                &&& 1 <= utf8_size(split_graphemes(s)[i]) <= GRAPHEME_CAPACITY
            },
    decreases s.len(),
{
    let parts = split_graphemes(s);
    if s.len() == 0 {
        assert(parts.flatten() =~= s);
    } else {
        lemma_first_cluster_len(s);
        let k = first_cluster_len(s);
        let rest = s.skip(k);
        lemma_split_graphemes_partition(rest);
        assert(parts.first() == s.take(k));
        assert(parts.drop_first() =~= split_graphemes(rest));
        assert(s.take(k) + rest =~= s);
        assert forall|i: int| 0 <= i < parts.len() implies {
            &&& 1 <= #[trigger] parts[i].len()
            &&& 1 <= utf8_size(parts[i]) <= GRAPHEME_CAPACITY
        } by {
            if i == 0 {
                lemma_utf8_size_take_strict(s.take(k), 0);
                assert(s.take(k).take(0) =~= Seq::<char>::empty());
            } else {
                assert(parts[i] == split_graphemes(rest)[i - 1]);
            }
        }
    }
}

/// Every grapheme of a string follows the rule of `is_first_cluster` on the
/// text that is left when it is reached: a regional indicator takes one more
/// regional indicator, any other base takes the codepoints that join it for
/// as long as they fit, and no grapheme stops early. The text left after
/// the first `i` graphemes is the rest of them put together, and it splits
/// into exactly those.
pub proof fn lemma_split_graphemes_parts(s: Seq<char>)
    ensures
        forall|i: int|
            0 <= i <= split_graphemes(s).len() ==> (#[trigger] split_graphemes(s).take(i)).flatten()
                + split_graphemes(s).skip(i).flatten() == s,
        forall|i: int|
            0 <= i <= split_graphemes(s).len() ==> split_graphemes(
                (#[trigger] split_graphemes(s).skip(i)).flatten(),
            ) == split_graphemes(s).skip(i),
        forall|i: int|
            0 <= i < split_graphemes(s).len() ==> is_first_cluster(
                split_graphemes(s).skip(i).flatten(),
                (#[trigger] split_graphemes(s)[i]).len() as int,
            ),
    decreases s.len(),
{
    let parts = split_graphemes(s);
    lemma_split_graphemes_partition(s);
    if s.len() == 0 {
        assert forall|i: int| 0 <= i <= parts.len() implies (#[trigger] parts.take(i)).flatten() + parts.skip(
            i,
        ).flatten() == s && split_graphemes(parts.skip(i).flatten()) == parts.skip(i) by {
            assert(parts.take(i) =~= Seq::<Seq<char>>::empty());
            assert(parts.skip(i) =~= Seq::<Seq<char>>::empty());
            assert(s =~= Seq::<char>::empty());
        }
        assert forall|i: int| 0 <= i <= parts.len() implies split_graphemes(
            (#[trigger] parts.skip(i)).flatten(),
        ) == parts.skip(i) by {
            assert(parts.take(i).flatten() + parts.skip(i).flatten() == s);
        }
    } else {
        lemma_first_cluster_len(s);
        let k = first_cluster_len(s);
        let rest = s.skip(k);
        let rp = split_graphemes(rest);
        lemma_split_graphemes_parts(rest);
        assert(parts == seq![s.take(k)] + rp);
        assert forall|i: int| 0 <= i <= parts.len() implies (#[trigger] parts.take(i)).flatten() + parts.skip(
            i,
        ).flatten() == s && split_graphemes(parts.skip(i).flatten()) == parts.skip(i) by {
            if i == 0 {
                assert(parts.take(0) =~= Seq::<Seq<char>>::empty());
                assert(parts.skip(0) =~= parts);
                assert(parts.take(0).flatten() =~= Seq::<char>::empty());
                assert(Seq::<char>::empty() + s =~= s);
            } else {
                assert(parts.skip(i) =~= rp.skip(i - 1));
                assert(split_graphemes(rp.skip(i - 1).flatten()) == rp.skip(i - 1));
                assert(parts.take(i) =~= seq![s.take(k)] + rp.take(i - 1));
                assert((seq![s.take(k)] + rp.take(i - 1)).drop_first() =~= rp.take(i - 1));
                assert(parts.take(i).flatten() == s.take(k) + rp.take(i - 1).flatten());
                assert(rp.take(i - 1).flatten() + rp.skip(i - 1).flatten() == rest);
                assert(s.take(k) + rest =~= s);
                assert(s.take(k) + rp.take(i - 1).flatten() + rp.skip(i - 1).flatten() =~= s.take(k)
                    + (rp.take(i - 1).flatten() + rp.skip(i - 1).flatten()));
            }
        }
        assert forall|i: int| 0 <= i <= parts.len() implies split_graphemes(
            (#[trigger] parts.skip(i)).flatten(),
        ) == parts.skip(i) by {
            assert(parts.take(i).flatten() + parts.skip(i).flatten() == s);
        }
        assert forall|i: int| 0 <= i < parts.len() implies is_first_cluster(
            parts.skip(i).flatten(),
            (#[trigger] parts[i]).len() as int,
        ) by {
            if i == 0 {
                assert(parts.skip(0) =~= parts);
                assert(parts[0] == s.take(k));
            } else {
                assert(parts.skip(i) =~= rp.skip(i - 1));
                assert(parts[i] == rp[i - 1]);
            }
        }
    }
}

/// Whatever text splits into the graphemes of `s` after its first `k` is the
/// text of `s` after those `k` graphemes. With `Graphemes::next`, which
/// hands out the first grapheme and leaves text that splits into the others,
/// this says that after `k` calls `as_str` gives the text after the first
/// `k` graphemes.
pub proof fn lemma_rest_after_graphemes(s: Seq<char>, r: Seq<char>, k: int)
    requires
        0 <= k <= split_graphemes(s).len(),
        split_graphemes(r) == split_graphemes(s).skip(k),
    ensures
        r == s.skip(split_graphemes(s).take(k).flatten().len() as int),
{
    lemma_split_graphemes_parts(s);
    lemma_split_graphemes_partition(r);
    let parts = split_graphemes(s);
    assert(parts.take(k).flatten() + parts.skip(k).flatten() == s);
    assert(s.skip(parts.take(k).flatten().len() as int) =~= parts.skip(k).flatten());
}

/// Calls `std::str::from_utf8`. Its documentation says that it succeeds on
/// every valid UTF-8 byte sequence and that the string it returns is made of
/// exactly the given bytes; that is what the contract claims. It does not claim
/// that invalid input fails.
#[verifier::external_body]
fn str_from_utf8(bytes: &[u8]) -> (res: Option<&str>)
    ensures
        valid_utf8(bytes@) ==> res is Some,
        res matches Some(s) ==> encode_utf8(s@) == bytes@,
{
    std::str::from_utf8(bytes).ok()
}

/// Whether two byte slices hold the same bytes.
fn bytes_equal(a: &[u8], b: &[u8]) -> (res: bool)
    ensures
        res == (a@ == b@),
{
    if a.len() != b.len() {
        return false;
    }
    let mut i: usize = 0;
    while i < a.len()
        invariant
            a@.len() == b@.len(),
            i <= a@.len(),
            forall|j: int| 0 <= j < i ==> a@[j] == b@[j],
        decreases a@.len() - i,
    {
        if a[i] != b[i] {
            return false;
        }
        i = i + 1;
    }
    assert(a@ =~= b@);
    true
}

/// A user perceived character made of one or more Unicode codepoints.
///
/// The UTF-8 bytes are stored inline, so a `Grapheme` is `Copy` and needs no
/// allocation; it holds at most [`Grapheme::CAPACITY`] bytes. The bytes
/// after the text are zero and the buffer comes before the length, so the
/// derived total order, buffer first and length to break ties, is the byte
/// order of the text, the order `partial_cmp` gives.
#[derive(Clone, Copy, Hash, Debug, Ord)]
pub struct Grapheme {
    buf: [u8; GRAPHEME_CAPACITY],
    len: u8,
}

impl View for Grapheme {
    type V = Seq<char>;

    /// The codepoints of the grapheme.
    closed spec fn view(&self) -> Seq<char> {
        decode_utf8(self.buf@.subrange(0, self.len as int))
    }
}

/// The grapheme that holds exactly the codepoints `s`, when `s` is not empty
/// and fits.
pub closed spec fn grapheme_of(s: Seq<char>) -> Grapheme {
    choose|g: Grapheme| g.wf() && g@ == s
}

/// Whether `s` can be stored in a grapheme.
pub open spec fn fits_in_grapheme(s: Seq<char>) -> bool {
    s.len() > 0 && utf8_size(s) <= GRAPHEME_CAPACITY
}

/// A buffer holding the first `i` bytes of `b`, then zeros.
spec fn padded_buf(b: Seq<u8>, i: nat) -> [u8; GRAPHEME_CAPACITY]
    decreases i,
{
    if i == 0 {
        vstd::array::spec_array_fill_for_copy_type::<u8, GRAPHEME_CAPACITY>(0u8)
    } else {
        vstd::array::spec_array_update(padded_buf(b, (i - 1) as nat), i - 1, b[i - 1])
    }
}

proof fn lemma_padded_buf(b: Seq<u8>, i: nat)
    requires
        i <= b.len(),
        i <= GRAPHEME_CAPACITY,
    ensures
        padded_buf(b, i)@.len() == GRAPHEME_CAPACITY,
        forall|j: int| 0 <= j < i ==> #[trigger] padded_buf(b, i)@[j] == b[j],
        forall|j: int| i <= j < GRAPHEME_CAPACITY ==> #[trigger] padded_buf(b, i)@[j] == 0u8,
    decreases i,
{
    if i > 0 {
        lemma_padded_buf(b, (i - 1) as nat);
    }
}

impl Grapheme {
    /// The largest number of UTF-8 bytes a `Grapheme` can hold.
    pub const CAPACITY: usize = 63;

    #[verifier::type_invariant]
    spec fn wf(self) -> bool {
        &&& 1 <= self.len <= GRAPHEME_CAPACITY
        &&& valid_utf8(self.buf@.subrange(0, self.len as int))
        &&& forall|i: int| self.len <= i < GRAPHEME_CAPACITY ==> #[trigger] self.buf@[i] == 0u8
    }

    proof fn lemma_wf_bytes(self)
        requires
            self.wf(),
        ensures
            encode_utf8(self@) == self.buf@.subrange(0, self.len as int),
            fits_in_grapheme(self@),
    {
        decode_utf8_encode_utf8(self.buf@.subrange(0, self.len as int));
        if self@.len() == 0 {
            assert(encode_utf8(self@) =~= Seq::<u8>::empty());
        }
    }

    /// Two well formed graphemes with the same codepoints are the same value.
    proof fn lemma_wf_unique(a: Grapheme, b: Grapheme)
        requires
            a.wf(),
            b.wf(),
            a@ == b@,
        ensures
            a == b,
    {
        a.lemma_wf_bytes();
        b.lemma_wf_bytes();
        assert(a.len == b.len);
        assert forall|i: int| 0 <= i < GRAPHEME_CAPACITY implies a.buf[i] == b.buf[i] by {
            if i < a.len {
                assert(a.buf@.subrange(0, a.len as int)[i] == b.buf@.subrange(0, b.len as int)[i]);
            }
        }
        assert(a.buf =~= b.buf);
    }

    /// Every text that fits has a well formed grapheme.
    proof fn lemma_exists_wf(s: Seq<char>)
        requires
            fits_in_grapheme(s),
        ensures
            grapheme_of(s).wf(),
            grapheme_of(s)@ == s,
    {
        let b = encode_utf8(s);
        let n = b.len();
        lemma_len_le_utf8_size(s);
        lemma_padded_buf(b, n);
        let g = Grapheme { len: n as u8, buf: padded_buf(b, n) };
        assert(g.buf@.subrange(0, n as int) =~= b);
        encode_utf8_valid_utf8(s);
        encode_utf8_decode_utf8(s);
        assert(g.wf() && g@ == s);
    }

    /// `grapheme_of` picks the well formed grapheme with the given codepoints.
    proof fn lemma_grapheme_of(g: Grapheme)
        requires
            g.wf(),
        ensures
            grapheme_of(g@) == g,
    {
        let c = grapheme_of(g@);
        assert(c.wf() && c@ == g@);
        Grapheme::lemma_wf_unique(c, g);
    }

    /// The UTF-8 bytes of the grapheme.
    pub(crate) fn bytes(&self) -> (res: &[u8])
        ensures
            res@ == encode_utf8(self@),
            fits_in_grapheme(self@),
    {
        proof {
            use_type_invariant(self);
            self.lemma_wf_bytes();
        }
        vstd::slice::slice_subrange(self.buf.as_slice(), 0, self.len as usize)
    }

    /// Returns the codepoints as a string slice.
    pub fn as_str(&self) -> (res: &str)
        ensures
            res@ == self@,
    {
        proof {
            use_type_invariant(self);
            self.lemma_wf_bytes();
        }
        let bytes = vstd::slice::slice_subrange(self.buf.as_slice(), 0, self.len as usize);
        match str_from_utf8(bytes) {
            Some(s) => {
                proof {
                    lemma_encode_utf8_injective(
                        s@,
                        decode_utf8(self.buf@.subrange(0, self.len as int)),
                    );
                }
                s
            },
            None => "",
        }
    }
}

impl AsRef<str> for Grapheme {
    /// The codepoints as a string slice, as `as_str` gives them.
    fn as_ref(&self) -> (res: &str)
        ensures
            res@ == self@,
    {
        self.as_str()
    }
}

impl std::ops::Deref for Grapheme {
    type Target = str;

    /// The codepoints as a string slice, as `as_str` gives them.
    fn deref(&self) -> (res: &str)
        ensures
            res@ == self@,
    {
        self.as_str()
    }
}

/// The grapheme picked for a text that fits holds exactly that text.
pub proof fn lemma_grapheme_of_view(s: Seq<char>)
    requires
        fits_in_grapheme(s),
    ensures
        grapheme_of(s)@ == s,
{
    Grapheme::lemma_exists_wf(s);
}

impl From<char> for Grapheme {
    /// The grapheme made of one codepoint.
    fn from(value: char) -> (res: Grapheme)
        ensures
            res@ == seq![value],
    {
        let u = value as u32;
        let mut buf = [0u8; GRAPHEME_CAPACITY];
        let len: u8;
        proof {
            char_is_scalar(value);
        }
        if u <= 0x7F {
            buf[0] = (u & 0x7F) as u8;
            len = 1;
        } else if u <= 0x7FF {
            buf[0] = 0xC0 | ((u >> 6) & 0x1F) as u8;
            buf[1] = 0x80 | (u & 0x3F) as u8;
            len = 2;
        } else if u <= 0xFFFF {
            buf[0] = 0xE0 | ((u >> 12) & 0x0F) as u8;
            buf[1] = 0x80 | ((u >> 6) & 0x3F) as u8;
            buf[2] = 0x80 | (u & 0x3F) as u8;
            len = 3;
        } else {
            buf[0] = 0xF0 | ((u >> 18) & 0x7) as u8;
            buf[1] = 0x80 | ((u >> 12) & 0x3F) as u8;
            buf[2] = 0x80 | ((u >> 6) & 0x3F) as u8;
            buf[3] = 0x80 | (u & 0x3F) as u8;
            len = 4;
        }
        proof {
            let c = seq![value];
            assert(c.drop_first() =~= Seq::<char>::empty());
            assert(encode_utf8(c) == encode_scalar(u) + encode_utf8(c.drop_first()));
            assert(encode_utf8(Seq::<char>::empty()) =~= Seq::<u8>::empty());
            assert(buf@.subrange(0, len as int) =~= encode_utf8(c));
            encode_utf8_valid_utf8(c);
            encode_utf8_decode_utf8(c);
        }
        let res = Grapheme { len, buf };
        proof {
            Grapheme::lemma_grapheme_of(res);
        }
        res
    }
}

impl vstd::std_specs::convert::FromSpecImpl<char> for Grapheme {
    open spec fn obeys_from_spec() -> bool {
        true
    }

    open spec fn from_spec(v: char) -> Grapheme {
        grapheme_of(seq![v])
    }
}

/// The error returned when a string cannot be stored in a [`Grapheme`]:
/// it is empty, or longer than [`Grapheme::CAPACITY`] bytes.
#[derive(Debug, Clone, Copy, PartialEq, Eq, Structural)]
pub struct GraphemeError {
    /// The UTF-8 length of the rejected string.
    pub len: usize,
}

impl<'a> TryFrom<&'a str> for Grapheme {
    type Error = GraphemeError;

    /// Stores the string in a grapheme, or tells why it cannot.
    fn try_from(value: &'a str) -> (res: Result<Grapheme, GraphemeError>)
        ensures
            res is Ok <==> fits_in_grapheme(value@),
            res matches Ok(g) ==> g@ == value@,
            res matches Err(e) ==> e.len == utf8_size(value@),
    {
        let bytes = value.as_bytes();
        let n = bytes.len();
        if value.is_empty() {
            proof {
                assert(encode_utf8(value@) =~= Seq::<u8>::empty());
            }
            return Err(GraphemeError { len: 0 });
        }
        if n > GRAPHEME_CAPACITY {
            return Err(GraphemeError { len: n });
        }
        let mut buf = [0u8; GRAPHEME_CAPACITY];
        let mut i: usize = 0;
        while i < n
            invariant
                n == bytes@.len(),
                n <= GRAPHEME_CAPACITY,
                i <= n,
                buf@.len() == GRAPHEME_CAPACITY,
                forall|j: int| 0 <= j < i ==> buf@[j] == bytes@[j],
                forall|j: int| i <= j < GRAPHEME_CAPACITY ==> buf@[j] == 0u8,
            decreases n - i,
        {
            buf[i] = bytes[i];
            i = i + 1;
        }
        proof {
            assert(buf@.subrange(0, n as int) =~= bytes@);
            encode_utf8_valid_utf8(value@);
            encode_utf8_decode_utf8(value@);
        }
        let res = Grapheme { len: n as u8, buf };
        proof {
            Grapheme::lemma_grapheme_of(res);
        }
        Ok(res)
    }
}

impl<'a> vstd::std_specs::convert::TryFromSpecImpl<&'a str> for Grapheme {
    open spec fn obeys_try_from_spec() -> bool {
        true
    }

    open spec fn try_from_spec(v: &'a str) -> Result<Grapheme, GraphemeError> {
        if v@.len() == 0 {
            Err(GraphemeError { len: 0 })
        } else if utf8_size(v@) > GRAPHEME_CAPACITY {
            Err(GraphemeError { len: utf8_size(v@) as usize })
        } else {
            Ok(grapheme_of(v@))
        }
    }
}

impl PartialEq for Grapheme {
    fn eq(&self, other: &Grapheme) -> (res: bool) {
        let r = bytes_equal(self.bytes(), other.bytes());
        proof {
            if r {
                lemma_encode_utf8_injective(self@, other@);
            }
        }
        r
    }
}

impl vstd::std_specs::cmp::PartialEqSpecImpl for Grapheme {
    open spec fn obeys_eq_spec() -> bool {
        true
    }

    open spec fn eq_spec(&self, other: &Grapheme) -> bool {
        self@ == other@
    }
}

impl Eq for Grapheme {}

impl PartialEq<str> for Grapheme {
    fn eq(&self, other: &str) -> (res: bool) {
        let r = bytes_equal(self.bytes(), other.as_bytes());
        proof {
            if r {
                lemma_encode_utf8_injective(self@, other@);
            }
        }
        r
    }
}

impl vstd::std_specs::cmp::PartialEqSpecImpl<str> for Grapheme {
    open spec fn obeys_eq_spec() -> bool {
        true
    }

    open spec fn eq_spec(&self, other: &str) -> bool {
        self@ == other@
    }
}

impl<'a> PartialEq<&'a str> for Grapheme {
    fn eq(&self, other: &&'a str) -> (res: bool) {
        let r = bytes_equal(self.bytes(), other.as_bytes());
        proof {
            if r {
                lemma_encode_utf8_injective(self@, other@);
            }
        }
        r
    }
}

impl<'a> vstd::std_specs::cmp::PartialEqSpecImpl<&'a str> for Grapheme {
    open spec fn obeys_eq_spec() -> bool {
        true
    }

    open spec fn eq_spec(&self, other: &&'a str) -> bool {
        self@ == other@
    }
}

impl PartialEq<Grapheme> for str {
    fn eq(&self, other: &Grapheme) -> (res: bool) {
        let r = bytes_equal(self.as_bytes(), other.bytes());
        proof {
            if r {
                lemma_encode_utf8_injective(self@, other@);
            }
        }
        r
    }
}

impl vstd::std_specs::cmp::PartialEqSpecImpl<Grapheme> for str {
    open spec fn obeys_eq_spec() -> bool {
        true
    }

    open spec fn eq_spec(&self, other: &Grapheme) -> bool {
        self@ == other@
    }
}

impl<'a> PartialEq<Grapheme> for &'a str {
    fn eq(&self, other: &Grapheme) -> (res: bool) {
        let r = bytes_equal(self.as_bytes(), other.bytes());
        proof {
            if r {
                lemma_encode_utf8_injective(self@, other@);
            }
        }
        r
    }
}

impl<'a> vstd::std_specs::cmp::PartialEqSpecImpl<Grapheme> for &'a str {
    open spec fn obeys_eq_spec() -> bool {
        true
    }

    open spec fn eq_spec(&self, other: &Grapheme) -> bool {
        self@ == other@
    }
}

/// The decimal digit `d`.
pub open spec fn digit_char(d: nat) -> char {
    if d == 0 {
        '0'
    } else if d == 1 {
        '1'
    } else if d == 2 {
        '2'
    } else if d == 3 {
        '3'
    } else if d == 4 {
        '4'
    } else if d == 5 {
        '5'
    } else if d == 6 {
        '6'
    } else if d == 7 {
        '7'
    } else if d == 8 {
        '8'
    } else {
        '9'
    }
}

/// The decimal representation of `n`, without leading zeros.
pub open spec fn decimal(n: nat) -> Seq<char>
    decreases n,
{
    if n < 10 {
        seq![digit_char(n)]
    } else {
        decimal(n / 10).push(digit_char(n % 10))
    }
}

fn digit_str(d: usize) -> (res: &'static str)
    requires
        d < 10,
    ensures
        res@ == seq![digit_char(d as nat)],
{
    if d == 0 {
        proof {
            reveal_strlit("0");
        }
        "0"
    } else if d == 1 {
        proof {
            reveal_strlit("1");
        }
        "1"
    } else if d == 2 {
        proof {
            reveal_strlit("2");
        }
        "2"
    } else if d == 3 {
        proof {
            reveal_strlit("3");
        }
        "3"
    } else if d == 4 {
        proof {
            reveal_strlit("4");
        }
        "4"
    } else if d == 5 {
        proof {
            reveal_strlit("5");
        }
        "5"
    } else if d == 6 {
        proof {
            reveal_strlit("6");
        }
        "6"
    } else if d == 7 {
        proof {
            reveal_strlit("7");
        }
        "7"
    } else if d == 8 {
        proof {
            reveal_strlit("8");
        }
        "8"
    } else {
        proof {
            reveal_strlit("9");
        }
        "9"
    }
}

/// Appends the decimal representation of `n`.
fn push_decimal(out: &mut String, n: usize)
    ensures
        final(out)@ == old(out)@ + decimal(n as nat),
    decreases n,
{
    if n >= 10 {
        push_decimal(out, n / 10);
    }
    let ghost before = out@;
    out.append(digit_str(n % 10));
    assert(out@ =~= before + seq![digit_char((n % 10) as nat)]);
}

impl GraphemeError {
    /// The message that describes the error.
    pub open spec fn message(self) -> Seq<char> {
        if self.len == 0 {
            "a grapheme cannot be empty"@
        } else {
            "a grapheme cannot be longer than "@ + decimal(GRAPHEME_CAPACITY as nat) + " bytes, got "@
                + decimal(self.len as nat)
        }
    }

    /// Describes the error in words.
    pub fn to_string(&self) -> (res: String)
        ensures
            res@ == self.message(),
    {
        if self.len == 0 {
            String::from_str("a grapheme cannot be empty")
        } else {
            let mut out = String::from_str("a grapheme cannot be longer than ");
            push_decimal(&mut out, GRAPHEME_CAPACITY);
            out.append(" bytes, got ");
            push_decimal(&mut out, self.len);
            out
        }
    }
}
} // verus!
