//! Character-level text model shared by the chunkers and query analysis.
//!
//! Strings are viewed as `Seq<char>`; byte lengths are the UTF-8 encoded
//! lengths given by `utf8_len`.
use vstd::prelude::*;

verus! {

/// Number of bytes in the UTF-8 encoding of `c`.
pub open spec fn char_width(c: char) -> nat {
    if (c as u32) < 0x80 {
        1
    } else if (c as u32) < 0x800 {
        2
    } else if (c as u32) < 0x10000 {
        3
    } else {
        4
    }
}

/// Number of bytes in the UTF-8 encoding of `s` (what `str::len` returns).
pub open spec fn utf8_len(s: Seq<char>) -> nat
    decreases s.len(),
{
    if s.len() == 0 {
        0
    } else {
        utf8_len(s.drop_last()) + char_width(s.last())
    }
}

pub proof fn lemma_utf8_len_concat(a: Seq<char>, b: Seq<char>)
    ensures
        utf8_len(a + b) == utf8_len(a) + utf8_len(b),
    decreases b.len(),
{
    if b.len() == 0 {
        assert(a + b =~= a);
    } else {
        lemma_utf8_len_concat(a, b.drop_last());
        assert((a + b).drop_last() =~= a + b.drop_last());
    }
}

pub proof fn lemma_utf8_len_single(c: char)
    ensures
        utf8_len(seq![c]) == char_width(c),
{
    reveal_with_fuel(utf8_len, 2);
    assert(seq![c].drop_last() =~= Seq::<char>::empty());
}

/// `"..."` takes three bytes.
pub proof fn lemma_utf8_len_dots()
    ensures
        utf8_len(seq!['.', '.', '.']) == 3,
{
    lemma_utf8_len_single('.');
    assert(seq!['.', '.', '.'] =~= seq!['.'] + seq!['.'] + seq!['.']);
    lemma_utf8_len_concat(seq!['.'], seq!['.']);
    lemma_utf8_len_concat(seq!['.'] + seq!['.'], seq!['.']);
}

pub proof fn lemma_utf8_len_bounds(s: Seq<char>)
    ensures
        s.len() <= utf8_len(s) <= 4 * s.len(),
    decreases s.len(),
{
    if s.len() > 0 {
        lemma_utf8_len_bounds(s.drop_last());
    }
}

/// The UTF-8 width of a character, computed.
pub fn width_of(c: char) -> (w: usize)
    ensures
        w == char_width(c),
{
    let u = c as u32;
    if u < 0x80 {
        1
    } else if u < 0x800 {
        2
    } else if u < 0x10000 {
        3
    } else {
        4
    }
}

/// Byte length of a character sequence.
pub fn byte_len(s: &[char]) -> (n: u128)
    ensures
        n == utf8_len(s@),
        n <= 4 * s@.len(),
        s@.len() <= usize::MAX,
{
    let mut acc: u128 = 0;
    let mut i: usize = 0;
    while i < s.len()
        invariant
            i <= s@.len(),
            acc == utf8_len(s@.take(i as int)),
            acc <= 4 * i,
        decreases s@.len() - i,
    {
        let w = width_of(s[i]);
        proof {
            assert(s@.take(i as int + 1).drop_last() =~= s@.take(i as int));
        }
        acc = acc + w as u128;
        i = i + 1;
    }
    proof {
        assert(s@.take(i as int) =~= s@);
    }
    acc
}

/// The characters of a string slice.
pub fn to_chars(s: &str) -> (v: Vec<char>)
    ensures
        v@ == s@,
{
    let mut v: Vec<char> = Vec::new();
    for c in it: s.chars()
        invariant
            v@ == it.seq().take(it.index() as int),
    {
        v.push(c);
    }
    v
}


/// Whether `c` has the Unicode White_Space property (what `char::is_whitespace`
/// answers): tab, line feed, vertical tab, form feed, carriage return, space,
/// next line, no-break space, ogham space mark, the spaces from en quad to hair
/// space, line and paragraph separators, narrow no-break space, medium
/// mathematical space and ideographic space.
pub open spec fn is_ws(c: char) -> bool {
    ||| '\u{9}' <= c && c <= '\u{d}'
    ||| c == ' '
    ||| c == '\u{85}'
    ||| c == '\u{a0}'
    ||| c == '\u{1680}'
    ||| '\u{2000}' <= c && c <= '\u{200a}'
    ||| c == '\u{2028}'
    ||| c == '\u{2029}'
    ||| c == '\u{202f}'
    ||| c == '\u{205f}'
    ||| c == '\u{3000}'
}

/// An ASCII character.
pub open spec fn is_ascii(c: char) -> bool {
    c <= '\u{7f}'
}

/// An ASCII letter or digit.
pub open spec fn ascii_alnum(c: char) -> bool {
    ('a' <= c && c <= 'z') || ('A' <= c && c <= 'Z') || ('0' <= c && c <= '9')
}

/// What `char::is_alphanumeric` answers for a character that is neither
/// ASCII nor whitespace.
pub uninterp spec fn alnum_beyond_space(c: char) -> bool;

/// Whether `c` is alphabetic or numeric in Unicode (the answer of
/// `char::is_alphanumeric`): for ASCII, the letters and digits; never for
/// whitespace; else `alnum_beyond_space(c)`.
pub open spec fn is_alnum(c: char) -> bool {
    if is_ascii(c) {
        ascii_alnum(c)
    } else {
        !is_ws(c) && alnum_beyond_space(c)
    }
}

/// Whether `c` has the Unicode Alphabetic property (the answer of `char::is_alphabetic`).
pub uninterp spec fn is_alpha(c: char) -> bool;

/// An ASCII uppercase letter lowered, any other character as it is.
pub open spec fn to_ascii_lower(c: char) -> char {
    if 'A' <= c && c <= 'Z' {
        ((c as u32) + 32) as char
    } else {
        c
    }
}

/// Every character of `s` is ASCII.
pub open spec fn all_ascii(s: Seq<char>) -> bool {
    forall|i: int| 0 <= i < s.len() ==> is_ascii(#[trigger] s[i])
}

/// What `str::to_lowercase` answers for a text holding a non-ASCII character.
pub uninterp spec fn unicode_lowercase(s: Seq<char>) -> Seq<char>;

/// The Unicode lowercase mapping of a whole string (the answer of
/// `str::to_lowercase`): for ASCII text, each uppercase letter lowered;
/// otherwise `unicode_lowercase(s)`.
pub open spec fn lowercase(s: Seq<char>) -> Seq<char> {
    if all_ascii(s) {
        s.map_values(|c: char| to_ascii_lower(c))
    } else {
        unicode_lowercase(s)
    }
}

/// Whether `c` has the Unicode White_Space property, as `char::is_whitespace` decides it.
pub(crate) fn char_is_whitespace(c: char) -> (r: bool)
    ensures
        r == is_ws(c),
{
    ('\u{9}' <= c && c <= '\u{d}') || c == ' ' || c == '\u{85}' || c == '\u{a0}' || c == '\u{1680}'
        || ('\u{2000}' <= c && c <= '\u{200a}') || c == '\u{2028}' || c == '\u{2029}' || c == '\u{202f}'
        || c == '\u{205f}' || c == '\u{3000}'
}

/// Calls `char::is_alphanumeric`. Among ASCII characters the letters and
/// digits are alphanumeric and no other; no White_Space character is
/// Alphabetic or Numeric in the Unicode Character Database, so the answer is
/// false for whitespace; for any other character it is named `alnum_beyond_space(c)`.
#[verifier::external_body]
pub(crate) fn char_is_alphanumeric(c: char) -> (r: bool)
    ensures
        is_ascii(c) ==> r == ascii_alnum(c),
        is_ws(c) ==> !r,
        !is_ascii(c) && !is_ws(c) ==> r == alnum_beyond_space(c),
        r == is_alnum(c),
{
    c.is_alphanumeric()
}

/// Calls `char::is_alphabetic`; its answer is named `is_alpha(c)`.
#[verifier::external_body]
pub(crate) fn char_is_alphabetic(c: char) -> (r: bool)
    ensures
        r == is_alpha(c),
{
    c.is_alphabetic()
}

/// Calls `str::to_lowercase` on the string made of `s`; the contract says that
/// the result is `lowercase(s)`, a function of the characters alone. Each
/// character is replaced by its lowercase mapping from the Unicode Character
/// Database: in ASCII text, `A` to `Z` become `a` to `z` and every other
/// character stays; a text with a non-ASCII character gives
/// `unicode_lowercase(s)`. No mapping yields whitespace or one of `/ \\ . - _`;
/// those characters have no mapping and stay as they are. So such a character
/// is in the result only where it is in `s`.
#[verifier::external_body]
pub(crate) fn chars_to_lowercase(s: &[char]) -> (r: Vec<char>)
    ensures
        all_ascii(s@) ==> r@ == s@.map_values(|c: char| to_ascii_lower(c)),
        !all_ascii(s@) ==> r@ == unicode_lowercase(s@),
        r@ == lowercase(s@),
        forall|j: int| 0 <= j < r@.len() && #[trigger] is_sep(Sep::TokenDelim, r@[j]) ==> s@.contains(r@[j]),
{
    let t: String = s.iter().collect();
    t.to_lowercase().chars().collect()
}

/// Calls `String::push`: the string grows by exactly the character `c`.
#[verifier::external_body]
pub(crate) fn string_push(s: &mut String, c: char)
    ensures
        final(s)@ == old(s)@.push(c),
{
    s.push(c);
}

/// The string whose characters are `v`.
pub fn from_chars(v: &[char]) -> (s: String)
    ensures
        s@ == v@,
{
    let mut s = String::new();
    let mut i: usize = 0;
    while i < v.len()
        invariant
            i <= v@.len(),
            s@ == v@.take(i as int),
        decreases v@.len() - i,
    {
        string_push(&mut s, v[i]);
        proof {
            assert(v@.take(i as int + 1) =~= v@.take(i as int).push(v@[i as int]));
        }
        i = i + 1;
    }
    proof {
        assert(v@.take(i as int) =~= v@);
    }
    s
}

/// Every character of `s` is whitespace.
pub open spec fn all_ws(s: Seq<char>) -> bool {
    forall|i: int| 0 <= i < s.len() ==> is_ws(#[trigger] s[i])
}

/// `str::trim_start`: leading whitespace removed.
pub open spec fn trim_start(s: Seq<char>) -> Seq<char>
    decreases s.len(),
{
    if s.len() > 0 && is_ws(s[0]) {
        trim_start(s.drop_first())
    } else {
        s
    }
}

/// `str::trim_end`: trailing whitespace removed.
pub open spec fn trim_end(s: Seq<char>) -> Seq<char>
    decreases s.len(),
{
    if s.len() > 0 && is_ws(s.last()) {
        trim_end(s.drop_last())
    } else {
        s
    }
}

/// `str::trim`: leading and trailing whitespace removed.
pub open spec fn trim(s: Seq<char>) -> Seq<char> {
    trim_end(trim_start(s))
}

pub proof fn lemma_trim_empty_iff_all_ws(s: Seq<char>)
    ensures
        (trim(s).len() == 0) == all_ws(s),
        (trim_start(s).len() == 0) == all_ws(s),
    decreases s.len(),
{
    if s.len() > 0 {
        lemma_trim_empty_iff_all_ws(s.drop_first());
        if is_ws(s[0]) {
            assert forall|i: int| 0 <= i < s.drop_first().len() && is_ws(s.drop_first()[i]) implies true by {}
            if all_ws(s.drop_first()) {
                assert forall|i: int| 0 <= i < s.len() implies is_ws(#[trigger] s[i]) by {
                    if i > 0 {
                        assert(s[i] == s.drop_first()[i - 1]);
                    }
                }
            }
            if all_ws(s) {
                assert forall|i: int| 0 <= i < s.drop_first().len() implies is_ws(#[trigger] s.drop_first()[i]) by {
                    assert(s.drop_first()[i] == s[i + 1]);
                }
            }
        } else {
            lemma_trim_end_nonempty(s);
        }
    } else {
    }
}

proof fn lemma_trim_end_nonempty(s: Seq<char>)
    requires
        s.len() > 0,
        !is_ws(s[0]),
    ensures
        trim_end(s).len() > 0,
    decreases s.len(),
{
    if is_ws(s.last()) {
        assert(s.len() > 1);
        assert(s.drop_last()[0] == s[0]);
        lemma_trim_end_nonempty(s.drop_last());
    }
}

/// Whether every character of `s` is whitespace (`s.trim().is_empty()`).
pub fn is_blank(s: &[char]) -> (r: bool)
    ensures
        r == all_ws(s@),
        r == (trim(s@).len() == 0),
{
    proof {
        lemma_trim_empty_iff_all_ws(s@);
    }
    let mut i: usize = 0;
    while i < s.len()
        invariant
            i <= s@.len(),
            forall|j: int| 0 <= j < i ==> is_ws(#[trigger] s@[j]),
            (trim(s@).len() == 0) == all_ws(s@),
        decreases s@.len() - i,
    {
        if !char_is_whitespace(s[i]) {
            proof {
                assert(!is_ws(s@[i as int]));
                assert(!all_ws(s@));
            }
            return false;
        }
        i = i + 1;
    }
    true
}

/// A copy of `s[lo..hi]`.
pub fn slice_vec(s: &[char], lo: usize, hi: usize) -> (r: Vec<char>)
    requires
        lo <= hi <= s@.len(),
    ensures
        r@ == s@.subrange(lo as int, hi as int),
{
    let mut r: Vec<char> = Vec::new();
    let mut i: usize = lo;
    while i < hi
        invariant
            lo <= i <= hi <= s@.len(),
            r@ == s@.subrange(lo as int, i as int),
        decreases hi - i,
    {
        r.push(s[i]);
        proof {
            assert(s@.subrange(lo as int, i as int + 1) =~= s@.subrange(lo as int, i as int).push(s@[i as int]));
        }
        i = i + 1;
    }
    r
}

proof fn lemma_trim_start_skip(s: Seq<char>, i: int)
    requires
        0 <= i <= s.len(),
        forall|j: int| 0 <= j < i ==> is_ws(#[trigger] s[j]),
    ensures
        trim_start(s) == trim_start(s.subrange(i, s.len() as int)),
    decreases i,
{
    if i > 0 {
        assert(s.drop_first() =~= s.subrange(1, s.len() as int));
        lemma_trim_start_skip(s.drop_first(), i - 1);
        assert(s.drop_first().subrange(i - 1, s.drop_first().len() as int) =~= s.subrange(i, s.len() as int));
    } else {
        assert(s.subrange(0, s.len() as int) =~= s);
    }
}

proof fn lemma_trim_end_take(s: Seq<char>, k: int)
    requires
        0 <= k <= s.len(),
        forall|j: int| k <= j < s.len() ==> is_ws(#[trigger] s[j]),
    ensures
        trim_end(s) == trim_end(s.subrange(0, k)),
    decreases s.len() - k,
{
    if k < s.len() {
        assert(s.drop_last() =~= s.subrange(0, s.len() - 1));
        lemma_trim_end_take(s.drop_last(), k);
        assert(s.drop_last().subrange(0, k) =~= s.subrange(0, k));
    } else {
        assert(s.subrange(0, k) =~= s);
    }
}

/// Start and end positions of `trim(s)` within `s`.
pub fn trim_bounds(s: &[char]) -> (r: (usize, usize))
    ensures
        r.0 <= r.1 <= s@.len(),
        s@.subrange(r.0 as int, r.1 as int) == trim(s@),
        s@.subrange(r.0 as int, s@.len() as int) == trim_start(s@),
{
    let n = s.len();
    let mut i: usize = 0;
    while i < n && char_is_whitespace(s[i])
        invariant
            i <= n == s@.len(),
            forall|j: int| 0 <= j < i ==> is_ws(#[trigger] s@[j]),
        decreases n - i,
    {
        i = i + 1;
    }
    proof {
        lemma_trim_start_skip(s@, i as int);
        let t = s@.subrange(i as int, n as int);
        if t.len() > 0 {
            assert(t[0] == s@[i as int]);
        }
        assert(trim_start(t) == t);
    }
    let mut j: usize = n;
    while j > i && char_is_whitespace(s[j - 1])
        invariant
            i <= j <= n == s@.len(),
            forall|k: int| j <= k < n ==> is_ws(#[trigger] s@[k]),
        decreases j,
    {
        j = j - 1;
    }
    proof {
        let t = s@.subrange(i as int, n as int);
        assert forall|k: int| j - i <= k < t.len() implies is_ws(#[trigger] t[k]) by {
            assert(t[k] == s@[k + i]);
        }
        lemma_trim_end_take(t, j - i);
        let u = t.subrange(0, j - i);
        assert(u =~= s@.subrange(i as int, j as int));
        if u.len() > 0 {
            assert(u.last() == s@[j - 1]);
        }
        assert(trim_end(u) == u);
    }
    (i, j)
}

/// `trim(s)` as a new vector.
pub fn trimmed(s: &[char]) -> (r: Vec<char>)
    ensures
        r@ == trim(s@),
{
    let (a, b) = trim_bounds(s);
    slice_vec(s, a, b)
}


/// Separators used when cutting text into pieces.
#[derive(Clone, Copy, PartialEq, Eq, Debug)]
pub enum Sep {
    /// `'.'`
    Dot,
    /// `','`
    Comma,
    /// `'/'`
    Slash,
    /// Unicode whitespace.
    Space,
    /// Whitespace, `'/'`, `'\\'`, `'.'`, `'-'` and `'_'`.
    TokenDelim,
}

/// Whether `c` is a separator of kind `k`.
pub open spec fn is_sep(k: Sep, c: char) -> bool {
    match k {
        Sep::Dot => c == '.',
        Sep::Comma => c == ',',
        Sep::Slash => c == '/',
        Sep::Space => is_ws(c),
        Sep::TokenDelim => is_ws(c) || c == '/' || c == '\\' || c == '.' || c == '-' || c == '_',
    }
}

pub fn sep_matches(k: Sep, c: char) -> (r: bool)
    ensures
        r == is_sep(k, c),
{
    match k {
        Sep::Dot => c == '.',
        Sep::Comma => c == ',',
        Sep::Slash => c == '/',
        Sep::Space => char_is_whitespace(c),
        Sep::TokenDelim => char_is_whitespace(c) || c == '/' || c == '\\' || c == '.' || c == '-'
            || c == '_',
    }
}

/// Pieces finished so far and the piece in progress after reading `s`.
pub open spec fn split_scan(s: Seq<char>, k: Sep) -> (Seq<Seq<char>>, Seq<char>)
    decreases s.len(),
{
    if s.len() == 0 {
        (seq![], seq![])
    } else {
        let (done, cur) = split_scan(s.drop_last(), k);
        if is_sep(k, s.last()) {
            (done.push(cur), seq![])
        } else {
            (done, cur.push(s.last()))
        }
    }
}

/// `str::split` by a separator: every piece between separators, empty ones included.
pub open spec fn split_by(s: Seq<char>, k: Sep) -> Seq<Seq<char>> {
    split_scan(s, k).0.push(split_scan(s, k).1)
}

/// Every character of a piece of `split_by(s, k)` is a character of `s` that
/// is no separator: a property of all characters of `s` holds of the pieces' too.
pub proof fn lemma_pieces_chars(s: Seq<char>, k: Sep, p: spec_fn(char) -> bool)
    requires
        forall|i: int| 0 <= i < s.len() ==> p(#[trigger] s[i]),
    ensures
        forall|i: int, j: int|
            0 <= i < split_by(s, k).len() && 0 <= j < split_by(s, k)[i].len() ==> p(
                #[trigger] split_by(s, k)[i][j],
            ) && !is_sep(k, split_by(s, k)[i][j]),
    decreases s.len(),
{
    if s.len() > 0 {
        let q = s.drop_last();
        lemma_pieces_chars(q, k, p);
        let (done, cur) = split_scan(q, k);
        assert(split_by(q, k) == done.push(cur));
        assert forall|i: int, j: int|
            0 <= i < split_by(s, k).len() && 0 <= j < split_by(s, k)[i].len() implies p(
                #[trigger] split_by(s, k)[i][j],
            ) && !is_sep(k, split_by(s, k)[i][j]) by {
            assert(p(s[s.len() - 1]));
            if i < done.len() {
                assert(split_by(s, k)[i] == split_by(q, k)[i]);
            } else if i == done.len() {
                if !is_sep(k, s.last()) {
                    if j < cur.len() {
                        assert(split_by(s, k)[i][j] == split_by(q, k)[i][j]);
                    }
                } else {
                    assert(split_by(s, k)[i] == split_by(q, k)[i]);
                }
            }
        }
    }
}

/// When every piece of `split_by(s, k)` has a property character by
/// character, every character of `s` has it or is a separator.
pub proof fn lemma_pieces_cover(s: Seq<char>, k: Sep, p: spec_fn(char) -> bool)
    requires
        forall|i: int, j: int|
            0 <= i < split_by(s, k).len() && 0 <= j < split_by(s, k)[i].len() ==> p(#[trigger] split_by(s, k)[i][j]),
    ensures
        forall|i: int| 0 <= i < s.len() ==> is_sep(k, #[trigger] s[i]) || p(s[i]),
    decreases s.len(),
{
    if s.len() > 0 {
        let q = s.drop_last();
        let (done, cur) = split_scan(q, k);
        assert forall|i: int, j: int|
            0 <= i < split_by(q, k).len() && 0 <= j < split_by(q, k)[i].len() implies p(
                #[trigger] split_by(q, k)[i][j],
            ) by {
            if i < done.len() {
                assert(split_by(q, k)[i] == split_by(s, k)[i]);
            } else {
                if is_sep(k, s.last()) {
                    assert(split_by(q, k)[i] == split_by(s, k)[i]);
                } else {
                    assert(split_by(s, k)[i][j] == split_by(q, k)[i][j]);
                }
            }
        }
        lemma_pieces_cover(q, k, p);
        assert forall|i: int| 0 <= i < s.len() implies is_sep(k, #[trigger] s[i]) || p(s[i]) by {
            if i < q.len() {
                assert(s[i] == q[i]);
            } else if !is_sep(k, s.last()) {
                let last = split_by(s, k).len() - 1;
                assert(split_by(s, k)[last] == cur.push(s.last()));
                assert(split_by(s, k)[last][cur.len() as int] == s.last());
            }
        }
    }
}

/// Text without separators is one piece.
pub proof fn lemma_one_piece(s: Seq<char>, k: Sep)
    requires
        forall|i: int| 0 <= i < s.len() ==> !is_sep(k, #[trigger] s[i]),
    ensures
        split_scan(s, k) == (Seq::<Seq<char>>::empty(), s),
    decreases s.len(),
{
    if s.len() > 0 {
        lemma_one_piece(s.drop_last(), k);
        assert(s.drop_last().push(s.last()) =~= s);
    }
}

/// Trimming keeps a property that every character has.
pub proof fn lemma_trim_chars(s: Seq<char>, p: spec_fn(char) -> bool)
    requires
        forall|i: int| 0 <= i < s.len() ==> p(#[trigger] s[i]),
    ensures
        forall|i: int| 0 <= i < trim(s).len() ==> p(#[trigger] trim(s)[i]),
{
    lemma_trim_start_chars(s, p);
    lemma_trim_end_chars(trim_start(s), p);
}

proof fn lemma_trim_start_chars(s: Seq<char>, p: spec_fn(char) -> bool)
    requires
        forall|i: int| 0 <= i < s.len() ==> p(#[trigger] s[i]),
    ensures
        forall|i: int| 0 <= i < trim_start(s).len() ==> p(#[trigger] trim_start(s)[i]),
    decreases s.len(),
{
    if s.len() > 0 && is_ws(s[0]) {
        assert forall|i: int| 0 <= i < s.drop_first().len() implies p(#[trigger] s.drop_first()[i]) by {
            assert(s.drop_first()[i] == s[i + 1]);
        }
        lemma_trim_start_chars(s.drop_first(), p);
        assert(trim_start(s) == trim_start(s.drop_first()));
    } else {
        assert forall|i: int| 0 <= i < trim_start(s).len() implies p(#[trigger] trim_start(s)[i]) by {
            assert(trim_start(s)[i] == s[i]);
        }
    }
}

proof fn lemma_trim_end_chars(s: Seq<char>, p: spec_fn(char) -> bool)
    requires
        forall|i: int| 0 <= i < s.len() ==> p(#[trigger] s[i]),
    ensures
        forall|i: int| 0 <= i < trim_end(s).len() ==> p(#[trigger] trim_end(s)[i]),
    decreases s.len(),
{
    if s.len() > 0 && is_ws(s.last()) {
        assert forall|i: int| 0 <= i < s.drop_last().len() implies p(#[trigger] s.drop_last()[i]) by {
            assert(s.drop_last()[i] == s[i]);
        }
        lemma_trim_end_chars(s.drop_last(), p);
        assert(trim_end(s) == trim_end(s.drop_last()));
    } else {
        assert forall|i: int| 0 <= i < trim_end(s).len() implies p(#[trigger] trim_end(s)[i]) by {
            assert(trim_end(s)[i] == s[i]);
        }
    }
}

/// `str::split_whitespace`: the non-empty runs of non-whitespace characters.
pub open spec fn words(s: Seq<char>) -> Seq<Seq<char>> {
    split_by(s, Sep::Space).filter(|p: Seq<char>| p.len() > 0)
}

pub open spec fn vv(v: Seq<Vec<char>>) -> Seq<Seq<char>> {
    v.map_values(|x: Vec<char>| x@)
}

/// Cuts `s` at every separator of kind `k`.
pub fn split_pieces(s: &[char], k: Sep) -> (r: Vec<Vec<char>>)
    ensures
        vv(r@) == split_by(s@, k),
{
    let mut done: Vec<Vec<char>> = Vec::new();
    let mut cur: Vec<char> = Vec::new();
    let mut i: usize = 0;
    while i < s.len()
        invariant
            i <= s@.len(),
            vv(done@) == split_scan(s@.take(i as int), k).0,
            cur@ == split_scan(s@.take(i as int), k).1,
        decreases s@.len() - i,
    {
        proof {
            assert(s@.take(i as int + 1).drop_last() =~= s@.take(i as int));
        }
        if sep_matches(k, s[i]) {
            let piece = cur;
            done.push(piece);
            cur = Vec::new();
            proof {
                assert(vv(done@) =~= split_scan(s@.take(i as int), k).0.push(piece@));
            }
        } else {
            cur.push(s[i]);
        }
        i = i + 1;
    }
    proof {
        assert(s@.take(i as int) =~= s@);
    }
    let last = cur;
    done.push(last);
    proof {
        assert(vv(done@) =~= split_scan(s@, k).0.push(last@));
    }
    done
}

/// `str::split_whitespace`.
pub fn split_words(s: &[char]) -> (r: Vec<Vec<char>>)
    ensures
        vv(r@) == words(s@),
{
    let pieces = split_pieces(s, Sep::Space);
    let ghost all = split_by(s@, Sep::Space);
    let ghost f = |p: Seq<char>| p.len() > 0;
    let mut r: Vec<Vec<char>> = Vec::new();
    let mut i: usize = 0;
    while i < pieces.len()
        invariant
            i <= pieces@.len(),
            vv(pieces@) == all,
            vv(r@) == all.take(i as int).filter(f),
            f == (|p: Seq<char>| p.len() > 0),
        decreases pieces@.len() - i,
    {
        proof {
            reveal_with_fuel(Seq::<_>::filter, 1);
            assert(all.take(i as int + 1).drop_last() =~= all.take(i as int));
            assert(all[i as int] == pieces@[i as int]@);
        }
        if pieces[i].len() > 0 {
            let p = pieces[i].clone();
            r.push(p);
            proof {
                assert(vv(r@) =~= all.take(i as int).filter(f).push(p@));
            }
        }
        i = i + 1;
    }
    proof {
        assert(all.take(i as int) =~= all);
    }
    r
}

/// Drops one trailing `'\r'`.
pub open spec fn strip_cr(l: Seq<char>) -> Seq<char> {
    if l.len() > 0 && l.last() == '\r' {
        l.drop_last()
    } else {
        l
    }
}

/// Lines finished so far and the line in progress after reading `s`.
pub open spec fn line_scan(s: Seq<char>) -> (Seq<Seq<char>>, Seq<char>)
    decreases s.len(),
{
    if s.len() == 0 {
        (seq![], seq![])
    } else {
        let (done, cur) = line_scan(s.drop_last());
        if s.last() == '\n' {
            (done.push(strip_cr(cur)), seq![])
        } else {
            (done, cur.push(s.last()))
        }
    }
}

/// `str::lines`: the text cut at each `'\n'` (a `'\r'` just before it dropped),
/// with no empty line after a final line ending.
pub open spec fn lines_of(s: Seq<char>) -> Seq<Seq<char>> {
    let (done, cur) = line_scan(s);
    if cur.len() == 0 {
        done
    } else {
        done.push(cur)
    }
}

/// `str::lines`.
pub fn split_lines(s: &[char]) -> (r: Vec<Vec<char>>)
    ensures
        vv(r@) == lines_of(s@),
{
    let mut done: Vec<Vec<char>> = Vec::new();
    let mut cur: Vec<char> = Vec::new();
    let mut i: usize = 0;
    while i < s.len()
        invariant
            i <= s@.len(),
            vv(done@) == line_scan(s@.take(i as int)).0,
            cur@ == line_scan(s@.take(i as int)).1,
        decreases s@.len() - i,
    {
        proof {
            assert(s@.take(i as int + 1).drop_last() =~= s@.take(i as int));
        }
        if s[i] == '\n' {
            let mut piece = cur;
            let n = piece.len();
            if n > 0 && piece[n - 1] == '\r' {
                piece.pop();
            }
            proof {
                assert(piece@ =~= strip_cr(line_scan(s@.take(i as int)).1));
            }
            done.push(piece);
            cur = Vec::new();
            proof {
                assert(vv(done@) =~= line_scan(s@.take(i as int)).0.push(piece@));
            }
        } else {
            cur.push(s[i]);
        }
        i = i + 1;
    }
    proof {
        assert(s@.take(i as int) =~= s@);
    }
    if cur.len() > 0 {
        let last = cur;
        done.push(last);
        proof {
            assert(vv(done@) =~= line_scan(s@).0.push(last@));
        }
    }
    done
}

/// Parts joined with `sep` between neighbours (`[..].join(sep)`).
pub open spec fn join(parts: Seq<Seq<char>>, sep: Seq<char>) -> Seq<char>
    decreases parts.len(),
{
    if parts.len() == 0 {
        seq![]
    } else if parts.len() == 1 {
        parts[0]
    } else {
        join(parts.drop_last(), sep) + sep + parts.last()
    }
}

/// `parts[lo..hi].join(sep)`.
pub fn join_range(parts: &Vec<Vec<char>>, lo: usize, hi: usize, sep: &[char]) -> (r: Vec<char>)
    requires
        lo <= hi <= parts@.len(),
    ensures
        r@ == join(vv(parts@).subrange(lo as int, hi as int), sep@),
{
    let mut r: Vec<char> = Vec::new();
    let mut i: usize = lo;
    while i < hi
        invariant
            lo <= i <= hi <= parts@.len(),
            r@ == join(vv(parts@).subrange(lo as int, i as int), sep@),
        decreases hi - i,
    {
        let ghost prev = vv(parts@).subrange(lo as int, i as int);
        if i > lo {
            let mut k: usize = 0;
            while k < sep.len()
                invariant
                    k <= sep@.len(),
                    r@ == join(prev, sep@) + sep@.take(k as int),
                decreases sep@.len() - k,
            {
                r.push(sep[k]);
                proof {
                    assert(sep@.take(k as int + 1) =~= sep@.take(k as int).push(sep@[k as int]));
                }
                k = k + 1;
            }
            proof {
                assert(sep@.take(k as int) =~= sep@);
            }
        }
        let p = &parts[i];
        let mut k: usize = 0;
        let ghost base = r@;
        while k < p.len()
            invariant
                k <= p@.len(),
                r@ == base + p@.take(k as int),
            decreases p@.len() - k,
        {
            r.push(p[k]);
            proof {
                assert(p@.take(k as int + 1) =~= p@.take(k as int).push(p@[k as int]));
            }
            k = k + 1;
        }
        proof {
            assert(p@.take(k as int) =~= p@);
            let next = vv(parts@).subrange(lo as int, i as int + 1);
            assert(next.drop_last() =~= prev);
            assert(next.last() == p@);
            if i > lo {
                assert(r@ =~= join(prev, sep@) + sep@ + p@);
            } else {
                assert(r@ =~= p@);
            }
        }
        i = i + 1;
    }
    r
}

/// Two character sequences are equal.
pub fn chars_eq(a: &[char], b: &[char]) -> (r: bool)
    ensures
        r == (a@ == b@),
{
    if a.len() != b.len() {
        return false;
    }
    let mut i: usize = 0;
    while i < a.len()
        invariant
            i <= a@.len() == b@.len(),
            forall|j: int| 0 <= j < i ==> a@[j] == b@[j],
        decreases a@.len() - i,
    {
        if a[i] != b[i] {
            return false;
        }
        i = i + 1;
    }
    proof {
        assert(a@ =~= b@);
    }
    true
}

/// `s` begins with `p`.
pub open spec fn has_prefix(s: Seq<char>, p: Seq<char>) -> bool {
    p.len() <= s.len() && s.subrange(0, p.len() as int) == p
}

/// `s.starts_with(p)`.
pub fn starts_with(s: &[char], p: &[char]) -> (r: bool)
    ensures
        r == has_prefix(s@, p@),
{
    if p.len() > s.len() {
        return false;
    }
    let mut i: usize = 0;
    while i < p.len()
        invariant
            i <= p@.len() <= s@.len(),
            forall|j: int| 0 <= j < i ==> s@[j] == p@[j],
        decreases p@.len() - i,
    {
        if s[i] != p[i] {
            proof {
                assert(s@.subrange(0, p@.len() as int)[i as int] != p@[i as int]);
            }
            return false;
        }
        i = i + 1;
    }
    proof {
        assert(s@.subrange(0, p@.len() as int) =~= p@);
    }
    true
}

/// `s` ends with `p`.
pub open spec fn has_suffix(s: Seq<char>, p: Seq<char>) -> bool {
    p.len() <= s.len() && s.subrange(s.len() - p.len(), s.len() as int) == p
}

/// `s.ends_with(p)`.
pub fn ends_with(s: &[char], p: &[char]) -> (r: bool)
    ensures
        r == has_suffix(s@, p@),
{
    if p.len() > s.len() {
        return false;
    }
    let off = s.len() - p.len();
    let mut i: usize = 0;
    while i < p.len()
        invariant
            i <= p@.len() <= s@.len(),
            off + p@.len() == s@.len(),
            s@.len() <= usize::MAX,
            forall|j: int| 0 <= j < i ==> s@[off + j] == p@[j],
        decreases p@.len() - i,
    {
        if s[off + i] != p[i] {
            proof {
                assert(s@.subrange(off as int, s@.len() as int)[i as int] != p@[i as int]);
            }
            return false;
        }
        i = i + 1;
    }
    proof {
        assert(s@.subrange(off as int, s@.len() as int) =~= p@);
    }
    true
}

/// `s.contains(c)`.
pub fn contains_char(s: &[char], c: char) -> (r: bool)
    ensures
        r == s@.contains(c),
{
    let mut i: usize = 0;
    while i < s.len()
        invariant
            i <= s@.len(),
            forall|j: int| 0 <= j < i ==> s@[j] != c,
        decreases s@.len() - i,
    {
        if s[i] == c {
            proof {
                assert(s@[i as int] == c);
            }
            return true;
        }
        i = i + 1;
    }
    false
}


/// The position of the first `c` in `s`, if any.
pub open spec fn find_first(s: Seq<char>, c: char) -> Option<int> {
    if s.contains(c) {
        Some(choose|k: int| 0 <= k < s.len() && s[k] == c && forall|j: int| 0 <= j < k ==> s[j] != c)
    } else {
        None
    }
}

/// `s.find(c)`, counted in characters.
pub fn first_index_of(s: &[char], c: char) -> (r: Option<usize>)
    ensures
        r matches Some(k) ==> find_first(s@, c) == Some(k as int) && k < s@.len() && s@[k as int] == c
            && forall|j: int| 0 <= j < k ==> s@[j] != c,
        r is None ==> find_first(s@, c) is None && !s@.contains(c),
{
    let mut i: usize = 0;
    while i < s.len()
        invariant
            i <= s@.len(),
            forall|j: int| 0 <= j < i ==> s@[j] != c,
        decreases s@.len() - i,
    {
        if s[i] == c {
            proof {
                assert(s@.contains(c)) by {
                    assert(s@[i as int] == c);
                }
                let k = choose|k: int| 0 <= k < s@.len() && s@[k] == c && forall|j: int| 0 <= j < k ==> s@[j] != c;
                assert(0 <= k < s@.len() && s@[k] == c && forall|j: int| 0 <= j < k ==> s@[j] != c) by {
                    assert(0 <= i < s@.len() && s@[i as int] == c && forall|j: int| 0 <= j < i ==> s@[j] != c);
                }
                if k < i {
                    assert(s@[k] != c);
                } else if k > i {
                    assert(s@[i as int] != c);
                }
            }
            return Some(i);
        }
        i = i + 1;
    }
    None
}

/// Every character of `s` is a key character: alphanumeric, `_`, `.` or `-`.
pub open spec fn all_key_chars(s: Seq<char>) -> bool {
    forall|j: int| 0 <= j < s.len() ==> (is_alnum(#[trigger] s[j]) || s[j] == '_' || s[j] == '.' || s[j] == '-')
}

pub fn key_chars_only(s: &[char]) -> (r: bool)
    ensures
        r == all_key_chars(s@),
{
    let mut i: usize = 0;
    while i < s.len()
        invariant
            i <= s@.len(),
            forall|j: int| 0 <= j < i ==> (is_alnum(#[trigger] s@[j]) || s@[j] == '_' || s@[j] == '.' || s@[j] == '-'),
        decreases s@.len() - i,
    {
        let c = s[i];
        if !(char_is_alphanumeric(c) || c == '_' || c == '.' || c == '-') {
            proof {
                assert(!(is_alnum(s@[i as int]) || s@[i as int] == '_' || s@[i as int] == '.' || s@[i as int] == '-'));
            }
            return false;
        }
        i = i + 1;
    }
    true
}

/// Lines `a..=b` of `lines` joined by newlines.
pub open spec fn section(lines: Seq<Seq<char>>, a: int, b: int) -> Seq<char> {
    join(lines.subrange(a, b + 1), seq!['\n'])
}

/// Lines `a..=b` joined by newlines.
pub fn section_text(lines: &Vec<Vec<char>>, a: usize, b: usize) -> (r: Vec<char>)
    requires
        a <= b < lines@.len(),
    ensures
        r@ == section(vv(lines@), a as int, b as int),
{
    let nl: Vec<char> = vec!['\n'];
    let _n = lines.len();
    proof {
        assert(nl@ =~= seq!['\n']);
    }
    join_range(lines, a, b + 1, nl.as_slice())
}


/// `str::trim_start_matches(c)`: every leading `c` removed.
pub open spec fn strip_leading(s: Seq<char>, c: char) -> Seq<char>
    decreases s.len(),
{
    if s.len() > 0 && s[0] == c {
        strip_leading(s.drop_first(), c)
    } else {
        s
    }
}

/// `str::trim_end_matches(c)`: every trailing `c` removed.
pub open spec fn strip_trailing(s: Seq<char>, c: char) -> Seq<char>
    decreases s.len(),
{
    if s.len() > 0 && s.last() == c {
        strip_trailing(s.drop_last(), c)
    } else {
        s
    }
}

/// `s.trim_start_matches(c)`.
pub fn strip_leading_char(s: &[char], c: char) -> (r: Vec<char>)
    ensures
        r@ == strip_leading(s@, c),
{
    let mut i: usize = 0;
    proof {
        assert(s@.subrange(0, s@.len() as int) =~= s@);
    }
    while i < s.len() && s[i] == c
        invariant
            i <= s@.len(),
            strip_leading(s@, c) == strip_leading(s@.subrange(i as int, s@.len() as int), c),
        decreases s@.len() - i,
    {
        proof {
            let t = s@.subrange(i as int, s@.len() as int);
            assert(t.drop_first() =~= s@.subrange(i as int + 1, s@.len() as int));
        }
        i = i + 1;
    }
    proof {
        let t = s@.subrange(i as int, s@.len() as int);
        if t.len() > 0 {
            assert(t[0] == s@[i as int]);
        }
    }
    slice_vec(s, i, s.len())
}

/// `s.trim_end_matches(c)`.
pub fn strip_trailing_char(s: &[char], c: char) -> (r: Vec<char>)
    ensures
        r@ == strip_trailing(s@, c),
{
    let mut j: usize = s.len();
    proof {
        assert(s@.subrange(0, s@.len() as int) =~= s@);
    }
    while j > 0 && s[j - 1] == c
        invariant
            j <= s@.len(),
            strip_trailing(s@, c) == strip_trailing(s@.subrange(0, j as int), c),
        decreases j,
    {
        proof {
            let t = s@.subrange(0, j as int);
            assert(t.drop_last() =~= s@.subrange(0, j - 1));
        }
        j = j - 1;
    }
    proof {
        let t = s@.subrange(0, j as int);
        if t.len() > 0 {
            assert(t.last() == s@[j - 1]);
        }
    }
    slice_vec(s, 0, j)
}


/// Appends the characters of `s` to `v`.
pub fn push_all(v: &mut Vec<char>, s: &[char])
    ensures
        final(v)@ == old(v)@ + s@,
{
    let mut i: usize = 0;
    while i < s.len()
        invariant
            i <= s@.len(),
            v@ == old(v)@ + s@.take(i as int),
        decreases s@.len() - i,
    {
        v.push(s[i]);
        proof {
            assert(s@.take(i as int + 1) =~= s@.take(i as int).push(s@[i as int]));
        }
        i = i + 1;
    }
    proof {
        assert(s@.take(i as int) =~= s@);
    }
}

/// Whether `x` is one of the entries of `v`.
pub fn contains_chars(v: &Vec<Vec<char>>, x: &[char]) -> (r: bool)
    ensures
        r == vv(v@).contains(x@),
{
    let mut i: usize = 0;
    while i < v.len()
        invariant
            i <= v@.len(),
            forall|j: int| 0 <= j < i ==> #[trigger] vv(v@)[j] != x@,
        decreases v@.len() - i,
    {
        if chars_eq(v[i].as_slice(), x) {
            proof {
                assert(vv(v@)[i as int] == x@);
            }
            return true;
        }
        i = i + 1;
    }
    false
}


/// Total number of characters in a sequence of lines.
pub open spec fn total_len(ls: Seq<Seq<char>>) -> nat
    decreases ls.len(),
{
    if ls.len() == 0 {
        0
    } else {
        total_len(ls.drop_last()) + ls.last().len()
    }
}

proof fn lemma_line_scan_total(s: Seq<char>)
    ensures
        total_len(line_scan(s).0) + line_scan(s).1.len() <= s.len(),
    decreases s.len(),
{
    if s.len() > 0 {
        lemma_line_scan_total(s.drop_last());
        let (d, c) = line_scan(s.drop_last());
        if s.last() == '\n' {
            assert(d.push(strip_cr(c)).drop_last() =~= d);
        }
    }
}

/// The lines of a text hold no more characters than the text.
pub proof fn lemma_lines_total(s: Seq<char>)
    ensures
        total_len(lines_of(s)) <= s.len(),
{
    lemma_line_scan_total(s);
    let (d, c) = line_scan(s);
    if c.len() > 0 {
        assert(d.push(c).drop_last() =~= d);
    }
}

pub proof fn lemma_total_len_prefix(ls: Seq<Seq<char>>, i: int)
    requires
        0 <= i <= ls.len(),
    ensures
        total_len(ls.take(i)) <= total_len(ls),
    decreases ls.len() - i,
{
    if i < ls.len() {
        lemma_total_len_prefix(ls, i + 1);
        assert(ls.take(i + 1).drop_last() =~= ls.take(i));
    } else {
        assert(ls.take(i) =~= ls);
    }
}

/// Bytes from the start of the text to the start of line `m`: each line before
/// it counted with one byte for its line ending.
pub open spec fn line_offset(lines: Seq<Seq<char>>, m: int) -> int
    decreases m,
{
    if m <= 0 {
        0
    } else {
        line_offset(lines, m - 1) + utf8_len(lines[m - 1]) + 1
    }
}

/// The UTF-8 encoding of a text has `utf8_len` bytes.
pub proof fn lemma_encode_len(s: Seq<char>)
    ensures
        vstd::utf8::encode_utf8(s).len() == utf8_len(s),
    decreases s.len(),
{
    if s.len() > 0 {
        let c = s[0];
        lemma_encode_len(s.drop_first());
        assert(s =~= seq![c] + s.drop_first());
        lemma_utf8_len_concat(seq![c], s.drop_first());
        lemma_utf8_len_single(c);
        vstd::utf8::char_is_scalar(c);
    }
}

pub proof fn lemma_line_offset_mono(lines: Seq<Seq<char>>, a: int, b: int)
    requires
        a <= b,
    ensures
        line_offset(lines, a) <= line_offset(lines, b),
    decreases b - a,
{
    if a < b {
        lemma_line_offset_mono(lines, a, b - 1);
    }
}

proof fn lemma_line_scan_offset(s: Seq<char>)
    ensures
        line_offset(line_scan(s).0, line_scan(s).0.len() as int) + utf8_len(line_scan(s).1) <= utf8_len(s),
    decreases s.len(),
{
    if s.len() > 0 {
        let p = s.drop_last();
        lemma_line_scan_offset(p);
        let (d, c) = line_scan(p);
        assert(s =~= p + seq![s.last()]);
        lemma_utf8_len_concat(p, seq![s.last()]);
        lemma_utf8_len_single(s.last());
        if s.last() == '\n' {
            let d2 = d.push(strip_cr(c));
            assert(d2[d.len() as int] == strip_cr(c));
            assert forall|k: int| 0 <= k <= d.len() implies line_offset(d2, k) == line_offset(d, k) by {
                lemma_line_offset_prefix(d, d2, k);
            }
            if c.len() > 0 && c.last() == '\r' {
                assert(c =~= c.drop_last() + seq!['\r']);
                lemma_utf8_len_concat(c.drop_last(), seq!['\r']);
            }
        } else {
            assert(c.push(s.last()) =~= c + seq![s.last()]);
            lemma_utf8_len_concat(c, seq![s.last()]);
        }
    }
}

proof fn lemma_line_offset_prefix(a: Seq<Seq<char>>, b: Seq<Seq<char>>, k: int)
    requires
        0 <= k <= a.len() <= b.len(),
        forall|j: int| 0 <= j < a.len() ==> a[j] == b[j],
    ensures
        line_offset(a, k) == line_offset(b, k),
    decreases k,
{
    if k > 0 {
        lemma_line_offset_prefix(a, b, k - 1);
    }
}

/// Every line of a text starts within its bytes.
pub proof fn lemma_line_start_in_text(s: Seq<char>, m: int)
    requires
        0 <= m < lines_of(s).len(),
    ensures
        line_offset(lines_of(s), m) <= utf8_len(s),
{
    lemma_line_scan_offset(s);
    let (d, c) = line_scan(s);
    if c.len() == 0 {
        lemma_line_offset_mono(d, m, d.len() as int);
    } else {
        let l = d.push(c);
        assert(m <= d.len());
        lemma_line_offset_prefix(d, l, m);
        lemma_line_offset_mono(d, m, d.len() as int);
    }
}

/// `p` occurs in `s` at position `k`.
pub open spec fn occurs_at(s: Seq<char>, p: Seq<char>, k: int) -> bool {
    0 <= k && k + p.len() <= s.len() && s.subrange(k, k + p.len()) == p
}

/// The first position at or after `k` where `p` occurs in `s`.
pub open spec fn find_sub_from(s: Seq<char>, p: Seq<char>, k: int) -> Option<int>
    decreases s.len() + 1 - k,
{
    if k < 0 || k > s.len() {
        None
    } else if occurs_at(s, p, k) {
        Some(k)
    } else {
        find_sub_from(s, p, k + 1)
    }
}

/// `str::find` with a text pattern: the first position where `p` occurs.
pub open spec fn find_sub(s: Seq<char>, p: Seq<char>) -> Option<int> {
    find_sub_from(s, p, 0)
}

/// `str::contains` with a text pattern.
pub open spec fn contains_sub(s: Seq<char>, p: Seq<char>) -> bool {
    find_sub(s, p) is Some
}

/// `str::split` with a text separator that is not empty: the pieces between
/// occurrences of `sep`, from the first occurrence on.
pub open spec fn split_on(s: Seq<char>, sep: Seq<char>) -> Seq<Seq<char>>
    decreases s.len(),
{
    match find_sub(s, sep) {
        Some(k) => if sep.len() > 0 && 0 <= k && k + sep.len() <= s.len() {
            seq![s.take(k)] + split_on(s.skip(k + sep.len()), sep)
        } else {
            seq![s]
        },
        None => seq![s],
    }
}

proof fn lemma_find_sub_from_none(s: Seq<char>, sep: Seq<char>, k: int)
    requires
        sep.len() > 0,
        0 <= k,
        forall|i: int| 0 <= i < s.len() ==> s[i] != sep[0],
    ensures
        find_sub_from(s, sep, k) is None,
    decreases s.len() + 1 - k,
{
    if k <= s.len() {
        if occurs_at(s, sep, k) {
            assert(s.subrange(k, k + sep.len())[0] == s[k]);
        }
        lemma_find_sub_from_none(s, sep, k + 1);
    }
}

proof fn lemma_find_sub_from_first(s: Seq<char>, sep: Seq<char>, m: int, k: int)
    requires
        sep.len() > 0,
        0 <= k <= m,
        occurs_at(s, sep, m),
        forall|i: int| 0 <= i < m ==> s[i] != sep[0],
    ensures
        find_sub_from(s, sep, k) == Some(m),
    decreases m - k,
{
    if k < m {
        if occurs_at(s, sep, k) {
            assert(s.subrange(k, k + sep.len())[0] == s[k]);
        }
        lemma_find_sub_from_first(s, sep, m, k + 1);
    }
}

/// Joining parts with a separator whose first character no part holds, then
/// splitting at the separator, gives the parts back.
pub proof fn lemma_split_join(parts: Seq<Seq<char>>, sep: Seq<char>)
    requires
        sep.len() > 0,
        parts.len() > 0,
        forall|i: int, j: int| 0 <= i < parts.len() && 0 <= j < parts[i].len() ==> #[trigger] parts[i][j] != sep[0],
    ensures
        split_on(join(parts, sep), sep) == parts,
    decreases parts.len(),
{
    let t0 = parts[0];
    assert forall|i: int| 0 <= i < t0.len() implies t0[i] != sep[0] by {
        assert(parts[0][i] != sep[0]);
    }
    if parts.len() == 1 {
        lemma_find_sub_from_none(t0, sep, 0);
        assert(join(parts, sep) == t0);
        assert(split_on(t0, sep) =~= seq![t0]);
    } else {
        let rest = parts.skip(1);
        assert(parts =~= seq![t0] + rest);
        lemma_join_append(seq![t0], rest, sep);
        assert(join(seq![t0], sep) == t0);
        let s = join(parts, sep);
        assert(s == t0 + sep + join(rest, sep));
        let m = t0.len() as int;
        assert(s.subrange(m, m + sep.len()) =~= sep);
        assert forall|i: int| 0 <= i < m implies s[i] != sep[0] by {
            assert(s[i] == t0[i]);
        }
        lemma_find_sub_from_first(s, sep, m, 0);
        assert(s.take(m) =~= t0);
        assert(s.skip(m + sep.len()) =~= join(rest, sep));
        assert forall|i: int, j: int| 0 <= i < rest.len() && 0 <= j < rest[i].len() implies #[trigger] rest[i][j] != sep[0] by {
            assert(rest[i] == parts[i + 1]);
            assert(parts[i + 1][j] != sep[0]);
        }
        lemma_split_join(rest, sep);
        assert(split_on(s, sep) =~= seq![t0] + rest);
    }
}

proof fn lemma_find_sub_from_bounds(s: Seq<char>, p: Seq<char>, k: int)
    ensures
        find_sub_from(s, p, k) matches Some(j) ==> k <= j && occurs_at(s, p, j),
    decreases s.len() + 1 - k,
{
    if 0 <= k <= s.len() && !occurs_at(s, p, k) {
        lemma_find_sub_from_bounds(s, p, k + 1);
    }
}

/// Where `find_sub` finds `p`, it occurs.
pub proof fn lemma_find_sub_bounds(s: Seq<char>, p: Seq<char>)
    ensures
        find_sub(s, p) matches Some(j) ==> occurs_at(s, p, j),
{
    lemma_find_sub_from_bounds(s, p, 0);
}

/// Whether `p` occurs in `s` at position `k`.
pub fn occurs_at_exec(s: &[char], p: &[char], k: usize) -> (r: bool)
    ensures
        r == occurs_at(s@, p@, k as int),
{
    if p.len() > s.len() || k > s.len() - p.len() {
        return false;
    }
    let n = s.len();
    let mut i: usize = 0;
    while i < p.len()
        invariant
            i <= p@.len(),
            n == s@.len(),
            k + p@.len() <= s@.len(),
            forall|j: int| 0 <= j < i ==> s@[k + j] == p@[j],
        decreases p@.len() - i,
    {
        if s[k + i] != p[i] {
            proof {
                assert(s@.subrange(k as int, k + p@.len())[i as int] != p@[i as int]);
            }
            return false;
        }
        i = i + 1;
    }
    proof {
        assert(s@.subrange(k as int, k + p@.len()) =~= p@);
    }
    true
}

/// `s.find(p)` for a text pattern, as a character position.
pub fn find_sub_exec(s: &[char], p: &[char]) -> (r: Option<usize>)
    ensures
        match r {
            Some(k) => find_sub(s@, p@) == Some(k as int),
            None => find_sub(s@, p@) is None,
        },
{
    let n = s.len();
    let mut k: usize = 0;
    loop
        invariant
            k <= n == s@.len(),
            find_sub(s@, p@) == find_sub_from(s@, p@, k as int),
        decreases n - k,
    {
        if occurs_at_exec(s, p, k) {
            return Some(k);
        }
        if k == n {
            proof {
                assert(find_sub_from(s@, p@, k + 1) is None);
            }
            return None;
        }
        k = k + 1;
    }
}

/// `s.contains(p)` for a text pattern.
pub fn contains_sub_exec(s: &[char], p: &[char]) -> (r: bool)
    ensures
        r == contains_sub(s@, p@),
{
    find_sub_exec(s, p).is_some()
}

/// `str::replace`: every occurrence of the non-empty `pat`, left to right and
/// not overlapping, replaced by `rep`.
pub open spec fn replace_all(s: Seq<char>, pat: Seq<char>, rep: Seq<char>) -> Seq<char>
    decreases s.len(),
{
    if s.len() == 0 {
        seq![]
    } else if pat.len() > 0 && has_prefix(s, pat) {
        rep + replace_all(s.skip(pat.len() as int), pat, rep)
    } else {
        seq![s[0]] + replace_all(s.skip(1), pat, rep)
    }
}

/// `s.replace(pat, rep)` for a non-empty pattern.
pub fn replace_all_exec(s: &[char], pat: &[char], rep: &[char]) -> (r: Vec<char>)
    ensures
        r@ == replace_all(s@, pat@, rep@),
{
    let mut out: Vec<char> = Vec::new();
    let mut i: usize = 0;
    proof {
        assert(s@.skip(0) =~= s@);
    }
    while i < s.len()
        invariant
            i <= s@.len(),
            out@ + replace_all(s@.skip(i as int), pat@, rep@) == replace_all(s@, pat@, rep@),
        decreases s@.len() - i,
    {
        let ghost rest = s@.skip(i as int);
        if pat.len() > 0 && occurs_at_exec(s, pat, i) {
            proof {
                assert(rest.subrange(0, pat@.len() as int) =~= s@.subrange(i as int, i + pat@.len()));
                assert(rest.skip(pat@.len() as int) =~= s@.skip(i + pat@.len()));
            }
            let ghost before = out@;
            push_all(&mut out, rep);
            proof {
                assert(out@ + replace_all(s@.skip(i + pat@.len()), pat@, rep@) =~= before + (rep@ + replace_all(
                    rest.skip(pat@.len() as int),
                    pat@,
                    rep@,
                )));
            }
            i = i + pat.len();
        } else {
            proof {
                if pat@.len() > 0 && has_prefix(rest, pat@) {
                    assert(rest.subrange(0, pat@.len() as int) =~= s@.subrange(i as int, i + pat@.len()));
                }
                assert(rest.skip(1) =~= s@.skip(i + 1));
                assert(rest[0] == s@[i as int]);
            }
            let ghost before = out@;
            out.push(s[i]);
            proof {
                assert(out@ + replace_all(s@.skip(i + 1), pat@, rep@) =~= before + (seq![rest[0]] + replace_all(
                    rest.skip(1),
                    pat@,
                    rep@,
                )));
            }
            i = i + 1;
        }
    }
    proof {
        assert(s@.skip(i as int) =~= seq![]);
        assert(out@ + seq![] =~= out@);
    }
    out
}

/// `str::rfind` for a character: the last position of `c`.
pub open spec fn find_last_opt(s: Seq<char>, c: char) -> Option<int>
    decreases s.len(),
{
    if s.len() == 0 {
        None
    } else if s.last() == c {
        Some(s.len() - 1)
    } else {
        find_last_opt(s.drop_last(), c)
    }
}

/// `s.rfind(c)`, as a character position.
pub fn find_last_exec(s: &[char], c: char) -> (r: Option<usize>)
    ensures
        match r {
            Some(k) => find_last_opt(s@, c) == Some(k as int) && k < s@.len(),
            None => find_last_opt(s@, c) is None,
        },
{
    let mut j: usize = s.len();
    proof {
        assert(s@.take(j as int) =~= s@);
    }
    while j > 0
        invariant
            j <= s@.len(),
            find_last_opt(s@, c) == find_last_opt(s@.take(j as int), c),
        decreases j,
    {
        proof {
            assert(s@.take(j as int).drop_last() =~= s@.take(j - 1));
            assert(s@.take(j as int).last() == s@[j - 1]);
        }
        if s[j - 1] == c {
            return Some(j - 1);
        }
        j = j - 1;
    }
    None
}

/// Joining two non-empty lists of parts is joining each, with `sep` between.
pub proof fn lemma_join_append(a: Seq<Seq<char>>, b: Seq<Seq<char>>, sep: Seq<char>)
    requires
        a.len() > 0,
        b.len() > 0,
    ensures
        join(a + b, sep) == join(a, sep) + sep + join(b, sep),
    decreases b.len(),
{
    if b.len() == 1 {
        assert((a + b).drop_last() =~= a);
        assert((a + b).last() == b[0]);
    } else {
        let bp = b.drop_last();
        lemma_join_append(a, bp, sep);
        assert((a + b).drop_last() =~= a + bp);
        assert((a + b).last() == b.last());
    }
}

/// A non-empty text has at least one line.
pub proof fn lemma_lines_nonempty(s: Seq<char>)
    requires
        s.len() > 0,
    ensures
        lines_of(s).len() > 0,
{
    let (done, cur) = line_scan(s.drop_last());
    if s.last() != '\n' {
        assert(line_scan(s).1 == cur.push(s.last()));
    }
}

/// `split(p).next()` for a non-empty pattern: the text before the first `p`.
pub open spec fn before_sub(s: Seq<char>, p: Seq<char>) -> Seq<char> {
    match find_sub(s, p) {
        Some(k) => s.take(k),
        None => s,
    }
}

/// The last position where `p` occurs in `s`, looking at positions below `k`.
pub open spec fn find_last_sub_below(s: Seq<char>, p: Seq<char>, k: int) -> Option<int>
    decreases k,
{
    if k <= 0 {
        None
    } else if occurs_at(s, p, k - 1) {
        Some(k - 1)
    } else {
        find_last_sub_below(s, p, k - 1)
    }
}

/// `split(p).last()` for a pattern that cannot overlap itself: the text after
/// the last `p`.
pub open spec fn after_last_sub(s: Seq<char>, p: Seq<char>) -> Seq<char> {
    match find_last_sub_below(s, p, s.len() + 1int) {
        Some(k) => s.skip(k + p.len()),
        None => s,
    }
}

/// `str::trim_matches(c)`: every leading and trailing `c` removed.
pub open spec fn strip_both(s: Seq<char>, c: char) -> Seq<char> {
    strip_trailing(strip_leading(s, c), c)
}

/// `str::trim_start_matches(p)` for a text pattern: every leading `p` removed.
pub open spec fn strip_prefixes(s: Seq<char>, p: Seq<char>) -> Seq<char>
    decreases s.len(),
{
    if p.len() > 0 && has_prefix(s, p) {
        strip_prefixes(s.skip(p.len() as int), p)
    } else {
        s
    }
}

/// `s.split(p).next()`, for a non-empty pattern.
pub fn before_sub_exec(s: &[char], p: &[char]) -> (r: Vec<char>)
    ensures
        r@ == before_sub(s@, p@),
{
    match find_sub_exec(s, p) {
        Some(k) => {
            proof {
                lemma_find_sub_bounds(s@, p@);
            }
            let r = slice_vec(s, 0, k);
            proof {
                assert(r@ =~= s@.take(k as int));
            }
            r
        },
        None => slice_vec_all(s),
    }
}

/// A copy of all of `s`.
pub fn slice_vec_all(s: &[char]) -> (r: Vec<char>)
    ensures
        r@ == s@,
{
    let r = slice_vec(s, 0, s.len());
    proof {
        assert(r@ =~= s@);
    }
    r
}

/// `s.split(p).last()`, for a pattern that cannot overlap itself.
pub fn after_last_sub_exec(s: &[char], p: &[char]) -> (r: Vec<char>)
    ensures
        r@ == after_last_sub(s@, p@),
{
    let n = s.len();
    if occurs_at_exec(s, p, n) {
        let r = slice_vec(s, n, n);
        proof {
            assert(r@ =~= s@.skip(n + p@.len()));
        }
        return r;
    }
    let mut k: usize = n;
    while k > 0
        invariant
            k <= n,
            n == s@.len(),
            find_last_sub_below(s@, p@, s@.len() + 1int) == find_last_sub_below(s@, p@, k as int),
        decreases k,
    {
        if occurs_at_exec(s, p, k - 1) {
            let r = slice_vec(s, k - 1 + p.len(), n);
            proof {
                assert(r@ =~= s@.skip(k - 1 + p@.len()));
            }
            return r;
        }
        k = k - 1;
    }
    slice_vec_all(s)
}

/// `s.trim_matches(c)`.
pub fn strip_both_exec(s: &[char], c: char) -> (r: Vec<char>)
    ensures
        r@ == strip_both(s@, c),
{
    let a = strip_leading_char(s, c);
    strip_trailing_char(a.as_slice(), c)
}

/// `s.trim_start_matches(p)` for a text pattern.
pub fn strip_prefixes_exec(s: &[char], p: &[char]) -> (r: Vec<char>)
    ensures
        r@ == strip_prefixes(s@, p@),
{
    let n = s.len();
    let mut i: usize = 0;
    proof {
        assert(s@.skip(0) =~= s@);
    }
    while p.len() > 0 && occurs_at_exec(s, p, i)
        invariant
            i <= n == s@.len(),
            strip_prefixes(s@, p@) == strip_prefixes(s@.skip(i as int), p@),
        decreases n - i,
    {
        proof {
            let t = s@.skip(i as int);
            assert(t.subrange(0, p@.len() as int) =~= s@.subrange(i as int, i + p@.len()));
            assert(t.skip(p@.len() as int) =~= s@.skip(i + p@.len()));
        }
        i = i + p.len();
    }
    proof {
        let t = s@.skip(i as int);
        if p@.len() > 0 && has_prefix(t, p@) {
            assert(t.subrange(0, p@.len() as int) =~= s@.subrange(i as int, i + p@.len()));
        }
    }
    let r = slice_vec(s, i, n);
    proof {
        assert(r@ =~= s@.skip(i as int));
    }
    r
}

} // verus!
