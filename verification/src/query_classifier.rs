//! Classification of search queries by their surface form.
use vstd::prelude::*;
use crate::text::{
    is_alnum, char_is_alphanumeric, Sep, split_by, words, vv, split_pieces, split_words,
    trim, trimmed, contains_char, utf8_len, byte_len, is_ws, is_sep, split_scan, lemma_one_piece,
    lemma_pieces_cover,
};

verus! {

/// The shape of a query, which decides how ranking signals are weighted.
#[derive(Debug, Clone, Copy, PartialEq, Eq, Structural)]
pub enum QueryType {
    Identifier,
    NaturalLanguage,
    PathLike,
}

pub open spec fn ascii_upper(c: char) -> bool {
    'A' <= c && c <= 'Z'
}

pub open spec fn ascii_lower(c: char) -> bool {
    'a' <= c && c <= 'z'
}

pub open spec fn ascii_digit(c: char) -> bool {
    '0' <= c && c <= '9'
}

/// An ASCII lowercase letter directly followed by an ASCII uppercase one.
pub open spec fn spec_has_camel_case(s: Seq<char>) -> bool {
    exists|i: int| 1 <= i < s.len() && ascii_upper(#[trigger] s[i]) && ascii_lower(s[i - 1])
}

/// Holds an underscore and some alphanumeric character.
pub open spec fn spec_has_snake_case(s: Seq<char>) -> bool {
    s.contains('_') && exists|i: int| 0 <= i < s.len() && is_alnum(#[trigger] s[i])
}

/// Holds an underscore and nothing but ASCII uppercase letters, digits and underscores.
pub open spec fn spec_is_screaming_snake(s: Seq<char>) -> bool {
    s.contains('_') && forall|i: int|
        0 <= i < s.len() ==> (ascii_upper(#[trigger] s[i]) || ascii_digit(s[i]) || s[i] == '_')
}

/// A piece made only of alphanumerics and underscores, not empty.
pub open spec fn is_ident_piece(p: Seq<char>) -> bool {
    p.len() > 0 && forall|j: int| 0 <= j < p.len() ==> (is_alnum(#[trigger] p[j]) || p[j] == '_')
}

/// At least three dot-separated pieces, each a non-empty run of alphanumerics and underscores.
pub open spec fn spec_has_dotted_path(s: Seq<char>) -> bool {
    let parts = split_by(s, Sep::Dot);
    parts.len() >= 3 && forall|i: int| 0 <= i < parts.len() ==> is_ident_piece(#[trigger] parts[i])
}

/// Holds a dot, and what follows the last dot is 1 to 5 bytes of alphanumerics.
pub open spec fn spec_has_file_extension(s: Seq<char>) -> bool {
    let ext = split_by(s, Sep::Dot).last();
    s.contains('.') && ext.len() > 0 && utf8_len(ext) <= 5 && forall|j: int|
        0 <= j < ext.len() ==> is_alnum(#[trigger] ext[j])
}

/// One of the identifier styles: camelCase, snake_case or SCREAMING_SNAKE.
pub open spec fn looks_like_code(w: Seq<char>) -> bool {
    spec_has_camel_case(w) || spec_has_snake_case(w) || spec_is_screaming_snake(w)
}

/// The class `classify_query` assigns to a query.
pub open spec fn spec_classify(q: Seq<char>) -> QueryType {
    let t = trim(q);
    let ws = words(t);
    if t.len() == 0 {
        QueryType::NaturalLanguage
    } else if t.contains('/') || t.contains('\\') {
        QueryType::PathLike
    } else if spec_has_dotted_path(t) {
        QueryType::PathLike
    } else if ws.len() == 1 && spec_has_file_extension(t) {
        QueryType::PathLike
    } else if ws.len() == 1 {
        QueryType::Identifier
    } else if ws.len() <= 3 && exists|i: int| 0 <= i < ws.len() && looks_like_code(#[trigger] ws[i]) {
        QueryType::Identifier
    } else {
        QueryType::NaturalLanguage
    }
}

pub fn has_camel_case(s: &[char]) -> (r: bool)
    ensures
        r == spec_has_camel_case(s@),
{
    let mut i: usize = 1;
    while i < s.len()
        invariant
            1 <= i,
            i <= s@.len() || s@.len() == 0,
            forall|j: int| 1 <= j < i && j < s@.len() ==> !(ascii_upper(#[trigger] s@[j]) && ascii_lower(s@[j - 1])),
        decreases s@.len() - i,
    {
        if 'A' <= s[i] && s[i] <= 'Z' && 'a' <= s[i - 1] && s[i - 1] <= 'z' {
            proof {
                assert(ascii_upper(s@[i as int]) && ascii_lower(s@[i - 1]));
            }
            return true;
        }
        i = i + 1;
    }
    false
}

pub fn has_snake_case(s: &[char]) -> (r: bool)
    ensures
        r == spec_has_snake_case(s@),
{
    if !contains_char(s, '_') {
        return false;
    }
    let mut i: usize = 0;
    while i < s.len()
        invariant
            i <= s@.len(),
            s@.contains('_'),
            forall|j: int| 0 <= j < i ==> !is_alnum(#[trigger] s@[j]),
        decreases s@.len() - i,
    {
        if char_is_alphanumeric(s[i]) {
            proof {
                assert(is_alnum(s@[i as int]));
            }
            return true;
        }
        i = i + 1;
    }
    false
}

pub fn is_screaming_snake(s: &[char]) -> (r: bool)
    ensures
        r == spec_is_screaming_snake(s@),
{
    if !contains_char(s, '_') {
        return false;
    }
    let mut i: usize = 0;
    while i < s.len()
        invariant
            i <= s@.len(),
            s@.contains('_'),
            forall|j: int| 0 <= j < i ==> (ascii_upper(#[trigger] s@[j]) || ascii_digit(s@[j]) || s@[j] == '_'),
        decreases s@.len() - i,
    {
        let c = s[i];
        if !(('A' <= c && c <= 'Z') || ('0' <= c && c <= '9') || c == '_') {
            proof {
                assert(!(ascii_upper(s@[i as int]) || ascii_digit(s@[i as int]) || s@[i as int] == '_'));
            }
            return false;
        }
        i = i + 1;
    }
    true
}

fn all_ident_chars(p: &[char]) -> (r: bool)
    ensures
        r == (forall|j: int| 0 <= j < p@.len() ==> (is_alnum(#[trigger] p@[j]) || p@[j] == '_')),
{
    let mut i: usize = 0;
    while i < p.len()
        invariant
            i <= p@.len(),
            forall|j: int| 0 <= j < i ==> (is_alnum(#[trigger] p@[j]) || p@[j] == '_'),
        decreases p@.len() - i,
    {
        if !(char_is_alphanumeric(p[i]) || p[i] == '_') {
            proof {
                assert(!(is_alnum(p@[i as int]) || p@[i as int] == '_'));
            }
            return false;
        }
        i = i + 1;
    }
    true
}

fn all_alnum(p: &[char]) -> (r: bool)
    ensures
        r == (forall|j: int| 0 <= j < p@.len() ==> is_alnum(#[trigger] p@[j])),
{
    let mut i: usize = 0;
    while i < p.len()
        invariant
            i <= p@.len(),
            forall|j: int| 0 <= j < i ==> is_alnum(#[trigger] p@[j]),
        decreases p@.len() - i,
    {
        if !char_is_alphanumeric(p[i]) {
            proof {
                assert(!is_alnum(p@[i as int]));
            }
            return false;
        }
        i = i + 1;
    }
    true
}

pub fn has_dotted_path(s: &[char]) -> (r: bool)
    ensures
        r == spec_has_dotted_path(s@),
{
    let parts = split_pieces(s, Sep::Dot);
    let ghost ps = split_by(s@, Sep::Dot);
    if parts.len() < 3 {
        return false;
    }
    let mut i: usize = 0;
    while i < parts.len()
        invariant
            i <= parts@.len(),
            vv(parts@) == ps,
            ps.len() >= 3,
            ps == split_by(s@, Sep::Dot),
            forall|j: int| 0 <= j < i ==> is_ident_piece(#[trigger] ps[j]),
        decreases parts@.len() - i,
    {
        proof {
            assert(ps[i as int] == parts@[i as int]@);
        }
        if parts[i].len() == 0 || !all_ident_chars(parts[i].as_slice()) {
            proof {
                assert(!is_ident_piece(ps[i as int]));
            }
            return false;
        }
        i = i + 1;
    }
    true
}

pub fn has_file_extension(s: &[char]) -> (r: bool)
    ensures
        r == spec_has_file_extension(s@),
{
    if !contains_char(s, '.') {
        return false;
    }
    let parts = split_pieces(s, Sep::Dot);
    proof {
        assert(vv(parts@).len() == parts@.len());
    }
    let ext = &parts[parts.len() - 1];
    proof {
        assert(vv(parts@).last() == ext@);
    }
    ext.len() > 0 && byte_len(ext.as_slice()) <= 5 && all_alnum(ext.as_slice())
}

/// Decides whether a query names an identifier, a path, or is natural language.
pub fn classify_query(query: &str) -> (r: QueryType)
    ensures
        r == spec_classify(query@),
{
    let q = crate::text::to_chars(query);
    let t = trimmed(q.as_slice());
    if t.len() == 0 {
        return QueryType::NaturalLanguage;
    }
    if contains_char(t.as_slice(), '/') || contains_char(t.as_slice(), '\\') {
        return QueryType::PathLike;
    }
    if has_dotted_path(t.as_slice()) {
        return QueryType::PathLike;
    }
    let ws = split_words(t.as_slice());
    if ws.len() == 1 && has_file_extension(t.as_slice()) {
        return QueryType::PathLike;
    }
    if ws.len() == 1 {
        return QueryType::Identifier;
    }
    if ws.len() <= 3 {
        let ghost wsv = words(t@);
        let mut i: usize = 0;
        while i < ws.len()
            invariant
                i <= ws@.len() <= 3,
                vv(ws@) == wsv,
                wsv == words(trim(query@)),
                t@ == trim(query@),
                t@.len() != 0,
                !(t@.contains('/') || t@.contains('\\')),
                !spec_has_dotted_path(t@),
                wsv.len() != 1,
                forall|j: int| 0 <= j < i ==> !looks_like_code(#[trigger] wsv[j]),
            decreases ws@.len() - i,
        {
            let w = ws[i].as_slice();
            proof {
                assert(wsv[i as int] == ws@[i as int]@);
            }
            if has_camel_case(w) || has_snake_case(w) || is_screaming_snake(w) {
                proof {
                    assert(looks_like_code(wsv[i as int]));
                }
                return QueryType::Identifier;
            }
            i = i + 1;
        }
    }
    QueryType::NaturalLanguage
}


/// Text of two words or more holds a whitespace character.
proof fn lemma_words_need_space(t: Seq<char>)
    requires
        words(t).len() >= 2,
    ensures
        exists|i: int| 0 <= i < t.len() && is_ws(#[trigger] t[i]),
{
    if forall|i: int| 0 <= i < t.len() ==> !is_ws(#[trigger] t[i]) {
        assert forall|i: int| 0 <= i < t.len() implies !is_sep(Sep::Space, #[trigger] t[i]) by {}
        lemma_one_piece(t, Sep::Space);
        assert(split_by(t, Sep::Space) =~= seq![t]);
        reveal_with_fuel(Seq::filter, 2);
        assert(seq![t].drop_last() =~= Seq::<Seq<char>>::empty());
        assert(words(t).len() <= 1);
    }
}

/// A dotted path holds no whitespace.
proof fn lemma_dotted_no_space(t: Seq<char>)
    requires
        spec_has_dotted_path(t),
    ensures
        forall|i: int| 0 <= i < t.len() ==> !is_ws(#[trigger] t[i]),
{
    let parts = split_by(t, Sep::Dot);
    let p = |c: char| is_alnum(c) || c == '_';
    assert forall|i: int, j: int| 0 <= i < parts.len() && 0 <= j < parts[i].len() implies p(
        #[trigger] parts[i][j],
    ) by {
        assert(is_ident_piece(parts[i]));
        assert(is_alnum(parts[i][j]) || parts[i][j] == '_');
    }
    lemma_pieces_cover(t, Sep::Dot, p);
    assert forall|i: int| 0 <= i < t.len() implies !is_ws(#[trigger] t[i]) by {
        assert(is_sep(Sep::Dot, t[i]) || p(t[i]));
    }
}

/// What the shape of a query decides at once: an empty query is natural
/// language, one holding a slash or a backslash is a path, and one of four words or more
/// without either is natural language.
pub proof fn classification_by_shape(q: Seq<char>)
    ensures
        trim(q).len() == 0 ==> spec_classify(q) == QueryType::NaturalLanguage,
        trim(q).len() > 0 && (trim(q).contains('/') || trim(q).contains('\\')) ==> spec_classify(q)
            == QueryType::PathLike,
        !trim(q).contains('/') && !trim(q).contains('\\') && words(trim(q)).len() >= 4 ==> spec_classify(q)
            == QueryType::NaturalLanguage,
{
    let t = trim(q);
    if !t.contains('/') && !t.contains('\\') && words(t).len() >= 4 {
        lemma_words_need_space(t);
        if spec_has_dotted_path(t) {
            lemma_dotted_no_space(t);
        }
        assert(!spec_has_dotted_path(t));
        assert(t.len() > 0);
    }
}


/// Text without a `.` is no dotted path.
proof fn lemma_no_dot_no_path(t: Seq<char>)
    requires
        !t.contains('.'),
    ensures
        !spec_has_dotted_path(t),
{
    assert forall|i: int| 0 <= i < t.len() implies !is_sep(Sep::Dot, #[trigger] t[i]) by {
        if t[i] == '.' {
            assert(t.contains('.'));
        }
    }
    lemma_one_piece(t, Sep::Dot);
    assert(split_by(t, Sep::Dot).len() == 1);
}

/// A query of two or three words, holding no slash, backslash or dot, is an
/// identifier when one of its words looks like code: it holds `_` and an
/// alphanumeric character, or an ASCII lowercase letter directly followed by
/// an ASCII uppercase one, or it holds `_` and nothing but ASCII capitals,
/// digits and `_`.
pub proof fn short_code_queries_are_identifiers(q: Seq<char>, k: int)
    requires
        !trim(q).contains('/'),
        !trim(q).contains('\\'),
        !trim(q).contains('.'),
        2 <= words(trim(q)).len() <= 3,
        0 <= k < words(trim(q)).len(),
        ({
            let w = words(trim(q))[k];
            ||| w.contains('_') && exists|i: int| 0 <= i < w.len() && is_alnum(#[trigger] w[i])
            ||| exists|i: int| 1 <= i < w.len() && 'a' <= w[i - 1] <= 'z' && 'A' <= #[trigger] w[i] <= 'Z'
            ||| w.contains('_') && forall|i: int|
                0 <= i < w.len() ==> ('A' <= #[trigger] w[i] <= 'Z' || '0' <= w[i] <= '9' || w[i] == '_')
        }),
    ensures
        spec_classify(q) == QueryType::Identifier,
{
    let t = trim(q);
    let ws = words(t);
    lemma_words_need_space(t);
    lemma_no_dot_no_path(t);
    let w = ws[k];
    if exists|i: int| 1 <= i < w.len() && 'a' <= w[i - 1] <= 'z' && 'A' <= #[trigger] w[i] <= 'Z' {
        let i = choose|i: int| 1 <= i < w.len() && 'a' <= w[i - 1] <= 'z' && 'A' <= #[trigger] w[i] <= 'Z';
        assert(ascii_upper(w[i]) && ascii_lower(w[i - 1]));
        assert(spec_has_camel_case(w));
    }
    assert(looks_like_code(ws[k]));
}

} // verus!
