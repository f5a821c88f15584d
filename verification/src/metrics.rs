//! Query preparation for full-text search.
use vstd::prelude::*;
use crate::text::{
    is_ws, is_alnum, char_is_alphanumeric, to_chars, chars_eq, trim, trimmed, words, split_words, join,
    vv, utf8_len, byte_len, from_chars, lowercase, chars_to_lowercase, contains_sub, contains_sub_exec,
    Sep, split_by, lemma_pieces_chars, lemma_trim_chars, split_on, lemma_split_join,
};
use crate::metrics::tokenize::{spec_tokenize, tokenize};

pub mod tokenize;
pub mod graph;
pub mod history;

verus! {

/// Words dropped from full-text queries.
pub const STOPWORDS: [&'static str; 60] = [
    "a", "an", "and", "are", "as", "at", "be", "but", "by", "for", "from", "had", "has", "have",
    "he", "her", "his", "how", "i", "if", "in", "into", "is", "it", "its", "me", "my", "no", "not",
    "of", "on", "or", "our", "she", "so", "than", "that", "the", "their", "them", "then", "there",
    "these", "they", "this", "to", "up", "us", "was", "we", "what", "when", "where", "which",
    "who", "will", "with", "would", "you", "your",
];

/// `w` is one of `STOPWORDS`.
pub open spec fn is_stopword(w: Seq<char>) -> bool {
    exists|i: int| 0 <= i < 60 && #[trigger] STOPWORDS@[i]@ == w
}

fn stopword(w: &[char]) -> (r: bool)
    ensures
        r == is_stopword(w@),
{
    let mut i: usize = 0;
    while i < 60
        invariant
            i <= 60,
            forall|j: int| 0 <= j < i ==> #[trigger] STOPWORDS@[j]@ != w@,
        decreases 60 - i,
    {
        let sw = to_chars(STOPWORDS[i]);
        if chars_eq(sw.as_slice(), w) {
            proof {
                assert(STOPWORDS@[i as int]@ == w@);
            }
            return true;
        }
        i = i + 1;
    }
    false
}

/// The character kept by query cleaning: alphanumerics, `'_'` and `' '` stay, all else becomes `' '`.
pub open spec fn fts_char(c: char) -> char {
    if is_alnum(c) || c == '_' || c == ' ' {
        c
    } else {
        ' '
    }
}

/// `str::trim_start_matches('-')`.
pub open spec fn strip_dashes(s: Seq<char>) -> Seq<char>
    decreases s.len(),
{
    if s.len() > 0 && s[0] == '-' {
        strip_dashes(s.drop_first())
    } else {
        s
    }
}

/// The terms of a full-text query: cleaned words, without one-byte words and stopwords.
pub open spec fn fts_terms(query: Seq<char>) -> Seq<Seq<char>> {
    words(trim(query.map_values(|c: char| fts_char(c)))).map_values(|w: Seq<char>| strip_dashes(w)).filter(
        |t: Seq<char>| utf8_len(t) > 1 && !is_stopword(t),
    )
}

/// The full-text query built from `query`: its terms joined by `" OR "`.
pub open spec fn spec_sanitize(query: Seq<char>) -> Seq<char> {
    join(fts_terms(query), seq![' ', 'O', 'R', ' '])
}

fn strip_leading_dashes(w: &[char]) -> (r: Vec<char>)
    ensures
        r@ == strip_dashes(w@),
{
    let mut i: usize = 0;
    proof {
        assert(w@.subrange(0, w@.len() as int) =~= w@);
    }
    while i < w.len() && w[i] == '-'
        invariant
            i <= w@.len(),
            strip_dashes(w@) == strip_dashes(w@.subrange(i as int, w@.len() as int)),
        decreases w@.len() - i,
    {
        proof {
            let t = w@.subrange(i as int, w@.len() as int);
            assert(t.drop_first() =~= w@.subrange(i as int + 1, w@.len() as int));
        }
        i = i + 1;
    }
    proof {
        let t = w@.subrange(i as int, w@.len() as int);
        if t.len() > 0 {
            assert(t[0] == w@[i as int]);
        }
    }
    crate::text::slice_vec(w, i, w.len())
}

/// Turns a free-text query into a full-text query of alternatives.
pub fn sanitize_fts_query(query: &str) -> (r: String)
    ensures
        r@ == spec_sanitize(query@),
{
    let q = to_chars(query);
    let mut cleaned: Vec<char> = Vec::new();
    let mut i: usize = 0;
    while i < q.len()
        invariant
            i <= q@.len(),
            cleaned@ == q@.take(i as int).map_values(|c: char| fts_char(c)),
        decreases q@.len() - i,
    {
        let c = q[i];
        let d = if char_is_alphanumeric(c) || c == '_' || c == ' ' {
            c
        } else {
            ' '
        };
        cleaned.push(d);
        proof {
            assert(q@.take(i as int + 1).map_values(|c: char| fts_char(c)) =~= q@.take(i as int).map_values(
                |c: char| fts_char(c),
            ).push(d));
        }
        i = i + 1;
    }
    proof {
        assert(q@.take(i as int) =~= q@);
    }
    let t = trimmed(cleaned.as_slice());
    let ws = split_words(t.as_slice());
    let ghost all = words(t@).map_values(|w: Seq<char>| strip_dashes(w));
    let ghost keep = |t: Seq<char>| utf8_len(t) > 1 && !is_stopword(t);
    let mut terms: Vec<Vec<char>> = Vec::new();
    let mut k: usize = 0;
    while k < ws.len()
        invariant
            k <= ws@.len(),
            vv(ws@) == words(t@),
            all == words(t@).map_values(|w: Seq<char>| strip_dashes(w)),
            keep == (|t: Seq<char>| utf8_len(t) > 1 && !is_stopword(t)),
            vv(terms@) == all.take(k as int).filter(keep),
        decreases ws@.len() - k,
    {
        let w = strip_leading_dashes(ws[k].as_slice());
        proof {
            reveal_with_fuel(Seq::<_>::filter, 1);
            assert(all.take(k as int + 1).drop_last() =~= all.take(k as int));
            assert(all[k as int] == strip_dashes(ws@[k as int]@));
        }
        if byte_len(w.as_slice()) > 1 && !stopword(w.as_slice()) {
            let ghost wv = w@;
            terms.push(w);
            proof {
                assert(vv(terms@) =~= all.take(k as int).filter(keep).push(wv));
            }
        }
        k = k + 1;
    }
    proof {
        assert(all.take(k as int) =~= all);
    }
    let sep: Vec<char> = vec![' ', 'O', 'R', ' '];
    let joined = crate::text::join_range(&terms, 0, terms.len(), sep.as_slice());
    proof {
        assert(vv(terms@).subrange(0, terms@.len() as int) =~= vv(terms@));
        assert(sep@ =~= seq![' ', 'O', 'R', ' ']);
    }
    from_chars(joined.as_slice())
}

/// How many of the query tokens occur among `ts`.
pub open spec fn shared_count(qs: Seq<Seq<char>>, ts: Seq<Seq<char>>) -> nat
    decreases qs.len(),
{
    if qs.len() == 0 {
        0
    } else {
        shared_count(qs.drop_last(), ts) + if ts.contains(qs.last()) {
            1nat
        } else {
            0nat
        }
    }
}

/// The string views of a list of strings.
pub open spec fn strs(v: Seq<String>) -> Seq<Seq<char>> {
    v.map_values(|s: String| s@)
}

fn shared_count_exec(query_tokens: &Vec<String>, tokens: &Vec<String>) -> (r: usize)
    ensures
        r == shared_count(strs(query_tokens@), strs(tokens@)),
        r <= query_tokens@.len(),
{
    let mut tv: Vec<Vec<char>> = Vec::new();
    let mut k: usize = 0;
    while k < tokens.len()
        invariant
            k <= tokens@.len(),
            vv(tv@) == strs(tokens@).take(k as int),
        decreases tokens@.len() - k,
    {
        let c = to_chars(tokens[k].as_str());
        let ghost cv = c@;
        let ghost before = vv(tv@);
        tv.push(c);
        proof {
            assert(vv(tv@) =~= before.push(cv));
            assert(strs(tokens@).take(k + 1) =~= strs(tokens@).take(k as int).push(tokens@[k as int]@));
        }
        k = k + 1;
    }
    proof {
        assert(strs(tokens@).take(k as int) =~= strs(tokens@));
    }
    let ghost qs = strs(query_tokens@);
    let mut count: usize = 0;
    let mut i: usize = 0;
    while i < query_tokens.len()
        invariant
            i <= query_tokens@.len(),
            qs == strs(query_tokens@),
            vv(tv@) == strs(tokens@),
            count == shared_count(qs.take(i as int), strs(tokens@)),
            count <= i,
        decreases query_tokens@.len() - i,
    {
        proof {
            assert(qs.take(i + 1).drop_last() =~= qs.take(i as int));
            assert(qs.take(i + 1).last() == query_tokens@[i as int]@);
        }
        let q = to_chars(query_tokens[i].as_str());
        if crate::text::contains_chars(&tv, q.as_slice()) {
            count = count + 1;
        }
        i = i + 1;
    }
    proof {
        assert(qs.take(i as int) =~= qs);
    }
    count
}

/// How many query tokens are tokens of the file path (the numerator of the
/// path-match score).
pub fn path_match_count(query_tokens: &Vec<String>, file_path: &str) -> (r: usize)
    ensures
        r == shared_count(strs(query_tokens@), spec_tokenize(file_path@)),
        r <= query_tokens@.len(),
{
    let toks = tokenize(file_path);
    shared_count_exec(query_tokens, &toks)
}

/// How a symbol name relates to a query: the number of query tokens among the
/// symbol's tokens, whether the lowercase symbol holds the lowercase query,
/// and whether the lowercase query holds the lowercase symbol of at least three bytes.
pub struct SymbolMatch {
    pub shared: usize,
    pub symbol_holds_query: bool,
    pub query_holds_symbol: bool,
}

/// Compares a symbol name with a query.
pub fn symbol_match(query_tokens: &Vec<String>, query: &str, symbol: &str) -> (r: SymbolMatch)
    ensures
        r.shared == shared_count(strs(query_tokens@), spec_tokenize(symbol@)),
        r.shared <= query_tokens@.len(),
        r.symbol_holds_query == contains_sub(lowercase(symbol@), lowercase(query@)),
        r.query_holds_symbol == (contains_sub(lowercase(query@), lowercase(symbol@)) && utf8_len(lowercase(symbol@))
            >= 3),
{
    let toks = tokenize(symbol);
    let shared = shared_count_exec(query_tokens, &toks);
    let ql = chars_to_lowercase(to_chars(query).as_slice());
    let sl = chars_to_lowercase(to_chars(symbol).as_slice());
    let symbol_holds_query = contains_sub_exec(sl.as_slice(), ql.as_slice());
    let query_holds_symbol = contains_sub_exec(ql.as_slice(), sl.as_slice()) && byte_len(sl.as_slice()) >= 3;
    SymbolMatch { shared, symbol_holds_query, query_holds_symbol }
}

/// No term of a full-text query is a stopword or a single byte.
pub proof fn fts_terms_drop_stopwords(query: Seq<char>)
    ensures
        forall|i: int|
            0 <= i < fts_terms(query).len() ==> utf8_len(#[trigger] fts_terms(query)[i]) > 1 && !is_stopword(
                fts_terms(query)[i],
            ),
{
    let ws = words(trim(query.map_values(|c: char| fts_char(c)))).map_values(|w: Seq<char>| strip_dashes(w));
    assert forall|i: int| 0 <= i < fts_terms(query).len() implies utf8_len(#[trigger] fts_terms(query)[i]) > 1
        && !is_stopword(fts_terms(query)[i]) by {
        ws.lemma_filter_pred(|t: Seq<char>| utf8_len(t) > 1 && !is_stopword(t), i);
    }
}


proof fn lemma_strip_dashes_chars(w: Seq<char>, p: spec_fn(char) -> bool)
    requires
        forall|i: int| 0 <= i < w.len() ==> p(#[trigger] w[i]),
    ensures
        forall|i: int| 0 <= i < strip_dashes(w).len() ==> p(#[trigger] strip_dashes(w)[i]),
    decreases w.len(),
{
    if w.len() > 0 && w[0] == '-' {
        assert forall|i: int| 0 <= i < w.drop_first().len() implies p(#[trigger] w.drop_first()[i]) by {
            assert(w.drop_first()[i] == w[i + 1]);
        }
        lemma_strip_dashes_chars(w.drop_first(), p);
        assert(strip_dashes(w) == strip_dashes(w.drop_first()));
    } else {
        assert forall|i: int| 0 <= i < strip_dashes(w).len() implies p(#[trigger] strip_dashes(w)[i]) by {
            assert(strip_dashes(w)[i] == w[i]);
        }
    }
}

/// Every term of a full-text query is made of alphanumerics and `_` alone.
pub proof fn fts_terms_are_word_chars(query: Seq<char>)
    ensures
        forall|i: int, j: int|
            0 <= i < fts_terms(query).len() && 0 <= j < fts_terms(query)[i].len() ==> is_alnum(
                #[trigger] fts_terms(query)[i][j],
            ) || fts_terms(query)[i][j] == '_',
{
    broadcast use vstd::seq_lib::group_filter_ensures;
    let m = query.map_values(|c: char| fts_char(c));
    let p0 = |c: char| is_alnum(c) || c == '_' || c == ' ';
    let p1 = |c: char| is_alnum(c) || c == '_';
    let word_ok = |w: Seq<char>| forall|j: int| 0 <= j < w.len() ==> p1(#[trigger] w[j]);
    assert forall|i: int| 0 <= i < m.len() implies p0(#[trigger] m[i]) by {
        assert(m[i] == fts_char(query[i]));
    }
    lemma_trim_chars(m, p0);
    let t = trim(m);
    lemma_pieces_chars(t, Sep::Space, p0);
    let pieces = split_by(t, Sep::Space);
    assert forall|k: int| 0 <= k < pieces.len() implies word_ok(#[trigger] pieces[k]) by {
        assert forall|j: int| 0 <= j < pieces[k].len() implies p1(#[trigger] pieces[k][j]) by {
            assert(p0(pieces[k][j]) && !is_ws(pieces[k][j]));
        }
    }
    let ws = words(t);
    assert forall|k: int| 0 <= k < ws.len() implies word_ok(#[trigger] ws[k]) by {
        pieces.lemma_filter_contains_rev(|w: Seq<char>| w.len() > 0, ws[k]);
        assert(ws.contains(ws[k]));
        let x = choose|x: int| 0 <= x < pieces.len() && pieces[x] == ws[k];
        assert(word_ok(pieces[x]));
    }
    let stripped = ws.map_values(|w: Seq<char>| strip_dashes(w));
    assert forall|k: int| 0 <= k < stripped.len() implies word_ok(#[trigger] stripped[k]) by {
        assert(word_ok(ws[k]));
        lemma_strip_dashes_chars(ws[k], p1);
    }
    let terms = fts_terms(query);
    assert forall|i: int, j: int| 0 <= i < terms.len() && 0 <= j < terms[i].len() implies is_alnum(
        #[trigger] terms[i][j],
    ) || terms[i][j] == '_' by {
        stripped.lemma_filter_contains_rev(|t: Seq<char>| utf8_len(t) > 1 && !is_stopword(t), terms[i]);
        assert(terms.contains(terms[i]));
        let x = choose|x: int| 0 <= x < stripped.len() && stripped[x] == terms[i];
        assert(word_ok(stripped[x]));
        assert(p1(stripped[x][j]));
    }
}


/// The full-text query is empty exactly when there are no terms, and
/// splitting it at `" OR "` gives the terms back, in order.
pub proof fn sanitized_query_splits_into_terms(query: Seq<char>)
    ensures
        (spec_sanitize(query).len() == 0) == (fts_terms(query).len() == 0),
        fts_terms(query).len() > 0 ==> split_on(spec_sanitize(query), seq![' ', 'O', 'R', ' ']) == fts_terms(query),
{
    let terms = fts_terms(query);
    let sep = seq![' ', 'O', 'R', ' '];
    if terms.len() > 0 {
        fts_terms_are_word_chars(query);
        assert forall|i: int, j: int| 0 <= i < terms.len() && 0 <= j < terms[i].len() implies #[trigger] terms[i][j]
            != sep[0] by {
            assert(is_alnum(terms[i][j]) || terms[i][j] == '_');
        }
        lemma_split_join(terms, sep);
        if spec_sanitize(query).len() == 0 {
            fts_terms_drop_stopwords(query);
            assert(utf8_len(terms[0]) > 1);
            assert(split_on(seq![], sep) =~= seq![Seq::<char>::empty()]);
            assert(spec_sanitize(query) =~= Seq::<char>::empty());
            assert(terms[0] == Seq::<char>::empty());
        }
    }
}

} // verus!
