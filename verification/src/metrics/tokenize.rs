//! Splitting identifiers, paths and phrases into lowercase search tokens.
use vstd::prelude::*;
use crate::text::{
    Sep, split_by, split_pieces, vv, lowercase, chars_to_lowercase, utf8_len, byte_len, to_chars,
    from_chars, chars_eq, contains_chars, is_sep, lemma_pieces_chars, is_ascii, all_ascii, to_ascii_lower,
};
use crate::query_classifier::{ascii_upper, ascii_lower};

verus! {

/// `text` with a space put before every ASCII uppercase letter that follows an ASCII lowercase one.
pub open spec fn camel_expand(s: Seq<char>) -> Seq<char>
    decreases s.len(),
{
    if s.len() == 0 {
        seq![]
    } else {
        let p = s.drop_last();
        let c = s.last();
        if ascii_upper(c) && p.len() > 0 && ascii_lower(p.last()) {
            camel_expand(p) + seq![' ', c]
        } else {
            camel_expand(p).push(c)
        }
    }
}

/// Keeps the first occurrence of every element, in order.
pub open spec fn dedup(s: Seq<Seq<char>>) -> Seq<Seq<char>>
    decreases s.len(),
{
    if s.len() == 0 {
        seq![]
    } else {
        let d = dedup(s.drop_last());
        if d.contains(s.last()) {
            d
        } else {
            d.push(s.last())
        }
    }
}

/// The pieces of the camel-expanded text between delimiters, lowercased, of two bytes or more.
pub open spec fn token_candidates(text: Seq<char>) -> Seq<Seq<char>> {
    split_by(camel_expand(text), Sep::TokenDelim).map_values(|p: Seq<char>| lowercase(p)).filter(
        |t: Seq<char>| utf8_len(t) >= 2,
    )
}

/// The tokens of `text`: the candidates without repeats, in order of first appearance.
pub open spec fn spec_tokenize(text: Seq<char>) -> Seq<Seq<char>> {
    dedup(token_candidates(text))
}

/// Puts a space between a lowercase letter and a following uppercase one.
pub fn expand_camel_case(text: &[char]) -> (r: Vec<char>)
    ensures
        r@ == camel_expand(text@),
{
    let mut result: Vec<char> = Vec::new();
    let mut prev_lower = false;
    let mut i: usize = 0;
    while i < text.len()
        invariant
            i <= text@.len(),
            result@ == camel_expand(text@.take(i as int)),
            prev_lower == (i > 0 && ascii_lower(text@[i - 1])),
        decreases text@.len() - i,
    {
        let c = text[i];
        proof {
            let s = text@.take(i as int + 1);
            assert(s.drop_last() =~= text@.take(i as int));
            if i > 0 {
                assert(s.drop_last().last() == text@[i - 1]);
            }
        }
        if 'A' <= c && c <= 'Z' && prev_lower {
            result.push(' ');
        }
        prev_lower = 'a' <= c && c <= 'z';
        result.push(c);
        proof {
            let s = text@.take(i as int + 1);
            if ascii_upper(c) && i > 0 && ascii_lower(text@[i - 1]) {
                assert(result@ =~= camel_expand(s.drop_last()) + seq![' ', c]);
            } else {
                assert(result@ =~= camel_expand(s.drop_last()).push(c));
            }
        }
        i = i + 1;
    }
    proof {
        assert(text@.take(i as int) =~= text@);
    }
    result
}

/// Splits text into lowercase tokens of at least two bytes, each once, on
/// whitespace, `/`, `\`, `.`, `-`, `_` and camelCase boundaries.
pub fn tokenize(text: &str) -> (r: Vec<String>)
    ensures
        r@.map_values(|s: String| s@) == spec_tokenize(text@),
        forall|i: int, j: int|
            0 <= i < r@.len() && 0 <= j < r@[i]@.len() ==> !is_sep(Sep::TokenDelim, #[trigger] r@[i]@[j]),
{
    let chars = to_chars(text);
    let expanded = expand_camel_case(chars.as_slice());
    let parts = split_pieces(expanded.as_slice(), Sep::TokenDelim);
    proof {
        lemma_pieces_chars(expanded@, Sep::TokenDelim, |c: char| true);
    }
    let ghost lowered = split_by(camel_expand(text@), Sep::TokenDelim).map_values(|p: Seq<char>| lowercase(p));
    let ghost keep = |t: Seq<char>| utf8_len(t) >= 2;
    let mut toks: Vec<Vec<char>> = Vec::new();
    let mut i: usize = 0;
    while i < parts.len()
        invariant
            i <= parts@.len(),
            vv(parts@) == split_by(camel_expand(text@), Sep::TokenDelim),
            lowered == split_by(camel_expand(text@), Sep::TokenDelim).map_values(|p: Seq<char>| lowercase(p)),
            keep == (|t: Seq<char>| utf8_len(t) >= 2),
            vv(toks@) == dedup(lowered.take(i as int).filter(keep)),
            forall|x: int, j: int|
                0 <= x < vv(parts@).len() && 0 <= j < vv(parts@)[x].len() ==> !is_sep(
                    Sep::TokenDelim,
                    #[trigger] vv(parts@)[x][j],
                ),
            forall|x: int, j: int|
                0 <= x < toks@.len() && 0 <= j < toks@[x]@.len() ==> !is_sep(Sep::TokenDelim, #[trigger] toks@[x]@[j]),
        decreases parts@.len() - i,
    {
        let lower = chars_to_lowercase(parts[i].as_slice());
        proof {
            assert forall|j: int| 0 <= j < lower@.len() implies !is_sep(Sep::TokenDelim, #[trigger] lower@[j]) by {
                if is_sep(Sep::TokenDelim, lower@[j]) {
                    let y = choose|y: int| 0 <= y < parts@[i as int]@.len() && parts@[i as int]@[y] == lower@[j];
                    assert(vv(parts@)[i as int][y] == parts@[i as int]@[y]);
                }
            }
            reveal_with_fuel(Seq::<_>::filter, 1);
            assert(lowered.take(i as int + 1).drop_last() =~= lowered.take(i as int));
            assert(lowered[i as int] == lowercase(parts@[i as int]@));
        }
        if byte_len(lower.as_slice()) >= 2 {
            let ghost before = lowered.take(i as int).filter(keep);
            assert(lowered.take(i as int + 1).filter(keep) == before.push(lower@));
            assert(before.push(lower@).drop_last() =~= before);
            if !contains_chars(&toks, lower.as_slice()) {
                let ghost lv = lower@;
                toks.push(lower);
                proof {
                    assert(vv(toks@) =~= dedup(before).push(lv));
                }
            }
        }
        i = i + 1;
    }
    proof {
        assert(lowered.take(i as int) =~= lowered);
    }
    let mut out: Vec<String> = Vec::new();
    let mut k: usize = 0;
    while k < toks.len()
        invariant
            k <= toks@.len(),
            out@.map_values(|s: String| s@) == vv(toks@).take(k as int),
            forall|x: int, j: int|
                0 <= x < toks@.len() && 0 <= j < toks@[x]@.len() ==> !is_sep(Sep::TokenDelim, #[trigger] toks@[x]@[j]),
            forall|x: int| 0 <= x < k ==> #[trigger] out@[x]@ == toks@[x]@,
        decreases toks@.len() - k,
    {
        let s = from_chars(toks[k].as_slice());
        let ghost prev = out@;
        let ghost sv = s@;
        out.push(s);
        proof {
            assert(vv(toks@)[k as int] == toks@[k as int]@);
            assert(out@.map_values(|s: String| s@) =~= prev.map_values(|s: String| s@).push(sv));
            assert(out@.map_values(|s: String| s@) =~= vv(toks@).take(k as int + 1));
            assert(out@[k as int]@ == toks@[k as int]@);
        }
        k = k + 1;
    }
    proof {
        assert(vv(toks@).take(k as int) =~= vv(toks@));
        assert forall|x: int, j: int| 0 <= x < out@.len() && 0 <= j < out@[x]@.len() implies !is_sep(
            Sep::TokenDelim,
            #[trigger] out@[x]@[j],
        ) by {
            assert(out@[x]@ == toks@[x]@);
        }
    }
    out
}

proof fn lemma_dedup(s: Seq<Seq<char>>)
    ensures
        forall|i: int, j: int| 0 <= i < j < dedup(s).len() ==> dedup(s)[i] != dedup(s)[j],
        forall|i: int| 0 <= i < dedup(s).len() ==> s.contains(#[trigger] dedup(s)[i]),
    decreases s.len(),
{
    if s.len() > 0 {
        let p = s.drop_last();
        lemma_dedup(p);
        let d = dedup(p);
        assert forall|i: int| 0 <= i < dedup(s).len() implies s.contains(#[trigger] dedup(s)[i]) by {
            if i < d.len() {
                assert(dedup(s)[i] == d[i]);
                assert(p.contains(d[i]));
                let k = choose|k: int| 0 <= k < p.len() && p[k] == d[i];
                assert(s[k] == d[i]);
            } else {
                assert(s[s.len() - 1] == s.last());
            }
        }
        if !d.contains(s.last()) {
            assert forall|i: int, j: int| 0 <= i < j < dedup(s).len() implies dedup(s)[i] != dedup(s)[j] by {
                if j == d.len() {
                    assert(dedup(s)[i] == d[i]);
                }
            }
        }
    }
}

/// Every token of a text occurs once, and every token is at least two bytes long.
pub proof fn tokens_distinct_and_long(text: Seq<char>)
    ensures
        forall|i: int, j: int| 0 <= i < j < spec_tokenize(text).len() ==> spec_tokenize(text)[i] != spec_tokenize(text)[j],
        forall|i: int| 0 <= i < spec_tokenize(text).len() ==> utf8_len(#[trigger] spec_tokenize(text)[i]) >= 2,
{
    let c = token_candidates(text);
    lemma_dedup(c);
    assert forall|i: int| 0 <= i < spec_tokenize(text).len() implies utf8_len(#[trigger] spec_tokenize(text)[i]) >= 2 by {
        let t = spec_tokenize(text)[i];
        assert(c.contains(t));
        let k = choose|k: int| 0 <= k < c.len() && c[k] == t;
        let lowered = split_by(camel_expand(text), Sep::TokenDelim).map_values(|p: Seq<char>| lowercase(p));
        lowered.lemma_filter_pred(|t: Seq<char>| utf8_len(t) >= 2, k);
    }
}


proof fn lemma_camel_expand_ascii(s: Seq<char>)
    requires
        all_ascii(s),
    ensures
        all_ascii(camel_expand(s)),
    decreases s.len(),
{
    if s.len() > 0 {
        let p = s.drop_last();
        assert forall|i: int| 0 <= i < p.len() implies is_ascii(#[trigger] p[i]) by {
            assert(p[i] == s[i]);
        }
        lemma_camel_expand_ascii(p);
        assert(is_ascii(s[s.len() - 1]));
        let e = camel_expand(s);
        assert forall|i: int| 0 <= i < e.len() implies is_ascii(#[trigger] e[i]) by {
            if i < camel_expand(p).len() {
                assert(e[i] == camel_expand(p)[i]);
            }
        }
    }
}

proof fn lemma_lower_ascii_twice(s: Seq<char>)
    requires
        all_ascii(s),
    ensures
        all_ascii(lowercase(s)),
        lowercase(lowercase(s)) == lowercase(s),
{
    let l = lowercase(s);
    assert forall|i: int| 0 <= i < l.len() implies is_ascii(#[trigger] l[i]) && to_ascii_lower(l[i]) == l[i] by {
        let c = s[i];
        assert(is_ascii(c));
        assert(l[i] == to_ascii_lower(c));
        if 'A' <= c && c <= 'Z' {
            let d = ((c as u32) + 32) as char;
            assert(97 <= d as u32 <= 122);
            assert('a' <= d && d <= 'z');
        }
    }
    assert(lowercase(l) =~= l);
}

/// In ASCII text every token is already lowercase: lowering it again gives it back.
pub proof fn ascii_tokens_are_lowercase(text: Seq<char>)
    requires
        all_ascii(text),
    ensures
        forall|i: int|
            0 <= i < spec_tokenize(text).len() ==> lowercase(#[trigger] spec_tokenize(text)[i]) == spec_tokenize(text)[i],
{
    broadcast use vstd::seq_lib::group_filter_ensures;
    let e = camel_expand(text);
    lemma_camel_expand_ascii(text);
    lemma_pieces_chars(e, Sep::TokenDelim, |c: char| is_ascii(c));
    let pieces = split_by(e, Sep::TokenDelim);
    let lowered = pieces.map_values(|p: Seq<char>| lowercase(p));
    let c = token_candidates(text);
    lemma_dedup(c);
    assert forall|i: int| 0 <= i < spec_tokenize(text).len() implies lowercase(#[trigger] spec_tokenize(text)[i])
        == spec_tokenize(text)[i] by {
        let t = spec_tokenize(text)[i];
        assert(c.contains(t));
        lowered.lemma_filter_contains_rev(|t: Seq<char>| utf8_len(t) >= 2, t);
        let k = choose|k: int| 0 <= k < lowered.len() && lowered[k] == t;
        assert(all_ascii(pieces[k])) by {
            assert forall|j: int| 0 <= j < pieces[k].len() implies is_ascii(#[trigger] pieces[k][j]) by {
                assert((|c: char| is_ascii(c))(pieces[k][j]));
            }
        }
        lemma_lower_ascii_twice(pieces[k]);
    }
}

} // verus!
