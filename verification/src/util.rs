//! Byte-bounded truncation of text at character boundaries.
use vstd::prelude::*;
use crate::text::{char_width, utf8_len, lemma_utf8_len_concat, lemma_utf8_len_single, lemma_utf8_len_dots, width_of, to_chars, byte_len, from_chars, slice_vec};

verus! {

/// How many leading characters of `s` fit, whole, within `b` bytes.
pub open spec fn fit_count(s: Seq<char>, b: int) -> nat
    decreases s.len(),
{
    if s.len() == 0 || char_width(s[0]) > b {
        0
    } else {
        1 + fit_count(s.drop_first(), b - char_width(s[0]))
    }
}

/// The text `truncate_with_ellipsis` gives back.
pub open spec fn truncated(s: Seq<char>, max_bytes: int) -> Seq<char> {
    if utf8_len(s) <= max_bytes {
        s
    } else if max_bytes <= 3 {
        s.take(fit_count(s, max_bytes) as int)
    } else {
        s.take(fit_count(s, max_bytes - 3) as int) + seq!['.', '.', '.']
    }
}

/// The prefix counted by `fit_count` is the longest one whose encoding fits in `b` bytes.
pub proof fn lemma_fit_count(s: Seq<char>, b: int)
    requires
        b >= 0,
    ensures
        fit_count(s, b) <= s.len(),
        utf8_len(s.take(fit_count(s, b) as int)) <= b,
        fit_count(s, b) < s.len() ==> utf8_len(s.take((fit_count(s, b) + 1) as int)) > b,
    decreases s.len(),
{
    let k = fit_count(s, b);
    if s.len() == 0 {
        assert(s.take(0) =~= Seq::<char>::empty());
    } else {
        let c = s[0];
        assert(s.take(1) =~= seq![c]);
        lemma_utf8_len_single(c);
        if char_width(c) > b {
            assert(s.take(0) =~= Seq::<char>::empty());
        } else {
            let t = s.drop_first();
            let b2 = b - char_width(c);
            lemma_fit_count(t, b2);
            let k2 = fit_count(t, b2);
            assert(s.take(k as int) =~= seq![c] + t.take(k2 as int));
            lemma_utf8_len_concat(seq![c], t.take(k2 as int));
            if k < s.len() {
                assert(s.take((k + 1) as int) =~= seq![c] + t.take((k2 + 1) as int));
                lemma_utf8_len_concat(seq![c], t.take((k2 + 1) as int));
            }
        }
    }
}

/// The number of leading characters of `s` that fit within `budget` bytes.
fn fit_prefix(s: &[char], budget: usize) -> (k: usize)
    ensures
        k == fit_count(s@, budget as int),
{
    let n = s.len();
    let mut i: usize = 0;
    let mut rem: usize = budget;
    proof {
        assert(s@.skip(0) =~= s@);
    }
    while i < n && width_of(s[i]) <= rem
        invariant
            i <= n == s@.len(),
            fit_count(s@, budget as int) == i + fit_count(s@.skip(i as int), rem as int),
        decreases n - i,
    {
        let w = width_of(s[i]);
        proof {
            let t = s@.skip(i as int);
            assert(t[0] == s@[i as int]);
            assert(t.drop_first() =~= s@.skip(i as int + 1));
        }
        rem = rem - w;
        i = i + 1;
    }
    proof {
        let t = s@.skip(i as int);
        if i < n {
            assert(t[0] == s@[i as int]);
        } else {
            assert(t.len() == 0);
        }
    }
    i
}

/// `truncated(s, max_bytes)` computed on characters.
pub fn truncate_chars(chars: &[char], max_bytes: usize) -> (r: Vec<char>)
    ensures
        r@ == truncated(chars@, max_bytes as int),
        utf8_len(r@) <= max_bytes,
{
    let n = byte_len(chars);
    if n <= max_bytes as u128 {
        proof {
            assert(chars@.subrange(0, chars@.len() as int) =~= chars@);
        }
        return slice_vec(chars, 0, chars.len());
    }
    if max_bytes <= 3 {
        let k = fit_prefix(chars, max_bytes);
        proof {
            lemma_fit_count(chars@, max_bytes as int);
        }
        let kept = slice_vec(chars, 0, k);
        proof {
            assert(kept@ =~= chars@.take(k as int));
        }
        return kept;
    }
    let k = fit_prefix(chars, max_bytes - 3);
    proof {
        lemma_fit_count(chars@, max_bytes - 3);
    }
    let mut kept = slice_vec(chars, 0, k);
    kept.push('.');
    kept.push('.');
    kept.push('.');
    proof {
        let dots = seq!['.', '.', '.'];
        assert(kept@ =~= chars@.take(k as int) + dots);
        lemma_utf8_len_dots();
        lemma_utf8_len_concat(chars@.take(k as int), dots);
    }
    kept
}

/// Shortens `s` to at most `max_bytes` bytes without splitting a character.
/// Text that already fits comes back unchanged; otherwise, when there is room
/// for more than three bytes, the kept prefix is followed by `"..."`.
pub fn truncate_with_ellipsis(s: &str, max_bytes: usize) -> (r: String)
    ensures
        r@ == truncated(s@, max_bytes as int),
        utf8_len(r@) <= max_bytes,
{
    let chars = to_chars(s);
    let kept = truncate_chars(chars.as_slice(), max_bytes);
    proof {
        assert(chars@.subrange(0, chars@.len() as int) =~= chars@);
    }
    from_chars(kept.as_slice())
}

/// Truncation never exceeds the byte budget, keeps text that fits unchanged,
/// and otherwise keeps a prefix of the text (followed by `"..."` when the
/// budget is over three bytes).
pub proof fn truncation_fits(s: Seq<char>, max_bytes: int)
    requires
        max_bytes >= 0,
    ensures
        utf8_len(truncated(s, max_bytes)) <= max_bytes,
        utf8_len(s) <= max_bytes ==> truncated(s, max_bytes) == s,
        utf8_len(s) > max_bytes && max_bytes <= 3 ==> s.take(truncated(s, max_bytes).len() as int) == truncated(s, max_bytes),
        utf8_len(s) > max_bytes && max_bytes > 3 ==> truncated(s, max_bytes) == s.take(truncated(s, max_bytes).len() - 3)
            + seq!['.', '.', '.'],
{
    if utf8_len(s) > max_bytes {
        if max_bytes <= 3 {
            lemma_fit_count(s, max_bytes);
            assert(s.take(fit_count(s, max_bytes) as int).len() == fit_count(s, max_bytes));
        } else {
            lemma_fit_count(s, max_bytes - 3);
            let k = fit_count(s, max_bytes - 3) as int;
            let dots = seq!['.', '.', '.'];
            lemma_utf8_len_dots();
            lemma_utf8_len_concat(s.take(k), dots);
            assert((s.take(k) + dots).len() - 3 == k);
        }
    }
}

} // verus!
