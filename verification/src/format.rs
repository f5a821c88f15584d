//! The text a search prints: one block per result with its location, kind,
//! scores and the first lines of its content.
use vstd::prelude::*;
use crate::db::StoredChunk;
use crate::text::{vv, lines_of, split_lines, to_chars, push_all, join, join_range};
use crate::util::{truncated, truncate_chars, truncation_fits};
use crate::text::utf8_len;

verus! {

/// The character of a decimal digit.
pub open spec fn digit_char(d: int) -> char {
    if d == 0 {
        '0'
    } else if d == 1 {
        '1'
    } else if d == 2 {
        '2'
    } else if d == 3 {
        '3'
    } else if d == 4 {
        '4'
    } else if d == 5 {
        '5'
    } else if d == 6 {
        '6'
    } else if d == 7 {
        '7'
    } else if d == 8 {
        '8'
    } else {
        '9'
    }
}

/// The decimal digits of a natural number.
pub open spec fn digits(n: nat) -> Seq<char>
    decreases n,
{
    if n < 10 {
        seq![digit_char(n as int)]
    } else {
        digits(n / 10).push(digit_char((n % 10) as int))
    }
}

/// An integer written in decimal, with `-` before a negative one.
pub open spec fn int_text(n: int) -> Seq<char> {
    if n < 0 {
        seq!['-'] + digits((-n) as nat)
    } else {
        digits(n as nat)
    }
}

fn digit_of(d: u128) -> (c: char)
    requires
        d < 10,
    ensures
        c == digit_char(d as int),
{
    if d == 0 {
        '0'
    } else if d == 1 {
        '1'
    } else if d == 2 {
        '2'
    } else if d == 3 {
        '3'
    } else if d == 4 {
        '4'
    } else if d == 5 {
        '5'
    } else if d == 6 {
        '6'
    } else if d == 7 {
        '7'
    } else if d == 8 {
        '8'
    } else {
        '9'
    }
}

fn digits_exec(n: u128) -> (r: Vec<char>)
    ensures
        r@ == digits(n as nat),
    decreases n,
{
    if n < 10 {
        vec![digit_of(n)]
    } else {
        let mut v = digits_exec(n / 10);
        v.push(digit_of(n % 10));
        v
    }
}

/// `n` written in decimal.
pub fn int_to_text(n: i128) -> (r: Vec<char>)
    requires
        n > i128::MIN,
    ensures
        r@ == int_text(n as int),
{
    if n < 0 {
        let mut v = vec!['-'];
        let d = digits_exec((-n) as u128);
        push_all(&mut v, d.as_slice());
        v
    } else {
        digits_exec(n as u128)
    }
}

/// The six scores of a result as they are printed: each one's value written
/// with two decimals, or `None` when the score is too small to show.
pub struct ShownScores {
    pub bm25: Option<String>,
    pub cosine: Option<String>,
    pub path_match: Option<String>,
    pub symbol_match: Option<String>,
    pub import_graph: Option<String>,
    pub git_recency: Option<String>,
}

/// A search result ready to print: its chunk and its shown scores.
pub struct ResultEntry {
    pub chunk: StoredChunk,
    pub scores: ShownScores,
}

/// `name=value` for a shown score, nothing for one not shown.
pub open spec fn score_pair(name: Seq<char>, v: Option<String>) -> Seq<Seq<char>> {
    match v {
        Some(t) => seq![name + seq!['='] + t@],
        None => seq![],
    }
}

/// The shown scores as `name=value` pairs, in the fixed metric order.
pub open spec fn score_pairs(s: ShownScores) -> Seq<Seq<char>> {
    score_pair("bm25"@, s.bm25) + score_pair("cosine"@, s.cosine) + score_pair("pathMatch"@, s.path_match)
        + score_pair("symbolMatch"@, s.symbol_match) + score_pair("importGraph"@, s.import_graph) + score_pair(
        "gitRecency"@,
        s.git_recency,
    )
}

/// The scores line's text: the pairs separated by spaces.
pub open spec fn scores_text(s: ShownScores) -> Seq<char> {
    join(score_pairs(s), seq![' '])
}

fn push_score_pair(pairs: &mut Vec<Vec<char>>, name: &str, v: &Option<String>)
    ensures
        vv(final(pairs)@) == vv(old(pairs)@) + score_pair(name@, *v),
{
    match v {
        Some(t) => {
            let mut p = to_chars(name);
            p.push('=');
            let tc = to_chars(t.as_str());
            push_all(&mut p, tc.as_slice());
            let ghost pv = p@;
            let ghost before = vv(pairs@);
            pairs.push(p);
            proof {
                assert(pv =~= name@ + seq!['='] + t@);
                assert(vv(pairs@) =~= before + seq![pv]);
            }
        },
        None => {
            proof {
                assert(vv(pairs@) =~= vv(pairs@) + Seq::<Seq<char>>::empty());
            }
        },
    }
}

fn scores_text_exec(s: &ShownScores) -> (r: Vec<char>)
    ensures
        r@ == scores_text(*s),
{
    let mut pairs: Vec<Vec<char>> = Vec::new();
    proof {
        assert(vv(pairs@) =~= Seq::<Seq<char>>::empty());
    }
    push_score_pair(&mut pairs, "bm25", &s.bm25);
    push_score_pair(&mut pairs, "cosine", &s.cosine);
    push_score_pair(&mut pairs, "pathMatch", &s.path_match);
    push_score_pair(&mut pairs, "symbolMatch", &s.symbol_match);
    push_score_pair(&mut pairs, "importGraph", &s.import_graph);
    push_score_pair(&mut pairs, "gitRecency", &s.git_recency);
    let n = pairs.len();
    let sp: Vec<char> = vec![' '];
    proof {
        assert(sp@ =~= seq![' ']);
        assert(vv(pairs@) =~= score_pairs(*s));
        assert(vv(pairs@).subrange(0, n as int) =~= vv(pairs@));
    }
    join_range(&pairs, 0, n, sp.as_slice())
}

/// `L<start>`, or `L<start>-<end>` when the chunk spans lines.
pub open spec fn line_range(s: int, e: int) -> Seq<char> {
    if s == e {
        seq!['L'] + int_text(s)
    } else {
        seq!['L'] + int_text(s) + seq!['-'] + int_text(e)
    }
}

/// The chunk's kind, followed by its name when it has one.
pub open spec fn kind_label(c: StoredChunk) -> Seq<char> {
    match c.name {
        Some(n) => c.kind@ + seq![' '] + n@,
        None => c.kind@,
    }
}

/// At most this many lines of a result's content are shown.
pub const PREVIEW_LINES: usize = 3;

/// A shown content line is cut to this many bytes.
pub const PREVIEW_WIDTH: usize = 120;

/// The lines printed for the result at (0-based) position `idx`: the header,
/// the scores when there are any, up to three content lines cut to 120 bytes,
/// and how many content lines are not shown.
pub open spec fn entry_lines(idx: int, e: ResultEntry) -> Seq<Seq<char>> {
    let c = e.chunk;
    let header = int_text(idx + 1) + ". "@ + c.file_path@ + seq![':'] + line_range(c.start_line as int, c.end_line as int)
        + " ("@ + kind_label(c) + seq![')'];
    let scores = if scores_text(e.scores).len() > 0 {
        seq!["   scores: "@ + scores_text(e.scores)]
    } else {
        seq![]
    };
    let cl = lines_of(c.content@);
    let shown = if cl.len() < 3 {
        cl.len() as int
    } else {
        3
    };
    let preview = cl.take(shown).map_values(|l: Seq<char>| "   "@ + truncated(l, 120));
    let more = if cl.len() > 3 {
        seq!["   ... ("@ + int_text(cl.len() - 3) + " more lines)"@]
    } else {
        seq![]
    };
    seq![header] + scores + preview + more
}

/// The lines printed for the first `k` results, a blank line between results.
pub open spec fn result_lines(es: Seq<ResultEntry>, k: int) -> Seq<Seq<char>>
    decreases k,
{
    if k <= 0 {
        seq![]
    } else {
        let before = result_lines(es, k - 1);
        let gap = if k - 1 > 0 {
            seq![Seq::<char>::empty()]
        } else {
            seq![]
        };
        before + gap + entry_lines(k - 1, es[k - 1])
    }
}

/// The whole text: `No results found.` for no results, otherwise the result
/// lines joined by newlines.
pub open spec fn spec_format_results(es: Seq<ResultEntry>) -> Seq<char> {
    if es.len() == 0 {
        "No results found."@
    } else {
        join(result_lines(es, es.len() as int), seq!['\n'])
    }
}

fn push_str(v: &mut Vec<char>, s: &str)
    ensures
        final(v)@ == old(v)@ + s@,
{
    let c = to_chars(s);
    push_all(v, c.as_slice());
}

fn entry_lines_exec(idx: usize, e: &ResultEntry) -> (r: Vec<Vec<char>>)
    ensures
        vv(r@) == entry_lines(idx as int, *e),
{
    let c = &e.chunk;
    let mut header = int_to_text(idx as i128 + 1);
    push_str(&mut header, ". ");
    push_str(&mut header, c.file_path.as_str());
    header.push(':');
    header.push('L');
    let s = int_to_text(c.start_line as i128);
    push_all(&mut header, s.as_slice());
    if c.start_line != c.end_line {
        header.push('-');
        let t = int_to_text(c.end_line as i128);
        push_all(&mut header, t.as_slice());
    }
    push_str(&mut header, " (");
    push_str(&mut header, c.kind.as_str());
    match &c.name {
        Some(n) => {
            header.push(' ');
            push_str(&mut header, n.as_str());
        },
        None => {},
    }
    header.push(')');
    let ghost hv = header@;
    proof {
        let ls = line_range(c.start_line as int, c.end_line as int);
        assert(hv =~= int_text(idx + 1) + ". "@ + c.file_path@ + seq![':'] + ls + " ("@ + kind_label(*c) + seq![')']);
    }
    let mut out: Vec<Vec<char>> = vec![header];
    let ghost spec = entry_lines(idx as int, *e);
    let ghost scores_spec = if scores_text(e.scores).len() > 0 {
        seq!["   scores: "@ + scores_text(e.scores)]
    } else {
        Seq::<Seq<char>>::empty()
    };
    proof {
        assert(vv(out@) =~= seq![hv]);
    }
    let st = scores_text_exec(&e.scores);
    if st.len() > 0 {
        let mut sl = to_chars("   scores: ");
        push_all(&mut sl, st.as_slice());
        let ghost slv = sl@;
        out.push(sl);
        proof {
            assert(vv(out@) =~= seq![hv].push(slv));
        }
    }
    proof {
        assert(vv(out@) =~= seq![hv] + scores_spec);
    }
    let content = to_chars(c.content.as_str());
    let cl = split_lines(content.as_slice());
    let n = cl.len();
    let ghost cls = vv(cl@);
    proof {
        assert(cls.len() == n);
    }
    let shown = if n < PREVIEW_LINES {
        n
    } else {
        PREVIEW_LINES
    };
    let ghost pre = vv(out@);
    let mut k: usize = 0;
    while k < shown
        invariant
            k <= shown <= n == cls.len() == cl@.len(),
            cls == vv(cl@),
            vv(out@) == pre + cls.take(k as int).map_values(|l: Seq<char>| "   "@ + truncated(l, 120)),
        decreases shown - k,
    {
        let mut line = to_chars("   ");
        let cut = truncate_chars(cl[k].as_slice(), PREVIEW_WIDTH);
        push_all(&mut line, cut.as_slice());
        let ghost lv = line@;
        let ghost before = vv(out@);
        out.push(line);
        proof {
            assert(cls[k as int] == cl@[k as int]@);
            assert(vv(out@) =~= before.push(lv));
            assert(cls.take(k + 1).map_values(|l: Seq<char>| "   "@ + truncated(l, 120)) =~= cls.take(k as int).map_values(
                |l: Seq<char>| "   "@ + truncated(l, 120),
            ).push(lv));
        }
        k = k + 1;
    }
    if n > PREVIEW_LINES {
        let mut more = to_chars("   ... (");
        let m = int_to_text((n - PREVIEW_LINES) as i128);
        push_all(&mut more, m.as_slice());
        push_str(&mut more, " more lines)");
        let ghost mv = more@;
        let ghost before = vv(out@);
        out.push(more);
        proof {
            assert(vv(out@) =~= before + seq![mv]);
        }
    } else {
        proof {
            assert(vv(out@) =~= vv(out@) + Seq::<Seq<char>>::empty());
        }
    }
    proof {
        let preview = cls.take(shown as int).map_values(|l: Seq<char>| "   "@ + truncated(l, 120));
        let more_spec = if cls.len() > 3 {
            seq!["   ... ("@ + int_text(cls.len() - 3) + " more lines)"@]
        } else {
            Seq::<Seq<char>>::empty()
        };
        assert(vv(out@) =~= seq![hv] + scores_spec + preview + more_spec);
        assert(cls == lines_of(c.content@));
    }
    out
}

/// The text printed for a list of search results.
pub fn format_results(results: &[ResultEntry]) -> (r: String)
    ensures
        r@ == spec_format_results(results@),
{
    if results.len() == 0 {
        return crate::text::from_chars(to_chars("No results found.").as_slice());
    }
    let mut lines: Vec<Vec<char>> = Vec::new();
    let mut i: usize = 0;
    while i < results.len()
        invariant
            i <= results@.len(),
            vv(lines@) == result_lines(results@, i as int),
        decreases results@.len() - i,
    {
        let ghost before = vv(lines@);
        if i > 0 {
            lines.push(Vec::new());
        }
        let ghost with_gap = vv(lines@);
        proof {
            if i > 0 {
                assert(with_gap =~= before + seq![Seq::<char>::empty()]);
            } else {
                assert(with_gap =~= before + seq![]);
            }
        }
        let mut block = entry_lines_exec(i, &results[i]);
        let ghost bv = vv(block@);
        lines.append(&mut block);
        proof {
            assert(vv(lines@) =~= with_gap + bv);
        }
        i = i + 1;
    }
    let nl: Vec<char> = vec!['\n'];
    let n = lines.len();
    proof {
        assert(nl@ =~= seq!['\n']);
        assert(vv(lines@).subrange(0, n as int) =~= vv(lines@));
    }
    let text = join_range(&lines, 0, n, nl.as_slice());
    crate::text::from_chars(text.as_slice())
}

/// Every content line shown for a result is three spaces followed by at most
/// `PREVIEW_WIDTH` bytes of the line.
pub proof fn preview_lines_fit(idx: int, e: ResultEntry, j: int)
    requires
        0 <= j < 3,
        j < lines_of(e.chunk.content@).len(),
    ensures
        ({
            let first = if scores_text(e.scores).len() > 0 { 2int } else { 1int };
            let line = entry_lines(idx, e)[first + j];
            &&& line.take(3) == "   "@
            &&& line.skip(3) == truncated(lines_of(e.chunk.content@)[j], 120)
            &&& utf8_len(line.skip(3)) <= 120
        }),
{
    reveal_strlit("   ");
    let cl = lines_of(e.chunk.content@);
    let t = truncated(cl[j], 120);
    truncation_fits(cl[j], 120);
    let first = if scores_text(e.scores).len() > 0 { 2int } else { 1int };
    let line = entry_lines(idx, e)[first + j];
    assert(line == "   "@ + t);
    assert(("   "@ + t).take(3) =~= "   "@);
    assert(("   "@ + t).skip(3) =~= t);
}

} // verus!
