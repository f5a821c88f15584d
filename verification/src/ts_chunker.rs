//! Splitting Rust source into chunks along its items, from the syntax tree that
//! tree-sitter builds for it.
use vstd::prelude::*;
use vstd::utf8::{encode_utf8, valid_utf8, decode_utf8};
use crate::text::{
    vv, lines_of, split_lines, to_chars, from_chars, utf8_len, all_ws, is_blank, section, section_text, byte_len,
    line_offset, lemma_line_offset_mono, lemma_line_start_in_text, lemma_encode_len,
};
use vstd::slice::slice_subrange;
use crate::scanner::{owned, is_text};
use crate::text_chunker::{
    ChunkKind, TextChunk, ChunkSpec, cv, mk_chunk, opt_view, spec_whole_file_chunk, whole_file_chunk,
};

verus! {

/// A node of a syntax tree as plain values: its kind, first and last row
/// (0-based), the number of nodes in its subtree (itself included), and the
/// source text of its `name` and `type` fields.
pub struct SyntaxNode {
    pub kind: String,
    pub start_row: usize,
    pub end_row: usize,
    pub size: usize,
    pub name: Option<String>,
    pub type_field: Option<String>,
}

/// The mathematical value of a syntax node.
pub struct NodeView {
    pub kind: Seq<char>,
    pub start_row: nat,
    pub end_row: nat,
    pub size: nat,
    pub name: Option<Seq<char>>,
    pub type_field: Option<Seq<char>>,
}

impl View for SyntaxNode {
    type V = NodeView;

    open spec fn view(&self) -> NodeView {
        NodeView {
            kind: self.kind@,
            start_row: self.start_row as nat,
            end_row: self.end_row as nat,
            size: self.size as nat,
            name: opt_view(self.name),
            type_field: opt_view(self.type_field),
        }
    }
}

/// The values of a sequence of nodes.
pub open spec fn nv(v: Seq<SyntaxNode>) -> Seq<NodeView> {
    v.map_values(|n: SyntaxNode| n@)
}

/// The nodes of the tree that tree-sitter's Rust grammar builds for a text, in
/// pre-order; `None` when no tree is built.
pub uninterp spec fn rust_syntax(content: Seq<char>) -> Option<Seq<NodeView>>;

/// Parses `content` with `tree_sitter::Parser` set to `tree_sitter_rust::LANGUAGE`
/// and lists the tree's nodes in pre-order, each as plain values (its
/// descendant index is its position). The contract names the list
/// `rust_syntax(content)` and keeps what tree-sitter documents of
/// `Node::descendant_count`: it counts the node itself.
#[verifier::external_body]
fn parse_rust(content: &str) -> (r: Option<Vec<SyntaxNode>>)
    ensures
        r matches Some(v) ==> rust_syntax(content@) == Some(nv(v@)),
        r is None ==> rust_syntax(content@) is None,
        r matches Some(v) ==> forall|i: int| 0 <= i < v@.len() ==> #[trigger] v@[i].size >= 1,
{
    let mut parser = tree_sitter::Parser::new();
    parser.set_language(&tree_sitter_rust::LANGUAGE.into()).ok()?;
    let tree = parser.parse(content, None)?;
    let mut cur = tree.walk();
    let text = |n: Option<tree_sitter::Node>| Some(n?.utf8_text(content.as_bytes()).ok()?.into());
    Some((0..tree.root_node().descendant_count()).map(|i| {
        cur.goto_descendant(i);
        let n = cur.node();
        SyntaxNode { kind: n.kind().into(), start_row: n.start_position().row, end_row: n.end_position().row,
            size: n.descendant_count(), name: text(n.child_by_field_name("name")), type_field: text(n.child_by_field_name("type")) }
    }).collect())
}

/// The node kinds that become chunks of a Rust file.
pub open spec fn is_rust_target(kind: Seq<char>) -> bool {
    kind == "function_item"@ || kind == "impl_item"@ || kind == "struct_item"@ || kind == "enum_item"@
        || kind == "trait_item"@
}

/// The node kinds that become chunks of a Rust file, as text.
pub fn rust_target_types() -> (r: Vec<&'static str>)
    ensures
        r@.len() == 5,
        forall|k: Seq<char>| is_rust_target(k) <==> exists|i: int| 0 <= i < 5 && #[trigger] r@[i]@ == k,
{
    let r = vec!["function_item", "impl_item", "struct_item", "enum_item", "trait_item"];
    proof {
        assert forall|k: Seq<char>| is_rust_target(k) implies exists|i: int| 0 <= i < 5 && #[trigger] r@[i]@ == k by {
            if k == "function_item"@ {
                assert(r@[0]@ == k);
            } else if k == "impl_item"@ {
                assert(r@[1]@ == k);
            } else if k == "struct_item"@ {
                assert(r@[2]@ == k);
            } else if k == "enum_item"@ {
                assert(r@[3]@ == k);
            } else {
                assert(r@[4]@ == k);
            }
        }
    }
    r
}

/// Whether `kind` is one of `types`.
fn is_one_of(kind: &str, types: &Vec<&'static str>) -> (r: bool)
    ensures
        r == exists|i: int| 0 <= i < types@.len() && #[trigger] types@[i]@ == kind@,
{
    let k = to_chars(kind);
    let mut i: usize = 0;
    while i < types.len()
        invariant
            i <= types@.len(),
            k@ == kind@,
            forall|j: int| 0 <= j < i ==> #[trigger] types@[j]@ != kind@,
        decreases types@.len() - i,
    {
        if is_text(k.as_slice(), types[i]) {
            return true;
        }
        i = i + 1;
    }
    false
}

/// How far the pre-order walk moves past node `i` once it is taken: over its
/// whole subtree.
pub open spec fn subtree_step(n: NodeView) -> int {
    if n.size > 0 {
        n.size as int
    } else {
        1
    }
}

/// The nodes that become chunks, from position `i` of a pre-order list: a
/// target node is taken and its subtree is not entered; any other node is
/// passed and its children are visited.
pub open spec fn matched_from(nodes: Seq<NodeView>, i: int) -> Seq<NodeView>
    decreases (if 0 <= i <= nodes.len() { nodes.len() - i } else { 0 }),
{
    if i < 0 || i >= nodes.len() {
        seq![]
    } else if is_rust_target(nodes[i].kind) {
        seq![nodes[i]] + matched_from(nodes, i + subtree_step(nodes[i]))
    } else {
        matched_from(nodes, i + 1)
    }
}

/// The target nodes of a pre-order list, outermost first.
pub open spec fn matched_nodes(nodes: Seq<NodeView>) -> Seq<NodeView> {
    matched_from(nodes, 0)
}

fn collect_matching_nodes(nodes: &Vec<SyntaxNode>) -> (r: Vec<usize>)
    ensures
        forall|k: int| 0 <= k < r@.len() ==> #[trigger] r@[k] < nodes@.len(),
        r@.map_values(|k: usize| nv(nodes@)[k as int]) == matched_nodes(nv(nodes@)),
{
    let ghost ns = nv(nodes@);
    let targets = rust_target_types();
    let n = nodes.len();
    let mut out: Vec<usize> = Vec::new();
    let mut i: usize = 0;
    while i < n
        invariant_except_break
            i <= n,
            out@.map_values(|k: usize| ns[k as int]) + matched_from(ns, i as int) == matched_nodes(ns),
        invariant
            n == nodes@.len() == ns.len(),
            ns == nv(nodes@),
            forall|k: Seq<char>| is_rust_target(k) <==> exists|j: int| 0 <= j < 5 && #[trigger] targets@[j]@ == k,
            targets@.len() == 5,
            forall|k: int| 0 <= k < out@.len() ==> #[trigger] out@[k] < n,
        ensures
            out@.map_values(|k: usize| ns[k as int]) == matched_nodes(ns),
        decreases n - i,
    {
        let ghost before = out@.map_values(|k: usize| ns[k as int]);
        proof {
            assert(ns[i as int] == nodes@[i as int]@);
        }
        if is_one_of(nodes[i].kind.as_str(), &targets) {
            out.push(i);
            proof {
                assert(out@.map_values(|k: usize| ns[k as int]) =~= before.push(ns[i as int]));
                assert(before.push(ns[i as int]) + matched_from(ns, i + subtree_step(ns[i as int])) =~= before
                    + (seq![ns[i as int]] + matched_from(ns, i + subtree_step(ns[i as int]))));
            }
            let size = nodes[i].size;
            let step = if size > 0 {
                size
            } else {
                1
            };
            if step >= n - i {
                proof {
                    assert(matched_from(ns, i + subtree_step(ns[i as int])) =~= seq![]);
                    assert(out@.map_values(|k: usize| ns[k as int]) + seq![] =~= out@.map_values(|k: usize| ns[k as int]));
                }
                break;
            }
            i = i + step;
        } else {
            i = i + 1;
        }
    }
    out
}

/// A stretch of lines that one item covers, with the item's kind and name.
pub struct ExtractedRegion {
    pub name: Option<String>,
    pub kind: ChunkKind,
    pub start_line: usize,
    pub end_line: usize,
}

/// The mathematical value of a region.
pub struct RegionView {
    pub name: Option<Seq<char>>,
    pub kind: ChunkKind,
    pub start_line: int,
    pub end_line: int,
}

impl View for ExtractedRegion {
    type V = RegionView;

    open spec fn view(&self) -> RegionView {
        RegionView {
            name: opt_view(self.name),
            kind: self.kind,
            start_line: self.start_line as int,
            end_line: self.end_line as int,
        }
    }
}

/// The values of a sequence of regions.
pub open spec fn rv(v: Seq<ExtractedRegion>) -> Seq<RegionView> {
    v.map_values(|r: ExtractedRegion| r@)
}

/// The chunk kind and name of a Rust item node: the `name` field of a function,
/// struct, enum or trait, the `type` field of an impl.
pub open spec fn rust_name(n: NodeView) -> (ChunkKind, Option<Seq<char>>) {
    if n.kind == "function_item"@ {
        (ChunkKind::Function, n.name)
    } else if n.kind == "impl_item"@ {
        (ChunkKind::Impl, n.type_field)
    } else if n.kind == "struct_item"@ {
        (ChunkKind::Struct, n.name)
    } else if n.kind == "enum_item"@ {
        (ChunkKind::Enum, n.name)
    } else if n.kind == "trait_item"@ {
        (ChunkKind::Interface, n.name)
    } else {
        (ChunkKind::File, None)
    }
}

fn copy_opt(o: &Option<String>) -> (r: Option<String>)
    ensures
        opt_view(r) == opt_view(*o),
{
    match o {
        Some(s) => Some(owned(s.as_str())),
        None => None,
    }
}

/// The chunk kind and name of a Rust item node.
fn get_rust_name(node: &SyntaxNode) -> (r: (ChunkKind, Option<String>))
    ensures
        (r.0, opt_view(r.1)) == rust_name(node@),
{
    let k = to_chars(node.kind.as_str());
    let k = k.as_slice();
    if is_text(k, "function_item") {
        (ChunkKind::Function, copy_opt(&node.name))
    } else if is_text(k, "impl_item") {
        (ChunkKind::Impl, copy_opt(&node.type_field))
    } else if is_text(k, "struct_item") {
        (ChunkKind::Struct, copy_opt(&node.name))
    } else if is_text(k, "enum_item") {
        (ChunkKind::Enum, copy_opt(&node.name))
    } else if is_text(k, "trait_item") {
        (ChunkKind::Interface, copy_opt(&node.name))
    } else {
        (ChunkKind::File, None)
    }
}

/// The region a node covers, with 1-based lines.
pub open spec fn region_of(n: NodeView) -> RegionView {
    RegionView {
        name: rust_name(n).1,
        kind: rust_name(n).0,
        start_line: n.start_row + 1int,
        end_line: n.end_row + 1int,
    }
}

/// Region `a` comes before region `b`: it starts earlier, or at the same line
/// and ends later.
pub open spec fn region_before(a: RegionView, b: RegionView) -> bool {
    a.start_line < b.start_line || (a.start_line == b.start_line && a.end_line > b.end_line)
}

/// Inserts `x` into a sorted sequence after every region that does not come
/// after it.
pub open spec fn insert_region(s: Seq<RegionView>, x: RegionView) -> Seq<RegionView>
    decreases s.len(),
{
    if s.len() == 0 || !region_before(x, s.last()) {
        s.push(x)
    } else {
        insert_region(s.drop_last(), x).push(s.last())
    }
}

/// The stable sort of regions by `region_before`.
pub open spec fn sort_regions(s: Seq<RegionView>) -> Seq<RegionView>
    decreases s.len(),
{
    if s.len() == 0 {
        s
    } else {
        insert_region(sort_regions(s.drop_last()), s.last())
    }
}

proof fn lemma_insert_region_at(s: Seq<RegionView>, x: RegionView, j: int)
    requires
        0 <= j <= s.len(),
        forall|k: int| j <= k < s.len() ==> region_before(x, #[trigger] s[k]),
        j == 0 || !region_before(x, s[j - 1]),
    ensures
        insert_region(s, x) == s.take(j).push(x) + s.skip(j),
    decreases s.len(),
{
    if s.len() == 0 {
        assert(s.take(j).push(x) + s.skip(j) =~= s.push(x));
    } else if !region_before(x, s.last()) {
        assert(j == s.len());
        assert(s.take(j).push(x) + s.skip(j) =~= s.push(x));
    } else {
        let p = s.drop_last();
        lemma_insert_region_at(p, x, j);
        assert(p.take(j).push(x) + p.skip(j) + seq![s.last()] =~= s.take(j).push(x) + s.skip(j));
    }
}

fn sort_regions_exec(v: Vec<ExtractedRegion>) -> (r: Vec<ExtractedRegion>)
    ensures
        rv(r@) == sort_regions(rv(v@)),
{
    let ghost input = rv(v@);
    let mut src = v;
    let mut out: Vec<ExtractedRegion> = Vec::new();
    let ghost total = src@.len();
    proof {
        assert(rv(src@) =~= input.skip(0));
        assert(input.take(0) =~= seq![]);
    }
    while src.len() > 0
        invariant
            total == input.len(),
            src@.len() <= total,
            rv(src@) == input.skip(total - src@.len()),
            rv(out@) == sort_regions(input.take(total - src@.len())),
        decreases src@.len(),
    {
        let ghost i = total - src@.len();
        let ghost src_before = rv(src@);
        let x = src.remove(0);
        proof {
            assert(src_before[0] == input[i]);
            assert(rv(src@) =~= src_before.drop_first());
            assert(rv(src@) =~= input.skip(i + 1));
            assert(input.take(i + 1).drop_last() =~= input.take(i));
        }
        let ghost xs = x@;
        let ghost o = rv(out@);
        let mut j = out.len();
        while j > 0 && (x.start_line < out[j - 1].start_line || (x.start_line == out[j - 1].start_line
            && x.end_line > out[j - 1].end_line))
            invariant
                j <= out@.len(),
                o == rv(out@),
                xs == x@,
                forall|k: int| j <= k < o.len() ==> region_before(xs, #[trigger] o[k]),
            decreases j,
        {
            proof {
                assert(o[j - 1] == out@[j - 1]@);
            }
            j = j - 1;
        }
        proof {
            if j > 0 {
                assert(o[j - 1] == out@[j - 1]@);
            }
            lemma_insert_region_at(o, xs, j as int);
        }
        out.insert(j, x);
        proof {
            assert(rv(out@) =~= o.take(j as int).push(xs) + o.skip(j as int));
        }
    }
    proof {
        assert(input.take(total as int) =~= input);
    }
    out
}

/// Keeps, in order, each region that starts after the last kept one ends;
/// also gives the last kept end line (0 before any).
pub open spec fn keep_scan(s: Seq<RegionView>) -> (Seq<RegionView>, int)
    decreases s.len(),
{
    if s.len() == 0 {
        (seq![], 0)
    } else {
        let (kept, last_end) = keep_scan(s.drop_last());
        if s.last().start_line > last_end {
            (kept.push(s.last()), s.last().end_line)
        } else {
            (kept, last_end)
        }
    }
}

/// The regions that do not overlap an earlier kept one.
pub open spec fn kept_regions(s: Seq<RegionView>) -> Seq<RegionView> {
    keep_scan(s).0
}

/// Regions within lines `1..=n`, each starting after the one before ends.
pub open spec fn regions_ordered(rs: Seq<RegionView>, n: int) -> bool {
    &&& forall|k: int| 0 <= k < rs.len() ==> 1 <= #[trigger] rs[k].start_line <= rs[k].end_line <= n
    &&& forall|k: int| 0 < k < rs.len() ==> #[trigger] rs[k].start_line > rs[k - 1].end_line
}

proof fn lemma_keep_scan(s: Seq<RegionView>, n: int)
    requires
        forall|k: int| 0 <= k < s.len() ==> 1 <= #[trigger] s[k].start_line <= s[k].end_line <= n,
    ensures
        regions_ordered(keep_scan(s).0, n),
        keep_scan(s).0.len() > 0 ==> keep_scan(s).1 == keep_scan(s).0.last().end_line,
        keep_scan(s).0.len() == 0 ==> keep_scan(s).1 == 0,
    decreases s.len(),
{
    if s.len() > 0 {
        let p = s.drop_last();
        assert forall|k: int| 0 <= k < p.len() implies 1 <= #[trigger] p[k].start_line <= p[k].end_line <= n by {
            assert(p[k] == s[k]);
        }
        lemma_keep_scan(p, n);
        let (kept, last_end) = keep_scan(p);
        let x = s.last();
        if x.start_line > last_end {
            let k2 = kept.push(x);
            assert forall|k: int| 0 <= k < k2.len() implies 1 <= #[trigger] k2[k].start_line <= k2[k].end_line <= n by {
                if k < kept.len() {
                    assert(k2[k] == kept[k]);
                }
            }
            assert forall|k: int| 0 < k < k2.len() implies #[trigger] k2[k].start_line > k2[k - 1].end_line by {
                if k < kept.len() {
                    assert(k2[k] == kept[k]);
                    assert(k2[k - 1] == kept[k - 1]);
                }
            }
        }
    }
}

fn keep_regions_exec(v: Vec<ExtractedRegion>) -> (r: Vec<ExtractedRegion>)
    ensures
        rv(r@) == kept_regions(rv(v@)),
{
    let ghost input = rv(v@);
    let mut src = v;
    let mut out: Vec<ExtractedRegion> = Vec::new();
    let mut last_end: usize = 0;
    let ghost total = src@.len();
    proof {
        assert(rv(src@) =~= input.skip(0));
        assert(input.take(0) =~= seq![]);
    }
    while src.len() > 0
        invariant
            total == input.len(),
            src@.len() <= total,
            rv(src@) == input.skip(total - src@.len()),
            rv(out@) == keep_scan(input.take(total - src@.len())).0,
            last_end as int == keep_scan(input.take(total - src@.len())).1,
        decreases src@.len(),
    {
        let ghost i = total - src@.len();
        let ghost src_before = rv(src@);
        let x = src.remove(0);
        proof {
            assert(src_before[0] == input[i]);
            assert(rv(src@) =~= src_before.drop_first());
            assert(rv(src@) =~= input.skip(i + 1));
            assert(input.take(i + 1).drop_last() =~= input.take(i));
            assert(input.take(i + 1).last() == x@);
        }
        if x.start_line > last_end {
            last_end = x.end_line;
            let ghost before = rv(out@);
            let ghost xs = x@;
            out.push(x);
            proof {
                assert(rv(out@) =~= before.push(xs));
            }
        }
    }
    proof {
        assert(input.take(total as int) =~= input);
    }
    out
}

/// The text that `String::from_utf8_lossy` makes of a byte sequence.
pub uninterp spec fn utf8_lossy(bytes: Seq<u8>) -> Seq<char>;

/// Calls `String::from_utf8_lossy` and takes the owned text. The contract
/// names the result `utf8_lossy(bytes)` and keeps what the documentation
/// states: valid UTF-8 is decoded unchanged.
#[verifier::external_body]
fn lossy_text(bytes: &[u8]) -> (r: String)
    ensures
        r@ == utf8_lossy(bytes@),
        valid_utf8(bytes@) ==> r@ == decode_utf8(bytes@),
{
    String::from_utf8_lossy(bytes).into_owned()
}

/// The bytes of lines `s..=e` (1-based) of a text, each line counted with one
/// byte for its ending, cut at the end of the text.
pub open spec fn region_bytes(content: Seq<char>, s: int, e: int) -> Seq<u8> {
    let b = encode_utf8(content);
    let lines = lines_of(content);
    let end = line_offset(lines, e);
    b.subrange(line_offset(lines, s - 1), if end < b.len() { end } else { b.len() as int })
}

/// The chunk a region of a Rust file gives.
pub open spec fn region_chunk(content: Seq<char>, path: Seq<char>, r: RegionView) -> ChunkSpec {
    mk_chunk(path, r.start_line, r.end_line, r.kind, r.name, utf8_lossy(region_bytes(content, r.start_line, r.end_line)))
}

/// The byte offset of line `m`.
fn line_start(lines: &Vec<Vec<char>>, m: usize, blen: usize, Ghost(content): Ghost<Seq<char>>) -> (r: usize)
    requires
        vv(lines@) == lines_of(content),
        m < lines@.len(),
        blen == utf8_len(content),
    ensures
        r as int == line_offset(vv(lines@), m as int),
        r <= blen,
{
    let ghost ls = vv(lines@);
    proof {
        lemma_line_start_in_text(content, m as int);
    }
    let mut acc: usize = 0;
    let mut k: usize = 0;
    while k < m
        invariant
            k <= m < lines@.len() == ls.len(),
            ls == vv(lines@),
            acc as int == line_offset(ls, k as int),
            line_offset(ls, m as int) <= blen,
        decreases m - k,
    {
        proof {
            lemma_line_offset_mono(ls, k as int + 1, m as int);
            assert(ls[k as int] == lines@[k as int]@);
        }
        let w = byte_len(lines[k].as_slice());
        acc = acc + w as usize + 1;
        k = k + 1;
    }
    acc
}

fn region_chunk_exec(
    content: &str,
    bytes: &[u8],
    lines: &Vec<Vec<char>>,
    r: &ExtractedRegion,
    file_path: &str,
) -> (c: TextChunk)
    requires
        bytes@ == encode_utf8(content@),
        vv(lines@) == lines_of(content@),
        1 <= r.start_line <= r.end_line <= lines@.len(),
    ensures
        c@ == region_chunk(content@, file_path@, r@),
{
    let ghost ls = vv(lines@);
    let blen = bytes.len();
    proof {
        lemma_encode_len(content@);
    }
    let sb = line_start(lines, r.start_line - 1, blen, Ghost(content@));
    let last = line_start(lines, r.end_line - 1, blen, Ghost(content@));
    proof {
        assert(ls[r.end_line - 1] == lines@[r.end_line - 1]@);
        lemma_line_offset_mono(ls, r.start_line - 1, r.end_line - 1);
    }
    let eb: u128 = last as u128 + byte_len(lines[r.end_line - 1].as_slice()) + 1;
    let e: usize = if eb < blen as u128 {
        eb as usize
    } else {
        blen
    };
    let text = lossy_text(slice_subrange(bytes, sb, e));
    TextChunk {
        file_path: owned(file_path),
        start_line: r.start_line,
        end_line: r.end_line,
        kind: r.kind,
        name: copy_opt(&r.name),
        content: text,
    }
}

/// Gaps of fewer non-blank lines than this are dropped.
pub const MIN_GAP_LINES: usize = 3;

/// The number of lines that hold more than whitespace.
pub open spec fn count_non_blank(ls: Seq<Seq<char>>) -> nat
    decreases ls.len(),
{
    if ls.len() == 0 {
        0
    } else {
        count_non_blank(ls.drop_last()) + if all_ws(ls.last()) {
            0nat
        } else {
            1nat
        }
    }
}

/// The chunk for the uncovered lines `from..=to` (1-based), when more than
/// `MIN_GAP_LINES` of them hold more than whitespace.
pub open spec fn gap_chunk(lines: Seq<Seq<char>>, path: Seq<char>, from: int, to: int) -> Option<ChunkSpec> {
    let gl = lines.subrange(from - 1, to);
    if count_non_blank(gl) > MIN_GAP_LINES {
        Some(mk_chunk(path, from, to, ChunkKind::File, None, section(lines, from - 1, to - 1)))
    } else {
        None
    }
}

/// Adds an optional chunk.
pub open spec fn push_opt(s: Seq<ChunkSpec>, c: Option<ChunkSpec>) -> Seq<ChunkSpec> {
    match c {
        Some(x) => s.push(x),
        None => s,
    }
}

/// The gaps before each region, and the first line after the last region.
pub open spec fn gap_scan(rs: Seq<RegionView>, lines: Seq<Seq<char>>, path: Seq<char>) -> (Seq<ChunkSpec>, int)
    decreases rs.len(),
{
    if rs.len() == 0 {
        (seq![], 1)
    } else {
        let (g, cursor) = gap_scan(rs.drop_last(), lines, path);
        let r = rs.last();
        let g2 = if r.start_line > cursor {
            push_opt(g, gap_chunk(lines, path, cursor, r.start_line - 1))
        } else {
            g
        };
        (g2, r.end_line + 1)
    }
}

/// The chunks for the lines that no region covers: before, between and after
/// the regions.
pub open spec fn spec_collect_gaps(rs: Seq<RegionView>, lines: Seq<Seq<char>>, path: Seq<char>) -> Seq<ChunkSpec> {
    let (g, cursor) = gap_scan(rs, lines, path);
    if cursor <= lines.len() {
        push_opt(g, gap_chunk(lines, path, cursor, lines.len() as int))
    } else {
        g
    }
}

fn count_non_blank_exec(lines: &Vec<Vec<char>>, a: usize, b: usize) -> (r: usize)
    requires
        a <= b <= lines@.len(),
    ensures
        r == count_non_blank(vv(lines@).subrange(a as int, b as int)),
        r <= b - a,
{
    let ghost ls = vv(lines@);
    let mut k = a;
    let mut c: usize = 0;
    proof {
        assert(ls.subrange(a as int, a as int) =~= seq![]);
    }
    while k < b
        invariant
            a <= k <= b <= lines@.len() == ls.len(),
            ls == vv(lines@),
            c == count_non_blank(ls.subrange(a as int, k as int)),
            c <= k - a,
        decreases b - k,
    {
        proof {
            assert(ls.subrange(a as int, k + 1).drop_last() =~= ls.subrange(a as int, k as int));
            assert(ls.subrange(a as int, k + 1).last() == lines@[k as int]@);
        }
        if !is_blank(lines[k].as_slice()) {
            c = c + 1;
        }
        k = k + 1;
    }
    c
}

fn gap_chunk_exec(lines: &Vec<Vec<char>>, file_path: &str, from: usize, to: usize) -> (r: Option<TextChunk>)
    requires
        1 <= from <= to <= lines@.len(),
    ensures
        match r {
            Some(c) => gap_chunk(vv(lines@), file_path@, from as int, to as int) == Some(c@),
            None => gap_chunk(vv(lines@), file_path@, from as int, to as int) is None,
        },
{
    let nb = count_non_blank_exec(lines, from - 1, to);
    if nb > MIN_GAP_LINES {
        let text = section_text(lines, from - 1, to - 1);
        Some(TextChunk {
            file_path: owned(file_path),
            start_line: from,
            end_line: to,
            kind: ChunkKind::File,
            name: None,
            content: from_chars(text.as_slice()),
        })
    } else {
        None
    }
}

/// The chunks for the stretches of a Rust file outside every region.
pub fn collect_gaps(regions: &Vec<ExtractedRegion>, lines: &Vec<Vec<char>>, file_path: &str) -> (r: Vec<TextChunk>)
    requires
        regions_ordered(rv(regions@), lines@.len() as int),
    ensures
        cv(r@) == spec_collect_gaps(rv(regions@), vv(lines@), file_path@),
{
    let ghost rs = rv(regions@);
    let ghost ls = vv(lines@);
    let n = lines.len();
    let mut gaps: Vec<TextChunk> = Vec::new();
    let mut cursor: u128 = 1;
    let mut i: usize = 0;
    proof {
        assert(rs.take(0) =~= seq![]);
        assert(ls.len() == n);
    }
    while i < regions.len()
        invariant
            i <= regions@.len() == rs.len(),
            rs == rv(regions@),
            ls == vv(lines@),
            n == lines@.len(),
            regions_ordered(rs, n as int),
            cv(gaps@) == gap_scan(rs.take(i as int), ls, file_path@).0,
            cursor as int == gap_scan(rs.take(i as int), ls, file_path@).1,
            i == 0 ==> cursor == 1,
            i > 0 ==> cursor == rs[i - 1].end_line + 1,
        decreases regions@.len() - i,
    {
        proof {
            assert(rs.take(i + 1).drop_last() =~= rs.take(i as int));
            assert(rs.take(i + 1).last() == rs[i as int]);
            assert(rs[i as int] == regions@[i as int]@);
            if i > 0 {
                assert(rs[i as int].start_line > rs[i - 1].end_line);
            }
        }
        let start = regions[i].start_line;
        if start as u128 > cursor {
            let g = gap_chunk_exec(lines, file_path, cursor as usize, start - 1);
            match g {
                Some(c) => {
                    let ghost before = cv(gaps@);
                    let ghost cs = c@;
                    gaps.push(c);
                    proof {
                        assert(cv(gaps@) =~= before.push(cs));
                    }
                },
                None => {},
            }
        }
        cursor = regions[i].end_line as u128 + 1;
        i = i + 1;
    }
    proof {
        assert(rs.take(i as int) =~= rs);
    }
    if cursor <= n as u128 {
        let g = gap_chunk_exec(lines, file_path, cursor as usize, n);
        match g {
            Some(c) => {
                let ghost before = cv(gaps@);
                let ghost cs = c@;
                gaps.push(c);
                proof {
                    assert(cv(gaps@) =~= before.push(cs));
                }
            },
            None => {},
        }
    }
    gaps
}

/// Inserts `x` into chunks sorted by first line, after every chunk that does
/// not start later.
pub open spec fn insert_chunk(s: Seq<ChunkSpec>, x: ChunkSpec) -> Seq<ChunkSpec>
    decreases s.len(),
{
    if s.len() == 0 || !(x.start_line < s.last().start_line) {
        s.push(x)
    } else {
        insert_chunk(s.drop_last(), x).push(s.last())
    }
}

/// The stable sort of chunks by first line.
pub open spec fn sort_chunks(s: Seq<ChunkSpec>) -> Seq<ChunkSpec>
    decreases s.len(),
{
    if s.len() == 0 {
        s
    } else {
        insert_chunk(sort_chunks(s.drop_last()), s.last())
    }
}

proof fn lemma_insert_chunk_at(s: Seq<ChunkSpec>, x: ChunkSpec, j: int)
    requires
        0 <= j <= s.len(),
        forall|k: int| j <= k < s.len() ==> x.start_line < #[trigger] s[k].start_line,
        j == 0 || !(x.start_line < s[j - 1].start_line),
    ensures
        insert_chunk(s, x) == s.take(j).push(x) + s.skip(j),
    decreases s.len(),
{
    if s.len() == 0 {
        assert(s.take(j).push(x) + s.skip(j) =~= s.push(x));
    } else if !(x.start_line < s.last().start_line) {
        assert(j == s.len());
        assert(s.take(j).push(x) + s.skip(j) =~= s.push(x));
    } else {
        let p = s.drop_last();
        lemma_insert_chunk_at(p, x, j);
        assert(p.take(j).push(x) + p.skip(j) + seq![s.last()] =~= s.take(j).push(x) + s.skip(j));
    }
}

fn sort_chunks_exec(v: Vec<TextChunk>) -> (r: Vec<TextChunk>)
    ensures
        cv(r@) == sort_chunks(cv(v@)),
{
    let ghost input = cv(v@);
    let mut src = v;
    let mut out: Vec<TextChunk> = Vec::new();
    let ghost total = src@.len();
    proof {
        assert(cv(src@) =~= input.skip(0));
        assert(input.take(0) =~= seq![]);
    }
    while src.len() > 0
        invariant
            total == input.len(),
            src@.len() <= total,
            cv(src@) == input.skip(total - src@.len()),
            cv(out@) == sort_chunks(input.take(total - src@.len())),
        decreases src@.len(),
    {
        let ghost i = total - src@.len();
        let ghost src_before = cv(src@);
        let x = src.remove(0);
        proof {
            assert(src_before[0] == input[i]);
            assert(cv(src@) =~= src_before.drop_first());
            assert(cv(src@) =~= input.skip(i + 1));
            assert(input.take(i + 1).drop_last() =~= input.take(i));
        }
        let ghost xs = x@;
        let ghost o = cv(out@);
        let mut j = out.len();
        while j > 0 && x.start_line < out[j - 1].start_line
            invariant
                j <= out@.len(),
                o == cv(out@),
                xs == x@,
                forall|k: int| j <= k < o.len() ==> xs.start_line < #[trigger] o[k].start_line,
            decreases j,
        {
            proof {
                assert(o[j - 1] == out@[j - 1]@);
            }
            j = j - 1;
        }
        proof {
            if j > 0 {
                assert(o[j - 1] == out@[j - 1]@);
            }
            lemma_insert_chunk_at(o, xs, j as int);
        }
        out.insert(j, x);
        proof {
            assert(cv(out@) =~= o.take(j as int).push(xs) + o.skip(j as int));
        }
    }
    proof {
        assert(input.take(total as int) =~= input);
    }
    out
}

/// A region within lines `1..=n`.
pub open spec fn region_in(r: RegionView, n: int) -> bool {
    1 <= r.start_line <= r.end_line <= n
}

proof fn lemma_insert_region_in(s: Seq<RegionView>, x: RegionView, n: int)
    requires
        forall|k: int| 0 <= k < s.len() ==> region_in(#[trigger] s[k], n),
        region_in(x, n),
    ensures
        forall|k: int| 0 <= k < insert_region(s, x).len() ==> region_in(#[trigger] insert_region(s, x)[k], n),
        insert_region(s, x).len() == s.len() + 1,
    decreases s.len(),
{
    if s.len() > 0 && region_before(x, s.last()) {
        let p = s.drop_last();
        assert forall|k: int| 0 <= k < p.len() implies region_in(#[trigger] p[k], n) by {
            assert(p[k] == s[k]);
        }
        lemma_insert_region_in(p, x, n);
        let t = insert_region(p, x).push(s.last());
        assert forall|k: int| 0 <= k < t.len() implies region_in(#[trigger] t[k], n) by {
            if k < t.len() - 1 {
                assert(t[k] == insert_region(p, x)[k]);
            }
        }
    } else {
        let t = s.push(x);
        assert forall|k: int| 0 <= k < t.len() implies region_in(#[trigger] t[k], n) by {
            if k < s.len() {
                assert(t[k] == s[k]);
            }
        }
    }
}

proof fn lemma_sort_regions_in(s: Seq<RegionView>, n: int)
    requires
        forall|k: int| 0 <= k < s.len() ==> region_in(#[trigger] s[k], n),
    ensures
        forall|k: int| 0 <= k < sort_regions(s).len() ==> region_in(#[trigger] sort_regions(s)[k], n),
        sort_regions(s).len() == s.len(),
    decreases s.len(),
{
    if s.len() > 0 {
        let p = s.drop_last();
        assert forall|k: int| 0 <= k < p.len() implies region_in(#[trigger] p[k], n) by {
            assert(p[k] == s[k]);
        }
        lemma_sort_regions_in(p, n);
        lemma_insert_region_in(sort_regions(p), s.last(), n);
    }
}

/// The regions of a Rust file: the item nodes, sorted by position, without
/// those that overlap an earlier one.
pub open spec fn rust_regions(nodes: Seq<NodeView>) -> Seq<RegionView> {
    kept_regions(sort_regions(matched_nodes(nodes).map_values(|n: NodeView| region_of(n))))
}

/// Every item node lies within the lines of the text, first row before last.
pub open spec fn nodes_fit(content: Seq<char>, nodes: Seq<NodeView>) -> bool {
    forall|k: int|
        0 <= k < matched_nodes(nodes).len() ==> #[trigger] matched_nodes(nodes)[k].start_row
            <= matched_nodes(nodes)[k].end_row < lines_of(content).len()
}

/// The chunks of a Rust file from its syntax nodes: one per region, one per
/// stretch of uncovered lines with enough content, ordered by first line; the
/// whole file when there are none.
pub open spec fn spec_chunk_syntax(content: Seq<char>, path: Seq<char>, nodes: Seq<NodeView>) -> Seq<ChunkSpec> {
    let rs = rust_regions(nodes);
    let chunks = sort_chunks(
        rs.map_values(|r: RegionView| region_chunk(content, path, r)) + spec_collect_gaps(rs, lines_of(content), path),
    );
    if chunks.len() == 0 {
        seq![spec_whole_file_chunk(content, path)]
    } else {
        chunks
    }
}

/// Whether every item node among `nodes` lies within the lines of `content`.
pub fn nodes_fit_exec(content: &str, nodes: &Vec<SyntaxNode>) -> (r: bool)
    ensures
        r == nodes_fit(content@, nv(nodes@)),
{
    let ghost ns = nv(nodes@);
    let c = to_chars(content);
    let lines = split_lines(c.as_slice());
    let n = lines.len();
    proof {
        assert(vv(lines@).len() == lines@.len());
    }
    let idx = collect_matching_nodes(nodes);
    let ghost ms = matched_nodes(ns);
    proof {
        assert(ms.len() == idx@.len());
    }
    let mut k: usize = 0;
    while k < idx.len()
        invariant
            k <= idx@.len() == ms.len(),
            ms == matched_nodes(ns),
            ns == nv(nodes@),
            n == lines_of(content@).len(),
            forall|j: int| 0 <= j < idx@.len() ==> #[trigger] idx@[j] < nodes@.len(),
            idx@.map_values(|j: usize| ns[j as int]) == ms,
            forall|j: int| 0 <= j < k ==> #[trigger] ms[j].start_row <= ms[j].end_row < n,
        decreases idx@.len() - k,
    {
        let node = &nodes[idx[k]];
        proof {
            assert(ms[k as int] == ns[idx@[k as int] as int]);
            assert(ns[idx@[k as int] as int] == nodes@[idx@[k as int] as int]@);
        }
        if !(node.start_row <= node.end_row && node.end_row < n) {
            proof {
                assert(!(matched_nodes(ns)[k as int].start_row <= matched_nodes(ns)[k as int].end_row
                    < lines_of(content@).len()));
            }
            return false;
        }
        k = k + 1;
    }
    proof {
        assert forall|j: int| 0 <= j < matched_nodes(ns).len() implies #[trigger] matched_nodes(
            ns,
        )[j].start_row <= matched_nodes(ns)[j].end_row < lines_of(content@).len() by {
            assert(ms[j].start_row <= ms[j].end_row < n);
        }
    }
    true
}

/// Splits a Rust file into chunks from its syntax nodes.
pub fn chunk_syntax_nodes(content: &str, file_path: &str, nodes: &Vec<SyntaxNode>) -> (r: Vec<TextChunk>)
    requires
        nodes_fit(content@, nv(nodes@)),
    ensures
        cv(r@) == spec_chunk_syntax(content@, file_path@, nv(nodes@)),
{
    let ghost ns = nv(nodes@);
    let c = to_chars(content);
    let lines = split_lines(c.as_slice());
    let n = lines.len();
    proof {
        assert(vv(lines@).len() == lines@.len());
    }
    let idx = collect_matching_nodes(nodes);
    let ghost ms = matched_nodes(ns);
    let ghost raw_spec = ms.map_values(|m: NodeView| region_of(m));
    let mut raw: Vec<ExtractedRegion> = Vec::new();
    let mut k: usize = 0;
    while k < idx.len()
        invariant
            k <= idx@.len() == ms.len(),
            ms == matched_nodes(ns),
            ns == nv(nodes@),
            raw_spec == ms.map_values(|m: NodeView| region_of(m)),
            n == lines_of(content@).len(),
            nodes_fit(content@, ns),
            forall|j: int| 0 <= j < idx@.len() ==> #[trigger] idx@[j] < nodes@.len(),
            idx@.map_values(|j: usize| ns[j as int]) == ms,
            rv(raw@) == raw_spec.take(k as int),
        decreases idx@.len() - k,
    {
        let node = &nodes[idx[k]];
        proof {
            assert(ms[k as int] == ns[idx@[k as int] as int]);
            assert(ns[idx@[k as int] as int] == nodes@[idx@[k as int] as int]@);
        }
        let (kind, name) = get_rust_name(node);
        let reg = ExtractedRegion { name, kind, start_line: node.start_row + 1, end_line: node.end_row + 1 };
        let ghost before = rv(raw@);
        let ghost rs1 = reg@;
        raw.push(reg);
        proof {
            assert(rs1 == raw_spec[k as int]);
            assert(rv(raw@) =~= before.push(rs1));
            assert(raw_spec.take(k + 1) =~= raw_spec.take(k as int).push(rs1));
        }
        k = k + 1;
    }
    proof {
        assert(raw_spec.take(k as int) =~= raw_spec);
        assert forall|j: int| 0 <= j < raw_spec.len() implies region_in(#[trigger] raw_spec[j], n as int) by {
            assert(nodes_fit(content@, ns));
            assert(matched_nodes(ns)[j].start_row <= matched_nodes(ns)[j].end_row < lines_of(content@).len());
            assert(raw_spec[j] == region_of(ms[j]));
        }
        lemma_sort_regions_in(raw_spec, n as int);
        lemma_keep_scan(sort_regions(raw_spec), n as int);
    }
    let sorted = sort_regions_exec(raw);
    let regions = keep_regions_exec(sorted);
    let ghost rs = rv(regions@);
    let bytes = content.as_bytes();
    let mut chunks: Vec<TextChunk> = Vec::new();
    let mut i: usize = 0;
    while i < regions.len()
        invariant
            i <= regions@.len() == rs.len(),
            rs == rv(regions@),
            rs == rust_regions(ns),
            regions_ordered(rs, n as int),
            n == lines@.len(),
            vv(lines@) == lines_of(content@),
            bytes@ == encode_utf8(content@),
            cv(chunks@) == rs.take(i as int).map_values(|r: RegionView| region_chunk(content@, file_path@, r)),
        decreases regions@.len() - i,
    {
        proof {
            assert(rs[i as int] == regions@[i as int]@);
            assert(1 <= rs[i as int].start_line <= rs[i as int].end_line <= n);
        }
        let ch = region_chunk_exec(content, bytes, &lines, &regions[i], file_path);
        let ghost before = cv(chunks@);
        let ghost cs = ch@;
        chunks.push(ch);
        proof {
            assert(cv(chunks@) =~= before.push(cs));
            assert(rs.take(i + 1).map_values(|r: RegionView| region_chunk(content@, file_path@, r)) =~= rs.take(
                i as int,
            ).map_values(|r: RegionView| region_chunk(content@, file_path@, r)).push(cs));
        }
        i = i + 1;
    }
    proof {
        assert(rs.take(i as int) =~= rs);
    }
    let mut gaps = collect_gaps(&regions, &lines, file_path);
    let ghost cpart = cv(chunks@);
    let ghost gpart = cv(gaps@);
    chunks.append(&mut gaps);
    proof {
        assert(cv(chunks@) =~= cpart + gpart);
    }
    let sorted_chunks = sort_chunks_exec(chunks);
    if sorted_chunks.len() == 0 {
        let w = whole_file_chunk(content, file_path);
        let ghost ws = w@;
        let r = vec![w];
        proof {
            assert(cv(r@) =~= seq![ws]);
        }
        r
    } else {
        sorted_chunks
    }
}

/// The chunks of a Rust file: when tree-sitter gives a tree whose item nodes
/// lie within the file, its regions and the gaps between them; otherwise the
/// whole file as one chunk.
pub fn chunk_rust(content: &str, file_path: &str) -> (r: Vec<TextChunk>)
    ensures
        match rust_syntax(content@) {
            Some(ns) => if nodes_fit(content@, ns) {
                cv(r@) == spec_chunk_syntax(content@, file_path@, ns)
            } else {
                cv(r@) == seq![spec_whole_file_chunk(content@, file_path@)]
            },
            None => cv(r@) == seq![spec_whole_file_chunk(content@, file_path@)],
        },
{
    match parse_rust(content) {
        Some(nodes) => {
            if nodes_fit_exec(content, &nodes) {
                return chunk_syntax_nodes(content, file_path, &nodes);
            }
        },
        None => {},
    }
    let w = whole_file_chunk(content, file_path);
    let ghost ws = w@;
    let r = vec![w];
    proof {
        assert(cv(r@) =~= seq![ws]);
    }
    r
}

/// The regions of a Rust file lie within its lines, in order, and never overlap.
pub proof fn rust_regions_in_order(content: Seq<char>, nodes: Seq<NodeView>)
    requires
        nodes_fit(content, nodes),
    ensures
        regions_ordered(rust_regions(nodes), lines_of(content).len() as int),
{
    let n = lines_of(content).len() as int;
    let ms = matched_nodes(nodes);
    let raw = ms.map_values(|m: NodeView| region_of(m));
    assert forall|j: int| 0 <= j < raw.len() implies region_in(#[trigger] raw[j], n) by {
        assert(matched_nodes(nodes)[j].start_row <= matched_nodes(nodes)[j].end_row < n);
        assert(raw[j] == region_of(ms[j]));
    }
    lemma_sort_regions_in(raw, n);
    lemma_keep_scan(sort_regions(raw), n);
}

proof fn lemma_insert_chunk_sorted(s: Seq<ChunkSpec>, x: ChunkSpec)
    requires
        forall|i: int, j: int| 0 <= i < j < s.len() ==> s[i].start_line <= s[j].start_line,
    ensures
        forall|i: int, j: int|
            0 <= i < j < insert_chunk(s, x).len() ==> insert_chunk(s, x)[i].start_line <= insert_chunk(s, x)[j].start_line,
        insert_chunk(s, x).to_multiset() == s.to_multiset().insert(x),
    decreases s.len(),
{
    broadcast use vstd::multiset::group_multiset_axioms, vstd::seq_lib::group_to_multiset_ensures;
    if s.len() == 0 || !(x.start_line < s.last().start_line) {
        let t = s.push(x);
        assert forall|i: int, j: int| 0 <= i < j < t.len() implies t[i].start_line <= t[j].start_line by {
            if j == s.len() && i < s.len() - 1 {
                assert(s[i].start_line <= s[s.len() - 1].start_line);
            }
        }
    } else {
        let p = s.drop_last();
        assert forall|i: int, j: int| 0 <= i < j < p.len() implies p[i].start_line <= p[j].start_line by {
            assert(p[i] == s[i] && p[j] == s[j]);
        }
        lemma_insert_chunk_sorted(p, x);
        let q = insert_chunk(p, x);
        let t = q.push(s.last());
        assert forall|i: int, j: int| 0 <= i < j < t.len() implies t[i].start_line <= t[j].start_line by {
            if j == q.len() {
                assert(q.to_multiset().count(q[i]) > 0);
                if q[i] != x {
                    assert(p.contains(q[i]));
                    let k = choose|k: int| 0 <= k < p.len() && p[k] == q[i];
                    assert(s[k].start_line <= s[s.len() - 1].start_line);
                }
            } else {
                assert(t[i] == q[i] && t[j] == q[j]);
            }
        }
        assert(s =~= p.push(s.last()));
    }
}

/// Sorting chunks by `sort_chunks` orders them by first line and keeps every chunk.
pub proof fn chunks_sorted_by_start(s: Seq<ChunkSpec>)
    ensures
        forall|i: int, j: int| 0 <= i < j < sort_chunks(s).len() ==> sort_chunks(s)[i].start_line <= sort_chunks(s)[j].start_line,
        sort_chunks(s).to_multiset() == s.to_multiset(),
    decreases s.len(),
{
    broadcast use vstd::seq_lib::group_to_multiset_ensures;
    if s.len() > 0 {
        chunks_sorted_by_start(s.drop_last());
        lemma_insert_chunk_sorted(sort_chunks(s.drop_last()), s.last());
        assert(s =~= s.drop_last().push(s.last()));
    }
}


proof fn lemma_gap_scan_prefix(rs: Seq<RegionView>, lines: Seq<Seq<char>>, path: Seq<char>, j: int, x: ChunkSpec)
    requires
        0 <= j <= rs.len(),
        gap_scan(rs.take(j), lines, path).0.contains(x),
    ensures
        gap_scan(rs, lines, path).0.contains(x),
    decreases rs.len(),
{
    if j == rs.len() {
        assert(rs.take(j) =~= rs);
    } else {
        let p = rs.drop_last();
        assert(p.take(j) =~= rs.take(j));
        lemma_gap_scan_prefix(p, lines, path, j, x);
        let g = gap_scan(p, lines, path).0;
        let k = choose|k: int| 0 <= k < g.len() && g[k] == x;
        let g2 = gap_scan(rs, lines, path).0;
        assert(g2.len() >= g.len() && g2[k] == g[k]);
    }
}

/// Every stretch of lines that no region covers and that holds more than
/// `MIN_GAP_LINES` non-blank lines is a chunk of kind `File` holding exactly
/// those lines: the stretch before region `i` (from line 1, or from the line
/// after region `i - 1`), and for `i` the number of regions, the stretch
/// after the last region to the end of the file.
pub proof fn uncovered_stretches_are_chunks(rs: Seq<RegionView>, lines: Seq<Seq<char>>, path: Seq<char>, i: int)
    requires
        regions_ordered(rs, lines.len() as int),
        0 <= i <= rs.len(),
    ensures
        ({
            let from = if i == 0 {
                1
            } else {
                rs[i - 1].end_line + 1
            };
            let to = if i < rs.len() {
                rs[i].start_line - 1
            } else {
                lines.len() as int
            };
            from <= to && count_non_blank(lines.subrange(from - 1, to)) > MIN_GAP_LINES ==> spec_collect_gaps(
                rs,
                lines,
                path,
            ).contains(mk_chunk(path, from, to, ChunkKind::File, None, section(lines, from - 1, to - 1)))
        }),
{
    let from = if i == 0 {
        1
    } else {
        rs[i - 1].end_line + 1
    };
    let to = if i < rs.len() {
        rs[i].start_line - 1
    } else {
        lines.len() as int
    };
    let c = mk_chunk(path, from, to, ChunkKind::File, None, section(lines, from - 1, to - 1));
    if from <= to && count_non_blank(lines.subrange(from - 1, to)) > MIN_GAP_LINES {
        let pre = rs.take(i);
        assert(gap_scan(pre, lines, path).1 == from) by {
            if i > 0 {
                assert(pre.last() == rs[i - 1]);
            }
        }
        assert(gap_chunk(lines, path, from, to) == Some(c));
        if i < rs.len() {
            let upto = rs.take(i + 1);
            assert(upto.drop_last() =~= pre);
            assert(upto.last() == rs[i]);
            let g = gap_scan(upto, lines, path).0;
            assert(g == gap_scan(pre, lines, path).0.push(c));
            assert(g[g.len() - 1] == c);
            lemma_gap_scan_prefix(rs, lines, path, i + 1, c);
            let all = gap_scan(rs, lines, path).0;
            let k = choose|k: int| 0 <= k < all.len() && all[k] == c;
            let r = spec_collect_gaps(rs, lines, path);
            assert(r.len() >= all.len() && r[k] == all[k]);
        } else {
            assert(pre =~= rs);
            let r = spec_collect_gaps(rs, lines, path);
            assert(r[r.len() - 1] == c);
        }
    }
}

/// Every chunk for uncovered lines is among the chunks of a Rust file.
pub proof fn gap_chunks_are_kept(content: Seq<char>, path: Seq<char>, nodes: Seq<NodeView>, x: ChunkSpec)
    requires
        spec_collect_gaps(rust_regions(nodes), lines_of(content), path).contains(x),
    ensures
        spec_chunk_syntax(content, path, nodes).contains(x),
{
    broadcast use vstd::seq_lib::group_to_multiset_ensures;
    let rs = rust_regions(nodes);
    let a = rs.map_values(|r: RegionView| region_chunk(content, path, r));
    let g = spec_collect_gaps(rs, lines_of(content), path);
    let k = choose|k: int| 0 <= k < g.len() && g[k] == x;
    assert((a + g)[a.len() + k] == x);
    assert((a + g).contains(x));
    chunks_sorted_by_start(a + g);
    assert(sort_chunks(a + g).to_multiset().count(x) > 0);
    assert(sort_chunks(a + g).contains(x));
}

} // verus!
