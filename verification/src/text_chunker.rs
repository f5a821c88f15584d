//! Splitting non-code files (Markdown, YAML, JSON, TOML, plain text) into
//! chunks along their natural boundaries.
use vstd::prelude::*;
use crate::text::{
    vv, lines_of, split_lines, to_chars, from_chars, trim, trimmed, trim_start, has_prefix,
    starts_with, ends_with, is_alpha, char_is_alphabetic, is_ws, char_is_whitespace, find_first,
    first_index_of, all_key_chars, key_chars_only, section, section_text, utf8_len, byte_len,
    slice_vec, join, all_ws, is_blank, trim_bounds, has_suffix, strip_leading, strip_trailing,
};
use crate::scanner::{owned, is_text};
use crate::metrics::strs;
use crate::util::{truncated, truncate_chars};
use crate::text::push_all;

verus! {

/// What a chunk covers.
#[derive(Debug, Clone, Copy, PartialEq, Eq, Structural)]
pub enum ChunkKind {
    Function,
    Method,
    Class,
    Interface,
    Struct,
    Enum,
    Impl,
    Export,
    TypeAlias,
    Module,
    HeadingSection,
    TopLevelKey,
    Paragraph,
    File,
}

/// The name a chunk kind is written as.
pub open spec fn chunk_kind_name(k: ChunkKind) -> Seq<char> {
    match k {
        ChunkKind::Function => "function"@,
        ChunkKind::Method => "method"@,
        ChunkKind::Class => "class"@,
        ChunkKind::Interface => "interface"@,
        ChunkKind::Struct => "struct"@,
        ChunkKind::Enum => "enum"@,
        ChunkKind::Impl => "impl"@,
        ChunkKind::Export => "export"@,
        ChunkKind::TypeAlias => "type_alias"@,
        ChunkKind::Module => "module"@,
        ChunkKind::HeadingSection => "heading_section"@,
        ChunkKind::TopLevelKey => "top_level_key"@,
        ChunkKind::Paragraph => "paragraph"@,
        ChunkKind::File => "file"@,
    }
}

/// The chunk kind a name stands for.
pub open spec fn parse_chunk_kind_spec(s: Seq<char>) -> Option<ChunkKind> {
    if s == "function"@ {
        Some(ChunkKind::Function)
    } else if s == "method"@ {
        Some(ChunkKind::Method)
    } else if s == "class"@ {
        Some(ChunkKind::Class)
    } else if s == "interface"@ {
        Some(ChunkKind::Interface)
    } else if s == "struct"@ {
        Some(ChunkKind::Struct)
    } else if s == "enum"@ {
        Some(ChunkKind::Enum)
    } else if s == "impl"@ {
        Some(ChunkKind::Impl)
    } else if s == "export"@ {
        Some(ChunkKind::Export)
    } else if s == "type_alias"@ {
        Some(ChunkKind::TypeAlias)
    } else if s == "module"@ {
        Some(ChunkKind::Module)
    } else if s == "heading_section"@ {
        Some(ChunkKind::HeadingSection)
    } else if s == "top_level_key"@ {
        Some(ChunkKind::TopLevelKey)
    } else if s == "paragraph"@ {
        Some(ChunkKind::Paragraph)
    } else if s == "file"@ {
        Some(ChunkKind::File)
    } else {
        None
    }
}

impl ChunkKind {
    /// The name of the kind (its display form).
    pub fn to_string(&self) -> (r: String)
        ensures
            r@ == chunk_kind_name(*self),
    {
        match self {
            ChunkKind::Function => owned("function"),
            ChunkKind::Method => owned("method"),
            ChunkKind::Class => owned("class"),
            ChunkKind::Interface => owned("interface"),
            ChunkKind::Struct => owned("struct"),
            ChunkKind::Enum => owned("enum"),
            ChunkKind::Impl => owned("impl"),
            ChunkKind::Export => owned("export"),
            ChunkKind::TypeAlias => owned("type_alias"),
            ChunkKind::Module => owned("module"),
            ChunkKind::HeadingSection => owned("heading_section"),
            ChunkKind::TopLevelKey => owned("top_level_key"),
            ChunkKind::Paragraph => owned("paragraph"),
            ChunkKind::File => owned("file"),
        }
    }

    /// The chunk kind named by `s`, if any.
    pub fn parse_name(s: &str) -> (r: Option<ChunkKind>)
        ensures
            r == parse_chunk_kind_spec(s@),
    {
        let c = to_chars(s);
        let c = c.as_slice();
        if is_text(c, "function") {
            Some(ChunkKind::Function)
        } else if is_text(c, "method") {
            Some(ChunkKind::Method)
        } else if is_text(c, "class") {
            Some(ChunkKind::Class)
        } else if is_text(c, "interface") {
            Some(ChunkKind::Interface)
        } else if is_text(c, "struct") {
            Some(ChunkKind::Struct)
        } else if is_text(c, "enum") {
            Some(ChunkKind::Enum)
        } else if is_text(c, "impl") {
            Some(ChunkKind::Impl)
        } else if is_text(c, "export") {
            Some(ChunkKind::Export)
        } else if is_text(c, "type_alias") {
            Some(ChunkKind::TypeAlias)
        } else if is_text(c, "module") {
            Some(ChunkKind::Module)
        } else if is_text(c, "heading_section") {
            Some(ChunkKind::HeadingSection)
        } else if is_text(c, "top_level_key") {
            Some(ChunkKind::TopLevelKey)
        } else if is_text(c, "paragraph") {
            Some(ChunkKind::Paragraph)
        } else if is_text(c, "file") {
            Some(ChunkKind::File)
        } else {
            None
        }
    }
}

impl std::str::FromStr for ChunkKind {
    type Err = String;

    /// The chunk kind named by `s`; otherwise the message `"Unknown chunk kind: "` followed by `s`.
    fn from_str(s: &str) -> (r: Result<Self, Self::Err>)
        ensures
            match r {
                Ok(t) => parse_chunk_kind_spec(s@) == Some(t),
                Err(m) => parse_chunk_kind_spec(s@) is None && m@ == "Unknown chunk kind: "@ + s@,
            },
    {
        match ChunkKind::parse_name(s) {
            Some(k) => Ok(k),
            None => {
                let mut msg = owned("Unknown chunk kind: ");
                msg.append(s);
                proof {
                    reveal_strlit("Unknown chunk kind: ");
                }
                Err(msg)
            },
        }
    }
}

/// A piece of a file with its 1-based line range.
#[derive(Debug, Clone)]
pub struct TextChunk {
    pub file_path: String,
    pub start_line: usize,
    pub end_line: usize,
    pub kind: ChunkKind,
    pub name: Option<String>,
    pub content: String,
}

/// The mathematical value of a chunk.
pub struct ChunkSpec {
    pub file_path: Seq<char>,
    pub start_line: int,
    pub end_line: int,
    pub kind: ChunkKind,
    pub name: Option<Seq<char>>,
    pub content: Seq<char>,
}

pub open spec fn opt_view(o: Option<String>) -> Option<Seq<char>> {
    match o {
        Some(s) => Some(s@),
        None => None,
    }
}

impl View for TextChunk {
    type V = ChunkSpec;

    open spec fn view(&self) -> ChunkSpec {
        ChunkSpec {
            file_path: self.file_path@,
            start_line: self.start_line as int,
            end_line: self.end_line as int,
            kind: self.kind,
            name: opt_view(self.name),
            content: self.content@,
        }
    }
}

/// The values of a sequence of chunks.
pub open spec fn cv(v: Seq<TextChunk>) -> Seq<ChunkSpec> {
    v.map_values(|c: TextChunk| c@)
}

pub open spec fn mk_chunk(
    path: Seq<char>,
    start: int,
    end: int,
    kind: ChunkKind,
    name: Option<Seq<char>>,
    content: Seq<char>,
) -> ChunkSpec {
    ChunkSpec { file_path: path, start_line: start, end_line: end, kind, name, content }
}

/// Below this many bytes a file stays one chunk.
pub const MIN_SPLIT_SIZE: usize = 500;

/// Chunks above this many bytes are split.
pub const MAX_CHUNK_SIZE: usize = 8000;

/// Paragraph groups below this many bytes absorb the next paragraph.
pub const MIN_PARAGRAPH_SIZE: usize = 200;

/// The whole file as one chunk of kind `File`.
pub open spec fn spec_whole_file_chunk(content: Seq<char>, path: Seq<char>) -> ChunkSpec {
    let n = lines_of(content).len() as int;
    mk_chunk(path, 1, if n > 1 { n } else { 1 }, ChunkKind::File, None, content)
}

/// The whole file as one chunk.
pub fn whole_file_chunk(content: &str, file_path: &str) -> (r: TextChunk)
    ensures
        r@ == spec_whole_file_chunk(content@, file_path@),
{
    let c = to_chars(content);
    let lines = split_lines(c.as_slice());
    let n = lines.len();
    proof {
        assert(vv(lines@).len() == lines@.len());
    }
    TextChunk {
        file_path: owned(file_path),
        start_line: 1,
        end_line: if n > 1 { n } else { 1 },
        kind: ChunkKind::File,
        name: None,
        content: owned(content),
    }
}

/// Boundaries are given by strictly increasing line numbers inside the file.
pub open spec fn boundaries_ok(keys: Seq<(int, Seq<char>)>, n: int) -> bool {
    &&& forall|i: int| 0 <= i < keys.len() ==> 0 <= #[trigger] keys[i].0 < n
    &&& forall|i: int, j: int| 0 <= i < j < keys.len() ==> keys[i].0 < keys[j].0
}

/// One chunk per boundary: from the boundary (the first from line 1) to the line
/// before the next boundary (the last to the end of the file).
pub open spec fn key_chunks(
    lines: Seq<Seq<char>>,
    keys: Seq<(int, Seq<char>)>,
    path: Seq<char>,
) -> Seq<ChunkSpec> {
    Seq::new(
        keys.len(),
        |i: int|
            {
                let start = if i == 0 {
                    0
                } else {
                    keys[i].0
                };
                let end = if i < keys.len() - 1 {
                    keys[i + 1].0 - 1
                } else {
                    lines.len() - 1
                };
                mk_chunk(
                    path,
                    start + 1,
                    end + 1,
                    ChunkKind::TopLevelKey,
                    Some(keys[i].1),
                    section(lines, start, end),
                )
            },
    )
}

/// A view of boundary pairs.
pub open spec fn kv(v: Seq<(usize, Vec<char>)>) -> Seq<(int, Seq<char>)> {
    v.map_values(|p: (usize, Vec<char>)| (p.0 as int, p.1@))
}

fn build_key_chunks(lines: &Vec<Vec<char>>, keys: &Vec<(usize, Vec<char>)>, file_path: &str) -> (r: Vec<
    TextChunk,
>)
    requires
        boundaries_ok(kv(keys@), lines@.len() as int),
    ensures
        cv(r@) == key_chunks(vv(lines@), kv(keys@), file_path@),
{
    let mut chunks: Vec<TextChunk> = Vec::new();
    let n = keys.len();
    let ghost spec = key_chunks(vv(lines@), kv(keys@), file_path@);
    let mut i: usize = 0;
    while i < n
        invariant
            i <= n == keys@.len(),
            boundaries_ok(kv(keys@), lines@.len() as int),
            spec == key_chunks(vv(lines@), kv(keys@), file_path@),
            cv(chunks@) == spec.take(i as int),
        decreases n - i,
    {
        proof {
            assert(kv(keys@)[i as int].0 == keys@[i as int].0 as int);
            if i + 1 < n {
                assert(kv(keys@)[i + 1].0 == keys@[i + 1].0 as int);
                assert(kv(keys@)[i as int].0 < kv(keys@)[i + 1].0);
                if i > 0 {
                    assert(kv(keys@)[0].0 < kv(keys@)[i as int].0);
                }
            }
        }
        let start = if i == 0 {
            0
        } else {
            keys[i].0
        };
        let end = if i < n - 1 {
            keys[i + 1].0 - 1
        } else {
            lines.len() - 1
        };
        let content = section_text(lines, start, end);
        let chunk = TextChunk {
            file_path: owned(file_path),
            start_line: start + 1,
            end_line: end + 1,
            kind: ChunkKind::TopLevelKey,
            name: Some(from_chars(keys[i].1.as_slice())),
            content: from_chars(content.as_slice()),
        };
        let ghost cs = chunk@;
        let ghost prev = chunks@;
        chunks.push(chunk);
        proof {
            assert(cs == spec[i as int]);
            assert(chunks@ == prev.push(chunk));
            assert(cv(chunks@) =~= cv(prev).push(cs));
            assert(cv(chunks@) =~= spec.take(i as int + 1));
        }
        i = i + 1;
    }
    proof {
        assert(spec.take(n as int) =~= spec);
    }
    chunks
}


/// YAML lines that cannot start a top-level key: comments, document markers, blank lines.
pub open spec fn yaml_skip(line: Seq<char>) -> bool {
    let t = trim(line);
    has_prefix(t, "#"@) || has_prefix(t, "---"@) || has_prefix(t, "..."@) || t.len() == 0
}

/// The key a YAML line opens at top level: it starts with a letter or `_`, its
/// text before the first `:` is made of key characters, and nothing but
/// whitespace follows the colon.
pub open spec fn yaml_top_key(line: Seq<char>) -> Option<Seq<char>> {
    if line.len() == 0 || !(is_alpha(line[0]) || line[0] == '_') {
        None
    } else {
        match find_first(line, ':') {
            None => None,
            Some(p) => {
                let key = line.take(p);
                let after = trim(line.skip(p + 1));
                if all_key_chars(key) && (after.len() == 0 || has_prefix(after, " "@) || has_prefix(
                    after,
                    "\t"@,
                )) {
                    Some(key)
                } else {
                    None
                }
            },
        }
    }
}

/// The top-level keys of a YAML file with their line indices.
pub open spec fn yaml_keys(lines: Seq<Seq<char>>) -> Seq<(int, Seq<char>)>
    decreases lines.len(),
{
    if lines.len() == 0 {
        seq![]
    } else {
        let prev = yaml_keys(lines.drop_last());
        let l = lines.last();
        if !yaml_skip(l) && yaml_top_key(l) is Some {
            prev.push((lines.len() - 1, yaml_top_key(l)->0))
        } else {
            prev
        }
    }
}

/// The chunks of a YAML file: one per top-level key.
pub open spec fn spec_chunk_yaml(content: Seq<char>, path: Seq<char>) -> Seq<ChunkSpec> {
    key_chunks(lines_of(content), yaml_keys(lines_of(content)), path)
}

pub proof fn lemma_yaml_keys_ok(lines: Seq<Seq<char>>)
    ensures
        boundaries_ok(yaml_keys(lines), lines.len() as int),
    decreases lines.len(),
{
    if lines.len() > 0 {
        lemma_yaml_keys_ok(lines.drop_last());
    }
}

fn yaml_top_key_of(line: &[char]) -> (r: Option<Vec<char>>)
    ensures
        r matches Some(k) ==> yaml_top_key(line@) == Some(k@),
        r is None ==> yaml_top_key(line@) is None,
{
    if line.len() == 0 || !(char_is_alphabetic(line[0]) || line[0] == '_') {
        return None;
    }
    match first_index_of(line, ':') {
        None => None,
        Some(p) => {
            let key = slice_vec(line, 0, p);
            let after = trimmed(slice_vec(line, p + 1, line.len()).as_slice());
            proof {
                assert(key@ =~= line@.take(p as int));
                assert(line@.subrange(p + 1, line@.len() as int) =~= line@.skip(p + 1));
            }
            let sp = to_chars(" ");
            let tab = to_chars("\t");
            if key_chars_only(key.as_slice()) && (after.len() == 0 || starts_with(
                after.as_slice(),
                sp.as_slice(),
            ) || starts_with(after.as_slice(), tab.as_slice())) {
                Some(key)
            } else {
                None
            }
        },
    }
}

fn yaml_skipped(line: &[char]) -> (r: bool)
    ensures
        r == yaml_skip(line@),
{
    let t = trimmed(line);
    let hash = to_chars("#");
    let dashes = to_chars("---");
    let dots = to_chars("...");
    starts_with(t.as_slice(), hash.as_slice()) || starts_with(t.as_slice(), dashes.as_slice())
        || starts_with(t.as_slice(), dots.as_slice()) || t.len() == 0
}

/// Splits YAML at its top-level keys.
pub fn chunk_yaml(content: &str, file_path: &str) -> (r: Vec<TextChunk>)
    ensures
        cv(r@) == spec_chunk_yaml(content@, file_path@),
{
    let c = to_chars(content);
    let lines = split_lines(c.as_slice());
    let ghost ls = lines_of(content@);
    let mut keys: Vec<(usize, Vec<char>)> = Vec::new();
    let mut i: usize = 0;
    while i < lines.len()
        invariant
            i <= lines@.len(),
            vv(lines@) == ls,
            kv(keys@) == yaml_keys(ls.take(i as int)),
        decreases lines@.len() - i,
    {
        let line = lines[i].as_slice();
        proof {
            assert(ls.take(i as int + 1).drop_last() =~= ls.take(i as int));
            assert(ls.take(i as int + 1).last() == lines@[i as int]@);
        }
        if !yaml_skipped(line) {
            match yaml_top_key_of(line) {
                Some(k) => {
                    let ghost kval = k@;
                    let ghost prev = keys@;
                    keys.push((i, k));
                    proof {
                        assert(kv(keys@) =~= kv(prev).push((i as int, kval)));
                    }
                },
                None => {},
            }
        }
        i = i + 1;
    }
    proof {
        assert(ls.take(i as int) =~= ls);
        lemma_yaml_keys_ok(ls);
    }
    build_key_chunks(&lines, &keys, file_path)
}


/// The section a TOML line opens (`[name]` or `[[name]]`), with brackets and spaces removed.
pub open spec fn toml_section(line: Seq<char>) -> Option<Seq<char>> {
    let t = trim(line);
    if (has_prefix(t, "["@) && has_suffix(t, "]"@)) || (has_prefix(t, "[["@) && has_suffix(t, "]]"@)) {
        let name = trim(strip_trailing(strip_leading(t, '['), ']'));
        if name.len() > 0 {
            Some(name)
        } else {
            None
        }
    } else {
        None
    }
}

/// The key a TOML `key = value` line sets: it starts with a letter or `_` and
/// its text before the first `=` is made of key characters.
pub open spec fn toml_kv(line: Seq<char>) -> Option<Seq<char>> {
    if line.len() == 0 || !(is_alpha(line[0]) || line[0] == '_') {
        None
    } else {
        match find_first(line, '=') {
            None => None,
            Some(p) => if all_key_chars(line.take(p)) {
                Some(trim(line.take(p)))
            } else {
                None
            },
        }
    }
}

/// The index of the first section line, or the number of lines when there is none.
pub open spec fn first_section_line(lines: Seq<Seq<char>>) -> int
    decreases lines.len(),
{
    if lines.len() == 0 {
        0
    } else {
        let f = first_section_line(lines.drop_last());
        if f < lines.len() - 1 {
            f
        } else if toml_section(lines.last()) is Some {
            lines.len() - 1
        } else {
            lines.len() as int
        }
    }
}

/// The section lines of a TOML file with their names.
pub open spec fn toml_sections(lines: Seq<Seq<char>>) -> Seq<(int, Seq<char>)>
    decreases lines.len(),
{
    if lines.len() == 0 {
        seq![]
    } else {
        let prev = toml_sections(lines.drop_last());
        match toml_section(lines.last()) {
            Some(name) => prev.push((lines.len() - 1, name)),
            None => prev,
        }
    }
}

/// A blank or comment line of TOML.
pub open spec fn toml_skip(line: Seq<char>) -> bool {
    trim(line).len() == 0 || has_prefix(trim(line), "#"@)
}

/// The key lines before line `limit`, with their keys.
pub open spec fn toml_kvs(lines: Seq<Seq<char>>, limit: int) -> Seq<(int, Seq<char>)>
    decreases lines.len(),
{
    if lines.len() == 0 {
        seq![]
    } else {
        let prev = toml_kvs(lines.drop_last(), limit);
        let i = lines.len() - 1;
        if i < limit && !toml_skip(lines.last()) && toml_kv(lines.last()) is Some {
            prev.push((i, toml_kv(lines.last())->0))
        } else {
            prev
        }
    }
}

/// Chunk boundaries of a TOML file in line order: the keys before the first
/// section, then the sections.
pub open spec fn toml_boundaries(lines: Seq<Seq<char>>) -> Seq<(int, Seq<char>)> {
    toml_kvs(lines, first_section_line(lines)) + toml_sections(lines)
}

/// The chunks of a TOML file: one per leading key and one per section.
pub open spec fn spec_chunk_toml(content: Seq<char>, path: Seq<char>) -> Seq<ChunkSpec> {
    key_chunks(lines_of(content), toml_boundaries(lines_of(content)), path)
}

proof fn lemma_first_section(lines: Seq<Seq<char>>)
    ensures
        0 <= first_section_line(lines) <= lines.len(),
        forall|i: int| 0 <= i < first_section_line(lines) ==> toml_section(#[trigger] lines[i]) is None,
        first_section_line(lines) < lines.len() ==> toml_section(lines[first_section_line(lines)]) is Some,
    decreases lines.len(),
{
    if lines.len() > 0 {
        let p = lines.drop_last();
        lemma_first_section(p);
        assert forall|i: int| 0 <= i < first_section_line(lines) implies toml_section(#[trigger] lines[i]) is None by {
            if i < lines.len() - 1 {
                assert(lines[i] == p[i]);
            }
        }
        if first_section_line(p) < lines.len() - 1 {
            assert(lines[first_section_line(p)] == p[first_section_line(p)]);
        }
    }
}

proof fn lemma_toml_sections(lines: Seq<Seq<char>>)
    ensures
        forall|i: int| 0 <= i < toml_sections(lines).len() ==>
            first_section_line(lines) <= #[trigger] toml_sections(lines)[i].0 < lines.len(),
        forall|i: int, j: int| 0 <= i < j < toml_sections(lines).len() ==> toml_sections(lines)[i].0
            < toml_sections(lines)[j].0,
    decreases lines.len(),
{
    if lines.len() > 0 {
        let p = lines.drop_last();
        lemma_toml_sections(p);
        lemma_first_section(p);
        lemma_first_section(lines);
        let s = toml_sections(lines);
        let sp = toml_sections(p);
        if sp.len() > 0 {
            assert(first_section_line(p) <= sp[0].0);
            assert(first_section_line(p) < p.len());
            assert(first_section_line(lines) == first_section_line(p));
        }
        assert forall|i: int| 0 <= i < s.len() implies first_section_line(lines) <= #[trigger] s[i].0 < lines.len() by {
            if i < sp.len() {
                assert(s[i] == sp[i]);
            }
        }
    }
}

proof fn lemma_toml_kvs(lines: Seq<Seq<char>>, limit: int)
    ensures
        forall|i: int| 0 <= i < toml_kvs(lines, limit).len() ==> 0 <= #[trigger] toml_kvs(lines, limit)[i].0
            < lines.len() && toml_kvs(lines, limit)[i].0 < limit,
        forall|i: int, j: int| 0 <= i < j < toml_kvs(lines, limit).len() ==> toml_kvs(lines, limit)[i].0
            < toml_kvs(lines, limit)[j].0,
    decreases lines.len(),
{
    if lines.len() > 0 {
        let p = lines.drop_last();
        lemma_toml_kvs(p, limit);
        let s = toml_kvs(lines, limit);
        let sp = toml_kvs(p, limit);
        assert forall|i: int| 0 <= i < s.len() implies 0 <= #[trigger] s[i].0 < lines.len() && s[i].0 < limit by {
            if i < sp.len() {
                assert(s[i] == sp[i]);
            }
        }
        assert forall|i: int, j: int| 0 <= i < j < s.len() implies s[i].0 < s[j].0 by {
            assert(s[i] == sp[i]);
            if j < sp.len() {
                assert(s[j] == sp[j]);
            }
        }
    }
}

proof fn lemma_toml_boundaries_ok(lines: Seq<Seq<char>>)
    ensures
        boundaries_ok(toml_boundaries(lines), lines.len() as int),
{
    let f = first_section_line(lines);
    lemma_toml_kvs(lines, f);
    lemma_toml_sections(lines);
    lemma_first_section(lines);
    let a = toml_kvs(lines, f);
    let b = toml_sections(lines);
    let all = a + b;
    assert forall|i: int| 0 <= i < all.len() implies 0 <= #[trigger] all[i].0 < lines.len() by {
        if i < a.len() {
            assert(all[i] == a[i]);
        } else {
            assert(all[i] == b[i - a.len()]);
        }
    }
    assert forall|i: int, j: int| 0 <= i < j < all.len() implies all[i].0 < all[j].0 by {
        if j < a.len() {
            assert(all[i] == a[i] && all[j] == a[j]);
        } else if i < a.len() {
            assert(all[i] == a[i] && all[j] == b[j - a.len()]);
        } else {
            assert(all[i] == b[i - a.len()] && all[j] == b[j - a.len()]);
        }
    }
}

fn toml_section_of(line: &[char]) -> (r: Option<Vec<char>>)
    ensures
        r matches Some(k) ==> toml_section(line@) == Some(k@),
        r is None ==> toml_section(line@) is None,
{
    let t = trimmed(line);
    let o1 = to_chars("[");
    let c1 = to_chars("]");
    let o2 = to_chars("[[");
    let c2 = to_chars("]]");
    let t = t.as_slice();
    if (starts_with(t, o1.as_slice()) && ends_with(t, c1.as_slice())) || (starts_with(t, o2.as_slice())
        && ends_with(t, c2.as_slice())) {
        let a = crate::text::strip_leading_char(t, '[');
        let b = crate::text::strip_trailing_char(a.as_slice(), ']');
        let name = trimmed(b.as_slice());
        if name.len() > 0 {
            Some(name)
        } else {
            None
        }
    } else {
        None
    }
}

fn toml_kv_of(line: &[char]) -> (r: Option<Vec<char>>)
    ensures
        r matches Some(k) ==> toml_kv(line@) == Some(k@),
        r is None ==> toml_kv(line@) is None,
{
    if line.len() == 0 || !(char_is_alphabetic(line[0]) || line[0] == '_') {
        return None;
    }
    match first_index_of(line, '=') {
        None => None,
        Some(p) => {
            let key = slice_vec(line, 0, p);
            proof {
                assert(key@ =~= line@.take(p as int));
            }
            if key_chars_only(key.as_slice()) {
                Some(trimmed(key.as_slice()))
            } else {
                None
            }
        },
    }
}

fn toml_skipped(line: &[char]) -> (r: bool)
    ensures
        r == toml_skip(line@),
{
    let t = trimmed(line);
    let hash = to_chars("#");
    t.len() == 0 || starts_with(t.as_slice(), hash.as_slice())
}

/// Splits TOML at its sections and at the keys that come before the first section.
pub fn chunk_toml(content: &str, file_path: &str) -> (r: Vec<TextChunk>)
    ensures
        cv(r@) == spec_chunk_toml(content@, file_path@),
{
    let c = to_chars(content);
    let lines = split_lines(c.as_slice());
    let ghost ls = lines_of(content@);
    let n = lines.len();
    let mut sections: Vec<(usize, Vec<char>)> = Vec::new();
    let mut first = n;
    let mut i: usize = 0;
    proof {
        assert(vv(lines@).len() == lines@.len());
    }
    while i < n
        invariant
            i <= n == lines@.len() == ls.len(),
            vv(lines@) == ls,
            kv(sections@) == toml_sections(ls.take(i as int)),
            first == (if first_section_line(ls.take(i as int)) < i { first_section_line(ls.take(i as int)) } else { n as int }),
        decreases n - i,
    {
        proof {
            assert(ls.take(i as int + 1).drop_last() =~= ls.take(i as int));
            assert(ls.take(i as int + 1).last() == lines@[i as int]@);
            lemma_first_section(ls.take(i as int));
        }
        match toml_section_of(lines[i].as_slice()) {
            Some(name) => {
                if i < first {
                    first = i;
                }
                let ghost nv = name@;
                let ghost prev = sections@;
                sections.push((i, name));
                proof {
                    assert(kv(sections@) =~= kv(prev).push((i as int, nv)));
                }
            },
            None => {},
        }
        i = i + 1;
    }
    proof {
        assert(ls.take(i as int) =~= ls);
        lemma_first_section(ls);
    }
    let mut keys: Vec<(usize, Vec<char>)> = Vec::new();
    let mut i: usize = 0;
    while i < n
        invariant
            i <= n == lines@.len() == ls.len(),
            vv(lines@) == ls,
            first as int == first_section_line(ls),
            kv(keys@) == toml_kvs(ls.take(i as int), first as int),
        decreases n - i,
    {
        proof {
            assert(ls.take(i as int + 1).drop_last() =~= ls.take(i as int));
            assert(ls.take(i as int + 1).last() == lines@[i as int]@);
        }
        if i < first {
            let line = lines[i].as_slice();
            if !toml_skipped(line) {
                match toml_kv_of(line) {
                    Some(k) => {
                        let ghost kval = k@;
                        let ghost prev = keys@;
                        keys.push((i, k));
                        proof {
                            assert(kv(keys@) =~= kv(prev).push((i as int, kval)));
                        }
                    },
                    None => {},
                }
            }
        }
        i = i + 1;
    }
    proof {
        assert(ls.take(i as int) =~= ls);
    }
    let ghost kvs = keys@;
    let mut s: usize = 0;
    while s < sections.len()
        invariant
            s <= sections@.len(),
            kv(keys@) == kv(kvs) + kv(sections@).take(s as int),
        decreases sections@.len() - s,
    {
        let name = slice_vec(sections[s].1.as_slice(), 0, sections[s].1.len());
        proof {
            assert(name@ =~= sections@[s as int].1@);
        }
        let ghost prev = keys@;
        let ghost entry = (sections@[s as int].0 as int, name@);
        keys.push((sections[s].0, name));
        proof {
            assert(kv(keys@) =~= kv(prev).push(entry));
            assert(kv(sections@)[s as int] == entry);
            assert(kv(sections@).take(s as int + 1) =~= kv(sections@).take(s as int).push(entry));
            assert(kv(keys@) =~= kv(kvs) + kv(sections@).take(s as int + 1));
        }
        s = s + 1;
    }
    proof {
        assert(kv(sections@).take(s as int) =~= kv(sections@));
        lemma_toml_boundaries_ok(ls);
    }
    build_key_chunks(&lines, &keys, file_path)
}


/// The name of a paragraph group: its first line, trimmed and cut to 60 bytes.
pub open spec fn spec_paragraph_name(content: Seq<char>) -> Option<Seq<char>> {
    let ls = lines_of(content);
    if ls.len() == 0 {
        None
    } else if trim(ls[0]).len() == 0 {
        None
    } else {
        Some(truncated(trim(ls[0]), 60))
    }
}

fn paragraph_name(content: &[char]) -> (r: Option<Vec<char>>)
    ensures
        r matches Some(n) ==> spec_paragraph_name(content@) == Some(n@),
        r is None ==> spec_paragraph_name(content@) is None,
{
    let ls = split_lines(content);
    if ls.len() == 0 {
        return None;
    }
    proof {
        assert(vv(ls@)[0] == ls@[0]@);
    }
    let first = trimmed(ls[0].as_slice());
    if first.len() == 0 {
        return None;
    }
    Some(truncate_chars(first.as_slice(), 60))
}

/// The first line of `content`, trimmed and cut to 60 bytes, if it is not blank.
pub fn extract_paragraph_name(content: &str) -> (r: Option<String>)
    ensures
        opt_view(r) == spec_paragraph_name(content@),
{
    let c = to_chars(content);
    match paragraph_name(c.as_slice()) {
        Some(n) => Some(from_chars(n.as_slice())),
        None => None,
    }
}

/// The state of the paragraph scan: paragraphs found, the start of the open
/// paragraph, and the run of blank lines just read.
pub struct ParaState {
    pub paras: Seq<(int, int)>,
    pub start: Option<int>,
    pub blanks: int,
}

/// Paragraph scan over `lines`: a paragraph closes at the second of two or
/// more consecutive blank lines, ending at the last line before the blanks.
pub open spec fn para_scan(lines: Seq<Seq<char>>) -> ParaState
    decreases lines.len(),
{
    if lines.len() == 0 {
        ParaState { paras: seq![], start: None, blanks: 0 }
    } else {
        let st = para_scan(lines.drop_last());
        let i = lines.len() - 1;
        if all_ws(lines.last()) {
            let b = st.blanks + 1;
            if b >= 2 && st.start is Some {
                let s = st.start->0;
                let e = if i - b >= s {
                    i - b
                } else {
                    s
                };
                ParaState { paras: st.paras.push((s, e)), start: None, blanks: b }
            } else {
                ParaState { paras: st.paras, start: st.start, blanks: b }
            }
        } else {
            ParaState {
                paras: st.paras,
                start: if st.start is None {
                    Some(i)
                } else {
                    st.start
                },
                blanks: 0,
            }
        }
    }
}

/// The last index in `s..=e` that is not a blank line, or `s`.
pub open spec fn trail_end(lines: Seq<Seq<char>>, s: int, e: int) -> int
    decreases e - s,
{
    if e > s && all_ws(lines[e]) {
        trail_end(lines, s, e - 1)
    } else {
        e
    }
}

/// The paragraphs of a text as line ranges `(first, last)`.
pub open spec fn paragraphs(lines: Seq<Seq<char>>) -> Seq<(int, int)> {
    let st = para_scan(lines);
    match st.start {
        Some(s) => st.paras.push((s, trail_end(lines, s, lines.len() - 1))),
        None => st.paras,
    }
}

/// Ranges within the file and in order.
pub open spec fn ranges_ok(ps: Seq<(int, int)>, n: int) -> bool {
    forall|k: int| 0 <= k < ps.len() ==> 0 <= #[trigger] ps[k].0 <= ps[k].1 < n
}

proof fn lemma_para_scan(lines: Seq<Seq<char>>)
    ensures
        ranges_ok(para_scan(lines).paras, lines.len() as int),
        para_scan(lines).start matches Some(s) ==> 0 <= s < lines.len(),
        para_scan(lines).blanks >= 0,
        para_scan(lines).blanks <= lines.len(),
    decreases lines.len(),
{
    if lines.len() > 0 {
        lemma_para_scan(lines.drop_last());
        let st = para_scan(lines.drop_last());
        let st2 = para_scan(lines);
        assert forall|k: int| 0 <= k < st2.paras.len() implies 0 <= #[trigger] st2.paras[k].0 <= st2.paras[k].1 < lines.len() by {
            if k < st.paras.len() {
                assert(st2.paras[k] == st.paras[k]);
            }
        }
    }
}

proof fn lemma_trail_end(lines: Seq<Seq<char>>, s: int, e: int)
    requires
        s <= e,
    ensures
        s <= trail_end(lines, s, e) <= e,
    decreases e - s,
{
    if e > s && all_ws(lines[e]) {
        lemma_trail_end(lines, s, e - 1);
    }
}

proof fn lemma_paragraphs(lines: Seq<Seq<char>>)
    ensures
        ranges_ok(paragraphs(lines), lines.len() as int),
{
    lemma_para_scan(lines);
    let st = para_scan(lines);
    if let Some(s) = st.start {
        lemma_trail_end(lines, s, lines.len() - 1);
        let ps = paragraphs(lines);
        assert forall|k: int| 0 <= k < ps.len() implies 0 <= #[trigger] ps[k].0 <= ps[k].1 < lines.len() by {
            if k < st.paras.len() {
                assert(ps[k] == st.paras[k]);
            }
        }
    }
}

/// The state of paragraph grouping: chunks emitted, and the open group's
/// first line, last line and text.
pub struct GroupState {
    pub chunks: Seq<ChunkSpec>,
    pub gs: int,
    pub ge: int,
    pub gc: Seq<char>,
}

/// Text of paragraph `p`.
pub open spec fn para_text(lines: Seq<Seq<char>>, p: (int, int)) -> Seq<char> {
    section(lines, p.0, p.1)
}

/// A paragraph chunk from line `gs` to line `ge` (0-based) with text `gc`.
pub open spec fn para_chunk(path: Seq<char>, gs: int, ge: int, gc: Seq<char>) -> ChunkSpec {
    mk_chunk(path, gs + 1, ge + 1, ChunkKind::Paragraph, spec_paragraph_name(gc), gc)
}

/// Groups paragraphs: while the open group is under `MIN_PARAGRAPH_SIZE`
/// bytes the next paragraph joins it (after a blank line); otherwise the
/// group becomes a chunk and the paragraph opens the next group.
pub open spec fn group_scan(lines: Seq<Seq<char>>, ps: Seq<(int, int)>, path: Seq<char>) -> GroupState
    decreases ps.len(),
{
    if ps.len() <= 1 {
        GroupState { chunks: seq![], gs: ps[0].0, ge: ps[0].1, gc: para_text(lines, ps[0]) }
    } else {
        let st = group_scan(lines, ps.drop_last(), path);
        let p = ps.last();
        if utf8_len(st.gc) < MIN_PARAGRAPH_SIZE {
            GroupState {
                chunks: st.chunks,
                gs: st.gs,
                ge: p.1,
                gc: st.gc + seq!['\n', '\n'] + para_text(lines, p),
            }
        } else {
            GroupState {
                chunks: st.chunks.push(para_chunk(path, st.gs, st.ge, st.gc)),
                gs: p.0,
                ge: p.1,
                gc: para_text(lines, p),
            }
        }
    }
}

/// The chunks of plain text: groups of paragraphs, a short last group merged
/// into the chunk before it.
pub open spec fn spec_chunk_plaintext(content: Seq<char>, path: Seq<char>) -> Seq<ChunkSpec> {
    let lines = lines_of(content);
    let ps = paragraphs(lines);
    if ps.len() == 0 {
        seq![]
    } else {
        let st = group_scan(lines, ps, path);
        if utf8_len(st.gc) < MIN_PARAGRAPH_SIZE && st.chunks.len() > 0 {
            let last = st.chunks.last();
            st.chunks.update(
                st.chunks.len() - 1,
                mk_chunk(
                    last.file_path,
                    last.start_line,
                    st.ge + 1,
                    last.kind,
                    last.name,
                    last.content + seq!['\n', '\n'] + st.gc,
                ),
            )
        } else {
            st.chunks.push(para_chunk(path, st.gs, st.ge, st.gc))
        }
    }
}

/// Splits plain text into paragraph groups.
pub fn chunk_plaintext(content: &str, file_path: &str) -> (r: Vec<TextChunk>)
    ensures
        cv(r@) == spec_chunk_plaintext(content@, file_path@),
{
    let c = to_chars(content);
    let lines = split_lines(c.as_slice());
    let ghost ls = lines_of(content@);
    let n = lines.len();
    proof {
        assert(vv(lines@).len() == lines@.len());
    }
    let mut paras: Vec<(usize, usize)> = Vec::new();
    let mut para_start: Option<usize> = None;
    let mut blanks: usize = 0;
    let mut i: usize = 0;
    while i < n
        invariant
            i <= n == lines@.len() == ls.len(),
            vv(lines@) == ls,
            paras@.map_values(|p: (usize, usize)| (p.0 as int, p.1 as int)) == para_scan(ls.take(i as int)).paras,
            para_start matches Some(s) ==> para_scan(ls.take(i as int)).start == Some(s as int),
            para_start is None ==> para_scan(ls.take(i as int)).start is None,
            blanks as int == para_scan(ls.take(i as int)).blanks,
            blanks <= i,
        decreases n - i,
    {
        proof {
            assert(ls.take(i as int + 1).drop_last() =~= ls.take(i as int));
            assert(ls.take(i as int + 1).last() == lines@[i as int]@);
            lemma_para_scan(ls.take(i as int));
        }
        let ghost before = paras@;
        if is_blank(lines[i].as_slice()) {
            blanks = blanks + 1;
            if blanks >= 2 {
                match para_start {
                    Some(start) => {
                        let sub = if i >= blanks { i - blanks } else { 0 };
                        let para_end = if sub >= start { sub } else { start };
                        paras.push((start, para_end));
                        para_start = None;
                        proof {
                            assert(paras@.map_values(|p: (usize, usize)| (p.0 as int, p.1 as int)) =~= before.map_values(
                                |p: (usize, usize)| (p.0 as int, p.1 as int),
                            ).push((start as int, para_end as int)));
                        }
                    },
                    None => {},
                }
            }
        } else {
            if para_start.is_none() {
                para_start = Some(i);
            }
            blanks = 0;
        }
        i = i + 1;
    }
    proof {
        assert(ls.take(i as int) =~= ls);
        lemma_para_scan(ls);
    }
    match para_start {
        Some(start) => {
            let mut end = n - 1;
            while end > start && is_blank(lines[end].as_slice())
                invariant
                    start <= end < n == lines@.len() == ls.len(),
                    vv(lines@) == ls,
                    trail_end(ls, start as int, n - 1) == trail_end(ls, start as int, end as int),
                decreases end,
            {
                proof {
                    assert(ls[end as int] == lines@[end as int]@);
                }
                end = end - 1;
            }
            proof {
                if end > start {
                    assert(ls[end as int] == lines@[end as int]@);
                }
            }
            let ghost before = paras@;
            paras.push((start, end));
            proof {
                assert(paras@.map_values(|p: (usize, usize)| (p.0 as int, p.1 as int)) =~= before.map_values(
                    |p: (usize, usize)| (p.0 as int, p.1 as int),
                ).push((start as int, end as int)));
            }
        },
        None => {},
    }
    let ghost ps = paragraphs(ls);
    proof {
        lemma_paragraphs(ls);
        assert(paras@.map_values(|p: (usize, usize)| (p.0 as int, p.1 as int)) == ps);
    }
    if paras.len() == 0 {
        return Vec::new();
    }
    group_paragraphs(&lines, &paras, file_path)
}

fn group_paragraphs(lines: &Vec<Vec<char>>, paras: &Vec<(usize, usize)>, file_path: &str) -> (r: Vec<TextChunk>)
    requires
        paras@.len() > 0,
        ranges_ok(paras@.map_values(|p: (usize, usize)| (p.0 as int, p.1 as int)), lines@.len() as int),
    ensures
        ({
            let ls = vv(lines@);
            let ps = paras@.map_values(|p: (usize, usize)| (p.0 as int, p.1 as int));
            let st = group_scan(ls, ps, file_path@);
            cv(r@) == (if utf8_len(st.gc) < MIN_PARAGRAPH_SIZE && st.chunks.len() > 0 {
                let last = st.chunks.last();
                st.chunks.update(
                    st.chunks.len() - 1,
                    mk_chunk(
                        last.file_path,
                        last.start_line,
                        st.ge + 1,
                        last.kind,
                        last.name,
                        last.content + seq!['\n', '\n'] + st.gc,
                    ),
                )
            } else {
                st.chunks.push(para_chunk(file_path@, st.gs, st.ge, st.gc))
            })
        }),
{
    let ghost ls = vv(lines@);
    let ghost ps = paras@.map_values(|p: (usize, usize)| (p.0 as int, p.1 as int));
    proof {
        assert(ps[0] == (paras@[0].0 as int, paras@[0].1 as int));
        assert(ps.take(1).len() == 1);
        assert(ps.take(1)[0] == ps[0]);
    }
    let mut chunks: Vec<TextChunk> = Vec::new();
    let mut gs = paras[0].0;
    let mut ge = paras[0].1;
    let mut gc = section_text(lines, gs, ge);
    let nl = lines.len();
    let mut k: usize = 1;
    while k < paras.len()
        invariant
            1 <= k <= paras@.len(),
            ls == vv(lines@),
            ps == paras@.map_values(|p: (usize, usize)| (p.0 as int, p.1 as int)),
            ranges_ok(ps, lines@.len() as int),
            cv(chunks@) == group_scan(ls, ps.take(k as int), file_path@).chunks,
            gs as int == group_scan(ls, ps.take(k as int), file_path@).gs,
            ge as int == group_scan(ls, ps.take(k as int), file_path@).ge,
            gc@ == group_scan(ls, ps.take(k as int), file_path@).gc,
            gs < nl,
            ge < nl,
            nl == lines@.len(),
        decreases paras@.len() - k,
    {
        let p = paras[k];
        proof {
            assert(ps.take(k as int + 1).drop_last() =~= ps.take(k as int));
            assert(ps.take(k as int + 1).last() == ps[k as int]);
            assert(ps[k as int] == (p.0 as int, p.1 as int));
            assert(0 <= ps[k as int].0 <= ps[k as int].1 < lines@.len());
        }
        let text = section_text(lines, p.0, p.1);
        if byte_len(gc.as_slice()) < MIN_PARAGRAPH_SIZE as u128 {
            ge = p.1;
            push_all(&mut gc, &['\n', '\n']);
            push_all(&mut gc, text.as_slice());
        } else {
            let name = match paragraph_name(gc.as_slice()) {
                Some(nm) => Some(from_chars(nm.as_slice())),
                None => None,
            };
            let chunk = TextChunk {
                file_path: owned(file_path),
                start_line: gs + 1,
                end_line: ge + 1,
                kind: ChunkKind::Paragraph,
                name,
                content: from_chars(gc.as_slice()),
            };
            let ghost cs = chunk@;
            let ghost prev = chunks@;
            chunks.push(chunk);
            proof {
                assert(cv(chunks@) =~= cv(prev).push(cs));
            }
            gs = p.0;
            ge = p.1;
            gc = text;
        }
        k = k + 1;
    }
    proof {
        assert(ps.take(k as int) =~= ps);
    }
    if byte_len(gc.as_slice()) < MIN_PARAGRAPH_SIZE as u128 && chunks.len() > 0 {
        let last = chunks.pop().unwrap();
        let mut content = to_chars(last.content.as_str());
        push_all(&mut content, &['\n', '\n']);
        push_all(&mut content, gc.as_slice());
        let merged = TextChunk {
            file_path: last.file_path,
            start_line: last.start_line,
            end_line: ge + 1,
            kind: last.kind,
            name: last.name,
            content: from_chars(content.as_slice()),
        };
        let ghost ms = merged@;
        let ghost prev = chunks@;
        chunks.push(merged);
        proof {
            assert(cv(chunks@) =~= cv(prev).push(ms));
        }
        chunks
    } else {
        let name = match paragraph_name(gc.as_slice()) {
            Some(nm) => Some(from_chars(nm.as_slice())),
            None => None,
        };
        let chunk = TextChunk {
            file_path: owned(file_path),
            start_line: gs + 1,
            end_line: ge + 1,
            kind: ChunkKind::Paragraph,
            name,
            content: from_chars(gc.as_slice()),
        };
        let ghost cs = chunk@;
        let ghost prev = chunks@;
        chunks.push(chunk);
        proof {
            assert(cv(chunks@) =~= cv(prev).push(cs));
        }
        chunks
    }
}


/// The number of leading `c` characters of `s`.
pub open spec fn leading_count(s: Seq<char>, c: char) -> nat
    decreases s.len(),
{
    if s.len() > 0 && s[0] == c {
        1 + leading_count(s.drop_first(), c)
    } else {
        0
    }
}

/// A Markdown heading line: after leading whitespace, one to six `#` then
/// non-blank text. Gives the level and the text with leading whitespace removed.
pub open spec fn heading_of(line: Seq<char>) -> Option<(int, Seq<char>)> {
    let t = trim_start(line);
    let hc = leading_count(t, '#');
    if has_prefix(t, "#"@) && hc <= 6 && trim_start(t.skip(hc as int)).len() > 0 {
        Some((hc as int, trim_start(t.skip(hc as int))))
    } else {
        None
    }
}

/// The headings of a Markdown file: line index, level, text.
pub open spec fn headings(lines: Seq<Seq<char>>) -> Seq<(int, int, Seq<char>)>
    decreases lines.len(),
{
    if lines.len() == 0 {
        seq![]
    } else {
        let prev = headings(lines.drop_last());
        match heading_of(lines.last()) {
            Some((lv, tx)) => prev.push((lines.len() - 1, lv, tx)),
            None => prev,
        }
    }
}

/// The first heading after heading `i` whose level is the same or higher (a
/// number no greater than its own).
pub open spec fn next_peer(hs: Seq<(int, int, Seq<char>)>, i: int) -> Option<int> {
    if exists|j: int| i < j < hs.len() && #[trigger] hs[j].1 <= hs[i].1 {
        Some(
            choose|j: int|
                i < j < hs.len() && #[trigger] hs[j].1 <= hs[i].1 && forall|k: int|
                    i < k < j ==> hs[k].1 > hs[i].1,
        )
    } else {
        None
    }
}

/// The section chunk of heading `i`: from its line to the line before the next
/// heading of the same or higher level, or to the end of the file.
pub open spec fn heading_chunk(
    lines: Seq<Seq<char>>,
    hs: Seq<(int, int, Seq<char>)>,
    i: int,
    path: Seq<char>,
) -> ChunkSpec {
    let start = hs[i].0;
    let end = match next_peer(hs, i) {
        Some(j) => hs[j].0 - 1,
        None => lines.len() - 1,
    };
    mk_chunk(path, start + 1, end + 1, ChunkKind::HeadingSection, Some(hs[i].2), section(lines, start, end))
}

/// The chunks of a Markdown file: a preamble before the first heading when it
/// is not blank, then one section per heading; without headings, as plain text.
pub open spec fn spec_chunk_markdown(content: Seq<char>, path: Seq<char>) -> Seq<ChunkSpec> {
    let lines = lines_of(content);
    let hs = headings(lines);
    if hs.len() == 0 {
        spec_chunk_plaintext(content, path)
    } else {
        let pre: Seq<ChunkSpec> = if hs[0].0 > 0 && !all_ws(section(lines, 0, hs[0].0 - 1)) {
            seq![
                mk_chunk(
                    path,
                    1,
                    hs[0].0,
                    ChunkKind::HeadingSection,
                    None,
                    section(lines, 0, hs[0].0 - 1),
                ),
            ]
        } else {
            seq![]
        };
        pre + Seq::new(hs.len(), |i: int| heading_chunk(lines, hs, i, path))
    }
}

proof fn lemma_headings(lines: Seq<Seq<char>>)
    ensures
        forall|i: int| 0 <= i < headings(lines).len() ==> 0 <= #[trigger] headings(lines)[i].0 < lines.len(),
        forall|i: int, j: int| 0 <= i < j < headings(lines).len() ==> headings(lines)[i].0 < headings(lines)[j].0,
    decreases lines.len(),
{
    if lines.len() > 0 {
        let p = lines.drop_last();
        lemma_headings(p);
        let s = headings(lines);
        let sp = headings(p);
        assert forall|i: int| 0 <= i < s.len() implies 0 <= #[trigger] s[i].0 < lines.len() by {
            if i < sp.len() {
                assert(s[i] == sp[i]);
            }
        }
        assert forall|i: int, j: int| 0 <= i < j < s.len() implies s[i].0 < s[j].0 by {
            assert(s[i] == sp[i]);
            if j < sp.len() {
                assert(s[j] == sp[j]);
            }
        }
    }
}

fn heading_line(line: &[char]) -> (r: Option<(usize, Vec<char>)>)
    ensures
        r matches Some((lv, tx)) ==> heading_of(line@) == Some((lv as int, tx@)),
        r is None ==> heading_of(line@) is None,
{
    let (a, _b) = trim_bounds(line);
    let t = slice_vec(line, a, line.len());
    let hash = to_chars("#");
    if !starts_with(t.as_slice(), hash.as_slice()) {
        return None;
    }
    let mut hc: usize = 0;
    proof {
        assert(t@.skip(0) =~= t@);
    }
    while hc < t.len() && t[hc] == '#'
        invariant
            hc <= t@.len(),
            leading_count(t@, '#') == hc + leading_count(t@.skip(hc as int), '#'),
        decreases t@.len() - hc,
    {
        proof {
            assert(t@.skip(hc as int).drop_first() =~= t@.skip(hc as int + 1));
        }
        hc = hc + 1;
    }
    proof {
        if hc < t@.len() {
            assert(t@.skip(hc as int)[0] == t@[hc as int]);
        }
        assert(leading_count(t@.skip(hc as int), '#') == 0);
    }
    if hc > 6 {
        return None;
    }
    let rest = slice_vec(t.as_slice(), hc, t.len());
    let (ra, _rb) = trim_bounds(rest.as_slice());
    let text = slice_vec(rest.as_slice(), ra, rest.len());
    proof {
        assert(rest@ =~= t@.skip(hc as int));
    }
    if text.len() == 0 {
        return None;
    }
    Some((hc, text))
}

/// Splits Markdown into heading sections.
#[verifier::spinoff_prover]
#[verifier::rlimit(40)]
pub fn chunk_markdown(content: &str, file_path: &str) -> (r: Vec<TextChunk>)
    ensures
        cv(r@) == spec_chunk_markdown(content@, file_path@),
{
    let c = to_chars(content);
    let lines = split_lines(c.as_slice());
    let ghost ls = lines_of(content@);
    let n = lines.len();
    proof {
        assert(vv(lines@).len() == lines@.len());
    }
    let mut hs: Vec<(usize, usize, Vec<char>)> = Vec::new();
    let mut i: usize = 0;
    while i < n
        invariant
            i <= n == lines@.len() == ls.len(),
            vv(lines@) == ls,
            hs@.map_values(|h: (usize, usize, Vec<char>)| (h.0 as int, h.1 as int, h.2@)) == headings(ls.take(i as int)),
        decreases n - i,
    {
        proof {
            assert(ls.take(i as int + 1).drop_last() =~= ls.take(i as int));
            assert(ls.take(i as int + 1).last() == lines@[i as int]@);
        }
        match heading_line(lines[i].as_slice()) {
            Some((lv, tx)) => {
                let ghost tv = tx@;
                let ghost prev = hs@;
                hs.push((i, lv, tx));
                proof {
                    assert(hs@.map_values(|h: (usize, usize, Vec<char>)| (h.0 as int, h.1 as int, h.2@)) =~= prev.map_values(
                        |h: (usize, usize, Vec<char>)| (h.0 as int, h.1 as int, h.2@),
                    ).push((i as int, lv as int, tv)));
                }
            },
            None => {},
        }
        i = i + 1;
    }
    let ghost hsv = headings(ls);
    proof {
        assert(ls.take(i as int) =~= ls);
        lemma_headings(ls);
    }
    if hs.len() == 0 {
        return chunk_plaintext(content, file_path);
    }
    let mut chunks: Vec<TextChunk> = Vec::new();
    proof {
        assert(hsv[0].0 == hs@[0].0 as int);
    }
    let h0 = hs[0].0;
    if h0 > 0 {
        let pre = section_text(&lines, 0, h0 - 1);
        if !is_blank(pre.as_slice()) {
            chunks.push(TextChunk {
                file_path: owned(file_path),
                start_line: 1,
                end_line: h0,
                kind: ChunkKind::HeadingSection,
                name: None,
                content: from_chars(pre.as_slice()),
            });
        }
    }
    let ghost pre_spec = cv(chunks@);
    let ghost body = Seq::new(hsv.len(), |k: int| heading_chunk(ls, hsv, k, file_path@));
    let m = hs.len();
    let mut i: usize = 0;
    while i < m
        invariant
            i <= m == hs@.len() == hsv.len(),
            n == lines@.len() == ls.len(),
            vv(lines@) == ls,
            hsv == headings(ls),
            hs@.map_values(|h: (usize, usize, Vec<char>)| (h.0 as int, h.1 as int, h.2@)) == hsv,
            forall|a: int| 0 <= a < hsv.len() ==> 0 <= #[trigger] hsv[a].0 < ls.len(),
            forall|a: int, b: int| 0 <= a < b < hsv.len() ==> hsv[a].0 < hsv[b].0,
            body == Seq::new(hsv.len(), |k: int| heading_chunk(ls, hsv, k, file_path@)),
            cv(chunks@) == pre_spec + body.take(i as int),
        decreases m - i,
    {
        proof {
            assert(hsv[i as int] == (hs@[i as int].0 as int, hs@[i as int].1 as int, hs@[i as int].2@));
        }
        let start = hs[i].0;
        let level = hs[i].1;
        let mut j: usize = i + 1;
        let mut found = false;
        while j < m
            invariant_except_break
                !found,
            invariant
                i < j <= m == hs@.len() == hsv.len(),
                hs@.map_values(|h: (usize, usize, Vec<char>)| (h.0 as int, h.1 as int, h.2@)) == hsv,
                level as int == hsv[i as int].1,
                forall|k: int| i < k < j ==> hsv[k].1 > hsv[i as int].1,
            ensures
                found ==> j < m && hsv[j as int].1 <= hsv[i as int].1,
                !found ==> j == m,
            decreases m - j,
        {
            proof {
                assert(hsv[j as int].1 == hs@[j as int].1 as int);
            }
            if hs[j].1 <= level {
                found = true;
                break;
            }
            j = j + 1;
        }
        proof {
            if found {
                assert(hsv[j as int].1 <= hsv[i as int].1);
                let jj = choose|jj: int| i < jj < hsv.len() && #[trigger] hsv[jj].1 <= hsv[i as int].1 && forall|k: int|
                    i < k < jj ==> hsv[k].1 > hsv[i as int].1;
                assert(i < j < hsv.len() && hsv[j as int].1 <= hsv[i as int].1 && forall|k: int|
                    i < k < j ==> hsv[k].1 > hsv[i as int].1);
                if jj < j {
                    assert(hsv[jj].1 > hsv[i as int].1);
                } else if jj > j {
                    assert(hsv[j as int].1 > hsv[i as int].1);
                }
                assert(next_peer(hsv, i as int) == Some(j as int));
                assert(hsv[j as int].0 == hs@[j as int].0 as int);
                assert(hsv[i as int].0 < hsv[j as int].0);
            } else {
                assert(j == m);
                assert(!exists|jj: int| i < jj < hsv.len() && #[trigger] hsv[jj].1 <= hsv[i as int].1);
                assert(next_peer(hsv, i as int) is None);
            }
        }
        let end = if found {
            hs[j].0 - 1
        } else {
            n - 1
        };
        let text = section_text(&lines, start, end);
        let chunk = TextChunk {
            file_path: owned(file_path),
            start_line: start + 1,
            end_line: end + 1,
            kind: ChunkKind::HeadingSection,
            name: Some(from_chars(hs[i].2.as_slice())),
            content: from_chars(text.as_slice()),
        };
        let ghost cs = chunk@;
        let ghost prev = chunks@;
        chunks.push(chunk);
        proof {
            assert(cs == body[i as int]);
            assert(cv(chunks@) =~= cv(prev).push(cs));
            assert(body.take(i as int + 1) =~= body.take(i as int).push(cs));
            assert(cv(chunks@) =~= pre_spec + body.take(i as int + 1));
        }
        i = i + 1;
    }
    proof {
        assert(body.take(m as int) =~= body);
        crate::text::lemma_trim_empty_iff_all_ws(section(ls, 0, hsv[0].0 - 1));
    }
    chunks
}


/// The name of part `part` of a split chunk: the original name, then the name
/// followed by `" (cont.)"`.
pub open spec fn part_name(name: Option<Seq<char>>, part: int) -> Option<Seq<char>> {
    if part == 0 {
        name
    } else {
        match name {
            Some(n) => Some(n + " (cont.)"@),
            None => None,
        }
    }
}

/// Where a full buffer of lines is cut: at the last blank line after the first
/// line, or after all of it.
pub open spec fn split_point(cur: Seq<Seq<char>>) -> int {
    if exists|j: int| 1 <= j < cur.len() && all_ws(#[trigger] cur[j]) {
        choose|j: int| 1 <= j < cur.len() && all_ws(#[trigger] cur[j]) && forall|k: int| j < k < cur.len() ==> !all_ws(cur[k])
    } else {
        cur.len() as int
    }
}

/// The state of splitting an oversized chunk: parts emitted, buffered lines,
/// buffered size in bytes, first line number of the buffer, parts emitted so far.
pub struct SplitState {
    pub subs: Seq<ChunkSpec>,
    pub cur: Seq<Seq<char>>,
    pub size: int,
    pub start: int,
    pub part: int,
}

/// Lines are buffered while they fit in `MAX_CHUNK_SIZE` bytes (each counted
/// with its newline); when the next line does not fit, the buffer is cut at
/// `split_point`, the front becomes a part, and the rest stays with the new line.
pub open spec fn split_scan(c: ChunkSpec, lines: Seq<Seq<char>>) -> SplitState
    decreases lines.len(),
{
    if lines.len() == 0 {
        SplitState { subs: seq![], cur: seq![], size: 0, start: c.start_line, part: 0 }
    } else {
        let st = split_scan(c, lines.drop_last());
        let line = lines.last();
        let line_size = utf8_len(line) + 1;
        if st.size + line_size > MAX_CHUNK_SIZE && st.cur.len() > 0 {
            let sp = split_point(st.cur);
            let emit_end = st.start + sp - 1;
            let cur = st.cur.skip(sp).push(line);
            SplitState {
                subs: st.subs.push(
                    mk_chunk(
                        c.file_path,
                        st.start,
                        emit_end,
                        c.kind,
                        part_name(c.name, st.part),
                        join(st.cur.take(sp), seq!['\n']),
                    ),
                ),
                cur,
                size: utf8_len(join(cur, seq!['\n'])) as int,
                start: emit_end + 1,
                part: st.part + 1,
            }
        } else {
            SplitState {
                subs: st.subs,
                cur: st.cur.push(line),
                size: st.size + line_size,
                start: st.start,
                part: st.part,
            }
        }
    }
}

/// The parts of a chunk after size enforcement: the chunk itself when it is
/// within `MAX_CHUNK_SIZE` bytes, otherwise its line-wise split.
pub open spec fn spec_enforce_max_size(c: ChunkSpec) -> Seq<ChunkSpec> {
    if utf8_len(c.content) <= MAX_CHUNK_SIZE {
        seq![c]
    } else {
        let st = split_scan(c, lines_of(c.content));
        let subs = if st.cur.len() > 0 {
            st.subs.push(
                mk_chunk(c.file_path, st.start, c.end_line, c.kind, part_name(c.name, st.part), join(st.cur, seq!['\n'])),
            )
        } else {
            st.subs
        };
        if subs.len() == 0 {
            seq![c]
        } else {
            subs
        }
    }
}

proof fn lemma_split_scan(c: ChunkSpec, lines: Seq<Seq<char>>)
    ensures
        split_scan(c, lines).start + split_scan(c, lines).cur.len() <= c.start_line + lines.len(),
        split_scan(c, lines).start >= c.start_line,
        split_scan(c, lines).part >= 0,
        split_scan(c, lines).part <= lines.len(),
    decreases lines.len(),
{
    if lines.len() > 0 {
        lemma_split_scan(c, lines.drop_last());
        let st = split_scan(c, lines.drop_last());
        let sp = split_point(st.cur);
        if st.cur.len() > 0 {
            if exists|j: int| 1 <= j < st.cur.len() && all_ws(#[trigger] st.cur[j]) {
                let j = choose|j: int| 1 <= j < st.cur.len() && all_ws(#[trigger] st.cur[j]) && forall|k: int| j < k < st.cur.len() ==> !all_ws(st.cur[k]);
                assert(1 <= sp <= st.cur.len()) by {
                    let w = choose|j: int| 1 <= j < st.cur.len() && all_ws(#[trigger] st.cur[j]);
                    lemma_last_blank(st.cur, w);
                }
            }
            assert(1 <= sp <= st.cur.len());
        }
    }
}

/// A last blank line exists when some blank line does.
proof fn lemma_last_blank(cur: Seq<Seq<char>>, w: int)
    requires
        1 <= w < cur.len(),
        all_ws(cur[w]),
    ensures
        exists|j: int| 1 <= j < cur.len() && all_ws(#[trigger] cur[j]) && forall|k: int| j < k < cur.len() ==> !all_ws(cur[k]),
    decreases cur.len() - w,
{
    if exists|k: int| w < k < cur.len() && all_ws(#[trigger] cur[k]) {
        let k = choose|k: int| w < k < cur.len() && all_ws(#[trigger] cur[k]);
        lemma_last_blank(cur, k);
    } else {
        assert(forall|k: int| w < k < cur.len() ==> !all_ws(#[trigger] cur[k]));
    }
}

fn part_name_of(name: &Option<String>, part: usize) -> (r: Option<String>)
    ensures
        opt_view(r) == part_name(opt_view(*name), part as int),
{
    match name {
        Some(nm) => {
            let mut t = owned(nm.as_str());
            if part != 0 {
                t.append(" (cont.)");
            }
            Some(t)
        },
        None => None,
    }
}

/// Splits a chunk larger than `MAX_CHUNK_SIZE` bytes into consecutive parts.
#[verifier::spinoff_prover]
#[verifier::rlimit(40)]
pub fn enforce_max_size(chunk: TextChunk) -> (r: Vec<TextChunk>)
    requires
        chunk.start_line + lines_of(chunk.content@).len() <= usize::MAX,
    ensures
        cv(r@) == spec_enforce_max_size(chunk@),
{
    let content = to_chars(chunk.content.as_str());
    if byte_len(content.as_slice()) <= MAX_CHUNK_SIZE as u128 {
        return vec![chunk];
    }
    let ghost c = chunk@;
    let lines = split_lines(content.as_slice());
    let ghost ls = lines_of(chunk.content@);
    let n = lines.len();
    proof {
        assert(vv(lines@).len() == lines@.len());
    }
    let nl: Vec<char> = vec!['\n'];
    proof {
        assert(nl@ =~= seq!['\n']);
    }
    let mut subs: Vec<TextChunk> = Vec::new();
    let mut cur: Vec<Vec<char>> = Vec::new();
    let mut size: u128 = 0;
    let mut start: usize = chunk.start_line;
    let mut part: usize = 0;
    let mut i: usize = 0;
    while i < n
        invariant
            i <= n == lines@.len() == ls.len(),
            vv(lines@) == ls,
            c == chunk@,
            chunk.start_line + ls.len() <= usize::MAX,
            cv(subs@) == split_scan(c, ls.take(i as int)).subs,
            vv(cur@) == split_scan(c, ls.take(i as int)).cur,
            size as int == split_scan(c, ls.take(i as int)).size,
            start as int == split_scan(c, ls.take(i as int)).start,
            part as int == split_scan(c, ls.take(i as int)).part,
            size <= 4 * 0x1_0000_0000_0000_0000u128 + 8000,
            cur@.len() == 0 ==> size == 0,
            nl@ == seq!['\n'],
        decreases n - i,
    {
        proof {
            assert(ls.take(i as int + 1).drop_last() =~= ls.take(i as int));
            assert(ls.take(i as int + 1).last() == lines@[i as int]@);
            lemma_split_scan(c, ls.take(i as int));
        }
        let line_size = byte_len(lines[i].as_slice()) + 1;
        proof {
            crate::text::lemma_utf8_len_bounds(lines@[i as int]@);
            assert(lines@[i as int]@.len() <= usize::MAX);
        }
        if size + line_size > MAX_CHUNK_SIZE as u128 && cur.len() > 0 {
            let ghost st = split_scan(c, ls.take(i as int));
            let mut split_at = cur.len();
            let mut j = cur.len() - 1;
            let mut found = false;
            while j >= 1
                invariant_except_break
                    !found,
                invariant
                    0 <= j < cur@.len(),
                    vv(cur@) == st.cur,
                    split_at == cur@.len(),
                    forall|k: int| j < k < cur@.len() ==> !all_ws(#[trigger] st.cur[k]),
                ensures
                    found ==> 1 <= j < cur@.len() && all_ws(st.cur[j as int]),
                    !found ==> j == 0,
                decreases j,
            {
                proof {
                    assert(st.cur[j as int] == cur@[j as int]@);
                }
                if is_blank(cur[j].as_slice()) {
                    found = true;
                    break;
                }
                j = j - 1;
            }
            if found {
                split_at = j;
            }
            proof {
                if found {
                    lemma_last_blank(st.cur, j as int);
                    let jj = choose|jj: int| 1 <= jj < st.cur.len() && all_ws(#[trigger] st.cur[jj]) && forall|k: int| jj < k < st.cur.len() ==> !all_ws(st.cur[k]);
                    if jj < j {
                        assert(!all_ws(st.cur[j as int]));
                    } else if jj > j {
                        assert(!all_ws(st.cur[jj]));
                    }
                    assert(split_point(st.cur) == j as int);
                } else {
                    assert(!exists|jj: int| 1 <= jj < st.cur.len() && all_ws(#[trigger] st.cur[jj]));
                    assert(split_point(st.cur) == st.cur.len());
                }
            }
            let emit = crate::text::join_range(&cur, 0, split_at, nl.as_slice());
            let emit_end = start + split_at - 1;
            let name = part_name_of(&chunk.name, part);
            let sub = TextChunk {
                file_path: owned(chunk.file_path.as_str()),
                start_line: start,
                end_line: emit_end,
                kind: chunk.kind,
                name,
                content: from_chars(emit.as_slice()),
            };
            let ghost cs = sub@;
            let ghost prev = subs@;
            subs.push(sub);
            proof {
                assert(vv(cur@).subrange(0, split_at as int) =~= st.cur.take(split_at as int));
                assert(emit@ == join(st.cur.take(split_at as int), seq!['\n']));
                assert(cs.content == join(st.cur.take(split_at as int), seq!['\n']));
                assert(cs.name == part_name(c.name, st.part));
                assert(cs.start_line == st.start);
                assert(cs.end_line == st.start + split_point(st.cur) - 1);
                assert(cs == mk_chunk(c.file_path, st.start, emit_end as int, c.kind, part_name(c.name, st.part), join(st.cur.take(split_at as int), seq!['\n'])));
                assert(cv(subs@) =~= cv(prev).push(cs));
            }
            part = part + 1;
            let mut rest: Vec<Vec<char>> = Vec::new();
            let mut k = split_at;
            while k < cur.len()
                invariant
                    split_at <= k <= cur@.len(),
                    vv(rest@) == vv(cur@).subrange(split_at as int, k as int),
                decreases cur@.len() - k,
            {
                let piece = slice_vec(cur[k].as_slice(), 0, cur[k].len());
                proof {
                    assert(piece@ =~= cur@[k as int]@);
                }
                let ghost rp = rest@;
                rest.push(piece);
                proof {
                    assert(vv(rest@) =~= vv(rp).push(piece@));
                    assert(vv(cur@).subrange(split_at as int, k as int + 1) =~= vv(cur@).subrange(split_at as int, k as int).push(cur@[k as int]@));
                }
                k = k + 1;
            }
            let line = slice_vec(lines[i].as_slice(), 0, lines[i].len());
            proof {
                assert(line@ =~= lines@[i as int]@);
            }
            let ghost rp = rest@;
            rest.push(line);
            proof {
                assert(vv(rest@) =~= vv(rp).push(line@));
                assert(vv(cur@).subrange(split_at as int, cur@.len() as int) =~= st.cur.skip(split_at as int));
            }
            cur = rest;
            let joined = crate::text::join_range(&cur, 0, cur.len(), nl.as_slice());
            proof {
                assert(vv(cur@).subrange(0, cur@.len() as int) =~= vv(cur@));
                crate::text::lemma_utf8_len_bounds(joined@);
            }
            size = byte_len(joined.as_slice());
            start = emit_end + 1;

        } else {
            let line = slice_vec(lines[i].as_slice(), 0, lines[i].len());
            proof {
                assert(line@ =~= lines@[i as int]@);
            }
            let ghost cp = cur@;
            cur.push(line);
            proof {
                assert(vv(cur@) =~= vv(cp).push(line@));
            }
            size = size + line_size;
        }
        i = i + 1;
    }
    proof {
        assert(ls.take(i as int) =~= ls);
    }
    if cur.len() > 0 {
        let name = part_name_of(&chunk.name, part);
        let joined = crate::text::join_range(&cur, 0, cur.len(), nl.as_slice());
        proof {
            assert(vv(cur@).subrange(0, cur@.len() as int) =~= vv(cur@));
        }
        let sub = TextChunk {
            file_path: owned(chunk.file_path.as_str()),
            start_line: start,
            end_line: chunk.end_line,
            kind: chunk.kind,
            name,
            content: from_chars(joined.as_slice()),
        };
        let ghost cs = sub@;
        let ghost prev = subs@;
        subs.push(sub);
        proof {
            assert(cv(subs@) =~= cv(prev).push(cs));
        }
    }
    proof {
        assert(utf8_len(c.content) > MAX_CHUNK_SIZE);
    }
    if subs.len() == 0 {
        let r = vec![chunk];
        proof {
            assert(cv(r@) =~= seq![c]);
        }
        r
    } else {
        subs
    }
}


/// The keys of the top-level object of a JSON text in the order `serde_json`
/// keeps them; `None` when the text does not parse or is not an object.
pub uninterp spec fn json_object_keys(content: Seq<char>) -> Option<Seq<Seq<char>>>;

/// The pretty-printed one-entry object `{ key: value }` for a top-level key.
pub uninterp spec fn json_entry_pretty(content: Seq<char>, key: Seq<char>) -> Seq<char>;

/// Calls `serde_json::from_str::<serde_json::Value>` and, for an object,
/// `Map::keys`. The contract names the answer `json_object_keys(content)`.
#[verifier::external_body]
fn json_keys(content: &str) -> (r: Option<Vec<Vec<char>>>)
    ensures
        r matches Some(v) ==> json_object_keys(content@) == Some(vv(v@)),
        r is None ==> json_object_keys(content@) is None,
{
    match serde_json::from_str::<serde_json::Value>(content) {
        Ok(serde_json::Value::Object(m)) => Some(m.keys().map(|k| k.chars().collect()).collect()),
        _ => None,
    }
}

/// Calls `serde_json::from_str`, then `serde_json::to_string_pretty` on the
/// object that holds only `key` with its value. The contract names the text
/// `json_entry_pretty(content, key)`; the call cannot fail for a key of the
/// parsed object, which `requires` demands.
#[verifier::external_body]
fn json_entry(content: &str, key: &str) -> (r: String)
    requires
        json_object_keys(content@) matches Some(ks) && ks.contains(key@),
    ensures
        r@ == json_entry_pretty(content@, key@),
{
    let v: serde_json::Value = serde_json::from_str(content).unwrap();
    let mut m = serde_json::Map::new();
    m.insert(key.to_string(), v[key].clone());
    serde_json::to_string_pretty(&serde_json::Value::Object(m)).unwrap()
}

/// The suffix of `line` from byte offset `b`, when `b` falls on a character
/// boundary (`str::get(b..)`).
#[verifier::opaque]
pub open spec fn byte_suffix(line: Seq<char>, b: int) -> Option<Seq<char>> {
    if exists|k: int| 0 <= k <= line.len() && utf8_len(line.take(k)) == b {
        Some(line.skip(choose|k: int| 0 <= k <= line.len() && utf8_len(line.take(k)) == b))
    } else {
        None
    }
}

/// The position just past a string's closing quote search: skips characters up
/// to the next `"`, jumping over the character after each `\`.
pub open spec fn skip_string(chars: Seq<char>, c: int) -> int
    decreases chars.len() + 2 - c,
{
    if c < chars.len() && chars[c] != '"' {
        if chars[c] == '\\' {
            skip_string(chars, c + 2)
        } else {
            skip_string(chars, c + 1)
        }
    } else {
        c
    }
}

/// After the string that closes at position `c`, the rest of the line (from byte
/// offset `c + 1`) begins, after whitespace, with `:`.
pub open spec fn colon_follows(line: Seq<char>, c: int) -> bool {
    match byte_suffix(line, c + 1) {
        Some(rest) => has_prefix(trim_start(rest), ":"@),
        None => false,
    }
}

/// Scans a line from position `c` at nesting `depth`: gives the depth at the end
/// of the line and whether some string at depth 1 is followed by `:`.
pub open spec fn scan_line(line: Seq<char>, c: int, depth: int, found: bool) -> (int, bool)
    decreases (if 0 <= c < line.len() { line.len() - c } else { 0 }),
{
    if c < 0 || c >= line.len() {
        (depth, found)
    } else if line[c] == '"' {
        let c2 = skip_string(line, c + 1);
        if c2 + 1 > c {
            scan_line(line, c2 + 1, depth, found || (depth == 1 && colon_follows(line, c2)))
        } else {
            (depth, found)
        }
    } else if line[c] == '{' || line[c] == '[' {
        scan_line(line, c + 1, depth + 1, found)
    } else if line[c] == '}' || line[c] == ']' {
        scan_line(line, c + 1, if depth > 0 { depth - 1 } else { 0 }, found)
    } else {
        scan_line(line, c + 1, depth, found)
    }
}

/// The key text a line names: from its first to its last `"`, quotes stripped.
#[verifier::opaque]
pub open spec fn line_key(line: Seq<char>) -> Seq<char> {
    let a = find_first(line, '"')->0;
    let b = find_last(line, '"');
    strip_trailing(strip_leading(line.subrange(a, b + 1), '"'), '"')
}

/// The position of the last `c` in `s` (meaningful when there is one).
pub open spec fn find_last(s: Seq<char>, c: char) -> int {
    choose|k: int| 0 <= k < s.len() && s[k] == c && forall|j: int| k < j < s.len() ==> s[j] != c
}

/// Key positions of a JSON text: for each line that has a key at depth 1, the
/// key it names, if it is a top-level key not met before. Also the depth at
/// the end of the lines.
pub open spec fn json_positions(lines: Seq<Seq<char>>, keys: Seq<Seq<char>>) -> (Seq<(Seq<char>, int)>, int)
    decreases lines.len(),
{
    if lines.len() == 0 {
        (seq![], 0)
    } else {
        let (kp, depth) = json_positions(lines.drop_last(), keys);
        let line = lines.last();
        let (d2, found) = scan_line(line, 0, depth, false);
        let k = line_key(line);
        if found && keys.contains(k) && !kp.map_values(|p: (Seq<char>, int)| p.0).contains(k) {
            (kp.push((k, lines.len() - 1)), d2)
        } else {
            (kp, d2)
        }
    }
}

/// The chunks of a JSON file: one per top-level key, located by line; a
/// one-line file gets each key pretty-printed on its own.
pub open spec fn spec_chunk_json(content: Seq<char>, path: Seq<char>) -> Seq<ChunkSpec> {
    match json_object_keys(content) {
        None => seq![],
        Some(keys) => {
            let lines = lines_of(content);
            if keys.len() == 0 {
                seq![]
            } else if lines.len() <= 1 {
                Seq::new(
                    keys.len(),
                    |i: int|
                        mk_chunk(path, 1, 1, ChunkKind::TopLevelKey, Some(keys[i]), json_entry_pretty(content, keys[i])),
                )
            } else {
                json_chunks(lines, json_positions(lines, keys).0, path)
            }
        },
    }
}


proof fn lemma_prefix_len_strict(line: Seq<char>, k1: int, k2: int)
    requires
        0 <= k1 < k2 <= line.len(),
    ensures
        utf8_len(line.take(k1)) < utf8_len(line.take(k2)),
{
    assert(line.take(k2) =~= line.take(k1) + line.subrange(k1, k2));
    crate::text::lemma_utf8_len_concat(line.take(k1), line.subrange(k1, k2));
    crate::text::lemma_utf8_len_bounds(line.subrange(k1, k2));
}

fn byte_suffix_of(line: &[char], b: u128) -> (r: Option<Vec<char>>)
    ensures
        r matches Some(v) ==> byte_suffix(line@, b as int) == Some(v@),
        r is None ==> byte_suffix(line@, b as int) is None,
{
    reveal(byte_suffix);
    let mut k: usize = 0;
    let mut acc: u128 = 0;
    while k < line.len() && acc < b
        invariant
            acc <= 4 * k,
            k <= line@.len(),
            acc == utf8_len(line@.take(k as int)),
            forall|j: int| 0 <= j < k ==> utf8_len(line@.take(j)) < b,
        decreases line@.len() - k,
    {
        proof {
            assert(line@.take(k as int + 1).drop_last() =~= line@.take(k as int));
        }
        acc = acc + crate::text::width_of(line[k]) as u128;
        k = k + 1;
    }
    if acc == b {
        proof {
            let kk = choose|kk: int| 0 <= kk <= line@.len() && utf8_len(line@.take(kk)) == b;
            assert(0 <= k <= line@.len() && utf8_len(line@.take(k as int)) == b);
            if kk < k {
                lemma_prefix_len_strict(line@, kk, k as int);
            } else if kk > k {
                lemma_prefix_len_strict(line@, k as int, kk);
            }
            assert(line@.subrange(k as int, line@.len() as int) =~= line@.skip(k as int));
        }
        Some(slice_vec(line, k, line.len()))
    } else {
        proof {
            assert forall|kk: int| 0 <= kk <= line@.len() implies utf8_len(line@.take(kk)) != b by {
                if kk < k {
                } else if kk > k {
                    lemma_prefix_len_strict(line@, k as int, kk);
                }
            }
        }
        None
    }
}

fn skip_string_at(chars: &[char], c0: u128) -> (r: u128)
    requires
        c0 <= chars@.len() + 1,
    ensures
        r as int == skip_string(chars@, c0 as int),
        c0 <= r <= chars@.len() + 2,
{
    let n = chars.len();
    let mut c = c0;
    while c < n as u128 && chars[c as usize] != '"'
        invariant
            c0 <= c <= n + 2,
            n == chars@.len(),
            skip_string(chars@, c0 as int) == skip_string(chars@, c as int),
        decreases n + 2 - c,
    {
        if chars[c as usize] == '\\' {
            c = c + 1;
        }
        c = c + 1;
    }
    c
}

fn scan_json_line(line: &[char], depth0: usize) -> (r: (usize, bool))
    requires
        depth0 + line@.len() <= usize::MAX,
    ensures
        (r.0 as int, r.1) == scan_line(line@, 0, depth0 as int, false),
        r.1 ==> line@.contains('"'),
        r.0 <= depth0 + line@.len(),
{
    let n = line.len();
    let mut c: u128 = 0;
    let mut depth = depth0;
    let mut found = false;
    while c < n as u128
        invariant
            n == line@.len(),
            c <= n + 3,
            depth <= depth0 + c,
            depth <= depth0 + n,
            depth0 + n <= usize::MAX,
            scan_line(line@, 0, depth0 as int, false) == scan_line(line@, c as int, depth as int, found),
            found ==> line@.contains('"'),
        decreases n + 3 - c,
    {
        let ch = line[c as usize];
        if ch == '"' {
            let c2 = skip_string_at(line, c + 1);
            let mut hit = false;
            if depth == 1 {
                match byte_suffix_of(line, c2 + 1) {
                    Some(rest) => {
                        let (a, _b) = trim_bounds(rest.as_slice());
                        let t = slice_vec(rest.as_slice(), a, rest.len());
                        let colon = to_chars(":");
                        hit = starts_with(t.as_slice(), colon.as_slice());
                    },
                    None => {},
                }
            }
            proof {
                assert(hit == (depth == 1 && colon_follows(line@, c2 as int)));
                assert(line@[c as int] == '"');
                assert(c2 + 1 > c);
            }
            found = found || hit;
            c = c2 + 1;
        } else if ch == '{' || ch == '[' {
            depth = depth + 1;
            c = c + 1;
        } else if ch == '}' || ch == ']' {
            depth = if depth > 0 { depth - 1 } else { 0 };
            c = c + 1;
        } else {
            c = c + 1;
        }
    }
    (depth, found)
}

fn last_index_of(s: &[char], c: char) -> (r: usize)
    requires
        s@.contains(c),
    ensures
        r as int == find_last(s@, c),
        r < s@.len(),
        s@[r as int] == c,
        forall|k: int| r < k < s@.len() ==> s@[k] != c,
{
    let mut j: usize = s.len();
    while j > 0 && s[j - 1] != c
        invariant
            j <= s@.len(),
            s@.contains(c),
            forall|k: int| j <= k < s@.len() ==> s@[k] != c,
        decreases j,
    {
        j = j - 1;
    }
    proof {
        if j == 0 {
            let w = choose|w: int| 0 <= w < s@.len() && s@[w] == c;
            assert(s@[w] != c);
        }
        let i = (j - 1) as int;
        let kk = choose|kk: int| 0 <= kk < s@.len() && s@[kk] == c && forall|m: int| kk < m < s@.len() ==> s@[m] != c;
        assert(0 <= i < s@.len() && s@[i] == c && forall|m: int| i < m < s@.len() ==> s@[m] != c);
        if kk < i {
            assert(s@[i] != c);
        } else if kk > i {
            assert(s@[kk] != c);
        }
    }
    j - 1
}

fn line_key_of(line: &[char]) -> (r: Vec<char>)
    requires
        line@.contains('"'),
    ensures
        r@ == line_key(line@),
{
    reveal(line_key);
    let a = match first_index_of(line, '"') {
        Some(a) => a,
        None => 0,
    };
    let b = last_index_of(line, '"');
    let _n = line.len();
    proof {
        if a > b {
            assert(line@[a as int] != '"');
        }
    }
    let mid = slice_vec(line, a, b + 1);
    let l = crate::text::strip_leading_char(mid.as_slice(), '"');
    crate::text::strip_trailing_char(l.as_slice(), '"')
}

proof fn lemma_json_positions(lines: Seq<Seq<char>>, keys: Seq<Seq<char>>)
    ensures
        boundaries_ok(json_positions(lines, keys).0.map_values(|p: (Seq<char>, int)| (p.1, p.0)), lines.len() as int),
    decreases lines.len(),
{
    if lines.len() > 0 {
        let p = lines.drop_last();
        lemma_json_positions(p, keys);
        let s = json_positions(lines, keys).0.map_values(|p: (Seq<char>, int)| (p.1, p.0));
        let sp = json_positions(p, keys).0.map_values(|p: (Seq<char>, int)| (p.1, p.0));
        assert forall|i: int| 0 <= i < s.len() implies 0 <= #[trigger] s[i].0 < lines.len() by {
            if i < sp.len() {
                assert(s[i] == sp[i]);
            }
        }
        assert forall|i: int, j: int| 0 <= i < j < s.len() implies s[i].0 < s[j].0 by {
            assert(s[i] == sp[i]);
            if j < sp.len() {
                assert(s[j] == sp[j]);
            }
        }
    }
}


pub open spec fn kpv(v: Seq<(Vec<char>, usize)>) -> Seq<(Seq<char>, int)> {
    v.map_values(|p: (Vec<char>, usize)| (p.0@, p.1 as int))
}

pub open spec fn key_names(v: Seq<(Seq<char>, int)>) -> Seq<Seq<char>> {
    v.map_values(|p: (Seq<char>, int)| p.0)
}

/// Records the key that line `i` names, when it is a top-level key not met before.
#[verifier::spinoff_prover]
fn note_key(
    kp: &mut Vec<(Vec<char>, usize)>,
    seen: &mut Vec<Vec<char>>,
    keys: &Vec<Vec<char>>,
    line: &[char],
    i: usize,
)
    requires
        line@.contains('"'),
        vv(old(seen)@) == key_names(kpv(old(kp)@)),
    ensures
        vv(final(seen)@) == key_names(kpv(final(kp)@)),
        kpv(final(kp)@) == (if vv(keys@).contains(line_key(line@)) && !key_names(kpv(old(kp)@)).contains(
            line_key(line@),
        ) {
            kpv(old(kp)@).push((line_key(line@), i as int))
        } else {
            kpv(old(kp)@)
        }),
{
    let k = line_key_of(line);
    let known = crate::text::contains_chars(keys, k.as_slice());
    let met = crate::text::contains_chars(seen, k.as_slice());
    if known && !met {
        let ghost kv0 = k@;
        let ghost prev_kp = kpv(kp@);
        let ghost prev_seen = vv(seen@);
        let k2 = slice_vec(k.as_slice(), 0, k.len());
        proof {
            assert(k2@ =~= k@);
        }
        seen.push(k2);
        kp.push((k, i));
        proof {
            assert(kpv(kp@) =~= prev_kp.push((kv0, i as int)));
            assert(vv(seen@) =~= prev_seen.push(kv0));
            assert(key_names(kpv(kp@)) =~= key_names(prev_kp).push(kv0));
        }
    }
}

fn json_key_positions(lines: &Vec<Vec<char>>, keys: &Vec<Vec<char>>, Ghost(content): Ghost<Seq<char>>) -> (r: Vec<(Vec<char>, usize)>)
    requires
        vv(lines@) == lines_of(content),
        content.len() <= usize::MAX,
    ensures
        kpv(r@) == json_positions(vv(lines@), vv(keys@)).0,
{
    let ghost ls = vv(lines@);
    let ghost ks = vv(keys@);
    let n = lines.len();
    proof {
        assert(ls.len() == lines@.len());
        crate::text::lemma_lines_total(content);
    }
    let mut kp: Vec<(Vec<char>, usize)> = Vec::new();
    let mut seen: Vec<Vec<char>> = Vec::new();
    let mut depth: usize = 0;
    let mut i: usize = 0;
    proof {
        assert(kpv(kp@) =~= seq![]);
        assert(vv(seen@) =~= seq![]);
        assert(ls.take(0) =~= seq![]);
    }
    while i < n
        invariant
            i <= n == lines@.len() == ls.len(),
            vv(lines@) == ls,
            ks == vv(keys@),
            kpv(kp@) == json_positions(ls.take(i as int), ks).0,
            vv(seen@) == key_names(kpv(kp@)),
            depth as int == json_positions(ls.take(i as int), ks).1,
            depth <= crate::text::total_len(ls.take(i as int)),
            crate::text::total_len(ls) <= usize::MAX,
        decreases n - i,
    {
        proof {
            assert(ls.take(i as int + 1).drop_last() =~= ls.take(i as int));
            assert(ls.take(i as int + 1).last() == lines@[i as int]@);
            crate::text::lemma_total_len_prefix(ls, i as int + 1);
        }
        let line = lines[i].as_slice();
        let (d2, found) = scan_json_line(line, depth);
        if found {
            note_key(&mut kp, &mut seen, keys, line, i);
        }
        depth = d2;
        i = i + 1;
    }
    proof {
        assert(ls.take(i as int) =~= ls);
    }
    kp
}

/// The last line in `s..=e` that is not blank, or `s`.
fn trailing_end(lines: &Vec<Vec<char>>, s: usize, e: usize) -> (r: usize)
    requires
        s <= e < lines@.len(),
    ensures
        r as int == trail_end(vv(lines@), s as int, e as int),
        s <= r <= e,
{
    let ghost ls = vv(lines@);
    let mut end = e;
    while end > s && is_blank(lines[end].as_slice())
        invariant
            s <= end <= e < lines@.len() == ls.len(),
            ls == vv(lines@),
            trail_end(ls, s as int, e as int) == trail_end(ls, s as int, end as int),
        decreases end,
    {
        proof {
            assert(ls[end as int] == lines@[end as int]@);
        }
        end = end - 1;
    }
    proof {
        if end > s {
            assert(ls[end as int] == lines@[end as int]@);
        }
    }
    end
}

/// The chunks of a JSON text from its key positions.
pub open spec fn json_chunks(lines: Seq<Seq<char>>, kp: Seq<(Seq<char>, int)>, path: Seq<char>) -> Seq<
    ChunkSpec,
> {
    Seq::new(
        kp.len(),
        |i: int|
            {
                let start = kp[i].1;
                let end = if i < kp.len() - 1 {
                    kp[i + 1].1 - 1
                } else {
                    lines.len() - 1
                };
                let real_end = trail_end(lines, start, end);
                mk_chunk(
                    path,
                    start + 1,
                    real_end + 1,
                    ChunkKind::TopLevelKey,
                    Some(kp[i].0),
                    section(lines, start, real_end),
                )
            },
    )
}

fn build_json_chunks(lines: &Vec<Vec<char>>, kp: &Vec<(Vec<char>, usize)>, file_path: &str) -> (r: Vec<TextChunk>)
    requires
        boundaries_ok(kpv(kp@).map_values(|p: (Seq<char>, int)| (p.1, p.0)), lines@.len() as int),
    ensures
        cv(r@) == json_chunks(vv(lines@), kpv(kp@), file_path@),
{
    let mut chunks: Vec<TextChunk> = Vec::new();
    let n = kp.len();
    let ghost b = kpv(kp@).map_values(|p: (Seq<char>, int)| (p.1, p.0));
    let ghost spec = json_chunks(vv(lines@), kpv(kp@), file_path@);
    let mut i: usize = 0;
    while i < n
        invariant
            i <= n == kp@.len(),
            b == kpv(kp@).map_values(|p: (Seq<char>, int)| (p.1, p.0)),
            boundaries_ok(b, lines@.len() as int),
            spec == json_chunks(vv(lines@), kpv(kp@), file_path@),
            cv(chunks@) == spec.take(i as int),
        decreases n - i,
    {
        proof {
            assert(b[i as int].0 == kp@[i as int].1 as int);
            assert(kpv(kp@)[i as int].1 == kp@[i as int].1 as int);
            if i + 1 < n {
                assert(b[i + 1].0 == kp@[i + 1].1 as int);
                assert(kpv(kp@)[i + 1].1 == kp@[i + 1].1 as int);
                assert(b[i as int].0 < b[i + 1].0);
            }
        }
        let start = kp[i].1;
        let end = if i < n - 1 {
            kp[i + 1].1 - 1
        } else {
            lines.len() - 1
        };
        let real_end = trailing_end(lines, start, end);
        let content = section_text(lines, start, real_end);
        let chunk = TextChunk {
            file_path: owned(file_path),
            start_line: start + 1,
            end_line: real_end + 1,
            kind: ChunkKind::TopLevelKey,
            name: Some(from_chars(kp[i].0.as_slice())),
            content: from_chars(content.as_slice()),
        };
        let ghost cs = chunk@;
        let ghost prev = chunks@;
        chunks.push(chunk);
        proof {
            assert(kpv(kp@)[i as int].0 == kp@[i as int].0@);
            assert(cs == spec[i as int]);
            assert(cv(chunks@) =~= cv(prev).push(cs));
            assert(cv(chunks@) =~= spec.take(i as int + 1));
        }
        i = i + 1;
    }
    proof {
        assert(spec.take(n as int) =~= spec);
    }
    chunks
}

/// The chunks of a JSON text from the keys of its top-level object (in
/// `serde_json`'s order) and, for a text of one line, the pretty-printed entry
/// of each key: none without keys; one chunk per key on line 1 for a one-line
/// text; otherwise one chunk per key, located by line.
pub open spec fn spec_json_chunks_from_keys(
    content: Seq<char>,
    path: Seq<char>,
    keys: Seq<Seq<char>>,
    entries: Seq<Seq<char>>,
) -> Seq<ChunkSpec> {
    let lines = lines_of(content);
    if keys.len() == 0 {
        seq![]
    } else if lines.len() <= 1 {
        Seq::new(keys.len(), |i: int| mk_chunk(path, 1, 1, ChunkKind::TopLevelKey, Some(keys[i]), entries[i]))
    } else {
        json_chunks(lines, json_positions(lines, keys).0, path)
    }
}

/// The characters of each string.
fn strings_chars(v: &Vec<String>) -> (r: Vec<Vec<char>>)
    ensures
        vv(r@) == strs(v@),
{
    let mut out: Vec<Vec<char>> = Vec::new();
    let mut i: usize = 0;
    while i < v.len()
        invariant
            i <= v@.len(),
            vv(out@) == strs(v@).take(i as int),
        decreases v@.len() - i,
    {
        let c = to_chars(v[i].as_str());
        let ghost prev = out@;
        out.push(c);
        proof {
            assert(vv(out@) =~= vv(prev).push(v@[i as int]@));
            assert(strs(v@).take(i + 1) =~= strs(v@).take(i as int).push(v@[i as int]@));
        }
        i = i + 1;
    }
    proof {
        assert(strs(v@).take(i as int) =~= strs(v@));
    }
    out
}

/// Splits a JSON text into chunks, given the keys of its top-level object
/// and, when the text is one line, the pretty-printed entry of each key.
pub fn chunk_json_keys(content: &str, file_path: &str, keys: &Vec<String>, entries: &Vec<String>) -> (r: Vec<
    TextChunk,
>)
    requires
        lines_of(content@).len() <= 1 ==> entries@.len() == keys@.len(),
    ensures
        cv(r@) == spec_json_chunks_from_keys(content@, file_path@, strs(keys@), strs(entries@)),
{
    let ghost ks = strs(keys@);
    let ghost es = strs(entries@);
    if keys.len() == 0 {
        return Vec::new();
    }
    let c = to_chars(content);
    let lines = split_lines(c.as_slice());
    let ghost ls = lines_of(content@);
    let n = lines.len();
    proof {
        assert(vv(lines@).len() == lines@.len());
        assert(ks.len() == keys@.len());
    }
    let mut chunks: Vec<TextChunk> = Vec::new();
    if n <= 1 {
        let ghost spec = Seq::new(
            ks.len(),
            |i: int| mk_chunk(file_path@, 1, 1, ChunkKind::TopLevelKey, Some(ks[i]), es[i]),
        );
        let mut i: usize = 0;
        while i < keys.len()
            invariant
                i <= keys@.len() == ks.len() == es.len() == entries@.len(),
                ks == strs(keys@),
                es == strs(entries@),
                spec == Seq::new(
                    ks.len(),
                    |i: int| mk_chunk(file_path@, 1, 1, ChunkKind::TopLevelKey, Some(ks[i]), es[i]),
                ),
                cv(chunks@) == spec.take(i as int),
            decreases keys@.len() - i,
        {
            let chunk = TextChunk {
                file_path: owned(file_path),
                start_line: 1,
                end_line: 1,
                kind: ChunkKind::TopLevelKey,
                name: Some(owned(keys[i].as_str())),
                content: owned(entries[i].as_str()),
            };
            let ghost cs = chunk@;
            let ghost prev = chunks@;
            chunks.push(chunk);
            proof {
                assert(ks[i as int] == keys@[i as int]@);
                assert(es[i as int] == entries@[i as int]@);
                assert(cs == spec[i as int]);
                assert(cv(chunks@) =~= cv(prev).push(cs));
                assert(spec.take(i as int + 1) =~= spec.take(i as int).push(cs));
            }
            i = i + 1;
        }
        proof {
            assert(spec.take(i as int) =~= spec);
        }
        return chunks;
    }
    let _cn = c.len();
    let key_chars = strings_chars(keys);
    let kp = json_key_positions(&lines, &key_chars, Ghost(content@));
    proof {
        lemma_json_positions(ls, ks);
    }
    build_json_chunks(&lines, &kp, file_path)
}

/// Splits a JSON object at its top-level keys; anything else gives no chunks.
pub fn chunk_json(content: &str, file_path: &str) -> (r: Vec<TextChunk>)
    ensures
        cv(r@) == spec_chunk_json(content@, file_path@),
{
    let keys = match json_keys(content) {
        Some(k) => k,
        None => {
            return Vec::new();
        },
    };
    let ghost ks = vv(keys@);
    let mut key_strs: Vec<String> = Vec::new();
    let mut i: usize = 0;
    while i < keys.len()
        invariant
            i <= keys@.len(),
            ks == vv(keys@),
            strs(key_strs@) == ks.take(i as int),
        decreases keys@.len() - i,
    {
        let k = from_chars(keys[i].as_slice());
        let ghost prev = key_strs@;
        key_strs.push(k);
        proof {
            assert(strs(key_strs@) =~= strs(prev).push(keys@[i as int]@));
            assert(ks.take(i + 1) =~= ks.take(i as int).push(keys@[i as int]@));
        }
        i = i + 1;
    }
    proof {
        assert(ks.take(i as int) =~= ks);
    }
    let c = to_chars(content);
    let lines = split_lines(c.as_slice());
    proof {
        assert(vv(lines@).len() == lines@.len());
    }
    let mut entries: Vec<String> = Vec::new();
    if lines.len() <= 1 {
        let mut j: usize = 0;
        while j < key_strs.len()
            invariant
                j <= key_strs@.len() == ks.len(),
                strs(key_strs@) == ks,
                json_object_keys(content@) == Some(ks),
                strs(entries@) == Seq::new(j as nat, |x: int| json_entry_pretty(content@, ks[x])),
            decreases key_strs@.len() - j,
        {
            proof {
                assert(ks[j as int] == key_strs@[j as int]@);
                assert(ks.contains(key_strs@[j as int]@));
            }
            let text = json_entry(content, key_strs[j].as_str());
            let ghost prev = entries@;
            entries.push(text);
            proof {
                assert(strs(entries@) =~= strs(prev).push(text@));
                assert(text@ == json_entry_pretty(content@, ks[j as int]));
                assert(strs(entries@) =~= Seq::new((j + 1) as nat, |x: int| json_entry_pretty(content@, ks[x])));
            }
            j = j + 1;
        }
    }
    let r = chunk_json_keys(content, file_path, &key_strs, &entries);
    proof {
        let lsv = lines_of(content@);
        if ks.len() > 0 && lsv.len() <= 1 {
            assert(spec_json_chunks_from_keys(content@, file_path@, ks, strs(entries@)) =~= spec_chunk_json(
                content@,
                file_path@,
            ));
        }
    }
    r
}

/// The chunks a file type's own splitter gives; none for a type without one.
pub open spec fn spec_split_by_type(content: Seq<char>, path: Seq<char>, file_type: Seq<char>) -> Seq<ChunkSpec> {
    if file_type == "markdown"@ {
        spec_chunk_markdown(content, path)
    } else if file_type == "yaml"@ {
        spec_chunk_yaml(content, path)
    } else if file_type == "json"@ {
        spec_chunk_json(content, path)
    } else if file_type == "toml"@ {
        spec_chunk_toml(content, path)
    } else if file_type == "plaintext"@ {
        spec_chunk_plaintext(content, path)
    } else {
        seq![]
    }
}

/// The parts of one chunk after size enforcement. A chunk whose line numbers
/// would pass `usize::MAX` is kept whole (no file in memory has that many lines).
pub open spec fn sized_parts(c: ChunkSpec) -> Seq<ChunkSpec> {
    if c.start_line + lines_of(c.content).len() <= usize::MAX {
        spec_enforce_max_size(c)
    } else {
        seq![c]
    }
}

/// The parts of all chunks, in order.
pub open spec fn all_sized_parts(cs: Seq<ChunkSpec>) -> Seq<ChunkSpec>
    decreases cs.len(),
{
    if cs.len() == 0 {
        seq![]
    } else {
        all_sized_parts(cs.drop_last()) + sized_parts(cs.last())
    }
}

/// The chunks of a text file: the whole file when it is under
/// `MIN_SPLIT_SIZE` bytes or its splitter finds nothing, else the splitter's
/// chunks with oversized ones split.
pub open spec fn spec_chunk_text_file(content: Seq<char>, path: Seq<char>, file_type: Seq<char>) -> Seq<ChunkSpec> {
    if utf8_len(content) < MIN_SPLIT_SIZE {
        seq![spec_whole_file_chunk(content, path)]
    } else {
        let chunks = spec_split_by_type(content, path, file_type);
        if chunks.len() == 0 {
            seq![spec_whole_file_chunk(content, path)]
        } else {
            all_sized_parts(chunks)
        }
    }
}

fn sized_chunk_parts(chunk: TextChunk) -> (r: Vec<TextChunk>)
    ensures
        cv(r@) == sized_parts(chunk@),
{
    let c = to_chars(chunk.content.as_str());
    let lines = split_lines(c.as_slice());
    let n = lines.len();
    proof {
        assert(vv(lines@).len() == lines@.len());
    }
    if chunk.start_line <= usize::MAX - n {
        enforce_max_size(chunk)
    } else {
        let ghost cs = chunk@;
        let r = vec![chunk];
        proof {
            assert(cv(r@) =~= seq![cs]);
        }
        r
    }
}

/// Splits a text file along the boundaries of its type (`"markdown"`,
/// `"yaml"`, `"json"`, `"toml"`, `"plaintext"`), then splits oversized chunks.
pub fn chunk_text_file(content: &str, file_path: &str, file_type: &str) -> (r: Vec<TextChunk>)
    ensures
        cv(r@) == spec_chunk_text_file(content@, file_path@, file_type@),
{
    let c = to_chars(content);
    if byte_len(c.as_slice()) < MIN_SPLIT_SIZE as u128 {
        let w = whole_file_chunk(content, file_path);
        let ghost ws = w@;
        let r = vec![w];
        proof {
            assert(cv(r@) =~= seq![ws]);
        }
        return r;
    }
    let t = to_chars(file_type);
    let t = t.as_slice();
    let chunks = if is_text(t, "markdown") {
        chunk_markdown(content, file_path)
    } else if is_text(t, "yaml") {
        chunk_yaml(content, file_path)
    } else if is_text(t, "json") {
        chunk_json(content, file_path)
    } else if is_text(t, "toml") {
        chunk_toml(content, file_path)
    } else if is_text(t, "plaintext") {
        chunk_plaintext(content, file_path)
    } else {
        let e: Vec<TextChunk> = Vec::new();
        proof {
            assert(cv(e@) =~= seq![]);
        }
        e
    };
    if chunks.len() == 0 {
        let w = whole_file_chunk(content, file_path);
        let ghost ws = w@;
        let r = vec![w];
        proof {
            assert(cv(r@) =~= seq![ws]);
        }
        return r;
    }
    let ghost cs = cv(chunks@);
    let mut out: Vec<TextChunk> = Vec::new();
    let mut rest = chunks;
    let ghost total = rest@.len();
    proof {
        assert(cv(out@) =~= all_sized_parts(cs.take(0)));
        assert(cv(rest@) =~= cs.skip(0));
    }
    while rest.len() > 0
        invariant
            total == cs.len(),
            rest@.len() <= total,
            cv(rest@) == cs.skip(total - rest@.len()),
            cv(out@) == all_sized_parts(cs.take(total - rest@.len())),
        decreases rest@.len(),
    {
        let ghost i = total - rest@.len();
        let ghost rest_before = cv(rest@);
        let ch = rest.remove(0);
        proof {
            assert(rest_before[0] == cs[i]);
            assert(ch@ == cs[i]);
            assert(cv(rest@) =~= rest_before.drop_first());
            assert(cv(rest@) =~= cs.skip(i + 1));
            assert(cs.take(i + 1).drop_last() =~= cs.take(i));
        }
        let mut parts = sized_chunk_parts(ch);
        let ghost before = cv(out@);
        let ghost ps = cv(parts@);
        out.append(&mut parts);
        proof {
            assert(cv(out@) =~= before + ps);
        }
    }
    proof {
        assert(cs.take(total as int) =~= cs);
    }
    out
}

/// Writing a chunk kind and reading the name back gives the same kind.
pub proof fn chunk_kind_name_roundtrip(k: ChunkKind)
    ensures
        parse_chunk_kind_spec(chunk_kind_name(k)) == Some(k),
{
    reveal_strlit("function");
    assert("function"@[0] == 'f' && "function"@[1] == 'u');
    reveal_strlit("method");
    assert("method"@[0] == 'm' && "method"@[1] == 'e');
    reveal_strlit("class");
    assert("class"@[0] == 'c' && "class"@[1] == 'l');
    reveal_strlit("interface");
    assert("interface"@[0] == 'i' && "interface"@[1] == 'n');
    reveal_strlit("struct");
    assert("struct"@[0] == 's' && "struct"@[1] == 't');
    reveal_strlit("enum");
    assert("enum"@[0] == 'e' && "enum"@[1] == 'n');
    reveal_strlit("impl");
    assert("impl"@[0] == 'i' && "impl"@[1] == 'm');
    reveal_strlit("export");
    assert("export"@[0] == 'e' && "export"@[1] == 'x');
    reveal_strlit("type_alias");
    assert("type_alias"@[0] == 't' && "type_alias"@[1] == 'y');
    reveal_strlit("module");
    assert("module"@[0] == 'm' && "module"@[1] == 'o');
    reveal_strlit("heading_section");
    assert("heading_section"@[0] == 'h' && "heading_section"@[1] == 'e');
    reveal_strlit("top_level_key");
    assert("top_level_key"@[0] == 't' && "top_level_key"@[1] == 'o');
    reveal_strlit("paragraph");
    assert("paragraph"@[0] == 'p' && "paragraph"@[1] == 'a');
    reveal_strlit("file");
    assert("file"@[0] == 'f' && "file"@[1] == 'i');
}

/// Splitting a chunk by size never loses it: there is at least one part.
pub proof fn size_parts_never_empty(c: ChunkSpec)
    ensures
        spec_enforce_max_size(c).len() >= 1,
        sized_parts(c).len() >= 1,
{
}

proof fn lemma_all_sized_parts_nonempty(cs: Seq<ChunkSpec>)
    requires
        cs.len() > 0,
    ensures
        all_sized_parts(cs).len() > 0,
{
    size_parts_never_empty(cs.last());
}

/// A text file always gives at least one chunk.
pub proof fn text_file_chunks_never_empty(content: Seq<char>, path: Seq<char>, file_type: Seq<char>)
    ensures
        spec_chunk_text_file(content, path, file_type).len() >= 1,
{
    let chunks = spec_split_by_type(content, path, file_type);
    if utf8_len(content) >= MIN_SPLIT_SIZE && chunks.len() > 0 {
        lemma_all_sized_parts_nonempty(chunks);
    }
}

/// A file under `MIN_SPLIT_SIZE` bytes is one chunk of kind `File` holding all
/// of it, from line 1.
pub proof fn small_file_is_one_chunk(content: Seq<char>, path: Seq<char>, file_type: Seq<char>)
    requires
        utf8_len(content) < MIN_SPLIT_SIZE,
    ensures
        spec_chunk_text_file(content, path, file_type) == seq![spec_whole_file_chunk(content, path)],
        spec_whole_file_chunk(content, path).kind == ChunkKind::File,
        spec_whole_file_chunk(content, path).content == content,
        spec_whole_file_chunk(content, path).start_line == 1,
{
}

/// The contents of a sequence of chunks.
pub open spec fn contents(cs: Seq<ChunkSpec>) -> Seq<Seq<char>> {
    cs.map_values(|c: ChunkSpec| c.content)
}

/// Parts that follow each other line by line, the first at `start`.
pub open spec fn consecutive_from(cs: Seq<ChunkSpec>, start: int) -> bool {
    &&& cs.len() > 0 ==> cs[0].start_line == start
    &&& forall|i: int| 0 <= i < cs.len() - 1 ==> #[trigger] cs[i + 1].start_line == cs[i].end_line + 1
}

proof fn lemma_join_last(cs: Seq<Seq<char>>, x: Seq<char>)
    ensures
        join(cs + seq![x], seq!['\n']) == (if cs.len() == 0 {
            x
        } else {
            join(cs, seq!['\n']) + seq!['\n'] + x
        }),
{
    assert((cs + seq![x]).drop_last() =~= cs);
    assert((cs + seq![x]).last() == x);
    if cs.len() == 0 {
        assert(cs + seq![x] =~= seq![x]);
    }
}

proof fn lemma_join_grow(cs: Seq<Seq<char>>, cur: Seq<Seq<char>>, line: Seq<char>)
    requires
        cur.len() > 0,
    ensures
        join(cs + seq![join(cur.push(line), seq!['\n'])], seq!['\n']) == join(cs + seq![join(cur, seq!['\n'])], seq!['\n'])
            + seq!['\n'] + line,
{
    let nl = seq!['\n'];
    assert(cur.push(line).drop_last() =~= cur);
    assert(join(cur.push(line), nl) == join(cur, nl) + nl + line);
    lemma_join_last(cs, join(cur.push(line), nl));
    lemma_join_last(cs, join(cur, nl));
}

proof fn lemma_join_cut(cs: Seq<Seq<char>>, cur: Seq<Seq<char>>, sp: int, line: Seq<char>)
    requires
        1 <= sp <= cur.len(),
    ensures
        join(cs.push(join(cur.take(sp), seq!['\n'])) + seq![join(cur.skip(sp).push(line), seq!['\n'])], seq!['\n'])
            == join(cs + seq![join(cur, seq!['\n'])], seq!['\n']) + seq!['\n'] + line,
{
    let nl = seq!['\n'];
    let front = cur.take(sp);
    let back = cur.skip(sp);
    let x = cs.push(join(front, nl));
    lemma_join_last(x, join(back.push(line), nl));
    lemma_join_last(cs, join(front, nl));
    assert(x =~= cs + seq![join(front, nl)]);
    lemma_join_last(cs, join(cur, nl));
    if back.len() > 0 {
        assert(cur =~= front + back);
        crate::text::lemma_join_append(front, back, nl);
        assert(back.push(line).drop_last() =~= back);
        assert(join(back.push(line), nl) == join(back, nl) + nl + line);
    } else {
        assert(front =~= cur);
        assert(back.push(line) =~= seq![line]);
        assert(join(seq![line], nl) == line);
    }
}

#[verifier::spinoff_prover]
proof fn lemma_split_scan_parts(c: ChunkSpec, lines: Seq<Seq<char>>)
    ensures
        ({
            let st = split_scan(c, lines);
            &&& st.cur.len() == 0 <==> lines.len() == 0
            &&& join(contents(st.subs) + (if st.cur.len() > 0 { seq![join(st.cur, seq!['\n'])] } else { seq![] }), seq!['\n'])
                == join(lines, seq!['\n'])
            &&& consecutive_from(st.subs, c.start_line)
            &&& st.subs.len() == 0 ==> st.start == c.start_line
            &&& st.subs.len() > 0 ==> st.start == st.subs.last().end_line + 1
        }),
    decreases lines.len(),
{
    let nl = seq!['\n'];
    if lines.len() > 0 {
        let p = lines.drop_last();
        let line = lines.last();
        lemma_split_scan_parts(c, p);
        let st = split_scan(c, p);
        let st2 = split_scan(c, lines);
        let cs = contents(st.subs);
        assert(lines =~= p.push(line));
        lemma_join_last(p, line);
        assert(p + seq![line] =~= lines);
        if st.size + utf8_len(line) + 1 > MAX_CHUNK_SIZE && st.cur.len() > 0 {
            let sp = split_point(st.cur);
            assert(1 <= sp <= st.cur.len()) by {
                if exists|j: int| 1 <= j < st.cur.len() && all_ws(#[trigger] st.cur[j]) {
                    let w = choose|j: int| 1 <= j < st.cur.len() && all_ws(#[trigger] st.cur[j]);
                    lemma_last_blank(st.cur, w);
                }
            }
            assert(contents(st2.subs) =~= cs.push(join(st.cur.take(sp), nl)));
            lemma_join_cut(cs, st.cur, sp, line);
            assert forall|i: int| 0 <= i < st2.subs.len() - 1 implies #[trigger] st2.subs[i + 1].start_line
                == st2.subs[i].end_line + 1 by {
                if i + 1 < st.subs.len() {
                    assert(st2.subs[i + 1] == st.subs[i + 1] && st2.subs[i] == st.subs[i]);
                } else {
                    assert(st2.subs[i] == st.subs[i]);
                }
            }
            if st.subs.len() > 0 {
                assert(st2.subs[0] == st.subs[0]);
            }
        } else if st.cur.len() > 0 {
            lemma_join_grow(cs, st.cur, line);
        } else {
            assert(st2.cur =~= seq![line]);
            assert(contents(st2.subs) =~= Seq::<Seq<char>>::empty());
            assert(Seq::<Seq<char>>::empty() + seq![join(st2.cur, nl)] =~= seq![line]);
            assert(lines =~= seq![line]);
        }
    }
}

/// Splitting an oversized chunk loses no line and adds none: the parts follow
/// each other line by line from the chunk's first line to its last, and their
/// contents joined by newlines give the chunk's lines joined by newlines.
pub proof fn split_parts_cover_chunk(c: ChunkSpec)
    requires
        utf8_len(c.content) > MAX_CHUNK_SIZE,
    ensures
        consecutive_from(spec_enforce_max_size(c), c.start_line),
        spec_enforce_max_size(c).last().end_line == c.end_line,
        join(contents(spec_enforce_max_size(c)), seq!['\n']) == join(lines_of(c.content), seq!['\n']),
{
    let lines = lines_of(c.content);
    lemma_split_scan_parts(c, lines);
    let st = split_scan(c, lines);
    assert(c.content.len() > 0) by {
        crate::text::lemma_utf8_len_bounds(c.content);
    }
    crate::text::lemma_lines_nonempty(c.content);
    let last = mk_chunk(c.file_path, st.start, c.end_line, c.kind, part_name(c.name, st.part), join(st.cur, seq!['\n']));
    let subs = st.subs.push(last);
    assert(spec_enforce_max_size(c) == subs);
    assert(contents(subs) =~= contents(st.subs) + seq![join(st.cur, seq!['\n'])]);
    assert forall|i: int| 0 <= i < subs.len() - 1 implies #[trigger] subs[i + 1].start_line == subs[i].end_line + 1 by {
        if i + 1 < st.subs.len() {
            assert(subs[i + 1] == st.subs[i + 1] && subs[i] == st.subs[i]);
        } else {
            assert(subs[i] == st.subs[i]);
        }
    }
    if st.subs.len() > 0 {
        assert(subs[0] == st.subs[0]);
    }
}

proof fn lemma_not_ws_concat(x: Seq<char>, y: Seq<char>)
    ensures
        !all_ws(x) ==> !all_ws(x + y),
        !all_ws(y) ==> !all_ws(x + y),
{
    if !all_ws(x) {
        let i = choose|i: int| 0 <= i < x.len() && !is_ws(#[trigger] x[i]);
        assert((x + y)[i] == x[i]);
    }
    if !all_ws(y) {
        let i = choose|i: int| 0 <= i < y.len() && !is_ws(#[trigger] y[i]);
        assert((x + y)[x.len() + i] == y[i]);
    }
}

proof fn lemma_join_starts_with_first(parts: Seq<Seq<char>>, sep: Seq<char>)
    requires
        parts.len() > 0,
    ensures
        !all_ws(parts[0]) ==> !all_ws(join(parts, sep)),
    decreases parts.len(),
{
    if parts.len() > 1 {
        let p = parts.drop_last();
        lemma_join_starts_with_first(p, sep);
        assert(p[0] == parts[0]);
        lemma_not_ws_concat(join(p, sep), sep);
        lemma_not_ws_concat(join(p, sep) + sep, parts.last());
    }
}

proof fn lemma_para_scan_starts(lines: Seq<Seq<char>>)
    ensures
        para_scan(lines).start matches Some(s) ==> 0 <= s < lines.len() && !all_ws(lines[s]),
        forall|k: int|
            0 <= k < para_scan(lines).paras.len() ==> {
                let q = #[trigger] para_scan(lines).paras[k];
                0 <= q.0 <= q.1 < lines.len() && !all_ws(lines[q.0])
            },
    decreases lines.len(),
{
    if lines.len() > 0 {
        let p = lines.drop_last();
        lemma_para_scan_starts(p);
        let st = para_scan(p);
        let st2 = para_scan(lines);
        assert forall|k: int| 0 <= k < st2.paras.len() implies {
            let q = #[trigger] st2.paras[k];
            0 <= q.0 <= q.1 < lines.len() && !all_ws(lines[q.0])
        } by {
            if k < st.paras.len() {
                assert(st2.paras[k] == st.paras[k]);
                assert(lines[st.paras[k].0] == p[st.paras[k].0]);
            } else {
                let s0 = st.start->0;
                assert(lines[s0] == p[s0]);
            }
        }
        if let Some(s0) = st2.start {
            if st.start is Some {
                assert(lines[s0] == p[s0]);
            }
        }
    }
}

/// Every paragraph starts on a line with more than whitespace.
proof fn lemma_paragraphs_start_nonblank(lines: Seq<Seq<char>>)
    ensures
        forall|k: int|
            0 <= k < paragraphs(lines).len() ==> {
                let q = #[trigger] paragraphs(lines)[k];
                0 <= q.0 <= q.1 < lines.len() && !all_ws(lines[q.0])
            },
{
    lemma_para_scan_starts(lines);
    let st = para_scan(lines);
    if let Some(s0) = st.start {
        lemma_trail_end(lines, s0, lines.len() - 1);
        let ps = paragraphs(lines);
        assert forall|k: int| 0 <= k < ps.len() implies {
            let q = #[trigger] ps[k];
            0 <= q.0 <= q.1 < lines.len() && !all_ws(lines[q.0])
        } by {
            if k < st.paras.len() {
                assert(ps[k] == st.paras[k]);
            }
        }
    }
}

proof fn lemma_para_text_nonblank(lines: Seq<Seq<char>>, q: (int, int))
    requires
        0 <= q.0 <= q.1 < lines.len(),
        !all_ws(lines[q.0]),
    ensures
        !all_ws(para_text(lines, q)),
{
    let parts = lines.subrange(q.0, q.1 + 1);
    assert(parts[0] == lines[q.0]);
    lemma_join_starts_with_first(parts, seq!['\n']);
}

proof fn lemma_group_scan_nonblank(lines: Seq<Seq<char>>, ps: Seq<(int, int)>, path: Seq<char>)
    requires
        ps.len() > 0,
        forall|k: int| 0 <= k < ps.len() ==> {
            let q = #[trigger] ps[k];
            0 <= q.0 <= q.1 < lines.len() && !all_ws(lines[q.0])
        },
    ensures
        !all_ws(group_scan(lines, ps, path).gc),
        forall|k: int| 0 <= k < group_scan(lines, ps, path).chunks.len() ==> !all_ws(#[trigger] group_scan(lines, ps, path).chunks[k].content),
    decreases ps.len(),
{
    if ps.len() <= 1 {
        lemma_para_text_nonblank(lines, ps[0]);
    } else {
        let pp = ps.drop_last();
        assert forall|k: int| 0 <= k < pp.len() implies {
            let q = #[trigger] pp[k];
            0 <= q.0 <= q.1 < lines.len() && !all_ws(lines[q.0])
        } by {
            assert(pp[k] == ps[k]);
        }
        lemma_group_scan_nonblank(lines, pp, path);
        let st = group_scan(lines, pp, path);
        let q = ps.last();
        assert(q == ps[ps.len() - 1]);
        lemma_para_text_nonblank(lines, q);
        lemma_not_ws_concat(st.gc, seq!['\n', '\n']);
        lemma_not_ws_concat(st.gc + seq!['\n', '\n'], para_text(lines, q));
        let st2 = group_scan(lines, ps, path);
        assert forall|k: int| 0 <= k < st2.chunks.len() implies !all_ws(#[trigger] st2.chunks[k].content) by {
            if k < st.chunks.len() {
                assert(st2.chunks[k] == st.chunks[k]);
            }
        }
    }
}

/// Every chunk of plain text holds more than whitespace.
pub proof fn plaintext_chunks_not_blank(content: Seq<char>, path: Seq<char>)
    ensures
        forall|k: int|
            0 <= k < spec_chunk_plaintext(content, path).len() ==> !all_ws(
                #[trigger] spec_chunk_plaintext(content, path)[k].content,
            ),
{
    let lines = lines_of(content);
    let ps = paragraphs(lines);
    lemma_paragraphs_start_nonblank(lines);
    if ps.len() > 0 {
        lemma_group_scan_nonblank(lines, ps, path);
        let st = group_scan(lines, ps, path);
        let out = spec_chunk_plaintext(content, path);
        if utf8_len(st.gc) < MIN_PARAGRAPH_SIZE && st.chunks.len() > 0 {
            let last = st.chunks.last();
            assert(last == st.chunks[st.chunks.len() - 1]);
            lemma_not_ws_concat(last.content + seq!['\n', '\n'], st.gc);
            assert forall|k: int| 0 <= k < out.len() implies !all_ws(#[trigger] out[k].content) by {
                if k < st.chunks.len() - 1 {
                    assert(out[k] == st.chunks[k]);
                }
            }
        } else {
            assert forall|k: int| 0 <= k < out.len() implies !all_ws(#[trigger] out[k].content) by {
                if k < st.chunks.len() {
                    assert(out[k] == st.chunks[k]);
                }
            }
        }
    }
}


/// A part of chunk `c` with its file, kind and the name of part `i`.
pub open spec fn part_of(c: ChunkSpec, d: ChunkSpec, i: int) -> bool {
    d.file_path == c.file_path && d.kind == c.kind && d.name == part_name(c.name, i)
}

proof fn lemma_split_scan_identity(c: ChunkSpec, lines: Seq<Seq<char>>)
    ensures
        split_scan(c, lines).part == split_scan(c, lines).subs.len(),
        forall|i: int|
            0 <= i < split_scan(c, lines).subs.len() ==> part_of(c, #[trigger] split_scan(c, lines).subs[i], i),
    decreases lines.len(),
{
    if lines.len() > 0 {
        lemma_split_scan_identity(c, lines.drop_last());
        let st = split_scan(c, lines.drop_last());
        let st2 = split_scan(c, lines);
        assert forall|i: int| 0 <= i < st2.subs.len() implies part_of(c, #[trigger] st2.subs[i], i) by {
            if i < st.subs.len() {
                assert(st2.subs[i] == st.subs[i]);
            }
        }
    }
}

/// Every part of a split chunk keeps the chunk's file and kind; the first
/// part keeps its name and each later one carries the name followed by `" (cont.)"`.
pub proof fn split_parts_keep_identity(c: ChunkSpec)
    ensures
        forall|i: int|
            0 <= i < spec_enforce_max_size(c).len() ==> part_of(c, #[trigger] spec_enforce_max_size(c)[i], i),
{
    let st = split_scan(c, lines_of(c.content));
    lemma_split_scan_identity(c, lines_of(c.content));
    if utf8_len(c.content) > MAX_CHUNK_SIZE && st.cur.len() > 0 {
        let subs = spec_enforce_max_size(c);
        assert forall|i: int| 0 <= i < subs.len() implies part_of(c, #[trigger] subs[i], i) by {
            if i < st.subs.len() {
                assert(subs[i] == st.subs[i]);
            }
        }
    }
}


/// Every chunk of `cs` belongs to the file at `path`.
pub open spec fn all_at_path(cs: Seq<ChunkSpec>, path: Seq<char>) -> bool {
    forall|i: int| 0 <= i < cs.len() ==> (#[trigger] cs[i]).file_path == path
}

proof fn lemma_group_scan_path(lines: Seq<Seq<char>>, ps: Seq<(int, int)>, path: Seq<char>)
    ensures
        all_at_path(group_scan(lines, ps, path).chunks, path),
    decreases ps.len(),
{
    if ps.len() > 1 {
        lemma_group_scan_path(lines, ps.drop_last(), path);
        let st = group_scan(lines, ps.drop_last(), path);
        let st2 = group_scan(lines, ps, path);
        assert forall|i: int| 0 <= i < st2.chunks.len() implies (#[trigger] st2.chunks[i]).file_path == path by {
            if i < st.chunks.len() {
                assert(st2.chunks[i] == st.chunks[i]);
            }
        }
    }
}

proof fn lemma_plaintext_path(content: Seq<char>, path: Seq<char>)
    ensures
        all_at_path(spec_chunk_plaintext(content, path), path),
{
    let lines = lines_of(content);
    let ps = paragraphs(lines);
    if ps.len() > 0 {
        lemma_group_scan_path(lines, ps, path);
        let st = group_scan(lines, ps, path);
        let r = spec_chunk_plaintext(content, path);
        assert forall|i: int| 0 <= i < r.len() implies (#[trigger] r[i]).file_path == path by {
            if i < st.chunks.len() {
                assert(st.chunks[i].file_path == path);
                if st.chunks.len() > 0 {
                    assert(st.chunks.last().file_path == path);
                }
            }
        }
    }
}

proof fn lemma_split_by_type_path(content: Seq<char>, path: Seq<char>, file_type: Seq<char>)
    ensures
        all_at_path(spec_split_by_type(content, path, file_type), path),
{
    let lines = lines_of(content);
    if file_type == "markdown"@ {
        let hs = headings(lines);
        if hs.len() == 0 {
            lemma_plaintext_path(content, path);
        } else {
            let r = spec_chunk_markdown(content, path);
            assert forall|i: int| 0 <= i < r.len() implies (#[trigger] r[i]).file_path == path by {}
        }
    } else if file_type == "plaintext"@ {
        lemma_plaintext_path(content, path);
    }
}

proof fn lemma_all_sized_parts_path(cs: Seq<ChunkSpec>, path: Seq<char>)
    requires
        all_at_path(cs, path),
    ensures
        all_at_path(all_sized_parts(cs), path),
    decreases cs.len(),
{
    if cs.len() > 0 {
        let p = cs.drop_last();
        assert(all_at_path(p, path)) by {
            assert forall|i: int| 0 <= i < p.len() implies (#[trigger] p[i]).file_path == path by {
                assert(p[i] == cs[i]);
            }
        }
        lemma_all_sized_parts_path(p, path);
        let c = cs.last();
        assert(c.file_path == path);
        split_parts_keep_identity(c);
        let a = all_sized_parts(p);
        let b = sized_parts(c);
        assert forall|i: int| 0 <= i < b.len() implies (#[trigger] b[i]).file_path == path by {
            if c.start_line + lines_of(c.content).len() <= usize::MAX {
                assert(part_of(c, spec_enforce_max_size(c)[i], i));
            }
        }
        let r = all_sized_parts(cs);
        assert forall|i: int| 0 <= i < r.len() implies (#[trigger] r[i]).file_path == path by {
            if i < a.len() {
                assert(r[i] == a[i]);
            } else {
                assert(r[i] == b[i - a.len()]);
            }
        }
    }
}

/// Every chunk of a text file carries the file's path.
pub proof fn text_file_chunks_keep_path(content: Seq<char>, path: Seq<char>, file_type: Seq<char>)
    ensures
        all_at_path(spec_chunk_text_file(content, path, file_type), path),
{
    lemma_split_by_type_path(content, path, file_type);
    let chunks = spec_split_by_type(content, path, file_type);
    if utf8_len(content) >= MIN_SPLIT_SIZE && chunks.len() > 0 {
        lemma_all_sized_parts_path(chunks, path);
    }
}


proof fn lemma_headings_exact(lines: Seq<Seq<char>>)
    ensures
        forall|k: int| 0 <= k < headings(lines).len() ==> heading_of(lines[#[trigger] headings(lines)[k].0]) is Some,
        forall|i: int|
            0 <= i < lines.len() && (#[trigger] heading_of(lines[i])) is Some ==> exists|k: int|
                0 <= k < headings(lines).len() && headings(lines)[k].0 == i,
    decreases lines.len(),
{
    if lines.len() > 0 {
        let p = lines.drop_last();
        lemma_headings_exact(p);
        lemma_headings(p);
        let s = headings(lines);
        let sp = headings(p);
        assert forall|k: int| 0 <= k < s.len() implies heading_of(lines[#[trigger] s[k].0]) is Some by {
            if k < sp.len() {
                assert(s[k] == sp[k]);
                assert(lines[sp[k].0] == p[sp[k].0]);
            }
        }
        assert forall|i: int| 0 <= i < lines.len() && (#[trigger] heading_of(lines[i])) is Some implies exists|k: int|
            0 <= k < s.len() && s[k].0 == i by {
            if i < p.len() {
                assert(p[i] == lines[i]);
                assert(heading_of(p[i]) is Some);
                let k = choose|k: int| 0 <= k < sp.len() && sp[k].0 == i;
                assert(s[k] == sp[k]);
            } else {
                assert(s[s.len() - 1].0 == i);
            }
        }
    }
}

/// A text joined from parts is not all whitespace when one part is not.
proof fn lemma_join_not_blank(parts: Seq<Seq<char>>, sep: Seq<char>, j: int)
    requires
        0 <= j < parts.len(),
        !all_ws(parts[j]),
    ensures
        !all_ws(join(parts, sep)),
    decreases parts.len(),
{
    let x = choose|x: int| 0 <= x < parts[j].len() && !is_ws(#[trigger] parts[j][x]);
    if parts.len() == 1 {
        assert(join(parts, sep) == parts[0]);
    } else if j == parts.len() - 1 {
        let a = join(parts.drop_last(), sep) + sep;
        assert(join(parts, sep) == a + parts[j]);
        assert(join(parts, sep)[a.len() + x] == parts[j][x]);
    } else {
        lemma_join_not_blank(parts.drop_last(), sep, j);
        let b = join(parts.drop_last(), sep);
        let y = choose|y: int| 0 <= y < b.len() && !is_ws(#[trigger] b[y]);
        assert(join(parts, sep) == b + sep + parts.last());
        assert(join(parts, sep)[y] == b[y]);
    }
}

/// When a Markdown file has a heading and some line before its first heading
/// holds more than whitespace, the first chunk is that preamble: a section
/// without a name from line 1 to the line before the first heading, holding
/// those lines.
pub proof fn markdown_preamble_is_first_chunk(content: Seq<char>, path: Seq<char>, h: int, j: int)
    requires
        0 <= j < h < lines_of(content).len(),
        heading_of(lines_of(content)[h]) is Some,
        forall|i: int| 0 <= i < h ==> heading_of(#[trigger] lines_of(content)[i]) is None,
        !all_ws(lines_of(content)[j]),
    ensures
        spec_chunk_markdown(content, path).len() > 0,
        spec_chunk_markdown(content, path)[0] == mk_chunk(
            path,
            1,
            h,
            ChunkKind::HeadingSection,
            None,
            section(lines_of(content), 0, h - 1),
        ),
{
    let lines = lines_of(content);
    let hs = headings(lines);
    lemma_headings(lines);
    lemma_headings_exact(lines);
    assert(heading_of(lines[h]) is Some);
    let k = choose|k: int| 0 <= k < hs.len() && hs[k].0 == h;
    assert(hs[0].0 == h) by {
        if hs[0].0 != h {
            assert(k > 0);
            assert(hs[0].0 < hs[k].0);
            assert(heading_of(lines[hs[0].0]) is Some);
        }
    }
    let sub = lines.subrange(0, h);
    assert(sub[j] == lines[j]);
    lemma_join_not_blank(sub, seq!['\n'], j);
}


proof fn lemma_first_peer_from(hs: Seq<(int, int, Seq<char>)>, i: int, b: int)
    requires
        0 <= i < b <= hs.len(),
        forall|k: int| i < k < b ==> hs[k].1 > hs[i].1,
        exists|j: int| b <= j < hs.len() && #[trigger] hs[j].1 <= hs[i].1,
    ensures
        exists|j: int|
            i < j < hs.len() && #[trigger] hs[j].1 <= hs[i].1 && forall|k: int| i < k < j ==> hs[k].1 > hs[i].1,
    decreases hs.len() - b,
{
    if hs[b].1 <= hs[i].1 {
        assert(i < b < hs.len() && hs[b].1 <= hs[i].1 && forall|k: int| i < k < b ==> hs[k].1 > hs[i].1);
    } else {
        let j = choose|j: int| b <= j < hs.len() && #[trigger] hs[j].1 <= hs[i].1;
        assert(j != b);
        lemma_first_peer_from(hs, i, b + 1);
    }
}

/// The next peer of a heading, when there is one, comes after it.
proof fn lemma_next_peer_after(hs: Seq<(int, int, Seq<char>)>, i: int)
    requires
        0 <= i < hs.len(),
    ensures
        next_peer(hs, i) matches Some(j) ==> i < j < hs.len(),
{
    if exists|j: int| i < j < hs.len() && #[trigger] hs[j].1 <= hs[i].1 {
        lemma_first_peer_from(hs, i, i + 1);
    }
}

proof fn last_heading_upto(hs: Seq<(int, int, Seq<char>)>, j: int, m: int) -> (k: int)
    requires
        1 <= m <= hs.len(),
        hs[0].0 <= j,
        forall|b: int| m <= b < hs.len() ==> hs[b].0 > j,
    ensures
        0 <= k < m,
        hs[k].0 <= j,
        forall|b: int| k < b < hs.len() ==> hs[b].0 > j,
    decreases m,
{
    if hs[m - 1].0 <= j || m == 1 {
        m - 1
    } else {
        last_heading_upto(hs, j, m - 1)
    }
}

/// In a Markdown file with a heading, every line that holds more than
/// whitespace lies within some chunk.
pub proof fn markdown_lines_covered(content: Seq<char>, path: Seq<char>, h: int, j: int)
    requires
        0 <= h < lines_of(content).len(),
        heading_of(lines_of(content)[h]) is Some,
        0 <= j < lines_of(content).len(),
        !all_ws(lines_of(content)[j]),
    ensures
        exists|k: int|
            0 <= k < spec_chunk_markdown(content, path).len() && (#[trigger] spec_chunk_markdown(content, path)[k]).start_line
                <= j + 1 <= spec_chunk_markdown(content, path)[k].end_line,
{
    let lines = lines_of(content);
    let hs = headings(lines);
    lemma_headings(lines);
    lemma_headings_exact(lines);
    let hk = choose|k: int| 0 <= k < hs.len() && hs[k].0 == h;
    let r = spec_chunk_markdown(content, path);
    let h0 = hs[0].0;
    let pre: Seq<ChunkSpec> = if h0 > 0 && !all_ws(section(lines, 0, h0 - 1)) {
        seq![mk_chunk(path, 1, h0, ChunkKind::HeadingSection, None, section(lines, 0, h0 - 1))]
    } else {
        seq![]
    };
    let body = Seq::new(hs.len(), |i: int| heading_chunk(lines, hs, i, path));
    assert(r == pre + body);
    if j < h0 {
        let sub = lines.subrange(0, h0);
        assert(sub[j] == lines[j]);
        lemma_join_not_blank(sub, seq!['\n'], j);
        assert(r[0].start_line <= j + 1 <= r[0].end_line);
    } else {
        let k = last_heading_upto(hs, j, hs.len() as int);
        lemma_next_peer_after(hs, k);
        let c = heading_chunk(lines, hs, k, path);
        assert(r[pre.len() + k] == c);
        assert(c.start_line <= j + 1 <= c.end_line);
    }
}

} // verus!
