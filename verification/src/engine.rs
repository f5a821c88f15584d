//! The search engine's own logic: where a project's files and index live, and
//! which files a Rust file imports.
use vstd::prelude::*;
use std::path::PathBuf;
use std::collections::HashMap;
use crate::db::StoredChunk;
use crate::scanner::{FileType, is_text};
use crate::text::{
    vv, lines_of, split_lines, to_chars, from_chars, trim, trimmed, has_prefix, starts_with, join, join_range,
    split_by, split_pieces, Sep, slice_vec, strip_trailing, strip_trailing_char, contains_sub, contains_sub_exec,
    find_sub, find_sub_exec, replace_all, replace_all_exec, find_last_opt, find_last_exec, push_all,
    before_sub, before_sub_exec, after_last_sub, after_last_sub_exec, strip_both, strip_both_exec, strip_prefixes,
    strip_prefixes_exec, slice_vec_all, strip_trailing_char as strip_end,
};

verus! {

broadcast use vstd::std_specs::hash::group_hash_axioms;

/// `std::path::PathBuf`, carried through unopened.
#[verifier::external_type_specification]
#[verifier::external_body]
pub struct ExPathBuf(PathBuf);

/// `PathBuf::clone`; nothing is stated of the copy.
pub assume_specification[ <PathBuf as Clone>::clone ](p: &PathBuf) -> PathBuf;

/// Calls `dirs::cache_dir`: the user's cache directory, when the platform has
/// one. It depends on the environment, so nothing is stated of it.
#[verifier::external_body]
fn user_cache_dir() -> Option<PathBuf> {
    dirs::cache_dir()
}

/// Calls `PathBuf::from` on a text.
#[verifier::external_body]
fn path_from(s: &str) -> PathBuf {
    PathBuf::from(s)
}

/// Calls `Path::join`: the path with one more component.
#[verifier::external_body]
fn path_join(p: &PathBuf, part: &str) -> PathBuf {
    p.join(part)
}

/// A search engine over one project directory; `C` is the type of the
/// callback told the name of each model file as it downloads.
#[derive(Clone)]
pub struct SearchEngine<C> {
    project_root: PathBuf,
    embedder_cache_dir: PathBuf,
    download_callback: Option<C>,
}

impl<C> SearchEngine<C> {
    /// The project directory searched.
    pub closed spec fn root_path(&self) -> PathBuf {
        self.project_root
    }

    /// Where the embedding model is cached.
    pub closed spec fn cache_path(&self) -> PathBuf {
        self.embedder_cache_dir
    }

    /// The download callback, if one is set.
    pub closed spec fn callback(&self) -> Option<C> {
        self.download_callback
    }

    /// An engine for `project_root`, caching its model under the user's cache
    /// directory (or `/tmp`) in `search-semantically/models`, with no callback.
    pub fn new(project_root: PathBuf) -> (r: Self)
        ensures
            r.root_path() == project_root,
            r.callback() is None,
    {
        let base = match user_cache_dir() {
            Some(p) => p,
            None => path_from("/tmp"),
        };
        let dir = path_join(&base, "search-semantically");
        let embedder_cache_dir = path_join(&dir, "models");
        SearchEngine { project_root, embedder_cache_dir, download_callback: None }
    }

    /// The engine with a download callback.
    pub fn with_download_callback(self, callback: C) -> (r: Self)
        ensures
            r.root_path() == self.root_path(),
            r.cache_path() == self.cache_path(),
            r.callback() == Some(callback),
    {
        let mut s = self;
        s.download_callback = Some(callback);
        s
    }

    /// Sets the download callback.
    pub fn set_download_callback(&mut self, callback: C)
        ensures
            final(self).root_path() == old(self).root_path(),
            final(self).cache_path() == old(self).cache_path(),
            final(self).callback() == Some(callback),
    {
        self.download_callback = Some(callback);
    }

    /// The project directory.
    pub fn project_root(&self) -> (r: &PathBuf)
        ensures
            *r == self.root_path(),
    {
        &self.project_root
    }

    /// The model cache directory.
    pub fn embedder_cache_dir(&self) -> (r: &PathBuf)
        ensures
            *r == self.cache_path(),
    {
        &self.embedder_cache_dir
    }

    /// The download callback, if one is set.
    pub fn download_callback(&self) -> (r: &Option<C>)
        ensures
            *r == self.callback(),
    {
        &self.download_callback
    }

    /// For each file id among the chunks, the ids of its chunks in order.
    pub fn build_file_chunk_map(&self, chunks: &[StoredChunk]) -> (r: HashMap<i64, Vec<i64>>)
        ensures
            forall|f: i64| #[trigger] r@.contains_key(f) <==> exists|k: int| 0 <= k < chunks@.len() && chunks@[k].file_id == f,
            forall|f: i64| #[trigger] r@.contains_key(f) ==> r@[f]@ == chunk_ids_of(chunks@, f),
    {
        file_chunk_map(chunks)
    }
}

/// The ids of the chunks of file `f`, in order.
pub open spec fn chunk_ids_of(chunks: Seq<StoredChunk>, f: i64) -> Seq<i64>
    decreases chunks.len(),
{
    if chunks.len() == 0 {
        seq![]
    } else if chunks.last().file_id == f {
        chunk_ids_of(chunks.drop_last(), f).push(chunks.last().id)
    } else {
        chunk_ids_of(chunks.drop_last(), f)
    }
}

fn file_chunk_map(chunks: &[StoredChunk]) -> (r: HashMap<i64, Vec<i64>>)
    ensures
        forall|f: i64| #[trigger] r@.contains_key(f) <==> exists|k: int| 0 <= k < chunks@.len() && chunks@[k].file_id == f,
        forall|f: i64| #[trigger] r@.contains_key(f) ==> r@[f]@ == chunk_ids_of(chunks@, f),
{
    let mut map: HashMap<i64, Vec<i64>> = HashMap::new();
    let mut i: usize = 0;
    while i < chunks.len()
        invariant
            i <= chunks@.len(),
            forall|f: i64| #[trigger] map@.contains_key(f) <==> exists|k: int| 0 <= k < i && chunks@[k].file_id == f,
            forall|f: i64| #[trigger] map@.contains_key(f) ==> map@[f]@ == chunk_ids_of(chunks@.take(i as int), f),
        decreases chunks@.len() - i,
    {
        let fid = chunks[i].file_id;
        let id = chunks[i].id;
        let ghost before = map@;
        let mut ids = match map.remove(&fid) {
            Some(v) => v,
            None => Vec::new(),
        };
        proof {
            assert(chunks@.take(i + 1).drop_last() =~= chunks@.take(i as int));
            assert(chunks@.take(i + 1).last() == chunks@[i as int]);
            if !before.contains_key(fid) {
                assert forall|k: int| 0 <= k < i implies chunks@[k].file_id != fid by {
                    if chunks@[k].file_id == fid {
                        assert(before.contains_key(chunks@[k].file_id));
                    }
                }
                lemma_no_ids(chunks@.take(i as int), fid);
            }
        }
        ids.push(id);
        map.insert(fid, ids);
        proof {
            assert forall|f: i64| #[trigger] map@.contains_key(f) implies map@[f]@ == chunk_ids_of(chunks@.take(i + 1), f) by {
                if f != fid {
                    assert(before.contains_key(f));
                }
            }
            assert forall|f: i64| (exists|k: int| 0 <= k < i + 1 && chunks@[k].file_id == f) implies #[trigger] map@.contains_key(f) by {
                if f != fid {
                    let k = choose|k: int| 0 <= k < i + 1 && chunks@[k].file_id == f;
                    assert(k < i);
                    assert(before.contains_key(f));
                }
            }
        }
        i = i + 1;
    }
    proof {
        assert(chunks@.take(i as int) =~= chunks@);
    }
    map
}

/// The distinct file ids of the chunks, in order of first appearance.
pub open spec fn file_ids(chunks: Seq<StoredChunk>) -> Seq<i64>
    decreases chunks.len(),
{
    if chunks.len() == 0 {
        seq![]
    } else if file_ids(chunks.drop_last()).contains(chunks.last().file_id) {
        file_ids(chunks.drop_last())
    } else {
        file_ids(chunks.drop_last()).push(chunks.last().file_id)
    }
}

/// The combined length of the chunk-id lists of the files `fs`.
pub open spec fn ids_total(chunks: Seq<StoredChunk>, fs: Seq<i64>) -> int
    decreases fs.len(),
{
    if fs.len() == 0 {
        0
    } else {
        ids_total(chunks, fs.drop_last()) + chunk_ids_of(chunks, fs.last()).len()
    }
}

proof fn lemma_file_ids(chunks: Seq<StoredChunk>)
    ensures
        forall|f: i64| file_ids(chunks).contains(f) <==> exists|k: int| 0 <= k < chunks.len() && chunks[k].file_id == f,
        forall|i: int, j: int| 0 <= i < j < file_ids(chunks).len() ==> file_ids(chunks)[i] != file_ids(chunks)[j],
    decreases chunks.len(),
{
    if chunks.len() > 0 {
        let p = chunks.drop_last();
        lemma_file_ids(p);
        let fp = file_ids(p);
        let fc = file_ids(chunks);
        assert forall|f: i64| fc.contains(f) <==> exists|k: int| 0 <= k < chunks.len() && chunks[k].file_id == f by {
            if fc.contains(f) {
                if fp.contains(f) {
                    let k = choose|k: int| 0 <= k < p.len() && p[k].file_id == f;
                    assert(chunks[k] == p[k]);
                } else {
                    assert(f == chunks.last().file_id);
                    assert(chunks[chunks.len() - 1].file_id == f);
                }
            }
            if exists|k: int| 0 <= k < chunks.len() && chunks[k].file_id == f {
                let k = choose|k: int| 0 <= k < chunks.len() && chunks[k].file_id == f;
                if k < p.len() {
                    assert(p[k] == chunks[k]);
                    assert(fp.contains(f));
                    if !fp.contains(chunks.last().file_id) {
                        let x = choose|x: int| 0 <= x < fp.len() && fp[x] == f;
                        assert(fc[x] == f);
                    }
                } else {
                    if !fp.contains(chunks.last().file_id) {
                        assert(fc[fp.len() as int] == f);
                    }
                }
            }
        }
    }
}

proof fn lemma_ids_total_step(chunks: Seq<StoredChunk>, fs: Seq<i64>)
    requires
        chunks.len() > 0,
        forall|i: int, j: int| 0 <= i < j < fs.len() ==> fs[i] != fs[j],
    ensures
        fs.contains(chunks.last().file_id) ==> ids_total(chunks, fs) == ids_total(chunks.drop_last(), fs) + 1,
        !fs.contains(chunks.last().file_id) ==> ids_total(chunks, fs) == ids_total(chunks.drop_last(), fs),
    decreases fs.len(),
{
    if fs.len() > 0 {
        let q = fs.drop_last();
        assert forall|i: int, j: int| 0 <= i < j < q.len() implies q[i] != q[j] by {
            assert(q[i] == fs[i] && q[j] == fs[j]);
        }
        lemma_ids_total_step(chunks, q);
        let f = chunks.last().file_id;
        if fs.last() == f {
            assert(!q.contains(f)) by {
                if q.contains(f) {
                    let x = choose|x: int| 0 <= x < q.len() && q[x] == f;
                    assert(fs[x] == fs[fs.len() - 1]);
                }
            }
            assert(fs.contains(f)) by {
                assert(fs[fs.len() - 1] == f);
            }
        } else {
            assert(fs.contains(f) <==> q.contains(f)) by {
                if fs.contains(f) {
                    let x = choose|x: int| 0 <= x < fs.len() && fs[x] == f;
                    assert(x < q.len());
                    assert(q[x] == f);
                }
                if q.contains(f) {
                    let x = choose|x: int| 0 <= x < q.len() && q[x] == f;
                    assert(fs[x] == f);
                }
            }
        }
    }
}

/// The chunk-id lists of all files together hold every chunk once: their
/// lengths, over the distinct file ids, add up to the number of chunks.
pub proof fn file_chunk_lists_cover_chunks(chunks: Seq<StoredChunk>)
    ensures
        forall|f: i64| file_ids(chunks).contains(f) <==> exists|k: int| 0 <= k < chunks.len() && chunks[k].file_id == f,
        ids_total(chunks, file_ids(chunks)) == chunks.len(),
    decreases chunks.len(),
{
    lemma_file_ids(chunks);
    if chunks.len() > 0 {
        let p = chunks.drop_last();
        file_chunk_lists_cover_chunks(p);
        lemma_file_ids(p);
        let fp = file_ids(p);
        let f = chunks.last().file_id;
        lemma_ids_total_step(chunks, fp);
        if !fp.contains(f) {
            let fc = fp.push(f);
            assert(fc.drop_last() =~= fp);
            assert forall|k: int| 0 <= k < p.len() implies p[k].file_id != f by {
                if p[k].file_id == f {
                    assert(fp.contains(p[k].file_id));
                }
            }
            lemma_no_ids(p, f);
            assert(chunk_ids_of(chunks, f) == chunk_ids_of(p, f).push(chunks.last().id));
        }
    }
}

proof fn lemma_no_ids(chunks: Seq<StoredChunk>, f: i64)
    requires
        forall|k: int| 0 <= k < chunks.len() ==> chunks[k].file_id != f,
    ensures
        chunk_ids_of(chunks, f) == Seq::<i64>::empty(),
    decreases chunks.len(),
{
    if chunks.len() > 0 {
        lemma_no_ids(chunks.drop_last(), f);
    }
}

/// A crate path written with `/` between its parts, resolved to a file path:
/// `crate::` (and a following `super::` or `self::`) and a leading `super::`
/// or `self::` are dropped; `std`, `core` and `alloc` paths go under `lib/`.
pub open spec fn spec_resolve_rust_path(path: Seq<char>) -> Seq<char> {
    let parts = split_by(path, Sep::Slash);
    if parts.len() < 2 {
        path
    } else if parts[0] == "crate"@ {
        let rest = parts.skip(1);
        if rest[0] == "super"@ || rest[0] == "self"@ {
            join(rest.skip(1), "/"@)
        } else {
            join(rest, "/"@)
        }
    } else if parts[0] == "super"@ || parts[0] == "self"@ {
        join(parts.skip(1), "/"@)
    } else if parts[0] == "std"@ {
        "lib/std/"@ + join(parts.skip(1), "/"@)
    } else if parts[0] == "core"@ {
        "lib/core/"@ + join(parts.skip(1), "/"@)
    } else if parts[0] == "alloc"@ {
        "lib/alloc/"@ + join(parts.skip(1), "/"@)
    } else {
        join(parts, "/"@)
    }
}

fn lit(s: &str) -> (r: Vec<char>)
    ensures
        r@ == s@,
{
    to_chars(s)
}

/// Resolves a `/`-separated crate path to a file path.
pub fn resolve_rust_path(crate_path: &str) -> (r: String)
    ensures
        r@ == spec_resolve_rust_path(crate_path@),
{
    let c = to_chars(crate_path);
    let parts = split_pieces(c.as_slice(), Sep::Slash);
    let n = parts.len();
    let ghost ps = vv(parts@);
    proof {
        assert(ps.len() == n);
    }
    if n < 2 {
        return from_chars(c.as_slice());
    }
    let slash = lit("/");
    let p0 = parts[0].as_slice();
    proof {
        assert(ps[0] == parts@[0]@);
        assert(ps[1] == parts@[1]@);
        assert(ps.skip(1).subrange(0, 0) =~= seq![]);
    }
    let joined = if is_text(p0, "crate") {
        let p1 = parts[1].as_slice();
        proof {
            assert(ps.skip(1)[0] == ps[1]);
        }
        if is_text(p1, "super") || is_text(p1, "self") {
            proof {
                assert(ps.subrange(2, n as int) =~= ps.skip(1).skip(1));
            }
            join_range(&parts, 2, n, slash.as_slice())
        } else {
            proof {
                assert(ps.subrange(1, n as int) =~= ps.skip(1));
            }
            join_range(&parts, 1, n, slash.as_slice())
        }
    } else if is_text(p0, "super") || is_text(p0, "self") {
        proof {
            assert(ps.subrange(1, n as int) =~= ps.skip(1));
        }
        join_range(&parts, 1, n, slash.as_slice())
    } else if is_text(p0, "std") || is_text(p0, "core") || is_text(p0, "alloc") {
        proof {
            assert(ps.subrange(1, n as int) =~= ps.skip(1));
        }
        let rest = join_range(&parts, 1, n, slash.as_slice());
        let mut out = if is_text(p0, "std") {
            lit("lib/std/")
        } else if is_text(p0, "core") {
            lit("lib/core/")
        } else {
            lit("lib/alloc/")
        };
        push_all(&mut out, rest.as_slice());
        out
    } else {
        proof {
            assert(ps.subrange(0, n as int) =~= ps);
        }
        join_range(&parts, 0, n, slash.as_slice())
    };
    from_chars(joined.as_slice())
}

/// Joins lines `j..` trimmed onto `acc`, each after a space, until the text
/// holds `"};"`; the joined text then, or `None` when the lines run out first.
pub open spec fn scan_close(lines: Seq<Seq<char>>, j: int, acc: Seq<char>) -> Option<Seq<char>>
    decreases lines.len() - j,
{
    if j < 0 || j >= lines.len() {
        None
    } else {
        let acc2 = acc + seq![' '] + trim(lines[j]);
        if contains_sub(acc2, "};"@) {
            Some(acc2)
        } else {
            scan_close(lines, j + 1, acc2)
        }
    }
}

/// The whole `use` statement starting at line `i`: the trimmed line, joined
/// with the lines after it when it opens a group (`::{`) that it does not
/// close (`};`); `None` when the group is never closed.
pub open spec fn full_use_line(lines: Seq<Seq<char>>, i: int) -> Option<Seq<char>> {
    let t = trim(lines[i]);
    if contains_sub(t, "::{"@) && !contains_sub(t, "};"@) {
        scan_close(lines, i + 1, t)
    } else {
        Some(t)
    }
}

proof fn lemma_scan_close_prefix(lines: Seq<Seq<char>>, j: int, acc: Seq<char>)
    ensures
        scan_close(lines, j, acc) matches Some(f) ==> acc.len() <= f.len() && f.take(acc.len() as int) == acc,
    decreases lines.len() - j,
{
    if 0 <= j < lines.len() {
        let acc2 = acc + seq![' '] + trim(lines[j]);
        assert(acc2.take(acc.len() as int) =~= acc);
        if !contains_sub(acc2, "};"@) {
            lemma_scan_close_prefix(lines, j + 1, acc2);
            if let Some(f) = scan_close(lines, j + 1, acc2) {
                assert(f.take(acc.len() as int) =~= f.take(acc2.len() as int).take(acc.len() as int));
            }
        }
    }
}

/// A `use` statement keeps the line's leading `use `.
proof fn lemma_full_use_prefix(lines: Seq<Seq<char>>, i: int)
    requires
        0 <= i < lines.len(),
        has_prefix(trim(lines[i]), "use "@),
    ensures
        full_use_line(lines, i) matches Some(f) ==> has_prefix(f, "use "@),
{
    reveal_strlit("use ");
    let t = trim(lines[i]);
    lemma_scan_close_prefix(lines, i + 1, t);
    if let Some(f) = full_use_line(lines, i) {
        if contains_sub(t, "::{"@) && !contains_sub(t, "};"@) {
            assert(f.subrange(0, 4) =~= f.take(t.len() as int).subrange(0, 4));
            assert(t.subrange(0, 4) == "use "@);
        }
    }
}

/// The path of a `use` statement: after `use `, trimmed, `;`s dropped from the end.
pub open spec fn use_path(full: Seq<char>) -> Seq<char> {
    trim(strip_trailing(trim(full.skip(4)), ';'))
}

/// The imports of a group: each non-empty trimmed item after the base.
pub open spec fn group_items(pieces: Seq<Seq<char>>, base: Seq<char>) -> Seq<Seq<char>>
    decreases pieces.len(),
{
    if pieces.len() == 0 {
        seq![]
    } else {
        let rest = group_items(pieces.drop_last(), base);
        let item = trim(pieces.last());
        if item.len() == 0 {
            rest
        } else {
            rest.push(spec_resolve_rust_path(base + "/"@ + item))
        }
    }
}

/// The imports a `use` path names: one per item of a `{..}` group, or the path itself.
pub open spec fn path_imports(p: Seq<char>) -> Seq<Seq<char>> {
    match find_sub(p, "::{"@) {
        Some(bs) => {
            let after = p.skip(bs + 3);
            match find_last_opt(after, '}') {
                None => seq![],
                Some(c) => group_items(
                    split_by(trim(after.take(c)), Sep::Comma),
                    replace_all(p.take(bs), "::"@, "/"@),
                ),
            }
        },
        None => seq![spec_resolve_rust_path(replace_all(p, "::"@, "/"@))],
    }
}

/// The imports a line contributes: those of the `use` statement it starts.
pub open spec fn line_imports(lines: Seq<Seq<char>>, i: int) -> Seq<Seq<char>> {
    if !has_prefix(trim(lines[i]), "use "@) {
        seq![]
    } else {
        match full_use_line(lines, i) {
            None => seq![],
            Some(f) => path_imports(use_path(f)),
        }
    }
}

/// The imports of the first `m` lines, in order.
pub open spec fn imports_upto(lines: Seq<Seq<char>>, m: int) -> Seq<Seq<char>>
    decreases m,
{
    if m <= 0 {
        seq![]
    } else {
        imports_upto(lines, m - 1) + line_imports(lines, m - 1)
    }
}

/// The file paths that the `use` statements of a Rust text import.
pub open spec fn spec_extract_rust_imports(content: Seq<char>) -> Seq<Seq<char>> {
    imports_upto(lines_of(content), lines_of(content).len() as int)
}

/// The string views of a list of strings.
pub open spec fn sv(v: Seq<String>) -> Seq<Seq<char>> {
    v.map_values(|s: String| s@)
}

fn full_use_line_exec(lines: &Vec<Vec<char>>, i: usize) -> (r: Option<Vec<char>>)
    requires
        i < lines@.len(),
    ensures
        match r {
            Some(v) => full_use_line(vv(lines@), i as int) == Some(v@),
            None => full_use_line(vv(lines@), i as int) is None,
        },
{
    let ghost ls = vv(lines@);
    let t = trimmed(lines[i].as_slice());
    proof {
        assert(ls[i as int] == lines@[i as int]@);
    }
    let open = lit("::{");
    let close = lit("};");
    if !(contains_sub_exec(t.as_slice(), open.as_slice()) && !contains_sub_exec(t.as_slice(), close.as_slice())) {
        return Some(t);
    }
    let n = lines.len();
    let mut acc = t;
    let mut j = i + 1;
    while j < n
        invariant
            i < j <= n == lines@.len() == ls.len(),
            ls == vv(lines@),
            close@ == "};"@,
            full_use_line(ls, i as int) == scan_close(ls, j as int, acc@),
        decreases n - j,
    {
        proof {
            assert(ls[j as int] == lines@[j as int]@);
        }
        let ghost acc0 = acc@;
        acc.push(' ');
        let tj = trimmed(lines[j].as_slice());
        push_all(&mut acc, tj.as_slice());
        proof {
            assert(acc@ =~= acc0 + seq![' '] + trim(ls[j as int]));
        }
        if contains_sub_exec(acc.as_slice(), close.as_slice()) {
            return Some(acc);
        }
        j = j + 1;
    }
    None
}

fn group_items_exec(pieces: &Vec<Vec<char>>, base: &[char]) -> (r: Vec<String>)
    ensures
        sv(r@) == group_items(vv(pieces@), base@),
{
    let ghost ps = vv(pieces@);
    let mut out: Vec<String> = Vec::new();
    let mut k: usize = 0;
    while k < pieces.len()
        invariant
            k <= pieces@.len() == ps.len(),
            ps == vv(pieces@),
            sv(out@) == group_items(ps.take(k as int), base@),
        decreases pieces@.len() - k,
    {
        proof {
            assert(ps.take(k + 1).drop_last() =~= ps.take(k as int));
            assert(ps.take(k + 1).last() == pieces@[k as int]@);
        }
        let item = trimmed(pieces[k].as_slice());
        if item.len() > 0 {
            let mut full = slice_vec(base, 0, base.len());
            full.push('/');
            push_all(&mut full, item.as_slice());
            let ghost fv = full@;
            proof {
                assert(base@.subrange(0, base@.len() as int) =~= base@);
                assert(fv =~= base@ + "/"@ + item@) by {
                    reveal_strlit("/");
                }
            }
            let s = from_chars(full.as_slice());
            let resolved = resolve_rust_path(s.as_str());
            let ghost before = sv(out@);
            let ghost rs = resolved@;
            out.push(resolved);
            proof {
                assert(sv(out@) =~= before.push(rs));
            }
        }
        k = k + 1;
    }
    proof {
        assert(ps.take(k as int) =~= ps);
    }
    out
}

fn path_imports_exec(p: &[char]) -> (r: Vec<String>)
    ensures
        sv(r@) == path_imports(p@),
{
    let _n = p.len();
    let open = lit("::{");
    let sep = lit("::");
    let slash = lit("/");
    match find_sub_exec(p, open.as_slice()) {
        Some(bs) => {
            proof {
                reveal_strlit("::{");
                crate::text::lemma_find_sub_bounds(p@, open@);
            }
            let after = slice_vec(p, bs + 3, p.len());
            proof {
                assert(after@ =~= p@.skip(bs + 3));
            }
            match find_last_exec(after.as_slice(), '}') {
                None => Vec::new(),
                Some(c) => {
                    let inner_raw = slice_vec(after.as_slice(), 0, c);
                    proof {
                        assert(inner_raw@ =~= after@.take(c as int));
                    }
                    let inner = trimmed(inner_raw.as_slice());
                    let pieces = crate::text::split_pieces(inner.as_slice(), Sep::Comma);
                    let base_raw = slice_vec(p, 0, bs);
                    proof {
                        assert(base_raw@ =~= p@.take(bs as int));
                    }
                    let base = replace_all_exec(base_raw.as_slice(), sep.as_slice(), slash.as_slice());
                    group_items_exec(&pieces, base.as_slice())
                },
            }
        },
        None => {
            let q = replace_all_exec(p, sep.as_slice(), slash.as_slice());
            let qs = from_chars(q.as_slice());
            let resolved = resolve_rust_path(qs.as_str());
            let ghost rs = resolved@;
            let out = vec![resolved];
            proof {
                assert(sv(out@) =~= seq![rs]);
            }
            out
        },
    }
}

/// The file paths that the `use` statements of a Rust text import, in order:
/// each path with `::` written `/`, each item of a `{..}` group (which may
/// span lines) on its own, resolved by `resolve_rust_path`.
pub fn extract_rust_imports(content: &str) -> (r: Vec<String>)
    ensures
        sv(r@) == spec_extract_rust_imports(content@),
{
    let c = to_chars(content);
    let lines = split_lines(c.as_slice());
    let ghost ls = vv(lines@);
    let n = lines.len();
    proof {
        assert(ls.len() == n);
    }
    let use_kw = lit("use ");
    let mut imports: Vec<String> = Vec::new();
    let mut i: usize = 0;
    while i < n
        invariant
            i <= n == lines@.len() == ls.len(),
            ls == vv(lines@),
            ls == lines_of(content@),
            use_kw@ == "use "@,
            sv(imports@) == imports_upto(ls, i as int),
        decreases n - i,
    {
        proof {
            assert(ls[i as int] == lines@[i as int]@);
        }
        let t = trimmed(lines[i].as_slice());
        if starts_with(t.as_slice(), use_kw.as_slice()) {
            match full_use_line_exec(&lines, i) {
                Some(full) => {
                    proof {
                        assert(has_prefix(full@, "use "@)) by {
                            lemma_full_use_prefix(ls, i as int);
                        }
                        reveal_strlit("use ");
                    }
                    let rest = slice_vec(full.as_slice(), 4, full.len());
                    proof {
                        assert(rest@ =~= full@.skip(4));
                    }
                    let a = trimmed(rest.as_slice());
                    let b = strip_trailing_char(a.as_slice(), ';');
                    let path = trimmed(b.as_slice());
                    let mut found = path_imports_exec(path.as_slice());
                    let ghost before = sv(imports@);
                    let ghost fs = sv(found@);
                    imports.append(&mut found);
                    proof {
                        assert(sv(imports@) =~= before + fs);
                    }
                },
                None => {},
            }
        }
        i = i + 1;
    }
    imports
}

/// The files that a file imports; only Rust imports are read.
pub fn extract_imports(content: &str, file_type: &FileType) -> (r: Vec<String>)
    ensures
        sv(r@) == (match file_type {
            FileType::Rust => spec_extract_rust_imports(content@),
            _ => Seq::<Seq<char>>::empty(),
        }),
{
    match file_type {
        FileType::Rust => extract_rust_imports(content),
        _ => {
            let r: Vec<String> = Vec::new();
            proof {
                assert(sv(r@) =~= Seq::<Seq<char>>::empty());
            }
            r
        },
    }
}

/// The last position in `v` holding `x`.
pub open spec fn last_index(v: Seq<Seq<char>>, x: Seq<char>) -> Option<int>
    decreases v.len(),
{
    if v.len() == 0 {
        None
    } else if v.last() == x {
        Some(v.len() - 1)
    } else {
        last_index(v.drop_last(), x)
    }
}

/// How an index is brought up to date with a scan: files new to the index,
/// scanned files paired with their indexed record (to be compared by
/// modification time), and indexed files no longer found.
pub struct IndexPlan {
    pub to_add: Vec<usize>,
    pub to_check: Vec<(usize, usize)>,
    pub to_remove: Vec<usize>,
}

/// Scanned files among the first `m` that are new to the index.
pub open spec fn new_upto(scanned: Seq<Seq<char>>, existing: Seq<Seq<char>>, m: int) -> Seq<int>
    decreases m,
{
    if m <= 0 {
        seq![]
    } else if last_index(existing, scanned[m - 1]) is None {
        new_upto(scanned, existing, m - 1).push(m - 1)
    } else {
        new_upto(scanned, existing, m - 1)
    }
}

/// Scanned files among the first `m` paired with their indexed record.
pub open spec fn pairs_upto(scanned: Seq<Seq<char>>, existing: Seq<Seq<char>>, m: int) -> Seq<(int, int)>
    decreases m,
{
    if m <= 0 {
        seq![]
    } else {
        match last_index(existing, scanned[m - 1]) {
            Some(k) => pairs_upto(scanned, existing, m - 1).push((m - 1, k)),
            None => pairs_upto(scanned, existing, m - 1),
        }
    }
}

/// Indexed files among the first `m` that the scan did not find.
pub open spec fn gone_upto(scanned: Seq<Seq<char>>, existing: Seq<Seq<char>>, m: int) -> Seq<int>
    decreases m,
{
    if m <= 0 {
        seq![]
    } else if last_index(scanned, existing[m - 1]) is None {
        gone_upto(scanned, existing, m - 1).push(m - 1)
    } else {
        gone_upto(scanned, existing, m - 1)
    }
}

/// The plan: new files, pairs and removed files, each in the order of its list.
pub open spec fn spec_plan(p: IndexPlan, scanned: Seq<Seq<char>>, existing: Seq<Seq<char>>) -> bool {
    &&& p.to_add@.map_values(|k: usize| k as int) == new_upto(scanned, existing, scanned.len() as int)
    &&& p.to_check@.map_values(|q: (usize, usize)| (q.0 as int, q.1 as int)) == pairs_upto(scanned, existing, scanned.len() as int)
    &&& p.to_remove@.map_values(|k: usize| k as int) == gone_upto(scanned, existing, existing.len() as int)
}

fn last_index_exec(v: &Vec<String>, x: &str) -> (r: Option<usize>)
    ensures
        match r {
            Some(k) => last_index(sv(v@), x@) == Some(k as int) && k < v@.len(),
            None => last_index(sv(v@), x@) is None,
        },
{
    let xc = to_chars(x);
    let mut j: usize = v.len();
    proof {
        assert(sv(v@).take(j as int) =~= sv(v@));
    }
    while j > 0
        invariant
            j <= v@.len(),
            xc@ == x@,
            last_index(sv(v@), x@) == last_index(sv(v@).take(j as int), x@),
        decreases j,
    {
        proof {
            assert(sv(v@).take(j as int).drop_last() =~= sv(v@).take(j - 1));
            assert(sv(v@).take(j as int).last() == v@[j - 1]@);
        }
        let e = to_chars(v[j - 1].as_str());
        if crate::text::chars_eq(e.as_slice(), xc.as_slice()) {
            return Some(j - 1);
        }
        j = j - 1;
    }
    None
}

/// Compares the scanned paths with the indexed ones.
pub fn plan_index(scanned: &Vec<String>, existing: &Vec<String>) -> (r: IndexPlan)
    ensures
        spec_plan(r, sv(scanned@), sv(existing@)),
{
    let ghost sc = sv(scanned@);
    let ghost ex = sv(existing@);
    let mut to_add: Vec<usize> = Vec::new();
    let mut to_check: Vec<(usize, usize)> = Vec::new();
    let mut i: usize = 0;
    while i < scanned.len()
        invariant
            i <= scanned@.len() == sc.len(),
            sc == sv(scanned@),
            ex == sv(existing@),
            to_add@.map_values(|k: usize| k as int) == new_upto(sc, ex, i as int),
            to_check@.map_values(|q: (usize, usize)| (q.0 as int, q.1 as int)) == pairs_upto(sc, ex, i as int),
        decreases scanned@.len() - i,
    {
        proof {
            assert(sc[i as int] == scanned@[i as int]@);
        }
        match last_index_exec(existing, scanned[i].as_str()) {
            Some(k) => {
                let ghost before = to_check@.map_values(|q: (usize, usize)| (q.0 as int, q.1 as int));
                to_check.push((i, k));
                proof {
                    assert(to_check@.map_values(|q: (usize, usize)| (q.0 as int, q.1 as int)) =~= before.push(
                        (i as int, k as int),
                    ));
                }
            },
            None => {
                let ghost before = to_add@.map_values(|k: usize| k as int);
                to_add.push(i);
                proof {
                    assert(to_add@.map_values(|k: usize| k as int) =~= before.push(i as int));
                }
            },
        }
        i = i + 1;
    }
    let mut to_remove: Vec<usize> = Vec::new();
    let mut k: usize = 0;
    while k < existing.len()
        invariant
            k <= existing@.len() == ex.len(),
            sc == sv(scanned@),
            ex == sv(existing@),
            to_remove@.map_values(|j: usize| j as int) == gone_upto(sc, ex, k as int),
        decreases existing@.len() - k,
    {
        proof {
            assert(ex[k as int] == existing@[k as int]@);
        }
        if last_index_exec(scanned, existing[k].as_str()).is_none() {
            let ghost before = to_remove@.map_values(|j: usize| j as int);
            to_remove.push(k);
            proof {
                assert(to_remove@.map_values(|j: usize| j as int) =~= before.push(k as int));
            }
        }
        k = k + 1;
    }
    IndexPlan { to_add, to_check, to_remove }
}

/// The chunks whose file path starts with `dir`.
pub open spec fn in_dir(cs: Seq<StoredChunk>, dir: Seq<char>) -> Seq<StoredChunk>
    decreases cs.len(),
{
    if cs.len() == 0 {
        seq![]
    } else if has_prefix(cs.last().file_path@, dir) {
        in_dir(cs.drop_last(), dir).push(cs.last())
    } else {
        in_dir(cs.drop_last(), dir)
    }
}

/// Keeps the chunks of files under `dir` (by path prefix), in order.
pub fn restrict_to_dir(chunks: Vec<StoredChunk>, dir: &str) -> (r: Vec<StoredChunk>)
    ensures
        r@ == in_dir(chunks@, dir@),
{
    let ghost input = chunks@;
    let d = to_chars(dir);
    let mut src = chunks;
    let mut out: Vec<StoredChunk> = Vec::new();
    let ghost total = src@.len();
    proof {
        assert(src@ =~= input.skip(0));
    }
    while src.len() > 0
        invariant
            total == input.len(),
            src@.len() <= total,
            d@ == dir@,
            src@ == input.skip(total - src@.len()),
            out@ == in_dir(input.take(total - src@.len()), dir@),
        decreases src@.len(),
    {
        let ghost i = total - src@.len();
        let ghost before = src@;
        let c = src.remove(0);
        proof {
            assert(before[0] == input[i]);
            assert(src@ =~= input.skip(i + 1));
            assert(input.take(i + 1).drop_last() =~= input.take(i));
            assert(input.take(i + 1).last() == c);
        }
        let p = to_chars(c.file_path.as_str());
        if starts_with(p.as_slice(), d.as_slice()) {
            out.push(c);
        }
    }
    proof {
        assert(input.take(total as int) =~= input);
    }
    out
}

/// The position of the last chunk with id `id`.
pub open spec fn chunk_index(cs: Seq<StoredChunk>, id: i64) -> Option<int>
    decreases cs.len(),
{
    if cs.len() == 0 {
        None
    } else if cs.last().id == id {
        Some(cs.len() - 1)
    } else {
        chunk_index(cs.drop_last(), id)
    }
}

/// For the first `m` ranked ids, the chunks they name, skipping unknown ids.
pub open spec fn picked_upto(ranked: Seq<i64>, cs: Seq<StoredChunk>, m: int) -> Seq<int>
    decreases m,
{
    if m <= 0 {
        seq![]
    } else {
        match chunk_index(cs, ranked[m - 1]) {
            Some(k) => picked_upto(ranked, cs, m - 1).push(k),
            None => picked_upto(ranked, cs, m - 1),
        }
    }
}

fn chunk_index_exec(chunks: &Vec<StoredChunk>, id: i64) -> (r: Option<usize>)
    ensures
        match r {
            Some(k) => chunk_index(chunks@, id) == Some(k as int) && k < chunks@.len(),
            None => chunk_index(chunks@, id) is None,
        },
{
    let mut j: usize = chunks.len();
    proof {
        assert(chunks@.take(j as int) =~= chunks@);
    }
    while j > 0
        invariant
            j <= chunks@.len(),
            chunk_index(chunks@, id) == chunk_index(chunks@.take(j as int), id),
        decreases j,
    {
        proof {
            assert(chunks@.take(j as int).drop_last() =~= chunks@.take(j - 1));
            assert(chunks@.take(j as int).last() == chunks@[j - 1]);
        }
        if chunks[j - 1].id == id {
            return Some(j - 1);
        }
        j = j - 1;
    }
    None
}

/// The chunks shown for the best `limit` ranked ids (a later chunk wins when
/// two share an id), as positions in `chunks`.
pub fn select_results(ranked: &Vec<i64>, chunks: &Vec<StoredChunk>, limit: usize) -> (r: Vec<usize>)
    ensures
        r@.map_values(|k: usize| k as int) == picked_upto(
            ranked@,
            chunks@,
            if limit < ranked@.len() { limit as int } else { ranked@.len() as int },
        ),
        forall|k: int| 0 <= k < r@.len() ==> #[trigger] r@[k] < chunks@.len(),
{
    let m = if limit < ranked.len() {
        limit
    } else {
        ranked.len()
    };
    let mut out: Vec<usize> = Vec::new();
    let mut i: usize = 0;
    while i < m
        invariant
            i <= m <= ranked@.len(),
            out@.map_values(|k: usize| k as int) == picked_upto(ranked@, chunks@, i as int),
            forall|k: int| 0 <= k < out@.len() ==> #[trigger] out@[k] < chunks@.len(),
        decreases m - i,
    {
        let found = chunk_index_exec(chunks, ranked[i]);
        match found {
            Some(k) => {
                let ghost before = out@.map_values(|x: usize| x as int);
                out.push(k);
                proof {
                    assert(out@.map_values(|x: usize| x as int) =~= before.push(k as int));
                }
            },
            None => {},
        }
        i = i + 1;
    }
    out
}

proof fn lemma_plan_upto(scanned: Seq<Seq<char>>, existing: Seq<Seq<char>>, m: int)
    requires
        0 <= m <= scanned.len(),
    ensures
        forall|i: int| new_upto(scanned, existing, m).contains(i) <==> (0 <= i < m && last_index(existing, scanned[i]) is None),
        forall|i: int, k: int|
            pairs_upto(scanned, existing, m).contains((i, k)) <==> (0 <= i < m && last_index(existing, scanned[i]) == Some(k)),
    decreases m,
{
    if m > 0 {
        lemma_plan_upto(scanned, existing, m - 1);
        let a = new_upto(scanned, existing, m - 1);
        let b = pairs_upto(scanned, existing, m - 1);
        assert forall|i: int| new_upto(scanned, existing, m).contains(i) <==> (0 <= i < m && last_index(existing, scanned[i]) is None) by {
            if last_index(existing, scanned[m - 1]) is None {
                let a2 = a.push(m - 1);
                assert(new_upto(scanned, existing, m) == a2);
                if a2.contains(i) && i != m - 1 {
                    let j = choose|j: int| 0 <= j < a2.len() && a2[j] == i;
                    assert(a[j] == i);
                }
                if a.contains(i) {
                    let j = choose|j: int| 0 <= j < a.len() && a[j] == i;
                    assert(a2[j] == i);
                }
                assert(a2[a.len() as int] == m - 1);
            }
        }
        assert forall|i: int, k: int|
            pairs_upto(scanned, existing, m).contains((i, k)) <==> (0 <= i < m && last_index(existing, scanned[i]) == Some(k)) by {
            if let Some(kk) = last_index(existing, scanned[m - 1]) {
                let b2 = b.push((m - 1, kk));
                assert(pairs_upto(scanned, existing, m) == b2);
                if b2.contains((i, k)) && (i, k) != (m - 1, kk) {
                    let j = choose|j: int| 0 <= j < b2.len() && b2[j] == (i, k);
                    assert(b[j] == (i, k));
                }
                if b.contains((i, k)) {
                    let j = choose|j: int| 0 <= j < b.len() && b[j] == (i, k);
                    assert(b2[j] == (i, k));
                }
                assert(b2[b.len() as int] == (m - 1, kk));
            }
        }
    }
}

proof fn lemma_gone_upto(scanned: Seq<Seq<char>>, existing: Seq<Seq<char>>, m: int)
    requires
        0 <= m <= existing.len(),
    ensures
        forall|k: int| gone_upto(scanned, existing, m).contains(k) <==> (0 <= k < m && last_index(scanned, existing[k]) is None),
    decreases m,
{
    if m > 0 {
        lemma_gone_upto(scanned, existing, m - 1);
        let a = gone_upto(scanned, existing, m - 1);
        assert forall|k: int| gone_upto(scanned, existing, m).contains(k) <==> (0 <= k < m && last_index(scanned, existing[k]) is None) by {
            if last_index(scanned, existing[m - 1]) is None {
                let a2 = a.push(m - 1);
                assert(gone_upto(scanned, existing, m) == a2);
                if a2.contains(k) && k != m - 1 {
                    let j = choose|j: int| 0 <= j < a2.len() && a2[j] == k;
                    assert(a[j] == k);
                }
                if a.contains(k) {
                    let j = choose|j: int| 0 <= j < a.len() && a[j] == k;
                    assert(a2[j] == k);
                }
                assert(a2[a.len() as int] == m - 1);
            }
        }
    }
}

/// Every scanned file is either new to the index or paired with its indexed
/// record, never both; every indexed file is removed exactly when the scan
/// did not find it.
pub proof fn plan_covers_every_file(scanned: Seq<Seq<char>>, existing: Seq<Seq<char>>)
    ensures
        forall|i: int|
            new_upto(scanned, existing, scanned.len() as int).contains(i) <==> (0 <= i < scanned.len() && last_index(
                existing,
                scanned[i],
            ) is None),
        forall|i: int, k: int|
            pairs_upto(scanned, existing, scanned.len() as int).contains((i, k)) <==> (0 <= i < scanned.len()
                && last_index(existing, scanned[i]) == Some(k)),
        forall|k: int|
            gone_upto(scanned, existing, existing.len() as int).contains(k) <==> (0 <= k < existing.len() && last_index(
                scanned,
                existing[k],
            ) is None),
{
    lemma_plan_upto(scanned, existing, scanned.len() as int);
    lemma_gone_upto(scanned, existing, existing.len() as int);
}

/// The imports that a per-line reader finds in the first `m` lines.
pub open spec fn collect_upto(lines: Seq<Seq<char>>, m: int, f: spec_fn(Seq<char>) -> Option<Seq<char>>) -> Seq<Seq<char>>
    decreases m,
{
    if m <= 0 {
        seq![]
    } else {
        match f(lines[m - 1]) {
            Some(x) => collect_upto(lines, m - 1, f).push(x),
            None => collect_upto(lines, m - 1, f),
        }
    }
}

/// The module a Python `import` or `from` line names, with `.` written `/`.
pub open spec fn python_import(line: Seq<char>) -> Option<Seq<char>> {
    let t = trim(line);
    if has_prefix(t, "import "@) || has_prefix(t, "from "@) {
        let module = if has_prefix(t, "from "@) {
            before_sub(t.skip(5), " import"@)
        } else {
            t.skip(7)
        };
        let m = trim(before_sub(trim(module), " as "@));
        if m.len() > 0 {
            Some(replace_all(m, "."@, "/"@))
        } else {
            None
        }
    } else {
        None
    }
}

/// The class a Java `import` line names, with `.` written `/`.
pub open spec fn java_import(line: Seq<char>) -> Option<Seq<char>> {
    let t = trim(line);
    if has_prefix(t, "import "@) {
        let p = trim(strip_trailing(trim(t.skip(7)), ';'));
        if p.len() > 0 {
            Some(replace_all(p, "."@, "/"@))
        } else {
            None
        }
    } else {
        None
    }
}

/// A module specifier cleaned of spaces, a final `;` and quotes.
pub open spec fn ts_clean(s: Seq<char>) -> Seq<char> {
    strip_both(strip_both(trim(strip_trailing(trim(s), ';')), '"'), '\'')
}

/// The module a TypeScript `import`, `from` or `require(` line names.
pub open spec fn ts_import(line: Seq<char>) -> Option<Seq<char>> {
    let t = trim(line);
    let path = if has_prefix(t, "import "@) {
        let rest = if has_prefix(t.skip(7), "type "@) {
            t.skip(12)
        } else {
            t.skip(7)
        };
        Some(ts_clean(after_last_sub(rest, "from"@)))
    } else if has_prefix(t, "from "@) {
        Some(ts_clean(before_sub(t.skip(5), "import"@)))
    } else if has_prefix(t, "require("@) {
        Some(strip_both(strip_both(trim(strip_trailing(strip_prefixes(t, "require("@), ')')), '"'), '\''))
    } else {
        None
    };
    match path {
        Some(p) => if p.len() > 0 {
            Some(p)
        } else {
            None
        },
        None => None,
    }
}

/// The imports of a Python file.
pub open spec fn spec_extract_python_imports(content: Seq<char>) -> Seq<Seq<char>> {
    collect_upto(lines_of(content), lines_of(content).len() as int, |l: Seq<char>| python_import(l))
}

/// The imports of a Java file.
pub open spec fn spec_extract_java_imports(content: Seq<char>) -> Seq<Seq<char>> {
    collect_upto(lines_of(content), lines_of(content).len() as int, |l: Seq<char>| java_import(l))
}

/// The imports of a TypeScript file.
pub open spec fn spec_extract_ts_imports(content: Seq<char>) -> Seq<Seq<char>> {
    collect_upto(lines_of(content), lines_of(content).len() as int, |l: Seq<char>| ts_import(l))
}

fn opt_string(o: Option<Vec<char>>) -> (r: Option<String>)
    ensures
        match o {
            Some(v) => r matches Some(x) && x@ == v@,
            None => r is None,
        },
{
    match o {
        Some(v) => Some(from_chars(v.as_slice())),
        None => None,
    }
}

fn python_import_exec(line: &[char]) -> (r: Option<Vec<char>>)
    ensures
        match r {
            Some(v) => python_import(line@) == Some(v@),
            None => python_import(line@) is None,
        },
{
    proof {
        reveal_strlit("import ");
        reveal_strlit("from ");
    }
    let t = trimmed(line);
    let imp = lit("import ");
    let from = lit("from ");
    let is_from = starts_with(t.as_slice(), from.as_slice());
    if !(starts_with(t.as_slice(), imp.as_slice()) || is_from) {
        return None;
    }
    let module = if is_from {
        let rest = slice_vec(t.as_slice(), 5, t.len());
        proof {
            assert(rest@ =~= t@.skip(5));
        }
        before_sub_exec(rest.as_slice(), lit(" import").as_slice())
    } else {
        let rest = slice_vec(t.as_slice(), 7, t.len());
        proof {
            assert(rest@ =~= t@.skip(7));
        }
        rest
    };
    let m0 = trimmed(module.as_slice());
    let m1 = before_sub_exec(m0.as_slice(), lit(" as ").as_slice());
    let m = trimmed(m1.as_slice());
    if m.len() > 0 {
        Some(replace_all_exec(m.as_slice(), lit(".").as_slice(), lit("/").as_slice()))
    } else {
        None
    }
}

fn java_import_exec(line: &[char]) -> (r: Option<Vec<char>>)
    ensures
        match r {
            Some(v) => java_import(line@) == Some(v@),
            None => java_import(line@) is None,
        },
{
    proof {
        reveal_strlit("import ");
    }
    let t = trimmed(line);
    if !starts_with(t.as_slice(), lit("import ").as_slice()) {
        return None;
    }
    let rest = slice_vec(t.as_slice(), 7, t.len());
    proof {
        assert(rest@ =~= t@.skip(7));
    }
    let a = trimmed(rest.as_slice());
    let b = strip_end(a.as_slice(), ';');
    let p = trimmed(b.as_slice());
    if p.len() > 0 {
        Some(replace_all_exec(p.as_slice(), lit(".").as_slice(), lit("/").as_slice()))
    } else {
        None
    }
}

fn ts_clean_exec(s: &[char]) -> (r: Vec<char>)
    ensures
        r@ == ts_clean(s@),
{
    let a = trimmed(s);
    let b = strip_end(a.as_slice(), ';');
    let c = trimmed(b.as_slice());
    let d = strip_both_exec(c.as_slice(), '"');
    strip_both_exec(d.as_slice(), '\'')
}

fn ts_import_exec(line: &[char]) -> (r: Option<Vec<char>>)
    ensures
        match r {
            Some(v) => ts_import(line@) == Some(v@),
            None => ts_import(line@) is None,
        },
{
    proof {
        reveal_strlit("import ");
        reveal_strlit("type ");
        reveal_strlit("from ");
    }
    let t = trimmed(line);
    let path = if starts_with(t.as_slice(), lit("import ").as_slice()) {
        let after = slice_vec(t.as_slice(), 7, t.len());
        proof {
            assert(after@ =~= t@.skip(7));
        }
        let rest = if starts_with(after.as_slice(), lit("type ").as_slice()) {
            let r = slice_vec(t.as_slice(), 12, t.len());
            proof {
                assert(r@ =~= t@.skip(12));
            }
            r
        } else {
            after
        };
        let last = after_last_sub_exec(rest.as_slice(), lit("from").as_slice());
        ts_clean_exec(last.as_slice())
    } else if starts_with(t.as_slice(), lit("from ").as_slice()) {
        let rest = slice_vec(t.as_slice(), 5, t.len());
        proof {
            assert(rest@ =~= t@.skip(5));
        }
        let first = before_sub_exec(rest.as_slice(), lit("import").as_slice());
        ts_clean_exec(first.as_slice())
    } else if starts_with(t.as_slice(), lit("require(").as_slice()) {
        let a = strip_prefixes_exec(t.as_slice(), lit("require(").as_slice());
        let b = strip_end(a.as_slice(), ')');
        let c = trimmed(b.as_slice());
        let d = strip_both_exec(c.as_slice(), '"');
        strip_both_exec(d.as_slice(), '\'')
    } else {
        return None;
    };
    if path.len() > 0 {
        Some(path)
    } else {
        None
    }
}

/// The module paths a Python file imports (`import m` or `from m import ..`),
/// with `.` written `/`.
pub fn extract_python_imports(content: &str) -> (r: Vec<String>)
    ensures
        sv(r@) == spec_extract_python_imports(content@),
{
    let c = to_chars(content);
    let lines = split_lines(c.as_slice());
    let ghost ls = vv(lines@);
    let ghost f = |l: Seq<char>| python_import(l);
    let mut out: Vec<String> = Vec::new();
    let mut i: usize = 0;
    while i < lines.len()
        invariant
            i <= lines@.len(),
            ls == vv(lines@),
            ls == lines_of(content@),
            f == (|l: Seq<char>| python_import(l)),
            sv(out@) == collect_upto(ls, i as int, f),
        decreases lines@.len() - i,
    {
        proof {
            assert(ls[i as int] == lines@[i as int]@);
        }
        match opt_string(python_import_exec(lines[i].as_slice())) {
            Some(x) => {
                let ghost before = sv(out@);
                let ghost xv = x@;
                out.push(x);
                proof {
                    assert(sv(out@) =~= before.push(xv));
                }
            },
            None => {},
        }
        i = i + 1;
    }
    out
}

/// The class paths a Java file imports, with `.` written `/`.
pub fn extract_java_imports(content: &str) -> (r: Vec<String>)
    ensures
        sv(r@) == spec_extract_java_imports(content@),
{
    let c = to_chars(content);
    let lines = split_lines(c.as_slice());
    let ghost ls = vv(lines@);
    let ghost f = |l: Seq<char>| java_import(l);
    let mut out: Vec<String> = Vec::new();
    let mut i: usize = 0;
    while i < lines.len()
        invariant
            i <= lines@.len(),
            ls == vv(lines@),
            ls == lines_of(content@),
            f == (|l: Seq<char>| java_import(l)),
            sv(out@) == collect_upto(ls, i as int, f),
        decreases lines@.len() - i,
    {
        proof {
            assert(ls[i as int] == lines@[i as int]@);
        }
        match opt_string(java_import_exec(lines[i].as_slice())) {
            Some(x) => {
                let ghost before = sv(out@);
                let ghost xv = x@;
                out.push(x);
                proof {
                    assert(sv(out@) =~= before.push(xv));
                }
            },
            None => {},
        }
        i = i + 1;
    }
    out
}

/// The module specifiers a TypeScript file imports (`import .. from`,
/// `from .. import`, `require(..)`).
pub fn extract_ts_imports(content: &str) -> (r: Vec<String>)
    ensures
        sv(r@) == spec_extract_ts_imports(content@),
{
    let c = to_chars(content);
    let lines = split_lines(c.as_slice());
    let ghost ls = vv(lines@);
    let ghost f = |l: Seq<char>| ts_import(l);
    let mut out: Vec<String> = Vec::new();
    let mut i: usize = 0;
    while i < lines.len()
        invariant
            i <= lines@.len(),
            ls == vv(lines@),
            ls == lines_of(content@),
            f == (|l: Seq<char>| ts_import(l)),
            sv(out@) == collect_upto(ls, i as int, f),
        decreases lines@.len() - i,
    {
        proof {
            assert(ls[i as int] == lines@[i as int]@);
        }
        match opt_string(ts_import_exec(lines[i].as_slice())) {
            Some(x) => {
                let ghost before = sv(out@);
                let ghost xv = x@;
                out.push(x);
                proof {
                    assert(sv(out@) =~= before.push(xv));
                }
            },
            None => {},
        }
        i = i + 1;
    }
    out
}

/// Go imports read so far and whether an `import (` block is open.
pub open spec fn go_scan(lines: Seq<Seq<char>>) -> (Seq<Seq<char>>, bool)
    decreases lines.len(),
{
    if lines.len() == 0 {
        (seq![], false)
    } else {
        let (imps, in_block) = go_scan(lines.drop_last());
        let t = trim(lines.last());
        if t == "import ("@ {
            (imps, true)
        } else if in_block && t == ")"@ {
            (imps, false)
        } else if in_block {
            let p = trim(before_sub(strip_both(t, '"'), "//"@));
            (if p.len() > 0 { imps.push(p) } else { imps }, in_block)
        } else if has_prefix(t, "import "@) {
            let p = trim(before_sub(strip_both(trim(t.skip(7)), '"'), "//"@));
            (if p.len() > 0 { imps.push(p) } else { imps }, in_block)
        } else {
            (imps, in_block)
        }
    }
}

/// The package paths a Go file imports, single or in an `import (` block.
pub fn extract_go_imports(content: &str) -> (r: Vec<String>)
    ensures
        sv(r@) == go_scan(lines_of(content@)).0,
{
    proof {
        reveal_strlit("import ");
    }
    let c = to_chars(content);
    let lines = split_lines(c.as_slice());
    let ghost ls = vv(lines@);
    let mut out: Vec<String> = Vec::new();
    let mut in_block = false;
    let mut i: usize = 0;
    while i < lines.len()
        invariant
            i <= lines@.len(),
            ls == vv(lines@),
            ls == lines_of(content@),
            sv(out@) == go_scan(ls.take(i as int)).0,
            in_block == go_scan(ls.take(i as int)).1,
        decreases lines@.len() - i,
    {
        proof {
            assert(ls.take(i + 1).drop_last() =~= ls.take(i as int));
            assert(ls.take(i + 1).last() == lines@[i as int]@);
        }
        let t = trimmed(lines[i].as_slice());
        if is_text(t.as_slice(), "import (") {
            in_block = true;
        } else if in_block && is_text(t.as_slice(), ")") {
            in_block = false;
        } else {
            let found = if in_block {
                let a = strip_both_exec(t.as_slice(), '"');
                let b = before_sub_exec(a.as_slice(), lit("//").as_slice());
                Some(trimmed(b.as_slice()))
            } else if starts_with(t.as_slice(), lit("import ").as_slice()) {
                proof {
                    reveal_strlit("import ");
                }
                let rest = slice_vec(t.as_slice(), 7, t.len());
                proof {
                    assert(rest@ =~= t@.skip(7));
                }
                let a0 = trimmed(rest.as_slice());
                let a = strip_both_exec(a0.as_slice(), '"');
                let b = before_sub_exec(a.as_slice(), lit("//").as_slice());
                Some(trimmed(b.as_slice()))
            } else {
                None
            };
            match found {
                Some(p) => {
                    if p.len() > 0 {
                        let x = from_chars(p.as_slice());
                        let ghost before = sv(out@);
                        let ghost xv = x@;
                        out.push(x);
                        proof {
                            assert(sv(out@) =~= before.push(xv));
                        }
                    }
                },
                None => {},
            }
        }
        i = i + 1;
    }
    proof {
        assert(ls.take(i as int) =~= ls);
    }
    out
}

} // verus!
