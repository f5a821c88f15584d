//! Reading the commit history that `git log --format="COMMIT %at" --name-only`
//! prints: one header line per commit, then the paths it touched.
use vstd::prelude::*;
use crate::text::{
    has_prefix, trim, lines_of, vv, to_chars, split_lines, starts_with, trimmed, slice_vec,
    from_chars, is_blank,
};
use crate::metrics::strs;

verus! {

/// The text before a commit's time on its header line.
pub const COMMIT_HEADER: &'static str = "COMMIT ";

/// One commit of the history: the text after the header (its time in
/// seconds, as git printed it) and the paths under it, trimmed, blank lines left out.
pub struct CommitBlock {
    pub stamp: String,
    pub paths: Vec<String>,
}

/// The mathematical value of a commit.
pub struct BlockView {
    pub stamp: Seq<char>,
    pub paths: Seq<Seq<char>>,
}

impl View for CommitBlock {
    type V = BlockView;

    open spec fn view(&self) -> BlockView {
        BlockView { stamp: self.stamp@, paths: strs(self.paths@) }
    }
}

/// The values of a sequence of commits.
pub open spec fn bv(v: Seq<CommitBlock>) -> Seq<BlockView> {
    v.map_values(|b: CommitBlock| b@)
}

/// The commits that the lines describe, in order. A header line opens a
/// commit; any other line that is not blank names a path of the commit
/// opened last, and is dropped while no commit is open.
pub open spec fn commits_of(lines: Seq<Seq<char>>) -> Seq<BlockView>
    decreases lines.len(),
{
    if lines.len() == 0 {
        seq![]
    } else {
        let done = commits_of(lines.drop_last());
        let l = lines.last();
        if has_prefix(l, COMMIT_HEADER@) {
            done.push(BlockView { stamp: l.skip(7), paths: seq![] })
        } else if trim(l).len() > 0 && done.len() > 0 {
            let b = done.last();
            done.drop_last().push(BlockView { stamp: b.stamp, paths: b.paths.push(trim(l)) })
        } else {
            done
        }
    }
}

/// The commits in the output of `git log --format="COMMIT %at" --name-only`.
pub fn parse_commit_log(log: &str) -> (r: Vec<CommitBlock>)
    ensures
        bv(r@) == commits_of(lines_of(log@)),
{
    let chars = to_chars(log);
    let lines = split_lines(chars.as_slice());
    let ghost ls = vv(lines@);
    let header = to_chars(COMMIT_HEADER);
    proof {
        reveal_strlit("COMMIT ");
        assert(header@.len() == 7);
        assert(ls.take(0) =~= seq![]);
    }
    let mut out: Vec<CommitBlock> = Vec::new();
    proof {
        assert(bv(out@) =~= seq![]);
    }
    let mut i: usize = 0;
    while i < lines.len()
        invariant
            i <= ls.len(),
            ls == vv(lines@),
            ls.len() == lines@.len(),
            header@ == COMMIT_HEADER@,
            header@.len() == 7,
            bv(out@) == commits_of(ls.take(i as int)),
        decreases ls.len() - i,
    {
        proof {
            assert(ls.take(i + 1).drop_last() =~= ls.take(i as int));
            assert(ls.take(i + 1).last() == lines@[i as int]@);
        }
        let line = &lines[i];
        if starts_with(line.as_slice(), header.as_slice()) {
            let stamp = slice_vec(line.as_slice(), 7, line.len());
            let b = CommitBlock { stamp: from_chars(stamp.as_slice()), paths: Vec::new() };
            proof {
                assert(stamp@ =~= line@.skip(7));
                assert(strs(b.paths@) =~= seq![]);
            }
            let ghost before = out@;
            out.push(b);
            proof {
                assert(bv(out@) =~= bv(before).push(b@));
            }
        } else if !is_blank(line.as_slice()) && out.len() > 0 {
            let ghost before = out@;
            let mut b = out.pop().unwrap();
            let p = trimmed(line.as_slice());
            let ghost old_paths = b.paths@;
            b.paths.push(from_chars(p.as_slice()));
            proof {
                assert(before =~= out@.push(before.last()));
                assert(bv(out@) =~= bv(before).drop_last());
                assert(strs(b.paths@) =~= strs(old_paths).push(trim(line@)));
            }
            let ghost mid = out@;
            out.push(b);
            proof {
                assert(bv(out@) =~= bv(mid).push(b@));
            }
        }
        i = i + 1;
    }
    proof {
        assert(ls.take(i as int) =~= ls);
    }
    out
}

} // verus!
