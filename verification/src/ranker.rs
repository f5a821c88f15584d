//! The integer core of Pareto-optimal election (POEM) ranking: per-query
//! metric weights, pruning to the per-metric leaders, and the weighted
//! pairwise tournament between the survivors.
//!
//! Each candidate carries, per metric, an order key: a larger key stands for a
//! larger score, equal keys for equal scores.
use vstd::prelude::*;
use crate::query_classifier::QueryType;
use crate::scanner::is_text;
use crate::text::to_chars;

verus! {

/// How many votes each metric casts in the tournament.
#[derive(Debug, Clone, Copy, PartialEq, Eq, Structural)]
pub struct ColumnWeights {
    pub bm25: usize,
    pub cosine: usize,
    pub path_match: usize,
    pub symbol_match: usize,
    pub import_graph: usize,
    pub git_recency: usize,
}

/// The weights for a query type: identifiers favour BM25 and symbols, natural
/// language favours embeddings, paths favour path matching.
pub open spec fn spec_column_weights(q: QueryType) -> ColumnWeights {
    match q {
        QueryType::Identifier => ColumnWeights {
            bm25: 2,
            cosine: 1,
            path_match: 1,
            symbol_match: 2,
            import_graph: 1,
            git_recency: 1,
        },
        QueryType::NaturalLanguage => ColumnWeights {
            bm25: 1,
            cosine: 2,
            path_match: 1,
            symbol_match: 1,
            import_graph: 1,
            git_recency: 1,
        },
        QueryType::PathLike => ColumnWeights {
            bm25: 1,
            cosine: 1,
            path_match: 3,
            symbol_match: 1,
            import_graph: 1,
            git_recency: 1,
        },
    }
}

/// The metric weights for a query type.
pub fn column_weights(query_type: &QueryType) -> (r: ColumnWeights)
    ensures
        r == spec_column_weights(*query_type),
{
    match query_type {
        QueryType::Identifier => ColumnWeights {
            bm25: 2,
            cosine: 1,
            path_match: 1,
            symbol_match: 2,
            import_graph: 1,
            git_recency: 1,
        },
        QueryType::NaturalLanguage => ColumnWeights {
            bm25: 1,
            cosine: 2,
            path_match: 1,
            symbol_match: 1,
            import_graph: 1,
            git_recency: 1,
        },
        QueryType::PathLike => ColumnWeights {
            bm25: 1,
            cosine: 1,
            path_match: 3,
            symbol_match: 1,
            import_graph: 1,
            git_recency: 1,
        },
    }
}

/// The weight of the metric named `metric`; 0 for an unknown name.
pub open spec fn weight_named(w: ColumnWeights, metric: Seq<char>) -> usize {
    if metric == "bm25"@ {
        w.bm25
    } else if metric == "cosine"@ {
        w.cosine
    } else if metric == "path_match"@ {
        w.path_match
    } else if metric == "symbol_match"@ {
        w.symbol_match
    } else if metric == "import_graph"@ {
        w.import_graph
    } else if metric == "git_recency"@ {
        w.git_recency
    } else {
        0
    }
}

/// The weight of a metric given by name.
pub fn get_weight(weights: &ColumnWeights, metric: &str) -> (r: usize)
    ensures
        r == weight_named(*weights, metric@),
{
    let m = to_chars(metric);
    let m = m.as_slice();
    if is_text(m, "bm25") {
        weights.bm25
    } else if is_text(m, "cosine") {
        weights.cosine
    } else if is_text(m, "path_match") {
        weights.path_match
    } else if is_text(m, "symbol_match") {
        weights.symbol_match
    } else if is_text(m, "import_graph") {
        weights.import_graph
    } else if is_text(m, "git_recency") {
        weights.git_recency
    } else {
        0
    }
}

/// Which metrics take part in ranking (a metric whose signal could not be
/// computed is switched off).
#[derive(Debug, Clone, Copy, PartialEq, Eq, Structural)]
pub struct MetricAvailability {
    pub bm25: bool,
    pub cosine: bool,
    pub path_match: bool,
    pub symbol_match: bool,
    pub import_graph: bool,
    pub git_recency: bool,
}

/// Whether the metric named `metric` is on; false for an unknown name.
pub open spec fn active_named(a: MetricAvailability, metric: Seq<char>) -> bool {
    if metric == "bm25"@ {
        a.bm25
    } else if metric == "cosine"@ {
        a.cosine
    } else if metric == "path_match"@ {
        a.path_match
    } else if metric == "symbol_match"@ {
        a.symbol_match
    } else if metric == "import_graph"@ {
        a.import_graph
    } else if metric == "git_recency"@ {
        a.git_recency
    } else {
        false
    }
}

impl MetricAvailability {
    /// Every metric on.
    pub fn all_active() -> (r: Self)
        ensures
            r.bm25 && r.cosine && r.path_match && r.symbol_match && r.import_graph && r.git_recency,
    {
        MetricAvailability {
            bm25: true,
            cosine: true,
            path_match: true,
            symbol_match: true,
            import_graph: true,
            git_recency: true,
        }
    }

    /// Whether a metric given by name is on.
    pub fn is_active(&self, metric: &str) -> (r: bool)
        ensures
            r == active_named(*self, metric@),
    {
        let m = to_chars(metric);
        let m = m.as_slice();
        if is_text(m, "bm25") {
            self.bm25
        } else if is_text(m, "cosine") {
            self.cosine
        } else if is_text(m, "path_match") {
            self.path_match
        } else if is_text(m, "symbol_match") {
            self.symbol_match
        } else if is_text(m, "import_graph") {
            self.import_graph
        } else if is_text(m, "git_recency") {
            self.git_recency
        } else {
            false
        }
    }
}

/// Per metric, the order key of a candidate's score.
#[derive(Debug, Clone, Copy, PartialEq, Eq, Structural)]
pub struct MetricKeys {
    pub bm25: u64,
    pub cosine: u64,
    pub path_match: u64,
    pub symbol_match: u64,
    pub import_graph: u64,
    pub git_recency: u64,
}

/// The metrics in their fixed order: BM25, cosine, path match, symbol match,
/// import graph, git recency.
pub const METRIC_COUNT: usize = 6;

pub open spec fn key_at(k: MetricKeys, m: int) -> u64 {
    if m == 0 {
        k.bm25
    } else if m == 1 {
        k.cosine
    } else if m == 2 {
        k.path_match
    } else if m == 3 {
        k.symbol_match
    } else if m == 4 {
        k.import_graph
    } else {
        k.git_recency
    }
}

pub open spec fn weight_at(w: ColumnWeights, m: int) -> usize {
    if m == 0 {
        w.bm25
    } else if m == 1 {
        w.cosine
    } else if m == 2 {
        w.path_match
    } else if m == 3 {
        w.symbol_match
    } else if m == 4 {
        w.import_graph
    } else {
        w.git_recency
    }
}

pub open spec fn active_at(a: MetricAvailability, m: int) -> bool {
    if m == 0 {
        a.bm25
    } else if m == 1 {
        a.cosine
    } else if m == 2 {
        a.path_match
    } else if m == 3 {
        a.symbol_match
    } else if m == 4 {
        a.import_graph
    } else {
        a.git_recency
    }
}

fn key_of(k: &MetricKeys, m: usize) -> (r: u64)
    ensures
        r == key_at(*k, m as int),
{
    if m == 0 {
        k.bm25
    } else if m == 1 {
        k.cosine
    } else if m == 2 {
        k.path_match
    } else if m == 3 {
        k.symbol_match
    } else if m == 4 {
        k.import_graph
    } else {
        k.git_recency
    }
}

fn weight_of(w: &ColumnWeights, m: usize) -> (r: usize)
    ensures
        r == weight_at(*w, m as int),
{
    if m == 0 {
        w.bm25
    } else if m == 1 {
        w.cosine
    } else if m == 2 {
        w.path_match
    } else if m == 3 {
        w.symbol_match
    } else if m == 4 {
        w.import_graph
    } else {
        w.git_recency
    }
}

fn active_of(a: &MetricAvailability, m: usize) -> (r: bool)
    ensures
        r == active_at(*a, m as int),
{
    if m == 0 {
        a.bm25
    } else if m == 1 {
        a.cosine
    } else if m == 2 {
        a.path_match
    } else if m == 3 {
        a.symbol_match
    } else if m == 4 {
        a.import_graph
    } else {
        a.git_recency
    }
}

/// A candidate: its id and its order keys.
pub type Candidate = (i64, MetricKeys);

/// On metric `m`, candidate `d` is ranked ahead of `c`: a larger key, or an
/// equal key and a smaller id.
pub open spec fn ahead(d: Candidate, c: Candidate, m: int) -> bool {
    key_at(d.1, m) > key_at(c.1, m) || (key_at(d.1, m) == key_at(c.1, m) && d.0 < c.0)
}

/// The place of `c` on metric `m` among `cs`: how many of them are ahead of it
/// (its position when `cs` is sorted on `m` with distinct ids).
pub open spec fn place(cs: Seq<Candidate>, c: Candidate, m: int) -> nat
    decreases cs.len(),
{
    if cs.len() == 0 {
        0
    } else {
        place(cs.drop_last(), c, m) + if ahead(cs.last(), c, m) {
            1nat
        } else {
            0nat
        }
    }
}

/// `c` is among the first `top_k` on some metric that is on.
pub open spec fn leads_somewhere(cs: Seq<Candidate>, c: Candidate, top_k: int, a: MetricAvailability) -> bool {
    ||| active_at(a, 0) && place(cs, c, 0) < top_k
    ||| active_at(a, 1) && place(cs, c, 1) < top_k
    ||| active_at(a, 2) && place(cs, c, 2) < top_k
    ||| active_at(a, 3) && place(cs, c, 3) < top_k
    ||| active_at(a, 4) && place(cs, c, 4) < top_k
    ||| active_at(a, 5) && place(cs, c, 5) < top_k
}

/// The candidates of `src`, in order, that lead somewhere among `cs`.
pub open spec fn leaders(cs: Seq<Candidate>, src: Seq<Candidate>, top_k: int, a: MetricAvailability) -> Seq<Candidate>
    decreases src.len(),
{
    if src.len() == 0 {
        seq![]
    } else if leads_somewhere(cs, src.last(), top_k, a) {
        leaders(cs, src.drop_last(), top_k, a).push(src.last())
    } else {
        leaders(cs, src.drop_last(), top_k, a)
    }
}

/// The candidates that survive pruning: all of them when there are at most
/// `top_k`, otherwise those among the first `top_k` on some active metric.
pub open spec fn spec_prune_top_k(cs: Seq<Candidate>, top_k: int, a: MetricAvailability) -> Seq<Candidate> {
    if cs.len() <= top_k {
        cs
    } else {
        leaders(cs, cs, top_k, a)
    }
}

fn place_of(cs: &Vec<Candidate>, c: Candidate, m: usize) -> (r: usize)
    ensures
        r == place(cs@, c, m as int),
        r <= cs@.len(),
{
    let mut k: usize = 0;
    let mut count: usize = 0;
    while k < cs.len()
        invariant
            k <= cs@.len(),
            count == place(cs@.take(k as int), c, m as int),
            count <= k,
        decreases cs@.len() - k,
    {
        proof {
            assert(cs@.take(k + 1).drop_last() =~= cs@.take(k as int));
            assert(cs@.take(k + 1).last() == cs@[k as int]);
        }
        let d = cs[k];
        let kd = key_of(&d.1, m);
        let kc = key_of(&c.1, m);
        if kd > kc || (kd == kc && d.0 < c.0) {
            count = count + 1;
        }
        k = k + 1;
    }
    proof {
        assert(cs@.take(k as int) =~= cs@);
    }
    count
}

fn leads_somewhere_exec(cs: &Vec<Candidate>, c: Candidate, top_k: usize, a: &MetricAvailability) -> (r: bool)
    ensures
        r == leads_somewhere(cs@, c, top_k as int, *a),
{
    let mut m: usize = 0;
    while m < METRIC_COUNT
        invariant
            m <= 6,
            forall|j: int| 0 <= j < m ==> !(active_at(*a, j) && #[trigger] place(cs@, c, j) < top_k),
        decreases 6 - m,
    {
        if active_of(a, m) && place_of(cs, c, m) < top_k {
            return true;
        }
        m = m + 1;
    }
    proof {
        assert(place(cs@, c, 0) >= 0);
        assert(place(cs@, c, 1) >= 0);
        assert(place(cs@, c, 2) >= 0);
        assert(place(cs@, c, 3) >= 0);
        assert(place(cs@, c, 4) >= 0);
        assert(place(cs@, c, 5) >= 0);
    }
    false
}

/// Keeps the candidates among the first `top_k` on some active metric.
pub fn prune_top_k(candidates: &Vec<Candidate>, top_k: usize, availability: &MetricAvailability) -> (r: Vec<
    Candidate,
>)
    ensures
        r@ == spec_prune_top_k(candidates@, top_k as int, *availability),
{
    if candidates.len() <= top_k {
        let mut all: Vec<Candidate> = Vec::new();
        let mut i: usize = 0;
        while i < candidates.len()
            invariant
                i <= candidates@.len(),
                all@ == candidates@.take(i as int),
            decreases candidates@.len() - i,
        {
            all.push(candidates[i]);
            proof {
                assert(candidates@.take(i + 1) =~= candidates@.take(i as int).push(candidates@[i as int]));
            }
            i = i + 1;
        }
        proof {
            assert(candidates@.take(i as int) =~= candidates@);
        }
        return all;
    }
    let mut out: Vec<Candidate> = Vec::new();
    let mut i: usize = 0;
    while i < candidates.len()
        invariant
            i <= candidates@.len(),
            out@ == leaders(candidates@, candidates@.take(i as int), top_k as int, *availability),
        decreases candidates@.len() - i,
    {
        proof {
            assert(candidates@.take(i + 1).drop_last() =~= candidates@.take(i as int));
            assert(candidates@.take(i + 1).last() == candidates@[i as int]);
        }
        let c = candidates[i];
        if leads_somewhere_exec(candidates, c, top_k, availability) {
            out.push(c);
        }
        i = i + 1;
    }
    proof {
        assert(candidates@.take(i as int) =~= candidates@);
    }
    out
}

/// The combined weight of the metrics that are on.
pub open spec fn spec_total_weight(w: ColumnWeights, a: MetricAvailability) -> int {
    (if active_at(a, 0) { weight_at(w, 0) as int } else { 0 }) + (if active_at(a, 1) {
        weight_at(w, 1) as int
    } else {
        0
    }) + (if active_at(a, 2) { weight_at(w, 2) as int } else { 0 }) + (if active_at(a, 3) {
        weight_at(w, 3) as int
    } else {
        0
    }) + (if active_at(a, 4) { weight_at(w, 4) as int } else { 0 }) + (if active_at(a, 5) {
        weight_at(w, 5) as int
    } else {
        0
    })
}

/// The votes metric `m` gives candidate `i` over candidate `j` of `ss`: its
/// weight, when it is on with a positive weight and places `i` before `j`,
/// both within the first `k`.
pub open spec fn vote(ss: Seq<Candidate>, w: ColumnWeights, a: MetricAvailability, k: int, m: int, i: int, j: int) -> int {
    if weight_at(w, m) > 0 && active_at(a, m) && place(ss, ss[i], m) < place(ss, ss[j], m) && place(ss, ss[j], m)
        < k {
        weight_at(w, m) as int
    } else {
        0
    }
}

/// All votes for `i` over `j`.
pub open spec fn pair_votes(ss: Seq<Candidate>, w: ColumnWeights, a: MetricAvailability, k: int, i: int, j: int) -> int {
    vote(ss, w, a, k, 0, i, j) + vote(ss, w, a, k, 1, i, j) + vote(ss, w, a, k, 2, i, j) + vote(ss, w, a, k, 3, i, j)
        + vote(ss, w, a, k, 4, i, j) + vote(ss, w, a, k, 5, i, j)
}

/// Over the first `j` opponents of `i` (itself skipped): the sum of its votes,
/// how many it beats by more than half the total weight, and how many by less.
pub open spec fn duel_stats(
    ss: Seq<Candidate>,
    w: ColumnWeights,
    a: MetricAvailability,
    k: int,
    i: int,
    j: int,
) -> (int, int, int)
    decreases j,
{
    if j <= 0 {
        (0, 0, 0)
    } else {
        let (s, d, b) = duel_stats(ss, w, a, k, i, j - 1);
        if j - 1 == i {
            (s, d, b)
        } else {
            let v = pair_votes(ss, w, a, k, i, j - 1);
            let t = spec_total_weight(w, a);
            (s + v, d + if 2 * v > t {
                1int
            } else {
                0int
            }, b + if 2 * v < t {
                1int
            } else {
                0int
            })
        }
    }
}

/// Inserts `x` into ascending ids after every id not above it.
pub open spec fn insert_id(s: Seq<i64>, x: i64) -> Seq<i64>
    decreases s.len(),
{
    if s.len() == 0 || !(x < s.last()) {
        s.push(x)
    } else {
        insert_id(s.drop_last(), x).push(s.last())
    }
}

/// The stable ascending sort of ids.
pub open spec fn sort_ids(s: Seq<i64>) -> Seq<i64>
    decreases s.len(),
{
    if s.len() == 0 {
        s
    } else {
        insert_id(sort_ids(s.drop_last()), s.last())
    }
}

/// The ids of candidates.
pub open spec fn ids_of(cs: Seq<Candidate>) -> Seq<i64> {
    cs.map_values(|c: Candidate| c.0)
}

/// The tournament among the surviving candidates: for each (in order) its id,
/// the sum of the votes it won, and how many opponents it dominates and
/// submits to; with the total weight of the metrics that are on.
pub struct PoemTally {
    pub ids: Vec<i64>,
    pub total_weight: usize,
    pub vote_sums: Vec<u128>,
    pub dominating: Vec<usize>,
    pub submitting: Vec<usize>,
}

/// What ranking comes to before fitness is weighed: no candidates; a single
/// survivor; survivors ordered by id alone (no active weight); or a tournament.
pub enum PoemPlan {
    Empty,
    Single(i64),
    ById(Vec<i64>),
    Tally(PoemTally),
}

/// How deep into each metric's order votes are counted: the first `top_k`
/// places, or all `n` when there are fewer.
pub open spec fn vote_depth(top_k: int, n: int) -> int {
    if top_k < n {
        top_k
    } else {
        n
    }
}

/// The tally is that of the survivors `ss` under `w`, `a` and `top_k`.
pub open spec fn tally_of(t: PoemTally, ss: Seq<Candidate>, w: ColumnWeights, a: MetricAvailability, top_k: int) -> bool {
    let n = ss.len() as int;
    let k = vote_depth(top_k, n);
    &&& t.ids@ == ids_of(ss)
    &&& t.total_weight == spec_total_weight(w, a)
    &&& t.vote_sums@.len() == n
    &&& t.dominating@.len() == n
    &&& t.submitting@.len() == n
    &&& forall|i: int|
        0 <= i < n ==> {
            let st = #[trigger] duel_stats(ss, w, a, k, i, n);
            &&& t.vote_sums@[i] == st.0
            &&& t.dominating@[i] == st.1
            &&& t.submitting@[i] == st.2
        }
}

/// The plan for ranking `cs`.
pub open spec fn plan_of(p: PoemPlan, cs: Seq<Candidate>, q: QueryType, top_k: int, a: MetricAvailability) -> bool {
    let ss = spec_prune_top_k(cs, top_k, a);
    let w = spec_column_weights(q);
    if cs.len() == 0 {
        p is Empty
    } else if ss.len() == 1 {
        p == PoemPlan::Single(ss[0].0)
    } else if spec_total_weight(w, a) == 0 {
        p matches PoemPlan::ById(v) && v@ == sort_ids(ids_of(ss))
    } else {
        p matches PoemPlan::Tally(t) && tally_of(t, ss, w, a, top_k)
    }
}

fn total_weight_exec(w: &ColumnWeights, a: &MetricAvailability) -> (r: usize)
    requires
        spec_total_weight(*w, *a) <= usize::MAX,
    ensures
        r == spec_total_weight(*w, *a),
{
    let mut t: usize = 0;
    if a.bm25 {
        t = t + w.bm25;
    }
    if a.cosine {
        t = t + w.cosine;
    }
    if a.path_match {
        t = t + w.path_match;
    }
    if a.symbol_match {
        t = t + w.symbol_match;
    }
    if a.import_graph {
        t = t + w.import_graph;
    }
    if a.git_recency {
        t = t + w.git_recency;
    }
    t
}

/// Places of every survivor on every metric.
fn all_places(ss: &Vec<Candidate>) -> (r: Vec<Vec<usize>>)
    ensures
        r@.len() == 6,
        forall|m: int, i: int|
            0 <= m < 6 && 0 <= i < ss@.len() ==> #[trigger] r@[m]@[i] == place(ss@, ss@[i], m) && r@[m]@.len()
                == ss@.len(),
        forall|m: int| 0 <= m < 6 ==> #[trigger] r@[m]@.len() == ss@.len(),
{
    let mut r: Vec<Vec<usize>> = Vec::new();
    let mut m: usize = 0;
    while m < METRIC_COUNT
        invariant
            m <= 6,
            r@.len() == m,
            forall|mm: int, i: int|
                0 <= mm < m && 0 <= i < ss@.len() ==> #[trigger] r@[mm]@[i] == place(ss@, ss@[i], mm),
            forall|mm: int| 0 <= mm < m ==> #[trigger] r@[mm]@.len() == ss@.len(),
        decreases 6 - m,
    {
        let mut row: Vec<usize> = Vec::new();
        let mut i: usize = 0;
        while i < ss.len()
            invariant
                i <= ss@.len(),
                row@.len() == i,
                forall|j: int| 0 <= j < i ==> #[trigger] row@[j] == place(ss@, ss@[j], m as int),
            decreases ss@.len() - i,
        {
            let p = place_of(ss, ss[i], m);
            row.push(p);
            i = i + 1;
        }
        r.push(row);
        m = m + 1;
    }
    r
}

fn vote_exec(
    places: &Vec<Vec<usize>>,
    w: &ColumnWeights,
    a: &MetricAvailability,
    k: usize,
    m: usize,
    i: usize,
    j: usize,
    Ghost(ss): Ghost<Seq<Candidate>>,
) -> (r: usize)
    requires
        places@.len() == 6,
        forall|mm: int, x: int| 0 <= mm < 6 && 0 <= x < ss.len() ==> #[trigger] places@[mm]@[x] == place(ss, ss[x], mm),
        forall|mm: int| 0 <= mm < 6 ==> #[trigger] places@[mm]@.len() == ss.len(),
        m < 6,
        i < ss.len(),
        j < ss.len(),
    ensures
        r == vote(ss, *w, *a, k as int, m as int, i as int, j as int),
        r <= (if active_at(*a, m as int) { weight_at(*w, m as int) as int } else { 0 }),
{
    let wm = weight_of(w, m);
    let on = active_of(a, m);
    proof {
        assert(places@[m as int]@.len() == ss.len());
    }
    let pi = places[m][i];
    let pj = places[m][j];
    if wm > 0 && on && pi < pj && pj < k {
        wm
    } else {
        0
    }
}

fn pair_votes_exec(
    places: &Vec<Vec<usize>>,
    w: &ColumnWeights,
    a: &MetricAvailability,
    k: usize,
    i: usize,
    j: usize,
    Ghost(ss): Ghost<Seq<Candidate>>,
) -> (r: usize)
    requires
        places@.len() == 6,
        forall|m: int, x: int| 0 <= m < 6 && 0 <= x < ss.len() ==> #[trigger] places@[m]@[x] == place(ss, ss[x], m),
        forall|m: int| 0 <= m < 6 ==> #[trigger] places@[m]@.len() == ss.len(),
        i < ss.len(),
        j < ss.len(),
        spec_total_weight(*w, *a) <= usize::MAX,
    ensures
        r == pair_votes(ss, *w, *a, k as int, i as int, j as int),
        r <= spec_total_weight(*w, *a),
{
    let v0 = vote_exec(places, w, a, k, 0, i, j, Ghost(ss));
    let v1 = vote_exec(places, w, a, k, 1, i, j, Ghost(ss));
    let v2 = vote_exec(places, w, a, k, 2, i, j, Ghost(ss));
    let v3 = vote_exec(places, w, a, k, 3, i, j, Ghost(ss));
    let v4 = vote_exec(places, w, a, k, 4, i, j, Ghost(ss));
    let v5 = vote_exec(places, w, a, k, 5, i, j, Ghost(ss));
    v0 + v1 + v2 + v3 + v4 + v5
}

fn duel_stats_exec(
    places: &Vec<Vec<usize>>,
    w: &ColumnWeights,
    a: &MetricAvailability,
    k: usize,
    i: usize,
    n: usize,
    total: usize,
    Ghost(ss): Ghost<Seq<Candidate>>,
) -> (r: (u128, usize, usize))
    requires
        places@.len() == 6,
        forall|m: int, x: int| 0 <= m < 6 && 0 <= x < ss.len() ==> #[trigger] places@[m]@[x] == place(ss, ss[x], m),
        forall|m: int| 0 <= m < 6 ==> #[trigger] places@[m]@.len() == ss.len(),
        n == ss.len(),
        i < n,
        total == spec_total_weight(*w, *a),
    ensures
        (r.0 as int, r.1 as int, r.2 as int) == duel_stats(ss, *w, *a, k as int, i as int, n as int),
{
    let mut s: u128 = 0;
    let mut d: usize = 0;
    let mut b: usize = 0;
    let mut j: usize = 0;
    while j < n
        invariant
            j <= n == ss.len(),
            i < n,
            places@.len() == 6,
            forall|m: int, x: int| 0 <= m < 6 && 0 <= x < ss.len() ==> #[trigger] places@[m]@[x] == place(ss, ss[x], m),
            forall|m: int| 0 <= m < 6 ==> #[trigger] places@[m]@.len() == ss.len(),
            total == spec_total_weight(*w, *a),
            (s as int, d as int, b as int) == duel_stats(ss, *w, *a, k as int, i as int, j as int),
            s <= j * total,
            d <= j,
            b <= j,
        decreases n - j,
    {
        if j != i {
            let v = pair_votes_exec(places, w, a, k, i, j, Ghost(ss));
            proof {
                assert(s + v <= (j + 1) * total) by (nonlinear_arith)
                    requires
                        s <= j * total,
                        v <= total,
                ;
                assert((j + 1) * total <= 0xFFFF_FFFF_FFFF_FFFFu128 * 0xFFFF_FFFF_FFFF_FFFFu128) by (nonlinear_arith)
                    requires
                        j + 1 <= 0xFFFF_FFFF_FFFF_FFFFu128,
                        total <= 0xFFFF_FFFF_FFFF_FFFFu128,
                ;
            }
            s = s + v as u128;
            if 2 * (v as u128) > total as u128 {
                d = d + 1;
            }
            if (2 * (v as u128)) < total as u128 {
                b = b + 1;
            }
        } else {
            proof {
                assert(s <= (j + 1) * total) by (nonlinear_arith)
                    requires
                        s <= j * total,
                ;
            }
        }
        j = j + 1;
    }
    (s, d, b)
}

/// The tournament among the survivors.
fn tally(ss: &Vec<Candidate>, w: &ColumnWeights, a: &MetricAvailability, top_k: usize, total: usize) -> (r: PoemTally)
    requires
        total == spec_total_weight(*w, *a),
    ensures
        tally_of(r, ss@, *w, *a, top_k as int),
{
    let n = ss.len();
    let k = if top_k < n {
        top_k
    } else {
        n
    };
    let places = all_places(ss);
    let mut ids: Vec<i64> = Vec::new();
    let mut sums: Vec<u128> = Vec::new();
    let mut doms: Vec<usize> = Vec::new();
    let mut subs: Vec<usize> = Vec::new();
    let mut i: usize = 0;
    while i < n
        invariant
            i <= n == ss@.len(),
            k as int == (if top_k < n { top_k as int } else { n as int }),
            places@.len() == 6,
            forall|m: int, x: int| 0 <= m < 6 && 0 <= x < ss@.len() ==> #[trigger] places@[m]@[x] == place(ss@, ss@[x], m),
            forall|m: int| 0 <= m < 6 ==> #[trigger] places@[m]@.len() == ss@.len(),
            total == spec_total_weight(*w, *a),
            ids@ == ids_of(ss@).take(i as int),
            sums@.len() == i,
            doms@.len() == i,
            subs@.len() == i,
            forall|x: int|
                0 <= x < i ==> {
                    let st = #[trigger] duel_stats(ss@, *w, *a, k as int, x, n as int);
                    &&& sums@[x] == st.0
                    &&& doms@[x] == st.1
                    &&& subs@[x] == st.2
                },
        decreases n - i,
    {
        let (s, d, b) = duel_stats_exec(&places, w, a, k, i, n, total, Ghost(ss@));
        ids.push(ss[i].0);
        sums.push(s);
        doms.push(d);
        subs.push(b);
        proof {
            assert(ids_of(ss@).take(i + 1) =~= ids_of(ss@).take(i as int).push(ss@[i as int].0));
        }
        i = i + 1;
    }
    proof {
        assert(ids_of(ss@).take(n as int) =~= ids_of(ss@));
    }
    PoemTally { ids, total_weight: total, vote_sums: sums, dominating: doms, submitting: subs }
}

proof fn lemma_insert_id_at(s: Seq<i64>, x: i64, j: int)
    requires
        0 <= j <= s.len(),
        forall|k: int| j <= k < s.len() ==> x < #[trigger] s[k],
        j == 0 || !(x < s[j - 1]),
    ensures
        insert_id(s, x) == s.take(j).push(x) + s.skip(j),
    decreases s.len(),
{
    if s.len() == 0 {
        assert(s.take(j).push(x) + s.skip(j) =~= s.push(x));
    } else if !(x < s.last()) {
        assert(j == s.len());
        assert(s.take(j).push(x) + s.skip(j) =~= s.push(x));
    } else {
        let p = s.drop_last();
        lemma_insert_id_at(p, x, j);
        assert(p.take(j).push(x) + p.skip(j) + seq![s.last()] =~= s.take(j).push(x) + s.skip(j));
    }
}

/// The ids in ascending order.
fn sort_ids_exec(v: &Vec<i64>) -> (r: Vec<i64>)
    ensures
        r@ == sort_ids(v@),
{
    let mut out: Vec<i64> = Vec::new();
    let mut i: usize = 0;
    while i < v.len()
        invariant
            i <= v@.len(),
            out@ == sort_ids(v@.take(i as int)),
        decreases v@.len() - i,
    {
        let x = v[i];
        proof {
            assert(v@.take(i + 1).drop_last() =~= v@.take(i as int));
            assert(v@.take(i + 1).last() == x);
        }
        let ghost o = out@;
        let mut j = out.len();
        while j > 0 && x < out[j - 1]
            invariant
                j <= out@.len(),
                o == out@,
                forall|k: int| j <= k < o.len() ==> x < #[trigger] o[k],
            decreases j,
        {
            j = j - 1;
        }
        proof {
            lemma_insert_id_at(o, x, j as int);
        }
        out.insert(j, x);
        proof {
            assert(out@ =~= o.take(j as int).push(x) + o.skip(j as int));
        }
        i = i + 1;
    }
    proof {
        assert(v@.take(i as int) =~= v@);
    }
    out
}

/// Decides how candidates are to be ranked: prunes them to the first `top_k`
/// on some active metric, then gives the single survivor, the survivors by id
/// when no active metric has weight, or their tournament.
pub fn poem_plan(
    candidates: &Vec<Candidate>,
    query_type: &QueryType,
    top_k: usize,
    availability: &MetricAvailability,
) -> (r: PoemPlan)
    ensures
        plan_of(r, candidates@, *query_type, top_k as int, *availability),
{
    if candidates.len() == 0 {
        return PoemPlan::Empty;
    }
    let surviving = prune_top_k(candidates, top_k, availability);
    if surviving.len() == 1 {
        return PoemPlan::Single(surviving[0].0);
    }
    let weights = column_weights(query_type);
    let total = total_weight_exec(&weights, availability);
    if total == 0 {
        let mut ids: Vec<i64> = Vec::new();
        let mut i: usize = 0;
        while i < surviving.len()
            invariant
                i <= surviving@.len(),
                ids@ == ids_of(surviving@).take(i as int),
            decreases surviving@.len() - i,
        {
            ids.push(surviving[i].0);
            proof {
                assert(ids_of(surviving@).take(i + 1) =~= ids_of(surviving@).take(i as int).push(surviving@[i as int].0));
            }
            i = i + 1;
        }
        proof {
            assert(ids_of(surviving@).take(i as int) =~= ids_of(surviving@));
        }
        return PoemPlan::ById(sort_ids_exec(&ids));
    }
    PoemPlan::Tally(tally(&surviving, &weights, availability, top_k, total))
}

proof fn lemma_insert_id(s: Seq<i64>, x: i64)
    requires
        forall|i: int, j: int| 0 <= i < j < s.len() ==> s[i] <= s[j],
    ensures
        forall|i: int, j: int| 0 <= i < j < insert_id(s, x).len() ==> insert_id(s, x)[i] <= insert_id(s, x)[j],
        insert_id(s, x).to_multiset() == s.to_multiset().insert(x),
        insert_id(s, x).len() == s.len() + 1,
    decreases s.len(),
{
    broadcast use vstd::multiset::group_multiset_axioms, vstd::seq_lib::group_to_multiset_ensures;
    if s.len() == 0 || !(x < s.last()) {
        let t = s.push(x);
        assert forall|i: int, j: int| 0 <= i < j < t.len() implies t[i] <= t[j] by {
            if j == s.len() {
                if i < s.len() - 1 {
                    assert(s[i] <= s[s.len() - 1]);
                }
            }
        }
    } else {
        let p = s.drop_last();
        assert forall|i: int, j: int| 0 <= i < j < p.len() implies p[i] <= p[j] by {
            assert(p[i] == s[i] && p[j] == s[j]);
        }
        lemma_insert_id(p, x);
        let q = insert_id(p, x);
        let t = q.push(s.last());
        assert forall|i: int, j: int| 0 <= i < j < t.len() implies t[i] <= t[j] by {
            if j == q.len() {
                // q's elements are those of p and x, all at most s.last()
                assert(q.to_multiset().count(q[i]) > 0);
                if q[i] != x {
                    assert(p.to_multiset().count(q[i]) > 0);
                    assert(p.contains(q[i]));
                    let k = choose|k: int| 0 <= k < p.len() && p[k] == q[i];
                    assert(s[k] <= s[s.len() - 1]);
                }
            } else {
                assert(t[i] == q[i] && t[j] == q[j]);
            }
        }
        assert(s =~= p.push(s.last()));
    }
}

/// Sorting ids by `sort_ids` gives them in ascending order, each as often as before.
pub proof fn ids_sorted_ascending(s: Seq<i64>)
    ensures
        forall|i: int, j: int| 0 <= i < j < sort_ids(s).len() ==> sort_ids(s)[i] <= sort_ids(s)[j],
        sort_ids(s).to_multiset() == s.to_multiset(),
    decreases s.len(),
{
    broadcast use vstd::seq_lib::group_to_multiset_ensures;
    if s.len() > 0 {
        ids_sorted_ascending(s.drop_last());
        lemma_insert_id(sort_ids(s.drop_last()), s.last());
        assert(s =~= s.drop_last().push(s.last()));
    }
}

proof fn lemma_place_append(a: Seq<Candidate>, b: Seq<Candidate>, c: Candidate, m: int)
    ensures
        place(a + b, c, m) == place(a, c, m) + place(b, c, m),
    decreases b.len(),
{
    if b.len() == 0 {
        assert(a + b =~= a);
    } else {
        lemma_place_append(a, b.drop_last(), c, m);
        assert((a + b).drop_last() =~= a + b.drop_last());
    }
}

/// A candidate's place on a metric depends only on which candidates there
/// are, not on the order they come in.
pub proof fn place_ignores_order(cs: Seq<Candidate>, ps: Seq<Candidate>, c: Candidate, m: int)
    requires
        cs.to_multiset() == ps.to_multiset(),
    ensures
        place(cs, c, m) == place(ps, c, m),
    decreases cs.len(),
{
    broadcast use vstd::multiset::group_multiset_axioms;
    if cs.len() == 0 {
        vstd::seq_lib::to_multiset_len(cs);
        vstd::seq_lib::to_multiset_len(ps);
        assert(ps.len() == 0);
    } else {
        let x = cs.last();
        let rest = cs.drop_last();
        assert(cs =~= rest.push(x));
        vstd::seq_lib::to_multiset_build(rest, x);
        assert(ps.to_multiset().count(x) > 0);
        ps.to_multiset_ensures();
        assert(ps.contains(x));
        let k = choose|k: int| 0 <= k < ps.len() && ps[k] == x;
        let before = ps.take(k);
        let after = ps.skip(k + 1);
        let ps2 = before + after;
        assert(ps2 =~= ps.remove(k));
        vstd::seq_lib::to_multiset_remove(ps, k);
        assert(rest.to_multiset() =~= cs.to_multiset().remove(x));
        assert(ps2.to_multiset() =~= rest.to_multiset());
        place_ignores_order(rest, ps2, c, m);
        assert(ps =~= before + seq![x] + after);
        lemma_place_append(before + seq![x], after, c, m);
        lemma_place_append(before, seq![x], c, m);
        lemma_place_append(before, after, c, m);
        lemma_place_append(rest, seq![x], c, m);
        assert(seq![x].drop_last() =~= Seq::<Candidate>::empty());
        assert(cs =~= rest + seq![x]);
        assert(place(seq![x], c, m) == if ahead(x, c, m) { 1nat } else { 0nat });
        assert(place(cs, c, m) == place(rest, c, m) + place(seq![x], c, m));
        assert(place(ps, c, m) == place(before, c, m) + place(seq![x], c, m) + place(after, c, m));
    }
}

/// Whether a candidate survives pruning depends only on which candidates
/// there are, not on their order.
pub proof fn survival_ignores_order(cs: Seq<Candidate>, ps: Seq<Candidate>, c: Candidate, top_k: int, a: MetricAvailability)
    requires
        cs.to_multiset() == ps.to_multiset(),
    ensures
        leads_somewhere(cs, c, top_k, a) == leads_somewhere(ps, c, top_k, a),
{
    place_ignores_order(cs, ps, c, 0);
    place_ignores_order(cs, ps, c, 1);
    place_ignores_order(cs, ps, c, 2);
    place_ignores_order(cs, ps, c, 3);
    place_ignores_order(cs, ps, c, 4);
    place_ignores_order(cs, ps, c, 5);
}

proof fn lemma_leaders_from(cs: Seq<Candidate>, src: Seq<Candidate>, top_k: int, a: MetricAvailability)
    ensures
        forall|i: int|
            0 <= i < leaders(cs, src, top_k, a).len() ==> exists|j: int|
                0 <= j < src.len() && #[trigger] leaders(cs, src, top_k, a)[i] == src[j],
    decreases src.len(),
{
    if src.len() > 0 {
        let p = src.drop_last();
        lemma_leaders_from(cs, p, top_k, a);
        let lp = leaders(cs, p, top_k, a);
        let l = leaders(cs, src, top_k, a);
        assert forall|i: int| 0 <= i < l.len() implies exists|j: int| 0 <= j < src.len() && #[trigger] l[i] == src[j] by {
            if i < lp.len() {
                assert(l[i] == lp[i]);
                let j = choose|j: int| 0 <= j < p.len() && lp[i] == p[j];
                assert(src[j] == p[j]);
            } else {
                assert(l[i] == src[src.len() - 1]);
            }
        }
    }
}

proof fn lemma_leaders_distinct(cs: Seq<Candidate>, src: Seq<Candidate>, top_k: int, a: MetricAvailability)
    requires
        forall|i: int, j: int| 0 <= i < j < src.len() ==> src[i].0 != src[j].0,
    ensures
        forall|i: int, j: int|
            0 <= i < j < leaders(cs, src, top_k, a).len() ==> leaders(cs, src, top_k, a)[i].0 != leaders(
                cs,
                src,
                top_k,
                a,
            )[j].0,
    decreases src.len(),
{
    if src.len() > 0 {
        let p = src.drop_last();
        assert forall|i: int, j: int| 0 <= i < j < p.len() implies p[i].0 != p[j].0 by {
            assert(p[i] == src[i] && p[j] == src[j]);
        }
        lemma_leaders_distinct(cs, p, top_k, a);
        lemma_leaders_from(cs, p, top_k, a);
        let lp = leaders(cs, p, top_k, a);
        let l = leaders(cs, src, top_k, a);
        assert forall|i: int, j: int| 0 <= i < j < l.len() implies l[i].0 != l[j].0 by {
            assert(l[i] == lp[i]);
            if j < lp.len() {
                assert(l[j] == lp[j]);
            } else {
                let x = choose|x: int| 0 <= x < p.len() && #[trigger] lp[i] == p[x];
                assert(src[x] == p[x]);
                assert(l[j] == src[src.len() - 1]);
            }
        }
    }
}

/// Pruning keeps candidates in their order and adds none: when the ids are
/// distinct, so are the survivors' ids.
pub proof fn pruning_keeps_ids_distinct(cs: Seq<Candidate>, top_k: int, a: MetricAvailability)
    requires
        forall|i: int, j: int| 0 <= i < j < cs.len() ==> cs[i].0 != cs[j].0,
    ensures
        forall|i: int, j: int|
            0 <= i < j < spec_prune_top_k(cs, top_k, a).len() ==> spec_prune_top_k(cs, top_k, a)[i].0 != spec_prune_top_k(
                cs,
                top_k,
                a,
            )[j].0,
{
    if cs.len() > top_k {
        lemma_leaders_distinct(cs, cs, top_k, a);
    }
}


/// The ids a plan ranks, in its order.
pub open spec fn plan_ids(p: PoemPlan) -> Seq<i64> {
    match p {
        PoemPlan::Empty => seq![],
        PoemPlan::Single(id) => seq![id],
        PoemPlan::ById(v) => v@,
        PoemPlan::Tally(t) => t.ids@,
    }
}

/// Whether `c` is among the first `top_k` on some active metric of `cs`, as a predicate.
pub open spec fn leads_in(cs: Seq<Candidate>, top_k: int, a: MetricAvailability) -> spec_fn(Candidate) -> bool {
    |c: Candidate| leads_somewhere(cs, c, top_k, a)
}

proof fn lemma_leaders_multiset(cs: Seq<Candidate>, src: Seq<Candidate>, top_k: int, a: MetricAvailability)
    ensures
        leaders(cs, src, top_k, a).to_multiset() =~= src.to_multiset().filter(leads_in(cs, top_k, a)),
    decreases src.len(),
{
    broadcast use vstd::multiset::group_multiset_axioms, vstd::seq_lib::group_to_multiset_ensures;
    if src.len() == 0 {
        assert(src.to_multiset() =~= vstd::multiset::Multiset::empty());
    } else {
        let q = src.drop_last();
        lemma_leaders_multiset(cs, q, top_k, a);
        assert(src =~= q.push(src.last()));
    }
}

proof fn lemma_leaders_from_cs(cs: Seq<Candidate>, src: Seq<Candidate>, top_k: int, a: MetricAvailability)
    ensures
        forall|i: int| 0 <= i < leaders(cs, src, top_k, a).len() ==> src.contains(#[trigger] leaders(cs, src, top_k, a)[i]),
{
    lemma_leaders_from(cs, src, top_k, a);
    assert forall|i: int| 0 <= i < leaders(cs, src, top_k, a).len() implies src.contains(
        #[trigger] leaders(cs, src, top_k, a)[i],
    ) by {
        let j = choose|j: int| 0 <= j < src.len() && leaders(cs, src, top_k, a)[i] == src[j];
    }
}

proof fn lemma_ids_multiset(s: Seq<Candidate>, t: Seq<Candidate>)
    requires
        s.to_multiset() == t.to_multiset(),
    ensures
        ids_of(s).to_multiset() == ids_of(t).to_multiset(),
    decreases s.len(),
{
    broadcast use vstd::multiset::group_multiset_axioms, vstd::seq_lib::group_to_multiset_ensures;
    if s.len() == 0 {
        vstd::seq_lib::to_multiset_len(s);
        vstd::seq_lib::to_multiset_len(t);
        assert(t.len() == 0);
        assert(ids_of(s) =~= Seq::<i64>::empty());
        assert(ids_of(t) =~= Seq::<i64>::empty());
    } else {
        let x = s.last();
        let q = s.drop_last();
        assert(s =~= q.push(x));
        assert(t.to_multiset().count(x) > 0);
        assert(t.contains(x));
        let k = choose|k: int| 0 <= k < t.len() && t[k] == x;
        let t2 = t.remove(k);
        assert(t2.to_multiset() =~= t.to_multiset().remove(x));
        assert(q.to_multiset() =~= s.to_multiset().remove(x));
        lemma_ids_multiset(q, t2);
        assert(ids_of(s) =~= ids_of(q).push(x.0));
        assert(ids_of(t2) =~= ids_of(t).remove(k));
        assert(ids_of(t)[k] == x.0);
        assert(ids_of(t).remove(k).to_multiset() =~= ids_of(t).to_multiset().remove(x.0));
        assert(ids_of(t).to_multiset().count(x.0) > 0) by {
            assert(ids_of(t).contains(x.0));
        }
        assert(ids_of(s).to_multiset() =~= ids_of(t).to_multiset());
    }
}

proof fn lemma_no_dup_transfer(s: Seq<i64>, t: Seq<i64>)
    requires
        s.to_multiset() == t.to_multiset(),
        s.no_duplicates(),
    ensures
        t.no_duplicates(),
{
    s.lemma_multiset_has_no_duplicates();
    t.lemma_multiset_has_no_duplicates_conv();
}

/// A plan ranks exactly the candidates that survive pruning: the plan's ids
/// are the survivors' ids, each as often, every one the id of an input
/// candidate, and none twice when the input ids are distinct.
pub proof fn plan_ranks_survivors(p: PoemPlan, cs: Seq<Candidate>, q: QueryType, top_k: int, a: MetricAvailability)
    requires
        plan_of(p, cs, q, top_k, a),
    ensures
        plan_ids(p).to_multiset() == ids_of(spec_prune_top_k(cs, top_k, a)).to_multiset(),
        forall|i: int| 0 <= i < plan_ids(p).len() ==> ids_of(cs).contains(#[trigger] plan_ids(p)[i]),
        ids_of(cs).no_duplicates() ==> plan_ids(p).no_duplicates(),
{
    broadcast use vstd::multiset::group_multiset_axioms, vstd::seq_lib::group_to_multiset_ensures;
    let ss = spec_prune_top_k(cs, top_k, a);
    if cs.len() == 0 {
        if cs.len() > top_k {
            assert(leaders(cs, cs, top_k, a) =~= Seq::<Candidate>::empty());
        }
        assert(ids_of(ss) =~= Seq::<i64>::empty());
        assert(plan_ids(p) =~= Seq::<i64>::empty());
    } else if ss.len() == 1 {
        assert(ids_of(ss) =~= plan_ids(p));
    } else if spec_total_weight(spec_column_weights(q), a) == 0 {
        ids_sorted_ascending(ids_of(ss));
    }
    assert(plan_ids(p).to_multiset() == ids_of(ss).to_multiset());
    // survivors are input candidates
    if cs.len() > top_k {
        lemma_leaders_from_cs(cs, cs, top_k, a);
    }
    assert forall|i: int| 0 <= i < ss.len() implies cs.contains(#[trigger] ss[i]) by {
        if cs.len() <= top_k {
            assert(cs[i] == ss[i]);
        }
    }
    assert forall|i: int| 0 <= i < plan_ids(p).len() implies ids_of(cs).contains(#[trigger] plan_ids(p)[i]) by {
        let x = plan_ids(p)[i];
        assert(plan_ids(p).to_multiset().count(x) > 0) by {
            assert(plan_ids(p).contains(x));
        }
        assert(ids_of(ss).contains(x));
        let y = choose|y: int| 0 <= y < ids_of(ss).len() && ids_of(ss)[y] == x;
        assert(cs.contains(ss[y]));
        let z = choose|z: int| 0 <= z < cs.len() && cs[z] == ss[y];
        assert(ids_of(cs)[z] == x);
    }
    if ids_of(cs).no_duplicates() {
        assert forall|i: int, j: int| 0 <= i < j < cs.len() implies cs[i].0 != cs[j].0 by {
            assert(ids_of(cs)[i] == cs[i].0 && ids_of(cs)[j] == cs[j].0);
        }
        pruning_keeps_ids_distinct(cs, top_k, a);
        assert(ids_of(ss).no_duplicates()) by {
            assert forall|i: int, j: int| 0 <= i < ids_of(ss).len() && 0 <= j < ids_of(ss).len() && i != j implies ids_of(ss)[i] != ids_of(ss)[j] by {
                if i < j {
                    assert(ss[i].0 != ss[j].0);
                } else {
                    assert(ss[j].0 != ss[i].0);
                }
            }
        }
        lemma_no_dup_transfer(ids_of(ss), plan_ids(p));
    }
}


proof fn lemma_leaders_same_pred(cs: Seq<Candidate>, ps: Seq<Candidate>, src: Seq<Candidate>, top_k: int, a: MetricAvailability)
    requires
        cs.to_multiset() == ps.to_multiset(),
    ensures
        leaders(cs, src, top_k, a) == leaders(ps, src, top_k, a),
    decreases src.len(),
{
    if src.len() > 0 {
        lemma_leaders_same_pred(cs, ps, src.drop_last(), top_k, a);
        survival_ignores_order(cs, ps, src.last(), top_k, a);
    }
}

proof fn lemma_survivors_multiset(cs: Seq<Candidate>, ps: Seq<Candidate>, top_k: int, a: MetricAvailability)
    requires
        cs.to_multiset() == ps.to_multiset(),
    ensures
        cs.len() == ps.len(),
        spec_prune_top_k(cs, top_k, a).to_multiset() == spec_prune_top_k(ps, top_k, a).to_multiset(),
{
    vstd::seq_lib::to_multiset_len(cs);
    vstd::seq_lib::to_multiset_len(ps);
    if cs.len() > top_k {
        lemma_leaders_same_pred(cs, ps, ps, top_k, a);
        lemma_leaders_multiset(cs, cs, top_k, a);
        lemma_leaders_multiset(cs, ps, top_k, a);
    }
}

/// The votes metric `m` gives candidate `x` over candidate `y` among `ss`.
pub open spec fn vote_for(ss: Seq<Candidate>, w: ColumnWeights, a: MetricAvailability, k: int, m: int, x: Candidate, y: Candidate) -> int {
    if weight_at(w, m) > 0 && active_at(a, m) && place(ss, x, m) < place(ss, y, m) && place(ss, y, m) < k {
        weight_at(w, m) as int
    } else {
        0
    }
}

/// All votes for `x` over `y` among `ss`.
pub open spec fn votes_for(ss: Seq<Candidate>, w: ColumnWeights, a: MetricAvailability, k: int, x: Candidate, y: Candidate) -> int {
    vote_for(ss, w, a, k, 0, x, y) + vote_for(ss, w, a, k, 1, x, y) + vote_for(ss, w, a, k, 2, x, y) + vote_for(
        ss,
        w,
        a,
        k,
        3,
        x,
        y,
    ) + vote_for(ss, w, a, k, 4, x, y) + vote_for(ss, w, a, k, 5, x, y)
}

/// Over the opponents `src` of `x` (`x` itself not skipped): the sum of its
/// votes, how many it beats by more than half the total weight, and how many by less.
pub open spec fn stats_over(
    ss: Seq<Candidate>,
    w: ColumnWeights,
    a: MetricAvailability,
    k: int,
    x: Candidate,
    src: Seq<Candidate>,
) -> (int, int, int)
    decreases src.len(),
{
    if src.len() == 0 {
        (0, 0, 0)
    } else {
        let (s, d, b) = stats_over(ss, w, a, k, x, src.drop_last());
        let v = votes_for(ss, w, a, k, x, src.last());
        let t = spec_total_weight(w, a);
        (s + v, d + if 2 * v > t {
            1int
        } else {
            0int
        }, b + if 2 * v < t {
            1int
        } else {
            0int
        })
    }
}

proof fn lemma_duel_as_stats(ss: Seq<Candidate>, w: ColumnWeights, a: MetricAvailability, k: int, i: int, j: int)
    requires
        0 <= i < ss.len(),
        0 <= j <= ss.len(),
    ensures
        ({
            let st = stats_over(ss, w, a, k, ss[i], ss.take(j));
            let own = if i < j && 0 < spec_total_weight(w, a) {
                1int
            } else {
                0int
            };
            duel_stats(ss, w, a, k, i, j) == (st.0, st.1, st.2 - own)
        }),
    decreases j,
{
    if j > 0 {
        lemma_duel_as_stats(ss, w, a, k, i, j - 1);
        assert(ss.take(j).drop_last() =~= ss.take(j - 1));
        assert(ss.take(j).last() == ss[j - 1]);
        if j - 1 == i {
            assert(votes_for(ss, w, a, k, ss[i], ss[i]) == 0);
        } else {
            assert(pair_votes(ss, w, a, k, i, j - 1) == votes_for(ss, w, a, k, ss[i], ss[j - 1]));
        }
    }
}

proof fn lemma_votes_same(ss1: Seq<Candidate>, ss2: Seq<Candidate>, w: ColumnWeights, a: MetricAvailability, k: int, x: Candidate, y: Candidate)
    requires
        ss1.to_multiset() == ss2.to_multiset(),
    ensures
        votes_for(ss1, w, a, k, x, y) == votes_for(ss2, w, a, k, x, y),
{
    place_ignores_order(ss1, ss2, x, 0);
    place_ignores_order(ss1, ss2, x, 1);
    place_ignores_order(ss1, ss2, x, 2);
    place_ignores_order(ss1, ss2, x, 3);
    place_ignores_order(ss1, ss2, x, 4);
    place_ignores_order(ss1, ss2, x, 5);
    place_ignores_order(ss1, ss2, y, 0);
    place_ignores_order(ss1, ss2, y, 1);
    place_ignores_order(ss1, ss2, y, 2);
    place_ignores_order(ss1, ss2, y, 3);
    place_ignores_order(ss1, ss2, y, 4);
    place_ignores_order(ss1, ss2, y, 5);
}

proof fn lemma_stats_same(ss1: Seq<Candidate>, ss2: Seq<Candidate>, w: ColumnWeights, a: MetricAvailability, k: int, x: Candidate, src: Seq<Candidate>)
    requires
        ss1.to_multiset() == ss2.to_multiset(),
    ensures
        stats_over(ss1, w, a, k, x, src) == stats_over(ss2, w, a, k, x, src),
    decreases src.len(),
{
    if src.len() > 0 {
        lemma_stats_same(ss1, ss2, w, a, k, x, src.drop_last());
        lemma_votes_same(ss1, ss2, w, a, k, x, src.last());
    }
}

proof fn lemma_stats_append(ss: Seq<Candidate>, w: ColumnWeights, a: MetricAvailability, k: int, x: Candidate, p: Seq<Candidate>, q: Seq<Candidate>)
    ensures
        ({
            let sp = stats_over(ss, w, a, k, x, p);
            let sq = stats_over(ss, w, a, k, x, q);
            stats_over(ss, w, a, k, x, p + q) == (sp.0 + sq.0, sp.1 + sq.1, sp.2 + sq.2)
        }),
    decreases q.len(),
{
    if q.len() == 0 {
        assert(p + q =~= p);
    } else {
        lemma_stats_append(ss, w, a, k, x, p, q.drop_last());
        assert((p + q).drop_last() =~= p + q.drop_last());
        assert((p + q).last() == q.last());
    }
}

proof fn lemma_stats_order(ss: Seq<Candidate>, w: ColumnWeights, a: MetricAvailability, k: int, x: Candidate, src1: Seq<Candidate>, src2: Seq<Candidate>)
    requires
        src1.to_multiset() == src2.to_multiset(),
    ensures
        stats_over(ss, w, a, k, x, src1) == stats_over(ss, w, a, k, x, src2),
    decreases src1.len(),
{
    broadcast use vstd::multiset::group_multiset_axioms;
    if src1.len() == 0 {
        vstd::seq_lib::to_multiset_len(src1);
        vstd::seq_lib::to_multiset_len(src2);
        assert(src2.len() == 0);
    } else {
        let y = src1.last();
        let rest = src1.drop_last();
        assert(src1 =~= rest.push(y));
        vstd::seq_lib::to_multiset_build(rest, y);
        assert(src2.to_multiset().count(y) > 0);
        src2.to_multiset_ensures();
        assert(src2.contains(y));
        let j = choose|j: int| 0 <= j < src2.len() && src2[j] == y;
        let before = src2.take(j);
        let after = src2.skip(j + 1);
        let rest2 = before + after;
        assert(rest2 =~= src2.remove(j));
        vstd::seq_lib::to_multiset_remove(src2, j);
        assert(rest.to_multiset() =~= src1.to_multiset().remove(y));
        assert(rest2.to_multiset() =~= rest.to_multiset());
        lemma_stats_order(ss, w, a, k, x, rest, rest2);
        assert(src2 =~= before + seq![y] + after);
        lemma_stats_append(ss, w, a, k, x, before + seq![y], after);
        lemma_stats_append(ss, w, a, k, x, before, seq![y]);
        lemma_stats_append(ss, w, a, k, x, before, after);
        lemma_stats_append(ss, w, a, k, x, rest, seq![y]);
        assert(src1 =~= rest + seq![y]);
        assert(seq![y].drop_last() =~= Seq::<Candidate>::empty());
    }
}

proof fn lemma_sorted_ids_equal(s: Seq<i64>, t: Seq<i64>)
    requires
        s.to_multiset() == t.to_multiset(),
    ensures
        sort_ids(s) == sort_ids(t),
{
    let leq = |x: i64, y: i64| x <= y;
    ids_sorted_ascending(s);
    ids_sorted_ascending(t);
    assert(vstd::relations::sorted_by(sort_ids(s), leq)) by {
        assert forall|i: int, j: int| 0 <= i < j < sort_ids(s).len() implies #[trigger] leq(sort_ids(s)[i], sort_ids(s)[j]) by {}
    }
    assert(vstd::relations::sorted_by(sort_ids(t), leq)) by {
        assert forall|i: int, j: int| 0 <= i < j < sort_ids(t).len() implies #[trigger] leq(sort_ids(t)[i], sort_ids(t)[j]) by {}
    }
    assert(vstd::relations::total_ordering(leq));
    vstd::seq_lib::lemma_sorted_unique(sort_ids(s), sort_ids(t), leq);
}

proof fn lemma_tally_at(t: PoemTally, ss: Seq<Candidate>, w: ColumnWeights, a: MetricAvailability, top_k: int, i: int)
    requires
        tally_of(t, ss, w, a, top_k),
        0 <= i < ss.len(),
    ensures
        ({
            let st = duel_stats(ss, w, a, vote_depth(top_k, ss.len() as int), i, ss.len() as int);
            &&& t.vote_sums@[i] == st.0
            &&& t.dominating@[i] == st.1
            &&& t.submitting@[i] == st.2
        }),
{
    let st = duel_stats(ss, w, a, vote_depth(top_k, ss.len() as int), i, ss.len() as int);
}

/// Row `i` of a tally: the vote sum, dominations and submissions of survivor `i`.
pub open spec fn tally_row(t: PoemTally, i: int) -> (int, int, int) {
    (t.vote_sums@[i] as int, t.dominating@[i] as int, t.submitting@[i] as int)
}

/// The tournament row of survivor `x` among the survivors `ss`: its votes
/// against every survivor, itself included, less the submission it would
/// count against itself.
pub open spec fn survivor_stats(ss: Seq<Candidate>, w: ColumnWeights, a: MetricAvailability, top_k: int, x: Candidate) -> (
    int,
    int,
    int,
) {
    let st = stats_over(ss, w, a, vote_depth(top_k, ss.len() as int), x, ss);
    let own = if 0 < spec_total_weight(w, a) {
        1int
    } else {
        0int
    };
    (st.0, st.1, st.2 - own)
}

/// The plan does not depend on the order in which the candidates come: the
/// same candidates in another order give a plan of the same kind over the same
/// ids; a single survivor and the ranking by id are equal; and in a tournament,
/// under the same total weight, each survivor's row is the same function of
/// the survivor, whichever order the candidates came in.
pub proof fn plan_ignores_order(
    p1: PoemPlan,
    p2: PoemPlan,
    cs: Seq<Candidate>,
    ps: Seq<Candidate>,
    q: QueryType,
    top_k: int,
    a: MetricAvailability,
)
    requires
        cs.to_multiset() == ps.to_multiset(),
        plan_of(p1, cs, q, top_k, a),
        plan_of(p2, ps, q, top_k, a),
    ensures
        (p1 is Empty) == (p2 is Empty),
        (p1 is Single) == (p2 is Single),
        (p1 is ById) == (p2 is ById),
        (p1 is Tally) == (p2 is Tally),
        plan_ids(p1).to_multiset() == plan_ids(p2).to_multiset(),
        p1 is Single || p1 is ById ==> plan_ids(p1) == plan_ids(p2),
        p1 is Tally && p2 is Tally ==> {
            let t1 = p1->Tally_0;
            let t2 = p2->Tally_0;
            let ss1 = spec_prune_top_k(cs, top_k, a);
            let ss2 = spec_prune_top_k(ps, top_k, a);
            let w = spec_column_weights(q);
            &&& t1.total_weight == t2.total_weight
            &&& forall|i: int|
                0 <= i < t1.ids@.len() ==> tally_row(t1, i) == #[trigger] survivor_stats(ss1, w, a, top_k, ss1[i])
            &&& forall|j: int|
                0 <= j < t2.ids@.len() ==> tally_row(t2, j) == #[trigger] survivor_stats(ss1, w, a, top_k, ss2[j])
        },
{
    broadcast use vstd::multiset::group_multiset_axioms, vstd::seq_lib::group_to_multiset_ensures;
    let ss1 = spec_prune_top_k(cs, top_k, a);
    let ss2 = spec_prune_top_k(ps, top_k, a);
    lemma_survivors_multiset(cs, ps, top_k, a);
    assert(ss1.len() == ss2.len()) by {
        vstd::seq_lib::to_multiset_len(ss1);
        vstd::seq_lib::to_multiset_len(ss2);
    }
    lemma_ids_multiset(ss1, ss2);
    plan_ranks_survivors(p1, cs, q, top_k, a);
    plan_ranks_survivors(p2, ps, q, top_k, a);
    let w = spec_column_weights(q);
    if cs.len() > 0 && ss1.len() == 1 {
        assert(ss1.to_multiset().count(ss1[0]) > 0) by {
            assert(ss1.contains(ss1[0]));
        }
        assert(ss2.contains(ss1[0]));
        assert(ss2[0] == ss1[0]);
    } else if cs.len() > 0 && spec_total_weight(w, a) == 0 {
        lemma_sorted_ids_equal(ids_of(ss1), ids_of(ss2));
    } else if cs.len() > 0 {
        let n = ss1.len() as int;
        let k = vote_depth(top_k, n);
        match p1 {
            PoemPlan::Tally(t1) => {
                match p2 {
                    PoemPlan::Tally(t2) => {
                        assert forall|i: int| 0 <= i < t1.ids@.len() implies tally_row(t1, i) == #[trigger] survivor_stats(
                            ss1,
                            w,
                            a,
                            top_k,
                            ss1[i],
                        ) by {
                            lemma_duel_as_stats(ss1, w, a, k, i, n);
                            assert(ss1.take(n) =~= ss1);
                            lemma_tally_at(t1, ss1, w, a, top_k, i);
                        }
                        assert forall|j: int| 0 <= j < t2.ids@.len() implies tally_row(t2, j) == #[trigger] survivor_stats(
                            ss1,
                            w,
                            a,
                            top_k,
                            ss2[j],
                        ) by {
                            let x = ss2[j];
                            lemma_duel_as_stats(ss2, w, a, k, j, n);
                            assert(ss2.take(n) =~= ss2);
                            lemma_stats_same(ss1, ss2, w, a, k, x, ss1);
                            lemma_stats_order(ss2, w, a, k, x, ss1, ss2);
                            lemma_tally_at(t2, ss2, w, a, top_k, j);
                        }
                        assert(t1.total_weight == t2.total_weight);
                    },
                    _ => {},
                }
            },
            _ => {},
        }
    }
}


/// Every metric switched on.
pub open spec fn all_metrics_on() -> MetricAvailability {
    MetricAvailability {
        bm25: true,
        cosine: true,
        path_match: true,
        symbol_match: true,
        import_graph: true,
        git_recency: true,
    }
}

/// The votes per query type: an identifier query gives BM25 and symbol
/// matches two votes each, a natural-language query gives embeddings two, a
/// path query gives path matches three, and every other metric has one vote.
/// With every metric on, an identifier or path query casts eight votes in
/// all and a natural-language query seven.
pub proof fn weights_by_query_type(q: QueryType)
    ensures
        q == QueryType::Identifier ==> spec_column_weights(q) == (ColumnWeights {
            bm25: 2,
            cosine: 1,
            path_match: 1,
            symbol_match: 2,
            import_graph: 1,
            git_recency: 1,
        }),
        q == QueryType::NaturalLanguage ==> spec_column_weights(q) == (ColumnWeights {
            bm25: 1,
            cosine: 2,
            path_match: 1,
            symbol_match: 1,
            import_graph: 1,
            git_recency: 1,
        }),
        q == QueryType::PathLike ==> spec_column_weights(q) == (ColumnWeights {
            bm25: 1,
            cosine: 1,
            path_match: 3,
            symbol_match: 1,
            import_graph: 1,
            git_recency: 1,
        }),
        spec_total_weight(spec_column_weights(q), all_metrics_on()) == if q == QueryType::NaturalLanguage {
            7int
        } else {
            8int
        },
{
}

} // verus!
