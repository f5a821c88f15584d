use search_semantically::query_classifier::QueryType;
use search_semantically::ranker::{
    column_weights, get_weight, poem_plan, prune_top_k, MetricAvailability, MetricKeys, PoemPlan,
};

fn keys(b: u64, c: u64, p: u64, s: u64, i: u64, g: u64) -> MetricKeys {
    MetricKeys { bm25: b, cosine: c, path_match: p, symbol_match: s, import_graph: i, git_recency: g }
}

#[test]
fn weights_follow_query_type() {
    let w = column_weights(&QueryType::PathLike);
    assert_eq!(get_weight(&w, "path_match"), 3);
    assert_eq!(get_weight(&w, "bm25"), 1);
    assert_eq!(get_weight(&w, "unknown"), 0);
    let w = column_weights(&QueryType::Identifier);
    assert_eq!(get_weight(&w, "symbol_match"), 2);
    let w = column_weights(&QueryType::NaturalLanguage);
    assert_eq!(get_weight(&w, "cosine"), 2);
}

#[test]
fn availability_by_name() {
    let mut a = MetricAvailability::all_active();
    assert!(a.is_active("git_recency"));
    assert!(!a.is_active("nope"));
    a.cosine = false;
    assert!(!a.is_active("cosine"));
}

#[test]
fn plan_of_no_candidates_is_empty() {
    let plan = poem_plan(&vec![], &QueryType::Identifier, 1000, &MetricAvailability::all_active());
    assert!(matches!(plan, PoemPlan::Empty));
}

#[test]
fn plan_of_one_candidate_is_single() {
    let plan = poem_plan(&vec![(4, keys(1, 1, 1, 1, 1, 1))], &QueryType::Identifier, 1000, &MetricAvailability::all_active());
    assert!(matches!(plan, PoemPlan::Single(4)));
}

#[test]
fn all_inactive_orders_by_id() {
    let off = MetricAvailability {
        bm25: false,
        cosine: false,
        path_match: false,
        symbol_match: false,
        import_graph: false,
        git_recency: false,
    };
    let cands = vec![(9, keys(1, 1, 1, 1, 1, 1)), (2, keys(5, 5, 5, 5, 5, 5)), (5, keys(3, 3, 3, 3, 3, 3))];
    match poem_plan(&cands, &QueryType::Identifier, 1000, &off) {
        PoemPlan::ById(ids) => assert_eq!(ids, vec![2, 5, 9]),
        _ => panic!("expected an order by id"),
    }
}

#[test]
fn dominant_candidate_wins_every_duel() {
    let cands = vec![(1, keys(9, 9, 9, 9, 5, 5)), (2, keys(1, 1, 1, 1, 5, 5))];
    match poem_plan(&cands, &QueryType::NaturalLanguage, 1000, &MetricAvailability::all_active()) {
        PoemPlan::Tally(t) => {
            assert_eq!(t.ids, vec![1, 2]);
            assert_eq!(t.total_weight, 7);
            assert_eq!(t.vote_sums, vec![7, 0]);
            assert_eq!(t.dominating, vec![1, 0]);
            assert_eq!(t.submitting, vec![0, 1]);
        }
        _ => panic!("expected a tournament"),
    }
}

#[test]
fn masked_metric_casts_no_votes() {
    let mut a = MetricAvailability::all_active();
    a.cosine = false;
    let cands = vec![(1, keys(1, 9, 1, 1, 1, 1)), (2, keys(1, 1, 1, 1, 1, 1))];
    match poem_plan(&cands, &QueryType::NaturalLanguage, 1000, &a) {
        PoemPlan::Tally(t) => {
            assert_eq!(t.total_weight, 5);
            assert_eq!(t.vote_sums, vec![5, 0]);
        }
        _ => panic!("expected a tournament"),
    }
}

#[test]
fn pruning_keeps_leaders_of_each_metric() {
    let cands = vec![
        (1, keys(9, 0, 0, 0, 0, 0)),
        (2, keys(0, 9, 0, 0, 0, 0)),
        (3, keys(0, 0, 0, 0, 0, 0)),
        (4, keys(0, 0, 0, 0, 0, 0)),
    ];
    let kept = prune_top_k(&cands, 1, &MetricAvailability::all_active());
    let ids: Vec<i64> = kept.iter().map(|c| c.0).collect();
    assert_eq!(ids, vec![1, 2]);
}

#[test]
fn pruning_is_a_no_op_under_the_limit() {
    let cands = vec![(3, keys(0, 0, 0, 0, 0, 0)), (1, keys(1, 0, 0, 0, 0, 0))];
    let kept = prune_top_k(&cands, 5, &MetricAvailability::all_active());
    assert_eq!(kept, cands);
}

#[test]
fn plan_does_not_depend_on_candidate_order() {
    let a = MetricAvailability::all_active();
    let c1 = (1, keys(9, 2, 5, 1, 3, 4));
    let c2 = (2, keys(1, 8, 5, 6, 3, 2));
    let c3 = (3, keys(4, 4, 9, 2, 7, 1));
    let forward = poem_plan(&vec![c1, c2, c3], &QueryType::NaturalLanguage, 1000, &a);
    let backward = poem_plan(&vec![c3, c1, c2], &QueryType::NaturalLanguage, 1000, &a);
    match (forward, backward) {
        (PoemPlan::Tally(f), PoemPlan::Tally(b)) => {
            assert_eq!(f.total_weight, b.total_weight);
            for (i, id) in f.ids.iter().enumerate() {
                let j = b.ids.iter().position(|x| x == id).expect("same survivors");
                assert_eq!(f.vote_sums[i], b.vote_sums[j]);
                assert_eq!(f.dominating[i], b.dominating[j]);
                assert_eq!(f.submitting[i], b.submitting[j]);
            }
            assert_eq!(f.ids.len(), b.ids.len());
        }
        _ => panic!("expected tournaments"),
    }
}

#[test]
fn plan_ranks_each_survivor_once() {
    let cands = vec![(5, keys(1, 2, 3, 4, 5, 6)), (6, keys(6, 5, 4, 3, 2, 1)), (7, keys(3, 3, 3, 3, 3, 3))];
    match poem_plan(&cands, &QueryType::Identifier, 1, &MetricAvailability::all_active()) {
        PoemPlan::Tally(t) => {
            let mut ids = t.ids.clone();
            ids.sort();
            assert_eq!(ids, vec![5, 6]);
        }
        _ => panic!("expected a tournament"),
    }
}
