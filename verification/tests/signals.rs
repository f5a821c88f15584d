use search_semantically::metrics::graph::split_neighbors;
use search_semantically::metrics::history::parse_commit_log;

#[test]
fn neighbors_split_into_seeds_and_receivers() {
    let seeds = vec![1, 2];
    let neighbors = vec![2, 3, 3, 1, 4];
    let (connected, receivers) = split_neighbors(&seeds, &neighbors);
    assert_eq!(connected, 2);
    assert_eq!(receivers, vec![3, 3, 4]);
}

#[test]
fn neighbors_without_seeds_all_receive() {
    let (connected, receivers) = split_neighbors(&vec![9], &vec![5, 6]);
    assert_eq!(connected, 0);
    assert_eq!(receivers, vec![5, 6]);
    let (connected, receivers) = split_neighbors(&vec![9], &vec![]);
    assert_eq!(connected, 0);
    assert!(receivers.is_empty());
}

#[test]
fn commit_log_groups_paths_by_commit() {
    let log = "stray.rs\nCOMMIT 1700000000\nsrc/a.rs\n\n  src/b.rs  \nCOMMIT 1600000000\r\nsrc/a.rs\r\n";
    let commits = parse_commit_log(log);
    assert_eq!(commits.len(), 2);
    assert_eq!(commits[0].stamp, "1700000000");
    assert_eq!(commits[0].paths, vec!["src/a.rs".to_string(), "src/b.rs".to_string()]);
    assert_eq!(commits[1].stamp, "1600000000");
    assert_eq!(commits[1].paths, vec!["src/a.rs".to_string()]);
}

#[test]
fn commit_log_empty_or_headerless() {
    assert!(parse_commit_log("").is_empty());
    assert!(parse_commit_log("src/a.rs\nsrc/b.rs\n").is_empty());
    let commits = parse_commit_log("COMMIT \n");
    assert_eq!(commits.len(), 1);
    assert_eq!(commits[0].stamp, "");
    assert!(commits[0].paths.is_empty());
}
