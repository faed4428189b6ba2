use simagef::cli::Executable;
use simagef::shared::{make_groups, make_groups_and_exec, Pairing};
use simagef::similarity::Similarity;

fn pairing(index1: usize, index2: usize) -> Pairing {
    Pairing { index1, index2, score: Similarity::from_parts(95, 100, 100).unwrap() }
}

fn as_sets(groups: Vec<Vec<usize>>) -> Vec<Vec<usize>> {
    let mut sets: Vec<Vec<usize>> = groups
        .into_iter()
        .map(|mut group| {
            group.sort();
            group
        })
        .collect();
    sets.sort();
    sets
}

#[test]
fn no_pairs_give_no_groups() {
    assert!(make_groups(Vec::new()).is_empty());
}

#[test]
fn one_pair_gives_one_group_of_two() {
    assert_eq!(as_sets(make_groups(vec![pairing(3, 7)])), vec![vec![3, 7]]);
}

#[test]
fn a_chain_is_merged_into_one_group() {
    // A-B and B-C match, A-C does not: the three still form one group.
    let scores = [((0, 1), 95), ((1, 2), 92), ((0, 2), 10)];
    let mut accepted = Vec::new();
    for ((index1, index2), dot) in scores {
        let score = Similarity::from_parts(dot, 100, 100).unwrap();
        if score.exceeds(90) {
            accepted.push(Pairing { index1, index2, score });
        }
    }
    let kept: Vec<(usize, usize)> = accepted.iter().map(|p| (p.index1, p.index2)).collect();
    assert_eq!(kept, vec![(0, 1), (1, 2)]);
    assert_eq!(as_sets(make_groups(accepted)), vec![vec![0, 1, 2]]);
}

#[test]
fn two_separate_pairs_give_two_groups() {
    let groups = as_sets(make_groups(vec![pairing(0, 1), pairing(2, 3)]));
    assert_eq!(groups, vec![vec![0, 1], vec![2, 3]]);
}

#[test]
fn groups_do_not_depend_on_pair_order() {
    let edges = [(0, 1), (4, 5), (1, 2), (7, 8), (5, 6), (8, 9), (2, 0)];
    let forward: Vec<Pairing> = edges.iter().map(|(a, b)| pairing(*a, *b)).collect();
    let backward: Vec<Pairing> = edges.iter().rev().map(|(a, b)| pairing(*a, *b)).collect();
    let rotated: Vec<Pairing> =
        edges.iter().cycle().skip(3).take(edges.len()).map(|(a, b)| pairing(*a, *b)).collect();
    let expected = vec![vec![0, 1, 2], vec![4, 5, 6], vec![7, 8, 9]];
    assert_eq!(as_sets(make_groups(forward)), expected);
    assert_eq!(as_sets(make_groups(backward)), expected);
    assert_eq!(as_sets(make_groups(rotated)), expected);
}

#[test]
fn groups_do_not_depend_on_pair_direction() {
    let one = as_sets(make_groups(vec![pairing(0, 1), pairing(1, 2)]));
    let other = as_sets(make_groups(vec![pairing(1, 0), pairing(2, 1)]));
    assert_eq!(one, other);
}

#[test]
fn a_repeated_pair_adds_nothing() {
    let groups = make_groups(vec![pairing(0, 1), pairing(0, 1), pairing(1, 0)]);
    assert_eq!(as_sets(groups), vec![vec![0, 1]]);
}

#[test]
fn a_pair_of_an_index_with_itself_is_a_group_of_one() {
    assert_eq!(as_sets(make_groups(vec![pairing(4, 4)])), vec![vec![4]]);
}

#[test]
fn each_member_is_listed_once() {
    let groups = make_groups(vec![pairing(0, 1), pairing(1, 2), pairing(2, 0), pairing(2, 3)]);
    assert_eq!(groups.len(), 1);
    assert_eq!(groups[0].len(), 4);
    assert_eq!(as_sets(groups), vec![vec![0, 1, 2, 3]]);
}

#[test]
fn a_long_chain_is_one_group() {
    let pairs: Vec<Pairing> = (0..20000).map(|i| pairing(i, i + 1)).collect();
    let groups = make_groups(pairs);
    assert_eq!(groups.len(), 1);
    assert_eq!(groups[0].len(), 20001);
}

#[test]
fn groups_start_with_the_first_index_seen() {
    let groups = make_groups(vec![pairing(5, 6), pairing(1, 2)]);
    assert_eq!(groups.len(), 2);
    assert_eq!(groups[0][0], 5);
    assert_eq!(groups[1][0], 1);
}

#[test]
fn groups_are_written_out_with_their_paths() {
    let names: Vec<String> =
        vec!["a.png".to_string(), "b.png".to_string(), "c.png".to_string(), "d.png".to_string()];
    let reports = make_groups_and_exec(&names, vec![pairing(0, 2), pairing(3, 1)], &None);
    assert_eq!(reports.len(), 2);
    assert_eq!(reports[0].members, vec![0, 2]);
    assert_eq!(reports[0].names, vec!["a.png".to_string(), "c.png".to_string()]);
    assert_eq!(reports[0].line, "a.png c.png");
    assert!(reports[0].arguments.is_none());
    assert_eq!(reports[1].members, vec![3, 1]);
    assert_eq!(reports[1].line, "d.png b.png");
}

#[test]
fn the_program_gets_its_arguments_and_then_the_paths() {
    let names: Vec<String> = vec!["a.png".to_string(), "b.png".to_string()];
    let program = Executable {
        program: "feh".to_string(),
        arguments: vec!["-F".to_string(), "--zoom".to_string()],
    };
    let reports = make_groups_and_exec(&names, vec![pairing(1, 0)], &Some(program));
    assert_eq!(reports.len(), 1);
    assert_eq!(
        reports[0].arguments,
        Some(vec![
            "-F".to_string(),
            "--zoom".to_string(),
            "b.png".to_string(),
            "a.png".to_string()
        ])
    );
}
