use proxy_solver_api::health::health_ready;
use proxy_solver_api::member::{Member, MemberInfo};
use proxy_solver_api::problem::{solve, ProxyProblem};
use proxy_solver_api::solution::{ProxySolution, LOTTERY_SEED};

fn info(id: &str, preferences: &[&str]) -> MemberInfo {
    MemberInfo {
        id: id.to_string(),
        preferences: preferences.iter().map(|p| p.to_string()).collect(),
    }
}

fn problem(capacity: usize, members: Vec<MemberInfo>, present: &[&str]) -> ProxyProblem {
    ProxyProblem {
        capacity,
        members,
        members_present: present.iter().map(|p| p.to_string()).collect(),
    }
}

fn nunn_reich_whitney(present: &[&str]) -> ProxyProblem {
    problem(
        2,
        vec![
            info("nunn", &["reich", "whitney"]),
            info("reich", &[]),
            info("whitney", &[]),
        ],
        present,
    )
}

fn represented(solution: &ProxySolution) -> Vec<(String, String)> {
    solution
        .members_represented
        .iter()
        .map(|(a, p)| (a.clone(), p.clone()))
        .collect()
}

fn unrepresented(solution: &ProxySolution) -> Vec<String> {
    solution.members_unrepresented.iter().cloned().collect()
}

fn quoted(items: Vec<String>) -> String {
    items
        .iter()
        .map(|s| format!("\"{}\"", s))
        .collect::<Vec<_>>()
        .join(",")
}

fn json_of(solution: &ProxySolution, represented_key: &str, unrepresented_key: &str) -> String {
    let pairs: Vec<String> = represented(solution)
        .iter()
        .map(|(a, p)| format!("\"{}\":\"{}\"", a, p))
        .collect();
    format!(
        "{{\"{}\":{{{}}},\"{}\":[{}]}}",
        represented_key,
        pairs.join(","),
        unrepresented_key,
        quoted(unrepresented(solution))
    )
}

fn pair(a: &str, p: &str) -> (String, String) {
    (a.to_string(), p.to_string())
}

fn strings(items: &[&str]) -> Vec<String> {
    items.iter().map(|s| s.to_string()).collect()
}

#[test]
fn test_health_ready() {
    assert_eq!(health_ready(), 204);
}

#[test]
fn main_test_health_ready() {
    assert_eq!(health_ready(), 204);
}

#[test]
fn test_first_choice_available() {
    let solution = solve(&nunn_reich_whitney(&["reich", "whitney"]));
    assert_eq!(
        json_of(&solution, "represented", "unrepresented"),
        r#"{"represented":{"nunn":"reich"},"unrepresented":[]}"#
    );
}

#[test]
fn test_second_choice_available() {
    let solution = solve(&nunn_reich_whitney(&["whitney"]));
    assert_eq!(
        json_of(&solution, "represented", "unrepresented"),
        r#"{"represented":{"nunn":"whitney"},"unrepresented":["reich"]}"#
    );
}

#[test]
fn main_test_first_choice_available() {
    let solution = solve(&nunn_reich_whitney(&["reich", "whitney"]));
    assert_eq!(
        json_of(&solution, "members_represented", "members_unrepresented"),
        r#"{"members_represented":{"nunn":"reich"},"members_unrepresented":[]}"#
    );
}

#[test]
fn main_test_second_choice_available() {
    let solution = solve(&nunn_reich_whitney(&["whitney"]));
    assert_eq!(
        json_of(&solution, "members_represented", "members_unrepresented"),
        r#"{"members_represented":{"nunn":"whitney"},"members_unrepresented":["reich"]}"#
    );
}

#[test]
fn no_host_available_leaves_member_unrepresented() {
    let solution = solve(&problem(2, vec![info("nunn", &["reich"])], &[]));
    assert!(represented(&solution).is_empty());
    assert_eq!(unrepresented(&solution), strings(&["nunn"]));
}

#[test]
fn capacity_saturation_places_exactly_one() {
    let p = problem(
        1,
        vec![info("a", &["host1"]), info("b", &["host1"]), info("host1", &[])],
        &["host1"],
    );
    let first = solve(&p);
    let rep = represented(&first);
    let unrep = unrepresented(&first);
    assert_eq!(rep.len(), 1);
    assert_eq!(rep[0].1, "host1");
    assert_eq!(unrep.len(), 1);
    assert_ne!(rep[0].0, unrep[0]);
    assert!(rep[0].0 == "a" || rep[0].0 == "b");
    assert!(unrep[0] == "a" || unrep[0] == "b");
    for _ in 0..5 {
        let again = solve(&p);
        assert_eq!(represented(&again), rep);
        assert_eq!(unrepresented(&again), unrep);
    }
}

#[test]
fn solving_twice_gives_identical_results() {
    let p = problem(
        2,
        vec![
            info("e", &["x", "y"]),
            info("d", &["x"]),
            info("c", &["x", "y"]),
            info("b", &["y", "x"]),
            info("a", &["x"]),
            info("x", &[]),
            info("y", &[]),
        ],
        &["x", "y"],
    );
    let first = solve(&p);
    let second = solve(&p);
    assert_eq!(represented(&first), represented(&second));
    assert_eq!(unrepresented(&first), unrepresented(&second));
}

#[test]
fn results_are_sorted_by_id() {
    let p = problem(
        3,
        vec![
            info("zed", &["host"]),
            info("amy", &["host"]),
            info("mia", &["host"]),
            info("bob", &[]),
            info("yan", &[]),
            info("host", &[]),
        ],
        &["host"],
    );
    let solution = solve(&p);
    assert_eq!(
        represented(&solution),
        vec![pair("amy", "host"), pair("mia", "host"), pair("zed", "host")]
    );
    assert_eq!(unrepresented(&solution), strings(&["bob", "yan"]));
}

#[test]
fn capacity_is_respected_and_everyone_accounted_for() {
    let mut members = Vec::new();
    let names = ["m0", "m1", "m2", "m3", "m4", "m5", "m6", "m7", "m8", "m9"];
    for (i, name) in names.iter().enumerate() {
        if i % 2 == 0 {
            members.push(info(name, &["p", "q"]));
        } else {
            members.push(info(name, &["q", "p"]));
        }
    }
    members.push(info("p", &[]));
    members.push(info("q", &[]));
    let p = problem(2, members, &["p", "q"]);
    let solution = solve(&p);
    let rep = represented(&solution);
    let unrep = unrepresented(&solution);
    assert_eq!(rep.iter().filter(|(_, h)| h == "p").count(), 2);
    assert_eq!(rep.iter().filter(|(_, h)| h == "q").count(), 2);
    assert_eq!(rep.len() + unrep.len(), 10);
    for name in names.iter() {
        let in_rep = rep.iter().any(|(a, _)| a == name);
        let in_unrep = unrep.iter().any(|a| a == name);
        assert!(in_rep != in_unrep);
    }
}

#[test]
fn zero_capacity_represents_nobody() {
    let p = problem(
        0,
        vec![info("a", &["h"]), info("b", &["h"]), info("h", &[])],
        &["h"],
    );
    let solution = solve(&p);
    assert!(represented(&solution).is_empty());
    assert_eq!(unrepresented(&solution), strings(&["a", "b"]));
}

#[test]
fn empty_problem_has_empty_solution() {
    let solution = solve(&problem(2, vec![], &[]));
    assert!(represented(&solution).is_empty());
    assert!(unrepresented(&solution).is_empty());
}

#[test]
fn member_never_gets_an_unlisted_host() {
    let p = problem(
        5,
        vec![info("a", &["h1"]), info("b", &[]), info("h1", &[]), info("h2", &[])],
        &["h1", "h2"],
    );
    let solution = solve(&p);
    assert_eq!(represented(&solution), vec![pair("a", "h1")]);
    assert_eq!(unrepresented(&solution), strings(&["b"]));
}

#[test]
fn other_seeds_also_give_valid_solutions() {
    let p = problem(
        1,
        vec![info("a", &["h"]), info("b", &["h"]), info("c", &["h"]), info("h", &[])],
        &["h"],
    );
    for seed in [LOTTERY_SEED, 1, 7, 42] {
        let mut solution = ProxySolution::from_problem(&p);
        solution.solve_seeded(seed);
        assert_eq!(represented(&solution).len(), 1);
        assert_eq!(unrepresented(&solution).len(), 2);
    }
}

#[test]
fn from_info_filters_preferences_and_builds_exclusion() {
    let mut present = indexmap::IndexSet::new();
    present.insert("h1".to_string());
    present.insert("h2".to_string());
    present.insert("h3".to_string());
    let member = Member::from_info(&info("a", &["h2", "ghost", "h2", "h1"]), &present);
    assert_eq!(member.id, "a");
    assert_eq!(member.preferences, strings(&["h2", "h1"]));
    assert_eq!(member.exclusion, strings(&["h3"]));
}

#[test]
fn from_info_with_no_preferences_excludes_every_host() {
    let mut present = indexmap::IndexSet::new();
    present.insert("h1".to_string());
    present.insert("h2".to_string());
    let member = Member::from_info(&info("a", &[]), &present);
    assert!(member.preferences.is_empty());
    assert_eq!(member.exclusion, strings(&["h1", "h2"]));
}

#[test]
fn loading_skips_present_members_and_merges_repeated_ids() {
    let p = problem(
        2,
        vec![
            info("b", &["h"]),
            info("h", &[]),
            info("a", &[]),
            info("b", &["k", "h"]),
        ],
        &["h", "k", "h"],
    );
    let solution = ProxySolution::from_problem(&p);
    let hosts: Vec<String> = solution.members_present.iter().cloned().collect();
    assert_eq!(hosts, strings(&["h", "k"]));
    assert_eq!(solution.members_absent.len(), 2);
    assert_eq!(solution.members_absent[0].id, "b");
    assert_eq!(solution.members_absent[0].preferences, strings(&["k", "h"]));
    assert_eq!(solution.members_absent[1].id, "a");
    assert_eq!(unrepresented(&solution), strings(&["b", "a"]));
    assert!(represented(&solution).is_empty());
}

#[test]
fn assign_takes_only_admissible_placements() {
    let p = problem(
        1,
        vec![
            info("c", &["h1", "h2"]),
            info("a", &["h1"]),
            info("b", &["h2"]),
            info("d", &["h2"]),
            info("h1", &[]),
            info("h2", &[]),
        ],
        &["h1", "h2"],
    );
    let mut solution = ProxySolution::from_problem(&p);
    let placement = vec![
        // "b" does not list h1, "stranger" is no absent member, "c" fits.
        strings(&["b", "stranger", "c", "a"]),
        // "c" already has a host, then "d" fills h2 and "b" finds it full.
        strings(&["c", "d", "b"]),
    ];
    solution.assign(&placement);
    assert_eq!(represented(&solution), vec![pair("c", "h1"), pair("d", "h2")]);
    assert_eq!(unrepresented(&solution), strings(&["a", "b"]));
}

#[test]
fn assign_with_short_placement_leaves_the_rest_unrepresented() {
    let p = problem(
        2,
        vec![info("a", &["h1"]), info("b", &["h2"]), info("h1", &[]), info("h2", &[])],
        &["h1", "h2"],
    );
    let mut solution = ProxySolution::from_problem(&p);
    solution.assign(&vec![strings(&["a"])]);
    assert_eq!(represented(&solution), vec![pair("a", "h1")]);
    assert_eq!(unrepresented(&solution), strings(&["b"]));
}

#[test]
fn problem_metrics_count_before_solving() {
    let p = nunn_reich_whitney(&["whitney"]);
    let m = p.metrics();
    assert_eq!(m.capacity, 2);
    assert_eq!(m.total, 3);
    assert_eq!(m.present, 1);
    assert_eq!(m.absent, 2);
    assert_eq!(m.represented, 0);
    assert_eq!(m.unrepresented, 0);
}

#[test]
fn solution_metrics_count_current_state() {
    let p = nunn_reich_whitney(&["whitney"]);
    let mut solution = ProxySolution::from_problem(&p);
    let before = solution.metrics();
    assert_eq!(before.total, 3);
    assert_eq!(before.present, 1);
    assert_eq!(before.absent, 2);
    assert_eq!(before.represented, 0);
    assert_eq!(before.unrepresented, 2);
    solution.solve();
    let after = solution.metrics();
    assert_eq!(after.capacity, 2);
    assert_eq!(after.represented, 1);
    assert_eq!(after.unrepresented, 1);
}

#[test]
fn new_solution_is_empty() {
    let solution = ProxySolution::new(4);
    assert_eq!(solution.capacity, 4);
    assert!(solution.members_present.is_empty());
    assert!(solution.members_absent.is_empty());
    assert!(solution.members_represented.is_empty());
    assert!(solution.members_unrepresented.is_empty());
}

#[test]
fn problem_metrics_count_members_not_present() {
    let p = problem(2, vec![info("a", &["x"]), info("b", &[])], &["x"]);
    let m = p.metrics();
    assert_eq!(m.total, 2);
    assert_eq!(m.present, 1);
    assert_eq!(m.absent, 2);
    let repeated = problem(2, vec![info("a", &[]), info("h", &[])], &["h", "h", "k"]);
    assert_eq!(repeated.metrics().absent, 1);
}

#[test]
fn absent_members_are_keyed_by_id() {
    let p = problem(1, vec![info("b", &["h"]), info("a", &["h"]), info("h", &[])], &["h"]);
    let solution = ProxySolution::from_problem(&p);
    let keys: Vec<String> = solution.members_absent.keys().cloned().collect();
    assert_eq!(keys, strings(&["b", "a"]));
    assert_eq!(solution.members_absent["a"].preferences, strings(&["h"]));
    assert_eq!(solution.absent_count(), 2);
}
