use cities::session::Loader;
use cities::session::ReaderState;

fn run(lines: &[&str]) -> Vec<String> {
    let mut loader = Loader::new();
    let mut out: Vec<String> = Vec::new();
    for line in lines {
        if let Some(msg) = loader.process_line(line) {
            out.push(msg);
        }
    }
    out
}

#[test]
fn scenario_two_cities_one_reachable() {
    let out = run(&["London Paris\n", "Paris Berlin\n", "\n", "London Berlin\n", "London Madrid\n"]);
    assert_eq!(
        out,
        vec![
            "connection: lval: London rval: Paris".to_string(),
            "connection: lval: Paris rval: Berlin".to_string(),
            "request: lval: London rval: Berlin: connected".to_string(),
            "request: lval: London rval: Madrid: not connected".to_string(),
        ]
    );
}

#[test]
fn first_bad_line_switches_section_and_is_discarded() {
    let mut loader = Loader::new();
    assert!(loader.process_line("A B\n").is_some());
    assert!(matches!(loader.state, ReaderState::Connection));
    assert!(loader.process_line("x\n").is_none());
    assert!(matches!(loader.state, ReaderState::Request));
}

#[test]
fn bad_lines_in_request_section_are_skipped() {
    let out = run(&["A B\n", "\n", "oops\n", "A B\n", "\n", "B A\n"]);
    assert_eq!(
        out,
        vec![
            "connection: lval: A rval: B".to_string(),
            "request: lval: A rval: B: connected".to_string(),
            "request: lval: B rval: A: connected".to_string(),
        ]
    );
}

#[test]
fn queries_on_empty_store_answer_not_connected() {
    let out = run(&["\n", "Nowhere Atlantis\n"]);
    assert_eq!(out, vec!["request: lval: Nowhere rval: Atlantis: not connected".to_string()]);
}

#[test]
fn self_query_answers_follow_the_edge_policy() {
    let out = run(&["A A\n", "B C\n", "\n", "A A\n", "B B\n", "D D\n"]);
    assert_eq!(
        out,
        vec![
            "connection: lval: A rval: A".to_string(),
            "connection: lval: B rval: C".to_string(),
            "request: lval: A rval: A: connected".to_string(),
            "request: lval: B rval: B: connected".to_string(),
            "request: lval: D rval: D: not connected".to_string(),
        ]
    );
}
