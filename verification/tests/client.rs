use witnos::client::{choose_goal, flag_value, lay_origin, oracle_outcome, split_ids, Ctx, Endpoint, MarkerRead};
use witnos::marker::{ArmedMarker, GoalRef};
use witnos::types::Origin;

fn args(v: &[&str]) -> Vec<String> {
    v.iter().map(|s| s.to_string()).collect()
}

fn gref(id: &str) -> GoalRef {
    GoalRef { goal_id: id.to_string(), contract_version: 1, agent_synced_version: 0 }
}

#[test]
fn flags_read_the_argument_after_them() {
    let a = args(&["--since", "4", "--to", "7", "--to"]);
    assert_eq!(flag_value(&a, "--since"), Some("4"));
    assert_eq!(flag_value(&a, "--to"), Some("7"));
    assert_eq!(flag_value(&a, "--goal"), None);
    assert_eq!(flag_value(&args(&["--to"]), "--to"), None);
    assert_eq!(oracle_outcome(&args(&["i", "--passed"])), Ok(true));
    assert_eq!(oracle_outcome(&args(&["i", "--failed"])), Ok(false));
    assert!(oracle_outcome(&args(&["i", "--passed", "--failed"])).is_err());
    assert!(oracle_outcome(&args(&["i"])).is_err());
    assert!(matches!(lay_origin(&args(&["--blindspot"])), Origin::AgentBlindspot));
    assert!(matches!(lay_origin(&args(&[])), Origin::AgentInitial));
    assert_eq!(split_ids(" a, b ,c"), vec!["a", "b", "c"]);
    assert_eq!(split_ids(""), vec![""]);
    assert_eq!(split_ids("a,,b"), vec!["a", "", "b"]);
}

#[test]
fn a_command_acts_on_exactly_one_goal() {
    let one = ArmedMarker { v: 2, auto: true, default_goal: None, sessions: vec![("s".into(), gref("g1"))] };
    assert_eq!(choose_goal(None, MarkerRead::Read(&one), "/p/.witnos/armed.json"), Ok("g1".to_string()));
    assert_eq!(choose_goal(Some("gX"), MarkerRead::Missing, "x"), Ok("gX".to_string()));
    let two = ArmedMarker {
        v: 2,
        auto: true,
        default_goal: Some(gref("g1")),
        sessions: vec![("s".into(), gref("g2")), ("t".into(), gref("g1"))],
    };
    assert_eq!(
        choose_goal(None, MarkerRead::Read(&two), "x"),
        Err("multiple goals are active in this project (g1, g2); pass --goal <id> — yours is in your [witnos] protocol message".to_string())
    );
    let none = ArmedMarker { v: 2, auto: true, default_goal: None, sessions: vec![] };
    assert!(choose_goal(None, MarkerRead::Read(&none), "x").unwrap_err().starts_with("no goal is bound"));
    assert_eq!(
        choose_goal(None, MarkerRead::Unreadable, "/p/.witnos/armed.json"),
        Err("armed marker at /p/.witnos/armed.json is unreadable".to_string())
    );
    assert!(choose_goal(None, MarkerRead::Missing, "x").unwrap_err().contains("not being watched"));
}

#[test]
fn requests_go_to_the_local_core_with_the_token() {
    let c = Ctx { root: "/p".into(), goal_id: "g".into(), ep: Endpoint { port: 4321, token: "tok".into() } };
    assert_eq!(c.url("/gate"), "http://127.0.0.1:4321/gate");
    assert_eq!(c.bearer(), "Bearer tok");
}
