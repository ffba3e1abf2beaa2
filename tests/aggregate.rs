use ibc_tokens_path_tracer::aggregate::{process_chain_balances, AggregateError, ObservedBalance};
use ibc_tokens_path_tracer::graph::{ChainEntry, ChannelLink, RouteGraph};
use ibc_tokens_path_tracer::totals::Totals;
use ibc_tokens_path_tracer::types::{Balance, DenomTrace};

fn chain(key: &str, name: &str, id: &str) -> ChainEntry {
    ChainEntry {
        key: key.to_string(),
        name: name.to_string(),
        chain_id: id.to_string(),
        address_prefix: key.to_string(),
        endpoint: format!("https://{}.example", key),
    }
}

fn graph() -> RouteGraph {
    RouteGraph::new(
        vec![
            chain("neutron", "Neutron", "neutron-1"),
            chain("cosmoshub", "Cosmos Hub", "cosmoshub-4"),
            chain("osmosis", "Osmosis", "osmosis-1"),
        ],
        vec![
            ChannelLink {
                from_chain_id: "neutron-1".to_string(),
                to_chain_id: "cosmoshub-4".to_string(),
                channel_id: "channel-569".to_string(),
            },
            ChannelLink {
                from_chain_id: "neutron-1".to_string(),
                to_chain_id: "osmosis-1".to_string(),
                channel_id: "channel-874".to_string(),
            },
        ],
    )
    .unwrap()
}

fn direct(denom: &str, amount: &str) -> ObservedBalance {
    ObservedBalance {
        balance: Balance { denom: denom.to_string(), amount: amount.to_string() },
        trace: None,
    }
}

fn wrapped(denom: &str, amount: &str, path: &str, base: &str) -> ObservedBalance {
    ObservedBalance {
        balance: Balance { denom: denom.to_string(), amount: amount.to_string() },
        trace: Some(DenomTrace { path: path.to_string(), base_denom: base.to_string() }),
    }
}

fn allow() -> Vec<String> {
    vec!["untrn".to_string(), "uatom".to_string()]
}

fn origin() -> String {
    "neutron".to_string()
}

#[test]
fn unlisted_base_is_dropped() {
    let g = graph();
    let mut totals = Totals::new();
    let obs = vec![direct("uosmo", "5"), wrapped("ibc/AAA", "7", "transfer/channel-569", "ufoo")];
    let rep = process_chain_balances(&g.chains[1], &obs, &g, &allow(), &origin(), &mut totals).unwrap();
    assert!(rep.lines.is_empty());
    assert_eq!(rep.heading(), None);
    assert_eq!(totals.get(&"uosmo".to_string()), 0);
    assert_eq!(totals.get(&"ufoo".to_string()), 0);
    assert!(totals.entries().is_empty());
}

#[test]
fn fresh_runs_give_same_totals() {
    let g = graph();
    let obs = vec![direct("untrn", "100"), wrapped("ibc/AAA", "7", "transfer/channel-569", "untrn")];
    let mut t1 = Totals::new();
    let mut t2 = Totals::new();
    process_chain_balances(&g.chains[1], &obs, &g, &allow(), &origin(), &mut t1).unwrap();
    process_chain_balances(&g.chains[1], &obs, &g, &allow(), &origin(), &mut t2).unwrap();
    let e1: Vec<(String, u128)> = t1.entries().iter().map(|e| (e.denom.clone(), e.amount)).collect();
    let e2: Vec<(String, u128)> = t2.entries().iter().map(|e| (e.denom.clone(), e.amount)).collect();
    assert_eq!(e1, e2);
    assert_eq!(e1, vec![("untrn".to_string(), 107)]);
}

#[test]
fn same_base_on_two_chains_adds_up() {
    let g = graph();
    let mut totals = Totals::new();
    let a: u128 = 1_234_567_890_123_456_789_000;
    let b: u128 = 9_876_543_210_987_654_321_000;
    let o1 = vec![wrapped("ibc/HUBATOM", &a.to_string(), "transfer/channel-569", "uatom")];
    let o2 = vec![wrapped("ibc/OSMOATOM", &b.to_string(), "transfer/channel-874", "uatom")];
    process_chain_balances(&g.chains[1], &o1, &g, &allow(), &origin(), &mut totals).unwrap();
    process_chain_balances(&g.chains[2], &o2, &g, &allow(), &origin(), &mut totals).unwrap();
    assert_eq!(totals.get(&"uatom".to_string()), a + b);
}

#[test]
fn direct_balance_uses_chain_name() {
    let g = graph();
    let mut totals = Totals::new();
    let mut o = direct("uatom", "42");
    o.trace = Some(DenomTrace { path: "transfer/channel-569".to_string(), base_denom: "other".to_string() });
    let rep = process_chain_balances(&g.chains[1], &vec![o], &g, &allow(), &origin(), &mut totals).unwrap();
    assert_eq!(rep.chain_name, "Cosmos Hub");
    assert_eq!(rep.heading(), Some("Cosmos Hub".to_string()));
    assert_eq!(rep.lines.len(), 1);
    let l = &rep.lines[0];
    assert_eq!(l.denom, "uatom");
    assert_eq!(l.base_denom, "uatom");
    assert_eq!(l.amount, 42);
    assert_eq!(l.route, vec!["cosmos hub".to_string()]);
    assert_eq!(totals.get(&"uatom".to_string()), 42);
}

#[test]
fn wrapped_balance_line_has_route() {
    let g = graph();
    let mut totals = Totals::new();
    let obs = vec![wrapped("ibc/XYZ", "300", "transfer/channel-569", "untrn")];
    let rep = process_chain_balances(&g.chains[1], &obs, &g, &allow(), &origin(), &mut totals).unwrap();
    assert_eq!(rep.lines.len(), 1);
    let l = &rep.lines[0];
    assert_eq!(l.denom, "ibc/XYZ");
    assert_eq!(l.base_denom, "untrn");
    assert_eq!(l.amount, 300);
    assert_eq!(l.route, vec!["neutron".to_string(), "cosmoshub".to_string()]);
    assert_eq!(l.unresolved_hops, 0);
}

#[test]
fn lines_keep_balance_order() {
    let g = graph();
    let mut totals = Totals::new();
    let obs = vec![direct("uatom", "1"), direct("uosmo", "2"), direct("untrn", "3")];
    let rep = process_chain_balances(&g.chains[1], &obs, &g, &allow(), &origin(), &mut totals).unwrap();
    let denoms: Vec<&str> = rep.lines.iter().map(|l| l.denom.as_str()).collect();
    assert_eq!(denoms, vec!["uatom", "untrn"]);
}

#[test]
fn missing_trace_is_an_error() {
    let g = graph();
    let mut totals = Totals::new();
    let obs = vec![direct("untrn", "1"), direct("ibc/NOTRACE", "2")];
    let r = process_chain_balances(&g.chains[1], &obs, &g, &allow(), &origin(), &mut totals);
    assert!(matches!(r, Err(AggregateError::MissingTrace { index: 1 })));
    assert_eq!(totals.get(&"untrn".to_string()), 0);
}

#[test]
fn invalid_amount_is_an_error() {
    let g = graph();
    let mut totals = Totals::new();
    let obs = vec![direct("untrn", "12x")];
    let r = process_chain_balances(&g.chains[1], &obs, &g, &allow(), &origin(), &mut totals);
    assert!(matches!(r, Err(AggregateError::InvalidAmount { index: 0 })));
}

#[test]
fn overflow_is_an_error_and_keeps_totals() {
    let g = graph();
    let mut totals = Totals::new();
    let max = u128::MAX.to_string();
    process_chain_balances(&g.chains[1], &vec![direct("untrn", &max)], &g, &allow(), &origin(), &mut totals).unwrap();
    let obs = vec![direct("uatom", "5"), direct("untrn", "1")];
    let r = process_chain_balances(&g.chains[1], &obs, &g, &allow(), &origin(), &mut totals);
    assert!(matches!(r, Err(AggregateError::Overflow { index: 1 })));
    assert_eq!(totals.get(&"untrn".to_string()), u128::MAX);
    assert_eq!(totals.get(&"uatom".to_string()), 0);
}

#[test]
fn checked_add_refuses_overflow() {
    let mut t = Totals::new();
    assert!(t.checked_add(&"x".to_string(), u128::MAX - 1));
    assert!(t.checked_add(&"x".to_string(), 1));
    assert!(!t.checked_add(&"x".to_string(), 1));
    assert_eq!(t.get(&"x".to_string()), u128::MAX);
    let d = t.duplicate();
    assert_eq!(d.get(&"x".to_string()), u128::MAX);
}

#[test]
fn plain_name_with_marker_text_is_direct() {
    let g = graph();
    let mut totals = Totals::new();
    let allow = vec!["uibcx".to_string()];
    let rep = process_chain_balances(&g.chains[2], &vec![direct("uibcx", "1")], &g, &allow, &origin(), &mut totals).unwrap();
    assert_eq!(rep.lines.len(), 1);
    assert_eq!(rep.lines[0].base_denom, "uibcx");
    assert_eq!(rep.lines[0].route, vec!["osmosis".to_string()]);
    assert_eq!(totals.get(&"uibcx".to_string()), 1);
}
