use ibc_tokens_path_tracer::graph::{ChainEntry, ChannelLink, ConfigError, RouteGraph};
use ibc_tokens_path_tracer::route::{hop_channels_of, resolve_route};

fn chain(key: &str, name: &str, id: &str) -> ChainEntry {
    ChainEntry {
        key: key.to_string(),
        name: name.to_string(),
        chain_id: id.to_string(),
        address_prefix: key.to_string(),
        endpoint: format!("https://{}.example", key),
    }
}

fn link(from: &str, to: &str, channel: &str) -> ChannelLink {
    ChannelLink {
        from_chain_id: from.to_string(),
        to_chain_id: to.to_string(),
        channel_id: channel.to_string(),
    }
}

fn abc_graph() -> RouteGraph {
    RouteGraph::new(
        vec![chain("A", "Alpha", "A"), chain("B", "Beta", "B"), chain("C", "Gamma", "C")],
        vec![link("A", "B", "channel-25"), link("B", "C", "channel-1")],
    )
    .unwrap()
}

fn strings(v: &[&str]) -> Vec<String> {
    v.iter().map(|s| s.to_string()).collect()
}

#[test]
fn route_follows_links_from_origin() {
    let g = abc_graph();
    let r = resolve_route(&g, "transfer/channel-25/transfer/channel-1", &"C".to_string(), &"A".to_string());
    assert_eq!(r.route, strings(&["A", "B", "C"]));
    assert_eq!(r.unresolved_hops, 0);
    assert!(r.is_complete());
}

#[test]
fn empty_hop_path_gives_origin_and_current() {
    let g = abc_graph();
    let r = resolve_route(&g, "", &"C".to_string(), &"A".to_string());
    assert_eq!(r.route, strings(&["A", "C"]));
    assert!(r.is_complete());
    let r = resolve_route(&g, "transfer", &"C".to_string(), &"A".to_string());
    assert_eq!(r.route, strings(&["A", "C"]));
}

#[test]
fn empty_hop_path_on_origin_collapses() {
    let g = abc_graph();
    let r = resolve_route(&g, "", &"A".to_string(), &"A".to_string());
    assert_eq!(r.route, strings(&["A"]));
}

#[test]
fn unmatched_hop_is_reported() {
    let g = abc_graph();
    let r = resolve_route(&g, "transfer/channel-99", &"C".to_string(), &"A".to_string());
    assert!(!r.route.is_empty());
    assert_eq!(r.route[0], "A");
    assert_eq!(r.unresolved_hops, 1);
    assert!(!r.is_complete());
}

#[test]
fn partly_matched_route_keeps_resolved_hops() {
    let g = abc_graph();
    let r = resolve_route(&g, "transfer/channel-7/transfer/channel-1", &"C".to_string(), &"A".to_string());
    assert_eq!(r.route, strings(&["A", "B", "C"]));
    assert_eq!(r.unresolved_hops, 1);
}

#[test]
fn route_uses_chain_keys() {
    let g = RouteGraph::new(
        vec![chain("neutron", "Neutron", "neutron-1"), chain("cosmoshub", "Cosmos Hub", "cosmoshub-4")],
        vec![link("neutron-1", "cosmoshub-4", "channel-569")],
    )
    .unwrap();
    let r = resolve_route(&g, "transfer/channel-569", &"cosmoshub-4".to_string(), &"neutron".to_string());
    assert_eq!(r.route, strings(&["neutron", "cosmoshub"]));
}

#[test]
fn unknown_chain_id_shown_as_is() {
    let g = abc_graph();
    let r = resolve_route(&g, "", &"Z-9".to_string(), &"A".to_string());
    assert_eq!(r.route, strings(&["A", "Z-9"]));
}

#[test]
fn hop_channels_keep_channel_segments_in_order() {
    let h = hop_channels_of("transfer/channel-25/transfer/channel-1/transfer/channel-874");
    assert_eq!(h, strings(&["channel-25", "channel-1", "channel-874"]));
    assert!(hop_channels_of("").is_empty());
    assert_eq!(hop_channels_of("channel-3"), strings(&["channel-3"]));
}

#[test]
fn find_predecessor_and_chain_name() {
    let g = abc_graph();
    assert_eq!(g.find_predecessor(&"C".to_string(), &"channel-1".to_string()), Some("B".to_string()));
    assert_eq!(g.find_predecessor(&"C".to_string(), &"channel-25".to_string()), None);
    assert_eq!(g.chain_name_by_chain_id(&"B".to_string()), Some("B".to_string()));
    assert_eq!(g.chain_name_by_chain_id(&"Q".to_string()), None);
}

#[test]
fn duplicate_chain_id_refused() {
    let r = RouteGraph::new(vec![chain("a", "A", "x-1"), chain("b", "B", "y-1"), chain("c", "C", "x-1")], vec![]);
    assert!(matches!(r, Err(ConfigError::DuplicateChainId { index: 2 })));
}

#[test]
fn link_to_unknown_chain_refused() {
    let r = RouteGraph::new(
        vec![chain("A", "Alpha", "A"), chain("B", "Beta", "B")],
        vec![link("A", "B", "channel-1"), link("B", "Q", "channel-2")],
    );
    assert!(matches!(r, Err(ConfigError::UnknownChainInLink { index: 1 })));
    let r = RouteGraph::new(vec![chain("A", "Alpha", "A")], vec![link("Q", "A", "channel-3")]);
    assert!(matches!(r, Err(ConfigError::UnknownChainInLink { index: 0 })));
}
