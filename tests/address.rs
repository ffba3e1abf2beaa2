use ibc_tokens_path_tracer::address::{chain_address, AddressError};

fn s(x: &str) -> String {
    x.to_string()
}

#[test]
fn source_chain_keeps_address() {
    let r = chain_address(&s("neutron1notchecked"), &s("neutron"), &s("neutron"), &s(""));
    assert_eq!(r, Ok(s("neutron1notchecked")));
}

#[test]
fn derived_address_changes_prefix_and_round_trips() {
    let juno = s("juno14wd9r77c2rlau7r8lta6mh8nqsvqq00rxha3fl");
    let osmo = chain_address(&juno, &s("juno"), &s("osmo"), &s("")).unwrap();
    assert!(osmo.starts_with("osmo1"));
    assert_ne!(osmo, juno);
    let back = chain_address(&osmo, &s("osmo"), &s("juno"), &s("")).unwrap();
    assert_eq!(back, juno);
}

#[test]
fn entered_address_takes_precedence() {
    let juno = s("juno14wd9r77c2rlau7r8lta6mh8nqsvqq00rxha3fl");
    let other = s("juno1e7faq9nlpms0hfddd8vqqgval478shukpj8c50");
    let a = chain_address(&juno, &s("juno"), &s("osmo"), &other).unwrap();
    let b = chain_address(&other, &s("juno"), &s("osmo"), &s("")).unwrap();
    assert_eq!(a, b);
}

#[test]
fn invalid_address_is_an_error() {
    let r = chain_address(&s("not-an-address"), &s("neutron"), &s("osmo"), &s(""));
    assert_eq!(r, Err(AddressError::InvalidAddress));
}
