use ibc_tokens_path_tracer::denom::{classify, Denomination};
use ibc_tokens_path_tracer::text::{contains_str, parse_amount, starts_with_str, suffix_after_last_slash};

#[test]
fn classify_wrapped_and_direct() {
    match classify("ibc/27394FB092D2ECCD56123C74F36E4C1F926001CEADA9CA97EA622B25F41E5EB2") {
        Denomination::Wrapped { hash } => {
            assert_eq!(hash, "27394FB092D2ECCD56123C74F36E4C1F926001CEADA9CA97EA622B25F41E5EB2")
        }
        Denomination::Direct => panic!("expected a wrapped denomination"),
    }
    assert!(matches!(classify("untrn"), Denomination::Direct));
    assert!(matches!(classify("factory/neutron1abc/utoken"), Denomination::Direct));
    assert!(matches!(classify("uibcx"), Denomination::Direct));
    match classify("factory/ibcswap/utoken") {
        Denomination::Wrapped { hash } => assert_eq!(hash, "utoken"),
        Denomination::Direct => panic!("expected a wrapped denomination"),
    }
}

#[test]
fn parse_amounts() {
    assert_eq!(parse_amount("123"), Some(123));
    assert_eq!(parse_amount("0"), Some(0));
    assert_eq!(parse_amount(""), None);
    assert_eq!(parse_amount("12a"), None);
    assert_eq!(parse_amount("-5"), None);
    assert_eq!(parse_amount("340282366920938463463374607431768211455"), Some(u128::MAX));
    assert_eq!(parse_amount("340282366920938463463374607431768211456"), None);
}

#[test]
fn string_helpers() {
    assert!(contains_str("uibcx", "ibc"));
    assert!(!contains_str("ib", "ibc"));
    assert!(starts_with_str("channel-1", "channel-"));
    assert!(!starts_with_str("transfer", "channel-"));
    assert_eq!(suffix_after_last_slash("a/b/c"), "c");
    assert_eq!(suffix_after_last_slash("abc"), "abc");
    assert_eq!(suffix_after_last_slash("abc/"), "");
}
