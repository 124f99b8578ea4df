use bridge_cherry::address::MultiChainAddrHash;
use bridge_cherry::error::BridgeContractError;

const SUBSTRATE: &str = "5GrwvaEF5zXb26Fz9rcQpDWS57CtERHpNehXCPcNoHGKutQY";
const ETHEREUM: &str = "0x742d35Cc6634C0532925a3b844Bc454e4438f44e";

#[test]
fn digest_is_blake2b_256() {
    let a = MultiChainAddrHash::from(SUBSTRATE.to_string()).unwrap();
    assert_eq!(
        a.to_string_digest(),
        "253e6ce5c651a259a9c9c69cb67325a3bc8719fd82ebbdc4eff79cf35de288d6"
    );
    let e = MultiChainAddrHash::from(ETHEREUM.to_string()).unwrap();
    assert_eq!(
        e.to_string_digest(),
        "9c91ca5bf8b2b6b3d5c6266bbd9301dce06ccf47548e7bf7e1694498532c35bb"
    );
}

#[test]
fn written_text_is_kept() {
    let a = MultiChainAddrHash::from(ETHEREUM.to_string()).unwrap();
    assert_eq!(a.to_string(), ETHEREUM);
}

#[test]
fn same_text_same_identity() {
    let a = MultiChainAddrHash::from(SUBSTRATE.to_string()).unwrap();
    let b = MultiChainAddrHash::from(SUBSTRATE.to_string()).unwrap();
    let c = MultiChainAddrHash::from(ETHEREUM.to_string()).unwrap();
    let lower = MultiChainAddrHash::from(ETHEREUM.to_lowercase()).unwrap();
    assert!(a.same_identity(&b));
    assert!(!a.same_identity(&c));
    assert!(!c.same_identity(&lower));
    assert!(a == b);
    assert!(a != c);
}

#[test]
fn address_length_bounds() {
    assert_eq!(
        MultiChainAddrHash::from("short".to_string()).unwrap_err(),
        BridgeContractError::InvalidAddressFormat
    );
    assert_eq!(
        MultiChainAddrHash::from("x".repeat(129)).unwrap_err(),
        BridgeContractError::InvalidAddressFormat
    );
    assert!(MultiChainAddrHash::from("x".repeat(20)).is_ok());
    assert!(MultiChainAddrHash::from("x".repeat(128)).is_ok());
    assert_eq!(
        MultiChainAddrHash::from("x".repeat(19)).unwrap_err(),
        BridgeContractError::InvalidAddressFormat
    );
}

#[test]
fn identity_from_bytes() {
    let a = MultiChainAddrHash::from_bytes(SUBSTRATE.as_bytes()).unwrap();
    let b = MultiChainAddrHash::from(SUBSTRATE.to_string()).unwrap();
    assert!(a.same_identity(&b));
    assert_eq!(a.to_string(), SUBSTRATE);
    let mut bad = vec![0xffu8; 32];
    bad[0] = b'a';
    assert_eq!(
        MultiChainAddrHash::from_bytes(&bad).unwrap_err(),
        BridgeContractError::InvalidEncoding
    );
    assert_eq!(
        MultiChainAddrHash::from_bytes(b"tiny").unwrap_err(),
        BridgeContractError::InvalidAddressFormat
    );
}
