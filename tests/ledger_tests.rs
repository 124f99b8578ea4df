use bridge_cherry::address::MultiChainAddrHash;
use bridge_cherry::bridge::{Bridge, BridgeEvent};
use bridge_cherry::error::BridgeContractError;
use bridge_cherry::u256::U256;

const DEPLOYER: &str = "5GrwvaEF5zXb26Fz9rcQpDWS57CtERHpNehXCPcNoHGKutQY";
const RECEIVER: &str = "0x742d35Cc6634C0532925a3b844Bc454e4438f44e";
const OTHER: &str = "cosmos1qypqxpq9qcrsszg2pvxq6rs0zqg3yyc5lzv7xu";

fn id(s: &str) -> MultiChainAddrHash {
    MultiChainAddrHash::from(s.to_string()).unwrap()
}

fn dec(s: &str) -> U256 {
    U256::from_decimal(s.to_string()).unwrap()
}

fn balance(b: &Bridge, s: &str) -> String {
    b.get_balance_of(s.to_string()).unwrap().to_decimal()
}

#[test]
fn initialize_transfer_and_admin_scenario() {
    let mut b = Bridge::new(dec("1000"), id(DEPLOYER));
    assert_eq!(balance(&b, DEPLOYER), "1000");
    assert_eq!(balance(&b, RECEIVER), "0");
    assert!(b.transfer_from_to(&id(DEPLOYER), &id(RECEIVER), dec("300")).is_ok());
    assert_eq!(balance(&b, DEPLOYER), "700");
    assert_eq!(balance(&b, RECEIVER), "300");
    assert_eq!(
        b.transfer_from_to(&id(DEPLOYER), &id(RECEIVER), dec("800")).unwrap_err(),
        BridgeContractError::InsufficientFunds
    );
    assert_eq!(balance(&b, DEPLOYER), "700");
    assert_eq!(balance(&b, RECEIVER), "300");
    assert_eq!(
        b.set_total_supply(&id(RECEIVER), true, dec("2000")).unwrap_err(),
        BridgeContractError::Unauthorized
    );
    assert_eq!(b.total_supply().to_decimal(), "1000");
}

#[test]
fn initialize_records_initiate() {
    let b = Bridge::new(dec("1000"), id(DEPLOYER));
    assert_eq!(b.events().len(), 1);
    match &b.events()[0] {
        BridgeEvent::Initiate(i) => {
            assert!(i.initiated);
            assert_eq!(i.by, DEPLOYER);
            assert_eq!(i.initial_balance, "1000");
        }
        _ => panic!("expected an Initiate record"),
    }
}

#[test]
fn transfer_keeps_supply_and_records() {
    let mut b = Bridge::new(dec("1000"), id(DEPLOYER));
    b.take_events();
    b.transfer_from_to(&id(DEPLOYER), &id(OTHER), dec("1000")).unwrap();
    assert_eq!(balance(&b, DEPLOYER), "0");
    assert_eq!(balance(&b, OTHER), "1000");
    assert_eq!(b.total_supply().to_decimal(), "1000");
    let events = b.take_events();
    assert_eq!(events.len(), 1);
    match &events[0] {
        BridgeEvent::Transfer(t) => {
            assert_eq!(t.from.as_deref(), Some(DEPLOYER));
            assert_eq!(t.to.as_deref(), Some(OTHER));
            assert_eq!(t.value_decimal, "1000");
            assert_eq!(
                t.value_hex,
                "00000000000000000000000000000000000000000000000000000000000003e8"
            );
        }
        _ => panic!("expected a Transfer record"),
    }
    assert!(b.events().is_empty());
}

#[test]
fn transfer_to_self_keeps_balance() {
    let mut b = Bridge::new(dec("1000"), id(DEPLOYER));
    b.transfer_from_to(&id(DEPLOYER), &id(DEPLOYER), dec("400")).unwrap();
    assert_eq!(balance(&b, DEPLOYER), "1000");
}

#[test]
fn owner_sets_total_supply() {
    let mut b = Bridge::new(dec("1000"), id(DEPLOYER));
    assert_eq!(
        b.set_total_supply(&id(DEPLOYER), false, dec("2000")).unwrap_err(),
        BridgeContractError::Unauthorized
    );
    b.set_total_supply(&id(DEPLOYER), true, dec("2000")).unwrap();
    assert_eq!(b.total_supply().to_decimal(), "2000");
    assert_eq!(balance(&b, DEPLOYER), "1000");
}

#[test]
fn approve_overwrites() {
    let mut b = Bridge::new(dec("1000"), id(DEPLOYER));
    b.approve(&id(DEPLOYER), id(RECEIVER), dec("50"));
    let a = b.get_allowance_of(DEPLOYER.to_string(), RECEIVER.to_string()).unwrap();
    assert_eq!(a.to_decimal(), "50");
    b.approve(&id(DEPLOYER), id(RECEIVER), dec("20"));
    let a = b.get_allowance_of(DEPLOYER.to_string(), RECEIVER.to_string()).unwrap();
    assert_eq!(a.to_decimal(), "20");
    let reverse = b.get_allowance_of(RECEIVER.to_string(), DEPLOYER.to_string()).unwrap();
    assert_eq!(reverse.to_decimal(), "0");
    assert_eq!(
        b.get_allowance_of("bad".to_string(), RECEIVER.to_string()).unwrap_err(),
        BridgeContractError::InvalidAddressFormat
    );
    match b.events().last().unwrap() {
        BridgeEvent::Approval(a) => {
            assert_eq!(a.owner, DEPLOYER);
            assert_eq!(a.spender, RECEIVER);
            assert_eq!(a.value_decimal, "20");
        }
        _ => panic!("expected an Approval record"),
    }
}

#[test]
fn balance_of_invalid_address() {
    let b = Bridge::new(dec("1000"), id(DEPLOYER));
    assert_eq!(
        b.get_balance_of("tiny".to_string()).unwrap_err(),
        BridgeContractError::InvalidAddressFormat
    );
}

#[test]
fn bridge_string_records_with_and_without_text() {
    let mut b = Bridge::new(dec("1000"), id(DEPLOYER));
    b.take_events();
    b.bridge_string(
        DEPLOYER.to_string(),
        "100".to_string(),
        RECEIVER.to_string(),
        "5".to_string(),
        true,
    )
    .unwrap();
    let events = b.take_events();
    assert_eq!(events.len(), 3);
    assert!(matches!(events[0], BridgeEvent::Transfer(_)));
    match &events[1] {
        BridgeEvent::BridgeInComplex(c) => {
            assert_eq!(c.token_amount.to_decimal(), "100");
            assert_eq!(c.from_chain.unwrap().to_decimal(), "5");
            assert_eq!(c.recipient.to_string(), RECEIVER);
        }
        _ => panic!("expected a BridgeInComplex record"),
    }
    match &events[2] {
        BridgeEvent::BridgeInSimple(s) => {
            assert_eq!(s.token_address, DEPLOYER);
            assert_eq!(s.token_amount, "100");
            assert_eq!(s.recipient, RECEIVER);
            assert_eq!(s.from_chain.as_deref(), Some("5"));
        }
        _ => panic!("expected a BridgeInSimple record"),
    }
    b.bridge_string(
        DEPLOYER.to_string(),
        "100".to_string(),
        RECEIVER.to_string(),
        "5".to_string(),
        false,
    )
    .unwrap();
    assert_eq!(b.take_events().len(), 2);
    assert_eq!(balance(&b, DEPLOYER), "800");
    assert_eq!(balance(&b, RECEIVER), "200");
}

#[test]
fn bridge_failure_records_nothing() {
    let mut b = Bridge::new(dec("10"), id(DEPLOYER));
    b.take_events();
    assert_eq!(
        b.bridge_string(
            DEPLOYER.to_string(),
            "11".to_string(),
            RECEIVER.to_string(),
            "5".to_string(),
            true,
        )
        .unwrap_err(),
        BridgeContractError::InsufficientFunds
    );
    assert_eq!(
        b.bridge_string(
            DEPLOYER.to_string(),
            "1x".to_string(),
            RECEIVER.to_string(),
            "5".to_string(),
            true,
        )
        .unwrap_err(),
        BridgeContractError::InvalidEncoding
    );
    assert_eq!(
        b.bridge_string(
            "bad".to_string(),
            "1".to_string(),
            RECEIVER.to_string(),
            "5".to_string(),
            true,
        )
        .unwrap_err(),
        BridgeContractError::InvalidAddressFormat
    );
    assert!(b.events().is_empty());
    assert_eq!(balance(&b, DEPLOYER), "10");
}

#[test]
fn bridge_in_from_caller() {
    let mut b = Bridge::new(dec("1000"), id(DEPLOYER));
    b.take_events();
    b.bridge_in_string(&id(DEPLOYER), "250".to_string(), OTHER.to_string(), "7".to_string(), true)
        .unwrap();
    let events = b.take_events();
    assert_eq!(events.len(), 3);
    match &events[2] {
        BridgeEvent::BridgeInSimple(s) => assert_eq!(s.token_address, DEPLOYER),
        _ => panic!("expected a BridgeInSimple record"),
    }
    b.bridge_in(&id(DEPLOYER), dec("50"), id(OTHER), dec("7")).unwrap();
    assert_eq!(b.take_events().len(), 2);
    assert_eq!(balance(&b, OTHER), "300");
    assert_eq!(balance(&b, DEPLOYER), "700");
}

#[test]
fn bridge_out_to_caller() {
    let mut b = Bridge::new(dec("1000"), id(DEPLOYER));
    b.take_events();
    b.bridge_out_string(&id(RECEIVER), DEPLOYER.to_string(), "400".to_string(), "9".to_string(), false)
        .unwrap();
    let events = b.take_events();
    assert_eq!(events.len(), 2);
    match &events[1] {
        BridgeEvent::BridgeOutComplex(c) => {
            assert_eq!(c.recipient.to_string(), RECEIVER);
            assert_eq!(c.target_chain.unwrap().to_decimal(), "9");
        }
        _ => panic!("expected a BridgeOutComplex record"),
    }
    b.bridge_out_string(&id(RECEIVER), DEPLOYER.to_string(), "100".to_string(), "9".to_string(), true)
        .unwrap();
    let events = b.take_events();
    assert_eq!(events.len(), 3);
    match &events[2] {
        BridgeEvent::BridgeOutSimple(s) => {
            assert_eq!(s.recipient, RECEIVER);
            assert_eq!(s.target_chain.as_deref(), Some("9"));
        }
        _ => panic!("expected a BridgeOutSimple record"),
    }
    b.bridge_out(&id(RECEIVER), id(DEPLOYER), dec("1"), dec("9")).unwrap();
    assert_eq!(balance(&b, RECEIVER), "501");
    assert_eq!(balance(&b, DEPLOYER), "499");
}
