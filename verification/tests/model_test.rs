use tx_processor::amount::{Amount, AMOUNT_SCALE, BALANCE_LIMIT};
use tx_processor::errors::TxError;
use tx_processor::model::{ClientBalance, Transaction, TxType};
use tx_processor::parse::{header_ok, parse_amount, parse_record, parse_tx_type, parse_u16, parse_u32};

fn amt(s: &str) -> Amount {
    parse_amount(s.as_bytes()).unwrap()
}

fn render(a: Amount) -> String {
    String::from_utf8(a.to_decimal_bytes()).unwrap()
}

#[test]
fn test_client_balance() {
    let mut balance = ClientBalance::new_empty(123);
    assert!(balance.locked == false);

    balance.add_funds(amt("100.0"));
    assert!(balance.available == amt("100.0"));
    assert!(balance.total() == amt("100.0"));

    balance.hold_funds(amt("60.0"));
    // fails:
    balance.remove_funds(amt("60.0")).unwrap_err();
    // succeeds:
    balance.remove_funds(amt("40.0")).unwrap();

    assert!(balance.available == amt("0.0"));
    assert!(balance.total() == amt("60.0"));
    assert!(balance.held == amt("60.0"));
    balance.resolve_funds(amt("60.0"));
    assert!(balance.available == amt("60.0"));
    assert!(balance.total() == amt("60.0"));
    assert!(balance.held == amt("00.0"));

    balance.hold_funds(amt("20.0"));
    balance.chargeback_funds(amt("20.0"));
    assert!(balance.available == amt("40.0"));
    assert!(balance.total() == amt("40.0"));
    assert!(balance.held == amt("00.0"));
    assert!(balance.locked == true);
}

#[test]
fn test_amount_parse_basic() {
    assert_eq!(amt("1.5").units, 15_000);
    assert_eq!(amt("3.0").units, 30_000);
    assert_eq!(amt("2").units, 2 * AMOUNT_SCALE);
    assert_eq!(amt("0.0001").units, 1);
    assert_eq!(amt(" 12.34 ").units, 123_400);
    assert_eq!(amt("-3.14").units, -31_400);
    assert_eq!(amt("007").units, 70_000);
}

#[test]
fn test_amount_parse_rejects() {
    assert!(parse_amount(b"").is_none());
    assert!(parse_amount(b"   ").is_none());
    assert!(parse_amount(b"abc").is_none());
    assert!(parse_amount(b"1.23456").is_none()); // five fractional digits
    assert!(parse_amount(b"1.").is_none());
    assert!(parse_amount(b".5").is_none());
    assert!(parse_amount(b"1.2.3").is_none());
    assert!(parse_amount(b"1 2").is_none());
    assert!(parse_amount(b"+5").is_none());
    // integer part just past the parseable range
    assert!(parse_amount(b"1000000000000000000").is_some()); // 10^18
    assert!(parse_amount(b"1000000000000000001").is_none());
}

#[test]
fn test_amount_render() {
    assert_eq!(render(amt("1.5")), "1.5");
    assert_eq!(render(amt("1.5000")), "1.5");
    assert_eq!(render(amt("2")), "2");
    assert_eq!(render(amt("0")), "0");
    assert_eq!(render(amt("0.05")), "0.05");
    assert_eq!(render(amt("-3.14")), "-3.14");
    assert_eq!(render(amt("127.9")), "127.9");
    assert_eq!(render(amt("10.0001")), "10.0001");
    assert_eq!(render(Amount::from_units(-5)), "-0.0005");
    assert_eq!(render(Amount::from_units(0)), "0");
}

#[test]
fn test_amount_arithmetic() {
    let a = amt("1.5");
    let b = amt("0.25");
    assert_eq!(a.add(b), amt("1.75"));
    assert_eq!(a.sub(b), amt("1.25"));
    assert_eq!(b.neg(), amt("-0.25"));
    assert!(b.lt(&a));
    assert!(a.ge(&b));
    assert!(b.le(&a));
    assert!(Amount::from_units(BALANCE_LIMIT).is_in_range());
    assert!(!Amount::from_units(BALANCE_LIMIT + 1).is_in_range());
}

#[test]
fn test_parse_ids() {
    assert_eq!(parse_u16(b" 42 "), Some(42));
    assert_eq!(parse_u16(b"65535"), Some(65535));
    assert_eq!(parse_u16(b"65536"), None);
    assert_eq!(parse_u16(b"4 2"), None);
    assert_eq!(parse_u16(b""), None);
    assert_eq!(parse_u32(b"4294967295"), Some(4294967295));
    assert_eq!(parse_u32(b"4294967296"), None);
    assert_eq!(parse_u32(b"0007"), Some(7));
}

#[test]
fn test_parse_tx_type_cases() {
    assert_eq!(parse_tx_type(b"deposit"), Some(TxType::Deposit));
    assert_eq!(parse_tx_type(b"DePoSiT"), Some(TxType::Deposit));
    assert_eq!(parse_tx_type(b" withdrawal "), Some(TxType::Withdrawal));
    assert_eq!(parse_tx_type(b"DISPUTE"), Some(TxType::Dispute));
    assert_eq!(parse_tx_type(b"Resolve"), Some(TxType::Resolve));
    assert_eq!(parse_tx_type(b"chargeback"), Some(TxType::Chargeback));
    assert_eq!(parse_tx_type(b"refund"), None);
    assert_eq!(parse_tx_type(b""), None);
}

fn fields(cols: &[&str]) -> Vec<Vec<u8>> {
    cols.iter().map(|c| c.as_bytes().to_vec()).collect()
}

#[test]
fn test_parse_record_ok() {
    let tx = parse_record(&fields(&["deposit", " 1", " 2", " 3.0"])).unwrap();
    assert_eq!(
        tx,
        Transaction {
            tx_type: TxType::Deposit,
            client: 1,
            tx_id: 2,
            amount: Some(amt("3.0")),
        }
    );

    let tx = parse_record(&fields(&["dispute", "1", "2", ""])).unwrap();
    assert_eq!(
        tx,
        Transaction { tx_type: TxType::Dispute, client: 1, tx_id: 2, amount: None }
    );
}

#[test]
fn test_parse_record_errors() {
    // wrong column count
    assert_eq!(
        parse_record(&fields(&["deposit", "1", "2"])),
        Err(TxError::RecordMalformed)
    );
    // unknown type
    assert_eq!(
        parse_record(&fields(&["refund", "1", "2", "3.0"])),
        Err(TxError::RecordMalformed)
    );
    // client out of range
    assert_eq!(
        parse_record(&fields(&["deposit", "70000", "2", "3.0"])),
        Err(TxError::RecordMalformed)
    );
    // tx id malformed
    assert_eq!(
        parse_record(&fields(&["deposit", "1", "x", "3.0"])),
        Err(TxError::RecordMalformed)
    );
    // bad decimal
    assert_eq!(
        parse_record(&fields(&["deposit", "1", "2", "3.0.0"])),
        Err(TxError::AmountMalformed)
    );
}

#[test]
fn test_header_ok() {
    assert!(header_ok(&fields(&["type", "client", "tx", "amount"])));
    assert!(header_ok(&fields(&[" Type ", " client", " tx", " amount"])));
    assert!(header_ok(&fields(&["type"])));
    assert!(!header_ok(&fields(&["client", "tx"])));
    assert!(!header_ok(&fields(&[])));
    assert!(!header_ok(&fields(&["typ"])));
}
