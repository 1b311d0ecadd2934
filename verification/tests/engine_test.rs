use tx_processor::amount::{Amount, BALANCE_LIMIT};
use tx_processor::errors::TxError;
use tx_processor::model::{ClientBalance, ClientId, Transaction, TxId, TxType};
use tx_processor::parse::parse_amount;
use tx_processor::tx_processor::TxProcessor;

fn amt(s: &str) -> Amount {
    parse_amount(s.as_bytes()).unwrap()
}

fn deposit(client: ClientId, tx_id: TxId, amount: Amount) -> Transaction {
    Transaction { tx_type: TxType::Deposit, client, tx_id, amount: Some(amount) }
}

fn withdrawal(client: ClientId, tx_id: TxId, amount: Amount) -> Transaction {
    Transaction { tx_type: TxType::Withdrawal, client, tx_id, amount: Some(amount) }
}

fn dispute(tx_type: TxType, client: ClientId, tx_id: TxId) -> Transaction {
    Transaction { tx_type, client, tx_id, amount: None }
}

fn process_tx(tx_processor: &mut TxProcessor, transaction: Transaction) {
    tx_processor.process_input(&vec![transaction]).unwrap();
}

fn balance_of(p: &TxProcessor, client: ClientId) -> ClientBalance {
    *p.get_balance(client).unwrap()
}

fn expect(client: ClientId, available: &str, held: &str, locked: bool) -> ClientBalance {
    ClientBalance { client, available: amt(available), held: amt(held), locked }
}

#[test]
fn test_deposit() {
    let mut tx_processor = TxProcessor::new();
    assert!(tx_processor.clients_balance.is_empty());

    // Test a single deposit.
    process_tx(&mut tx_processor, deposit(1, 1, amt("100.0")));

    let c1_balance = balance_of(&tx_processor, 1);
    assert_eq!(c1_balance, expect(1, "100.0", "0.0", false));
    assert_eq!(c1_balance.total(), amt("100.0"));

    // Test a second deposit.
    process_tx(&mut tx_processor, deposit(1, 2, amt("50.0")));

    let c1_balance = balance_of(&tx_processor, 1);
    assert_eq!(c1_balance, expect(1, "150.0", "0.0", false));
    assert_eq!(c1_balance.total(), amt("150.0"));

    // Test another deposit with different client.
    let client = 2;
    process_tx(&mut tx_processor, deposit(client, 3, amt("50.0")));

    let c2_balance = balance_of(&tx_processor, client);
    assert_eq!(c2_balance, expect(client, "50.0", "0.0", false));
    assert_eq!(c2_balance.total(), amt("50.0"));
}

#[test]
fn test_withdrawal() {
    let mut tx_processor = TxProcessor::new();

    process_tx(&mut tx_processor, deposit(1, 1, amt("1000.0")));

    // Test a withdrawal.
    process_tx(&mut tx_processor, withdrawal(1, 2, amt("600.0")));
    let c1_balance = balance_of(&tx_processor, 1);
    assert_eq!(c1_balance, expect(1, "400.0", "0.0", false));
    assert_eq!(c1_balance.total(), amt("400.0"));

    // Test a second withdrawal with not enough funds.
    process_tx(&mut tx_processor, withdrawal(1, 3, amt("600.0")));

    let c1_balance = balance_of(&tx_processor, 1);
    // Expect balance doesn't change
    assert_eq!(c1_balance, expect(1, "400.0", "0.0", false));

    // Test a 3rd withdrawal
    process_tx(&mut tx_processor, withdrawal(1, 4, amt("400.0")));
    let c1_balance = balance_of(&tx_processor, 1);
    assert_eq!(c1_balance, expect(1, "0.0", "0.0", false));
    assert_eq!(c1_balance.total(), amt("0.0"));
}

#[test]
fn test_error_references() {
    let mut tx_processor = TxProcessor::new();

    process_tx(&mut tx_processor, deposit(1, 1, amt("1000.0")));
    process_tx(&mut tx_processor, deposit(1, 2, amt("500.0")));

    // Test bad references.
    process_tx(&mut tx_processor, dispute(TxType::Dispute, 1, 666));
    process_tx(&mut tx_processor, dispute(TxType::Resolve, 1, 666));
    process_tx(&mut tx_processor, dispute(TxType::Chargeback, 1, 666));

    let c1_balance = balance_of(&tx_processor, 1);
    assert_eq!(c1_balance, expect(1, "1500.0", "0.0", false));
    assert_eq!(c1_balance.total(), amt("1500.0"));
}

#[test]
fn test_dispute_resolve() {
    let mut tx_processor = TxProcessor::new();

    process_tx(&mut tx_processor, deposit(1, 1, amt("1000.0")));
    process_tx(&mut tx_processor, deposit(1, 2, amt("500.0")));

    // Test a dispute.
    process_tx(&mut tx_processor, dispute(TxType::Dispute, 1, 2));

    let c1_balance = balance_of(&tx_processor, 1);
    assert_eq!(c1_balance, expect(1, "1000.0", "500.0", false));
    assert_eq!(c1_balance.total(), amt("1500.0"));

    // Test a resolve.
    process_tx(&mut tx_processor, dispute(TxType::Resolve, 1, 2));

    let c1_balance = balance_of(&tx_processor, 1);
    assert_eq!(c1_balance, expect(1, "1500.0", "0.0", false));
    assert_eq!(c1_balance.total(), amt("1500.0"));
}

#[test]
fn test_dispute_resolve_multiple() {
    let mut tx_processor = TxProcessor::new();

    process_tx(&mut tx_processor, deposit(1, 1, amt("50.0")));
    process_tx(&mut tx_processor, deposit(1, 2, amt("60.0")));
    process_tx(&mut tx_processor, deposit(1, 3, amt("80.0")));

    // Test two pending disputes.
    process_tx(&mut tx_processor, dispute(TxType::Dispute, 1, 2));
    process_tx(&mut tx_processor, dispute(TxType::Dispute, 1, 3));

    let c1_balance = balance_of(&tx_processor, 1);
    assert_eq!(c1_balance, expect(1, "50.0", "140.0", false));
    assert_eq!(c1_balance.total(), amt("190.0"));

    // Test a resolve.
    process_tx(&mut tx_processor, dispute(TxType::Resolve, 1, 2));

    let c1_balance = balance_of(&tx_processor, 1);
    assert_eq!(c1_balance, expect(1, "110.0", "80.0", false));
    assert_eq!(c1_balance.total(), amt("190.0"));
}

#[test]
fn test_chargeback() {
    let mut tx_processor = TxProcessor::new();

    process_tx(&mut tx_processor, deposit(1, 1, amt("1000.0")));
    process_tx(&mut tx_processor, deposit(1, 2, amt("500.0")));

    process_tx(&mut tx_processor, dispute(TxType::Dispute, 1, 2));

    // Test chargeback
    process_tx(&mut tx_processor, dispute(TxType::Chargeback, 1, 2));

    let c1_balance = balance_of(&tx_processor, 1);
    assert_eq!(c1_balance, expect(1, "1000.0", "00.0", true));
    assert_eq!(c1_balance.total(), amt("1000.0"));
}

#[test]
fn test_missing_amount_is_fatal() {
    let mut p = TxProcessor::new();
    let r = p.process_input(&vec![
        deposit(1, 1, amt("5.0")),
        Transaction { tx_type: TxType::Deposit, client: 2, tx_id: 2, amount: None },
        deposit(3, 3, amt("7.0")),
    ]);
    assert_eq!(r, Err(TxError::AmountMissing));
    // The first record was processed; the fatal one still created its
    // ledger; the third was never reached.
    assert_eq!(balance_of(&p, 1), expect(1, "5.0", "0", false));
    assert_eq!(balance_of(&p, 2), expect(2, "0", "0", false));
    assert!(p.get_balance(3).is_none());

    let r = p.process_input(&vec![
        Transaction { tx_type: TxType::Withdrawal, client: 1, tx_id: 4, amount: None },
    ]);
    assert_eq!(r, Err(TxError::AmountMissing));
}

#[test]
fn test_ledger_created_for_ignored_records() {
    let mut p = TxProcessor::new();
    // A dispute of an unknown transaction is ignored, but the client now
    // exists with a zero balance.
    process_tx(&mut p, dispute(TxType::Dispute, 9, 123));
    assert_eq!(balance_of(&p, 9), expect(9, "0", "0", false));
}

#[test]
fn test_duplicate_deposit_id_ignored() {
    let mut p = TxProcessor::new();
    process_tx(&mut p, deposit(1, 1, amt("100.0")));
    process_tx(&mut p, deposit(1, 1, amt("50.0")));
    assert_eq!(balance_of(&p, 1), expect(1, "100.0", "0", false));
}

#[test]
fn test_dispute_wrong_client_ignored() {
    let mut p = TxProcessor::new();
    process_tx(&mut p, deposit(1, 1, amt("100.0")));
    process_tx(&mut p, dispute(TxType::Dispute, 2, 1));
    assert_eq!(balance_of(&p, 1), expect(1, "100.0", "0", false));
    assert_eq!(balance_of(&p, 2), expect(2, "0", "0", false));
}

#[test]
fn test_dispute_after_withdrawal_goes_negative() {
    let mut p = TxProcessor::new();
    process_tx(&mut p, deposit(1, 1, amt("100.0")));
    process_tx(&mut p, withdrawal(1, 2, amt("80.0")));
    process_tx(&mut p, dispute(TxType::Dispute, 1, 1));
    // The disputed deposit was already withdrawn: available goes negative.
    assert_eq!(balance_of(&p, 1), expect(1, "-80.0", "100.0", false));
    assert_eq!(balance_of(&p, 1).total(), amt("20.0"));
}

#[test]
fn test_out_of_range_deposit_ignored() {
    let mut p = TxProcessor::new();
    process_tx(&mut p, deposit(1, 1, Amount::from_units(BALANCE_LIMIT)));
    assert_eq!(balance_of(&p, 1).available.units, BALANCE_LIMIT);
    // A further deposit would push the balance past the engine's range
    // and is ignored.
    process_tx(&mut p, deposit(1, 2, Amount::from_units(1)));
    assert_eq!(balance_of(&p, 1).available.units, BALANCE_LIMIT);
}

// Conservation on concrete values: the sum of all totals equals accepted
// deposits minus accepted withdrawals minus charged-back amounts.
#[test]
fn test_conservation_concrete() {
    let mut p = TxProcessor::new();
    p.process_input(&vec![
        deposit(1, 1, amt("100.0")),
        deposit(2, 2, amt("200.0")),
        withdrawal(1, 3, amt("30.0")),
        withdrawal(2, 4, amt("500.0")), // ignored: insufficient funds
        dispute(TxType::Dispute, 2, 2),
        dispute(TxType::Chargeback, 2, 2),
        deposit(1, 5, amt("1.5")),
    ])
    .unwrap();
    let sum = balance_of(&p, 1).total().add(balance_of(&p, 2).total());
    // 100 + 200 + 1.5 deposited, 30 withdrawn, 200 charged back.
    assert_eq!(sum, amt("71.5"));
}

// Once locked, a ledger stays locked whatever follows.
#[test]
fn test_locked_stays_locked() {
    let mut p = TxProcessor::new();
    p.process_input(&vec![
        deposit(1, 1, amt("10.0")),
        dispute(TxType::Dispute, 1, 1),
        dispute(TxType::Chargeback, 1, 1),
    ])
    .unwrap();
    assert!(balance_of(&p, 1).locked);
    p.process_input(&vec![
        deposit(1, 2, amt("5.0")),
        withdrawal(1, 3, amt("1.0")),
        dispute(TxType::Dispute, 1, 2),
        dispute(TxType::Resolve, 1, 2),
    ])
    .unwrap();
    assert!(balance_of(&p, 1).locked);
}

// Two consecutive disputes of the same transaction act like one; same for
// chargebacks.
#[test]
fn test_dispute_idempotent() {
    let mut once = TxProcessor::new();
    once.process_input(&vec![
        deposit(1, 1, amt("100.0")),
        dispute(TxType::Dispute, 1, 1),
    ])
    .unwrap();
    let mut twice = TxProcessor::new();
    twice.process_input(&vec![
        deposit(1, 1, amt("100.0")),
        dispute(TxType::Dispute, 1, 1),
        dispute(TxType::Dispute, 1, 1),
    ])
    .unwrap();
    assert_eq!(balance_of(&once, 1), balance_of(&twice, 1));

    let mut cb_once = TxProcessor::new();
    cb_once.process_input(&vec![
        deposit(1, 1, amt("100.0")),
        dispute(TxType::Dispute, 1, 1),
        dispute(TxType::Chargeback, 1, 1),
    ])
    .unwrap();
    let mut cb_twice = TxProcessor::new();
    cb_twice.process_input(&vec![
        deposit(1, 1, amt("100.0")),
        dispute(TxType::Dispute, 1, 1),
        dispute(TxType::Chargeback, 1, 1),
        dispute(TxType::Chargeback, 1, 1),
    ])
    .unwrap();
    assert_eq!(balance_of(&cb_once, 1), balance_of(&cb_twice, 1));
}

// Processing a prefix and then the rest reaches the same state as
// processing everything in one call.
#[test]
fn test_prefix_replay() {
    let txs = vec![
        deposit(1, 1, amt("100.0")),
        deposit(2, 2, amt("50.0")),
        dispute(TxType::Dispute, 1, 1),
        withdrawal(2, 3, amt("20.0")),
        dispute(TxType::Resolve, 1, 1),
    ];
    let mut whole = TxProcessor::new();
    whole.process_input(&txs).unwrap();

    let mut split = TxProcessor::new();
    split.process_input(&txs[..3].to_vec()).unwrap();
    split.process_input(&txs[3..].to_vec()).unwrap();

    for c in [1u16, 2u16] {
        assert_eq!(balance_of(&whole, c), balance_of(&split, c));
    }
    assert_eq!(whole.snapshot(), split.snapshot());
}

#[test]
fn test_snapshot_order_and_contents() {
    let mut p = TxProcessor::new();
    p.process_input(&vec![
        deposit(7, 1, amt("1.0")),
        deposit(3, 2, amt("2.0")),
        deposit(7, 3, amt("4.0")),
    ])
    .unwrap();
    let rows = p.snapshot();
    assert_eq!(rows.len(), 2);
    assert_eq!(rows[0].client, 7);
    assert_eq!(rows[0].available, amt("5.0"));
    assert_eq!(rows[1].client, 3);
    assert_eq!(rows[1].available, amt("2.0"));
}
