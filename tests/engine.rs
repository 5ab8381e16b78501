use transact::engine::{Account, DepositStatus, Engine, Outcome};
use transact::transaction::{Amount, Kind, Transaction, SCALE};

fn tx(kind: Kind, client: u16, id: u32, amount: Option<Amount>) -> Transaction {
    Transaction {
        kind,
        client,
        tx: id,
        amount,
    }
}

#[test]
fn deposit_and_withdrawal_follow_rules() {
    let mut engine = Engine::new();
    engine.process(tx(Kind::Deposit, 1, 10, Some(5 * SCALE)));
    let acc = engine.account(1).unwrap();
    assert_eq!(acc.available, 5 * SCALE);

    // Successful withdrawal
    engine.process(tx(Kind::Withdrawal, 1, 11, Some(2 * SCALE)));
    let acc = engine.account(1).unwrap();
    assert_eq!(acc.available, 3 * SCALE);

    // Withdrawal ignored when insufficient funds
    engine.process(tx(Kind::Withdrawal, 1, 12, Some(5 * SCALE)));
    let acc = engine.account(1).unwrap();
    assert_eq!(
        acc.available,
        3 * SCALE,
        "insufficient withdrawal must be ignored"
    );
}

#[test]
fn dispute_and_resolve_move_funds_between_available_and_held() {
    let mut engine = Engine::new();
    engine.process(tx(Kind::Deposit, 2, 20, Some(8 * SCALE)));
    engine.process(tx(Kind::Dispute, 2, 20, None));

    let acc = engine.account(2).unwrap();
    assert_eq!(acc.available, 0);
    assert_eq!(acc.held, 8 * SCALE);

    engine.process(tx(Kind::Resolve, 2, 20, None));
    let acc = engine.account(2).unwrap();
    assert_eq!(acc.available, 8 * SCALE);
    assert_eq!(acc.held, 0);
}

#[test]
fn chargeback_locks_account_and_removes_funds() {
    let mut engine = Engine::new();
    engine.process(tx(Kind::Deposit, 3, 30, Some(6 * SCALE)));
    engine.process(tx(Kind::Dispute, 3, 30, None));
    engine.process(tx(Kind::ChargeBack, 3, 30, None));

    let acc = engine.account(3).unwrap();
    assert_eq!(acc.available, 0);
    assert_eq!(acc.held, 0);
    assert!(acc.locked, "chargeback must lock the account");

    // Further deposits are ignored
    engine.process(tx(Kind::Deposit, 3, 31, Some(2 * SCALE)));
    let acc = engine.account(3).unwrap();
    assert_eq!(acc.available, 0);
}

#[test]
fn dispute_after_funds_spent_exposes_negative_available_balance() {
    let mut engine = Engine::new();
    engine.process(tx(Kind::Deposit, 4, 40, Some(4 * SCALE)));
    engine.process(tx(Kind::Withdrawal, 4, 41, Some(4 * SCALE)));

    // Disputing the spent deposit moves funds from available (now zero) into held,
    // so available becomes negative.
    engine.process(tx(Kind::Dispute, 4, 40, None));
    let acc = engine.account(4).unwrap();
    assert!(
        acc.available < 0,
        "available balance should show deficit after dispute"
    );
    assert_eq!(acc.held, 4 * SCALE);
}

#[test]
fn deposit_into_locked_account_is_ignored() {
    let mut engine = Engine::new();
    engine.process(tx(Kind::Deposit, 5, 50, Some(2 * SCALE)));
    engine.process(tx(Kind::Dispute, 5, 50, None));
    engine.process(tx(Kind::ChargeBack, 5, 50, None));
    assert!(engine.account(5).unwrap().locked);

    engine.process(tx(Kind::Deposit, 5, 51, Some(3 * SCALE)));
    let acc = engine.account(5).unwrap();
    assert_eq!(acc.available, 0, "locked account must not accept deposits");
    assert!(
        engine.deposit_record(51).is_none(),
        "deposit record should not exist when deposit was ignored"
    );
}

#[test]
fn withdrawals_and_disputes_without_matching_state_are_ignored() {
    let mut engine = Engine::new();
    engine.process(tx(Kind::Withdrawal, 99, 60, Some(SCALE)));
    assert!(engine.account(99).is_none(), "new account must not be created");

    engine.process(tx(Kind::Dispute, 1, 9999, None));
    assert!(engine.deposit_count() == 0, "unknown dispute must be ignored");
}

#[test]
fn resolve_and_chargeback_require_disputed_status() {
    let mut engine = Engine::new();
    engine.process(tx(Kind::Deposit, 6, 70, Some(3 * SCALE)));

    engine.process(tx(Kind::Resolve, 6, 70, None));
    engine.process(tx(Kind::ChargeBack, 6, 70, None));

    let acc = engine.account(6).unwrap();
    assert_eq!(acc.available, 3 * SCALE);
    assert_eq!(acc.held, 0);
    assert!(
        !acc.locked,
        "chargeback without dispute must leave account unlocked"
    );
    assert_eq!(
        engine.deposit_record(70).unwrap().status,
        DepositStatus::Posted
    );
}

#[test]
fn process_reports_whether_a_record_applied() {
    let mut engine = Engine::new();
    assert_eq!(engine.process(tx(Kind::Deposit, 1, 1, None)), Outcome::Ignored);
    assert!(engine.account(1).is_none());
    assert_eq!(engine.process(tx(Kind::Deposit, 1, 1, Some(7))), Outcome::Applied);
    assert_eq!(engine.process(tx(Kind::Withdrawal, 1, 2, None)), Outcome::Ignored);
    assert_eq!(engine.process(tx(Kind::Withdrawal, 1, 2, Some(7))), Outcome::Applied);
    assert_eq!(engine.account(1).unwrap().available, 0);
}

#[test]
fn locked_account_total_stays_frozen() {
    let mut engine = Engine::new();
    engine.process(tx(Kind::Deposit, 8, 80, Some(10 * SCALE)));
    engine.process(tx(Kind::Deposit, 8, 81, Some(3 * SCALE)));
    engine.process(tx(Kind::Dispute, 8, 81, None));
    engine.process(tx(Kind::ChargeBack, 8, 81, None));
    let locked = engine.account(8).unwrap();
    assert!(locked.locked);
    assert_eq!(locked.total(), Some(10 * SCALE));

    assert_eq!(engine.process(tx(Kind::Deposit, 8, 82, Some(SCALE))), Outcome::Ignored);
    assert_eq!(engine.process(tx(Kind::Withdrawal, 8, 83, Some(SCALE))), Outcome::Ignored);
    assert_eq!(engine.process(tx(Kind::Dispute, 8, 80, None)), Outcome::Ignored);
    assert_eq!(engine.process(tx(Kind::Resolve, 8, 80, None)), Outcome::Ignored);
    assert_eq!(engine.process(tx(Kind::ChargeBack, 8, 80, None)), Outcome::Ignored);
    let after = engine.account(8).unwrap();
    assert_eq!(after, locked);
    assert_eq!(after.total(), Some(10 * SCALE));
}

#[test]
fn settling_a_removed_deposit_again_changes_nothing() {
    let mut engine = Engine::new();
    engine.process(tx(Kind::Deposit, 9, 90, Some(5 * SCALE)));
    engine.process(tx(Kind::Dispute, 9, 90, None));
    assert_eq!(engine.process(tx(Kind::Resolve, 9, 90, None)), Outcome::Applied);
    assert!(engine.deposit_record(90).is_none());
    let before = engine.account(9).unwrap();
    assert_eq!(engine.process(tx(Kind::Resolve, 9, 90, None)), Outcome::Ignored);
    assert_eq!(engine.process(tx(Kind::ChargeBack, 9, 90, None)), Outcome::Ignored);
    assert_eq!(engine.process(tx(Kind::Dispute, 9, 90, None)), Outcome::Ignored);
    assert_eq!(engine.account(9).unwrap(), before);
    assert_eq!(before.available, 5 * SCALE);
    assert!(!before.locked);
}

#[test]
fn posted_deposit_ignores_resolve_and_chargeback() {
    let mut engine = Engine::new();
    engine.process(tx(Kind::Deposit, 10, 100, Some(2 * SCALE)));
    assert_eq!(engine.process(tx(Kind::Resolve, 10, 100, None)), Outcome::Ignored);
    assert_eq!(engine.process(tx(Kind::ChargeBack, 10, 100, None)), Outcome::Ignored);
    let record = engine.deposit_record(100).unwrap();
    assert_eq!(record.status, DepositStatus::Posted);
    assert_eq!(record.client, 10);
    assert_eq!(record.amount, 2 * SCALE);
    let acc = engine.account(10).unwrap();
    assert_eq!(
        acc,
        Account {
            available: 2 * SCALE,
            held: 0,
            locked: false
        }
    );
}

#[test]
fn duplicate_deposit_id_overwrites_the_record() {
    let mut engine = Engine::new();
    engine.process(tx(Kind::Deposit, 11, 110, Some(SCALE)));
    engine.process(tx(Kind::Deposit, 12, 110, Some(2 * SCALE)));
    let record = engine.deposit_record(110).unwrap();
    assert_eq!(record.client, 12);
    assert_eq!(record.amount, 2 * SCALE);
    assert_eq!(engine.deposit_count(), 1);
}

#[test]
fn balances_that_would_overflow_are_ignored() {
    let mut engine = Engine::new();
    assert_eq!(engine.process(tx(Kind::Deposit, 13, 1, Some(i64::MAX))), Outcome::Applied);
    assert_eq!(engine.process(tx(Kind::Deposit, 13, 2, Some(1))), Outcome::Ignored);
    assert_eq!(engine.account(13).unwrap().available, i64::MAX);
    assert!(engine.deposit_record(2).is_none());
}

#[test]
fn snapshot_lists_each_account_once() {
    let mut engine = Engine::new();
    assert!(engine.snapshot().is_empty());
    engine.process(tx(Kind::Deposit, 1, 1, Some(SCALE)));
    engine.process(tx(Kind::Deposit, 2, 2, Some(2 * SCALE)));
    engine.process(tx(Kind::Deposit, 1, 3, Some(SCALE)));
    let mut rows = engine.snapshot();
    rows.sort_by_key(|r| r.0);
    assert_eq!(rows.len(), 2);
    assert_eq!(rows[0].0, 1);
    assert_eq!(rows[0].1.available, 2 * SCALE);
    assert_eq!(rows[1].0, 2);
    assert_eq!(rows[1].1.available, 2 * SCALE);
}

#[test]
fn default_account_is_empty() {
    let acc = Account::default();
    assert_eq!(acc.available, 0);
    assert_eq!(acc.held, 0);
    assert!(!acc.locked);
}

#[test]
fn balances_apply_while_each_field_fits() {
    let mut engine = Engine::new();
    assert_eq!(engine.process(tx(Kind::Deposit, 14, 1, Some(i64::MAX))), Outcome::Applied);
    assert_eq!(engine.process(tx(Kind::Dispute, 14, 1, None)), Outcome::Applied);
    assert_eq!(engine.process(tx(Kind::Deposit, 14, 2, Some(1))), Outcome::Applied);
    assert_eq!(engine.process(tx(Kind::Withdrawal, 14, 3, Some(-1))), Outcome::Applied);
    let acc = engine.account(14).unwrap();
    assert_eq!(acc.available, 2);
    assert_eq!(acc.held, i64::MAX);
    assert_eq!(acc.total(), None);
}

#[test]
fn chargeback_applies_while_held_fits() {
    let mut engine = Engine::new();
    let big = 1i64 << 62;
    engine.process(tx(Kind::Deposit, 15, 1, Some(-big)));
    engine.process(tx(Kind::Dispute, 15, 1, None));
    engine.process(tx(Kind::Deposit, 15, 2, Some(big)));
    engine.process(tx(Kind::Dispute, 15, 2, None));
    engine.process(tx(Kind::Deposit, 15, 3, Some(big)));
    assert_eq!(engine.process(tx(Kind::ChargeBack, 15, 1, None)), Outcome::Applied);
    let acc = engine.account(15).unwrap();
    assert!(acc.locked);
    assert_eq!(acc.held, big);
    assert_eq!(acc.available, big);
    assert_eq!(acc.total(), None);
}
