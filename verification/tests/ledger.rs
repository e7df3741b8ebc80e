use espora::account::{settle, statement, Account};
use espora::error::Error;
use espora::image::{append, last_rows, open, rows};
use espora::transaction::{DateTime, Description, Transaction, TransactionType};

type Row = (i64, (i64, bool, String, i128));

fn transaction(value: i64, kind: TransactionType) -> Transaction {
    Transaction {
        value,
        kind,
        description: Description::try_from(String::from("teste")).unwrap(),
        created_at: DateTime::now(),
    }
}

fn encoded(balance: i64, transaction: &Transaction) -> Vec<u8> {
    let row: Row = (
        balance,
        (
            transaction.value,
            transaction.kind == TransactionType::Debit,
            String::from(transaction.description.as_str()),
            transaction.created_at.0.unix_timestamp_nanos(),
        ),
    );
    bitcode::serialize(&row).unwrap()
}

fn stored_balances(file: &[u8]) -> Vec<i64> {
    rows::<128>(file)
        .iter()
        .map(|row| bitcode::deserialize::<Row>(row).unwrap().0)
        .collect()
}

fn latest_balance(file: &[u8]) -> i64 {
    last_rows::<128>(file, 1)
        .first()
        .map(|row| bitcode::deserialize::<Row>(row).unwrap().0)
        .unwrap_or(0)
}

fn transact_on(file: &mut Vec<u8>, limit: i64, transaction: &Transaction) -> Result<i64, Error> {
    let mut db = open::<128>(file, 0);
    let balance = settle(latest_balance(file), limit, transaction)?;
    append(&mut db, file, &encoded(balance, transaction), 0)?;
    Ok(balance)
}

#[test]
fn single_credit() {
    let mut file = Vec::new();
    let mut db = open::<128>(&file, 0);
    let mut account = Account::with_rows(1000, Vec::new());
    assert_eq!(0, account.balance());

    let credit = transaction(100, TransactionType::Credit);
    let balance = account.transact(&credit).unwrap();
    assert_eq!(100, balance);
    append(&mut db, &mut file, &encoded(balance, &credit), 0).unwrap();
    account.record(balance, credit);
    assert_eq!(100, account.balance());
    assert_eq!(1000, account.limit());

    let reopened = open::<128>(&file, 0);
    assert_eq!(31, reopened.available_rows());
    let last = last_rows::<128>(&file, 1);
    assert_eq!(1, last.len());
    let (stored, (value, debit, description, _)) = bitcode::deserialize::<Row>(&last[0]).unwrap();
    assert_eq!(100, stored);
    assert_eq!(100, value);
    assert!(!debit);
    assert_eq!("teste", description);
}

#[test]
fn debit_within_limit() {
    let mut account = Account::with_rows(1000, Vec::new());
    let first = transaction(500, TransactionType::Debit);
    let balance = account.transact(&first).unwrap();
    assert_eq!(-500, balance);
    account.record(balance, first);
    assert_eq!(-500, account.balance());

    let second = transaction(600, TransactionType::Debit);
    assert_eq!(Err(Error::InsufficientLimit), account.transact(&second));
    assert_eq!(-500, account.balance());
    assert_eq!(1, account.transactions().len());

    let third = transaction(500, TransactionType::Debit);
    assert_eq!(Ok(-1000), account.transact(&third));
    let fourth = transaction(501, TransactionType::Debit);
    assert_eq!(Err(Error::InsufficientLimit), account.transact(&fourth));
}

#[test]
fn rule_of_the_ledger() {
    let credit = transaction(7, TransactionType::Credit);
    let debit = transaction(7, TransactionType::Debit);
    assert_eq!(Ok(12), settle(5, 0, &credit));
    assert_eq!(Ok(-2), settle(-9, 0, &credit));
    assert_eq!(Ok(-2), settle(5, 2, &debit));
    assert_eq!(Err(Error::InsufficientLimit), settle(5, 1, &debit));
    assert_eq!(Ok(0), settle(7, 0, &debit));
    assert_eq!(Err(Error::InsufficientLimit), settle(6, 0, &debit));
    assert_eq!(Ok(-7), settle(0, 7, &debit));
    assert_eq!(Ok(-107), settle(-100, 107, &debit));
    assert_eq!(Err(Error::InsufficientLimit), settle(-100, 106, &debit));
}

#[test]
fn balance_that_overflows_is_refused() {
    let credit = transaction(1, TransactionType::Credit);
    assert_eq!(Err(Error::ArithmeticOverflow), settle(i64::MAX, 0, &credit));
    assert_eq!(Ok(i64::MAX), settle(i64::MAX - 1, 0, &credit));
    let negative = transaction(-1, TransactionType::Credit);
    assert_eq!(Err(Error::ArithmeticOverflow), settle(i64::MIN, 0, &negative));
    assert_eq!(Ok(i64::MIN), settle(i64::MIN + 1, 0, &negative));

    let back = transaction(i64::MIN, TransactionType::Debit);
    assert_eq!(Err(Error::ArithmeticOverflow), settle(0, 0, &back));
    assert_eq!(Ok(i64::MAX), settle(-1, 0, &back));
    let small = transaction(-3, TransactionType::Debit);
    assert_eq!(Err(Error::ArithmeticOverflow), settle(i64::MAX - 2, 0, &small));
    assert_eq!(Ok(i64::MAX), settle(i64::MAX - 3, 0, &small));
}

#[test]
fn limit_is_compared_without_overflow() {
    let all = transaction(i64::MAX, TransactionType::Debit);
    assert_eq!(Ok(0), settle(i64::MAX, i64::MAX, &all));
    assert_eq!(Ok(i64::MIN + 1), settle(0, i64::MAX, &all));
    assert_eq!(Err(Error::InsufficientLimit), settle(-1, i64::MAX, &all));
    let two = transaction(2, TransactionType::Debit);
    assert_eq!(
        Err(Error::InsufficientLimit),
        settle(i64::MIN + 2, i64::MAX, &two)
    );
    assert_eq!(Err(Error::InsufficientLimit), settle(i64::MIN, i64::MIN, &two));
    assert_eq!(Ok(i64::MAX - 2), settle(i64::MAX, 0, &two));
    assert_eq!(Ok(i64::MAX - 2), settle(i64::MAX, i64::MAX, &two));
}

#[test]
fn accepted_transactions_follow_the_rule() {
    let limit = 300;
    let mut file = Vec::new();
    let mut db = open::<128>(&file, 0);
    let mut account = Account::with_rows(limit, Vec::new());
    let mut accepted = Vec::new();
    let moves = [
        (100, TransactionType::Credit),
        (250, TransactionType::Debit),
        (200, TransactionType::Debit),
        (150, TransactionType::Debit),
        (1, TransactionType::Debit),
        (1000, TransactionType::Credit),
        (1001, TransactionType::Debit),
        (1000, TransactionType::Debit),
        (0, TransactionType::Debit),
    ];
    for (value, kind) in moves {
        let made = transaction(value, kind);
        if let Ok(balance) = account.transact(&made) {
            append(&mut db, &mut file, &encoded(balance, &made), 0).unwrap();
            account.record(balance, made);
            accepted.push((value, kind));
        }
    }
    let balances = stored_balances(&file);
    assert_eq!(vec![100, -150, -300, 700, -300, -300], balances);
    assert_eq!(accepted.len(), balances.len());
    let mut previous = 0;
    for ((value, kind), balance) in accepted.iter().zip(balances.iter()) {
        match kind {
            TransactionType::Credit => assert_eq!(previous + value, *balance),
            TransactionType::Debit => {
                assert!(previous + limit >= *value);
                assert_eq!(previous - value, *balance);
            }
        }
        previous = *balance;
    }
    assert_eq!(-300, account.balance());
}

#[test]
fn two_handles_one_after_the_other_keep_the_ledger() {
    let limit = 1_000_000;
    let mut file = Vec::new();
    let debit = transaction(1, TransactionType::Debit);
    for _ in 0..2 {
        let mut db = open::<128>(&file, 0);
        for _ in 0..1000 {
            let balance = settle(latest_balance(&file), limit, &debit).unwrap();
            append(&mut db, &mut file, &encoded(balance, &debit), 0).unwrap();
        }
    }
    let balances = stored_balances(&file);
    assert_eq!(2000, balances.len());
    assert_eq!(-2000, latest_balance(&file));
    let mut previous = 0;
    for balance in balances {
        assert_eq!(previous - 1, balance);
        previous = balance;
    }
}

#[test]
fn reopen_on_a_full_last_page_refuses_the_transaction() {
    let mut file = Vec::new();
    let credit = transaction(1, TransactionType::Credit);
    for _ in 0..32 {
        transact_on(&mut file, 0, &credit).unwrap();
    }
    assert_eq!(Err(Error::RowTooLarge), transact_on(&mut file, 0, &credit));
    assert_eq!(32, latest_balance(&file));
}

#[test]
fn account_is_seeded_from_the_last_rows() {
    let rows: Vec<(i64, Transaction)> = (0..12)
        .map(|i| (100 - i, transaction(i, TransactionType::Credit)))
        .collect();
    let account = Account::with_rows(5, rows);
    assert_eq!(100, account.balance());
    assert_eq!(5, account.limit());
    let recent = account.transactions();
    assert_eq!(10, recent.len());
    for i in 0..10 {
        assert_eq!(i as i64, recent.get(i).value);
    }

    let few = Account::with_rows(5, vec![(7, transaction(3, TransactionType::Debit))]);
    assert_eq!(7, few.balance());
    assert_eq!(1, few.transactions().len());
    assert_eq!(TransactionType::Debit, few.transactions().get(0).kind);

    let none = Account::with_rows(5, Vec::new());
    assert_eq!(0, none.balance());
    assert_eq!(0, none.transactions().len());
}

#[test]
fn mirror_keeps_the_ten_newest() {
    let mut account = Account::with_rows(0, Vec::new());
    for i in 1..=13 {
        let credit = transaction(i, TransactionType::Credit);
        let balance = account.transact(&credit).unwrap();
        account.record(balance, credit);
    }
    assert_eq!(91, account.balance());
    let recent = account.transactions();
    assert_eq!(10, recent.len());
    for i in 0..10 {
        assert_eq!(13 - i as i64, recent.get(i).value);
    }
}

#[test]
fn description_has_one_to_ten_bytes() {
    assert_eq!(
        Err("Descricao inválida"),
        Description::try_from(String::new()).map(|_| ())
    );
    assert_eq!(
        "a",
        Description::try_from(String::from("a")).unwrap().as_str()
    );
    assert_eq!(
        "0123456789",
        Description::try_from(String::from("0123456789"))
            .unwrap()
            .as_str()
    );
    assert_eq!(
        Err("Descricao inválida"),
        Description::try_from(String::from("0123456789a")).map(|_| ())
    );
    assert_eq!(
        "ááááá",
        Description::try_from(String::from("ááááá")).unwrap().as_str()
    );
    assert_eq!(
        Err("Descricao inválida"),
        Description::try_from(String::from("áááááa")).map(|_| ())
    );
}

#[test]
fn clone_keeps_the_time() {
    let made = transaction(1, TransactionType::Credit);
    let copy = made.clone();
    assert_eq!(made.created_at.0, copy.created_at.0);
    assert_eq!(made.created_at.0, made.created_at.clone().0);
    assert_eq!(made.value, copy.value);
    assert_eq!(made.kind, copy.kind);
    assert_eq!(made.description.as_str(), copy.description.as_str());
}

#[test]
fn now_is_in_utc_and_moves_on() {
    let first = DateTime::now();
    let second = DateTime::default();
    assert!(first.0.offset().is_utc());
    assert!(second.0 >= first.0);
    assert!(first.0.year() >= 2024);
}

#[test]
fn statement_shows_the_first_balance_and_the_transactions_in_order() {
    let rows: Vec<(i64, Transaction)> = (0..4)
        .map(|i| (50 - i, transaction(i + 1, TransactionType::Debit)))
        .collect();
    let (balance, transactions) = statement(rows);
    assert_eq!(50, balance);
    let values: Vec<i64> = transactions.iter().map(|made| made.value).collect();
    assert_eq!(vec![1, 2, 3, 4], values);

    let (balance, transactions) = statement(Vec::new());
    assert_eq!(0, balance);
    assert!(transactions.is_empty());
}
