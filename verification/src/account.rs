//! The ledger of one account: the rule by which a transaction changes the
//! balance, what the rule makes of a sequence of transactions, and the
//! mirror of the latest balance and transactions that a process may keep.

use crate::db::takes;
use crate::error::Error;
use crate::image::{forward_rows, Log};
use crate::laws::lemma_append_adds_row;
use crate::ring_buffer::{pushed_front, RingBuffer};
use crate::transaction::{Transaction, TransactionType};
use vstd::prelude::*;

verus! {

/// The number of transactions that the mirror of an account keeps.
pub const RECENT: usize = 10;

/// The balance after a transaction of `kind` and `value` on an account with
/// balance `balance` and limit `limit`, or why the transaction is refused. A
/// credit adds its value. A debit is refused unless balance and limit
/// together cover its value, and takes its value off otherwise. A new
/// balance that does not fit in 64 bits is refused as an overflow.
pub open spec fn settled(balance: i64, limit: i64, kind: TransactionType, value: i64) -> Result<
    i64,
    Error,
> {
    match kind {
        TransactionType::Credit => if i64::MIN <= balance + value <= i64::MAX {
            Ok((balance + value) as i64)
        } else {
            Err(Error::ArithmeticOverflow)
        },
        TransactionType::Debit => if balance + limit < value {
            Err(Error::InsufficientLimit)
        } else if i64::MIN <= balance - value <= i64::MAX {
            Ok((balance - value) as i64)
        } else {
            Err(Error::ArithmeticOverflow)
        },
    }
}

/// The balance that the last entry of a ledger records, and zero for an
/// empty ledger.
pub open spec fn balance_of(ledger: Seq<(i64, Transaction)>) -> i64 {
    if ledger.len() == 0 {
        0
    } else {
        ledger.last().0
    }
}

/// An entry follows the rule after the balance `previous`: a credit has
/// added its value; a debit was covered by balance and limit, and has taken
/// its value off.
pub open spec fn entry_follows(previous: i64, entry: (i64, Transaction), limit: i64) -> bool {
    match entry.1.kind {
        TransactionType::Credit => entry.0 == previous + entry.1.value,
        TransactionType::Debit => previous + limit >= entry.1.value && entry.0 == previous
            - entry.1.value,
    }
}

/// Every entry of the ledger follows the rule after the balance of the entry
/// before it, the first one after a balance of zero.
pub open spec fn ledger_ok(ledger: Seq<(i64, Transaction)>, limit: i64) -> bool {
    forall|i: int|
        0 <= i < ledger.len() ==> entry_follows(
            balance_of(ledger.subrange(0, i)),
            #[trigger] ledger[i],
            limit,
        )
}

/// The ledger after `transaction` was put to it: one entry longer where the
/// rule accepts the transaction after the ledger's balance, and unchanged
/// where it refuses.
pub open spec fn ledger_after(
    ledger: Seq<(i64, Transaction)>,
    limit: i64,
    transaction: Transaction,
) -> Seq<(i64, Transaction)> {
    match settled(balance_of(ledger), limit, transaction.kind, transaction.value) {
        Ok(balance) => ledger.push((balance, transaction)),
        Err(_) => ledger,
    }
}

/// The ledger that an empty one becomes when the transactions are put to it
/// in order.
pub open spec fn ledger_of(limit: i64, transactions: Seq<Transaction>) -> Seq<(i64, Transaction)>
    decreases transactions.len(),
{
    if transactions.len() == 0 {
        Seq::empty()
    } else {
        ledger_after(ledger_of(limit, transactions.drop_last()), limit, transactions.last())
    }
}

/// The transactions of the last `RECENT` entries of a ledger, newest first.
pub open spec fn recent_entries(ledger: Seq<(i64, Transaction)>) -> Seq<Transaction> {
    Seq::new(
        if ledger.len() > RECENT {
            RECENT as nat
        } else {
            ledger.len()
        },
        |i: int| ledger[ledger.len() - 1 - i].1,
    )
}

/// `rows` are the last entries of the ledger, newest first: ten of them, or
/// all where the ledger has fewer.
pub open spec fn newest_first(
    ledger: Seq<(i64, Transaction)>,
    rows: Seq<(i64, Transaction)>,
) -> bool {
    &&& rows.len() == if ledger.len() > RECENT {
        RECENT as nat
    } else {
        ledger.len()
    }
    &&& forall|i: int| 0 <= i < rows.len() ==> #[trigger] rows[i] == ledger[ledger.len() - 1 - i]
}

/// The transactions of the first `RECENT` rows, in the order of the rows.
pub open spec fn recent_of(rows: Seq<(i64, Transaction)>) -> Seq<Transaction> {
    Seq::new(
        if rows.len() > RECENT {
            RECENT as nat
        } else {
            rows.len()
        },
        |i: int| rows[i].1,
    )
}

/// Applies the rule: the balance after `transaction` on an account with
/// balance `balance` and limit `limit`, or why the transaction is refused.
pub fn settle(balance: i64, limit: i64, transaction: &Transaction) -> (result: Result<i64, Error>)
    ensures
        result == settled(balance, limit, transaction.kind, transaction.value),
{
    match transaction.kind {
        TransactionType::Credit => match balance.checked_add(transaction.value) {
            Some(next) => Ok(next),
            None => Err(Error::ArithmeticOverflow),
        },
        TransactionType::Debit => {
            if (balance as i128) + (limit as i128) < transaction.value as i128 {
                Err(Error::InsufficientLimit)
            } else {
                match balance.checked_sub(transaction.value) {
                    Some(next) => Ok(next),
                    None => Err(Error::ArithmeticOverflow),
                }
            }
        },
    }
}

/// The transactions of `rows`, in the order of the rows.
pub open spec fn transactions_of(rows: Seq<(i64, Transaction)>) -> Seq<Transaction> {
    Seq::new(rows.len(), |i: int| rows[i].1)
}

/// What a statement shows of the last rows of a ledger, given newest first:
/// the balance of the first row, or zero where there is none, and the
/// transactions of the rows in their order.
pub fn statement(rows: Vec<(i64, Transaction)>) -> (shown: (i64, Vec<Transaction>))
    ensures
        shown.0 == if rows@.len() == 0 {
            0
        } else {
            rows@[0].0
        },
        shown.1@ == transactions_of(rows@),
{
    let mut rows = rows;
    let ghost all = rows@;
    let balance = if rows.len() > 0 {
        rows[0].0
    } else {
        0
    };
    let mut newest_last: Vec<Transaction> = Vec::new();
    while rows.len() > 0
        invariant
            rows@.len() + newest_last@.len() == all.len(),
            rows@ == all.subrange(0, rows@.len() as int),
            forall|i: int|
                0 <= i < newest_last@.len() ==> #[trigger] newest_last@[i] == all[all.len() - 1
                    - i].1,
        decreases rows.len(),
    {
        let row = rows.pop().unwrap();
        newest_last.push(row.1);
        assert(rows@ =~= all.subrange(0, rows@.len() as int));
    }
    let mut transactions: Vec<Transaction> = Vec::new();
    while newest_last.len() > 0
        invariant
            newest_last@.len() + transactions@.len() == all.len(),
            forall|i: int|
                0 <= i < newest_last@.len() ==> #[trigger] newest_last@[i] == all[all.len() - 1
                    - i].1,
            forall|i: int| 0 <= i < transactions@.len() ==> #[trigger] transactions@[i] == all[i].1,
        decreases newest_last.len(),
    {
        let transaction = newest_last.pop().unwrap();
        transactions.push(transaction);
    }
    assert(transactions@ =~= transactions_of(all));
    (balance, transactions)
}

/// An account: its limit, and a mirror of its ledger's latest balance and
/// of its most recent transactions, newest first.
#[derive(Debug)]
pub struct Account {
    limit: i64,
    balance: i64,
    transactions: RingBuffer<Transaction, 10>,
}

impl Account {
    /// How far below zero the balance may go.
    pub closed spec fn limit_view(&self) -> i64 {
        self.limit
    }

    /// The latest balance.
    pub closed spec fn balance_view(&self) -> i64 {
        self.balance
    }

    /// The most recent transactions, newest first.
    pub closed spec fn recent(&self) -> Seq<Transaction> {
        self.transactions@
    }

    /// The mirror keeps no more transactions than it is meant to.
    pub closed spec fn wf(&self) -> bool {
        self.transactions.wf()
    }

    /// The mirror shows the ledger: its balance is the ledger's, and its
    /// transactions are those of the ledger's last ten entries.
    pub open spec fn mirrors(&self, ledger: Seq<(i64, Transaction)>) -> bool {
        &&& self.balance_view() == balance_of(ledger)
        &&& self.recent() == recent_entries(ledger)
    }

    /// The account whose ledger ends with `rows`, given newest first: its
    /// balance is that of the first row, or zero where there is none, and
    /// its recent transactions are those of the first ten rows. Where the
    /// rows are the last ten entries of a ledger, or all its entries, the
    /// mirror shows that ledger.
    pub fn with_rows(limit: i64, rows: Vec<(i64, Transaction)>) -> (account: Self)
        ensures
            account.wf(),
            account.limit_view() == limit,
            account.balance_view() == if rows@.len() == 0 {
                0
            } else {
                rows@[0].0
            },
            account.recent() == recent_of(rows@),
            forall|ledger: Seq<(i64, Transaction)>| #[trigger]
                newest_first(ledger, rows@) ==> account.mirrors(ledger),
    {
        let mut rows = rows;
        let ghost all = rows@;
        assert forall|ledger: Seq<(i64, Transaction)>| #[trigger]
            newest_first(ledger, all) implies recent_of(all) == recent_entries(ledger)
            && balance_of(ledger) == if all.len() == 0 {
            0
        } else {
            all[0].0
        } by {
            lemma_recent_rows(ledger, all);
        }
        let balance = if rows.len() > 0 {
            rows[0].0
        } else {
            0
        };
        rows.truncate(RECENT);
        let ghost kept = rows@;
        let mut transactions: RingBuffer<Transaction, 10> = RingBuffer::new();
        while rows.len() > 0
            invariant
                transactions.wf(),
                kept.len() <= RECENT,
                rows@.len() + transactions@.len() == kept.len(),
                rows@ == kept.subrange(0, rows@.len() as int),
                transactions@ == Seq::new(
                    transactions@.len(),
                    |i: int| kept[rows@.len() + i].1,
                ),
            decreases rows.len(),
        {
            let row = rows.pop().unwrap();
            transactions.push_front(row.1);
            assert(rows@ =~= kept.subrange(0, rows@.len() as int));
            assert(transactions@ =~= Seq::new(
                transactions@.len(),
                |i: int| kept[rows@.len() + i].1,
            ));
        }
        assert(transactions@ =~= recent_of(all));
        Account { limit, balance, transactions }
    }

    /// The balance that `transaction` would leave, or why it is refused,
    /// going by the mirrored balance. Nothing is changed: the entry is to be
    /// appended to the log first, and `record` called once that is done.
    pub fn transact(&self, transaction: &Transaction) -> (result: Result<i64, Error>)
        ensures
            result == settled(
                self.balance_view(),
                self.limit_view(),
                transaction.kind,
                transaction.value,
            ),
    {
        settle(self.balance, self.limit, transaction)
    }

    /// Takes an appended entry into the mirror: `balance` becomes the latest
    /// balance, and `transaction` the most recent transaction, the oldest of
    /// ten leaving. A mirror that showed the ledger before the entry shows
    /// the ledger with the entry.
    pub fn record(&mut self, balance: i64, transaction: Transaction)
        requires
            old(self).wf(),
        ensures
            final(self).wf(),
            final(self).limit_view() == old(self).limit_view(),
            final(self).balance_view() == balance,
            final(self).recent() == pushed_front(old(self).recent(), transaction, RECENT as nat),
            forall|ledger: Seq<(i64, Transaction)>| #[trigger]
                old(self).mirrors(ledger) ==> final(self).mirrors(
                    ledger.push((balance, transaction)),
                ),
    {
        self.balance = balance;
        self.transactions.push_front(transaction);
        assert forall|ledger: Seq<(i64, Transaction)>| #[trigger]
            old(self).mirrors(ledger) implies self.mirrors(
            ledger.push((balance, transaction)),
        ) by {
            lemma_recent_entries_push(ledger, (balance, transaction));
        }
    }

    /// How far below zero the balance may go.
    pub fn limit(&self) -> (limit: i64)
        ensures
            limit == self.limit_view(),
    {
        self.limit
    }

    /// The latest balance.
    pub fn balance(&self) -> (balance: i64)
        ensures
            balance == self.balance_view(),
    {
        self.balance
    }

    /// The most recent transactions, newest first.
    pub fn transactions(&self) -> (transactions: &RingBuffer<Transaction, 10>)
        ensures
            transactions@ == self.recent(),
            transactions.wf() == self.wf(),
    {
        &self.transactions
    }
}

/// The ledger follows the rule. Whatever transactions are put to an empty
/// ledger, the entries of those that were accepted follow the rule: each
/// credit has added its value to the balance before it, and each debit was
/// covered by that balance and the limit and has taken its value off.
pub proof fn lemma_ledger_invariant(limit: i64, transactions: Seq<Transaction>)
    ensures
        ledger_ok(ledger_of(limit, transactions), limit),
    decreases transactions.len(),
{
    if transactions.len() > 0 {
        lemma_ledger_invariant(limit, transactions.drop_last());
        lemma_ledger_step(
            ledger_of(limit, transactions.drop_last()),
            limit,
            transactions.last(),
        );
    }
}

/// One step of the ledger. A ledger that follows the rule still follows it
/// after a transaction was put to it, whoever put it: the new entry is made
/// from the ledger's last balance alone.
pub proof fn lemma_ledger_step(
    ledger: Seq<(i64, Transaction)>,
    limit: i64,
    transaction: Transaction,
)
    requires
        ledger_ok(ledger, limit),
    ensures
        ledger_ok(ledger_after(ledger, limit, transaction), limit),
{
    let next = ledger_after(ledger, limit, transaction);
    assert forall|i: int| 0 <= i < next.len() implies entry_follows(
        balance_of(next.subrange(0, i)),
        #[trigger] next[i],
        limit,
    ) by {
        if i < ledger.len() {
            assert(next.subrange(0, i) =~= ledger.subrange(0, i));
            assert(next[i] == ledger[i]);
        } else {
            assert(next.subrange(0, i) =~= ledger);
        }
    }
}

/// The ledger on a log. Let the rows of a log file be the entries of a
/// ledger that follows the rule, each encoded by `encode`, and let a writer
/// whose memory fits the file put a transaction to it: it takes the balance
/// of the last row, applies the rule, and appends the encoded entry where
/// the rule accepts. Then the rows of the file are again the encoded entries
/// of a ledger that follows the rule, and the writer's memory fits the file.
/// This holds of every writer whose memory fits the file when it begins,
/// and so of any number of writers that take turns and each begin from the
/// file as the last one left it.
pub proof fn lemma_transaction_on_log(
    log: Log,
    stride: nat,
    ledger: Seq<(i64, Transaction)>,
    limit: i64,
    transaction: Transaction,
    encode: spec_fn((i64, Transaction)) -> Seq<u8>,
)
    requires
        log.consistent(stride),
        ledger_ok(ledger, limit),
        forward_rows(log.file, stride) == ledger.map_values(encode),
        settled(balance_of(ledger), limit, transaction.kind, transaction.value) matches Ok(
            balance,
        ) ==> takes(log.tail, encode((balance, transaction)), stride),
    ensures
        ledger_ok(ledger_after(ledger, limit, transaction), limit),
        match settled(balance_of(ledger), limit, transaction.kind, transaction.value) {
            Ok(balance) => {
                let next = log.append(encode((balance, transaction)), stride);
                &&& next.consistent(stride)
                &&& forward_rows(next.file, stride) == ledger_after(
                    ledger,
                    limit,
                    transaction,
                ).map_values(encode)
            },
            Err(_) => ledger_after(ledger, limit, transaction) == ledger,
        },
{
    lemma_ledger_step(ledger, limit, transaction);
    match settled(balance_of(ledger), limit, transaction.kind, transaction.value) {
        Ok(balance) => {
            let entry = (balance, transaction);
            lemma_append_adds_row(log, encode(entry), stride);
            assert(ledger.push(entry).map_values(encode) =~= ledger.map_values(encode).push(
                encode(entry),
            ));
        },
        Err(_) => {},
    }
}

/// The most recent transactions after one more entry are the new
/// transaction and then those from before, without the oldest of ten.
pub proof fn lemma_recent_entries_push(ledger: Seq<(i64, Transaction)>, entry: (i64, Transaction))
    ensures
        recent_entries(ledger.push(entry)) == pushed_front(
            recent_entries(ledger),
            entry.1,
            RECENT as nat,
        ),
{
    assert(recent_entries(ledger.push(entry)) =~= pushed_front(
        recent_entries(ledger),
        entry.1,
        RECENT as nat,
    ));
}

/// The last entries of a ledger, newest first, hold the ledger's balance in
/// their first entry and its most recent transactions in their order.
pub proof fn lemma_recent_rows(ledger: Seq<(i64, Transaction)>, rows: Seq<(i64, Transaction)>)
    requires
        newest_first(ledger, rows),
    ensures
        recent_of(rows) == recent_entries(ledger),
        balance_of(ledger) == if rows.len() == 0 {
            0
        } else {
            rows[0].0
        },
{
    assert(recent_of(rows) =~= recent_entries(ledger));
    if rows.len() > 0 {
        assert(rows[0] == ledger[ledger.len() - 1]);
    }
}

} // verus!
