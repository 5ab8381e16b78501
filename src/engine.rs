use vstd::prelude::*;
use std::collections::HashMap;
use vstd::std_specs::hash::spec_hash_map_iter;
use vstd::std_specs::iter::IteratorSpec;
use crate::transaction::{Amount, Kind, Transaction};

verus! {

broadcast use vstd::std_specs::hash::group_hash_axioms;

/// Whether an integer can be held by an `Amount`.
pub open spec fn in_amount_range(x: int) -> bool {
    i64::MIN <= x <= i64::MAX
}

/// Balances of one client.
#[derive(Clone, Copy, Debug, PartialEq, Eq, Structural)]
pub struct Account {
    pub available: Amount,
    pub held: Amount,
    pub locked: bool,
}

impl Account {
    /// The account a client starts with: no funds, not locked.
    pub open spec fn empty() -> Account {
        Account { available: 0, held: 0, locked: false }
    }

    /// Total funds of the client.
    pub open spec fn total_spec(self) -> int {
        self.available + self.held
    }

    /// Total funds, `available + held`, when an `Amount` can hold it.
    pub fn total(&self) -> (r: Option<Amount>)
        ensures
            r == (if in_amount_range(self.total_spec()) {
                Some(self.total_spec() as i64)
            } else {
                None::<Amount>
            }),
    {
        self.available.checked_add(self.held)
    }
}

impl Default for Account {
    fn default() -> (r: Account)
        ensures
            r == Account::empty(),
    {
        Account { available: 0, held: 0, locked: false }
    }
}

/// Where a deposit stands in its dispute lifecycle.
#[derive(Clone, Copy, Debug, PartialEq, Eq, Structural)]
pub enum DepositStatus {
    Posted,
    Disputed,
}

/// What the ledger remembers of a deposit, keyed by its transaction id.
#[derive(Clone, Copy, Debug, PartialEq, Eq, Structural)]
pub struct DepositRecord {
    pub client: u16,
    pub amount: Amount,
    pub status: DepositStatus,
}

/// Whether a record changed the ledger or was ignored.
#[derive(Clone, Copy, Debug, PartialEq, Eq, Structural)]
pub enum Outcome {
    Applied,
    Ignored,
}

/// The abstract state of the ledger: accounts by client id and deposits by
/// transaction id.
pub ghost struct Ledger {
    pub accounts: Map<u16, Account>,
    pub deposits: Map<u32, DepositRecord>,
}

impl Ledger {
    pub open spec fn empty() -> Ledger {
        Ledger { accounts: Map::empty(), deposits: Map::empty() }
    }

    /// The account of `c`, or the empty one for an unseen client.
    pub open spec fn account_or_empty(self, c: u16) -> Account {
        if self.accounts.contains_key(c) {
            self.accounts[c]
        } else {
            Account::empty()
        }
    }

    /// A deposit is applied when it has an amount, the account is not locked and
    /// the new available balance is an `Amount`.
    pub open spec fn deposit_applies(self, t: Transaction) -> bool {
        let a = self.account_or_empty(t.client);
        &&& t.amount is Some
        &&& !a.locked
        &&& in_amount_range(a.available + t.amount->0)
    }

    /// A withdrawal is applied to an existing, unlocked account with enough
    /// available funds, when the new available balance is an `Amount`.
    pub open spec fn withdrawal_applies(self, t: Transaction) -> bool {
        let a = self.accounts[t.client];
        &&& t.amount is Some
        &&& self.accounts.contains_key(t.client)
        &&& !a.locked
        &&& a.available >= t.amount->0
        &&& in_amount_range(a.available - t.amount->0)
    }

    /// A dispute is applied to a posted deposit whose owner exists and is not
    /// locked, when the new balances are `Amount`s.
    pub open spec fn dispute_applies(self, t: Transaction) -> bool {
        let d = self.deposits[t.tx];
        let a = self.accounts[d.client];
        &&& self.deposits.contains_key(t.tx)
        &&& d.status == DepositStatus::Posted
        &&& self.accounts.contains_key(d.client)
        &&& !a.locked
        &&& in_amount_range(a.available - d.amount)
        &&& in_amount_range(a.held + d.amount)
    }

    /// A resolve is applied to a disputed deposit whose owner exists, when the
    /// new balances are `Amount`s.
    pub open spec fn resolve_applies(self, t: Transaction) -> bool {
        let d = self.deposits[t.tx];
        let a = self.accounts[d.client];
        &&& self.deposits.contains_key(t.tx)
        &&& d.status == DepositStatus::Disputed
        &&& self.accounts.contains_key(d.client)
        &&& in_amount_range(a.held - d.amount)
        &&& in_amount_range(a.available + d.amount)
    }

    /// A chargeback is applied to a disputed deposit whose owner exists, when
    /// the new held balance is an `Amount`.
    pub open spec fn charge_back_applies(self, t: Transaction) -> bool {
        let d = self.deposits[t.tx];
        let a = self.accounts[d.client];
        &&& self.deposits.contains_key(t.tx)
        &&& d.status == DepositStatus::Disputed
        &&& self.accounts.contains_key(d.client)
        &&& in_amount_range(a.held - d.amount)
    }

    /// Whether processing `t` changes the ledger.
    pub open spec fn applies(self, t: Transaction) -> bool {
        match t.kind {
            Kind::Deposit => self.deposit_applies(t),
            Kind::Withdrawal => self.withdrawal_applies(t),
            Kind::Dispute => self.dispute_applies(t),
            Kind::Resolve => self.resolve_applies(t),
            Kind::ChargeBack => self.charge_back_applies(t),
        }
    }

    /// The effect of `t`, for a record that applies.
    pub open spec fn effect(self, t: Transaction) -> Ledger {
        match t.kind {
            Kind::Deposit => {
                let a = self.account_or_empty(t.client);
                let amount = t.amount->0;
                Ledger {
                    accounts: self.accounts.insert(
                        t.client,
                        Account { available: (a.available + amount) as i64, ..a },
                    ),
                    deposits: self.deposits.insert(
                        t.tx,
                        DepositRecord { client: t.client, amount, status: DepositStatus::Posted },
                    ),
                }
            },
            Kind::Withdrawal => {
                let a = self.accounts[t.client];
                Ledger {
                    accounts: self.accounts.insert(
                        t.client,
                        Account { available: (a.available - t.amount->0) as i64, ..a },
                    ),
                    ..self
                }
            },
            Kind::Dispute => {
                let d = self.deposits[t.tx];
                let a = self.accounts[d.client];
                Ledger {
                    accounts: self.accounts.insert(
                        d.client,
                        Account {
                            available: (a.available - d.amount) as i64,
                            held: (a.held + d.amount) as i64,
                            ..a
                        },
                    ),
                    deposits: self.deposits.insert(
                        t.tx,
                        DepositRecord { status: DepositStatus::Disputed, ..d },
                    ),
                }
            },
            Kind::Resolve => {
                let d = self.deposits[t.tx];
                let a = self.accounts[d.client];
                Ledger {
                    accounts: self.accounts.insert(
                        d.client,
                        Account {
                            available: (a.available + d.amount) as i64,
                            held: (a.held - d.amount) as i64,
                            ..a
                        },
                    ),
                    deposits: self.deposits.remove(t.tx),
                }
            },
            Kind::ChargeBack => {
                let d = self.deposits[t.tx];
                let a = self.accounts[d.client];
                Ledger {
                    accounts: self.accounts.insert(
                        d.client,
                        Account { held: (a.held - d.amount) as i64, locked: true, ..a },
                    ),
                    deposits: self.deposits.remove(t.tx),
                }
            },
        }
    }

    /// The ledger after processing `t`: its effect if it applies, else unchanged.
    pub open spec fn step(self, t: Transaction) -> Ledger {
        if self.applies(t) {
            self.effect(t)
        } else {
            self
        }
    }
}

/// The ledger engine: applies transaction records one at a time, in order.
pub struct Engine {
    accounts: HashMap<u16, Account>,
    deposits: HashMap<u32, DepositRecord>,
}

impl View for Engine {
    type V = Ledger;

    closed spec fn view(&self) -> Ledger {
        Ledger { accounts: self.accounts@, deposits: self.deposits@ }
    }
}

impl Engine {
    /// An engine with no accounts and no deposits.
    pub fn new() -> (r: Engine)
        ensures
            r@ == Ledger::empty(),
    {
        let r = Engine { accounts: HashMap::new(), deposits: HashMap::new() };
        proof {
            assert(r@.accounts == Map::<u16, Account>::empty());
        }
        r
    }

    /// Every account with its client id, each client once, in no particular
    /// order.
    pub fn snapshot(&self) -> (r: Vec<(u16, Account)>)
        ensures
            r@.len() == self@.accounts.dom().len(),
            forall|i: int|
                0 <= i < r@.len() ==> self@.accounts.contains_key(#[trigger] r@[i].0)
                    && self@.accounts[r@[i].0] == r@[i].1,
            forall|c: u16|
                #[trigger] self@.accounts.contains_key(c) ==> exists|i: int|
                    0 <= i < r@.len() && r@[i] == (c, self@.accounts[c]),
            forall|i: int, j: int| 0 <= i < j < r@.len() ==> r@[i].0 != r@[j].0,
    {
        let mut r: Vec<(u16, Account)> = Vec::new();
        for (c, a) in it: self.accounts.iter()
            invariant
                r@.len() == it.index(),
                forall|i: int| 0 <= i < it.index() ==> r@[i] == (*it.seq()[i].0, *it.seq()[i].1),
                it.seq() == spec_hash_map_iter(&self.accounts).remaining(),
        {
            r.push((*c, *a));
        }
        proof {
            let v = spec_hash_map_iter(&self.accounts).remaining();
            assert(v.no_duplicates());
            assert forall|i: int, j: int| 0 <= i < j < r@.len() implies r@[i].0 != r@[j].0 by {
                assert(self@.accounts.contains_key(r@[i].0));
                assert(self@.accounts.contains_key(r@[j].0));
                if r@[i].0 == r@[j].0 {
                    assert(v[i] == v[j]);
                }
            }
            assert forall|c: u16| #[trigger] self@.accounts.contains_key(c) implies exists|i: int|
                0 <= i < r@.len() && r@[i] == (c, self@.accounts[c]) by {
                assert(self.accounts@.contains_key(c));
                assert(v.contains((&c, &self.accounts@[c])));
                let i = choose|i: int| 0 <= i < v.len() && v[i] == (&c, &self.accounts@[c]);
                assert(r@[i] == (c, self@.accounts[c]));
            }
        }
        r
    }

    /// The account of `client`, if the ledger has one.
    pub fn account(&self, client: u16) -> (r: Option<Account>)
        ensures
            r == (if self@.accounts.contains_key(client) {
                Some(self@.accounts[client])
            } else {
                None::<Account>
            }),
    {
        match self.accounts.get(&client) {
            Some(a) => Some(*a),
            None => None,
        }
    }

    /// The deposit recorded under transaction id `tx`, if any.
    pub fn deposit_record(&self, tx: u32) -> (r: Option<DepositRecord>)
        ensures
            r == (if self@.deposits.contains_key(tx) {
                Some(self@.deposits[tx])
            } else {
                None::<DepositRecord>
            }),
    {
        match self.deposits.get(&tx) {
            Some(d) => Some(*d),
            None => None,
        }
    }

    /// Number of deposits that can still be disputed, resolved or charged back.
    pub fn deposit_count(&self) -> (r: usize)
        ensures
            r == self@.deposits.dom().len(),
    {
        self.deposits.len()
    }

    fn deposit(&mut self, t: Transaction) -> (r: Outcome)
        requires
            t.kind == Kind::Deposit,
        ensures
            final(self)@ == old(self)@.step(t),
            r == Outcome::Applied <==> old(self)@.applies(t),
    {
        let amount = match t.amount {
            Some(a) => a,
            None => return Outcome::Ignored,
        };
        let acc = match self.accounts.get(&t.client) {
            Some(a) => *a,
            None => Account::default(),
        };
        if acc.locked {
            return Outcome::Ignored;
        }
        let available = match acc.available.checked_add(amount) {
            Some(v) => v,
            None => return Outcome::Ignored,
        };
        self.accounts.insert(t.client, Account { available, ..acc });
        self.deposits.insert(
            t.tx,
            DepositRecord { client: t.client, amount, status: DepositStatus::Posted },
        );
        Outcome::Applied
    }

    fn withdraw(&mut self, t: Transaction) -> (r: Outcome)
        requires
            t.kind == Kind::Withdrawal,
        ensures
            final(self)@ == old(self)@.step(t),
            r == Outcome::Applied <==> old(self)@.applies(t),
    {
        let amount = match t.amount {
            Some(a) => a,
            None => return Outcome::Ignored,
        };
        let acc = match self.accounts.get(&t.client) {
            Some(a) => *a,
            None => return Outcome::Ignored,
        };
        if acc.locked || acc.available < amount {
            return Outcome::Ignored;
        }
        let available = match acc.available.checked_sub(amount) {
            Some(v) => v,
            None => return Outcome::Ignored,
        };
        self.accounts.insert(t.client, Account { available, ..acc });
        Outcome::Applied
    }

    fn dispute(&mut self, t: Transaction) -> (r: Outcome)
        requires
            t.kind == Kind::Dispute,
        ensures
            final(self)@ == old(self)@.step(t),
            r == Outcome::Applied <==> old(self)@.applies(t),
    {
        let deposit = match self.deposits.get(&t.tx) {
            Some(d) => *d,
            None => return Outcome::Ignored,
        };
        if deposit.status != DepositStatus::Posted {
            return Outcome::Ignored;
        }
        let acc = match self.accounts.get(&deposit.client) {
            Some(a) => *a,
            None => return Outcome::Ignored,
        };
        if acc.locked {
            return Outcome::Ignored;
        }
        let available = match acc.available.checked_sub(deposit.amount) {
            Some(v) => v,
            None => return Outcome::Ignored,
        };
        let held = match acc.held.checked_add(deposit.amount) {
            Some(v) => v,
            None => return Outcome::Ignored,
        };
        self.accounts.insert(deposit.client, Account { available, held, ..acc });
        self.deposits.insert(t.tx, DepositRecord { status: DepositStatus::Disputed, ..deposit });
        Outcome::Applied
    }

    fn resolve(&mut self, t: Transaction) -> (r: Outcome)
        requires
            t.kind == Kind::Resolve,
        ensures
            final(self)@ == old(self)@.step(t),
            r == Outcome::Applied <==> old(self)@.applies(t),
    {
        let deposit = match self.deposits.get(&t.tx) {
            Some(d) => *d,
            None => return Outcome::Ignored,
        };
        if deposit.status != DepositStatus::Disputed {
            return Outcome::Ignored;
        }
        let acc = match self.accounts.get(&deposit.client) {
            Some(a) => *a,
            None => return Outcome::Ignored,
        };
        let held = match acc.held.checked_sub(deposit.amount) {
            Some(v) => v,
            None => return Outcome::Ignored,
        };
        let available = match acc.available.checked_add(deposit.amount) {
            Some(v) => v,
            None => return Outcome::Ignored,
        };
        self.accounts.insert(deposit.client, Account { available, held, ..acc });
        self.deposits.remove(&t.tx);
        Outcome::Applied
    }

    fn charge_back(&mut self, t: Transaction) -> (r: Outcome)
        requires
            t.kind == Kind::ChargeBack,
        ensures
            final(self)@ == old(self)@.step(t),
            r == Outcome::Applied <==> old(self)@.applies(t),
    {
        let deposit = match self.deposits.get(&t.tx) {
            Some(d) => *d,
            None => return Outcome::Ignored,
        };
        if deposit.status != DepositStatus::Disputed {
            return Outcome::Ignored;
        }
        let acc = match self.accounts.get(&deposit.client) {
            Some(a) => *a,
            None => return Outcome::Ignored,
        };
        let held = match acc.held.checked_sub(deposit.amount) {
            Some(v) => v,
            None => return Outcome::Ignored,
        };
        self.accounts.insert(deposit.client, Account { held, locked: true, ..acc });
        self.deposits.remove(&t.tx);
        Outcome::Applied
    }

    /// Applies one record to the ledger, or ignores it when one of the rules of
    /// its kind does not hold. Ignoring is a normal outcome, never an error.
    pub fn process(&mut self, record: Transaction) -> (r: Outcome)
        requires
        ensures
            final(self)@ == old(self)@.step(record),
            r == Outcome::Applied <==> old(self)@.applies(record),
    {
        match record.kind {
            Kind::Deposit => self.deposit(record),
            Kind::Withdrawal => self.withdraw(record),
            Kind::Dispute => self.dispute(record),
            Kind::Resolve => self.resolve(record),
            Kind::ChargeBack => self.charge_back(record),
        }
    }
}

impl Ledger {
    /// The ledger after processing `ts` in order.
    pub open spec fn run(self, ts: Seq<Transaction>) -> Ledger
        decreases ts.len(),
    {
        if ts.len() == 0 {
            self
        } else {
            self.step(ts[0]).run(ts.drop_first())
        }
    }

    /// Transaction ids of the deposits of client `c` that are under dispute.
    pub open spec fn disputed_of(self, c: u16) -> Set<u32> {
        Set::new(
            |tx: u32|
                self.deposits.contains_key(tx) && self.deposits[tx].client == c
                    && self.deposits[tx].status == DepositStatus::Disputed,
        )
    }
}

/// Whether `t` is a chargeback of one of the transaction ids in `s`.
pub open spec fn charges_back_one_of(t: Transaction, s: Set<u32>) -> bool {
    t.kind == Kind::ChargeBack && s.contains(t.tx)
}

proof fn lemma_locked_step(l: Ledger, t: Transaction, c: u16)
    requires
        l.accounts.contains_key(c),
        l.accounts[c].locked,
        !charges_back_one_of(t, l.disputed_of(c)),
    ensures
        l.step(t).accounts.contains_key(c),
        l.step(t).accounts[c].locked,
        l.step(t).accounts[c].total_spec() == l.accounts[c].total_spec(),
        l.step(t).disputed_of(c).subset_of(l.disputed_of(c)),
{
    let n = l.step(t);
    assert forall|tx: u32| n.disputed_of(c).contains(tx) implies l.disputed_of(c).contains(tx) by {
        if l.applies(t) && t.kind == Kind::Dispute && tx == t.tx {
            assert(l.deposits[t.tx].client == c);
        }
    }
}

/// Once an account is locked its total and its lock never change, whatever
/// records follow, except through a chargeback of a deposit of that client
/// that was already under dispute when the sequence began.
pub proof fn lemma_locked_account_frozen(l: Ledger, ts: Seq<Transaction>, c: u16)
    requires
        l.accounts.contains_key(c),
        l.accounts[c].locked,
        forall|i: int| 0 <= i < ts.len() ==> !charges_back_one_of(#[trigger] ts[i], l.disputed_of(c)),
    ensures
        l.run(ts).accounts.contains_key(c),
        l.run(ts).accounts[c].locked,
        l.run(ts).accounts[c].total_spec() == l.accounts[c].total_spec(),
    decreases ts.len(),
{
    if ts.len() > 0 {
        lemma_locked_step(l, ts[0], c);
        let n = l.step(ts[0]);
        let rest = ts.drop_first();
        assert forall|i: int| 0 <= i < rest.len() implies !charges_back_one_of(
            #[trigger] rest[i],
            n.disputed_of(c),
        ) by {
            assert(rest[i] == ts[i + 1]);
            assert(!charges_back_one_of(ts[i + 1], l.disputed_of(c)));
        }
        lemma_locked_account_frozen(n, rest, c);
    }
}

/// A resolve or chargeback of a transaction id that has no deposit record
/// changes nothing.
pub proof fn lemma_settle_unknown_is_noop(l: Ledger, t: Transaction)
    requires
        t.kind == Kind::Resolve || t.kind == Kind::ChargeBack,
        !l.deposits.contains_key(t.tx),
    ensures
        l.step(t) == l,
{
}

/// Once a resolve or chargeback has settled a deposit, a further resolve or
/// chargeback of the same transaction id changes nothing.
pub proof fn lemma_settle_twice_is_noop(l: Ledger, first: Transaction, second: Transaction)
    requires
        first.kind == Kind::Resolve || first.kind == Kind::ChargeBack,
        second.kind == Kind::Resolve || second.kind == Kind::ChargeBack,
        second.tx == first.tx,
        l.applies(first),
    ensures
        !l.step(first).deposits.contains_key(first.tx),
        l.step(first).step(second) == l.step(first),
{
    lemma_settle_unknown_is_noop(l.step(first), second);
}

} // verus!
