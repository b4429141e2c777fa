//! The sample target state the toolkit is exercised against: a small
//! mutable object graph whose fields move in a known pattern, so that scans
//! and offset chains have something deterministic to find.
use vstd::prelude::*;

verus! {

/// An account whose balance drifts down and periodically jumps up.
pub struct Account {
    pub name: String,
    pub money: i64,
    pub accessed: usize,
}

impl Account {
    /// One access: the balance loses one on ordinary accesses and gains
    /// eleven on every tenth.
    pub fn do_operation(&mut self)
        requires
            old(self).accessed < usize::MAX,
            (old(self).accessed + 1) % 10 != 0 ==> old(self).money > i64::MIN,
            (old(self).accessed + 1) % 10 == 0 ==> old(self).money <= i64::MAX - 11,
        ensures
            final(self).accessed == old(self).accessed + 1,
            final(self).name == old(self).name,
            final(self).money == if (old(self).accessed + 1) % 10 != 0 {
                old(self).money - 1
            } else {
                old(self).money + 11
            },
    {
        self.accessed = self.accessed + 1;
        if (self.accessed % 10) != 0 {
            self.money = self.money - 1;
        } else {
            self.money = self.money + 11;
        }
    }

    /// A fresh account with the given name and opening balance.
    pub fn new(name: String, money: i64) -> (r: Account)
        ensures
            r.name == name,
            r.money == money,
            r.accessed == 0,
    {
        Account { name, money, accessed: 0 }
    }
}

/// The global state of the sample target: a tick counter and the account
/// it advances.
pub struct State {
    pub tick: usize,
    pub account: Box<Account>,
}

impl State {
    /// One tick: the counter advances and the account is accessed once.
    pub fn tick(&mut self)
        requires
            old(self).tick < usize::MAX,
            old(self).account.accessed < usize::MAX,
            (old(self).account.accessed + 1) % 10 != 0 ==> old(self).account.money > i64::MIN,
            (old(self).account.accessed + 1) % 10 == 0 ==> old(self).account.money <= i64::MAX
                - 11,
        ensures
            final(self).tick == old(self).tick + 1,
            final(self).account.accessed == old(self).account.accessed + 1,
            final(self).account.name == old(self).account.name,
            final(self).account.money == if (old(self).account.accessed + 1) % 10 != 0 {
                old(self).account.money - 1
            } else {
                old(self).account.money + 11
            },
    {
        self.tick = self.tick + 1;
        self.account.do_operation();
    }

    /// A fresh state at tick zero.
    pub fn new(account: Account) -> (r: State)
        ensures
            r.tick == 0,
            r.account == account,
    {
        State { tick: 0, account: Box::new(account) }
    }
}

} // verus!
