use scanflow::target::{Account, State};

#[test]
fn account_balance_follows_the_access_pattern() {
    let mut acc = Account::new("alice".to_string(), 100);
    for _ in 0..9 {
        acc.do_operation();
    }
    assert_eq!(acc.money, 91);
    assert_eq!(acc.accessed, 9);
    acc.do_operation();
    assert_eq!(acc.money, 102);
    assert_eq!(acc.accessed, 10);
}

#[test]
fn tick_advances_counter_and_account() {
    let mut st = State::new(Account::new("bob".to_string(), 100));
    st.tick();
    assert_eq!(st.tick, 1);
    assert_eq!(st.account.money, 99);
    assert_eq!(st.account.accessed, 1);
}
