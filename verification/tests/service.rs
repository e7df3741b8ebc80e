use espora::service::{
    limit_of, statement_status, transaction_status, NOT_FOUND, OK, UNPROCESSABLE_ENTITY,
};

#[test]
fn five_accounts_with_their_limits() {
    assert_eq!(None, limit_of(0));
    assert_eq!(Some(100_000), limit_of(1));
    assert_eq!(Some(80_000), limit_of(2));
    assert_eq!(Some(1_000_000), limit_of(3));
    assert_eq!(Some(10_000_000), limit_of(4));
    assert_eq!(Some(500_000), limit_of(5));
    assert_eq!(None, limit_of(6));
    assert_eq!(None, limit_of(255));
    assert_eq!(5, (0..=u8::MAX).filter(|id| limit_of(*id).is_some()).count());
}

#[test]
fn requests_are_answered_by_status() {
    assert_eq!(200, OK);
    assert_eq!(404, NOT_FOUND);
    assert_eq!(422, UNPROCESSABLE_ENTITY);
    assert_eq!(200, transaction_status(true, true));
    assert_eq!(422, transaction_status(true, false));
    assert_eq!(404, transaction_status(false, false));
    assert_eq!(404, transaction_status(false, true));
    assert_eq!(200, statement_status(true));
    assert_eq!(404, statement_status(false));
}
