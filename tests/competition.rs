use prize_pool::competition::{CompetitionContract, Payment, Phase, PoolError};

fn s(x: &str) -> String {
    x.to_string()
}

fn pool(fee: i128, schedule: Vec<u32>, deadline: u64, min: u32) -> CompetitionContract {
    CompetitionContract::initialize(false, s("admin"), fee, schedule, deadline, min, s("asset"))
        .unwrap()
}

fn paid(ps: &[Payment]) -> Vec<(String, i128)> {
    ps.iter().map(|p| (p.to.clone(), p.amount)).collect()
}

#[test]
fn initialize_starts_open_and_empty() {
    let c = pool(100, vec![6000, 3000, 1000], 50, 3);
    assert_eq!(c.state, Phase::Open);
    assert_eq!(c.pool_balance, 0);
    assert_eq!(c.participant_count(), 0);
    assert_eq!(c.entry_fee, 100);
    assert_eq!(c.payout_schedule, vec![6000, 3000, 1000]);
}

#[test]
fn initialize_twice_fails() {
    let r = CompetitionContract::initialize(true, s("admin"), 100, vec![], 0, 0, s("asset"));
    assert_eq!(r.err(), Some(PoolError::AlreadyInitialized));
}

#[test]
fn initialize_rejects_bad_config() {
    let r = CompetitionContract::initialize(false, s("a"), 0, vec![], 0, 0, s("t"));
    assert_eq!(r.err(), Some(PoolError::InvalidConfig));
    let r = CompetitionContract::initialize(false, s("a"), 10, vec![6000, 10001], 0, 0, s("t"));
    assert_eq!(r.err(), Some(PoolError::InvalidConfig));
    let r = CompetitionContract::initialize(false, s("a"), -5, vec![6000], 0, 0, s("t"));
    assert_eq!(r.err(), Some(PoolError::InvalidConfig));
    let r = CompetitionContract::initialize(false, s("a"), 10, vec![6000, 4000], 0, 0, s("t"));
    assert!(r.is_ok());
}

#[test]
fn initialize_accepts_schedule_above_one_whole() {
    let c = pool(100, vec![6000, 5000], 50, 3);
    assert_eq!(c.payout_schedule, vec![6000, 5000]);
    assert_eq!(c.state, Phase::Open);
    let c = pool(100, vec![10000, 10000, 10000], 50, 3);
    assert_eq!(c.pool_balance, 0);
}

#[test]
fn join_collects_fee_and_registers() {
    let mut c = pool(100, vec![10000], 50, 3);
    assert_eq!(c.join(s("pa"), s("alice")), Ok(100));
    assert_eq!(c.join(s("pb"), s("bob")), Ok(100));
    assert_eq!(c.pool_balance, 200);
    assert_eq!(c.participant_count(), 2);
    assert_eq!(c.registry[1].handle, "bob");
    assert_eq!(c.registry[1].principal, "pb");
}

#[test]
fn join_duplicate_handle_changes_nothing() {
    let mut c = pool(100, vec![10000], 50, 3);
    c.join(s("pa"), s("alice")).unwrap();
    assert_eq!(c.join(s("pz"), s("alice")), Err(PoolError::DuplicateHandle));
    assert_eq!(c.pool_balance, 100);
    assert_eq!(c.participant_count(), 1);
    assert_eq!(c.registry[0].principal, "pa");
}

#[test]
fn join_overflowing_pool_fails() {
    let mut c = pool(i128::MAX, vec![10000], 50, 3);
    c.join(s("pa"), s("alice")).unwrap();
    assert_eq!(c.join(s("pb"), s("bob")), Err(PoolError::PoolOverflow));
    assert_eq!(c.pool_balance, i128::MAX);
    assert_eq!(c.participant_count(), 1);
}

#[test]
fn withdraw_returns_fee() {
    let mut c = pool(100, vec![10000], 50, 3);
    c.join(s("pa"), s("alice")).unwrap();
    c.join(s("pb"), s("bob")).unwrap();
    let p = c.withdraw(s("pa")).unwrap();
    assert_eq!((p.to.as_str(), p.amount), ("pa", 100));
    assert_eq!(c.pool_balance, 100);
    assert_eq!(c.participant_count(), 1);
    assert_eq!(c.registry[0].handle, "bob");
}

#[test]
fn withdraw_unknown_principal_fails() {
    let mut c = pool(100, vec![10000], 50, 3);
    c.join(s("pa"), s("alice")).unwrap();
    assert_eq!(c.withdraw(s("pq")).err(), Some(PoolError::NotRegistered));
    assert_eq!(c.pool_balance, 100);
}

#[test]
fn pool_tracks_net_joins() {
    let mut c = pool(25, vec![10000], 50, 3);
    c.join(s("gann"), s("ann")).unwrap();
    c.join(s("gben"), s("ben")).unwrap();
    c.join(s("gcid"), s("cid")).unwrap();
    c.withdraw(s("gben")).unwrap();
    assert!(c.join(s("gdee"), s("ann")).is_err());
    assert!(c.withdraw(s("gben")).is_err());
    c.join(s("gben"), s("ben")).unwrap();
    c.withdraw(s("gann")).unwrap();
    assert_eq!(c.pool_balance, 25 * (4 - 2));
}

#[test]
fn distribute_pays_full_schedule() {
    let mut c = pool(100, vec![6000, 3000, 1000], 50, 3);
    c.join(s("pa"), s("A")).unwrap();
    c.join(s("pb"), s("B")).unwrap();
    c.join(s("pc"), s("C")).unwrap();
    assert_eq!(c.pool_balance, 300);
    let ps = c.distribute_prizes(&vec![s("A"), s("B"), s("C")]).unwrap();
    assert_eq!(paid(&ps), vec![(s("pa"), 180), (s("pb"), 90), (s("pc"), 30)]);
    assert_eq!(c.pool_balance, 0);
    assert_eq!(c.state, Phase::Distributed);
}

#[test]
fn distribute_single_winner_leaves_dust() {
    let mut c = pool(100, vec![6000, 3000, 1000], 50, 3);
    c.join(s("pa"), s("A")).unwrap();
    c.join(s("pb"), s("B")).unwrap();
    c.join(s("pc"), s("C")).unwrap();
    let ps = c.distribute_prizes(&vec![s("A")]).unwrap();
    assert_eq!(paid(&ps), vec![(s("pa"), 180)]);
    assert_eq!(c.pool_balance, 120);
}

#[test]
fn distribute_unknown_handle_forfeits_its_rank() {
    let mut c = pool(100, vec![6000, 3000, 1000], 50, 3);
    c.join(s("pa"), s("A")).unwrap();
    c.join(s("pb"), s("B")).unwrap();
    c.join(s("pc"), s("C")).unwrap();
    let ps = c.distribute_prizes(&vec![s("Z"), s("B"), s("C"), s("A")]).unwrap();
    assert_eq!(paid(&ps), vec![(s("pb"), 90), (s("pc"), 30)]);
    assert_eq!(c.pool_balance, 180);
}

#[test]
fn distribute_rounds_down_and_skips_zero() {
    let mut c = pool(7, vec![5000, 3333, 1], 50, 3);
    c.join(s("pa"), s("A")).unwrap();
    let ps = c.distribute_prizes(&vec![s("A"), s("A"), s("A")]).unwrap();
    assert_eq!(paid(&ps), vec![(s("pa"), 3), (s("pa"), 2)]);
    assert_eq!(c.pool_balance, 2);
}

#[test]
fn distribute_huge_pool_without_overflow() {
    let mut c = pool(i128::MAX, vec![10000], 50, 3);
    c.join(s("pa"), s("A")).unwrap();
    let ps = c.distribute_prizes(&vec![s("A")]).unwrap();
    assert_eq!(paid(&ps), vec![(s("pa"), i128::MAX)]);
    assert_eq!(c.pool_balance, 0);
}

#[test]
fn settlement_happens_once() {
    let mut c = pool(100, vec![10000], 50, 3);
    c.join(s("pa"), s("A")).unwrap();
    c.distribute_prizes(&vec![s("A")]).unwrap();
    assert_eq!(c.distribute_prizes(&vec![s("A")]).err(), Some(PoolError::NotOpen));
    assert_eq!(c.refund_all(100).err(), Some(PoolError::NotOpen));
    assert_eq!(c.join(s("pb"), s("B")), Err(PoolError::NotOpen));
    assert_eq!(c.withdraw(s("pa")).err(), Some(PoolError::NotOpen));
    assert_eq!(c.state, Phase::Distributed);
}

#[test]
fn refund_after_deadline_when_undersubscribed() {
    let mut c = pool(100, vec![10000], 50, 3);
    c.join(s("pa"), s("A")).unwrap();
    c.join(s("pb"), s("B")).unwrap();
    let ps = c.refund_all(51).unwrap();
    assert_eq!(paid(&ps), vec![(s("pa"), 100), (s("pb"), 100)]);
    assert_eq!(c.state, Phase::Refunded);
    assert_eq!(c.pool_balance, 0);
    assert_eq!(c.refund_all(52).err(), Some(PoolError::NotOpen));
    assert_eq!(c.distribute_prizes(&vec![s("A")]).err(), Some(PoolError::NotOpen));
}

#[test]
fn refund_refused_before_deadline_or_when_full() {
    let mut c = pool(100, vec![10000], 50, 2);
    c.join(s("pa"), s("A")).unwrap();
    assert_eq!(c.refund_all(50).err(), Some(PoolError::RefundConditionsNotMet));
    c.join(s("pb"), s("B")).unwrap();
    assert_eq!(c.refund_all(51).err(), Some(PoolError::RefundConditionsNotMet));
    assert_eq!(c.state, Phase::Open);
    assert_eq!(c.pool_balance, 200);
}

#[test]
fn distribute_schedule_above_one_whole_pays_every_share() {
    let mut c = pool(100, vec![6000, 5000], 50, 3);
    c.join(s("pa"), s("A")).unwrap();
    c.join(s("pb"), s("B")).unwrap();
    let ps = c.distribute_prizes(&vec![s("A"), s("B")]).unwrap();
    assert_eq!(paid(&ps), vec![(s("pa"), 120), (s("pb"), 100)]);
    assert_eq!(c.pool_balance, -20);
    assert_eq!(c.state, Phase::Distributed);
}

#[test]
fn distribute_total_beyond_amount_range_fails() {
    let mut c = pool(i128::MAX, vec![10000, 10000], 50, 3);
    c.join(s("pa"), s("A")).unwrap();
    let r = c.distribute_prizes(&vec![s("A"), s("A")]);
    assert_eq!(r.err(), Some(PoolError::PoolOverflow));
    assert_eq!(c.state, Phase::Open);
    assert_eq!(c.pool_balance, i128::MAX);
}
