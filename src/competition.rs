use vstd::prelude::*;

verus! {

/// One whole in basis points.
pub const BASIS_POINTS_WHOLE: u32 = 10000;

/// Phase of a competition instance.
#[derive(Clone, Copy, Debug, PartialEq, Eq, Structural)]
pub enum Phase {
    Open,
    Distributed,
    Refunded,
}

/// Why a competition operation was refused.
#[derive(Clone, Copy, Debug, PartialEq, Eq, Structural)]
pub enum PoolError {
    /// The instance was already created.
    AlreadyInitialized,
    /// A non-positive entry fee, or a share above one whole.
    InvalidConfig,
    /// The competition is no longer open.
    NotOpen,
    /// The handle is taken.
    DuplicateHandle,
    /// No handle is bound to the principal.
    NotRegistered,
    /// The deadline has not passed, or enough participants joined.
    RefundConditionsNotMet,
    /// An amount would not fit in 128 bits: one more fee in the pool, or
    /// the total that a distribution owes.
    PoolOverflow,
}

/// A handle bound to the principal that registered it.
pub struct Registration {
    pub handle: String,
    pub principal: String,
}

/// An outbound transfer of `amount` from the instance to `to`.
pub struct Payment {
    pub to: String,
    pub amount: i128,
}

/// The state of one competition instance.
pub struct CompetitionContract {
    /// Principal allowed to trigger distribution.
    pub admin: String,
    /// Address of the asset that fees are paid in.
    pub asset: String,
    pub entry_fee: i128,
    /// Basis-point share of each rank, rank one first.
    pub payout_schedule: Vec<u32>,
    pub deadline: u64,
    pub min_participants: u32,
    pub state: Phase,
    /// Escrowed balance owned by the instance.
    pub pool_balance: i128,
    /// Registered handles, in order of registration.
    pub registry: Vec<Registration>,
}

/// Sum of the basis points of a schedule.
pub open spec fn schedule_total(s: Seq<u32>) -> int
    decreases s.len(),
{
    if s.len() == 0 {
        0
    } else {
        schedule_total(s.drop_last()) + s.last()
    }
}

/// `floor(pool * bp / 10000)`: what one rank's share comes to.
pub open spec fn share(pool: int, bp: int) -> int {
    pool * bp / 10000
}

/// Every share of a schedule is at most one whole.
pub open spec fn shares_within_whole(s: Seq<u32>) -> bool {
    forall|i: int| 0 <= i < s.len() ==> s[i] <= 10000
}

pub open spec fn unique_handles(reg: Seq<Registration>) -> bool {
    forall|i: int, j: int| 0 <= i < j < reg.len() ==> reg[i].handle@ != reg[j].handle@
}

pub open spec fn is_registered(reg: Seq<Registration>, h: Seq<char>) -> bool {
    exists|i: int| 0 <= i < reg.len() && reg[i].handle@ == h
}

/// `i` is the first registration bound to principal `p`.
pub open spec fn first_of_principal(reg: Seq<Registration>, p: Seq<char>, i: int) -> bool {
    &&& 0 <= i < reg.len()
    &&& reg[i].principal@ == p
    &&& forall|j: int| 0 <= j < i ==> reg[j].principal@ != p
}

pub open spec fn has_principal(reg: Seq<Registration>, p: Seq<char>) -> bool {
    exists|i: int| 0 <= i < reg.len() && reg[i].principal@ == p
}

/// Principal bound to handle `h`, if any.
pub open spec fn principal_of(reg: Seq<Registration>, h: Seq<char>) -> Option<Seq<char>> {
    if is_registered(reg, h) {
        Some(reg[choose|i: int| 0 <= i < reg.len() && reg[i].handle@ == h].principal@)
    } else {
        None
    }
}

/// The payments owed for the first `k` places of `board`, as
/// (recipient, amount) pairs, computed from the pool balance `pool`.
pub open spec fn payouts(
    reg: Seq<Registration>,
    sched: Seq<u32>,
    pool: int,
    board: Seq<String>,
    k: int,
) -> Seq<(Seq<char>, int)>
    decreases k,
{
    if k <= 0 {
        seq![]
    } else {
        let prev = payouts(reg, sched, pool, board, k - 1);
        match principal_of(reg, board[k - 1]@) {
            Some(p) => if share(pool, sched[k - 1] as int) > 0 {
                prev.push((p, share(pool, sched[k - 1] as int)))
            } else {
                prev
            },
            None => prev,
        }
    }
}

/// Sum of the amounts of a list of payments.
pub open spec fn total_of(s: Seq<(Seq<char>, int)>) -> int
    decreases s.len(),
{
    if s.len() == 0 {
        0
    } else {
        total_of(s.drop_last()) + s.last().1
    }
}

pub open spec fn min_len(a: int, b: int) -> int {
    if a < b {
        a
    } else {
        b
    }
}

pub open spec fn payment_view(p: Payment) -> (Seq<char>, int) {
    (p.to@, p.amount as int)
}

proof fn lemma_schedule_total_step(s: Seq<u32>, i: int)
    requires
        0 <= i < s.len(),
    ensures
        schedule_total(s.subrange(0, i + 1)) == schedule_total(s.subrange(0, i)) + s[i],
{
    assert(s.subrange(0, i + 1).drop_last() =~= s.subrange(0, i));
}

proof fn lemma_schedule_total_prefix(s: Seq<u32>, i: int)
    requires
        0 <= i <= s.len(),
    ensures
        0 <= schedule_total(s.subrange(0, i)) <= schedule_total(s),
    decreases s.len() - i,
{
    lemma_schedule_total_nonneg(s.subrange(0, i));
    if i < s.len() {
        lemma_schedule_total_step(s, i);
        lemma_schedule_total_prefix(s, i + 1);
    } else {
        assert(s.subrange(0, i) =~= s);
        lemma_schedule_total_nonneg(s);
    }
}

proof fn lemma_schedule_total_nonneg(s: Seq<u32>)
    ensures
        schedule_total(s) >= 0,
    decreases s.len(),
{
    if s.len() > 0 {
        lemma_schedule_total_nonneg(s.drop_last());
    }
}

/// Whether every share of the schedule is at most one whole.
fn shares_in_range(s: &Vec<u32>) -> (r: bool)
    ensures
        r == shares_within_whole(s@),
{
    let mut i: usize = 0;
    while i < s.len()
        invariant
            0 <= i <= s.len(),
            forall|k: int| 0 <= k < i ==> s@[k] <= 10000,
        decreases s.len() - i,
    {
        if s[i] > BASIS_POINTS_WHOLE {
            return false;
        }
        i = i + 1;
    }
    true
}

/// `floor(pool * bp / 10000)`, without overflow.
fn share_of(pool: i128, bp: u32) -> (r: i128)
    requires
        pool >= 0,
        bp <= 10000,
    ensures
        r == share(pool as int, bp as int),
        0 <= r,
        r * 10000 <= pool * bp,
{
    let q: i128 = pool / 10000;
    let rem: i128 = pool % 10000;
    let b: i128 = bp as i128;
    assert(q * b <= pool) by (nonlinear_arith)
        requires
            q == pool / 10000,
            0 <= b <= 10000,
            pool >= 0,
    ;
    assert(0 <= q * b) by (nonlinear_arith)
        requires
            q >= 0,
            b >= 0,
    ;
    assert(0 <= rem * b <= 10000 * 10000) by (nonlinear_arith)
        requires
            0 <= rem < 10000,
            0 <= b <= 10000,
    ;
    assert(q * b + rem * b / 10000 <= pool) by (nonlinear_arith)
        requires
            q == pool / 10000,
            rem == pool % 10000,
            0 <= rem < 10000,
            0 <= b <= 10000,
            pool >= 0,
            pool == 10000 * q + rem,
    ;
    let low: i128 = rem * b / 10000;
    let r: i128 = q * b + low;
    proof {
        let x: int = pool as int * b as int;
        let rb: int = rem as int * b as int;
        assert(pool as int == 10000 * q + rem);
        assert(rb == 10000 * (rb / 10000) + rb % 10000);
        assert(x == (q * b + rb / 10000) * 10000 + rb % 10000) by (nonlinear_arith)
            requires
                pool as int == 10000 * q + rem,
                rb == rem * b,
                rb == 10000 * (rb / 10000) + rb % 10000,
                x == pool * b,
        ;
        vstd::arithmetic::div_mod::lemma_fundamental_div_mod_converse_div(
            x,
            10000,
            q * b + rb / 10000,
            rb % 10000,
        );
        assert(r * 10000 <= x) by (nonlinear_arith)
            requires
                x == (q * b + rb / 10000) * 10000 + rb % 10000,
                r == q * b + rb / 10000,
                rb % 10000 >= 0,
        ;
    }
    r
}

/// Index of the registration holding handle `h`.
fn find_handle(reg: &Vec<Registration>, h: &String) -> (r: Option<usize>)
    ensures
        match r {
            Some(i) => i < reg@.len() && reg@[i as int].handle@ == h@,
            None => !is_registered(reg@, h@),
        },
{
    let mut i: usize = 0;
    while i < reg.len()
        invariant
            0 <= i <= reg@.len(),
            forall|j: int| 0 <= j < i ==> reg@[j].handle@ != h@,
        decreases reg.len() - i,
    {
        if reg[i].handle == *h {
            return Some(i);
        }
        i = i + 1;
    }
    None
}

/// Index of the first registration bound to principal `p`.
fn find_principal(reg: &Vec<Registration>, p: &String) -> (r: Option<usize>)
    ensures
        match r {
            Some(i) => first_of_principal(reg@, p@, i as int),
            None => !has_principal(reg@, p@),
        },
{
    let mut i: usize = 0;
    while i < reg.len()
        invariant
            0 <= i <= reg@.len(),
            forall|j: int| 0 <= j < i ==> reg@[j].principal@ != p@,
        decreases reg.len() - i,
    {
        if reg[i].principal == *p {
            return Some(i);
        }
        i = i + 1;
    }
    None
}

proof fn lemma_budget_pay(paid: int, amount: int, pool: int, t: int, b: int)
    requires
        paid * 10000 <= pool * t,
        amount * 10000 <= pool * b,
        0 <= pool,
        0 <= b,
        0 <= t,
        t + b <= 10000,
    ensures
        (paid + amount) * 10000 <= pool * (t + b),
        paid + amount <= pool,
{
    assert((paid + amount) * 10000 <= pool * (t + b)) by (nonlinear_arith)
        requires
            paid * 10000 <= pool * t,
            amount * 10000 <= pool * b,
    ;
    assert(pool * (t + b) <= pool * 10000) by (nonlinear_arith)
        requires
            0 <= pool,
            t + b <= 10000,
    ;
}

proof fn lemma_budget_skip(paid: int, pool: int, t: int, b: int)
    requires
        paid * 10000 <= pool * t,
        0 <= pool,
        0 <= b,
    ensures
        paid * 10000 <= pool * (t + b),
{
    assert(pool * t <= pool * (t + b)) by (nonlinear_arith)
        requires
            0 <= pool,
            0 <= b,
    ;
}

proof fn lemma_total_push(s: Seq<(Seq<char>, int)>, e: (Seq<char>, int))
    ensures
        total_of(s.push(e)) == total_of(s) + e.1,
{
    assert(s.push(e).drop_last() =~= s);
}

proof fn lemma_payouts_monotone(
    reg: Seq<Registration>,
    sched: Seq<u32>,
    pool: int,
    board: Seq<String>,
    k: int,
    j: int,
)
    requires
        0 <= k <= j,
    ensures
        total_of(payouts(reg, sched, pool, board, k)) <= total_of(payouts(reg, sched, pool, board, j)),
    decreases j - k,
{
    if k < j {
        lemma_payouts_monotone(reg, sched, pool, board, k, j - 1);
        let prev = payouts(reg, sched, pool, board, j - 1);
        let amount = share(pool, sched[j - 1] as int);
        match principal_of(reg, board[j - 1]@) {
            Some(p) => if amount > 0 {
                lemma_total_push(prev, (p, amount));
            },
            None => {},
        }
    }
}

impl CompetitionContract {
    /// Configuration and balances are consistent.
    pub open spec fn wf(&self) -> bool {
        &&& self.entry_fee > 0
        &&& shares_within_whole(self.payout_schedule@)
        &&& unique_handles(self.registry@)
        &&& self.state == Phase::Open ==> self.pool_balance == self.entry_fee
            * self.registry@.len()
    }

    /// Both instances have the same fixed configuration.
    pub open spec fn same_config(&self, other: &CompetitionContract) -> bool {
        &&& self.admin == other.admin
        &&& self.asset == other.asset
        &&& self.entry_fee == other.entry_fee
        &&& self.payout_schedule@ == other.payout_schedule@
        &&& self.deadline == other.deadline
        &&& self.min_participants == other.min_participants
    }

    /// `refund_all` at time `now` would succeed.
    pub open spec fn refund_allowed(&self, now: u64) -> bool {
        &&& self.state == Phase::Open
        &&& now > self.deadline
        &&& self.registry@.len() < self.min_participants
    }

    /// The payments that `distribute_prizes(board)` owes: one for each
    /// place that both the board and the schedule cover.
    pub open spec fn owed(&self, board: Seq<String>) -> Seq<(Seq<char>, int)> {
        payouts(
            self.registry@,
            self.payout_schedule@,
            self.pool_balance as int,
            board,
            min_len(board.len() as int, self.payout_schedule@.len() as int),
        )
    }

    /// `distribute_prizes(board)` would succeed: the competition is open and
    /// what it owes fits in an amount.
    pub open spec fn distribution_allowed(&self, board: Seq<String>) -> bool {
        &&& self.state == Phase::Open
        &&& total_of(self.owed(board)) <= i128::MAX
    }

    /// Creates an open instance with an empty pool. `already_initialized`
    /// tells whether the slot that will hold it is taken.
    pub fn initialize(
        already_initialized: bool,
        admin: String,
        entry_fee: i128,
        payout_schedule: Vec<u32>,
        deadline: u64,
        min_participants: u32,
        asset: String,
    ) -> (r: Result<CompetitionContract, PoolError>)
        ensures
            already_initialized ==> r == Err::<CompetitionContract, PoolError>(
                PoolError::AlreadyInitialized,
            ),
            !already_initialized && (entry_fee <= 0 || !shares_within_whole(payout_schedule@))
                ==> r == Err::<CompetitionContract, PoolError>(PoolError::InvalidConfig),
            !already_initialized && entry_fee > 0 && shares_within_whole(payout_schedule@) ==> r is Ok,
            r matches Ok(c) ==> {
                &&& c.wf()
                &&& c.admin == admin
                &&& c.asset == asset
                &&& c.entry_fee == entry_fee
                &&& c.payout_schedule@ == payout_schedule@
                &&& c.deadline == deadline
                &&& c.min_participants == min_participants
                &&& c.state == Phase::Open
                &&& c.pool_balance == 0
                &&& c.registry@.len() == 0
            },
    {
        if already_initialized {
            return Err(PoolError::AlreadyInitialized);
        }
        if entry_fee <= 0 {
            return Err(PoolError::InvalidConfig);
        }
        match shares_in_range(&payout_schedule) {
            false => Err(PoolError::InvalidConfig),
            true => {
                let registry: Vec<Registration> = Vec::new();
                assert(entry_fee * registry@.len() == 0) by (nonlinear_arith)
                    requires registry@.len() == 0;
                Ok(CompetitionContract {
                    admin,
                    asset,
                    entry_fee,
                    payout_schedule,
                    deadline,
                    min_participants,
                    state: Phase::Open,
                    pool_balance: 0,
                    registry,
                })
            },
        }
    }

    /// Number of registered participants.
    pub fn participant_count(&self) -> (r: usize)
        ensures
            r == self.registry@.len(),
    {
        self.registry.len()
    }

    /// Registers `handle` for `principal`. On success the caller collects the
    /// returned entry fee from `principal`; the whole call is void if that
    /// transfer fails.
    pub fn join(&mut self, principal: String, handle: String) -> (r: Result<i128, PoolError>)
        requires
            old(self).wf(),
        ensures
            final(self).wf(),
            old(self).state != Phase::Open ==> r == Err::<i128, PoolError>(PoolError::NotOpen),
            old(self).state == Phase::Open && is_registered(old(self).registry@, handle@) ==> r
                == Err::<i128, PoolError>(PoolError::DuplicateHandle),
            old(self).state == Phase::Open && !is_registered(old(self).registry@, handle@)
                && old(self).pool_balance + old(self).entry_fee > i128::MAX ==> r == Err::<
                i128,
                PoolError,
            >(PoolError::PoolOverflow),
            old(self).state == Phase::Open && !is_registered(old(self).registry@, handle@)
                && old(self).pool_balance + old(self).entry_fee <= i128::MAX ==> r == Ok::<
                i128,
                PoolError,
            >(old(self).entry_fee),
            r is Err ==> *final(self) == *old(self),
            r is Ok ==> joined(*old(self), *final(self)),
            r is Ok ==> {
                &&& final(self).same_config(old(self))
                &&& final(self).state == old(self).state
                &&& final(self).registry@ == old(self).registry@.push(
                    Registration { handle, principal },
                )
                &&& final(self).pool_balance == old(self).pool_balance + old(self).entry_fee
            },
    {
        if self.state != Phase::Open {
            return Err(PoolError::NotOpen);
        }
        if find_handle(&self.registry, &handle).is_some() {
            return Err(PoolError::DuplicateHandle);
        }
        if self.pool_balance > i128::MAX - self.entry_fee {
            return Err(PoolError::PoolOverflow);
        }
        let ghost before = self.registry@;
        self.registry.push(Registration { handle, principal });
        self.pool_balance = self.pool_balance + self.entry_fee;
        proof {
            assert(self.registry@.len() == before.len() + 1);
            assert(self.entry_fee * self.registry@.len() == self.entry_fee * before.len()
                + self.entry_fee) by (nonlinear_arith)
                requires
                    self.registry@.len() == before.len() + 1,
            ;
            assert forall|i: int, j: int|
                0 <= i < j < self.registry@.len() implies self.registry@[i].handle@
                != self.registry@[j].handle@ by {
                if j == before.len() {
                    assert(self.registry@[i] == before[i]);
                }
            }
        }
        Ok(self.entry_fee)
    }

    /// Removes the first handle bound to `principal`. On success the caller
    /// sends the returned payment, the entry fee, back to `principal`.
    pub fn withdraw(&mut self, principal: String) -> (r: Result<Payment, PoolError>)
        requires
            old(self).wf(),
        ensures
            final(self).wf(),
            old(self).state != Phase::Open ==> r == Err::<Payment, PoolError>(PoolError::NotOpen),
            old(self).state == Phase::Open && !has_principal(old(self).registry@, principal@) ==> r
                == Err::<Payment, PoolError>(PoolError::NotRegistered),
            old(self).state == Phase::Open && has_principal(old(self).registry@, principal@) ==> r
                == Ok::<Payment, PoolError>(Payment { to: principal, amount: old(self).entry_fee }),
            r is Err ==> *final(self) == *old(self),
            r is Ok ==> withdrew(*old(self), *final(self)),
            r is Ok ==> {
                &&& final(self).same_config(old(self))
                &&& final(self).state == old(self).state
                &&& exists|i: int|
                    first_of_principal(old(self).registry@, principal@, i)
                        && final(self).registry@ == old(self).registry@.remove(i)
                &&& final(self).pool_balance == old(self).pool_balance - old(self).entry_fee
            },
    {
        if self.state != Phase::Open {
            return Err(PoolError::NotOpen);
        }
        match find_principal(&self.registry, &principal) {
            None => Err(PoolError::NotRegistered),
            Some(i) => {
                let ghost before = self.registry@;
                self.registry.remove(i);
                proof {
                    assert(self.entry_fee * before.len() == self.entry_fee * self.registry@.len()
                        + self.entry_fee) by (nonlinear_arith)
                        requires
                            self.registry@.len() + 1 == before.len(),
                    ;
                    assert(self.entry_fee * self.registry@.len() >= 0) by (nonlinear_arith)
                        requires
                            self.entry_fee > 0,
                    ;
                    assert forall|a: int, b: int|
                        0 <= a < b < self.registry@.len() implies self.registry@[a].handle@
                        != self.registry@[b].handle@ by {
                        let a0 = if a < i { a } else { a + 1 };
                        let b0 = if b < i { b } else { b + 1 };
                        assert(self.registry@[a] == before[a0]);
                        assert(self.registry@[b] == before[b0]);
                    }
                    assert(first_of_principal(before, principal@, i as int));
                }
                self.pool_balance = self.pool_balance - self.entry_fee;
                Ok(Payment { to: principal, amount: self.entry_fee })
            },
        }
    }

    /// Closes the competition and computes the prizes for `leaderboard`,
    /// handles in rank order. Place `i` earns share `i` of the schedule,
    /// taken from the balance held at entry; places past the schedule earn
    /// nothing, and an unregistered handle forfeits its share. The balance
    /// drops by what is paid; what is not paid stays in the pool. The caller
    /// sends the returned payments.
    pub fn distribute_prizes(&mut self, leaderboard: &Vec<String>) -> (r: Result<
        Vec<Payment>,
        PoolError,
    >)
        requires
            old(self).wf(),
        ensures
            final(self).wf(),
            old(self).state != Phase::Open ==> r is Err && r->Err_0 == PoolError::NotOpen,
            old(self).state == Phase::Open && total_of(old(self).owed(leaderboard@)) > i128::MAX
                ==> r is Err && r->Err_0 == PoolError::PoolOverflow,
            r is Err ==> *final(self) == *old(self),
            r is Ok <==> old(self).distribution_allowed(leaderboard@),
            r matches Ok(ps) ==> {
                let owed = old(self).owed(leaderboard@);
                &&& ps@.map_values(|p: Payment| payment_view(p)) == owed
                &&& final(self).pool_balance == old(self).pool_balance - total_of(owed)
                &&& final(self).state == Phase::Distributed
                &&& final(self).same_config(old(self))
                &&& final(self).registry@ == old(self).registry@
            },
    {
        if self.state != Phase::Open {
            return Err(PoolError::NotOpen);
        }
        let pool: i128 = self.pool_balance;
        assert(pool >= 0) by (nonlinear_arith)
            requires
                pool == self.entry_fee * self.registry@.len(),
                self.entry_fee > 0,
        ;
        let n: usize = if leaderboard.len() < self.payout_schedule.len() {
            leaderboard.len()
        } else {
            self.payout_schedule.len()
        };
        let mut payments: Vec<Payment> = Vec::new();
        let mut paid: i128 = 0;
        let mut i: usize = 0;
        while i < n
            invariant
                self.wf(),
                self.state == Phase::Open,
                pool == self.pool_balance,
                pool >= 0,
                n == min_len(leaderboard@.len() as int, self.payout_schedule@.len() as int),
                0 <= i <= n,
                payments@.map_values(|p: Payment| payment_view(p)) == payouts(
                    self.registry@,
                    self.payout_schedule@,
                    pool as int,
                    leaderboard@,
                    i as int,
                ),
                paid == total_of(
                    payouts(
                        self.registry@,
                        self.payout_schedule@,
                        pool as int,
                        leaderboard@,
                        i as int,
                    ),
                ),
                0 <= paid,
            decreases n - i,
        {
            let ghost prev = payouts(
                self.registry@,
                self.payout_schedule@,
                pool as int,
                leaderboard@,
                i as int,
            );
            match find_handle(&self.registry, &leaderboard[i]) {
                Some(j) => {
                    let amount: i128 = share_of(pool, self.payout_schedule[i]);
                    proof {
                        let reg = self.registry@;
                        let h = leaderboard@[i as int]@;
                        let c = choose|c: int| 0 <= c < reg.len() && reg[c].handle@ == h;
                        assert(0 <= c < reg.len() && reg[c].handle@ == h);
                        assert(c == j as int);
                        assert(principal_of(reg, h) == Some(reg[j as int].principal@));
                    }
                    if amount > 0 {
                        let to: String = self.registry[j].principal.clone();
                        let ghost e = (to@, amount as int);
                        proof {
                            lemma_total_push(prev, e);
                        }
                        if paid > i128::MAX - amount {
                            proof {
                                lemma_payouts_monotone(
                                    self.registry@,
                                    self.payout_schedule@,
                                    pool as int,
                                    leaderboard@,
                                    i as int + 1,
                                    n as int,
                                );
                            }
                            return Err(PoolError::PoolOverflow);
                        }
                        let ghost before = payments@;
                        payments.push(Payment { to, amount });
                        proof {
                            assert(payments@.map_values(|p: Payment| payment_view(p))
                                =~= before.map_values(|p: Payment| payment_view(p)).push(e));
                        }
                        paid = paid + amount;
                    }
                },
                None => {},
            }
            i = i + 1;
        }
        self.state = Phase::Distributed;
        self.pool_balance = pool - paid;
        Ok(payments)
    }

    /// Closes an under-subscribed competition after its deadline and returns
    /// one entry-fee refund per registration, in registration order. The
    /// caller sends them.
    pub fn refund_all(&mut self, now: u64) -> (r: Result<Vec<Payment>, PoolError>)
        requires
            old(self).wf(),
        ensures
            final(self).wf(),
            old(self).state != Phase::Open ==> r is Err && r->Err_0 == PoolError::NotOpen,
            old(self).state == Phase::Open && !old(self).refund_allowed(now) ==> r is Err
                && r->Err_0 == PoolError::RefundConditionsNotMet,
            r is Err ==> *final(self) == *old(self),
            r is Ok <==> old(self).refund_allowed(now),
            r matches Ok(ps) ==> {
                &&& ps@.len() == old(self).registry@.len()
                &&& forall|i: int|
                    0 <= i < ps@.len() ==> ps@[i].to@ == old(self).registry@[i].principal@
                        && ps@[i].amount == old(self).entry_fee
                &&& final(self).state == Phase::Refunded
                &&& final(self).pool_balance == 0
                &&& final(self).same_config(old(self))
                &&& final(self).registry@ == old(self).registry@
            },
    {
        if self.state != Phase::Open {
            return Err(PoolError::NotOpen);
        }
        if !(now > self.deadline && self.registry.len() < self.min_participants as usize) {
            return Err(PoolError::RefundConditionsNotMet);
        }
        let mut payments: Vec<Payment> = Vec::new();
        let mut i: usize = 0;
        while i < self.registry.len()
            invariant
                0 <= i <= self.registry@.len(),
                payments@.len() == i,
                forall|k: int|
                    0 <= k < i ==> payments@[k].to@ == self.registry@[k].principal@
                        && payments@[k].amount == self.entry_fee,
            decreases self.registry.len() - i,
        {
            let to: String = self.registry[i].principal.clone();
            payments.push(Payment { to, amount: self.entry_fee });
            i = i + 1;
        }
        self.state = Phase::Refunded;
        self.pool_balance = 0;
        Ok(payments)
    }
}

/// What a successful `join` does: one more registration, one more fee.
pub open spec fn joined(before: CompetitionContract, after: CompetitionContract) -> bool {
    &&& after.same_config(&before)
    &&& after.state == before.state
    &&& after.registry@.len() == before.registry@.len() + 1
    &&& after.pool_balance == before.pool_balance + before.entry_fee
}

/// What a successful `withdraw` does: one registration and one fee fewer.
pub open spec fn withdrew(before: CompetitionContract, after: CompetitionContract) -> bool {
    &&& after.same_config(&before)
    &&& after.state == before.state
    &&& after.registry@.len() + 1 == before.registry@.len()
    &&& after.pool_balance == before.pool_balance - before.entry_fee
}

/// Successful joins minus successful withdrawals along a trace of states.
pub open spec fn net_joins(trace: Seq<CompetitionContract>) -> int
    decreases trace.len(),
{
    if trace.len() < 2 {
        0
    } else {
        let before = trace[trace.len() - 2];
        net_joins(trace.drop_last()) + if joined(before, trace.last()) {
            1int
        } else if withdrew(before, trace.last()) {
            -1int
        } else {
            0int
        }
    }
}

/// Fee accounting: along any trace of states that starts with an empty pool
/// and where each step is a successful join, a successful withdrawal or a
/// call that changed nothing, the pool holds one entry fee per net join.
pub proof fn lemma_pool_tracks_net_joins(trace: Seq<CompetitionContract>)
    requires
        trace.len() >= 1,
        trace[0].pool_balance == 0,
        forall|i: int|
            0 <= i < trace.len() - 1 ==> joined(trace[i], #[trigger] trace[i + 1]) || withdrew(
                trace[i],
                trace[i + 1],
            ) || trace[i + 1] == trace[i],
    ensures
        trace.last().pool_balance == trace[0].entry_fee * net_joins(trace),
        trace.last().entry_fee == trace[0].entry_fee,
    decreases trace.len(),
{
    if trace.len() >= 2 {
        let prefix = trace.drop_last();
        assert forall|i: int| 0 <= i < prefix.len() - 1 implies joined(
            prefix[i],
            #[trigger] prefix[i + 1],
        ) || withdrew(prefix[i], prefix[i + 1]) || prefix[i + 1] == prefix[i] by {
            assert(trace[i + 1] == prefix[i + 1]);
        }
        lemma_pool_tracks_net_joins(prefix);
        let n = net_joins(prefix);
        let fee = trace[0].entry_fee as int;
        let before = trace[trace.len() - 2];
        assert(before == prefix.last());
        assert(trace[trace.len() - 2 + 1] == trace.last());
        assert(fee * (n + 1) == fee * n + fee && fee * (n - 1) == fee * n - fee)
            by (nonlinear_arith);
    }
}

/// Settlement happens once: after a distribution or a refund, neither
/// `distribute_prizes` nor `refund_all` can succeed again, at any time.
pub proof fn lemma_settlement_is_final(c: CompetitionContract, now: u64, board: Seq<String>)
    requires
        c.state == Phase::Distributed || c.state == Phase::Refunded,
    ensures
        !c.distribution_allowed(board),
        !c.refund_allowed(now),
{
}

/// With a schedule that sums to at most one whole, a distribution never
/// pays out more than the pool held: the payments owed for any leaderboard
/// sum to at most the balance they are computed from, so the balance left
/// afterwards is not negative.
pub proof fn lemma_payouts_within_pool(c: CompetitionContract, board: Seq<String>, k: int)
    requires
        c.pool_balance >= 0,
        schedule_total(c.payout_schedule@) <= 10000,
        0 <= k <= c.payout_schedule@.len(),
        k <= board.len(),
    ensures
        0 <= total_of(payouts(c.registry@, c.payout_schedule@, c.pool_balance as int, board, k))
            <= c.pool_balance,
{
    lemma_payouts_budget(c, board, k);
    lemma_schedule_total_prefix(c.payout_schedule@, k);
    let t = schedule_total(c.payout_schedule@.subrange(0, k));
    let paid = total_of(payouts(c.registry@, c.payout_schedule@, c.pool_balance as int, board, k));
    let pool = c.pool_balance as int;
    assert(paid <= pool) by (nonlinear_arith)
        requires
            paid * 10000 <= pool * t,
            t <= 10000,
            0 <= pool,
    ;
}

proof fn lemma_payouts_budget(c: CompetitionContract, board: Seq<String>, k: int)
    requires
        c.pool_balance >= 0,
        schedule_total(c.payout_schedule@) <= 10000,
        0 <= k <= c.payout_schedule@.len(),
        k <= board.len(),
    ensures
        ({
            let paid = total_of(
                payouts(c.registry@, c.payout_schedule@, c.pool_balance as int, board, k),
            );
            0 <= paid && paid * 10000 <= c.pool_balance * schedule_total(
                c.payout_schedule@.subrange(0, k),
            )
        }),
    decreases k,
{
    let s = c.payout_schedule@;
    let pool = c.pool_balance as int;
    if k > 0 {
        lemma_payouts_budget(c, board, k - 1);
        lemma_schedule_total_step(s, k - 1);
        lemma_schedule_total_prefix(s, k);
        lemma_schedule_total_prefix(s, k - 1);
        let prev = payouts(c.registry@, s, pool, board, k - 1);
        let t = schedule_total(s.subrange(0, k - 1));
        let b = s[k - 1] as int;
        let amount = share(pool, b);
        assert(0 <= amount && amount * 10000 <= pool * b) by (nonlinear_arith)
            requires
                amount == pool * b / 10000,
                0 <= pool,
                0 <= b,
        ;
        match principal_of(c.registry@, board[k - 1]@) {
            Some(p) => if amount > 0 {
                lemma_total_push(prev, (p, amount));
                lemma_budget_pay(total_of(prev), amount, pool, t, b);
            } else {
                lemma_budget_skip(total_of(prev), pool, t, b);
            },
            None => {
                lemma_budget_skip(total_of(prev), pool, t, b);
            },
        }
    } else {
        assert(s.subrange(0, 0).len() == 0);
    }
}

} // verus!
