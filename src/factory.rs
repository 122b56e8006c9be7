use vstd::arithmetic::power::pow;
use vstd::prelude::*;

verus! {

/// Why a factory operation was refused.
#[derive(Clone, Copy, Debug, PartialEq, Eq, Structural)]
pub enum FactoryError {
    /// The factory was already created.
    AlreadyInitialized,
}

/// Registry of the competition instances deployed from one template.
pub struct CompetitionFactory {
    pub admin: String,
    /// Identifier of the code that each instance runs.
    pub template: Vec<u8>,
    /// Addresses of the deployed instances, oldest first.
    pub competitions: Vec<String>,
}

/// The last `k` bytes of `x`, most significant first.
pub open spec fn be_bytes(x: nat, k: nat) -> Seq<u8>
    decreases k,
{
    if k == 0 {
        seq![]
    } else {
        be_bytes(x / 256, (k - 1) as nat).push((x % 256) as u8)
    }
}

/// The 32-byte placement salt of the instance deployed after `count`
/// others: 24 zero bytes, then `count` as 8 big-endian bytes.
pub open spec fn salt_of(count: nat) -> Seq<u8> {
    Seq::new(24, |i: int| 0u8) + be_bytes(count, 8)
}

fn be_bytes_of(x: u64, k: usize) -> (r: Vec<u8>)
    ensures
        r@ == be_bytes(x as nat, k as nat),
    decreases k,
{
    if k == 0 {
        Vec::new()
    } else {
        let mut r = be_bytes_of(x / 256, k - 1);
        r.push((x % 256) as u8);
        r
    }
}

proof fn lemma_be_bytes_len(x: nat, k: nat)
    ensures
        be_bytes(x, k).len() == k,
    decreases k,
{
    if k > 0 {
        lemma_be_bytes_len(x / 256, (k - 1) as nat);
    }
}

proof fn lemma_be_bytes_injective(x: nat, y: nat, k: nat)
    requires
        be_bytes(x, k) == be_bytes(y, k),
        x < pow(256, k),
        y < pow(256, k),
    ensures
        x == y,
    decreases k,
{
    reveal(pow);
    if k > 0 {
        let p = pow(256, (k - 1) as nat);
        assert(be_bytes(x / 256, (k - 1) as nat) == be_bytes(x, k).drop_last());
        assert(be_bytes(y / 256, (k - 1) as nat) == be_bytes(y, k).drop_last());
        assert(x / 256 < p) by (nonlinear_arith)
            requires
                x < 256 * p,
        ;
        assert(y / 256 < p) by (nonlinear_arith)
            requires
                y < 256 * p,
        ;
        lemma_be_bytes_injective(x / 256, y / 256, (k - 1) as nat);
        assert(be_bytes(x, k).last() == ((x % 256) as u8));
        assert(be_bytes(y, k).last() == ((y % 256) as u8));
        assert(((x % 256) as u8) as int == x % 256);
        assert(((y % 256) as u8) as int == y % 256);
    }
}

/// Placement is collision-free: the instances deployed after different
/// numbers of earlier ones get different salts.
pub proof fn lemma_salts_distinct(a: nat, b: nat)
    requires
        a != b,
        a <= u64::MAX,
        b <= u64::MAX,
    ensures
        salt_of(a) != salt_of(b),
{
    if salt_of(a) == salt_of(b) {
        lemma_be_bytes_len(a, 8);
        lemma_be_bytes_len(b, 8);
        assert(be_bytes(a, 8) =~= salt_of(a).subrange(24, 32));
        assert(be_bytes(b, 8) =~= salt_of(b).subrange(24, 32));
        reveal_with_fuel(pow, 9);
        assert(pow(256, 8) == 0x1_0000_0000_0000_0000);
        lemma_be_bytes_injective(a, b, 8);
    }
}

impl CompetitionFactory {
    /// Creates a factory with no instances. `already_initialized` tells
    /// whether the slot that will hold it is taken.
    pub fn initialize(already_initialized: bool, admin: String, template: Vec<u8>) -> (r: Result<
        CompetitionFactory,
        FactoryError,
    >)
        ensures
            already_initialized ==> r is Err && r->Err_0 == FactoryError::AlreadyInitialized,
            !already_initialized ==> (r matches Ok(f) && f.admin == admin && f.template@
                == template@ && f.competitions@.len() == 0),
    {
        if already_initialized {
            return Err(FactoryError::AlreadyInitialized);
        }
        Ok(CompetitionFactory { admin, template, competitions: Vec::new() })
    }

    /// The salt that places the next instance. Distinct counts give distinct
    /// salts, so no two instances of one factory collide.
    pub fn next_salt(&self) -> (r: Vec<u8>)
        requires
            self.competitions@.len() <= u64::MAX,
        ensures
            r@ == salt_of(self.competitions@.len()),
    {
        let mut salt: Vec<u8> = Vec::new();
        let mut i: usize = 0;
        while i < 24
            invariant
                0 <= i <= 24,
                salt@ == Seq::new(i as nat, |k: int| 0u8),
            decreases 24 - i,
        {
            salt.push(0u8);
            proof {
                assert(salt@ =~= Seq::new(i as nat + 1, |k: int| 0u8));
            }
            i = i + 1;
        }
        let tail = be_bytes_of(self.competitions.len() as u64, 8);
        let ghost head = salt@;
        let mut j: usize = 0;
        while j < tail.len()
            invariant
                0 <= j <= tail@.len(),
                salt@ == head + tail@.subrange(0, j as int),
            decreases tail.len() - j,
        {
            salt.push(tail[j]);
            proof {
                assert(salt@ =~= head + tail@.subrange(0, j as int + 1));
            }
            j = j + 1;
        }
        proof {
            assert(tail@.subrange(0, tail@.len() as int) =~= tail@);
        }
        salt
    }

    /// Records the address of a newly deployed instance.
    pub fn create_competition(&mut self, address: String)
        ensures
            final(self).admin == old(self).admin,
            final(self).template@ == old(self).template@,
            final(self).competitions@ == old(self).competitions@.push(address),
    {
        self.competitions.push(address);
    }

    /// The addresses of all deployed instances, oldest first.
    pub fn get_competitions(&self) -> (r: Vec<String>)
        ensures
            r@ == self.competitions@,
    {
        let mut r: Vec<String> = Vec::new();
        let mut i: usize = 0;
        while i < self.competitions.len()
            invariant
                0 <= i <= self.competitions@.len(),
                r@ == self.competitions@.subrange(0, i as int),
            decreases self.competitions.len() - i,
        {
            r.push(self.competitions[i].clone());
            proof {
                assert(r@ =~= self.competitions@.subrange(0, i as int + 1));
            }
            i = i + 1;
        }
        assert(r@ =~= self.competitions@);
        r
    }
}

} // verus!
