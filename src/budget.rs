use vstd::prelude::*;

verus! {

/// `profit * bid_percentage / 100` rounded down, or nothing for a profit that is not positive.
pub open spec fn bid_for(estimated_profit: int, bid_percentage: int) -> int {
    if estimated_profit > 0 {
        estimated_profit * bid_percentage / 100
    } else {
        0
    }
}

/// The gas bid for an opportunity of the given estimated profit: the given
/// percentage of the profit, rounded down, so a bid never exceeds the profit
/// that funds it.
pub fn size_bid(estimated_profit: i128, bid_percentage: u64) -> (bid: u128)
    requires
        bid_percentage <= 100,
    ensures
        bid == bid_for(estimated_profit as int, bid_percentage as int),
        bid <= if estimated_profit > 0 { estimated_profit as int } else { 0 },
{
    if estimated_profit <= 0 {
        return 0;
    }
    let p = estimated_profit as u128;
    let pct = bid_percentage as u128;
    let q = p / 100;
    let r = p % 100;
    proof {
        let (pi, qi, ri, ci) = (p as int, q as int, r as int, pct as int);
        assert(pi == 100 * qi + ri && 0 <= ri < 100);
        assert(qi * ci <= qi * 100) by (nonlinear_arith)
            requires
                0 <= qi,
                0 <= ci <= 100,
        ;
        assert(ri * ci < 10000) by (nonlinear_arith)
            requires
                0 <= ri < 100,
                0 <= ci <= 100,
        ;
        assert(pi * ci / 100 == qi * ci + ri * ci / 100) by (nonlinear_arith)
            requires
                pi == 100 * qi + ri,
                0 <= ri < 100,
                0 <= ci,
        ;
        assert(qi * ci + ri * ci / 100 <= pi) by (nonlinear_arith)
            requires
                pi == 100 * qi + ri,
                0 <= ri < 100,
                0 <= ci <= 100,
                0 <= qi,
        ;
    }
    q * pct + r * pct / 100
}

/// The priority fee per unit of gas that spends at most `gas_bid` over
/// `gas_limit` units: the bid divided by the limit, rounded down, or nothing
/// for a zero limit.
pub fn priority_fee_per_gas(gas_bid: u128, gas_limit: u64) -> (fee: u128)
    ensures
        gas_limit > 0 ==> fee == gas_bid / (gas_limit as u128),
        gas_limit == 0 ==> fee == 0,
        fee * gas_limit <= gas_bid,
{
    if gas_limit == 0 {
        return 0;
    }
    let fee = gas_bid / (gas_limit as u128);
    proof {
        assert(fee * gas_limit <= gas_bid) by (nonlinear_arith)
            requires
                fee == gas_bid / (gas_limit as u128),
                gas_limit > 0,
        ;
    }
    fee
}

/// The budget as numbers: what has been spent (confirmed or reserved), the
/// cap, and how much of the spent amount is still only reserved.
pub struct BudgetState {
    pub spent: nat,
    pub cap: nat,
    pub reserved: nat,
}

/// One operation on the budget, with the amount it concerns.
pub enum BudgetOp {
    Reserve(nat),
    Release(nat),
    Confirm(nat),
}

pub open spec fn budget_consistent(s: BudgetState) -> bool {
    s.reserved <= s.spent <= s.cap
}

/// A reservation fits when it keeps the spent amount within the cap.
pub open spec fn reserve_fits(s: BudgetState, amount: nat) -> bool {
    s.spent + amount <= s.cap
}

/// A release or a confirmation can only concern an amount still reserved.
pub open spec fn settles(s: BudgetState, amount: nat) -> bool {
    amount <= s.reserved
}

/// The budget after one operation; an operation that is refused changes nothing.
pub open spec fn budget_step(s: BudgetState, op: BudgetOp) -> BudgetState {
    match op {
        BudgetOp::Reserve(a) => if reserve_fits(s, a) {
            BudgetState { spent: s.spent + a, cap: s.cap, reserved: s.reserved + a }
        } else {
            s
        },
        BudgetOp::Release(a) => if settles(s, a) {
            BudgetState { spent: (s.spent - a) as nat, cap: s.cap, reserved: (s.reserved - a) as nat }
        } else {
            s
        },
        BudgetOp::Confirm(a) => if settles(s, a) {
            BudgetState { spent: s.spent, cap: s.cap, reserved: (s.reserved - a) as nat }
        } else {
            s
        },
    }
}

pub open spec fn budget_run(s: BudgetState, ops: Seq<BudgetOp>) -> BudgetState
    decreases ops.len(),
{
    if ops.len() == 0 {
        s
    } else {
        budget_step(budget_run(s, ops.drop_last()), ops.last())
    }
}

/// Across any interleaving of reservations, releases and confirmations, the
/// spent amount never exceeds the cap, and the cap never moves.
pub proof fn lemma_spent_never_exceeds_cap(s: BudgetState, ops: Seq<BudgetOp>)
    requires
        budget_consistent(s),
    ensures
        budget_consistent(budget_run(s, ops)),
        budget_run(s, ops).spent <= s.cap,
        budget_run(s, ops).cap == s.cap,
    decreases ops.len(),
{
    if ops.len() > 0 {
        lemma_spent_never_exceeds_cap(s, ops.drop_last());
    }
}

/// Releasing a reservation that was never confirmed gives back exactly what
/// it took: reserve then release leaves the budget as it was.
pub proof fn lemma_reserve_release_round_trip(s: BudgetState, amount: nat)
    requires
        budget_consistent(s),
        reserve_fits(s, amount),
    ensures
        budget_step(budget_step(s, BudgetOp::Reserve(amount)), BudgetOp::Release(amount)) == s,
{
}

/// Why the budget refused an operation.
#[derive(Clone, Copy, Debug, PartialEq, Eq, Structural)]
pub enum BudgetError {
    /// The reservation would take the spent amount past the cap.
    BudgetExceeded { requested: u128, available: u128 },
    /// The reservation does not belong to this ledger's outstanding amount.
    UnknownReservation,
}

/// A claim on part of the budget, handed out by [`BudgetLedger::reserve`]. It
/// cannot be copied: it is settled once, by `confirm` or by `release`.
pub struct Reservation {
    amount: u128,
}

impl Reservation {
    pub closed spec fn amount_spec(&self) -> u128 {
        self.amount
    }

    pub fn amount(&self) -> (r: u128)
        ensures
            r == self.amount_spec(),
    {
        self.amount
    }
}

/// Cumulative spending against a fixed cap.
pub struct BudgetLedger {
    cumulative_spent: u128,
    cap: u128,
    reserved: u128,
}

impl View for BudgetLedger {
    type V = BudgetState;

    closed spec fn view(&self) -> BudgetState {
        BudgetState {
            spent: self.cumulative_spent as nat,
            cap: self.cap as nat,
            reserved: self.reserved as nat,
        }
    }
}

impl BudgetLedger {
    pub closed spec fn wf(&self) -> bool {
        self.reserved <= self.cumulative_spent <= self.cap
    }

    pub proof fn lemma_consistent(&self)
        requires
            self.wf(),
        ensures
            budget_consistent(self@),
    {
    }

    pub fn new(cap: u128) -> (l: Self)
        ensures
            l.wf(),
            l@ == (BudgetState { spent: 0, cap: cap as nat, reserved: 0 }),
    {
        BudgetLedger { cumulative_spent: 0, cap, reserved: 0 }
    }

    pub fn cumulative_spent(&self) -> (r: u128)
        ensures
            r == self@.spent,
    {
        self.cumulative_spent
    }

    pub fn cap(&self) -> (r: u128)
        ensures
            r == self@.cap,
    {
        self.cap
    }

    /// What can still be reserved.
    pub fn available(&self) -> (r: u128)
        requires
            self.wf(),
        ensures
            r == self@.cap - self@.spent,
    {
        self.cap - self.cumulative_spent
    }

    /// Reserves `amount`, or fails with `BudgetExceeded` and changes nothing
    /// when that would take the spent amount past the cap.
    pub fn reserve(&mut self, amount: u128) -> (r: Result<Reservation, BudgetError>)
        requires
            old(self).wf(),
        ensures
            final(self).wf(),
            final(self)@ == budget_step(old(self)@, BudgetOp::Reserve(amount as nat)),
            reserve_fits(old(self)@, amount as nat) ==> (r matches Ok(t) && t.amount_spec() == amount),
            !reserve_fits(old(self)@, amount as nat) ==> r == Err::<Reservation, BudgetError>(
                BudgetError::BudgetExceeded {
                    requested: amount,
                    available: (old(self)@.cap - old(self)@.spent) as u128,
                },
            ),
    {
        let available = self.cap - self.cumulative_spent;
        if amount > available {
            return Err(BudgetError::BudgetExceeded { requested: amount, available });
        }
        self.cumulative_spent = self.cumulative_spent + amount;
        self.reserved = self.reserved + amount;
        Ok(Reservation { amount })
    }

    /// Gives back an unconfirmed reservation: the spent amount drops by
    /// exactly what it reserved.
    pub fn release(&mut self, reservation: Reservation) -> (r: Result<(), BudgetError>)
        requires
            old(self).wf(),
        ensures
            final(self).wf(),
            final(self)@ == budget_step(old(self)@, BudgetOp::Release(reservation.amount_spec() as nat)),
            r is Ok <==> settles(old(self)@, reservation.amount_spec() as nat),
            r is Err ==> r == Err::<(), BudgetError>(BudgetError::UnknownReservation),
    {
        if reservation.amount > self.reserved {
            return Err(BudgetError::UnknownReservation);
        }
        self.reserved = self.reserved - reservation.amount;
        self.cumulative_spent = self.cumulative_spent - reservation.amount;
        Ok(())
    }

    /// Makes a reservation final: its amount stays spent for good.
    pub fn confirm(&mut self, reservation: Reservation) -> (r: Result<(), BudgetError>)
        requires
            old(self).wf(),
        ensures
            final(self).wf(),
            final(self)@ == budget_step(old(self)@, BudgetOp::Confirm(reservation.amount_spec() as nat)),
            r is Ok <==> settles(old(self)@, reservation.amount_spec() as nat),
            r is Err ==> r == Err::<(), BudgetError>(BudgetError::UnknownReservation),
    {
        if reservation.amount > self.reserved {
            return Err(BudgetError::UnknownReservation);
        }
        self.reserved = self.reserved - reservation.amount;
        Ok(())
    }
}

} // verus!
