//! The ledger's records: one inflow or outflow each, with its amount in
//! cents, a note, and the instants of its creation and last change.

use crate::clock::Instant;
use vstd::prelude::*;

verus! {

/// Whether money came in or went out.
#[derive(Clone, Copy, Debug, PartialEq, Eq, Structural)]
pub enum Direction {
    In,
    Out,
}

impl Direction {
    /// The direction that a stored flag stands for: `true` is `In`.
    pub fn from_flag(in_or_out: bool) -> (d: Direction)
        ensures
            d == flag_direction(in_or_out),
    {
        if in_or_out {
            Direction::In
        } else {
            Direction::Out
        }
    }

    /// The flag under which this direction is stored: `true` for `In`.
    pub fn is_in(&self) -> (flag: bool)
        ensures
            flag == (*self == Direction::In),
            flag_direction(flag) == *self,
    {
        match self {
            Direction::In => true,
            Direction::Out => false,
        }
    }
}

/// The direction that a stored flag stands for.
pub open spec fn flag_direction(in_or_out: bool) -> Direction {
    if in_or_out {
        Direction::In
    } else {
        Direction::Out
    }
}

/// One record of the ledger.
#[derive(Debug, PartialEq, Eq)]
pub struct Amount {
    /// The record's number, given by the store; positive once stored.
    pub id: i32,
    /// The amount in cents, without sign.
    pub amount: u32,
    /// The direction: `true` for money that came in.
    pub in_or_out: bool,
    /// A free note, possibly empty.
    pub append_msg: String,
    /// When the record was made.
    pub created_at: Instant,
    /// When the record was last changed.
    pub updated_at: Instant,
}

/// A record as a value: the note as a sequence of characters, the rest as
/// it is.
pub struct AmountView {
    pub id: i32,
    pub amount: u32,
    pub in_or_out: bool,
    pub append_msg: Seq<char>,
    pub created_at: Instant,
    pub updated_at: Instant,
}

impl View for Amount {
    type V = AmountView;

    open spec fn view(&self) -> AmountView {
        AmountView {
            id: self.id,
            amount: self.amount,
            in_or_out: self.in_or_out,
            append_msg: self.append_msg@,
            created_at: self.created_at,
            updated_at: self.updated_at,
        }
    }
}

impl Clone for Amount {
    fn clone(&self) -> (copy: Amount)
        ensures
            copy == *self,
    {
        Amount {
            id: self.id,
            amount: self.amount,
            in_or_out: self.in_or_out,
            append_msg: self.append_msg.clone(),
            created_at: self.created_at,
            updated_at: self.updated_at,
        }
    }
}

impl AmountView {
    /// The record's direction.
    pub open spec fn direction(self) -> Direction {
        flag_direction(self.in_or_out)
    }

    /// The amount with its sign: positive for money that came in, negative
    /// for money that went out.
    pub open spec fn signed_cents(self) -> int {
        if self.in_or_out {
            self.amount as int
        } else {
            -(self.amount as int)
        }
    }

    /// A record is never changed before it was made.
    pub open spec fn wf(self) -> bool {
        self.created_at.secs <= self.updated_at.secs
    }

    /// Whether this record is listed before `other`: the one changed
    /// earlier first, and of two changed in the same second the one with the
    /// smaller id.
    pub open spec fn listed_before(self, other: AmountView) -> bool {
        self.updated_at.secs < other.updated_at.secs || (self.updated_at.secs
            == other.updated_at.secs && self.id < other.id)
    }
}

impl Amount {
    /// The record's direction.
    pub fn direction(&self) -> (d: Direction)
        ensures
            d == self@.direction(),
    {
        Direction::from_flag(self.in_or_out)
    }

    /// The amount with its sign.
    pub fn signed_cents(&self) -> (cents: i64)
        ensures
            cents == self@.signed_cents(),
    {
        if self.in_or_out {
            self.amount as i64
        } else {
            -(self.amount as i64)
        }
    }

    /// Whether this record is listed before `other`.
    pub fn is_listed_before(&self, other: &Amount) -> (b: bool)
        ensures
            b == self@.listed_before(other@),
    {
        self.updated_at.secs < other.updated_at.secs || (self.updated_at.secs
            == other.updated_at.secs && self.id < other.id)
    }
}

/// The records of a sequence as values.
pub open spec fn views(records: Seq<Amount>) -> Seq<AmountView> {
    records.map_values(|a: Amount| a@)
}

/// The signed sum of the records: what came in, less what went out.
pub open spec fn sum_over(records: Seq<AmountView>) -> int
    decreases records.len(),
{
    if records.len() == 0 {
        0
    } else {
        sum_over(records.drop_last()) + records.last().signed_cents()
    }
}

/// The direction reported for a signed total: `In` unless it is negative.
pub open spec fn total_direction(total: int) -> Direction {
    if total >= 0 {
        Direction::In
    } else {
        Direction::Out
    }
}

/// The amount reported for a signed total: its absolute value.
pub open spec fn total_magnitude(total: int) -> nat {
    if total >= 0 {
        total as nat
    } else {
        (-total) as nat
    }
}

/// The signed sum of a sequence of records lies within the number of records
/// times the largest amount.
pub proof fn lemma_sum_bounds(records: Seq<AmountView>)
    ensures
        -(records.len() * 0xffff_ffff) <= sum_over(records) <= records.len() * 0xffff_ffff,
    decreases records.len(),
{
    if records.len() > 0 {
        lemma_sum_bounds(records.drop_last());
    }
}

/// The signed sum of the records, which is exact: the sum of as many amounts
/// as a vector holds fits the result.
pub fn sum_records(records: &Vec<Amount>) -> (total: i128)
    ensures
        total == sum_over(views(records@)),
{
    let mut total: i128 = 0;
    let mut i: usize = 0;
    while i < records.len()
        invariant
            i <= records.len(),
            total == sum_over(views(records@).take(i as int)),
        decreases records.len() - i,
    {
        proof {
            let before = views(records@).take(i as int);
            let after = views(records@).take(i + 1);
            assert(after.drop_last() =~= before);
            assert(after.last() == records@[i as int]@);
            lemma_sum_bounds(before);
        }
        total = total + records[i].signed_cents() as i128;
        i += 1;
    }
    assert(views(records@).take(i as int) =~= views(records@));
    total
}

} // verus!
