//! The ledger data model: a budget period (`Account`) holding `Day` entries,
//! each holding `Expense` entries. Constructed once by the loader and
//! read-only thereafter.

use vstd::prelude::*;
use crate::date::Date;
use crate::money::Money;
use crate::money::is_amount;

verus! {

/// Hard cap on how many expenses one ledger may hold; together with the
/// loader's per-amount cap it keeps every engine sum inside machine range.
pub const MAX_EXPENSES: usize = 1_000_000;

/// Hard cap on how many parties one expense may be shared with; every split
/// by a count up to this (or this plus one, for the owner's share) is exact.
pub const MAX_SHARED: usize = 30;

/// One spend event.
#[derive(Debug, PartialEq)]
pub struct Expense {
    /// Free-text label; not used in computation.
    pub name: String,
    /// The face cost of the event.
    pub price: Money,
    /// Whom this expense is shared with (if anybody).
    pub shared: Vec<String>,
    /// Whether this was something paid for somebody else, and thus owed
    /// back. If true, `shared` names the debtors and should not be empty.
    pub owed: bool,
    /// Optional category label; uncategorized expenses count toward the
    /// grand total but toward no per-category figure.
    pub category: Option<String>,
}

/// One calendar date's activity. Several entries may carry the same date;
/// they accumulate independently.
#[derive(Debug, PartialEq)]
pub struct Day {
    pub date: Date,
    pub expenses: Vec<Expense>,
}

/// The whole tracked period.
#[derive(Debug, PartialEq)]
pub struct Account {
    pub start_date: Date,
    pub end_date: Date,
    /// Total money allotted for the period.
    pub budget: Money,
    /// Category names flagged as non-discretionary; membership only.
    pub essential_categories: Vec<String>,
    /// Day entries in source order; not assumed sorted by date.
    pub days: Vec<Day>,
}

impl Expense {
    pub open spec fn wf(self) -> bool {
        &&& is_amount(self.price)
        &&& self.shared@.len() <= MAX_SHARED
    }
}

impl Day {
    pub open spec fn wf(self) -> bool {
        &&& self.date.wf()
        &&& forall|i: int| 0 <= i < self.expenses@.len() ==> (#[trigger] self.expenses@[i]).wf()
    }
}

/// Expenses held by the day entries of `days`, in all.
pub open spec fn expense_count(days: Seq<Day>) -> int
    decreases days.len(),
{
    if days.len() == 0 {
        0
    } else {
        expense_count(days.drop_last()) + days.last().expenses@.len()
    }
}

impl Account {
    /// What the loader establishes: valid dates, capped exact amounts, and
    /// sizes small enough that every figure the engine derives fits its
    /// machine integer.
    pub open spec fn wf(self) -> bool {
        &&& self.start_date.wf()
        &&& self.end_date.wf()
        &&& is_amount(self.budget)
        &&& forall|i: int| 0 <= i < self.days@.len() ==> (#[trigger] self.days@[i]).wf()
        &&& expense_count(self.days@) <= MAX_EXPENSES
    }
}

proof fn lemma_expense_count_nonneg(days: Seq<Day>)
    ensures
        expense_count(days) >= 0,
    decreases days.len(),
{
    if days.len() > 0 {
        lemma_expense_count_nonneg(days.drop_last());
    }
}

/// The expense count of a prefix never exceeds the whole's.
pub proof fn lemma_expense_count_prefix(days: Seq<Day>, i: int)
    requires
        0 <= i <= days.len(),
    ensures
        expense_count(days.take(i)) + (if i < days.len() {
            days[i].expenses@.len() as int
        } else {
            0
        }) <= expense_count(days),
        expense_count(days.take(i)) >= 0,
    decreases days.len() - i,
{
    lemma_expense_count_nonneg(days.take(i));
    if i < days.len() {
        assert(days.take(i + 1).drop_last() =~= days.take(i));
        assert(days.take(i + 1).last() == days[i]);
        lemma_expense_count_prefix(days, i + 1);
    } else {
        assert(days.take(i) =~= days);
    }
}

/// Whether every entry of `account` is well-formed and within the engine's
/// caps; the engine's precondition, checked before calling it.
pub fn check_account(account: &Account) -> (b: bool)
    ensures
        b == account.wf(),
{
    if !check_date(&account.start_date) {
        return false;
    }
    if !check_date(&account.end_date) {
        return false;
    }
    if !crate::money::check_amount(&account.budget) {
        return false;
    }
    let mut count: usize = 0;
    let n = account.days.len();
    let mut i: usize = 0;
    while i < n
        invariant
            n == account.days@.len(),
            0 <= i <= n,
            forall|t: int| 0 <= t < i ==> (#[trigger] account.days@[t]).wf(),
            count == expense_count(account.days@.take(i as int)),
            count <= MAX_EXPENSES,
        decreases n - i,
    {
        let day = &account.days[i];
        if !check_date(&day.date) {
            return false;
        }
        let m = day.expenses.len();
        let mut j: usize = 0;
        while j < m
            invariant
                0 <= i < account.days@.len(),
                *day == account.days@[i as int],
                m == day.expenses@.len(),
                0 <= j <= m,
                forall|t: int| 0 <= t < j ==> (#[trigger] day.expenses@[t]).wf(),
            decreases m - j,
        {
            let e = &day.expenses[j];
            if !crate::money::check_amount(&e.price) {
                return false;
            }
            if e.shared.len() > MAX_SHARED {
                return false;
            }
            j = j + 1;
        }
        if m > MAX_EXPENSES || count > MAX_EXPENSES - m {
            proof {
                lemma_expense_count_prefix(account.days@, i as int);
            }
            return false;
        }
        count = count + m;
        proof {
            assert(account.days@.take(i as int + 1).drop_last() =~= account.days@.take(i as int));
            assert(account.days@.take(i as int + 1).last() == account.days@[i as int]);
        }
        i = i + 1;
    }
    proof {
        assert(account.days@.take(n as int) =~= account.days@);
    }
    true
}

/// Whether the fields name a real calendar date.
pub fn check_date(d: &Date) -> (b: bool)
    ensures
        b == d.wf(),
{
    1 <= d.year && d.year <= 9999 && 1 <= d.month && d.month <= 12 && 1 <= d.day && d.day
        <= crate::date::month_days(d.year, d.month)
}

} // verus!
