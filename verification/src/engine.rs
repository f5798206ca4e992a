//! The aggregation engine: one pass over every day and expense of a ledger,
//! deriving totals, per-category subtotals, daily averages, the owed-party
//! ledger, and budget-runway projections.
//!
//! Every figure is stated as a fold over the ledger's expenses, so the
//! result is pinned for every input: the grand total is the exact sum of
//! includable amounts, each category's subtotal the exact sum over that
//! category, the owed mapping the exact per-person sum of shares, and each
//! average or runway figure the exact extended quotient of those sums.

use vstd::prelude::*;
use crate::date::Date;
use crate::date::day_index;
use crate::date::day_number;
use crate::money::Money;
use crate::money::AMOUNT_LIMIT;
use crate::money::UNIT_SCALE;
use crate::money::split_units;
use crate::model::Account;
use crate::model::Day;
use crate::model::Expense;
use crate::model::MAX_EXPENSES;
use crate::model::MAX_SHARED;
use crate::model::expense_count;
use crate::model::lemma_expense_count_prefix;
use crate::ratio::Ratio;
use crate::ratio::is_quotient;
use crate::ratio::ratio_of;
use crate::tally::Tally;
use crate::tally::keys_unique;

verus! {

pub open spec fn shared_count(e: Expense) -> int {
    e.shared@.len() as int
}

/// Whether an expense counts toward the owner's own spend figures: always,
/// except a paid-for-others expense viewed without the `consider_owed`
/// pretence.
pub open spec fn included(e: Expense, consider_owed: bool) -> bool {
    shared_count(e) == 0 || consider_owed || !e.owed
}

/// Per-party share of a shared expense: the price over the number of
/// debtors when owed, or over parties plus owner when genuinely split.
/// Zero when the expense is not shared.
pub open spec fn share_units(e: Expense) -> int {
    if shared_count(e) == 0 {
        0
    } else if e.owed {
        e.price.units as int / shared_count(e)
    } else {
        e.price.units as int / (shared_count(e) + 1)
    }
}

/// The includable amount: the portion of the price counted toward the
/// owner's own spend total.
pub open spec fn includable_units(e: Expense, consider_owed: bool) -> int {
    if shared_count(e) == 0 || consider_owed {
        e.price.units as int
    } else if e.owed {
        0
    } else {
        share_units(e)
    }
}

pub open spec fn cat_match(e: Expense, cat: Seq<char>) -> bool {
    match e.category {
        Some(c) => c@ == cat,
        None => false,
    }
}

/// This expense's contribution to the subtotal of category `cat`.
pub open spec fn cat_amount(e: Expense, consider_owed: bool, cat: Seq<char>) -> int {
    if included(e, consider_owed) && cat_match(e, cat) {
        includable_units(e, consider_owed)
    } else {
        0
    }
}

/// One when this expense makes category `cat` appear in the summary.
pub open spec fn cat_mention(e: Expense, consider_owed: bool, cat: Seq<char>) -> int {
    if included(e, consider_owed) && cat_match(e, cat) {
        1
    } else {
        0
    }
}

/// Whether some name of `names` reads `s`.
pub open spec fn in_names(names: Seq<String>, s: Seq<char>) -> bool {
    exists|i: int| 0 <= i < names.len() && names[i]@ == s
}

/// This expense's contribution to the essential subtotal.
pub open spec fn ess_amount(e: Expense, consider_owed: bool, ess: Seq<String>) -> int {
    if included(e, consider_owed) && (match e.category {
        Some(c) => in_names(ess, c@),
        None => false,
    }) {
        includable_units(e, consider_owed)
    } else {
        0
    }
}

/// How often the name `p` occurs in `names`.
pub open spec fn name_count(names: Seq<String>, p: Seq<char>) -> int
    decreases names.len(),
{
    if names.len() == 0 {
        0
    } else {
        name_count(names.drop_last(), p) + if names.last()@ == p {
            1int
        } else {
            0int
        }
    }
}

/// What the parties of this expense owe back, in all: one share per listed
/// occurrence of a name.
pub open spec fn owed_amount(e: Expense) -> int {
    shared_count(e) * share_units(e)
}

/// This expense's contribution to what person `p` owes.
pub open spec fn person_amount(e: Expense, p: Seq<char>) -> int {
    name_count(e.shared@, p) * share_units(e)
}

/// Sum of `f` over a run of expenses.
pub open spec fn sum_expenses(es: Seq<Expense>, f: spec_fn(Expense) -> int) -> int
    decreases es.len(),
{
    if es.len() == 0 {
        0
    } else {
        sum_expenses(es.drop_last(), f) + f(es.last())
    }
}

/// Sum of `f` over every expense of every day.
pub open spec fn sum_days(days: Seq<Day>, f: spec_fn(Expense) -> int) -> int
    decreases days.len(),
{
    if days.len() == 0 {
        0
    } else {
        sum_days(days.drop_last(), f) + sum_expenses(days.last().expenses@, f)
    }
}

pub open spec fn f_inc(consider_owed: bool) -> spec_fn(Expense) -> int {
    |e: Expense| includable_units(e, consider_owed)
}

pub open spec fn f_ess(consider_owed: bool, ess: Seq<String>) -> spec_fn(Expense) -> int {
    |e: Expense| ess_amount(e, consider_owed, ess)
}

pub open spec fn f_cat(consider_owed: bool, cat: Seq<char>) -> spec_fn(Expense) -> int {
    |e: Expense| cat_amount(e, consider_owed, cat)
}

pub open spec fn f_catm(consider_owed: bool, cat: Seq<char>) -> spec_fn(Expense) -> int {
    |e: Expense| cat_mention(e, consider_owed, cat)
}

pub open spec fn f_person(p: Seq<char>) -> spec_fn(Expense) -> int {
    |e: Expense| person_amount(e, p)
}

pub open spec fn f_persm(p: Seq<char>) -> spec_fn(Expense) -> int {
    |e: Expense| name_count(e.shared@, p)
}

pub open spec fn f_owed() -> spec_fn(Expense) -> int {
    |e: Expense| owed_amount(e)
}

pub open spec fn total_units(days: Seq<Day>, consider_owed: bool) -> int {
    sum_days(days, f_inc(consider_owed))
}

pub open spec fn essential_units(days: Seq<Day>, ess: Seq<String>, consider_owed: bool) -> int {
    sum_days(days, f_ess(consider_owed, ess))
}

pub open spec fn category_units(days: Seq<Day>, consider_owed: bool, cat: Seq<char>) -> int {
    sum_days(days, f_cat(consider_owed, cat))
}

pub open spec fn category_mentions(days: Seq<Day>, consider_owed: bool, cat: Seq<char>) -> int {
    sum_days(days, f_catm(consider_owed, cat))
}

pub open spec fn person_units(days: Seq<Day>, p: Seq<char>) -> int {
    sum_days(days, f_person(p))
}

pub open spec fn person_mentions(days: Seq<Day>, p: Seq<char>) -> int {
    sum_days(days, f_persm(p))
}

pub open spec fn owed_units(days: Seq<Day>) -> int {
    sum_days(days, f_owed())
}

/// The greatest day index among the entries (the entries are not assumed
/// sorted by date).
pub open spec fn max_day_index(days: Seq<Day>) -> int
    decreases days.len(),
{
    if days.len() <= 1 {
        day_index(days[0].date)
    } else {
        let rest = max_day_index(days.drop_last());
        if day_index(days.last().date) > rest {
            day_index(days.last().date)
        } else {
            rest
        }
    }
}

pub open spec fn has_date(days: Seq<Day>, d: Date) -> bool {
    exists|i: int| 0 <= i < days.len() && days[i].date == d
}

/// Whole days from the period's start through its latest entry, both ends
/// counted. The engine does not require the latest entry to lie at or past
/// the start: an earlier one yields a count of zero or less, and the
/// averages dividing by it come out non-finite or sign-flipped, as the
/// summary's contract states.
pub open spec fn days_elapsed(a: Account) -> int {
    max_day_index(a.days@) - day_index(a.start_date) + 1
}

/// The derived summary. Immutable once produced; recomputed fully on each
/// `calculate` call.
#[derive(Debug, PartialEq)]
pub struct Calculated {
    pub all_day_average: Ratio,
    pub essential_day_average: Ratio,
    pub categories_day_average: Tally<Ratio>,
    pub essential_subtotal: Money,
    pub categories_subtotal: Tally<Money>,
    pub total: Money,
    pub balance: Money,
    pub owed: Tally<Money>,
    pub total_owed: Money,
    pub days_left: Ratio,
    pub days_left_essential: Ratio,
    pub last_day: Date,
}

impl Calculated {
    /// What `calculate` promises of its summary: every scalar an exact
    /// fold over the ledger, every mapping holding exactly the names that
    /// appear on an included expense, and every division an exact extended
    /// quotient.
    pub open spec fn summarizes(self, a: Account, consider_owed: bool) -> bool {
        let days = a.days@;
        let de = days_elapsed(a);
        let t = total_units(days, consider_owed);
        let ess = essential_units(days, a.essential_categories@, consider_owed);
        let bal = a.budget.units as int - t;
        &&& self.total.units as int == t
        &&& self.essential_subtotal.units as int == ess
        &&& self.balance.units as int == bal
        &&& self.total_owed.units as int == owed_units(days)
        &&& has_date(days, self.last_day)
        &&& day_index(self.last_day) == max_day_index(days)
        &&& self.categories_subtotal.wf()
        &&& forall|cat: Seq<char>|
            (#[trigger] self.categories_subtotal.get_spec(cat) is Some) == (category_mentions(
                days,
                consider_owed,
                cat,
            ) > 0)
        &&& forall|cat: Seq<char>|
            #[trigger] self.categories_subtotal.get_spec(cat) matches Some(m) ==> m.units as int
                == category_units(days, consider_owed, cat)
        &&& self.owed.wf()
        &&& forall|p: Seq<char>|
            (#[trigger] self.owed.get_spec(p) is Some) == (person_mentions(days, p) > 0)
        &&& forall|p: Seq<char>|
            #[trigger] self.owed.get_spec(p) matches Some(m) ==> m.units as int == person_units(
                days,
                p,
            )
        &&& is_quotient(self.all_day_average, t, UNIT_SCALE as int * de)
        &&& is_quotient(self.essential_day_average, ess, UNIT_SCALE as int * de)
        &&& self.categories_day_average.wf()
        &&& forall|cat: Seq<char>|
            (#[trigger] self.categories_day_average.get_spec(cat) is Some) == (category_mentions(
                days,
                consider_owed,
                cat,
            ) > 0)
        &&& forall|cat: Seq<char>|
            #[trigger] self.categories_day_average.get_spec(cat) matches Some(r) ==> is_quotient(
                r,
                category_units(days, consider_owed, cat),
                UNIT_SCALE as int * de,
            )
        &&& is_quotient(self.days_left, bal * de, t)
        &&& is_quotient(self.days_left_essential, bal * de, ess)
    }
}

proof fn lemma_sum_expenses_step(es: Seq<Expense>, j: int, f: spec_fn(Expense) -> int)
    requires
        0 <= j < es.len(),
    ensures
        sum_expenses(es.take(j + 1), f) == sum_expenses(es.take(j), f) + f(es[j]),
{
    assert(es.take(j + 1).drop_last() =~= es.take(j));
    assert(es.take(j + 1).last() == es[j]);
}

proof fn lemma_sum_days_step(days: Seq<Day>, i: int, f: spec_fn(Expense) -> int)
    requires
        0 <= i < days.len(),
    ensures
        sum_days(days.take(i + 1), f) == sum_days(days.take(i), f) + sum_expenses(
            days[i].expenses@,
            f,
        ),
{
    assert(days.take(i + 1).drop_last() =~= days.take(i));
    assert(days.take(i + 1).last() == days[i]);
}

proof fn lemma_name_count_step(names: Seq<String>, s: int, p: Seq<char>)
    requires
        0 <= s < names.len(),
    ensures
        name_count(names.take(s + 1), p) == name_count(names.take(s), p) + if names[s]@ == p {
            1int
        } else {
            0int
        },
{
    assert(names.take(s + 1).drop_last() =~= names.take(s));
    assert(names.take(s + 1).last() == names[s]);
}

proof fn lemma_name_count_range(names: Seq<String>, p: Seq<char>)
    ensures
        0 <= name_count(names, p) <= names.len(),
    decreases names.len(),
{
    if names.len() > 0 {
        lemma_name_count_range(names.drop_last(), p);
    }
}

/// A pointwise-nonnegative `f` has a nonnegative sum.
proof fn lemma_sum_days_nonneg(days: Seq<Day>, f: spec_fn(Expense) -> int)
    requires
        forall|i: int, j: int|
            0 <= i < days.len() && 0 <= j < (#[trigger] days[i].expenses@).len() ==> #[trigger] f(
                days[i].expenses@[j],
            ) >= 0,
    ensures
        sum_days(days, f) >= 0,
    decreases days.len(),
{
    if days.len() > 0 {
        let prefix = days.drop_last();
        assert(forall|i: int| 0 <= i < prefix.len() ==> prefix[i] == days[i]);
        lemma_sum_days_nonneg(prefix, f);
        assert(days.last() == days[days.len() - 1]);
        lemma_sum_expenses_nonneg(days.last().expenses@, f);
    }
}

proof fn lemma_sum_expenses_nonneg(es: Seq<Expense>, f: spec_fn(Expense) -> int)
    requires
        forall|j: int| 0 <= j < es.len() ==> #[trigger] f(es[j]) >= 0,
    ensures
        sum_expenses(es, f) >= 0,
    decreases es.len(),
{
    if es.len() > 0 {
        assert(forall|j: int|
            0 <= j < es.drop_last().len() ==> es.drop_last()[j] == es[j]);
        lemma_sum_expenses_nonneg(es.drop_last(), f);
        assert(f(es.last()) == f(es[es.len() - 1]));
    }
}

/// When a nonnegative marker sum is zero, a value sum vanishing wherever
/// the marker does is zero too.
proof fn lemma_sum_expenses_zero(
    es: Seq<Expense>,
    fm: spec_fn(Expense) -> int,
    fv: spec_fn(Expense) -> int,
)
    requires
        forall|j: int| 0 <= j < es.len() ==> #[trigger] fm(es[j]) >= 0,
        forall|j: int| 0 <= j < es.len() ==> (fm(es[j]) == 0 ==> #[trigger] fv(es[j]) == 0),
        sum_expenses(es, fm) == 0,
    ensures
        sum_expenses(es, fv) == 0,
    decreases es.len(),
{
    if es.len() > 0 {
        assert(forall|j: int|
            0 <= j < es.drop_last().len() ==> es.drop_last()[j] == es[j]);
        lemma_sum_expenses_nonneg(es.drop_last(), fm);
        assert(fm(es.last()) == fm(es[es.len() - 1]));
        assert(fv(es.last()) == fv(es[es.len() - 1]));
        lemma_sum_expenses_zero(es.drop_last(), fm, fv);
    }
}

proof fn lemma_sum_days_zero(days: Seq<Day>, fm: spec_fn(Expense) -> int, fv: spec_fn(
    Expense,
) -> int)
    requires
        forall|i: int, j: int|
            0 <= i < days.len() && 0 <= j < (#[trigger] days[i].expenses@).len() ==> #[trigger] fm(
                days[i].expenses@[j],
            ) >= 0,
        forall|i: int, j: int|
            0 <= i < days.len() && 0 <= j < (#[trigger] days[i].expenses@).len() ==> (fm(
                days[i].expenses@[j],
            ) == 0 ==> #[trigger] fv(days[i].expenses@[j]) == 0),
        sum_days(days, fm) == 0,
    ensures
        sum_days(days, fv) == 0,
    decreases days.len(),
{
    if days.len() > 0 {
        let prefix = days.drop_last();
        assert(forall|i: int| 0 <= i < prefix.len() ==> prefix[i] == days[i]);
        assert(days.last() == days[days.len() - 1]);
        lemma_sum_days_nonneg(prefix, fm);
        lemma_sum_expenses_nonneg(days.last().expenses@, fm);
        lemma_sum_days_zero(prefix, fm, fv);
        lemma_sum_expenses_zero(days.last().expenses@, fm, fv);
    }
}

/// A category never mentioned so far has a zero subtotal so far.
proof fn lemma_cat_zero(days: Seq<Day>, es: Seq<Expense>, co: bool, cat: Seq<char>)
    requires
        category_mentions(days, co, cat) + sum_expenses(es, f_catm(co, cat)) == 0,
    ensures
        category_units(days, co, cat) + sum_expenses(es, f_cat(co, cat)) == 0,
{
    lemma_catm_nonneg(days, es, co, cat);
    assert(forall|i: int, j: int|
        0 <= i < days.len() && 0 <= j < (#[trigger] days[i].expenses@).len() ==> #[trigger] f_catm(
            co,
            cat,
        )(days[i].expenses@[j]) >= 0);
    lemma_sum_days_zero(days, f_catm(co, cat), f_cat(co, cat));
    assert(forall|j: int| 0 <= j < es.len() ==> #[trigger] f_catm(co, cat)(es[j]) >= 0);
    lemma_sum_expenses_zero(es, f_catm(co, cat), f_cat(co, cat));
}

/// A person never mentioned so far is owed nothing so far.
proof fn lemma_person_zero(days: Seq<Day>, es: Seq<Expense>, p: Seq<char>)
    requires
        person_mentions(days, p) + sum_expenses(es, f_persm(p)) == 0,
    ensures
        person_units(days, p) == 0,
        sum_expenses(es, f_person(p)) == 0,
{
    lemma_persm_nonneg(days, es, p);
    assert forall|i: int, j: int|
        0 <= i < days.len() && 0 <= j < (#[trigger] days[i].expenses@).len() implies #[trigger] f_persm(
        p,
    )(days[i].expenses@[j]) >= 0 && (f_persm(p)(days[i].expenses@[j]) == 0 ==> f_person(p)(
        days[i].expenses@[j],
    ) == 0) by {
        lemma_name_count_range(days[i].expenses@[j].shared@, p);
    }
    lemma_sum_days_zero(days, f_persm(p), f_person(p));
    assert forall|j: int| 0 <= j < es.len() implies #[trigger] f_persm(p)(es[j]) >= 0 && (f_persm(
        p,
    )(es[j]) == 0 ==> f_person(p)(es[j]) == 0) by {
        lemma_name_count_range(es[j].shared@, p);
    }
    lemma_sum_expenses_zero(es, f_persm(p), f_person(p));
}

proof fn lemma_catm_nonneg(days: Seq<Day>, es: Seq<Expense>, co: bool, cat: Seq<char>)
    ensures
        category_mentions(days, co, cat) >= 0,
        sum_expenses(es, f_catm(co, cat)) >= 0,
{
    assert(forall|i: int, j: int|
        0 <= i < days.len() && 0 <= j < (#[trigger] days[i].expenses@).len() ==> #[trigger] f_catm(
            co,
            cat,
        )(days[i].expenses@[j]) >= 0);
    lemma_sum_days_nonneg(days, f_catm(co, cat));
    assert(forall|j: int| 0 <= j < es.len() ==> #[trigger] f_catm(co, cat)(es[j]) >= 0);
    lemma_sum_expenses_nonneg(es, f_catm(co, cat));
}

proof fn lemma_persm_nonneg(days: Seq<Day>, es: Seq<Expense>, p: Seq<char>)
    ensures
        person_mentions(days, p) >= 0,
        sum_expenses(es, f_persm(p)) >= 0,
{
    assert forall|i: int, j: int|
        0 <= i < days.len() && 0 <= j < (#[trigger] days[i].expenses@).len() implies #[trigger] f_persm(
        p,
    )(days[i].expenses@[j]) >= 0 by {
        lemma_name_count_range(days[i].expenses@[j].shared@, p);
    }
    lemma_sum_days_nonneg(days, f_persm(p));
    assert forall|j: int| 0 <= j < es.len() implies #[trigger] f_persm(p)(es[j]) >= 0 by {
        lemma_name_count_range(es[j].shared@, p);
    }
    lemma_sum_expenses_nonneg(es, f_persm(p));
}

/// Bounds on the split and includable amounts of a well-formed expense.
proof fn lemma_expense_bounds(e: Expense, consider_owed: bool)
    requires
        e.wf(),
    ensures
        -AMOUNT_LIMIT <= share_units(e) <= AMOUNT_LIMIT,
        -AMOUNT_LIMIT <= includable_units(e, consider_owed) <= AMOUNT_LIMIT,
        -2 * AMOUNT_LIMIT <= owed_amount(e) <= 2 * AMOUNT_LIMIT,
        forall|p: Seq<char>|
            -31 * AMOUNT_LIMIT <= #[trigger] person_amount(e, p) <= 31 * AMOUNT_LIMIT,
{
    let u = e.price.units as int;
    let k = shared_count(e);
    if k > 0 {
        let d = if e.owed {
            k
        } else {
            k + 1
        };
        crate::money::lemma_exact_division(u, d);
        assert(share_units(e) == u / d);
        assert((u / d) * d == u);
        assert(-AMOUNT_LIMIT <= u / d <= AMOUNT_LIMIT) by (nonlinear_arith)
            requires
                (u / d) * d == u,
                1 <= d <= 31,
                -AMOUNT_LIMIT as int <= u <= AMOUNT_LIMIT as int,
        ;
        assert(-2 * AMOUNT_LIMIT <= k * share_units(e) <= 2 * AMOUNT_LIMIT) by (nonlinear_arith)
            requires
                (u / d) * d == u,
                share_units(e) == u / d,
                d == k || d == k + 1,
                1 <= k <= 30,
                -AMOUNT_LIMIT as int <= u <= AMOUNT_LIMIT as int,
                -AMOUNT_LIMIT as int <= u / d <= AMOUNT_LIMIT as int,
        ;
    }
    assert forall|p: Seq<char>|
        -31 * AMOUNT_LIMIT <= #[trigger] person_amount(e, p) <= 31 * AMOUNT_LIMIT by {
        lemma_name_count_range(e.shared@, p);
        let c = name_count(e.shared@, p);
        assert(-31 * AMOUNT_LIMIT <= c * share_units(e) <= 31 * AMOUNT_LIMIT)
            by (nonlinear_arith)
            requires
                0 <= c <= 30,
                -AMOUNT_LIMIT as int <= share_units(e) <= AMOUNT_LIMIT as int,
        ;
    }
}

proof fn lemma_catm_expenses_iff(es: Seq<Expense>, co: bool, cat: Seq<char>)
    ensures
        (sum_expenses(es, f_catm(co, cat)) > 0) == (exists|j: int|
            0 <= j < es.len() && included(#[trigger] es[j], co) && cat_match(es[j], cat)),
    decreases es.len(),
{
    assert(forall|j: int| 0 <= j < es.len() ==> #[trigger] f_catm(co, cat)(es[j]) >= 0);
    lemma_sum_expenses_nonneg(es, f_catm(co, cat));
    if es.len() > 0 {
        let prefix = es.drop_last();
        assert(forall|j: int| 0 <= j < prefix.len() ==> prefix[j] == es[j]);
        lemma_catm_expenses_iff(prefix, co, cat);
        assert(es.last() == es[es.len() - 1]);
        assert(f_catm(co, cat)(es.last()) == cat_mention(es.last(), co, cat));
        lemma_sum_expenses_nonneg(prefix, f_catm(co, cat));
        if sum_expenses(es, f_catm(co, cat)) > 0 {
            if cat_mention(es.last(), co, cat) == 1 {
                assert(included(es[es.len() - 1], co) && cat_match(es[es.len() - 1], cat));
            } else {
                let j = choose|j: int|
                    0 <= j < prefix.len() && included(#[trigger] prefix[j], co) && cat_match(
                        prefix[j],
                        cat,
                    );
                assert(included(es[j], co) && cat_match(es[j], cat));
            }
        } else {
            if exists|j: int|
                0 <= j < es.len() && included(#[trigger] es[j], co) && cat_match(es[j], cat) {
                let j = choose|j: int|
                    0 <= j < es.len() && included(#[trigger] es[j], co) && cat_match(es[j], cat);
                if j < es.len() - 1 {
                    assert(included(prefix[j], co) && cat_match(prefix[j], cat));
                } else {
                    assert(cat_mention(es.last(), co, cat) == 1);
                }
                assert(false);
            }
        }
    }
}

/// A category is mentioned in a ledger exactly when some included expense
/// of some day carries it.
pub proof fn lemma_category_mentioned_iff(days: Seq<Day>, co: bool, cat: Seq<char>)
    ensures
        (category_mentions(days, co, cat) > 0) == (exists|i: int, j: int|
            0 <= i < days.len() && 0 <= j < (#[trigger] days[i].expenses@).len() && included(
                #[trigger] days[i].expenses@[j],
                co,
            ) && cat_match(days[i].expenses@[j], cat)),
    decreases days.len(),
{
    lemma_catm_nonneg(days, Seq::<Expense>::empty(), co, cat);
    if days.len() > 0 {
        let prefix = days.drop_last();
        assert(forall|i: int| 0 <= i < prefix.len() ==> prefix[i] == days[i]);
        assert(days.last() == days[days.len() - 1]);
        lemma_category_mentioned_iff(prefix, co, cat);
        lemma_catm_expenses_iff(days.last().expenses@, co, cat);
        lemma_catm_nonneg(prefix, days.last().expenses@, co, cat);
        if category_mentions(days, co, cat) > 0 {
            if sum_expenses(days.last().expenses@, f_catm(co, cat)) > 0 {
                let j = choose|j: int|
                    0 <= j < days.last().expenses@.len() && included(
                        #[trigger] days.last().expenses@[j],
                        co,
                    ) && cat_match(days.last().expenses@[j], cat);
                assert(0 <= days.len() - 1 < days.len() && 0 <= j
                    < days[days.len() - 1].expenses@.len() && included(
                    days[days.len() - 1].expenses@[j],
                    co,
                ) && cat_match(days[days.len() - 1].expenses@[j], cat));
            } else {
                let (i, j): (int, int) = choose|i: int, j: int|
                    0 <= i < prefix.len() && 0 <= j < (#[trigger] prefix[i].expenses@).len()
                        && included(#[trigger] prefix[i].expenses@[j], co) && cat_match(
                        prefix[i].expenses@[j],
                        cat,
                    );
                assert(0 <= i < days.len() && 0 <= j < days[i].expenses@.len() && included(
                    days[i].expenses@[j],
                    co,
                ) && cat_match(days[i].expenses@[j], cat));
            }
        } else {
            if exists|i: int, j: int|
                0 <= i < days.len() && 0 <= j < (#[trigger] days[i].expenses@).len() && included(
                    #[trigger] days[i].expenses@[j],
                    co,
                ) && cat_match(days[i].expenses@[j], cat) {
                let (i, j): (int, int) = choose|i: int, j: int|
                    0 <= i < days.len() && 0 <= j < (#[trigger] days[i].expenses@).len()
                        && included(#[trigger] days[i].expenses@[j], co) && cat_match(
                        days[i].expenses@[j],
                        cat,
                    );
                if i < days.len() - 1 {
                    assert(included(prefix[i].expenses@[j], co) && cat_match(
                        prefix[i].expenses@[j],
                        cat,
                    ));
                } else {
                    assert(included(days.last().expenses@[j], co) && cat_match(
                        days.last().expenses@[j],
                        cat,
                    ));
                }
                assert(false);
            }
        }
    }
}

/// Law: a category appears in the summary's subtotal mapping, and in its
/// day-average mapping, exactly when at least one included expense of the
/// ledger carries it; categories never referenced appear in neither.
pub proof fn lemma_category_completeness(c: Calculated, a: Account, co: bool, cat: Seq<char>)
    requires
        c.summarizes(a, co),
    ensures
        (c.categories_subtotal.get_spec(cat) is Some) == (exists|i: int, j: int|
            0 <= i < a.days@.len() && 0 <= j < (#[trigger] a.days@[i].expenses@).len() && included(
                #[trigger] a.days@[i].expenses@[j],
                co,
            ) && cat_match(a.days@[i].expenses@[j], cat)),
        (c.categories_day_average.get_spec(cat) is Some) == (c.categories_subtotal.get_spec(cat)
            is Some),
{
    lemma_category_mentioned_iff(a.days@, co, cat);
}

proof fn lemma_max_day_index_ge(days: Seq<Day>, i: int)
    requires
        0 <= i < days.len(),
    ensures
        day_index(days[i].date) <= max_day_index(days),
    decreases days.len(),
{
    if days.len() > 1 && i < days.len() - 1 {
        let prefix = days.drop_last();
        assert(prefix[i] == days[i]);
        lemma_max_day_index_ge(prefix, i);
    }
}

/// Law: the summary's `last_day` is the latest date on entry: it lies on
/// some entry, no entry's date lies after it, and any entry as late as it
/// carries that very date.
pub proof fn lemma_last_day_latest(c: Calculated, a: Account, co: bool)
    requires
        a.wf(),
        a.days@.len() > 0,
        c.summarizes(a, co),
    ensures
        has_date(a.days@, c.last_day),
        forall|i: int|
            0 <= i < a.days@.len() ==> day_index((#[trigger] a.days@[i]).date) <= day_index(
                c.last_day,
            ),
        forall|i: int|
            0 <= i < a.days@.len() && day_index((#[trigger] a.days@[i]).date) == day_index(
                c.last_day,
            ) ==> a.days@[i].date == c.last_day,
{
    let days = a.days@;
    assert forall|i: int|
        0 <= i < days.len() implies day_index((#[trigger] days[i]).date) <= day_index(
        c.last_day,
    ) by {
        lemma_max_day_index_ge(days, i);
    }
    let w = choose|w: int| 0 <= w < days.len() && days[w].date == c.last_day;
    assert(days[w].wf());
    assert forall|i: int|
        0 <= i < days.len() && day_index((#[trigger] days[i]).date) == day_index(
        c.last_day,
    ) implies days[i].date == c.last_day by {
        assert(days[i].wf());
        crate::date::lemma_day_index_injective(days[i].date, c.last_day);
    }
}

/// Law: whenever the all-day average is finite and non-zero, the runway is
/// the finite quotient of the balance by that average: cross-multiplied,
/// `days_left * average == balance`.
pub proof fn lemma_runway_from_average(c: Calculated, a: Account, co: bool)
    requires
        c.summarizes(a, co),
        c.all_day_average matches Ratio::Finite { num: an, den: ad } && an != 0,
    ensures
        c.days_left is Finite,
        c.days_left matches Ratio::Finite { num: n, den: d } ==> (c.all_day_average matches
            Ratio::Finite { num: an, den: ad } ==> n * an * (UNIT_SCALE as int) == (
        a.budget.units as int - total_units(a.days@, co)) * d * ad),
{
    let t = total_units(a.days@, co);
    let bal = a.budget.units as int - t;
    let de = days_elapsed(a);
    let us = UNIT_SCALE as int;
    match c.all_day_average {
        Ratio::Finite { num: an, den: ad } => {
            assert(an * (us * de) == t * ad);
            assert(us * de != 0);
            assert(de != 0) by (nonlinear_arith)
                requires
                    us * de != 0,
            ;
            assert(t != 0) by (nonlinear_arith)
                requires
                    an * (us * de) == t * ad,
                    an != 0,
                    ad > 0,
                    us * de != 0,
            ;
            match c.days_left {
                Ratio::Finite { num: n, den: d } => {
                    assert(n * t == (bal * de) * d);
                    assert(n * an * us == bal * d * ad) by (nonlinear_arith)
                        requires
                            an * (us * de) == t * ad,
                            n * t == (bal * de) * d,
                            de != 0,
                            t != 0,
                    ;
                },
                _ => {
                    assert(false);
                },
            }
        },
        _ => {
            assert(false);
        },
    }
}

/// Whether some name of `names` reads as `target`.
pub fn contains_name(names: &Vec<String>, target: &String) -> (b: bool)
    ensures
        b == in_names(names@, target@),
{
    let n = names.len();
    let mut i: usize = 0;
    while i < n
        invariant
            n == names@.len(),
            0 <= i <= n,
            forall|t: int| 0 <= t < i ==> names@[t]@ != target@,
        decreases n - i,
    {
        if names[i] == *target {
            proof {
                assert(0 <= i < names@.len() && names@[i as int]@ == target@);
            }
            return true;
        }
        i = i + 1;
    }
    false
}

/// Walks the ledger once and derives the summary; `None` exactly when the
/// ledger has no day entries. With `consider_owed`, amounts owed back are
/// nonetheless counted as the owner's own spend.
#[verifier::loop_isolation(false)]
#[verifier::rlimit(100)]
pub fn calculate(account: &Account, consider_owed: bool) -> (r: Option<Calculated>)
    requires
        account.wf(),
    ensures
        (r is Some) == (account.days@.len() > 0),
        r matches Some(c) ==> c.summarizes(*account, consider_owed),
{
    let ghost dd = account.days@;
    let ghost essn = account.essential_categories@;
    let n_days = account.days.len();
    if n_days == 0 {
        return None;
    }
    // Latest entry date; entries are not assumed sorted.
    let mut last_day: Date = account.days[0].date;
    proof {
        assert(dd[0].wf());
    }
    let mut last_idx: u32 = day_number(&last_day);
    let mut i: usize = 1;
    proof {
        assert(dd.take(1)[0] == dd[0]);
        assert(0 <= 0 < dd.take(1).len() && dd.take(1)[0].date == last_day);
    }
    while i < n_days
        invariant
            account.wf(),
            dd == account.days@,
            n_days == dd.len(),
            1 <= i <= n_days,
            last_day.wf(),
            last_idx < 3_700_000,
            last_idx == day_index(last_day),
            last_idx == max_day_index(dd.take(i as int)),
            has_date(dd.take(i as int), last_day),
        decreases n_days - i,
    {
        proof {
            assert(dd[i as int].wf());
        }
        let d = account.days[i].date;
        let idx = day_number(&d);
        let ghost prev = last_day;
        if idx > last_idx {
            last_day = d;
            last_idx = idx;
        }
        proof {
            assert(dd.take(i as int + 1).drop_last() =~= dd.take(i as int));
            assert(dd.take(i as int + 1).last() == dd[i as int]);
            if idx > day_index(prev) {
                assert(0 <= i < dd.take(i as int + 1).len() && dd.take(i as int + 1)[i as int].date
                    == last_day);
            } else {
                let t = choose|t: int|
                    0 <= t < dd.take(i as int).len() && dd.take(i as int)[t].date == prev;
                assert(0 <= t < dd.take(i as int + 1).len() && dd.take(i as int + 1)[t].date
                    == last_day);
            }
        }
        i = i + 1;
    }
    proof {
        assert(dd.take(n_days as int) =~= dd);
    }

    // One pass accumulating every sum.
    let mut total: i128 = 0;
    let mut essential_subtotal: i128 = 0;
    let mut total_owed: i128 = 0;
    let mut categories_subtotal: Tally<Money> = Tally::new();
    let mut owed: Tally<Money> = Tally::new();
    let mut i: usize = 0;
    while i < n_days
        invariant
            account.wf(),
            dd == account.days@,
            essn == account.essential_categories@,
            n_days == dd.len(),
            0 <= i <= n_days,
            expense_count(dd.take(i as int)) >= 0,
            expense_count(dd.take(i as int)) <= MAX_EXPENSES,
            total == total_units(dd.take(i as int), consider_owed),
            -(expense_count(dd.take(i as int)) * AMOUNT_LIMIT) <= total <= expense_count(
                dd.take(i as int),
            ) * AMOUNT_LIMIT,
            essential_subtotal == essential_units(dd.take(i as int), essn, consider_owed),
            -(expense_count(dd.take(i as int)) * AMOUNT_LIMIT) <= essential_subtotal
                <= expense_count(dd.take(i as int)) * AMOUNT_LIMIT,
            total_owed == owed_units(dd.take(i as int)),
            -(expense_count(dd.take(i as int)) * 2 * AMOUNT_LIMIT) <= total_owed <= expense_count(
                dd.take(i as int),
            ) * 2 * AMOUNT_LIMIT,
            categories_subtotal.wf(),
            forall|cat: Seq<char>|
                (#[trigger] categories_subtotal.get_spec(cat) is Some) == (category_mentions(
                    dd.take(i as int),
                    consider_owed,
                    cat,
                ) > 0),
            forall|cat: Seq<char>|
                #[trigger] categories_subtotal.get_spec(cat) matches Some(m) ==> m.units as int
                    == category_units(dd.take(i as int), consider_owed, cat),
            forall|cat: Seq<char>|
                #[trigger] categories_subtotal.get_spec(cat) matches Some(m) ==> -(expense_count(
                    dd.take(i as int),
                ) * AMOUNT_LIMIT) <= m.units as int <= expense_count(dd.take(i as int))
                    * AMOUNT_LIMIT,
            owed.wf(),
            forall|p: Seq<char>|
                (#[trigger] owed.get_spec(p) is Some) == (person_mentions(dd.take(i as int), p)
                    > 0),
            forall|p: Seq<char>|
                #[trigger] owed.get_spec(p) matches Some(m) ==> m.units as int == person_units(
                    dd.take(i as int),
                    p,
                ),
            forall|p: Seq<char>|
                #[trigger] owed.get_spec(p) matches Some(m) ==> -(expense_count(dd.take(i as int))
                    * 31 * AMOUNT_LIMIT) <= m.units as int <= expense_count(dd.take(i as int)) * 31
                    * AMOUNT_LIMIT,
        decreases n_days - i,
    {
        let day = &account.days[i];
        proof {
            assert(dd[i as int].wf());
            lemma_expense_count_prefix(dd, i as int);
        }
        let m = day.expenses.len();
        let mut j: usize = 0;
        while j < m
            invariant
                account.wf(),
                dd == account.days@,
                essn == account.essential_categories@,
                0 <= i < dd.len(),
                *day == dd[i as int],
                m == day.expenses@.len(),
                0 <= j <= m,
                expense_count(dd.take(i as int)) >= 0,
                expense_count(dd.take(i as int)) + m <= MAX_EXPENSES,
                total == total_units(dd.take(i as int), consider_owed) + sum_expenses(
                    day.expenses@.take(j as int),
                    f_inc(consider_owed),
                ),
                -((expense_count(dd.take(i as int)) + j) * AMOUNT_LIMIT) <= total <= (expense_count(
                    dd.take(i as int),
                ) + j) * AMOUNT_LIMIT,
                essential_subtotal == essential_units(dd.take(i as int), essn, consider_owed)
                    + sum_expenses(day.expenses@.take(j as int), f_ess(consider_owed, essn)),
                -((expense_count(dd.take(i as int)) + j) * AMOUNT_LIMIT) <= essential_subtotal <= (
                expense_count(dd.take(i as int)) + j) * AMOUNT_LIMIT,
                total_owed == owed_units(dd.take(i as int)) + sum_expenses(
                    day.expenses@.take(j as int),
                    f_owed(),
                ),
                -((expense_count(dd.take(i as int)) + j) * 2 * AMOUNT_LIMIT) <= total_owed <= (
                expense_count(dd.take(i as int)) + j) * 2 * AMOUNT_LIMIT,
                categories_subtotal.wf(),
                forall|cat: Seq<char>|
                    (#[trigger] categories_subtotal.get_spec(cat) is Some) == (category_mentions(
                        dd.take(i as int),
                        consider_owed,
                        cat,
                    ) + sum_expenses(day.expenses@.take(j as int), f_catm(consider_owed, cat)) > 0),
                forall|cat: Seq<char>|
                    #[trigger] categories_subtotal.get_spec(cat) matches Some(m) ==> m.units as int
                        == category_units(dd.take(i as int), consider_owed, cat) + sum_expenses(
                        day.expenses@.take(j as int),
                        f_cat(consider_owed, cat),
                    ),
                forall|cat: Seq<char>|
                    #[trigger] categories_subtotal.get_spec(cat) matches Some(m) ==> -((
                    expense_count(dd.take(i as int)) + j) * AMOUNT_LIMIT) <= m.units as int <= (
                    expense_count(dd.take(i as int)) + j) * AMOUNT_LIMIT,
                owed.wf(),
                forall|p: Seq<char>|
                    (#[trigger] owed.get_spec(p) is Some) == (person_mentions(
                        dd.take(i as int),
                        p,
                    ) + sum_expenses(day.expenses@.take(j as int), f_persm(p)) > 0),
                forall|p: Seq<char>|
                    #[trigger] owed.get_spec(p) matches Some(m) ==> m.units as int == person_units(
                        dd.take(i as int),
                        p,
                    ) + sum_expenses(day.expenses@.take(j as int), f_person(p)),
                forall|p: Seq<char>|
                    #[trigger] owed.get_spec(p) matches Some(m) ==> -((expense_count(
                        dd.take(i as int),
                    ) + j) * 31 * AMOUNT_LIMIT) <= m.units as int <= (expense_count(
                        dd.take(i as int),
                    ) + j) * 31 * AMOUNT_LIMIT,
            decreases m - j,
        {
            let e = &day.expenses[j];
            let ghost ee = day.expenses@[j as int];
            let ghost catkey: Option<Seq<char>> = if included(ee, consider_owed) {
                match ee.category {
                    Some(c) => Some(c@),
                    None => None::<Seq<char>>,
                }
            } else {
                None::<Seq<char>>
            };
            proof {
                assert(ee.wf());
                lemma_expense_bounds(ee, consider_owed);
            }
            let k = e.shared.len();
            let mut actual: i128 = 0;
            if k > 0 {
                let divisor: u64 = if e.owed {
                    k as u64
                } else {
                    (k as u64) + 1
                };
                let share = split_units(e.price.units, divisor);
                proof {
                    assert(share as int == share_units(ee));
                }
                if !e.owed {
                    actual = share;
                }
                let ghost sh = ee.shared@;
                let ghost owed_before = total_owed as int;
                let mut s: usize = 0;
                while s < k
                    invariant
                        account.wf(),
                        dd == account.days@,
                        0 <= i < dd.len(),
                        *day == dd[i as int],
                        0 <= j < day.expenses@.len(),
                        ee == day.expenses@[j as int],
                        ee.wf(),
                        sh == ee.shared@,
                        k == sh.len(),
                        0 <= s <= k,
                        k <= MAX_SHARED,
                        -AMOUNT_LIMIT <= share <= AMOUNT_LIMIT,
                        share as int == share_units(ee),
                        expense_count(dd.take(i as int)) >= 0,
                        expense_count(dd.take(i as int)) + day.expenses@.len() <= MAX_EXPENSES,
                        total_owed == owed_before + s * (share as int),
                        -((expense_count(dd.take(i as int)) + j) * 2 * AMOUNT_LIMIT + s
                            * AMOUNT_LIMIT) <= total_owed <= (expense_count(dd.take(i as int)) + j)
                            * 2 * AMOUNT_LIMIT + s * AMOUNT_LIMIT,
                        owed_before == owed_units(dd.take(i as int)) + sum_expenses(
                            day.expenses@.take(j as int),
                            f_owed(),
                        ),
                        -((expense_count(dd.take(i as int)) + j) * 2 * AMOUNT_LIMIT) <= owed_before
                            <= (expense_count(dd.take(i as int)) + j) * 2 * AMOUNT_LIMIT,
                        owed.wf(),
                        forall|p: Seq<char>|
                            (#[trigger] owed.get_spec(p) is Some) == (person_mentions(
                                dd.take(i as int),
                                p,
                            ) + sum_expenses(day.expenses@.take(j as int), f_persm(p)) + name_count(
                                sh.take(s as int),
                                p,
                            ) > 0),
                        forall|p: Seq<char>|
                            #[trigger] owed.get_spec(p) matches Some(m) ==> m.units as int
                                == person_units(dd.take(i as int), p) + sum_expenses(
                                day.expenses@.take(j as int),
                                f_person(p),
                            ) + name_count(sh.take(s as int), p) * (share as int),
                        forall|p: Seq<char>|
                            #[trigger] owed.get_spec(p) matches Some(m) ==> -((expense_count(
                                dd.take(i as int),
                            ) + j) * 31 * AMOUNT_LIMIT + s * AMOUNT_LIMIT) <= m.units as int <= (
                            expense_count(dd.take(i as int)) + j) * 31 * AMOUNT_LIMIT + s
                                * AMOUNT_LIMIT,
                    decreases k - s,
                {
                    proof {
                        assert((s as int + 1) * (share as int) == s as int * (share as int)
                            + share) by (nonlinear_arith);
                    }
                    total_owed = total_owed + share;
                    let person = &e.shared[s];
                    proof {
                        lemma_persm_nonneg(
                            dd.take(i as int),
                            day.expenses@.take(j as int),
                            person@,
                        );
                        lemma_name_count_range(sh.take(s as int), person@);
                        if owed.get_spec(person@) is None {
                            lemma_person_zero(
                                dd.take(i as int),
                                day.expenses@.take(j as int),
                                person@,
                            );
                        }
                    }
                    owed.accumulate(person, Money { units: share });
                    proof {
                        let ss = s as int;
                        assert forall|p: Seq<char>| #[trigger]
                            name_count(sh.take(ss + 1), p) == name_count(sh.take(ss), p) + (
                            if sh[ss]@ == p {
                                1int
                            } else {
                                0int
                            }) by {
                            lemma_name_count_step(sh, ss, p);
                        }
                        assert(sh[ss]@ == person@);
                        assert forall|p: Seq<char>|
                            (#[trigger] owed.get_spec(p)) is Some implies owed.get_spec(
                            p,
                        ).unwrap().units as int == person_units(dd.take(i as int), p)
                            + sum_expenses(day.expenses@.take(j as int), f_person(p)) + name_count(
                            sh.take(ss + 1),
                            p,
                        ) * (share as int) by {
                            if p == person@ {
                                let c = name_count(sh.take(ss), p);
                                assert((c + 1) * (share as int) == c * (share as int) + share)
                                    by (nonlinear_arith);
                            } else {
                            }
                        }
                        assert forall|p: Seq<char>|
                            (#[trigger] owed.get_spec(p) is Some) == (person_mentions(
                                dd.take(i as int),
                                p,
                            ) + sum_expenses(day.expenses@.take(j as int), f_persm(p)) + name_count(
                                sh.take(ss + 1),
                                p,
                            ) > 0) by {
                            lemma_persm_nonneg(dd.take(i as int), day.expenses@.take(j as int), p);
                            lemma_name_count_range(sh.take(ss), p);
                        }
                    }
                    s = s + 1;
                }
                proof {
                    assert(sh.take(k as int) =~= sh);
                    assert(total_owed == owed_before + k as int * (share as int));
                    assert(owed_amount(ee) == k as int * share_units(ee));
                }
            }
            let included_now: bool;
            if k == 0 || consider_owed {
                actual = e.price.units;
                included_now = true;
            } else if e.owed {
                included_now = false;
            } else {
                included_now = true;
            }
            proof {
                assert(included_now == included(ee, consider_owed));
                if included_now {
                    assert(actual as int == includable_units(ee, consider_owed));
                }
            }
            if included_now {
                total = total + actual;
                if let Some(cname) = &e.category {
                    proof {
                        lemma_catm_nonneg(
                            dd.take(i as int),
                            day.expenses@.take(j as int),
                            consider_owed,
                            cname@,
                        );
                        if categories_subtotal.get_spec(cname@) is None {
                            lemma_cat_zero(
                                dd.take(i as int),
                                day.expenses@.take(j as int),
                                consider_owed,
                                cname@,
                            );
                        }
                    }
                    categories_subtotal.accumulate(cname, Money { units: actual });
                    if contains_name(&account.essential_categories, cname) {
                        essential_subtotal = essential_subtotal + actual;
                    }
                }
            }
            proof {
                let jj = j as int;
                let es = day.expenses@;
                lemma_sum_expenses_step(es, jj, f_inc(consider_owed));
                lemma_sum_expenses_step(es, jj, f_ess(consider_owed, essn));
                lemma_sum_expenses_step(es, jj, f_owed());
                assert(f_inc(consider_owed)(ee) == includable_units(ee, consider_owed));
                assert(f_ess(consider_owed, essn)(ee) == ess_amount(ee, consider_owed, essn));
                assert(f_owed()(ee) == owed_amount(ee));
                if k == 0 {
                    assert(owed_amount(ee) == 0) by {
                        assert(shared_count(ee) == 0);
                    }
                }
                assert forall|cat: Seq<char>| #[trigger]
                    sum_expenses(es.take(jj + 1), f_cat(consider_owed, cat)) == sum_expenses(
                    es.take(jj),
                    f_cat(consider_owed, cat),
                ) + cat_amount(ee, consider_owed, cat) by {
                    lemma_sum_expenses_step(es, jj, f_cat(consider_owed, cat));
                }
                assert forall|cat: Seq<char>| #[trigger]
                    sum_expenses(es.take(jj + 1), f_catm(consider_owed, cat)) == sum_expenses(
                    es.take(jj),
                    f_catm(consider_owed, cat),
                ) + cat_mention(ee, consider_owed, cat) by {
                    lemma_sum_expenses_step(es, jj, f_catm(consider_owed, cat));
                }
                assert forall|p: Seq<char>| #[trigger]
                    sum_expenses(es.take(jj + 1), f_person(p)) == sum_expenses(
                    es.take(jj),
                    f_person(p),
                ) + person_amount(ee, p) by {
                    lemma_sum_expenses_step(es, jj, f_person(p));
                }
                assert forall|p: Seq<char>| #[trigger]
                    sum_expenses(es.take(jj + 1), f_persm(p)) == sum_expenses(
                    es.take(jj),
                    f_persm(p),
                ) + name_count(ee.shared@, p) by {
                    lemma_sum_expenses_step(es, jj, f_persm(p));
                }
                if k == 0 {
                    assert forall|p: Seq<char>| #[trigger] person_amount(ee, p) == 0
                        && name_count(ee.shared@, p) == 0 by {
                        lemma_name_count_range(ee.shared@, p);
                    }
                }
                assert forall|cat: Seq<char>|
                    (#[trigger] categories_subtotal.get_spec(cat) is Some) == (category_mentions(
                        dd.take(i as int),
                        consider_owed,
                        cat,
                    ) + sum_expenses(es.take(jj + 1), f_catm(consider_owed, cat)) > 0) by {
                    lemma_catm_nonneg(dd.take(i as int), es.take(jj), consider_owed, cat);
                    if catkey == Some(cat) {
                        assert(cat_mention(ee, consider_owed, cat) == 1);
                    } else {
                        assert(cat_mention(ee, consider_owed, cat) == 0);
                    }
                }
                assert forall|cat: Seq<char>|
                    (#[trigger] categories_subtotal.get_spec(cat)) is Some implies categories_subtotal.get_spec(
                    cat,
                ).unwrap().units as int == category_units(dd.take(i as int), consider_owed, cat)
                    + sum_expenses(es.take(jj + 1), f_cat(consider_owed, cat)) by {
                    if catkey == Some(cat) {
                        assert(cat_amount(ee, consider_owed, cat) == includable_units(
                            ee,
                            consider_owed,
                        ));
                    } else {
                        assert(cat_amount(ee, consider_owed, cat) == 0);
                    }
                }
            }
            j = j + 1;
        }
        proof {
            let ii = i as int;
            assert(day.expenses@.take(m as int) =~= day.expenses@);
            lemma_sum_days_step(dd, ii, f_inc(consider_owed));
            lemma_sum_days_step(dd, ii, f_ess(consider_owed, essn));
            lemma_sum_days_step(dd, ii, f_owed());
            assert forall|cat: Seq<char>| #[trigger]
                sum_days(dd.take(ii + 1), f_cat(consider_owed, cat)) == sum_days(
                dd.take(ii),
                f_cat(consider_owed, cat),
            ) + sum_expenses(dd[ii].expenses@, f_cat(consider_owed, cat)) by {
                lemma_sum_days_step(dd, ii, f_cat(consider_owed, cat));
            }
            assert forall|cat: Seq<char>| #[trigger]
                sum_days(dd.take(ii + 1), f_catm(consider_owed, cat)) == sum_days(
                dd.take(ii),
                f_catm(consider_owed, cat),
            ) + sum_expenses(dd[ii].expenses@, f_catm(consider_owed, cat)) by {
                lemma_sum_days_step(dd, ii, f_catm(consider_owed, cat));
            }
            assert forall|p: Seq<char>| #[trigger]
                sum_days(dd.take(ii + 1), f_person(p)) == sum_days(dd.take(ii), f_person(p))
                    + sum_expenses(dd[ii].expenses@, f_person(p)) by {
                lemma_sum_days_step(dd, ii, f_person(p));
            }
            assert forall|p: Seq<char>| #[trigger]
                sum_days(dd.take(ii + 1), f_persm(p)) == sum_days(dd.take(ii), f_persm(p))
                    + sum_expenses(dd[ii].expenses@, f_persm(p)) by {
                lemma_sum_days_step(dd, ii, f_persm(p));
            }
            assert(dd.take(ii + 1).drop_last() =~= dd.take(ii));
            assert(dd.take(ii + 1).last() == dd[ii]);
            assert(expense_count(dd.take(ii + 1)) == expense_count(dd.take(ii))
                + day.expenses@.len());
            lemma_expense_count_prefix(dd, ii + 1);
        }
        i = i + 1;
    }
    proof {
        assert(dd.take(n_days as int) =~= dd);
    }

    // Derived figures.
    let start_num = day_number(&account.start_date);
    let de_i: i64 = last_idx as i64 - start_num as i64 + 1;
    let de: i128 = de_i as i128;
    proof {
        assert(de == days_elapsed(*account));
        assert(-4_000_000 <= de <= 4_000_000);
        assert(-i128::MAX <= UNIT_SCALE * de <= i128::MAX) by (nonlinear_arith)
            requires
                -4_000_000 <= de <= 4_000_000,
        ;
    }
    let avg_den: i128 = UNIT_SCALE * de;
    let all_day_average = ratio_of(total, avg_den);
    let essential_day_average = ratio_of(essential_subtotal, avg_den);
    let balance: i128 = account.budget.units - total;
    proof {
        assert(-i128::MAX <= balance * de <= i128::MAX) by (nonlinear_arith)
            requires
                -4_000_000 <= de <= 4_000_000,
                -1_000_001 * AMOUNT_LIMIT as int <= balance as int <= 1_000_001
                    * AMOUNT_LIMIT as int,
        ;
    }
    let runway_num: i128 = balance * de;
    let days_left = ratio_of(runway_num, total);
    let days_left_essential = ratio_of(runway_num, essential_subtotal);

    // Per-category day averages, from the subtotals.
    let mut categories_day_average: Tally<Ratio> = Tally::new();
    let nc = categories_subtotal.entries.len();
    let mut idx: usize = 0;
    while idx < nc
        invariant
            nc == categories_subtotal.entries@.len(),
            0 <= idx <= nc,
            categories_subtotal.wf(),
            -i128::MAX <= avg_den <= i128::MAX,
            forall|cat: Seq<char>|
                #[trigger] categories_subtotal.get_spec(cat) matches Some(m) ==> m.units as int
                    == category_units(dd, consider_owed, cat),
            forall|cat: Seq<char>|
                #[trigger] categories_subtotal.get_spec(cat) matches Some(m) ==> -1_000_000
                    * AMOUNT_LIMIT as int <= m.units as int <= 1_000_000 * AMOUNT_LIMIT as int,
            categories_day_average.wf(),
            forall|cat: Seq<char>|
                (#[trigger] categories_day_average.get_spec(cat) is Some) == (exists|t: int|
                    0 <= t < idx && categories_subtotal.entries@[t].0@ == cat),
            forall|cat: Seq<char>|
                #[trigger] categories_day_average.get_spec(cat) matches Some(r) ==> is_quotient(
                    r,
                    category_units(dd, consider_owed, cat),
                    UNIT_SCALE as int * de,
                ),
        decreases nc - idx,
    {
        let name = &categories_subtotal.entries[idx].0;
        let sub = categories_subtotal.entries[idx].1;
        proof {
            assert forall|t: int| 0 <= t < idx implies categories_subtotal.entries@[t].0@
                != name@ by {
                assert(keys_unique(categories_subtotal.entries@));
            }
            crate::tally::lemma_get_found(categories_subtotal.entries@, idx as int, name@);
            assert(categories_subtotal.get_spec(name@) == Some(sub));
        }
        let avg = ratio_of(sub.units, avg_den);
        categories_day_average.put(name, avg);
        proof {
            assert forall|cat: Seq<char>|
                (#[trigger] categories_day_average.get_spec(cat) is Some) == (exists|t: int|
                    0 <= t < idx + 1 && categories_subtotal.entries@[t].0@ == cat) by {
                if cat == name@ {
                    assert(categories_subtotal.entries@[idx as int].0@ == cat);
                }
            }
        }
        idx = idx + 1;
    }
    proof {
        assert forall|cat: Seq<char>|
            (#[trigger] categories_day_average.get_spec(cat) is Some)
                == (categories_subtotal.get_spec(cat) is Some) by {
            crate::tally::lemma_get_some_iff(categories_subtotal.entries@, cat);
        }
    }

    Some(
        Calculated {
            all_day_average,
            essential_day_average,
            categories_day_average,
            essential_subtotal: Money { units: essential_subtotal },
            categories_subtotal,
            total: Money { units: total },
            balance: Money { units: balance },
            owed,
            total_owed: Money { units: total_owed },
            days_left,
            days_left_essential,
            last_day,
        },
    )
}

} // verus!
