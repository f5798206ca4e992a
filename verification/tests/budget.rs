use finbudg::Account;
use finbudg::Calculated;
use finbudg::Date;
use finbudg::Day;
use finbudg::Expense;
use finbudg::Money;
use finbudg::Ratio;
use finbudg::calculate;
use finbudg::parse_account;
use finbudg::money::UNIT_SCALE;

const SAMPLE: &str = "\
start_date = 2020-10-01
end_date = 2020-10-31
budget = 420.0
essential_categories = [\"produce\", \"transport\", \"utilities\"]

[[days]]
date = 2020-10-01

[[days.expenses]]
name = \"Potato masher\"
price = 3.81
category = \"supplies\"

[[days.expenses]]
name = \"Bacon\"
price = 3.33
shared = [\"Fox\", \"Falco\"]
category = \"produce\"

[[days.expenses]]
name = \"Yoghurt\"
price = 1.24
shared = [\"Falco\"]
owed = true
category = \"produce\"

[[days.expenses]]
name = \"Onion\"
price = 0.15
category = \"produce\"

[[days.expenses]]
name = \"Chicken\"
price = 2.28
shared = [\"Fox\"]
category = \"produce\"

[[days]]
date = 2020-10-04

[[days]]
date = 2020-10-02

[[days.expenses]]
name = \"VPS\"
price = 5.0
category = \"utilities\"

[[days.expenses]]
name = \"Transport card\"
price = 6.9
category = \"transport\"
";

/// `c` hundredths of a currency unit, in `Money` sub-units.
fn cents(c: i128) -> i128 {
    c * (UNIT_SCALE / 100)
}

fn money(c: i128) -> Money {
    Money { units: cents(c) }
}

/// Whether `r` is the finite value `num / den`.
fn ratio_is(r: &Ratio, num: i128, den: i128) -> bool {
    match r {
        Ratio::Finite { num: n, den: d } => n * den == num * d,
        _ => false,
    }
}

fn lookup_money(t: &finbudg::Tally<Money>, name: &str) -> Option<Money> {
    t.get(&name.to_string())
}

fn lookup_ratio(t: &finbudg::Tally<Ratio>, name: &str) -> Option<Ratio> {
    t.get(&name.to_string())
}

#[test]
fn can_parse_account() {
    let should_be = Account {
        start_date: Date { year: 2020, month: 10, day: 1 },
        end_date: Date { year: 2020, month: 10, day: 31 },
        budget: Money::from_decimal(4200, 1),
        essential_categories: vec![
            String::from("produce"),
            String::from("transport"),
            String::from("utilities"),
        ],
        days: vec![
            Day {
                date: Date { year: 2020, month: 10, day: 1 },
                expenses: vec![
                    Expense {
                        name: String::from("Potato masher"),
                        price: Money::from_decimal(381, 2),
                        shared: vec![],
                        owed: false,
                        category: Some(String::from("supplies")),
                    },
                    Expense {
                        name: String::from("Bacon"),
                        price: Money::from_decimal(333, 2),
                        shared: vec![String::from("Fox"), String::from("Falco")],
                        owed: false,
                        category: Some(String::from("produce")),
                    },
                    Expense {
                        name: String::from("Yoghurt"),
                        price: Money::from_decimal(124, 2),
                        shared: vec![String::from("Falco")],
                        owed: true,
                        category: Some(String::from("produce")),
                    },
                    Expense {
                        name: String::from("Onion"),
                        price: Money::from_decimal(15, 2),
                        shared: vec![],
                        owed: false,
                        category: Some(String::from("produce")),
                    },
                    Expense {
                        name: String::from("Chicken"),
                        price: Money::from_decimal(228, 2),
                        shared: vec![String::from("Fox")],
                        owed: false,
                        category: Some(String::from("produce")),
                    },
                ],
            },
            Day {
                date: Date { year: 2020, month: 10, day: 4 },
                expenses: Vec::<Expense>::new(),
            },
            Day {
                date: Date { year: 2020, month: 10, day: 2 },
                expenses: vec![
                    Expense {
                        name: String::from("VPS"),
                        price: Money::from_decimal(50, 1),
                        shared: vec![],
                        owed: false,
                        category: Some(String::from("utilities")),
                    },
                    Expense {
                        name: String::from("Transport card"),
                        price: Money::from_decimal(69, 1),
                        shared: vec![],
                        owed: false,
                        category: Some(String::from("transport")),
                    },
                ],
            },
        ],
    };

    let actually_is = parse_account(SAMPLE).unwrap();

    assert_eq!(actually_is, should_be);
}

#[test]
fn can_calculate() {
    let account = parse_account(SAMPLE).unwrap();
    let actually_is: Calculated = calculate(&account, false).unwrap();
    let actually_is_with_owed: Calculated = calculate(&account, true).unwrap();

    assert_eq!(actually_is.total, money(1811));
    assert_eq!(actually_is.essential_subtotal, money(1430));
    assert_eq!(actually_is.balance, money(40189));
    assert_eq!(actually_is.total_owed, money(460));
    assert_eq!(actually_is.last_day, Date { year: 2020, month: 10, day: 4 });
    assert!(ratio_is(&actually_is.all_day_average, 45275, 10000));
    assert!(ratio_is(&actually_is.essential_day_average, 35750, 10000));
    assert_eq!(lookup_money(&actually_is.categories_subtotal, "supplies"), Some(money(381)));
    assert_eq!(lookup_money(&actually_is.categories_subtotal, "produce"), Some(money(240)));
    assert_eq!(lookup_money(&actually_is.categories_subtotal, "transport"), Some(money(690)));
    assert_eq!(lookup_money(&actually_is.categories_subtotal, "utilities"), Some(money(500)));
    assert_eq!(lookup_money(&actually_is.categories_subtotal, "nonexistent"), None);
    assert!(ratio_is(&lookup_ratio(&actually_is.categories_day_average, "supplies").unwrap(), 9525, 10000));
    assert!(ratio_is(&lookup_ratio(&actually_is.categories_day_average, "produce").unwrap(), 6000, 10000));
    assert!(ratio_is(&lookup_ratio(&actually_is.categories_day_average, "transport").unwrap(), 17250, 10000));
    assert!(ratio_is(&lookup_ratio(&actually_is.categories_day_average, "utilities").unwrap(), 12500, 10000));
    assert!(lookup_ratio(&actually_is.categories_day_average, "nonexistent").is_none());
    assert_eq!(lookup_money(&actually_is.owed, "Fox"), Some(money(225)));
    assert_eq!(lookup_money(&actually_is.owed, "Falco"), Some(money(235)));
    assert!(ratio_is(&actually_is.days_left, 160756, 1811));
    assert!(ratio_is(&actually_is.days_left_essential, 160756, 1430));

    assert_eq!(actually_is_with_owed.total, money(2271));
    assert_eq!(actually_is_with_owed.essential_subtotal, money(1890));
    assert_eq!(actually_is_with_owed.balance, money(39729));
    assert_eq!(actually_is_with_owed.total_owed, money(460));
    assert_eq!(actually_is_with_owed.last_day, Date { year: 2020, month: 10, day: 4 });
    assert!(ratio_is(&actually_is_with_owed.all_day_average, 56775, 10000));
    assert!(ratio_is(&actually_is_with_owed.essential_day_average, 47250, 10000));
    assert_eq!(lookup_money(&actually_is_with_owed.categories_subtotal, "supplies"), Some(money(381)));
    assert_eq!(lookup_money(&actually_is_with_owed.categories_subtotal, "produce"), Some(money(700)));
    assert_eq!(lookup_money(&actually_is_with_owed.categories_subtotal, "transport"), Some(money(690)));
    assert_eq!(lookup_money(&actually_is_with_owed.categories_subtotal, "utilities"), Some(money(500)));
    assert!(ratio_is(&lookup_ratio(&actually_is_with_owed.categories_day_average, "supplies").unwrap(), 9525, 10000));
    assert!(ratio_is(&lookup_ratio(&actually_is_with_owed.categories_day_average, "produce").unwrap(), 17500, 10000));
    assert!(ratio_is(&lookup_ratio(&actually_is_with_owed.categories_day_average, "transport").unwrap(), 17250, 10000));
    assert!(ratio_is(&lookup_ratio(&actually_is_with_owed.categories_day_average, "utilities").unwrap(), 12500, 10000));
    assert_eq!(lookup_money(&actually_is_with_owed.owed, "Fox"), Some(money(225)));
    assert_eq!(lookup_money(&actually_is_with_owed.owed, "Falco"), Some(money(235)));
    assert!(ratio_is(&actually_is_with_owed.days_left, 158916, 2271));
    assert!(ratio_is(&actually_is_with_owed.days_left_essential, 158916, 1890));
}

#[test]
fn empty_ledger_yields_no_summary() {
    let account = Account {
        start_date: Date { year: 2020, month: 10, day: 1 },
        end_date: Date { year: 2020, month: 10, day: 31 },
        budget: Money::from_decimal(4200, 1),
        essential_categories: vec![],
        days: vec![],
    };
    assert!(calculate(&account, false).is_none());
    assert!(calculate(&account, true).is_none());
}

#[test]
fn empty_days_document_parses_to_empty_ledger() {
    let doc = "start_date = 2020-10-01\nend_date = 2020-10-31\nbudget = 420.0\ndays = []\n";
    let account = parse_account(doc).unwrap();
    assert!(account.days.is_empty());
    assert!(account.essential_categories.is_empty());
    assert!(calculate(&account, false).is_none());
}

fn one_expense_ledger(price: Money, shared: Vec<String>, owed: bool) -> Account {
    Account {
        start_date: Date { year: 2021, month: 1, day: 1 },
        end_date: Date { year: 2021, month: 1, day: 31 },
        budget: Money::from_decimal(100, 0),
        essential_categories: vec![],
        days: vec![
            Day {
                date: Date { year: 2021, month: 1, day: 1 },
                expenses: vec![
                    Expense {
                        name: String::from("thing"),
                        price,
                        shared,
                        owed,
                        category: None,
                    },
                ],
            },
        ],
    }
}

#[test]
fn shared_split_bears_one_share_each() {
    // 3.33 shared with two named parties: three ways, 1.11 each.
    let account = one_expense_ledger(
        Money::from_decimal(333, 2),
        vec![String::from("Fox"), String::from("Falco")],
        false,
    );
    let c = calculate(&account, false).unwrap();
    assert_eq!(c.total, money(111));
    assert_eq!(lookup_money(&c.owed, "Fox"), Some(money(111)));
    assert_eq!(lookup_money(&c.owed, "Falco"), Some(money(111)));
    assert_eq!(c.total_owed, money(222));
    // Uncategorized spending counts toward the total but toward no
    // per-category figure.
    assert!(c.categories_subtotal.entries.is_empty());
    assert!(c.categories_day_average.entries.is_empty());
    assert_eq!(c.essential_subtotal, money(0));
}

#[test]
fn owed_expense_counts_only_under_consider_owed() {
    // 1.24 paid wholly for one named party.
    let account = one_expense_ledger(
        Money::from_decimal(124, 2),
        vec![String::from("Falco")],
        true,
    );
    let plain = calculate(&account, false).unwrap();
    assert_eq!(plain.total, money(0));
    assert_eq!(lookup_money(&plain.owed, "Falco"), Some(money(124)));
    assert_eq!(plain.total_owed, money(124));
    let pretend = calculate(&account, true).unwrap();
    assert_eq!(pretend.total, money(124));
    assert_eq!(lookup_money(&pretend.owed, "Falco"), Some(money(124)));
    assert_eq!(pretend.total_owed, money(124));
}

#[test]
fn duplicate_shared_names_accumulate() {
    // 2.00 split three ways (owner plus "Fox" twice): each listed
    // occurrence owes a third, exactly.
    let account = one_expense_ledger(
        Money::from_decimal(200, 2),
        vec![String::from("Fox"), String::from("Fox")],
        false,
    );
    let c = calculate(&account, false).unwrap();
    let third = 2 * UNIT_SCALE / 3;
    assert_eq!(c.total.units, third);
    assert_eq!(lookup_money(&c.owed, "Fox"), Some(Money { units: 2 * third }));
    assert_eq!(c.total_owed.units, 2 * third);
    // The three shares cover the price with nothing lost.
    assert_eq!(c.total.units + c.total_owed.units, 2 * UNIT_SCALE);
}

#[test]
fn day_average_counts_days_through_latest_entry() {
    // Expenses through 2020-10-02 plus an empty 2020-10-04: four days
    // elapsed, average 18.11 / 4.
    let account = parse_account(SAMPLE).unwrap();
    let c = calculate(&account, false).unwrap();
    assert_eq!(c.last_day, Date { year: 2020, month: 10, day: 4 });
    assert!(ratio_is(&c.all_day_average, 181100, 40000));
}

#[test]
fn runway_is_balance_over_average() {
    let account = parse_account(SAMPLE).unwrap();
    let c = calculate(&account, false).unwrap();
    assert_eq!(c.balance, money(40189));
    // days_left == balance / all_day_average: 401.89 / 4.5275, written over
    // a common power of ten.
    assert!(ratio_is(&c.days_left, 401_890_000, 4_527_500));
    assert!(ratio_is(&c.days_left, 160756, 1811));
}

#[test]
fn zero_spend_runway_is_not_finite() {
    let account = Account {
        start_date: Date { year: 2020, month: 10, day: 1 },
        end_date: Date { year: 2020, month: 10, day: 31 },
        budget: Money::from_decimal(4200, 1),
        essential_categories: vec![],
        days: vec![
            Day {
                date: Date { year: 2020, month: 10, day: 2 },
                expenses: vec![],
            },
        ],
    };
    let c = calculate(&account, false).unwrap();
    assert_eq!(c.total, money(0));
    assert!(!c.days_left.is_finite());
    assert!(!c.days_left_essential.is_finite());
    assert!(matches!(c.days_left, Ratio::PosInfinite));
}

#[test]
fn rejects_malformed_dates() {
    for bad in [
        "start_date = 2020-13-01",
        "start_date = 2020-10-32",
        "start_date = 2019-02-29",
        "start_date = 20201001",
        "start_date = 2020/10/01",
        "start_date = today",
    ] {
        let doc = format!("{}\nend_date = 2020-10-31\nbudget = 420.0\ndays = []\n", bad);
        match parse_account(&doc) {
            Err(finbudg::ParseError::DeserializerError(e)) => {
                assert_eq!(e.reason, finbudg::FormatReason::BadDate);
                assert_eq!(e.line, 1);
            }
            other => panic!("expected a format failure, got {:?}", other),
        }
    }
}

#[test]
fn accepts_leap_day() {
    let doc = "start_date = 2020-02-29\nend_date = 2020-03-31\nbudget = 420.0\ndays = []\n";
    let account = parse_account(doc).unwrap();
    assert_eq!(account.start_date, Date { year: 2020, month: 2, day: 29 });
}

#[test]
fn rejects_malformed_numbers() {
    for bad in ["budget = 4,20", "budget = .5", "budget = 5.", "budget = 1.00001", "budget = 1e3"] {
        let doc = format!("start_date = 2020-10-01\nend_date = 2020-10-31\n{}\ndays = []\n", bad);
        match parse_account(&doc) {
            Err(finbudg::ParseError::DeserializerError(e)) => {
                assert_eq!(e.reason, finbudg::FormatReason::BadNumber);
            }
            other => panic!("expected a format failure, got {:?}", other),
        }
    }
}

#[test]
fn negative_prices_are_exact() {
    let doc = "start_date = 2020-10-01\nend_date = 2020-10-31\nbudget = 10.0\n\
               [[days]]\ndate = 2020-10-01\n\
               [[days.expenses]]\nname = \"refund\"\nprice = -2.50\n";
    let account = parse_account(doc).unwrap();
    let c = calculate(&account, false).unwrap();
    assert_eq!(c.total, money(-250));
    assert_eq!(c.balance, money(1250));
}

#[test]
fn missing_required_field_fails() {
    let doc = "start_date = 2020-10-01\nbudget = 420.0\ndays = []\n";
    match parse_account(doc) {
        Err(finbudg::ParseError::DeserializerError(e)) => {
            assert_eq!(e.reason, finbudg::FormatReason::MissingField);
        }
        other => panic!("expected a format failure, got {:?}", other),
    }
    let doc = "start_date = 2020-10-01\nend_date = 2020-10-31\nbudget = 420.0\n";
    match parse_account(doc) {
        Err(finbudg::ParseError::DeserializerError(e)) => {
            assert_eq!(e.reason, finbudg::FormatReason::MissingField);
        }
        other => panic!("expected a format failure, got {:?}", other),
    }
}

#[test]
fn surrounding_whitespace_is_ignored() {
    let doc = "  start_date   =  2020-10-01  \n\tend_date=2020-10-31\nbudget =420.0\ndays = [ ]\n";
    let account = parse_account(doc).unwrap();
    assert_eq!(account.start_date, Date { year: 2020, month: 10, day: 1 });
    assert_eq!(account.budget, Money::from_decimal(420, 0));
}

#[test]
fn comments_and_blank_lines_are_ignored() {
    let doc = "# a ledger\nstart_date = 2020-10-01 # starts here\n\nend_date = 2020-10-31\n\
               budget = 420.0\n\n[[days]]\ndate = 2020-10-02\n\
               [[days.expenses]]\nname = \"a # b\"\nprice = 1.00\n";
    let account = parse_account(doc).unwrap();
    assert_eq!(account.days[0].expenses[0].name, "a # b");
    let c = calculate(&account, false).unwrap();
    assert_eq!(c.total, money(100));
}

#[test]
fn duplicate_day_dates_accumulate_independently() {
    let doc = "start_date = 2020-10-01\nend_date = 2020-10-31\nbudget = 420.0\n\
               [[days]]\ndate = 2020-10-01\n\
               [[days.expenses]]\nname = \"a\"\nprice = 1.00\n\
               [[days]]\ndate = 2020-10-01\n\
               [[days.expenses]]\nname = \"b\"\nprice = 2.00\n";
    let account = parse_account(doc).unwrap();
    assert_eq!(account.days.len(), 2);
    let c = calculate(&account, false).unwrap();
    assert_eq!(c.total, money(300));
    assert!(ratio_is(&c.all_day_average, 300, 100));
}

#[test]
fn too_many_shared_parties_is_a_format_failure() {
    let mut names = Vec::new();
    for i in 0..31 {
        names.push(format!("\"p{}\"", i));
    }
    let doc = format!(
        "start_date = 2020-10-01\nend_date = 2020-10-31\nbudget = 420.0\n\
         [[days]]\ndate = 2020-10-01\n\
         [[days.expenses]]\nname = \"big\"\nprice = 1.00\nshared = [{}]\n",
        names.join(", ")
    );
    match parse_account(&doc) {
        Err(finbudg::ParseError::DeserializerError(e)) => {
            assert_eq!(e.reason, finbudg::FormatReason::TooLarge);
        }
        other => panic!("expected a format failure, got {:?}", other),
    }
}

fn format_failure(doc: &str) -> finbudg::FormatReason {
    match parse_account(doc) {
        Err(finbudg::ParseError::DeserializerError(e)) => e.reason,
        other => panic!("expected a format failure, got {:?}", other),
    }
}

#[test]
fn each_malformed_value_names_its_failure() {
    let tail = "\nend_date = 2020-10-31\nbudget = 420.0\ndays = []\n";
    assert_eq!(
        format_failure(&format!("start_date 2020-10-01{}", tail)),
        finbudg::FormatReason::BadLine,
    );
    assert_eq!(
        format_failure(&format!("[[unknown]]\nstart_date = 2020-10-01{}", tail)),
        finbudg::FormatReason::BadLine,
    );
    assert_eq!(
        format_failure(&format!("whatever = 1\nstart_date = 2020-10-01{}", tail)),
        finbudg::FormatReason::UnknownKey,
    );
    assert_eq!(
        format_failure(&format!("[[days.expenses]]\nstart_date = 2020-10-01{}", tail)),
        finbudg::FormatReason::UnknownKey,
    );
    assert_eq!(
        format_failure(&format!(
            "start_date = 2020-10-01\nstart_date = 2020-10-02{}",
            tail
        )),
        finbudg::FormatReason::DuplicateKey,
    );
    assert_eq!(
        format_failure(&format!(
            "essential_categories = [\"a\", unquoted]\nstart_date = 2020-10-01{}",
            tail
        )),
        finbudg::FormatReason::BadArray,
    );
    let exp = "start_date = 2020-10-01\nend_date = 2020-10-31\nbudget = 420.0\n\
               [[days]]\ndate = 2020-10-01\n[[days.expenses]]\n";
    assert_eq!(
        format_failure(&format!("{}name = unquoted\nprice = 1.00\n", exp)),
        finbudg::FormatReason::BadString,
    );
    assert_eq!(
        format_failure(&format!("{}name = \"a\"\nprice = 1.00\nowed = yes\n", exp)),
        finbudg::FormatReason::BadBool,
    );
    assert_eq!(
        format_failure(&format!("{}name = \"a\"\n", exp)),
        finbudg::FormatReason::MissingField,
    );
}

#[test]
fn duplicate_owed_and_shared_keys_are_rejected() {
    let exp = "start_date = 2020-10-01\nend_date = 2020-10-31\nbudget = 420.0\n\
               [[days]]\ndate = 2020-10-01\n[[days.expenses]]\nname = \"a\"\nprice = 1.00\n";
    assert_eq!(
        format_failure(&format!("{}owed = true\nowed = false\n", exp)),
        finbudg::FormatReason::DuplicateKey,
    );
    assert_eq!(
        format_failure(&format!("{}shared = []\nshared = [\"Fox\"]\n", exp)),
        finbudg::FormatReason::DuplicateKey,
    );
}

#[test]
fn format_error_messages_are_nonempty() {
    let doc = "start_date = nope\nend_date = 2020-10-31\nbudget = 420.0\ndays = []\n";
    match parse_account(doc) {
        Err(finbudg::ParseError::DeserializerError(e)) => {
            assert!(!e.message().is_empty());
        }
        other => panic!("expected a format failure, got {:?}", other),
    }
}

#[test]
fn day_numbers_count_calendar_days() {
    let d1 = finbudg::date::day_number(&Date { year: 2020, month: 10, day: 1 });
    let d2 = finbudg::date::day_number(&Date { year: 2020, month: 10, day: 4 });
    assert_eq!(d2 - d1, 3);
    let feb = finbudg::date::day_number(&Date { year: 2020, month: 2, day: 28 });
    let mar = finbudg::date::day_number(&Date { year: 2020, month: 3, day: 1 });
    assert_eq!(mar - feb, 2);
    let feb21 = finbudg::date::day_number(&Date { year: 2021, month: 2, day: 28 });
    let mar21 = finbudg::date::day_number(&Date { year: 2021, month: 3, day: 1 });
    assert_eq!(mar21 - feb21, 1);
    let y1 = finbudg::date::day_number(&Date { year: 2020, month: 1, day: 1 });
    let y2 = finbudg::date::day_number(&Date { year: 2021, month: 1, day: 1 });
    assert_eq!(y2 - y1, 366);
}

#[test]
fn parse_date_accepts_only_dashed_form() {
    let cs: Vec<char> = "2020-10-01".chars().collect();
    let d = finbudg::parse::parse_date(&cs, 0, 10).unwrap();
    assert_eq!(d, Date { year: 2020, month: 10, day: 1 });
    let cs: Vec<char> = "2020.10.01".chars().collect();
    assert!(finbudg::parse::parse_date(&cs, 0, 10).is_none());
}

#[test]
fn parse_number_is_exact() {
    let cs: Vec<char> = "3.81".chars().collect();
    let m = finbudg::parse::parse_number(&cs, 0, 4).unwrap();
    assert_eq!(m, Money::from_decimal(381, 2));
    let cs: Vec<char> = "-0.0001".chars().collect();
    let m = finbudg::parse::parse_number(&cs, 0, 7).unwrap();
    assert_eq!(m.units, -(UNIT_SCALE / 10000));
    let cs: Vec<char> = "420".chars().collect();
    let m = finbudg::parse::parse_number(&cs, 0, 3).unwrap();
    assert_eq!(m, Money::from_decimal(420, 0));
}

#[test]
fn last_day_before_start_is_not_finite_or_sign_flipped() {
    // The latest entry predates the period start: the day count is zero or
    // negative, and the averages come out non-finite or sign-flipped.
    let account = Account {
        start_date: Date { year: 2020, month: 10, day: 10 },
        end_date: Date { year: 2020, month: 10, day: 31 },
        budget: Money::from_decimal(100, 0),
        essential_categories: vec![],
        days: vec![Day {
            date: Date { year: 2020, month: 10, day: 9 },
            expenses: vec![Expense {
                name: String::from("thing"),
                price: Money::from_decimal(100, 2),
                shared: vec![],
                owed: false,
                category: None,
            }],
        }],
    };
    let c = calculate(&account, false).unwrap();
    // days elapsed = 9 - 10 + 1 = 0: the average is a division by zero.
    assert!(!c.all_day_average.is_finite());
}
