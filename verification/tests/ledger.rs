use ledger::group::{accumulate, Entry, GroupKey};
use ledger::ledger::{exclude_category, rounded_mean, Header, Ledger, QueryError, Row};
use ledger::text::{rank_text, Rank};
use ledger::window::{window_start, TimeGroup, MAX_DAY, MIN_DAY};

fn row(date: i32, category: &str, account: &str, currency: &str, cost: i64) -> Row {
    Row {
        date,
        details: String::from("-"),
        category: String::from(category),
        account: String::from(account),
        currency: String::from(currency),
        cost,
    }
}

#[test]
fn header_names_the_six_columns() {
    let h = Header::new();
    assert_eq!(h.date, "Tarikh");
    assert_eq!(h.details, "Keterangan");
    assert_eq!(h.category, "Kategori");
    assert_eq!(h.account, "Akaun");
    assert_eq!(h.currency, "Wang");
    assert_eq!(h.cost, "Jumlah");
    let l = Ledger::new(vec![]);
    assert_eq!(l.columns.date, "Tarikh");
    assert_eq!(l.rows.len(), 0);
}

#[test]
fn net_flow_of_a_month_leaves_transfers_out() {
    let l = Ledger::new(vec![
        row(19727, "Food", "A", "MYR", 1000),
        row(19742, "Food", "A", "MYR", 500),
        row(19754, "Transfer", "A", "MYR", 10000),
    ]);
    let out = l.nett(TimeGroup::Monthly, "Transfer").unwrap();
    assert_eq!(out.len(), 1);
    assert_eq!(out[0].start, 19723);
    assert_eq!(out[0].end, 19754);
    assert_eq!(out[0].account, "A");
    assert_eq!(out[0].currency, "MYR");
    assert_eq!(out[0].sum, 1500);
}

#[test]
fn net_flow_has_a_row_for_each_window_account_and_currency() {
    let l = Ledger::new(vec![
        row(19754, "Food", "B", "MYR", 700),
        row(19727, "Food", "A", "MYR", 1000),
        row(19742, "Wages", "A", "MYR", -500),
        row(19730, "Food", "A", "USD", 250),
        row(19760, "Food", "A", "MYR", 40),
        row(19728, "Food", "B", "MYR", 1),
        row(19729, "Food", "A", "MYR", 2),
    ]);
    let out = l.nett(TimeGroup::Monthly, "Pertukaran").unwrap();
    let got: Vec<(i32, &str, &str, i128)> = out
        .iter()
        .map(|r| (r.start, r.account.as_str(), r.currency.as_str(), r.sum))
        .collect();
    assert_eq!(
        got,
        vec![
            (19723, "A", "MYR", 502),
            (19723, "A", "USD", 250),
            (19723, "B", "MYR", 1),
            (19754, "A", "MYR", 40),
            (19754, "B", "MYR", 700),
        ]
    );
}

#[test]
fn net_flow_by_week_and_by_four_months() {
    let rows = || {
        vec![
            row(19727, "Food", "A", "MYR", 1000),
            row(19729, "Food", "A", "MYR", 10),
            row(19730, "Food", "A", "MYR", 100),
            row(19889, "Food", "A", "MYR", 1),
        ]
    };
    let weekly = Ledger::new(rows()).nett(TimeGroup::Weekly, "Transfer").unwrap();
    let got: Vec<(i32, i32, i128)> = weekly.iter().map(|r| (r.start, r.end, r.sum)).collect();
    assert_eq!(got, vec![(19723, 19730, 1010), (19730, 19737, 100), (19884, 19891, 1)]);
    let biweekly = Ledger::new(rows()).nett(TimeGroup::Biweekly, "Transfer").unwrap();
    let got: Vec<(i32, i32, i128)> = biweekly.iter().map(|r| (r.start, r.end, r.sum)).collect();
    assert_eq!(got, vec![(19716, 19730, 1010), (19730, 19744, 100), (19884, 19898, 1)]);
    let quarterly = Ledger::new(rows()).nett(TimeGroup::Quarterly, "Transfer").unwrap();
    let got: Vec<(i32, i32, i128)> = quarterly.iter().map(|r| (r.start, r.end, r.sum)).collect();
    assert_eq!(got, vec![(19723, 19844, 1110), (19844, 19967, 1)]);
    let monthly = Ledger::new(rows()).nett(TimeGroup::Monthly, "Transfer").unwrap();
    let got: Vec<(i32, i32, i128)> = monthly.iter().map(|r| (r.start, r.end, r.sum)).collect();
    assert_eq!(got, vec![(19723, 19754, 1110), (19875, 19905, 1)]);
}

#[test]
fn net_flow_keeps_a_window_whose_sum_is_zero() {
    let l = Ledger::new(vec![
        row(19727, "Food", "A", "MYR", 1000),
        row(19728, "Gift", "A", "MYR", -1000),
    ]);
    let out = l.nett(TimeGroup::Monthly, "Transfer").unwrap();
    assert_eq!(out.len(), 1);
    assert_eq!(out[0].sum, 0);
}

#[test]
fn net_flow_matches_the_category_exactly() {
    let l = Ledger::new(vec![
        row(19727, "transfer", "A", "MYR", 1),
        row(19727, "Transfer ", "A", "MYR", 10),
        row(19727, "Transfer", "A", "MYR", 100),
        row(19727, "", "A", "MYR", 1000),
    ]);
    let out = l.nett(TimeGroup::Monthly, "Transfer").unwrap();
    assert_eq!(out.len(), 1);
    assert_eq!(out[0].sum, 1011);
}

#[test]
fn net_flow_of_nothing_is_empty() {
    assert_eq!(Ledger::new(vec![]).nett(TimeGroup::Weekly, "Transfer").unwrap().len(), 0);
    let l = Ledger::new(vec![row(19727, "Transfer", "A", "MYR", 1)]);
    assert_eq!(l.nett(TimeGroup::Weekly, "Transfer").unwrap().len(), 0);
}

#[test]
fn a_transfer_added_anywhere_changes_no_sum() {
    let base = || {
        vec![
            row(19727, "Food", "A", "MYR", 1000),
            row(19742, "Food", "B", "MYR", 500),
            row(19760, "Food", "A", "MYR", 7),
        ]
    };
    let plain = Ledger::new(base()).nett(TimeGroup::Monthly, "Transfer").unwrap();
    for at in 0..=3 {
        let mut rows = base();
        rows.insert(at, row(19727, "Transfer", "A", "MYR", 99999));
        let out = Ledger::new(rows).nett(TimeGroup::Monthly, "Transfer").unwrap();
        assert_eq!(out.len(), plain.len());
        for i in 0..out.len() {
            assert_eq!(out[i].start, plain[i].start);
            assert_eq!(out[i].account, plain[i].account);
            assert_eq!(out[i].currency, plain[i].currency);
            assert_eq!(out[i].sum, plain[i].sum);
        }
    }
}

#[test]
fn every_kept_row_is_counted_once() {
    let rows = vec![
        row(19727, "Food", "A", "MYR", 3),
        row(19754, "Food", "A", "MYR", 5),
        row(19790, "Food", "B", "USD", 7),
        row(19791, "Transfer", "B", "USD", 1000),
        row(19890, "Food", "B", "MYR", 11),
        row(19727, "Food", "A", "MYR", 13),
    ];
    for group in [TimeGroup::Quarterly, TimeGroup::Monthly, TimeGroup::Biweekly, TimeGroup::Weekly] {
        let copy: Vec<Row> = rows
            .iter()
            .map(|r| row(r.date, &r.category, &r.account, &r.currency, r.cost))
            .collect();
        let out = Ledger::new(copy).nett(group, "Transfer").unwrap();
        let total: i128 = out.iter().map(|r| r.sum).sum();
        assert_eq!(total, 3 + 5 + 7 + 11 + 13);
        for i in 1..out.len() {
            let a = (out[i - 1].start, out[i - 1].account.as_str(), out[i - 1].currency.as_str());
            let b = (out[i].start, out[i].account.as_str(), out[i].currency.as_str());
            assert!(a < b);
        }
    }
}

#[test]
fn the_windows_of_a_net_flow_do_not_overlap() {
    for group in [TimeGroup::Quarterly, TimeGroup::Monthly, TimeGroup::Biweekly, TimeGroup::Weekly] {
        let every = group.into_dynamic_group_opts().every;
        let days: Vec<i32> = (0..400).map(|i| 19500 + 3 * i).collect();
        let rows: Vec<Row> = days
            .iter()
            .map(|d| row(*d, "Food", if d % 2 == 0 { "A" } else { "B" }, "MYR", 1))
            .collect();
        let out = Ledger::new(rows).nett(group, "Transfer").unwrap();
        let starts: Vec<i32> = {
            let mut s: Vec<i32> = out.iter().map(|r| r.start).collect();
            s.dedup();
            s
        };
        for d in &days {
            let own = window_start(every, *d);
            assert!(starts.contains(&own));
            let holding: Vec<&i32> = starts
                .iter()
                .enumerate()
                .filter(|(n, s)| **s <= *d && (n + 1 == starts.len() || *d < starts[n + 1]))
                .map(|(_, s)| s)
                .collect();
            assert_eq!(holding, vec![&own]);
        }
        let counted: i128 = out.iter().map(|r| r.sum).sum();
        assert_eq!(counted, 400);
        // each day lies in exactly one window of its account, and windows lie apart
        for d in &days {
            let account = if d % 2 == 0 { "A" } else { "B" };
            let holding = out
                .iter()
                .filter(|r| r.account == account && r.start <= *d && *d < r.end)
                .count();
            assert_eq!(holding, 1);
        }
        for a in &out {
            for b in &out {
                assert!(a.start >= b.start || a.end <= b.start);
            }
        }
    }
}

#[test]
fn net_flow_refuses_a_day_off_the_calendar() {
    let l = Ledger::new(vec![row(19727, "Food", "A", "MYR", 1), row(MAX_DAY + 1, "Food", "A", "MYR", 1)]);
    assert_eq!(l.nett(TimeGroup::Monthly, "Transfer").unwrap_err(), QueryError::DateOutOfRange);
    let l = Ledger::new(vec![row(MIN_DAY - 1, "Food", "A", "MYR", 1)]);
    assert_eq!(l.nett(TimeGroup::Weekly, "Transfer").unwrap_err(), QueryError::DateOutOfRange);
    let l = Ledger::new(vec![row(i32::MIN, "Food", "A", "MYR", 1)]);
    assert_eq!(l.nett(TimeGroup::Quarterly, "Transfer").unwrap_err(), QueryError::DateOutOfRange);
}

#[test]
fn net_flow_takes_the_first_and_the_last_day_of_the_calendar() {
    let l = Ledger::new(vec![row(MIN_DAY, "Food", "A", "MYR", 1), row(MAX_DAY, "Food", "A", "MYR", 2)]);
    let out = l.nett(TimeGroup::Monthly, "Transfer").unwrap();
    assert_eq!(out.len(), 2);
    assert_eq!(out[0].sum, 1);
    assert_eq!(out[1].sum, 2);
}

#[test]
fn an_ignored_row_off_the_calendar_does_no_harm() {
    let l = Ledger::new(vec![
        row(19727, "Food", "A", "MYR", 1),
        row(i32::MAX, "Transfer", "A", "MYR", 1),
    ]);
    let out = l.nett(TimeGroup::Monthly, "Transfer").unwrap();
    assert_eq!(out.len(), 1);
    assert_eq!(out[0].sum, 1);
}

#[test]
fn temporal_group_counts_the_rows_of_each_window() {
    let l = Ledger::new(vec![]);
    let rows = vec![
        row(19727, "Food", "A", "MYR", 1000),
        row(19742, "Food", "A", "MYR", 500),
        row(19754, "Food", "A", "MYR", -20),
    ];
    let groups = l.temporal_group(&rows, TimeGroup::Monthly).unwrap();
    assert_eq!(groups.len(), 2);
    assert_eq!(groups[0].key.start, 19723);
    assert_eq!(groups[0].count, 2);
    assert_eq!(groups[0].sum, 1500);
    assert_eq!(groups[0].max, 1000);
    assert_eq!(groups[0].min, 500);
    assert_eq!(groups[1].key.start, 19754);
    assert_eq!(groups[1].count, 1);
    assert_eq!(groups[1].sum, -20);
    let off = vec![row(MAX_DAY + 1, "Food", "A", "MYR", 1)];
    assert_eq!(l.temporal_group(&off, TimeGroup::Monthly).unwrap_err(), QueryError::DateOutOfRange);
}

#[test]
fn summary_has_a_row_for_each_account_and_currency() {
    let l = Ledger::new(vec![
        row(19727, "Food", "B", "MYR", 1000),
        row(19742, "Food", "A", "USD", 500),
        row(10, "Transfer", "A", "MYR", 333),
        row(19754, "Food", "B", "MYR", 250),
        row(19999, "Food", "A", "MYR", -100),
        row(-5, "Food", "B", "MYR", 1),
        row(20000, "Wages", "A", "MYR", 334),
    ]);
    let out = l.summarize();
    let got: Vec<(&str, &str, i128, i128, i64, i64)> = out
        .iter()
        .map(|r| (r.account.as_str(), r.currency.as_str(), r.sum, r.mean, r.max, r.min))
        .collect();
    assert_eq!(
        got,
        vec![
            ("A", "MYR", 567, 189, 334, -100),
            ("A", "USD", 500, 500, 500, 500),
            ("B", "MYR", 1251, 417, 1000, 1),
        ]
    );
}

#[test]
fn summary_of_nothing_is_empty() {
    assert_eq!(Ledger::new(vec![]).summarize().len(), 0);
}

#[test]
fn summary_counts_the_distinct_pairs() {
    let mut rows = vec![];
    let accounts = ["Cash", "Bank", "Card"];
    let currencies = ["MYR", "USD"];
    for i in 0..60 {
        rows.push(row(i, "Food", accounts[(i % 3) as usize], currencies[(i % 2) as usize], i as i64));
    }
    let out = Ledger::new(rows).summarize();
    assert_eq!(out.len(), 6);
    let total: i128 = out.iter().map(|r| r.sum).sum();
    assert_eq!(total, (0..60).sum::<i128>());
}

#[test]
fn summary_tells_pairs_apart_that_join_to_the_same_text() {
    let l = Ledger::new(vec![row(1, "Food", "AB", "C", 1), row(1, "Food", "A", "BC", 2)]);
    let out = l.summarize();
    assert_eq!(out.len(), 2);
    assert_eq!(out[0].account, "A");
    assert_eq!(out[0].sum, 2);
    assert_eq!(out[1].account, "AB");
    assert_eq!(out[1].sum, 1);
}

#[test]
fn summary_sums_exactly_beyond_sixty_four_bits() {
    let l = Ledger::new(vec![
        row(1, "Food", "A", "MYR", i64::MAX),
        row(2, "Food", "A", "MYR", i64::MAX),
        row(3, "Food", "A", "MYR", i64::MAX),
    ]);
    let out = l.summarize();
    assert_eq!(out[0].sum, 3 * (i64::MAX as i128));
    assert_eq!(out[0].mean, i64::MAX as i128);
    assert_eq!(out[0].max, i64::MAX);
    assert_eq!(out[0].min, i64::MAX);
    let l = Ledger::new(vec![row(1, "Food", "A", "MYR", i64::MIN), row(2, "Food", "A", "MYR", i64::MIN)]);
    let out = l.summarize();
    assert_eq!(out[0].sum, 2 * (i64::MIN as i128));
    assert_eq!(out[0].mean, i64::MIN as i128);
}

#[test]
fn mean_rounds_to_the_nearest_cent_halves_away_from_zero() {
    assert_eq!(rounded_mean(10, 4), 3);
    assert_eq!(rounded_mean(-10, 4), -3);
    assert_eq!(rounded_mean(9, 4), 2);
    assert_eq!(rounded_mean(-9, 4), -2);
    assert_eq!(rounded_mean(11, 4), 3);
    assert_eq!(rounded_mean(1, 3), 0);
    assert_eq!(rounded_mean(2, 3), 1);
    assert_eq!(rounded_mean(-2, 3), -1);
    assert_eq!(rounded_mean(0, 7), 0);
    assert_eq!(rounded_mean(1500, 2), 750);
    assert_eq!(rounded_mean(1501, 2), 751);
    assert_eq!(rounded_mean(-1501, 2), -751);
    assert_eq!(rounded_mean(7, 1), 7);
}

#[test]
fn exclude_category_keeps_the_order() {
    let rows = vec![
        row(3, "Food", "A", "MYR", 1),
        row(1, "Transfer", "A", "MYR", 2),
        row(2, "Gift", "A", "MYR", 3),
        row(0, "Transfer", "A", "MYR", 4),
    ];
    let kept = exclude_category(&rows, "Transfer");
    let costs: Vec<i64> = kept.iter().map(|r| r.cost).collect();
    assert_eq!(costs, vec![1, 3]);
    assert_eq!(exclude_category(&rows, "Nothing").len(), 4);
}

#[test]
fn accumulate_groups_in_ascending_order_of_the_keys() {
    let entry = |start: i32, account: &str, currency: &str, cost: i64| Entry {
        key: GroupKey { start, account: String::from(account), currency: String::from(currency) },
        cost,
    };
    let out = accumulate(&vec![
        entry(2, "A", "X", 1),
        entry(1, "B", "X", 2),
        entry(1, "A", "Y", 4),
        entry(1, "A", "X", 8),
        entry(1, "B", "X", 16),
        entry(2, "A", "X", -32),
    ]);
    let got: Vec<(i32, &str, &str, i128, usize, i64, i64)> = out
        .iter()
        .map(|b| (b.key.start, b.key.account.as_str(), b.key.currency.as_str(), b.sum, b.count, b.max, b.min))
        .collect();
    assert_eq!(
        got,
        vec![
            (1, "A", "X", 8, 1, 8, 8),
            (1, "A", "Y", 4, 1, 4, 4),
            (1, "B", "X", 18, 2, 16, 2),
            (2, "A", "X", -31, 2, 1, -32),
        ]
    );
}

#[test]
fn text_is_ordered_by_its_bytes() {
    assert_eq!(rank_text("", ""), Rank::Equal);
    assert_eq!(rank_text("", "a"), Rank::Less);
    assert_eq!(rank_text("a", ""), Rank::Greater);
    assert_eq!(rank_text("abc", "abc"), Rank::Equal);
    assert_eq!(rank_text("abc", "abd"), Rank::Less);
    assert_eq!(rank_text("abd", "abc"), Rank::Greater);
    assert_eq!(rank_text("ab", "abc"), Rank::Less);
    assert_eq!(rank_text("B", "a"), Rank::Less);
    assert_eq!(rank_text("z", "é"), Rank::Less);
    assert_eq!(rank_text("é", "é"), Rank::Equal);
    let words = ["", "A", "AB", "Akaun", "B", "a", "wang", "é", "日本"];
    for a in words {
        for b in words {
            let expected = match a.cmp(b) {
                std::cmp::Ordering::Less => Rank::Less,
                std::cmp::Ordering::Equal => Rank::Equal,
                std::cmp::Ordering::Greater => Rank::Greater,
            };
            assert_eq!(rank_text(a, b), expected);
        }
    }
}
