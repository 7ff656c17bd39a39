//! The ledger: transaction rows, the lifetime summary per account and
//! currency, and the net flow per time window.
use crate::group::{
    accumulate, bucket_of, cost_where, count_of, grouped, has_bucket, has_key, is_max_of,
    is_min_of, key_lt, lemma_absent, lemma_key_total, lemma_selected_total_is_cost,
    lemma_sum_bounds, selected_total, sum_of, Bucket, Entry, GroupKey, KeyView,
};
use crate::ingest::{Column, Table, Value};
use crate::text::{rank_text, Rank};
use crate::window::{
    lemma_day_before_end, lemma_windows_apart, lemma_windows_lie_apart, span_days, starts_window,
    window_end, window_end_of, window_holds, window_spans, window_start, window_start_of, Span,
    TimeGroup, MAX_DAY, MIN_DAY,
};
use vstd::prelude::*;

verus! {

/// The names of the ledger's columns.
#[derive(Clone, Copy, Debug)]
pub struct Header<'a> {
    pub date: &'a str,
    pub details: &'a str,
    pub category: &'a str,
    pub account: &'a str,
    pub currency: &'a str,
    pub cost: &'a str,
}

impl<'a> Header<'a> {
    /// The names are those of the ledger's source sheets.
    pub open spec fn is_standard(self) -> bool {
        &&& self.date@ == "Tarikh"@
        &&& self.details@ == "Keterangan"@
        &&& self.category@ == "Kategori"@
        &&& self.account@ == "Akaun"@
        &&& self.currency@ == "Wang"@
        &&& self.cost@ == "Jumlah"@
    }

    /// The column names of the ledger's source sheets.
    pub fn new() -> (h: Self)
        ensures
            h.is_standard(),
    {
        Self {
            date: "Tarikh",
            details: "Keterangan",
            category: "Kategori",
            account: "Akaun",
            currency: "Wang",
            cost: "Jumlah",
        }
    }
}

/// One transaction: its day counted from 1970-01-01, and its cost in cents.
#[derive(Debug)]
pub struct Row {
    pub date: i32,
    pub details: String,
    pub category: String,
    pub account: String,
    pub currency: String,
    pub cost: i64,
}

/// A copy of a row.
pub fn copy_row(r: &Row) -> (c: Row)
    ensures
        c == *r,
{
    Row {
        date: r.date,
        details: r.details.clone(),
        category: r.category.clone(),
        account: r.account.clone(),
        currency: r.currency.clone(),
        cost: r.cost,
    }
}

/// Why a query over the ledger could not be answered.
#[derive(Clone, Copy, Debug, PartialEq, Eq, Structural)]
pub enum QueryError {
    /// A row to be put in a window lies outside the days the calendar
    /// covers, `MIN_DAY` to `MAX_DAY`.
    DateOutOfRange,
}

/// The rows of `rows`, in their order, whose category is not `ignore`.
pub open spec fn kept(rows: Seq<Row>, ignore: Seq<char>) -> Seq<Row>
    decreases rows.len(),
{
    if rows.len() == 0 {
        Seq::empty()
    } else if rows.last().category@ == ignore {
        kept(rows.drop_last(), ignore)
    } else {
        kept(rows.drop_last(), ignore).push(rows.last())
    }
}

/// Every row's day lies within the days the calendar covers.
pub open spec fn in_range(rows: Seq<Row>) -> bool {
    forall|i: int| 0 <= i < rows.len() ==> MIN_DAY <= (#[trigger] rows[i]).date <= MAX_DAY
}

/// A row's cost under the window of width `every` that its day falls in,
/// its account and its currency.
pub open spec fn window_entry(r: Row, every: Span) -> Entry {
    Entry {
        key: GroupKey {
            start: window_start_of(every, r.date as int) as i32,
            account: r.account,
            currency: r.currency,
        },
        cost: r.cost,
    }
}

/// The rows as entries under their windows.
pub open spec fn windowed(rows: Seq<Row>, every: Span) -> Seq<Entry> {
    Seq::new(rows.len(), |i: int| window_entry(rows[i], every))
}

/// A row's cost under its account and currency alone.
pub open spec fn lifetime_entry(r: Row) -> Entry {
    Entry { key: GroupKey { start: 0, account: r.account, currency: r.currency }, cost: r.cost }
}

/// The rows as entries under account and currency, whatever their day.
pub open spec fn lifetime(rows: Seq<Row>) -> Seq<Entry> {
    Seq::new(rows.len(), |i: int| lifetime_entry(rows[i]))
}

/// The window of every row is an interval up to the row's day.
pub open spec fn windows_hold(rows: Seq<Row>, every: Span) -> bool {
    forall|i: int| 0 <= i < rows.len() ==> window_holds(every, (#[trigger] rows[i]).date as int)
}

/// Some row has the account and the currency of key `k` and lies in its
/// window: on or after the window's start, and less than `span_days` days
/// after it.
pub open spec fn holds_row(rows: Seq<Row>, every: Span, k: KeyView) -> bool {
    exists|i: int|
        0 <= i < rows.len() && window_entry(#[trigger] rows[i], every).key@ == k && k.start
            <= rows[i].date < k.start + span_days(every)
}

/// The net flow of one account and currency in one window: the window's
/// first day, the first day after it, and the sum of the costs in it.
#[derive(Debug)]
pub struct NetRow {
    pub start: i32,
    pub end: i32,
    pub account: String,
    pub currency: String,
    pub sum: i128,
}

impl NetRow {
    /// The window, account and currency the row stands for.
    pub open spec fn key(&self) -> KeyView {
        KeyView { start: self.start as int, account: self.account@, currency: self.currency@ }
    }
}

/// Every row's `start` and `end` are one window of the grid and the start
/// of the next.
pub open spec fn net_spans(every: Span, out: Seq<NetRow>) -> bool {
    forall|j: int|
        0 <= j < out.len() ==> (#[trigger] out[j]).end == window_end_of(every, out[j].start as int)
            && window_spans(every, out[j].start as int, out[j].end as int)
}

/// The row holds the exact sum of the costs of `es` under its key, of
/// which there is at least one.
pub open spec fn net_row_of(es: Seq<Entry>, r: NetRow) -> bool {
    has_key(es, r.key()) && r.sum == sum_of(es, r.key())
}

/// Some row of `out` stands for key `k`.
pub open spec fn has_net_row(out: Seq<NetRow>, k: KeyView) -> bool {
    exists|j: int| 0 <= j < out.len() && (#[trigger] out[j]).key() == k
}

/// The rows stand in strictly ascending order of window start, account
/// and currency.
pub open spec fn net_ascending(out: Seq<NetRow>) -> bool {
    forall|i: int, j: int|
        0 <= i < j < out.len() ==> key_lt((#[trigger] out[i]).key(), (#[trigger] out[j]).key())
}

/// `out` is the net flow of `es`: one row for each key that occurs in `es`
/// and for no other, with the exact sum of the key's costs, in strictly
/// ascending order of window start, account and currency.
pub open spec fn is_net(es: Seq<Entry>, out: Seq<NetRow>) -> bool {
    &&& net_ascending(out)
    &&& forall|j: int| 0 <= j < out.len() ==> net_row_of(es, #[trigger] out[j])
    &&& forall|i: int| 0 <= i < es.len() ==> has_net_row(out, (#[trigger] es[i]).key@)
}

/// The quotient `sum / count` rounded to the nearest integer, halves away
/// from zero.
pub open spec fn mean_of(sum: int, count: int) -> int {
    let a = if sum < 0 {
        -sum
    } else {
        sum
    };
    let q = a / count;
    let m = if 2 * (a % count) >= count {
        q + 1
    } else {
        q
    };
    if sum < 0 {
        -m
    } else {
        m
    }
}

/// The lifetime statistics of one account and currency, in cents.
#[derive(Debug)]
pub struct Summary {
    pub account: String,
    pub currency: String,
    pub sum: i128,
    pub mean: i128,
    pub max: i64,
    pub min: i64,
}

impl Summary {
    /// The account and currency the row stands for.
    pub open spec fn key(&self) -> KeyView {
        KeyView { start: 0, account: self.account@, currency: self.currency@ }
    }
}

/// The row holds the statistics of the costs of `es` under its key, of
/// which there is at least one.
pub open spec fn summary_of(es: Seq<Entry>, r: Summary) -> bool {
    &&& has_key(es, r.key())
    &&& r.sum == sum_of(es, r.key())
    &&& r.mean == mean_of(sum_of(es, r.key()), count_of(es, r.key()) as int)
    &&& is_max_of(es, r.key(), r.max as int)
    &&& is_min_of(es, r.key(), r.min as int)
}

/// Some row of `out` stands for key `k`.
pub open spec fn has_summary_row(out: Seq<Summary>, k: KeyView) -> bool {
    exists|j: int| 0 <= j < out.len() && (#[trigger] out[j]).key() == k
}

/// The rows stand in strictly ascending order of account and currency.
pub open spec fn summary_ascending(out: Seq<Summary>) -> bool {
    forall|i: int, j: int|
        0 <= i < j < out.len() ==> key_lt((#[trigger] out[i]).key(), (#[trigger] out[j]).key())
}

/// `out` is the summary of `es`: one row for each key that occurs in `es`
/// and for no other, with the exact sum, the rounded mean, the largest and
/// the smallest of the key's costs, in strictly ascending order of account
/// and currency.
pub open spec fn is_summary(es: Seq<Entry>, out: Seq<Summary>) -> bool {
    &&& summary_ascending(out)
    &&& forall|j: int| 0 <= j < out.len() ==> summary_of(es, #[trigger] out[j])
    &&& forall|i: int| 0 <= i < es.len() ==> has_summary_row(out, (#[trigger] es[i]).key@)
}

/// The pairs of account and currency that occur among the rows.
pub open spec fn distinct_pairs(rows: Seq<Row>) -> Set<(Seq<char>, Seq<char>)> {
    Set::new(
        |p: (Seq<char>, Seq<char>)|
            exists|i: int|
                0 <= i < rows.len() && (#[trigger] rows[i]).account@ == p.0 && rows[i].currency@
                    == p.1,
    )
}

/// The rows whose category is not `ignore`, in their order.
pub fn exclude_category(rows: &Vec<Row>, ignore: &str) -> (out: Vec<Row>)
    ensures
        out@ == kept(rows@, ignore@),
{
    let mut out: Vec<Row> = Vec::new();
    let mut n: usize = 0;
    while n < rows.len()
        invariant
            n <= rows.len(),
            out@ == kept(rows@.subrange(0, n as int), ignore@),
        decreases rows.len() - n,
    {
        proof {
            assert(rows@.subrange(0, n + 1).drop_last() =~= rows@.subrange(0, n as int));
        }
        match rank_text(rows[n].category.as_str(), ignore) {
            Rank::Equal => {},
            _ => {
                out.push(copy_row(&rows[n]));
            },
        }
        n = n + 1;
    }
    proof {
        assert(rows@.subrange(0, n as int) =~= rows@);
    }
    out
}

/// The quotient of a sum by the number of its terms, rounded to the
/// nearest integer, halves away from zero.
pub fn rounded_mean(sum: i128, count: usize) -> (m: i128)
    requires
        count > 0,
        -(count * 0x8000_0000_0000_0000) <= sum <= count * 0x8000_0000_0000_0000,
    ensures
        m == mean_of(sum as int, count as int),
{
    proof {
        assert(count * 0x8000_0000_0000_0000 <= 0xffff_ffff_ffff_ffff * 0x8000_0000_0000_0000)
            by (nonlinear_arith)
            requires
                0 <= count <= 0xffff_ffff_ffff_ffff,
        ;
    }
    let c: i128 = count as i128;
    let a: i128 = if sum < 0 {
        -sum
    } else {
        sum
    };
    let q: i128 = a / c;
    let r: i128 = a % c;
    proof {
        vstd::arithmetic::div_mod::lemma_fundamental_div_mod(a as int, c as int);
        vstd::arithmetic::div_mod::lemma_mod_bound(a as int, c as int);
        assert(q <= a) by (nonlinear_arith)
            requires
                a == c * q + r,
                0 <= r,
                c >= 1,
                a >= 0,
                q >= 0,
        ;
    }
    let m: i128 = if r >= c - r {
        q + 1
    } else {
        q
    };
    if sum < 0 {
        -m
    } else {
        m
    }
}

/// A ledger: the column names of its source and its rows.
#[derive(Debug)]
pub struct Ledger<'a> {
    pub columns: Header<'a>,
    pub rows: Vec<Row>,
}

impl<'a> Ledger<'a> {
    /// A ledger of the given rows, under the usual column names.
    pub fn new(rows: Vec<Row>) -> (l: Ledger<'static>)
        ensures
            l.rows@ == rows@,
            l.columns.is_standard(),
    {
        Ledger { columns: Header::new(), rows }
    }

    /// The rows as costs under their windows, grouped: one bucket for each
    /// window, account and currency that has a row, in ascending order of
    /// window start, account and currency.
    ///
    /// Every row lies in the window it is counted in, on or after the
    /// window's start, and the days between the start and the row belong
    /// to the same window, so that no two windows overlap. Fails exactly
    /// when some row's day lies outside the days the calendar covers.
    pub fn temporal_group(&self, rows: &Vec<Row>, group: TimeGroup) -> (r: Result<
        Vec<Bucket>,
        QueryError,
    >)
        ensures
            match r {
                Ok(b) => {
                    &&& in_range(rows@)
                    &&& grouped(windowed(rows@, group.step()), b@)
                    &&& windows_hold(rows@, group.step())
                    &&& forall|j: int|
                        0 <= j < b.len() ==> holds_row(rows@, group.step(), (#[trigger] b[j]).key@)
                },
                Err(e) => !in_range(rows@) && e == QueryError::DateOutOfRange,
            },
    {
        let every = group.into_dynamic_group_opts().every;
        let mut es: Vec<Entry> = Vec::new();
        let mut n: usize = 0;
        while n < rows.len()
            invariant
                n <= rows.len(),
                every == group.step(),
                es.len() == n,
                forall|i: int| 0 <= i < n ==> MIN_DAY <= (#[trigger] rows[i]).date <= MAX_DAY,
                forall|i: int| 0 <= i < n ==> window_holds(every, (#[trigger] rows[i]).date as int),
                forall|i: int| 0 <= i < n ==> (#[trigger] es[i]) == window_entry(rows[i], every),
            decreases rows.len() - n,
        {
            let row = &rows[n];
            if row.date < MIN_DAY || row.date > MAX_DAY {
                return Err(QueryError::DateOutOfRange);
            }
            es.push(
                Entry {
                    key: GroupKey {
                        start: window_start(every, row.date),
                        account: row.account.clone(),
                        currency: row.currency.clone(),
                    },
                    cost: row.cost,
                },
            );
            n = n + 1;
        }
        proof {
            assert(es@ =~= windowed(rows@, every));
        }
        let buckets = accumulate(&es);
        proof {
            assert forall|j: int| 0 <= j < buckets.len() implies holds_row(
                rows@,
                every,
                (#[trigger] buckets[j]).key@,
            ) by {
                assert(bucket_of(es@, buckets[j]));
                lemma_absent(es@, buckets[j].key@);
                lemma_rows_in_their_windows(rows@, every, buckets[j].key@);
            }
        }
        Ok(buckets)
    }

    /// The net flow per window: the rows whose category is not
    /// `ignore_category` are put in the windows of `group` by their day,
    /// and the costs of each window, account and currency are summed.
    ///
    /// The result has one row for each window, account and currency that
    /// holds a row, and none for an empty one, in ascending order of window
    /// start, account and currency; each gives its window's first day and
    /// the first day after it. Every row that is not ignored lies in the
    /// window it is counted in, and no two windows overlap. It fails
    /// exactly when a row that is not ignored lies outside the days the
    /// calendar covers.
    pub fn nett(self, group: TimeGroup, ignore_category: &str) -> (r: Result<
        Vec<NetRow>,
        QueryError,
    >)
        ensures
            match r {
                Ok(out) => {
                    let rows = kept(self.rows@, ignore_category@);
                    &&& in_range(rows)
                    &&& is_net(windowed(rows, group.step()), out@)
                    &&& windows_hold(rows, group.step())
                    &&& net_spans(group.step(), out@)
                    &&& forall|j: int|
                        0 <= j < out.len() ==> holds_row(rows, group.step(), (#[trigger] out[j]).key())
                },
                Err(e) => !in_range(kept(self.rows@, ignore_category@)) && e
                    == QueryError::DateOutOfRange,
            },
    {
        let rows = exclude_category(&self.rows, ignore_category);
        let buckets = match self.temporal_group(&rows, group) {
            Ok(b) => b,
            Err(e) => {
                return Err(e);
            },
        };
        let ghost es = windowed(rows@, group.step());
        let every = group.into_dynamic_group_opts().every;
        let mut out: Vec<NetRow> = Vec::new();
        let mut n: usize = 0;
        while n < buckets.len()
            invariant
                n <= buckets.len(),
                out.len() == n,
                every == group.step(),
                every.is_step(),
                in_range(rows@),
                windows_hold(rows@, every),
                forall|j: int|
                    0 <= j < buckets.len() ==> holds_row(rows@, every, (#[trigger] buckets[j]).key@),
                forall|j: int|
                    0 <= j < n ==> (#[trigger] out[j]).key() == buckets[j].key@ && out[j].sum
                        == buckets[j].sum,
                forall|j: int|
                    0 <= j < n ==> (#[trigger] out[j]).end == window_end_of(
                        every,
                        out[j].start as int,
                    ) && window_spans(every, out[j].start as int, out[j].end as int),
            decreases buckets.len() - n,
        {
            let b = &buckets[n];
            proof {
                lemma_key_starts_window(rows@, every, b.key@);
            }
            out.push(
                NetRow {
                    start: b.key.start,
                    end: window_end(every, b.key.start),
                    account: b.key.account.clone(),
                    currency: b.key.currency.clone(),
                    sum: b.sum,
                },
            );
            n = n + 1;
        }
        proof {
            lemma_net_from_buckets(es, buckets@, out@);
            assert forall|j: int| 0 <= j < out.len() implies holds_row(
                rows@,
                group.step(),
                (#[trigger] out[j]).key(),
            ) by {
                assert(holds_row(rows@, group.step(), buckets[j].key@));
            }
        }
        Ok(out)
    }

    /// The lifetime summary: for each account and currency that has a row,
    /// the exact sum of its costs, their mean rounded to the cent (halves
    /// away from zero), the largest and the smallest.
    ///
    /// The result has one row for each distinct pair of account and
    /// currency, in ascending order of account and currency.
    pub fn summarize(self) -> (out: Vec<Summary>)
        ensures
            is_summary(lifetime(self.rows@), out@),
            out.len() == distinct_pairs(self.rows@).len(),
    {
        let mut es: Vec<Entry> = Vec::new();
        let mut n: usize = 0;
        while n < self.rows.len()
            invariant
                n <= self.rows.len(),
                es.len() == n,
                forall|i: int| 0 <= i < n ==> (#[trigger] es[i]) == lifetime_entry(self.rows[i]),
            decreases self.rows.len() - n,
        {
            let row = &self.rows[n];
            es.push(
                Entry {
                    key: GroupKey {
                        start: 0,
                        account: row.account.clone(),
                        currency: row.currency.clone(),
                    },
                    cost: row.cost,
                },
            );
            n = n + 1;
        }
        proof {
            assert(es@ =~= lifetime(self.rows@));
        }
        let buckets = accumulate(&es);
        let mut out: Vec<Summary> = Vec::new();
        let mut m: usize = 0;
        while m < buckets.len()
            invariant
                m <= buckets.len(),
                out.len() == m,
                grouped(es@, buckets@),
                forall|j: int| 0 <= j < buckets.len() ==> (#[trigger] buckets[j]).key.start == 0,
                forall|j: int|
                    0 <= j < m ==> {
                        &&& (#[trigger] out[j]).key() == buckets[j].key@
                        &&& out[j].sum == buckets[j].sum
                        &&& out[j].mean == mean_of(buckets[j].sum as int, buckets[j].count as int)
                        &&& out[j].max == buckets[j].max
                        &&& out[j].min == buckets[j].min
                    },
            decreases buckets.len() - m,
        {
            let b = &buckets[m];
            proof {
                assert(bucket_of(es@, buckets[m as int]));
                lemma_sum_bounds(es@, b.key@);
            }
            out.push(
                Summary {
                    account: b.key.account.clone(),
                    currency: b.key.currency.clone(),
                    sum: b.sum,
                    mean: rounded_mean(b.sum, b.count),
                    max: b.max,
                    min: b.min,
                },
            );
            m = m + 1;
        }
        proof {
            lemma_summary_from_buckets(es@, buckets@, out@);
            lemma_summary_rows_are_distinct_pairs(self.rows@, out@);
        }
        out
    }
}

/// Rows that repeat the keys and sums of a grouping are its net flow.
proof fn lemma_net_from_buckets(es: Seq<Entry>, buckets: Seq<Bucket>, out: Seq<NetRow>)
    requires
        grouped(es, buckets),
        out.len() == buckets.len(),
        forall|j: int|
            0 <= j < out.len() ==> (#[trigger] out[j]).key() == buckets[j].key@ && out[j].sum
                == buckets[j].sum,
    ensures
        is_net(es, out),
{
    assert forall|j: int| 0 <= j < out.len() implies net_row_of(es, #[trigger] out[j]) by {
        assert(bucket_of(es, buckets[j]));
        lemma_absent(es, buckets[j].key@);
    }
    assert forall|i: int| 0 <= i < es.len() implies has_net_row(out, (#[trigger] es[i]).key@) by {
        assert(has_bucket(buckets, es[i].key@));
        let j = choose|j: int| 0 <= j < buckets.len() && (#[trigger] buckets[j]).key@ == es[i].key@;
        assert(out[j].key() == es[i].key@);
    }
    assert forall|i: int, j: int| 0 <= i < j < out.len() implies key_lt(
        (#[trigger] out[i]).key(),
        (#[trigger] out[j]).key(),
    ) by {
        assert(key_lt(buckets[i].key@, buckets[j].key@));
    }
}

/// Rows that repeat the keys and statistics of a grouping, with the mean
/// of each, are its summary.
proof fn lemma_summary_from_buckets(es: Seq<Entry>, buckets: Seq<Bucket>, out: Seq<Summary>)
    requires
        grouped(es, buckets),
        out.len() == buckets.len(),
        forall|j: int|
            0 <= j < out.len() ==> {
                &&& (#[trigger] out[j]).key() == buckets[j].key@
                &&& out[j].sum == buckets[j].sum
                &&& out[j].mean == mean_of(buckets[j].sum as int, buckets[j].count as int)
                &&& out[j].max == buckets[j].max
                &&& out[j].min == buckets[j].min
            },
    ensures
        is_summary(es, out),
{
    assert forall|j: int| 0 <= j < out.len() implies summary_of(es, #[trigger] out[j]) by {
        assert(bucket_of(es, buckets[j]));
        lemma_absent(es, buckets[j].key@);
    }
    assert forall|i: int| 0 <= i < es.len() implies has_summary_row(out, (#[trigger] es[i]).key@) by {
        assert(has_bucket(buckets, es[i].key@));
        let j = choose|j: int| 0 <= j < buckets.len() && (#[trigger] buckets[j]).key@ == es[i].key@;
        assert(out[j].key() == es[i].key@);
    }
    assert forall|i: int, j: int| 0 <= i < j < out.len() implies key_lt(
        (#[trigger] out[i]).key(),
        (#[trigger] out[j]).key(),
    ) by {
        assert(key_lt(buckets[i].key@, buckets[j].key@));
    }
}

/// The pair of account and currency of each row of a summary.
pub open spec fn summary_pairs(out: Seq<Summary>) -> Seq<(Seq<char>, Seq<char>)> {
    Seq::new(out.len(), |j: int| (out[j].account@, out[j].currency@))
}

/// A summary has as many rows as the ledger has distinct pairs of account
/// and currency.
pub proof fn lemma_summary_rows_are_distinct_pairs(rows: Seq<Row>, out: Seq<Summary>)
    requires
        is_summary(lifetime(rows), out),
    ensures
        distinct_pairs(rows).finite(),
        out.len() == distinct_pairs(rows).len(),
{
    let es = lifetime(rows);
    let keys = summary_pairs(out);
    assert forall|i: int, j: int| 0 <= i < keys.len() && 0 <= j < keys.len() && i != j implies keys[i]
        != keys[j] by {
        lemma_key_total(out[i].key(), out[j].key());
        if i < j {
            assert(key_lt(out[i].key(), out[j].key()));
        } else {
            assert(key_lt(out[j].key(), out[i].key()));
        }
    }
    assert forall|p: (Seq<char>, Seq<char>)| keys.contains(p) implies #[trigger] distinct_pairs(
        rows,
    ).contains(p) by {
        let j = choose|j: int| 0 <= j < keys.len() && keys[j] == p;
        assert(summary_of(es, out[j]));
        let i = choose|i: int| 0 <= i < es.len() && (#[trigger] es[i]).key@ == out[j].key();
        assert(es[i] == lifetime_entry(rows[i]));
        assert(rows[i].account@ == p.0 && rows[i].currency@ == p.1);
    }
    assert forall|p: (Seq<char>, Seq<char>)| #[trigger]
        distinct_pairs(rows).contains(p) implies keys.contains(p) by {
        let i = choose|i: int|
            0 <= i < rows.len() && (#[trigger] rows[i]).account@ == p.0 && rows[i].currency@ == p.1;
        assert(es[i] == lifetime_entry(rows[i]));
        assert(has_summary_row(out, es[i].key@));
        let j = choose|j: int| 0 <= j < out.len() && (#[trigger] out[j]).key() == es[i].key@;
        assert(keys[j] == p);
    }
    assert(keys.to_set() =~= distinct_pairs(rows));
    keys.unique_seq_to_set();
}

/// What is kept holds no row of the ignored category, and holds every
/// other row of the ledger.
pub proof fn lemma_kept_rows(rows: Seq<Row>, ignore: Seq<char>)
    ensures
        kept(rows, ignore).len() <= rows.len(),
        forall|i: int|
            0 <= i < kept(rows, ignore).len() ==> (#[trigger] kept(rows, ignore)[i]).category@
                != ignore && rows.contains(kept(rows, ignore)[i]),
        forall|i: int|
            0 <= i < rows.len() && (#[trigger] rows[i]).category@ != ignore ==> kept(
                rows,
                ignore,
            ).contains(rows[i]),
    decreases rows.len(),
{
    if rows.len() > 0 {
        let init = rows.drop_last();
        let last = rows.last();
        lemma_kept_rows(init, ignore);
        let k0 = kept(init, ignore);
        let k = kept(rows, ignore);
        assert forall|i: int| 0 <= i < k.len() implies (#[trigger] k[i]).category@ != ignore
            && rows.contains(k[i]) by {
            if i < k0.len() {
                assert(k[i] == k0[i]);
                let j = choose|j: int| 0 <= j < init.len() && init[j] == k0[i];
                assert(rows[j] == k[i]);
            } else {
                assert(rows[rows.len() - 1] == k[i]);
            }
        }
        assert forall|i: int| 0 <= i < rows.len() && (#[trigger] rows[i]).category@
            != ignore implies k.contains(rows[i]) by {
            if i < init.len() {
                assert(init[i] == rows[i]);
                let j = choose|j: int| 0 <= j < k0.len() && k0[j] == init[i];
                assert(k[j] == rows[i]);
            } else {
                assert(k[k.len() - 1] == rows[i]);
            }
        }
    }
}

/// A row of the ignored category, wherever it stands in the ledger,
/// changes nothing of what is kept, and so nothing of any window's sum.
pub proof fn lemma_ignored_row_changes_nothing(
    rows: Seq<Row>,
    at: int,
    row: Row,
    ignore: Seq<char>,
)
    requires
        0 <= at <= rows.len(),
        row.category@ == ignore,
    ensures
        kept(rows.insert(at, row), ignore) == kept(rows, ignore),
    decreases rows.len(),
{
    let more = rows.insert(at, row);
    if at == rows.len() {
        assert(more.drop_last() =~= rows);
    } else {
        assert(more.drop_last() =~= rows.drop_last().insert(at, row));
        assert(more.last() == rows.last());
        lemma_ignored_row_changes_nothing(rows.drop_last(), at, row, ignore);
    }
}

/// Every entry is counted in exactly one row of the net flow: one row
/// stands for its window, account and currency, and no second one does.
pub proof fn lemma_one_window_per_row(es: Seq<Entry>, out: Seq<NetRow>, i: int)
    requires
        is_net(es, out),
        0 <= i < es.len(),
    ensures
        exists|j: int|
            0 <= j < out.len() && (#[trigger] out[j]).key() == es[i].key@ && forall|j2: int|
                0 <= j2 < out.len() && (#[trigger] out[j2]).key() == es[i].key@ ==> j2 == j,
{
    assert(has_net_row(out, es[i].key@));
    let j = choose|j: int| 0 <= j < out.len() && (#[trigger] out[j]).key() == es[i].key@;
    assert forall|j2: int| 0 <= j2 < out.len() && (#[trigger] out[j2]).key()
        == es[i].key@ implies j2 == j by {
        lemma_key_total(out[j].key(), out[j2].key());
        if j2 < j {
            assert(key_lt(out[j2].key(), out[j].key()));
        } else if j < j2 {
            assert(key_lt(out[j].key(), out[j2].key()));
        }
    }
}

/// The schema has a column of this name.
pub open spec fn has_column(schema: Seq<Column>, name: Seq<char>) -> bool {
    exists|p: int| 0 <= p < schema.len() && (#[trigger] schema[p]).name@ == name
}

/// `p` is the place of the first column of this name.
pub open spec fn is_column(schema: Seq<Column>, name: Seq<char>, p: int) -> bool {
    &&& 0 <= p < schema.len()
    &&& schema[p].name@ == name
    &&& forall|j: int| 0 <= j < p ==> (#[trigger] schema[j]).name@ != name
}

/// The place of the first column of this name.
pub open spec fn column_of(schema: Seq<Column>, name: Seq<char>) -> int {
    choose|p: int| is_column(schema, name, p)
}

/// The schema has the six columns of a ledger.
pub open spec fn has_ledger_columns(schema: Seq<Column>) -> bool {
    &&& has_column(schema, "Tarikh"@)
    &&& has_column(schema, "Keterangan"@)
    &&& has_column(schema, "Kategori"@)
    &&& has_column(schema, "Akaun"@)
    &&& has_column(schema, "Wang"@)
    &&& has_column(schema, "Jumlah"@)
}

/// The transaction that a row of values holds, its six values found in the
/// ledger's columns of the schema; `None` where one of them is missing or
/// of another type than a day, a cost in cents, or text.
pub open spec fn row_of(values: Seq<Value>, schema: Seq<Column>) -> Option<Row> {
    let date = column_of(schema, "Tarikh"@);
    let details = column_of(schema, "Keterangan"@);
    let category = column_of(schema, "Kategori"@);
    let account = column_of(schema, "Akaun"@);
    let currency = column_of(schema, "Wang"@);
    let cost = column_of(schema, "Jumlah"@);
    if date < values.len() && details < values.len() && category < values.len() && account
        < values.len() && currency < values.len() && cost < values.len() {
        match (
            values[date],
            values[details],
            values[category],
            values[account],
            values[currency],
            values[cost],
        ) {
            (
                Value::Date(d),
                Value::Text(de),
                Value::Text(ca),
                Value::Text(ac),
                Value::Text(cu),
                Value::Decimal(co),
            ) => Some(
                Row { date: d, details: de, category: ca, account: ac, currency: cu, cost: co },
            ),
            _ => None,
        }
    } else {
        None
    }
}

/// The table has the six columns of a ledger, and every row holds a
/// transaction in them.
pub open spec fn readable(table: Table) -> bool {
    &&& has_ledger_columns(table.schema@)
    &&& forall|i: int|
        0 <= i < table.rows.len() ==> row_of((#[trigger] table.rows[i])@, table.schema@) is Some
}

/// The place of the first column of the given name.
pub fn find_column(schema: &Vec<Column>, name: &str) -> (r: Option<usize>)
    ensures
        match r {
            Some(p) => has_column(schema@, name@) && p == column_of(schema@, name@),
            None => !has_column(schema@, name@),
        },
{
    let mut p: usize = 0;
    while p < schema.len()
        invariant
            p <= schema.len(),
            forall|j: int| 0 <= j < p ==> (#[trigger] schema[j]).name@ != name@,
        decreases schema.len() - p,
    {
        match rank_text(schema[p].name.as_str(), name) {
            Rank::Equal => {
                proof {
                    assert(is_column(schema@, name@, p as int));
                    let q = column_of(schema@, name@);
                    assert(is_column(schema@, name@, q));
                    assert(q == p);
                }
                return Some(p);
            },
            _ => {},
        }
        p = p + 1;
    }
    None
}

/// The text at place `p` of a row of values.
fn text_at(values: &Vec<Value>, p: usize) -> (r: Option<String>)
    ensures
        match r {
            Some(s) => p < values.len() && values[p as int] == Value::Text(s),
            None => p >= values.len() || !(values[p as int] is Text),
        },
{
    if p < values.len() {
        match &values[p] {
            Value::Text(s) => Some(s.clone()),
            _ => None,
        }
    } else {
        None
    }
}

impl Ledger<'static> {
    /// The ledger that a table holds: one transaction for each row, read
    /// from the columns of the ledger's names, wherever they stand in the
    /// schema.
    ///
    /// `None` exactly where the table lacks one of the six columns or a
    /// row lacks a value of the column's type.
    pub fn from_table(table: &Table) -> (r: Option<Ledger<'static>>)
        ensures
            match r {
                Some(l) => {
                    &&& readable(*table)
                    &&& l.columns.is_standard()
                    &&& l.rows@.len() == table.rows.len()
                    &&& forall|i: int|
                        0 <= i < table.rows.len() ==> Some(#[trigger] l.rows@[i]) == row_of(
                            table.rows[i]@,
                            table.schema@,
                        )
                },
                None => !readable(*table),
            },
    {
        let names = Header::new();
        let date = match find_column(&table.schema, names.date) {
            Some(p) => p,
            None => {
                return None;
            },
        };
        let details = match find_column(&table.schema, names.details) {
            Some(p) => p,
            None => {
                return None;
            },
        };
        let category = match find_column(&table.schema, names.category) {
            Some(p) => p,
            None => {
                return None;
            },
        };
        let account = match find_column(&table.schema, names.account) {
            Some(p) => p,
            None => {
                return None;
            },
        };
        let currency = match find_column(&table.schema, names.currency) {
            Some(p) => p,
            None => {
                return None;
            },
        };
        let cost = match find_column(&table.schema, names.cost) {
            Some(p) => p,
            None => {
                return None;
            },
        };
        let mut rows: Vec<Row> = Vec::new();
        let mut n: usize = 0;
        while n < table.rows.len()
            invariant
                n <= table.rows.len(),
                rows.len() == n,
                has_ledger_columns(table.schema@),
                date == column_of(table.schema@, "Tarikh"@),
                details == column_of(table.schema@, "Keterangan"@),
                category == column_of(table.schema@, "Kategori"@),
                account == column_of(table.schema@, "Akaun"@),
                currency == column_of(table.schema@, "Wang"@),
                cost == column_of(table.schema@, "Jumlah"@),
                forall|i: int|
                    0 <= i < n ==> Some(#[trigger] rows[i]) == row_of(
                        table.rows[i]@,
                        table.schema@,
                    ),
            decreases table.rows.len() - n,
        {
            let values = &table.rows[n];
            let d = if date < values.len() {
                match &values[date] {
                    Value::Date(d) => *d,
                    _ => {
                        return None;
                    },
                }
            } else {
                return None;
            };
            let co = if cost < values.len() {
                match &values[cost] {
                    Value::Decimal(c) => *c,
                    _ => {
                        return None;
                    },
                }
            } else {
                return None;
            };
            let de = match text_at(values, details) {
                Some(s) => s,
                None => {
                    return None;
                },
            };
            let ca = match text_at(values, category) {
                Some(s) => s,
                None => {
                    return None;
                },
            };
            let ac = match text_at(values, account) {
                Some(s) => s,
                None => {
                    return None;
                },
            };
            let cu = match text_at(values, currency) {
                Some(s) => s,
                None => {
                    return None;
                },
            };
            rows.push(
                Row { date: d, details: de, category: ca, account: ac, currency: cu, cost: co },
            );
            n = n + 1;
        }
        proof {
            assert forall|i: int| 0 <= i < table.rows.len() implies row_of(
                (#[trigger] table.rows[i])@,
                table.schema@,
            ) is Some by {
                assert(Some(rows[i]) == row_of(table.rows[i]@, table.schema@));
            }
        }
        Some(Ledger { columns: names, rows })
    }
}

/// The keys of the rows, in their order.
pub open spec fn net_keys(out: Seq<NetRow>) -> Seq<KeyView> {
    Seq::new(out.len(), |j: int| out[j].key())
}

/// The sum of the sums of the rows whose key is selected.
pub open spec fn net_where(out: Seq<NetRow>, sel: spec_fn(KeyView) -> bool) -> int {
    selected_total(net_keys(out), Seq::new(out.len(), |j: int| out[j].sum as int), sel)
}

/// Nothing is lost and nothing counted twice: over any selection of keys,
/// the sums of the selected rows add up to the costs of the entries under
/// the selected keys. With `of_pair` this is the net flow of one account
/// and currency over all its windows, with `any_key` that of the ledger.
pub proof fn lemma_net_flow_conserves(es: Seq<Entry>, out: Seq<NetRow>, sel: spec_fn(KeyView) -> bool)
    requires
        is_net(es, out),
    ensures
        net_where(out, sel) == cost_where(es, sel),
{
    let keys = net_keys(out);
    let sums = Seq::new(out.len(), |j: int| out[j].sum as int);
    assert forall|i: int, j: int| 0 <= i < j < keys.len() implies key_lt(
        #[trigger] keys[i],
        #[trigger] keys[j],
    ) by {
        assert(key_lt(out[i].key(), out[j].key()));
    }
    assert forall|i: int| 0 <= i < es.len() implies keys.contains((#[trigger] es[i]).key@) by {
        assert(has_net_row(out, es[i].key@));
        let j = choose|j: int| 0 <= j < out.len() && (#[trigger] out[j]).key() == es[i].key@;
        assert(keys[j] == es[i].key@);
    }
    assert forall|j: int| 0 <= j < keys.len() implies sums[j] == sum_of(es, #[trigger] keys[j]) by {
        assert(net_row_of(es, out[j]));
    }
    lemma_selected_total_is_cost(es, keys, sums, sel);
}

/// The mean is the integer nearest to the quotient: it differs from
/// `sum / count` by half at most, and where two integers are as near it is
/// the one farther from zero.
pub proof fn lemma_mean_is_nearest(sum: int, count: int)
    requires
        count > 0,
    ensures
        -count <= 2 * (mean_of(sum, count) * count - sum) <= count,
        sum >= 0 ==> 2 * (mean_of(sum, count) * count - sum) > -count,
        sum <= 0 ==> 2 * (mean_of(sum, count) * count - sum) < count,
{
    let a = if sum < 0 {
        -sum
    } else {
        sum
    };
    let q = a / count;
    let r = a % count;
    vstd::arithmetic::div_mod::lemma_fundamental_div_mod(a, count);
    vstd::arithmetic::div_mod::lemma_mod_bound(a, count);
    let m = if 2 * r >= count {
        q + 1
    } else {
        q
    };
    assert(m * count - a == if 2 * r >= count {
        count - r
    } else {
        -r
    }) by (nonlinear_arith)
        requires
            a == count * q + r,
            m == if 2 * r >= count {
                q + 1
            } else {
                q
            },
    ;
    assert((-m) * count == -(m * count)) by (nonlinear_arith);
}

/// A key that some row has under its window stands for a window that
/// holds that row.
pub proof fn lemma_rows_in_their_windows(rows: Seq<Row>, every: Span, k: KeyView)
    requires
        in_range(rows),
        windows_hold(rows, every),
        has_key(windowed(rows, every), k),
    ensures
        holds_row(rows, every, k),
{
    let es = windowed(rows, every);
    let i = choose|i: int| 0 <= i < es.len() && (#[trigger] es[i]).key@ == k;
    assert(es[i] == window_entry(rows[i], every));
    assert(window_holds(every, rows[i].date as int));
}

/// The window of a key that holds a row starts on the grid, within reach
/// of the calendar.
pub proof fn lemma_key_starts_window(rows: Seq<Row>, every: Span, k: KeyView)
    requires
        in_range(rows),
        windows_hold(rows, every),
        holds_row(rows, every, k),
    ensures
        starts_window(every, k.start),
        window_start_of(every, k.start) == k.start,
        MIN_DAY - span_days(every) < k.start <= MAX_DAY,
{
    let i = choose|i: int|
        0 <= i < rows.len() && window_entry(#[trigger] rows[i], every).key@ == k && k.start
            <= rows[i].date < k.start + span_days(every);
    assert(window_holds(every, rows[i].date as int));
}

/// A row lies in the window it is counted in: on or after the window's
/// first day and before the first day after it.
pub proof fn lemma_row_in_its_window(
    rows: Seq<Row>,
    every: Span,
    out: Seq<NetRow>,
    j: int,
    i: int,
)
    requires
        in_range(rows),
        windows_hold(rows, every),
        net_spans(every, out),
        0 <= j < out.len(),
        0 <= i < rows.len(),
        window_entry(rows[i], every).key@ == out[j].key(),
    ensures
        out[j].start <= rows[i].date < out[j].end,
{
    assert(window_holds(every, rows[i].date as int));
    lemma_day_before_end(every, rows[i].date as int, out[j].end as int);
}

/// The windows of a net flow are pairwise disjoint: a window that starts
/// before another ends on or before the other's first day, whatever the
/// accounts and the currencies.
pub proof fn lemma_net_windows_apart(
    rows: Seq<Row>,
    every: Span,
    out: Seq<NetRow>,
    j1: int,
    j2: int,
)
    requires
        in_range(rows),
        windows_hold(rows, every),
        net_spans(every, out),
        forall|j: int| 0 <= j < out.len() ==> holds_row(rows, every, (#[trigger] out[j]).key()),
        0 <= j1 < out.len(),
        0 <= j2 < out.len(),
        out[j1].start < out[j2].start,
    ensures
        out[j1].end <= out[j2].start,
{
    lemma_key_starts_window(rows, every, out[j2].key());
    lemma_windows_lie_apart(every, out[j1].start as int, out[j1].end as int, out[j2].start as int);
}

/// Exactly one window holds a row: among the rows of the net flow with
/// the row's account and currency, one and only one has the row's day on
/// or after its first day and before the first day after it, and that is
/// the window the row is counted in.
pub proof fn lemma_exactly_one_window_holds_the_row(
    rows: Seq<Row>,
    every: Span,
    out: Seq<NetRow>,
    i: int,
)
    requires
        in_range(rows),
        windows_hold(rows, every),
        is_net(windowed(rows, every), out),
        net_spans(every, out),
        forall|j: int| 0 <= j < out.len() ==> holds_row(rows, every, (#[trigger] out[j]).key()),
        0 <= i < rows.len(),
    ensures
        exists|j: int|
            0 <= j < out.len() && (#[trigger] out[j]).key() == window_entry(rows[i], every).key@
                && out[j].start <= rows[i].date < out[j].end && forall|j2: int|
                0 <= j2 < out.len() && (#[trigger] out[j2]).account@ == rows[i].account@
                    && out[j2].currency@ == rows[i].currency@ && out[j2].start <= rows[i].date
                    < out[j2].end ==> j2 == j,
{
    let es = windowed(rows, every);
    assert(es[i] == window_entry(rows[i], every));
    assert(has_net_row(out, es[i].key@));
    let j = choose|j: int| 0 <= j < out.len() && (#[trigger] out[j]).key() == es[i].key@;
    lemma_row_in_its_window(rows, every, out, j, i);
    assert forall|j2: int|
        0 <= j2 < out.len() && (#[trigger] out[j2]).account@ == rows[i].account@
            && out[j2].currency@ == rows[i].currency@ && out[j2].start <= rows[i].date
            < out[j2].end implies j2 == j by {
        if out[j2].start < out[j].start {
            lemma_net_windows_apart(rows, every, out, j2, j);
        } else if out[j].start < out[j2].start {
            lemma_net_windows_apart(rows, every, out, j, j2);
        } else {
            assert(out[j2].key() == out[j].key());
            lemma_key_total(out[j].key(), out[j2].key());
            if j2 < j {
                assert(key_lt(out[j2].key(), out[j].key()));
            } else if j < j2 {
                assert(key_lt(out[j].key(), out[j2].key()));
            }
        }
    }
}

} // verus!
