//! Grouping of costs by key: one bucket of statistics per distinct key, the
//! buckets in ascending order of their keys.
use crate::text::{lemma_rank_flip, lemma_text_total, lemma_text_trans, rank_text, text_lt, Rank};
use vstd::prelude::*;

verus! {

/// What a cost is grouped by: the first day of its window, its account and
/// its currency.
#[derive(Debug)]
pub struct GroupKey {
    pub start: i32,
    pub account: String,
    pub currency: String,
}

/// A `GroupKey` as a mathematical value.
pub struct KeyView {
    pub start: int,
    pub account: Seq<char>,
    pub currency: Seq<char>,
}

impl View for GroupKey {
    type V = KeyView;

    open spec fn view(&self) -> KeyView {
        KeyView { start: self.start as int, account: self.account@, currency: self.currency@ }
    }
}

/// Keys are ordered by window start, then account, then currency.
pub open spec fn key_lt(a: KeyView, b: KeyView) -> bool {
    a.start < b.start || (a.start == b.start && (text_lt(a.account, b.account) || (a.account
        == b.account && text_lt(a.currency, b.currency))))
}

/// Of `a < b`, `a == b` and `b < a` exactly one holds.
pub proof fn lemma_key_total(a: KeyView, b: KeyView)
    ensures
        key_lt(a, b) || a == b || key_lt(b, a),
        !(key_lt(a, b) && key_lt(b, a)),
        !(key_lt(a, b) && a == b),
{
    lemma_text_total(a.account, b.account);
    lemma_text_total(a.currency, b.currency);
}

/// The order on keys is transitive.
pub proof fn lemma_key_trans(a: KeyView, b: KeyView, c: KeyView)
    requires
        key_lt(a, b),
        key_lt(b, c),
    ensures
        key_lt(a, c),
{
    lemma_text_total(a.account, b.account);
    lemma_text_total(b.account, c.account);
    lemma_text_total(a.currency, b.currency);
    lemma_text_total(b.currency, c.currency);
    if text_lt(a.account, b.account) && text_lt(b.account, c.account) {
        lemma_text_trans(a.account, b.account, c.account);
    }
    if text_lt(a.currency, b.currency) && text_lt(b.currency, c.currency) {
        lemma_text_trans(a.currency, b.currency, c.currency);
    }
}

/// Compares two keys.
pub fn rank_key(a: &GroupKey, b: &GroupKey) -> (r: Rank)
    ensures
        (r == Rank::Less) == key_lt(a@, b@),
        (r == Rank::Equal) == (a@ == b@),
        (r == Rank::Greater) == key_lt(b@, a@),
{
    proof {
        lemma_key_total(a@, b@);
        lemma_text_total(a.account@, b.account@);
        lemma_text_total(a.currency@, b.currency@);
        lemma_rank_flip(
            vstd::utf8::encode_utf8(a.account@),
            vstd::utf8::encode_utf8(b.account@),
            0,
        );
        lemma_rank_flip(
            vstd::utf8::encode_utf8(a.currency@),
            vstd::utf8::encode_utf8(b.currency@),
            0,
        );
    }
    if a.start < b.start {
        Rank::Less
    } else if a.start > b.start {
        Rank::Greater
    } else {
        match rank_text(a.account.as_str(), b.account.as_str()) {
            Rank::Less => Rank::Less,
            Rank::Greater => Rank::Greater,
            Rank::Equal => rank_text(a.currency.as_str(), b.currency.as_str()),
        }
    }
}

/// A copy of a key.
pub fn copy_key(k: &GroupKey) -> (r: GroupKey)
    ensures
        r@ == k@,
{
    GroupKey { start: k.start, account: k.account.clone(), currency: k.currency.clone() }
}

/// One cost under its key.
#[derive(Debug)]
pub struct Entry {
    pub key: GroupKey,
    pub cost: i64,
}

/// Number of entries of `es` under key `k`.
pub open spec fn count_of(es: Seq<Entry>, k: KeyView) -> nat
    decreases es.len(),
{
    if es.len() == 0 {
        0
    } else {
        count_of(es.drop_last(), k) + if es.last().key@ == k {
            1nat
        } else {
            0nat
        }
    }
}

/// Exact sum of the costs of `es` under key `k`.
pub open spec fn sum_of(es: Seq<Entry>, k: KeyView) -> int
    decreases es.len(),
{
    if es.len() == 0 {
        0
    } else {
        sum_of(es.drop_last(), k) + if es.last().key@ == k {
            es.last().cost as int
        } else {
            0
        }
    }
}

/// `m` is the largest cost of `es` under key `k`.
pub open spec fn is_max_of(es: Seq<Entry>, k: KeyView, m: int) -> bool {
    &&& exists|i: int| 0 <= i < es.len() && (#[trigger] es[i]).key@ == k && es[i].cost == m
    &&& forall|i: int| 0 <= i < es.len() && (#[trigger] es[i]).key@ == k ==> es[i].cost <= m
}

/// `m` is the smallest cost of `es` under key `k`.
pub open spec fn is_min_of(es: Seq<Entry>, k: KeyView, m: int) -> bool {
    &&& exists|i: int| 0 <= i < es.len() && (#[trigger] es[i]).key@ == k && es[i].cost == m
    &&& forall|i: int| 0 <= i < es.len() && (#[trigger] es[i]).key@ == k ==> es[i].cost >= m
}

/// Some entry of `es` has key `k`.
pub open spec fn has_key(es: Seq<Entry>, k: KeyView) -> bool {
    exists|i: int| 0 <= i < es.len() && (#[trigger] es[i]).key@ == k
}

/// The statistics of the costs under one key.
#[derive(Debug)]
pub struct Bucket {
    pub key: GroupKey,
    pub sum: i128,
    pub count: usize,
    pub max: i64,
    pub min: i64,
}

/// `b` holds the statistics of the entries of `es` under `b`'s key, of
/// which there is at least one.
pub open spec fn bucket_of(es: Seq<Entry>, b: Bucket) -> bool {
    &&& b.count > 0
    &&& b.count == count_of(es, b.key@)
    &&& b.sum == sum_of(es, b.key@)
    &&& is_max_of(es, b.key@, b.max as int)
    &&& is_min_of(es, b.key@, b.min as int)
}

/// The buckets stand in strictly ascending order of their keys.
pub open spec fn ascending(out: Seq<Bucket>) -> bool {
    forall|i: int, j: int|
        0 <= i < j < out.len() ==> key_lt((#[trigger] out[i]).key@, (#[trigger] out[j]).key@)
}

/// Some bucket of `out` has key `k`.
pub open spec fn has_bucket(out: Seq<Bucket>, k: KeyView) -> bool {
    exists|j: int| 0 <= j < out.len() && (#[trigger] out[j]).key@ == k
}

/// `out` is the grouping of `es`: one bucket for each key that occurs in
/// `es` and for no other, each with the statistics of its entries, in
/// strictly ascending order of the keys.
pub open spec fn grouped(es: Seq<Entry>, out: Seq<Bucket>) -> bool {
    &&& ascending(out)
    &&& forall|j: int| 0 <= j < out.len() ==> bucket_of(es, #[trigger] out[j])
    &&& forall|i: int| 0 <= i < es.len() ==> has_bucket(out, (#[trigger] es[i]).key@)
}

/// Counts and sums of a sequence extended by one entry.
pub proof fn lemma_push(es: Seq<Entry>, e: Entry, k: KeyView)
    ensures
        count_of(es.push(e), k) == count_of(es, k) + if e.key@ == k {
            1nat
        } else {
            0nat
        },
        sum_of(es.push(e), k) == sum_of(es, k) + if e.key@ == k {
            e.cost as int
        } else {
            0
        },
{
    assert(es.push(e).drop_last() =~= es);
}

/// A key has at most as many entries as there are, each an `i64`; so the
/// sum under a key is bounded by the count.
pub proof fn lemma_sum_bounds(es: Seq<Entry>, k: KeyView)
    ensures
        count_of(es, k) <= es.len(),
        -(count_of(es, k) * 0x8000_0000_0000_0000) <= sum_of(es, k) <= count_of(es, k)
            * 0x8000_0000_0000_0000,
    decreases es.len(),
{
    if es.len() > 0 {
        lemma_sum_bounds(es.drop_last(), k);
    }
}

/// A key that no entry has counts nothing and sums to nothing, and a key
/// that counts nothing no entry has.
pub proof fn lemma_absent(es: Seq<Entry>, k: KeyView)
    ensures
        has_key(es, k) <==> count_of(es, k) > 0,
        !has_key(es, k) ==> sum_of(es, k) == 0,
    decreases es.len(),
{
    if es.len() > 0 {
        let init = es.drop_last();
        lemma_absent(init, k);
        if has_key(init, k) {
            let i = choose|i: int| 0 <= i < init.len() && (#[trigger] init[i]).key@ == k;
            assert(es[i].key@ == k);
        }
        if has_key(es, k) && es.last().key@ != k {
            let i = choose|i: int| 0 <= i < es.len() && (#[trigger] es[i]).key@ == k;
            assert(init[i].key@ == k);
        }
        if es.last().key@ == k {
            assert(es[es.len() - 1].key@ == k);
        }
    }
}

/// Statistics stay those of their key when an entry of another key
/// arrives.
proof fn lemma_bucket_kept(es: Seq<Entry>, e: Entry, b: Bucket)
    requires
        bucket_of(es, b),
        e.key@ != b.key@,
    ensures
        bucket_of(es.push(e), b),
{
    let k = b.key@;
    let es2 = es.push(e);
    lemma_push(es, e, k);
    let i = choose|i: int| 0 <= i < es.len() && (#[trigger] es[i]).key@ == k && es[i].cost == b.max;
    assert(es2[i].key@ == k && es2[i].cost == b.max);
    let j = choose|j: int| 0 <= j < es.len() && (#[trigger] es[j]).key@ == k && es[j].cost == b.min;
    assert(es2[j].key@ == k && es2[j].cost == b.min);
    assert forall|i: int| 0 <= i < es2.len() && (#[trigger] es2[i]).key@ == k implies es2[i].cost
        <= b.max && es2[i].cost >= b.min by {
        assert(es[i].key@ == k);
    }
}

/// Statistics of a key after one more entry of that key.
proof fn lemma_bucket_grown(es: Seq<Entry>, e: Entry, b: Bucket, b2: Bucket)
    requires
        bucket_of(es, b),
        e.key@ == b.key@,
        b2.key@ == b.key@,
        b2.count == b.count + 1,
        b2.sum == b.sum + e.cost,
        b2.max == if e.cost > b.max {
            e.cost
        } else {
            b.max
        },
        b2.min == if e.cost < b.min {
            e.cost
        } else {
            b.min
        },
    ensures
        bucket_of(es.push(e), b2),
{
    let k = b.key@;
    let es2 = es.push(e);
    lemma_push(es, e, k);
    let i = choose|i: int| 0 <= i < es.len() && (#[trigger] es[i]).key@ == k && es[i].cost == b.max;
    assert(es2[i].key@ == k && es2[i].cost == b.max);
    let j = choose|j: int| 0 <= j < es.len() && (#[trigger] es[j]).key@ == k && es[j].cost == b.min;
    assert(es2[j].key@ == k && es2[j].cost == b.min);
    assert(es2[es.len() as int].key@ == k && es2[es.len() as int].cost == e.cost);
    assert forall|i: int| 0 <= i < es2.len() && (#[trigger] es2[i]).key@ == k implies es2[i].cost
        <= b2.max && es2[i].cost >= b2.min by {
        if i < es.len() {
            assert(es[i].key@ == k);
        }
    }
}

/// Statistics of a key whose first entry has just arrived.
proof fn lemma_bucket_fresh(es: Seq<Entry>, e: Entry, b2: Bucket)
    requires
        !has_key(es, e.key@),
        b2.key@ == e.key@,
        b2.count == 1,
        b2.sum == e.cost,
        b2.max == e.cost,
        b2.min == e.cost,
    ensures
        bucket_of(es.push(e), b2),
{
    let k = e.key@;
    let es2 = es.push(e);
    lemma_push(es, e, k);
    lemma_absent(es, k);
    assert(es2[es.len() as int].key@ == k && es2[es.len() as int].cost == e.cost);
    assert forall|i: int| 0 <= i < es2.len() && (#[trigger] es2[i]).key@ == k implies es2[i].cost
        == e.cost by {
        if i < es.len() {
            assert(es[i].key@ == k);
        }
    }
}

/// Index of the first bucket whose key is not below `k`.
fn locate(out: &Vec<Bucket>, k: &GroupKey) -> (r: (usize, bool))
    requires
        ascending(out@),
    ensures
        r.0 <= out.len(),
        forall|j: int| 0 <= j < r.0 ==> key_lt((#[trigger] out[j]).key@, k@),
        r.1 ==> r.0 < out.len() && out[r.0 as int].key@ == k@,
        !r.1 ==> !has_bucket(out@, k@),
        !r.1 ==> forall|j: int| r.0 <= j < out.len() ==> key_lt(k@, (#[trigger] out[j]).key@),
{
    let mut p: usize = 0;
    while p < out.len()
        invariant
            ascending(out@),
            p <= out.len(),
            forall|j: int| 0 <= j < p ==> key_lt((#[trigger] out[j]).key@, k@),
        decreases out.len() - p,
    {
        match rank_key(&out[p].key, k) {
            Rank::Less => {
                p = p + 1;
            },
            Rank::Equal => {
                return (p, true);
            },
            Rank::Greater => {
                proof {
                    assert forall|j: int| p <= j < out.len() implies key_lt(
                        k@,
                        (#[trigger] out[j]).key@,
                    ) by {
                        if j > p {
                            lemma_key_trans(k@, out[p as int].key@, out[j].key@);
                        }
                    }
                    assert forall|j: int| 0 <= j < out.len() implies (#[trigger] out[j]).key@
                        != k@ by {
                        lemma_key_total(out[j].key@, k@);
                    }
                }
                return (p, false);
            },
        }
    }
    proof {
        assert forall|j: int| 0 <= j < out.len() implies (#[trigger] out[j]).key@ != k@ by {
            lemma_key_total(out[j].key@, k@);
        }
    }
    (p, false)
}

/// Takes one more entry into the grouping of those before it.
fn absorb(out: &mut Vec<Bucket>, e: &Entry, Ghost(es): Ghost<Seq<Entry>>)
    requires
        grouped(es, old(out)@),
        es.len() < usize::MAX,
    ensures
        grouped(es.push(*e), final(out)@),
{
    let ghost before = out@;
    let ghost es2 = es.push(*e);
    let (p, found) = locate(out, &e.key);
    if found {
        let b = &out[p];
        proof {
            lemma_sum_bounds(es, b.key@);
            assert(b.count * 0x8000_0000_0000_0000 <= 0xffff_ffff_ffff_fffe
                * 0x8000_0000_0000_0000) by (nonlinear_arith)
                requires
                    0 <= b.count <= 0xffff_ffff_ffff_fffe,
            ;
        }
        let grown = Bucket {
            key: copy_key(&b.key),
            sum: b.sum + (e.cost as i128),
            count: b.count + 1,
            max: if e.cost > b.max {
                e.cost
            } else {
                b.max
            },
            min: if e.cost < b.min {
                e.cost
            } else {
                b.min
            },
        };
        proof {
            lemma_bucket_grown(es, *e, before[p as int], grown);
        }
        out.set(p, grown);
        proof {
            let after = out@;
            assert forall|j: int| 0 <= j < after.len() implies bucket_of(es2, #[trigger] after[j]) by {
                if j != p {
                    assert(after[j] == before[j]);
                    if j < p {
                        lemma_key_total(before[j].key@, before[p as int].key@);
                    } else {
                        lemma_key_total(before[p as int].key@, before[j].key@);
                    }
                    lemma_bucket_kept(es, *e, before[j]);
                }
            }
            assert forall|i: int, j: int| 0 <= i < j < after.len() implies key_lt(
                (#[trigger] after[i]).key@,
                (#[trigger] after[j]).key@,
            ) by {
                assert(after[i].key@ == before[i].key@);
                assert(after[j].key@ == before[j].key@);
            }
            assert forall|i: int| 0 <= i < es2.len() implies has_bucket(
                after,
                (#[trigger] es2[i]).key@,
            ) by {
                if i < es.len() {
                    assert(es2[i] == es[i]);
                    let j = choose|j: int|
                        0 <= j < before.len() && (#[trigger] before[j]).key@ == es[i].key@;
                    assert(after[j].key@ == es2[i].key@);
                } else {
                    assert(after[p as int].key@ == es2[i].key@);
                }
            }
        }
    } else {
        let fresh = Bucket {
            key: copy_key(&e.key),
            sum: e.cost as i128,
            count: 1,
            max: e.cost,
            min: e.cost,
        };
        proof {
            if has_key(es, e.key@) {
                let i = choose|i: int| 0 <= i < es.len() && (#[trigger] es[i]).key@ == e.key@;
                assert(has_bucket(before, es[i].key@));
            }
            lemma_bucket_fresh(es, *e, fresh);
        }
        out.insert(p, fresh);
        proof {
            let after = out@;
            assert(after =~= before.insert(p as int, fresh));
            assert forall|j: int| 0 <= j < after.len() implies bucket_of(es2, #[trigger] after[j]) by {
                if j < p {
                    assert(after[j] == before[j]);
                    lemma_bucket_kept(es, *e, before[j]);
                } else if j > p {
                    assert(after[j] == before[j - 1]);
                    assert(before[j - 1].key@ != e.key@);
                    lemma_bucket_kept(es, *e, before[j - 1]);
                }
            }
            assert forall|i: int, j: int| 0 <= i < j < after.len() implies key_lt(
                (#[trigger] after[i]).key@,
                (#[trigger] after[j]).key@,
            ) by {
                if i < p {
                    assert(after[i] == before[i]);
                } else if i > p {
                    assert(after[i] == before[i - 1]);
                }
                if j < p {
                    assert(after[j] == before[j]);
                } else if j > p {
                    assert(after[j] == before[j - 1]);
                }
            }
            assert forall|i: int| 0 <= i < es2.len() implies has_bucket(
                after,
                (#[trigger] es2[i]).key@,
            ) by {
                if i < es.len() {
                    assert(es2[i] == es[i]);
                    let j = choose|j: int|
                        0 <= j < before.len() && (#[trigger] before[j]).key@ == es[i].key@;
                    if j < p {
                        assert(after[j].key@ == es2[i].key@);
                    } else {
                        assert(after[j + 1] == before[j]);
                        assert(after[j + 1].key@ == es2[i].key@);
                    }
                } else {
                    assert(after[p as int].key@ == es2[i].key@);
                }
            }
        }
    }
}

/// Groups the entries by key.
///
/// The result holds one bucket for each key that occurs among the entries
/// and for no other, in strictly ascending order of the keys; each bucket
/// holds the number of its key's entries, their exact sum, and the largest
/// and the smallest of them.
pub fn accumulate(entries: &Vec<Entry>) -> (out: Vec<Bucket>)
    ensures
        grouped(entries@, out@),
{
    let mut out: Vec<Bucket> = Vec::new();
    let mut n: usize = 0;
    while n < entries.len()
        invariant
            n <= entries.len(),
            grouped(entries@.subrange(0, n as int), out@),
        decreases entries.len() - n,
    {
        let ghost es = entries@.subrange(0, n as int);
        absorb(&mut out, &entries[n], Ghost(es));
        proof {
            assert(es.push(entries[n as int]) =~= entries@.subrange(0, n + 1));
        }
        n = n + 1;
    }
    proof {
        assert(entries@.subrange(0, n as int) =~= entries@);
    }
    out
}

/// The keys of one account and currency, whatever the window.
pub open spec fn of_pair(account: Seq<char>, currency: Seq<char>) -> spec_fn(KeyView) -> bool {
    |k: KeyView| k.account == account && k.currency == currency
}

/// Every key.
pub open spec fn any_key() -> spec_fn(KeyView) -> bool {
    |k: KeyView| true
}

/// The sum of the costs of the entries whose key is selected.
pub open spec fn cost_where(es: Seq<Entry>, sel: spec_fn(KeyView) -> bool) -> int
    decreases es.len(),
{
    if es.len() == 0 {
        0
    } else {
        cost_where(es.drop_last(), sel) + if sel(es.last().key@) {
            es.last().cost as int
        } else {
            0
        }
    }
}

/// The number of the entries whose key is selected.
pub open spec fn count_where(es: Seq<Entry>, sel: spec_fn(KeyView) -> bool) -> int
    decreases es.len(),
{
    if es.len() == 0 {
        0
    } else {
        count_where(es.drop_last(), sel) + if sel(es.last().key@) {
            1int
        } else {
            0
        }
    }
}

/// The keys stand in strictly ascending order.
pub open spec fn keys_ascending(keys: Seq<KeyView>) -> bool {
    forall|i: int, j: int| 0 <= i < j < keys.len() ==> key_lt(#[trigger] keys[i], #[trigger] keys[j])
}

/// The sum of the values that stand beside the selected keys.
pub open spec fn selected_total(
    keys: Seq<KeyView>,
    vals: Seq<int>,
    sel: spec_fn(KeyView) -> bool,
) -> int
    decreases keys.len(),
{
    if keys.len() == 0 || vals.len() != keys.len() {
        0
    } else {
        selected_total(keys.drop_last(), vals.drop_last(), sel) + if sel(keys.last()) {
            vals.last()
        } else {
            0
        }
    }
}

/// What the entries sum to under the selected keys, key after key.
spec fn sums_under(es: Seq<Entry>, keys: Seq<KeyView>, sel: spec_fn(KeyView) -> bool) -> int
    decreases keys.len(),
{
    if keys.len() == 0 {
        0
    } else {
        sums_under(es, keys.drop_last(), sel) + if sel(keys.last()) {
            sum_of(es, keys.last())
        } else {
            0
        }
    }
}

/// How often `k` stands among the keys.
spec fn occurrences(keys: Seq<KeyView>, k: KeyView) -> int
    decreases keys.len(),
{
    if keys.len() == 0 {
        0
    } else {
        occurrences(keys.drop_last(), k) + if keys.last() == k {
            1int
        } else {
            0int
        }
    }
}

/// A key that is not among the keys occurs no time.
proof fn lemma_occurs_not(keys: Seq<KeyView>, k: KeyView)
    requires
        !keys.contains(k),
    ensures
        occurrences(keys, k) == 0,
    decreases keys.len(),
{
    if keys.len() > 0 {
        let init = keys.drop_last();
        assert(keys[keys.len() - 1] != k);
        if init.contains(k) {
            let j = choose|j: int| 0 <= j < init.len() && init[j] == k;
            assert(keys[j] == k);
        }
        lemma_occurs_not(init, k);
    }
}

/// Among ascending keys a key that is there occurs once.
proof fn lemma_occurs_once(keys: Seq<KeyView>, k: KeyView)
    requires
        keys_ascending(keys),
        keys.contains(k),
    ensures
        occurrences(keys, k) == 1,
    decreases keys.len(),
{
    let init = keys.drop_last();
    let last = keys.len() - 1;
    assert forall|i: int, j: int| 0 <= i < j < init.len() implies key_lt(
        #[trigger] init[i],
        #[trigger] init[j],
    ) by {
        assert(key_lt(keys[i], keys[j]));
    }
    let w = choose|j: int| 0 <= j < keys.len() && keys[j] == k;
    if keys[last] == k {
        if init.contains(k) {
            let j = choose|j: int| 0 <= j < init.len() && init[j] == k;
            assert(key_lt(keys[j], keys[last]));
            lemma_key_total(keys[j], keys[last]);
        }
        lemma_occurs_not(init, k);
    } else {
        assert(init[w] == k);
        lemma_occurs_once(init, k);
    }
}

/// One more entry, where its key is selected, adds its cost once for each
/// time its key stands among the keys.
proof fn lemma_sums_under_push(
    es: Seq<Entry>,
    e: Entry,
    keys: Seq<KeyView>,
    sel: spec_fn(KeyView) -> bool,
)
    ensures
        sums_under(es.push(e), keys, sel) == sums_under(es, keys, sel) + if sel(e.key@) {
            e.cost * occurrences(keys, e.key@)
        } else {
            0
        },
    decreases keys.len(),
{
    if keys.len() > 0 {
        lemma_sums_under_push(es, e, keys.drop_last(), sel);
        lemma_push(es, e, keys.last());
        let n = occurrences(keys.drop_last(), e.key@);
        assert(e.cost * (n + 1) == e.cost * n + e.cost) by (nonlinear_arith);
    } else {
        assert(e.cost * 0 == 0) by (nonlinear_arith);
    }
}

/// Nothing sums to nothing under any keys.
proof fn lemma_sums_under_empty(keys: Seq<KeyView>, sel: spec_fn(KeyView) -> bool)
    ensures
        sums_under(Seq::<Entry>::empty(), keys, sel) == 0,
    decreases keys.len(),
{
    if keys.len() > 0 {
        lemma_sums_under_empty(keys.drop_last(), sel);
    }
}

/// Where every entry's key is among the keys, and the keys ascend, the
/// sums under the selected keys add up to the costs of the entries whose
/// key is selected.
proof fn lemma_sums_under_is_cost(es: Seq<Entry>, keys: Seq<KeyView>, sel: spec_fn(KeyView) -> bool)
    requires
        keys_ascending(keys),
        forall|i: int| 0 <= i < es.len() ==> keys.contains((#[trigger] es[i]).key@),
    ensures
        sums_under(es, keys, sel) == cost_where(es, sel),
    decreases es.len(),
{
    if es.len() == 0 {
        assert(es =~= Seq::<Entry>::empty());
        lemma_sums_under_empty(keys, sel);
    } else {
        let init = es.drop_last();
        let e = es.last();
        assert forall|i: int| 0 <= i < init.len() implies keys.contains(
            (#[trigger] init[i]).key@,
        ) by {
            assert(init[i] == es[i]);
        }
        lemma_sums_under_is_cost(init, keys, sel);
        assert(init.push(e) =~= es);
        lemma_sums_under_push(init, e, keys, sel);
        assert(keys.contains(es[es.len() - 1].key@));
        lemma_occurs_once(keys, e.key@);
        assert(e.cost * 1 == e.cost) by (nonlinear_arith);
    }
}

/// Values that are the sums under their keys add up, over the selected
/// keys, to the sums under the selected keys.
proof fn lemma_selected_is_under(
    es: Seq<Entry>,
    keys: Seq<KeyView>,
    vals: Seq<int>,
    sel: spec_fn(KeyView) -> bool,
)
    requires
        vals.len() == keys.len(),
        forall|j: int| 0 <= j < keys.len() ==> vals[j] == sum_of(es, #[trigger] keys[j]),
    ensures
        selected_total(keys, vals, sel) == sums_under(es, keys, sel),
    decreases keys.len(),
{
    if keys.len() > 0 {
        let k0 = keys.drop_last();
        let v0 = vals.drop_last();
        assert forall|j: int| 0 <= j < k0.len() implies v0[j] == sum_of(es, #[trigger] k0[j]) by {
            assert(k0[j] == keys[j]);
        }
        lemma_selected_is_under(es, k0, v0, sel);
        assert(vals[keys.len() - 1] == sum_of(es, keys[keys.len() - 1]));
    }
}

/// Nothing is lost and nothing counted twice: where the keys ascend, every
/// entry's key is among them and each value is the sum of the costs under
/// its key, the values beside the selected keys add up to the costs of
/// the entries whose key is selected, over any selection.
pub proof fn lemma_selected_total_is_cost(
    es: Seq<Entry>,
    keys: Seq<KeyView>,
    vals: Seq<int>,
    sel: spec_fn(KeyView) -> bool,
)
    requires
        keys_ascending(keys),
        vals.len() == keys.len(),
        forall|i: int| 0 <= i < es.len() ==> keys.contains((#[trigger] es[i]).key@),
        forall|j: int| 0 <= j < keys.len() ==> vals[j] == sum_of(es, #[trigger] keys[j]),
    ensures
        selected_total(keys, vals, sel) == cost_where(es, sel),
{
    lemma_selected_is_under(es, keys, vals, sel);
    lemma_sums_under_is_cost(es, keys, sel);
}

/// The entries, each with the cost one: what counts them sums these.
pub open spec fn ones(es: Seq<Entry>) -> Seq<Entry> {
    Seq::new(es.len(), |i: int| Entry { key: es[i].key, cost: 1 })
}

/// Counting entries is summing ones.
proof fn lemma_ones(es: Seq<Entry>, k: KeyView, sel: spec_fn(KeyView) -> bool)
    ensures
        sum_of(ones(es), k) == count_of(es, k),
        cost_where(ones(es), sel) == count_where(es, sel),
    decreases es.len(),
{
    if es.len() > 0 {
        lemma_ones(es.drop_last(), k, sel);
        assert(ones(es).drop_last() =~= ones(es.drop_last()));
    }
}

/// The keys of the buckets, in their order.
pub open spec fn bucket_keys(out: Seq<Bucket>) -> Seq<KeyView> {
    Seq::new(out.len(), |j: int| out[j].key@)
}

/// The sum of the sums of the buckets whose key is selected.
pub open spec fn bucket_sum_where(out: Seq<Bucket>, sel: spec_fn(KeyView) -> bool) -> int {
    selected_total(bucket_keys(out), Seq::new(out.len(), |j: int| out[j].sum as int), sel)
}

/// The sum of the counts of the buckets whose key is selected.
pub open spec fn bucket_count_where(out: Seq<Bucket>, sel: spec_fn(KeyView) -> bool) -> int {
    selected_total(bucket_keys(out), Seq::new(out.len(), |j: int| out[j].count as int), sel)
}

/// The buckets part the entries: over any selection of keys, the counts
/// of the selected buckets add up to the number of the entries under the
/// selected keys, and their sums to the costs of those entries. No entry
/// is left out, none is counted twice, none is added.
pub proof fn lemma_groups_partition(es: Seq<Entry>, out: Seq<Bucket>, sel: spec_fn(KeyView) -> bool)
    requires
        grouped(es, out),
    ensures
        bucket_count_where(out, sel) == count_where(es, sel),
        bucket_sum_where(out, sel) == cost_where(es, sel),
{
    let keys = bucket_keys(out);
    let sums = Seq::new(out.len(), |j: int| out[j].sum as int);
    let counts = Seq::new(out.len(), |j: int| out[j].count as int);
    let units = ones(es);
    assert forall|i: int, j: int| 0 <= i < j < keys.len() implies key_lt(
        #[trigger] keys[i],
        #[trigger] keys[j],
    ) by {
        assert(key_lt(out[i].key@, out[j].key@));
    }
    assert forall|i: int| 0 <= i < es.len() implies keys.contains((#[trigger] es[i]).key@) by {
        assert(has_bucket(out, es[i].key@));
        let j = choose|j: int| 0 <= j < out.len() && (#[trigger] out[j]).key@ == es[i].key@;
        assert(keys[j] == es[i].key@);
    }
    assert forall|i: int| 0 <= i < units.len() implies keys.contains(
        (#[trigger] units[i]).key@,
    ) by {
        assert(keys.contains(es[i].key@));
    }
    assert forall|j: int| 0 <= j < keys.len() implies sums[j] == sum_of(es, #[trigger] keys[j])
        && counts[j] == sum_of(units, keys[j]) by {
        assert(bucket_of(es, out[j]));
        lemma_ones(es, keys[j], sel);
    }
    lemma_selected_total_is_cost(es, keys, sums, sel);
    lemma_selected_total_is_cost(units, keys, counts, sel);
    lemma_ones(es, keys[0], sel);
}

} // verus!
