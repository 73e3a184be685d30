//! Analytics engine: daily revenue series, product rankings and whole-ledger
//! summary, recomputed from the raw sale rows on every request.

use vstd::prelude::*;

use crate::data::{clone_string, AnalyticsData, AnalyticsSummary, DailyRevenue, Fault,
    ProductDistribution, SaleItemRow, SaleRow, TopProduct, SCALE};
use crate::store::Store;

verus! {

/// The daily series keeps at most this many most-recent distinct dates.
pub const DAILY_LIMIT: usize = 30;

/// The top-products ranking keeps this many entries.
pub const TOP_LIMIT: usize = 10;

/// The distribution view keeps this many entries.
pub const DIST_LIMIT: usize = 5;

// ---------------------------------------------------------------------------
// Sums.
// ---------------------------------------------------------------------------

/// Sum of a sequence of terms.
pub open spec fn sum_terms(s: Seq<int>) -> int
    decreases s.len(),
{
    if s.len() == 0 {
        0
    } else {
        sum_terms(s.drop_last()) + s.last()
    }
}

/// With non-negative terms, a prefix sums to no more than the whole.
proof fn lemma_sum_terms_prefix(s: Seq<int>, i: int)
    requires
        0 <= i <= s.len(),
        forall|k: int| 0 <= k < s.len() ==> #[trigger] s[k] >= 0,
    ensures
        sum_terms(s.take(i)) <= sum_terms(s),
    decreases s.len(),
{
    if i == s.len() {
        assert(s.take(i) =~= s);
    } else {
        let butlast = s.drop_last();
        assert(forall|k: int| 0 <= k < butlast.len() ==> #[trigger] butlast[k] >= 0);
        lemma_sum_terms_prefix(butlast, i);
        assert(s.take(i) =~= butlast.take(i));
        assert(s.last() >= 0);
    }
}

/// Pointwise dominated non-negative terms sum to no more.
proof fn lemma_sum_terms_pointwise_le(a: Seq<int>, b: Seq<int>)
    requires
        a.len() == b.len(),
        forall|k: int| 0 <= k < a.len() ==> 0 <= #[trigger] a[k] <= b[k],
    ensures
        sum_terms(a) <= sum_terms(b),
    decreases a.len(),
{
    if a.len() > 0 {
        assert(forall|k: int|
            0 <= k < a.drop_last().len() ==> 0 <= #[trigger] a.drop_last()[k]
                <= b.drop_last()[k]);
        lemma_sum_terms_pointwise_le(a.drop_last(), b.drop_last());
    }
}

// ---------------------------------------------------------------------------
// Aggregate definitions.
// ---------------------------------------------------------------------------

/// Whole-ledger revenue terms: each sale's total.
pub open spec fn revenue_terms(sales: Seq<SaleRow>) -> Seq<int> {
    sales.map_values(|r: SaleRow| r.total_amount as int)
}

/// Revenue across all sales.
pub open spec fn total_revenue(sales: Seq<SaleRow>) -> int {
    sum_terms(revenue_terms(sales))
}

/// One day's revenue terms: a sale's total where the date matches, else zero.
pub open spec fn day_revenue_terms(sales: Seq<SaleRow>, d: u64) -> Seq<int> {
    sales.map_values(|r: SaleRow| if r.date == d { r.total_amount as int } else { 0 })
}

/// Revenue taken on one day.
pub open spec fn day_revenue(sales: Seq<SaleRow>, d: u64) -> int {
    sum_terms(day_revenue_terms(sales, d))
}

/// Orders placed on one day.
pub open spec fn day_orders(sales: Seq<SaleRow>, d: u64) -> int {
    sum_terms(sales.map_values(|r: SaleRow| if r.date == d { 1int } else { 0int }))
}

/// Quantity terms of one product name across all line items.
pub open spec fn units_terms(items: Seq<SaleItemRow>, name: Seq<char>) -> Seq<int> {
    items.map_values(|r: SaleItemRow| if r.name@ == name { r.quantity as int } else { 0 })
}

/// Revenue terms of one product name: price times quantity per matching row.
pub open spec fn name_revenue_terms(items: Seq<SaleItemRow>, name: Seq<char>) -> Seq<int> {
    items.map_values(|r: SaleItemRow| if r.name@ == name { r.price * r.quantity } else { 0 })
}

/// Units of a product sold, the summed quantity truncated to whole units.
pub open spec fn units_sold(items: Seq<SaleItemRow>, name: Seq<char>) -> int {
    sum_terms(units_terms(items, name)) / (SCALE as int)
}

/// A product's revenue in fixed-point steps.
pub open spec fn name_revenue(items: Seq<SaleItemRow>, name: Seq<char>) -> int {
    sum_terms(name_revenue_terms(items, name)) / (SCALE as int)
}

/// Distinct product names in order of first occurrence.
pub open spec fn distinct_names(items: Seq<SaleItemRow>) -> Seq<Seq<char>>
    decreases items.len(),
{
    if items.len() == 0 {
        Seq::empty()
    } else {
        let prev = distinct_names(items.drop_last());
        if prev.contains(items.last().name@) {
            prev
        } else {
            prev.push(items.last().name@)
        }
    }
}

/// Every line item's name is listed.
proof fn lemma_distinct_names_complete(items: Seq<SaleItemRow>)
    ensures
        forall|k: int|
            0 <= k < items.len() ==> distinct_names(items).contains(
                (#[trigger] items[k]).name@,
            ),
    decreases items.len(),
{
    if items.len() > 0 {
        let butlast = items.drop_last();
        lemma_distinct_names_complete(butlast);
        let prev = distinct_names(butlast);
        let whole = distinct_names(items);
        assert(forall|k: int| 0 <= k < butlast.len() ==> butlast[k] == items[k]);
        assert forall|k: int| 0 <= k < items.len() implies whole.contains(
            (#[trigger] items[k]).name@,
        ) by {
            if k < items.len() - 1 {
                let i = choose|i: int| 0 <= i < prev.len() && prev[i] == items[k].name@;
                if !prev.contains(items.last().name@) {
                    assert(whole[i] == prev[i]);
                }
            } else {
                if prev.contains(items.last().name@) {
                } else {
                    assert(whole.last() == items.last().name@);
                }
            }
        }
    }
}

/// A name no line item carries has zero units and zero revenue.
proof fn lemma_absent_name_zero(items: Seq<SaleItemRow>, name: Seq<char>)
    requires
        forall|k: int| 0 <= k < items.len() ==> (#[trigger] items[k]).name@ != name,
    ensures
        sum_terms(units_terms(items, name)) == 0,
        sum_terms(name_revenue_terms(items, name)) == 0,
    decreases items.len(),
{
    if items.len() > 0 {
        let butlast = items.drop_last();
        assert(forall|k: int| 0 <= k < butlast.len() ==> (#[trigger] butlast[k]).name@ != name);
        lemma_absent_name_zero(butlast, name);
        assert(units_terms(items, name).drop_last() =~= units_terms(butlast, name));
        assert(name_revenue_terms(items, name).drop_last() =~= name_revenue_terms(
            butlast,
            name,
        ));
        assert(units_terms(items, name).last() == 0);
        assert(name_revenue_terms(items, name).last() == 0);
    }
}

/// Every aggregate the analytics report fits the storage representation.
pub open spec fn analytics_ok(s: Store) -> bool {
    &&& total_revenue(s.sales@) <= u64::MAX
    &&& forall|n: Seq<char>| #[trigger] units_sold(s.sale_items@, n) <= i64::MAX
    &&& forall|n: Seq<char>| #[trigger] name_revenue(s.sale_items@, n) <= u64::MAX
}

// ---------------------------------------------------------------------------
// Date series.
// ---------------------------------------------------------------------------

/// Insertion into a strictly ascending date sequence, keeping it strictly
/// ascending and dropping a duplicate.
pub open spec fn insert_sorted_date(dates: Seq<u64>, d: u64) -> Seq<u64>
    decreases dates.len(),
{
    if dates.len() == 0 {
        seq![d]
    } else if dates.last() < d {
        dates.push(d)
    } else if dates.last() == d {
        dates
    } else {
        insert_sorted_date(dates.drop_last(), d).push(dates.last())
    }
}

/// The distinct sale dates in ascending order.
pub open spec fn sorted_dates(sales: Seq<SaleRow>) -> Seq<u64>
    decreases sales.len(),
{
    if sales.len() == 0 {
        Seq::empty()
    } else {
        insert_sorted_date(sorted_dates(sales.drop_last()), sales.last().date)
    }
}

/// The series dates: the most recent of the distinct sale dates, at most the
/// daily limit of them, still ascending.
pub open spec fn recent_dates(sales: Seq<SaleRow>) -> Seq<u64> {
    let sd = sorted_dates(sales);
    if sd.len() > DAILY_LIMIT {
        sd.skip(sd.len() - DAILY_LIMIT)
    } else {
        sd
    }
}

/// Strict ascent of a date sequence.
pub open spec fn dates_ascending(dates: Seq<u64>) -> bool {
    forall|i: int, j: int| 0 <= i < j < dates.len() ==> #[trigger] dates[i] < #[trigger] dates[j]
}

/// Insertion keeps strict ascent, adds exactly the new date, and keeps
/// membership unchanged otherwise.
proof fn lemma_insert_sorted_date(dates: Seq<u64>, d: u64)
    requires
        dates_ascending(dates),
    ensures
        dates_ascending(insert_sorted_date(dates, d)),
        forall|x: u64|
            (#[trigger] insert_sorted_date(dates, d).contains(x)) ==> (dates.contains(x) || x
                == d),
        forall|x: u64| #[trigger] dates.contains(x) ==> insert_sorted_date(dates, d).contains(x),
        insert_sorted_date(dates, d).contains(d),
    decreases dates.len(),
{
    let out = insert_sorted_date(dates, d);
    if dates.len() == 0 {
        assert(out =~= seq![d]);
        assert(out[0] == d);
        assert forall|x: u64| out.contains(x) <==> (dates.contains(x) || x == d) by {
            if out.contains(x) {
                let i = choose|i: int| 0 <= i < out.len() && out[i] == x;
                assert(i == 0);
            } else {
            }
        }
    } else if dates.last() < d {
        assert(out == dates.push(d));
        assert forall|x: u64| out.contains(x) <==> (dates.contains(x) || x == d) by {
            if out.contains(x) {
                let i = choose|i: int| 0 <= i < out.len() && out[i] == x;
                if i < dates.len() {
                    assert(dates[i] == x);
                } else {
                }
            }
            if dates.contains(x) {
                let i = choose|i: int| 0 <= i < dates.len() && dates[i] == x;
                assert(out[i] == x);
            }
            if x == d {
                assert(out.last() == d);
            }
        }
        assert forall|i: int, j: int| 0 <= i < j < out.len() implies #[trigger] out[i] < (
        #[trigger] out[j]) by {
            if j < out.len() - 1 {
            } else {
                assert(out[i] == dates[i]);
                if i < dates.len() - 1 {
                    assert(dates[i] < dates[dates.len() - 1]);
                }
            }
        }
    } else if dates.last() == d {
        assert forall|x: u64| out.contains(x) <==> (dates.contains(x) || x == d) by {
            if x == d {
                assert(dates[dates.len() - 1] == d);
            }
        }
    } else {
        let butlast = dates.drop_last();
        assert(forall|i: int| 0 <= i < butlast.len() ==> butlast[i] == dates[i]);
        assert(dates_ascending(butlast));
        lemma_insert_sorted_date(butlast, d);
        let sub = insert_sorted_date(butlast, d);
        assert(out == sub.push(dates.last()));
        assert(forall|i: int| 0 <= i < sub.len() ==> out[i] == sub[i]);
        assert(out.last() == dates.last());
        assert forall|i: int, j: int| 0 <= i < j < out.len() implies #[trigger] out[i] < (
        #[trigger] out[j]) by {
            if j == out.len() - 1 {
                assert(sub[i] == out[i]);
                assert(sub.contains(out[i]));
                assert(butlast.contains(out[i]) || out[i] == d);
                if butlast.contains(out[i]) {
                    let bi = choose|bi: int| 0 <= bi < butlast.len() && butlast[bi] == out[i];
                    assert(dates[bi] < dates.last());
                } else {
                    assert(out[i] == d);
                    assert(d < dates.last());
                }
            }
        }
        assert forall|x: u64| out.contains(x) <==> (dates.contains(x) || x == d) by {
            if out.contains(x) {
                let i = choose|i: int| 0 <= i < out.len() && out[i] == x;
                if i < sub.len() {
                    assert(sub[i] == x);
                    assert(sub.contains(x));
                    assert(butlast.contains(x) || x == d);
                    if butlast.contains(x) {
                        let bi = choose|bi: int| 0 <= bi < butlast.len() && butlast[bi] == x;
                        assert(dates[bi] == x);
                    }
                } else {
                    assert(x == dates.last());
                    assert(dates[dates.len() - 1] == x);
                }
            }
            if dates.contains(x) {
                let i = choose|i: int| 0 <= i < dates.len() && dates[i] == x;
                if i < dates.len() - 1 {
                    assert(butlast[i] == x);
                    assert(butlast.contains(x));
                    assert(sub.contains(x));
                    let si = choose|si: int| 0 <= si < sub.len() && sub[si] == x;
                    assert(out[si] == x);
                } else {
                    assert(out.last() == x);
                }
            }
            if x == d {
                assert(sub.contains(d));
                let si = choose|si: int| 0 <= si < sub.len() && sub[si] == d;
                assert(out[si] == d);
            }
        }
    }
}

/// The sorted date sequence is strictly ascending and holds exactly the
/// dates on which some sale was recorded.
pub proof fn lemma_sorted_dates(sales: Seq<SaleRow>)
    ensures
        dates_ascending(sorted_dates(sales)),
        forall|x: u64|
            sorted_dates(sales).contains(x) <==> exists|i: int|
                0 <= i < sales.len() && (#[trigger] sales[i]).date == x,
    decreases sales.len(),
{
    if sales.len() == 0 {
        assert forall|x: u64| !sorted_dates(sales).contains(x) by {}
    } else {
        let butlast = sales.drop_last();
        lemma_sorted_dates(butlast);
        lemma_insert_sorted_date(sorted_dates(butlast), sales.last().date);
        assert(forall|i: int| 0 <= i < butlast.len() ==> butlast[i] == sales[i]);
        assert forall|x: u64| sorted_dates(sales).contains(x) <==> exists|i: int|
            0 <= i < sales.len() && (#[trigger] sales[i]).date == x by {
            if sorted_dates(sales).contains(x) {
                if sorted_dates(butlast).contains(x) {
                    let i = choose|i: int|
                        0 <= i < butlast.len() && (#[trigger] butlast[i]).date == x;
                    assert(sales[i].date == x);
                } else {
                    assert(x == sales.last().date);
                    assert(sales[sales.len() - 1].date == x);
                }
            }
            if exists|i: int| 0 <= i < sales.len() && (#[trigger] sales[i]).date == x {
                let i = choose|i: int| 0 <= i < sales.len() && (#[trigger] sales[i]).date == x;
                if i < sales.len() - 1 {
                    assert(butlast[i].date == x);
                    assert(sorted_dates(butlast).contains(x));
                } else {
                    assert(x == sales.last().date);
                }
            }
        }
    }
}

/// Shape of the daily series dates: ascending, at most the limit, and
/// exactly the most recent distinct dates — every distinct date left out is
/// older than every date kept.
pub proof fn lemma_recent_dates_shape(sales: Seq<SaleRow>)
    ensures
        dates_ascending(recent_dates(sales)),
        recent_dates(sales).len() <= DAILY_LIMIT,
        sorted_dates(sales).len() <= DAILY_LIMIT ==> recent_dates(sales) == sorted_dates(sales),
        sorted_dates(sales).len() > DAILY_LIMIT ==> recent_dates(sales).len() == DAILY_LIMIT,
        forall|x: u64|
            sorted_dates(sales).contains(x) && !recent_dates(sales).contains(x)
                ==> forall|j: int|
                0 <= j < recent_dates(sales).len() ==> x < #[trigger] recent_dates(sales)[j],
{
    lemma_sorted_dates(sales);
    let sd = sorted_dates(sales);
    let rd = recent_dates(sales);
    if sd.len() > DAILY_LIMIT {
        let start = sd.len() - DAILY_LIMIT;
        assert(rd =~= sd.skip(start));
        assert(forall|j: int| 0 <= j < rd.len() ==> rd[j] == sd[start + j]);
        assert forall|x: u64| sd.contains(x) && !rd.contains(x) implies forall|j: int|
            0 <= j < rd.len() ==> x < #[trigger] rd[j] by {
            let i = choose|i: int| 0 <= i < sd.len() && sd[i] == x;
            if i >= start {
                assert(rd[i - start] == x);
            }
            assert(i < start);
            assert forall|j: int| 0 <= j < rd.len() implies x < #[trigger] rd[j] by {
                assert(sd[i] < sd[start + j]);
            }
        }
    }
}

// ---------------------------------------------------------------------------
// Product grouping and ranking.
// ---------------------------------------------------------------------------

/// One product's aggregated figures: truncated units sold and fixed-point
/// revenue.
pub struct GroupStat {
    pub name: Seq<char>,
    pub units: int,
    pub revenue: int,
}

/// The aggregated figures of one name.
pub open spec fn group_stat(items: Seq<SaleItemRow>, name: Seq<char>) -> GroupStat {
    GroupStat { name: name, units: units_sold(items, name), revenue: name_revenue(items, name) }
}

/// Every distinct name's aggregated figures, in first-occurrence order.
pub open spec fn group_stats(items: Seq<SaleItemRow>) -> Seq<GroupStat> {
    distinct_names(items).map_values(|n: Seq<char>| group_stat(items, n))
}

/// Index of the first entry with maximal units.
pub open spec fn first_max_index(gs: Seq<GroupStat>) -> int
    decreases gs.len(),
{
    if gs.len() <= 1 {
        0
    } else {
        let p = first_max_index(gs.drop_last());
        if gs.last().units > gs[p].units {
            gs.len() - 1
        } else {
            p
        }
    }
}

proof fn lemma_first_max_index(gs: Seq<GroupStat>)
    requires
        gs.len() > 0,
    ensures
        0 <= first_max_index(gs) < gs.len(),
        forall|j: int| 0 <= j < gs.len() ==> (#[trigger] gs[j]).units <= gs[first_max_index(gs)].units,
    decreases gs.len(),
{
    if gs.len() > 1 {
        let butlast = gs.drop_last();
        lemma_first_max_index(butlast);
        assert(forall|j: int| 0 <= j < butlast.len() ==> butlast[j] == gs[j]);
    }
}

/// Ranking by units sold, descending, ties resolved toward the earlier
/// first occurrence: repeatedly take the first entry with maximal units.
pub open spec fn top_k(gs: Seq<GroupStat>, k: nat) -> Seq<GroupStat>
    decreases k,
{
    if k == 0 || gs.len() == 0 {
        Seq::empty()
    } else {
        let i = first_max_index(gs);
        seq![gs[i]] + top_k(gs.remove(i), (k - 1) as nat)
    }
}

/// The ranking is sorted by units, descending, and no longer than asked.
pub proof fn lemma_top_k_shape(gs: Seq<GroupStat>, k: nat)
    ensures
        top_k(gs, k).len() == if k <= gs.len() { k as int } else { gs.len() as int },
        forall|a: int, b: int|
            0 <= a < b < top_k(gs, k).len() ==> (#[trigger] top_k(gs, k)[a]).units >= (
            #[trigger] top_k(gs, k)[b]).units,
    decreases k,
{
    if k == 0 || gs.len() == 0 {
    } else {
        let i = first_max_index(gs);
        lemma_first_max_index(gs);
        let rest = gs.remove(i);
        lemma_top_k_shape(rest, (k - 1) as nat);
        let out = top_k(gs, k);
        let sub = top_k(rest, (k - 1) as nat);
        assert(out == seq![gs[i]] + sub);
        assert(forall|j: int| 0 <= j < sub.len() ==> out[j + 1] == sub[j]);
        assert(out[0] == gs[i]);
        assert forall|a: int, b: int| 0 <= a < b < out.len() implies (#[trigger] out[a]).units
            >= (#[trigger] out[b]).units by {
            if a == 0 {
                lemma_top_k_member(rest, (k - 1) as nat, b - 1);
                let j = choose|j: int| 0 <= j < rest.len() && rest[j] == sub[b - 1];
                if j < i {
                    assert(rest[j] == gs[j]);
                } else {
                    assert(rest[j] == gs[j + 1]);
                }
            }
        }
    }
}

/// Each ranked entry is one of the grouped entries.
proof fn lemma_top_k_member(gs: Seq<GroupStat>, k: nat, a: int)
    requires
        0 <= a < top_k(gs, k).len(),
    ensures
        exists|j: int| 0 <= j < gs.len() && #[trigger] gs[j] == top_k(gs, k)[a],
    decreases k,
{
    let i = first_max_index(gs);
    lemma_first_max_index(gs);
    let rest = gs.remove(i);
    let sub = top_k(rest, (k - 1) as nat);
    let out = top_k(gs, k);
    if a == 0 {
        assert(gs[i] == out[0]);
    } else {
        lemma_top_k_member(rest, (k - 1) as nat, a - 1);
        let j = choose|j: int| 0 <= j < rest.len() && #[trigger] rest[j] == sub[a - 1];
        assert(out[a] == sub[a - 1]);
        if j < i {
            assert(gs[j] == rest[j]);
        } else {
            assert(gs[j + 1] == rest[j]);
        }
    }
}

/// Every listed distinct name is carried by some line item.
proof fn lemma_distinct_names_sound(items: Seq<SaleItemRow>)
    ensures
        forall|i: int|
            0 <= i < distinct_names(items).len() ==> exists|j: int|
                0 <= j < items.len() && (#[trigger] items[j]).name@ == (
                #[trigger] distinct_names(items)[i]),
    decreases items.len(),
{
    if items.len() > 0 {
        let butlast = items.drop_last();
        lemma_distinct_names_sound(butlast);
        let prev = distinct_names(butlast);
        let whole = distinct_names(items);
        assert(forall|j: int| 0 <= j < butlast.len() ==> butlast[j] == items[j]);
        assert forall|i: int| 0 <= i < whole.len() implies exists|j: int|
            0 <= j < items.len() && (#[trigger] items[j]).name@ == (#[trigger] whole[i]) by {
            if i < prev.len() {
                assert(whole[i] == prev[i]);
                let j = choose|j: int|
                    0 <= j < butlast.len() && (#[trigger] butlast[j]).name@ == prev[i];
                assert(items[j].name@ == whole[i]);
            } else {
                assert(whole[i] == items.last().name@);
                assert(items[items.len() - 1].name@ == whole[i]);
            }
        }
    }
}

/// A product that was never sold appears in no ranking: every ranked name
/// is the denormalised name of some line item, so rankings survive catalog
/// deletions and never list unsold products.
pub proof fn lemma_ranked_names_were_sold(items: Seq<SaleItemRow>, k: nat, a: int)
    requires
        0 <= a < top_k(group_stats(items), k).len(),
    ensures
        exists|j: int|
            0 <= j < items.len() && (#[trigger] items[j]).name@ == top_k(
                group_stats(items),
                k,
            )[a].name,
{
    lemma_top_k_member(group_stats(items), k, a);
    lemma_distinct_names_sound(items);
    let gs = group_stats(items);
    let g = choose|j: int| 0 <= j < gs.len() && #[trigger] gs[j] == top_k(gs, k)[a];
    assert(gs[g].name == distinct_names(items)[g]);
    let j = choose|j: int|
        0 <= j < items.len() && (#[trigger] items[j]).name@ == distinct_names(items)[g];
    assert(items[j].name@ == top_k(gs, k)[a].name);
}

/// A ranked product entry agrees with a grouped one.
pub open spec fn top_product_matches(t: TopProduct, g: GroupStat) -> bool {
    t.name@ == g.name && t.sales == g.units && t.revenue == g.revenue
}

/// A distribution entry agrees with a grouped one: units only.
pub open spec fn distribution_matches(t: ProductDistribution, g: GroupStat) -> bool {
    t.name@ == g.name && t.value == g.units
}

// ---------------------------------------------------------------------------
// The report's agreement with the specs.
// ---------------------------------------------------------------------------

/// The daily series agrees with the recent dates and their per-day sums.
pub open spec fn daily_matches(s: Store, ds: Seq<DailyRevenue>) -> bool {
    let kd = recent_dates(s.sales@);
    &&& ds.len() == kd.len()
    &&& forall|i: int|
        0 <= i < ds.len() ==> {
            &&& (#[trigger] ds[i]).date == kd[i]
            &&& ds[i].revenue == day_revenue(s.sales@, kd[i])
            &&& ds[i].orders == day_orders(s.sales@, kd[i])
        }
}

/// The top-products list agrees with the ranking.
pub open spec fn tops_match(s: Store, ts: Seq<TopProduct>) -> bool {
    let sel = top_k(group_stats(s.sale_items@), TOP_LIMIT as nat);
    &&& ts.len() == sel.len()
    &&& forall|i: int| 0 <= i < ts.len() ==> top_product_matches(#[trigger] ts[i], sel[i])
}

/// The distribution list agrees with the ranking.
pub open spec fn dist_matches(s: Store, ts: Seq<ProductDistribution>) -> bool {
    let sel = top_k(group_stats(s.sale_items@), DIST_LIMIT as nat);
    &&& ts.len() == sel.len()
    &&& forall|i: int| 0 <= i < ts.len() ==> distribution_matches(#[trigger] ts[i], sel[i])
}

/// The summary: order count, whole-ledger revenue, and the average order
/// value, which is zero exactly when there are no orders.
pub open spec fn summary_matches(s: Store, m: AnalyticsSummary) -> bool {
    &&& m.total_orders == s.sales@.len()
    &&& m.total_revenue == total_revenue(s.sales@)
    &&& m.average_order_value == if s.sales@.len() == 0 {
        0int
    } else {
        total_revenue(s.sales@) / (s.sales@.len() as int)
    }
}

/// A well-formed store holds fewer than `i64::MAX` sale headers, because
/// identities ascend strictly and stay below the counter.
pub proof fn lemma_sales_count_bound(s: Store)
    requires
        s.wf(),
    ensures
        s.sales@.len() < i64::MAX,
{
    if s.sales@.len() > 0 {
        lemma_ascending_ids_ge(s.sales@, s.sales@.len() - 1);
    }
}

proof fn lemma_ascending_ids_ge(sales: Seq<SaleRow>, i: int)
    requires
        0 <= i < sales.len(),
        forall|a: int| 0 <= a < sales.len() ==> 1 <= (#[trigger] sales[a]).id,
        forall|a: int, b: int|
            0 <= a < b < sales.len() ==> (#[trigger] sales[a]).id < (#[trigger] sales[b]).id,
    ensures
        sales[i].id >= 1 + i,
    decreases i,
{
    if i > 0 {
        lemma_ascending_ids_ge(sales, i - 1);
    }
}

/// A sum past the top of the accumulator still divides down to more than the
/// target bound.
proof fn lemma_big_sum_quotient(x: int, bound: int)
    requires
        x > bound * (SCALE as int) + (SCALE as int) - 1,
        bound >= 0,
    ensures
        x / (SCALE as int) > bound,
{
    vstd::arithmetic::div_mod::lemma_div_is_ordered((SCALE as int) * (bound + 1), x, SCALE as int);
    vstd::arithmetic::div_mod::lemma_div_multiples_vanish(bound + 1, SCALE as int);
}

// ---------------------------------------------------------------------------
// Executable computation.
// ---------------------------------------------------------------------------

/// The views of a sequence of strings.
pub open spec fn string_views(names: Seq<String>) -> Seq<Seq<char>> {
    names.map_values(|s: String| s@)
}

/// One product's computed figures, carried between the grouping pass and the
/// ranking passes.
struct Group {
    name: String,
    units: i64,
    revenue: u64,
}

/// The spec-level figures a computed group stands for.
spec fn gview(g: Group) -> GroupStat {
    GroupStat { name: g.name@, units: g.units as int, revenue: g.revenue as int }
}

spec fn gviews(gs: Seq<Group>) -> Seq<GroupStat> {
    gs.map_values(|g: Group| gview(g))
}

fn clone_groups(v: &Vec<Group>) -> (r: Vec<Group>)
    ensures
        r@ == v@,
{
    let mut out: Vec<Group> = Vec::new();
    let mut i: usize = 0;
    while i < v.len()
        invariant
            i <= v@.len(),
            out@.len() == i,
            forall|k: int| 0 <= k < i ==> out@[k] == v@[k],
        decreases v@.len() - i,
    {
        let g = Group {
            name: clone_string(&v[i].name),
            units: v[i].units,
            revenue: v[i].revenue,
        };
        out.push(g);
        i = i + 1;
    }
    proof {
        assert(out@ =~= v@);
    }
    out
}

/// Whether some listed name has the given view.
fn contains_name(names: &Vec<String>, x: &String) -> (r: bool)
    ensures
        r == string_views(names@).contains(x@),
{
    let mut k: usize = 0;
    while k < names.len()
        invariant
            k <= names@.len(),
            forall|i: int| 0 <= i < k ==> string_views(names@)[i] != x@,
        decreases names@.len() - k,
    {
        if names[k].eq(x) {
            proof {
                assert(string_views(names@)[k as int] == x@);
            }
            return true;
        }
        k = k + 1;
    }
    proof {
        assert forall|i: int| 0 <= i < string_views(names@).len() implies string_views(names@)[i]
            != x@ by {}
    }
    false
}

impl Store {
    /// The distinct product names among the line items, first occurrence
    /// first.
    fn distinct_names_exec(&self) -> (names: Vec<String>)
        ensures
            string_views(names@) == distinct_names(self.sale_items@),
    {
        let m = self.sale_items.len();
        let mut names: Vec<String> = Vec::new();
        let mut j: usize = 0;
        while j < m
            invariant
                m == self.sale_items.len(),
                j <= m,
                string_views(names@) == distinct_names(self.sale_items@.take(j as int)),
            decreases m - j,
        {
            proof {
                assert(self.sale_items@.take(j + 1).drop_last() =~= self.sale_items@.take(
                    j as int,
                ));
                assert(self.sale_items@.take(j + 1).last() == self.sale_items@[j as int]);
            }
            if !contains_name(&names, &self.sale_items[j].name) {
                names.push(clone_string(&self.sale_items[j].name));
                proof {
                    assert(string_views(names@) =~= distinct_names(
                        self.sale_items@.take(j + 1),
                    ));
                }
            }
            j = j + 1;
        }
        proof {
            assert(self.sale_items@.take(m as int) =~= self.sale_items@);
        }
        names
    }

    /// Whole-ledger revenue, or nothing when it does not fit the storage
    /// representation.
    fn total_revenue_checked(&self) -> (r: Option<u64>)
        ensures
            match r {
                Some(v) => v == total_revenue(self.sales@) && total_revenue(self.sales@)
                    <= u64::MAX,
                None => total_revenue(self.sales@) > u64::MAX,
            },
    {
        let n = self.sales.len();
        let ghost terms = revenue_terms(self.sales@);
        proof {
            assert(forall|k: int| 0 <= k < terms.len() ==> #[trigger] terms[k] >= 0);
        }
        let mut acc: u128 = 0;
        let mut j: usize = 0;
        while j < n
            invariant
                n == self.sales.len(),
                terms == revenue_terms(self.sales@),
                j <= n,
                acc as int == sum_terms(terms.take(j as int)),
            decreases n - j,
        {
            proof {
                assert(terms.take(j + 1).drop_last() =~= terms.take(j as int));
                assert(terms.take(j + 1).last() == terms[j as int]);
                assert(forall|k: int| 0 <= k < terms.len() ==> #[trigger] terms[k] >= 0);
                lemma_sum_terms_prefix(terms, j + 1);
            }
            let term = self.sales[j].total_amount;
            if acc > u128::MAX - (term as u128) {
                return None;
            }
            acc = acc + (term as u128);
            j = j + 1;
        }
        proof {
            assert(terms.take(n as int) =~= terms);
        }
        if acc > u64::MAX as u128 {
            None
        } else {
            Some(acc as u64)
        }
    }

    /// One name's truncated units and fixed-point revenue, or nothing when
    /// either does not fit the storage representation.
    fn name_stats_checked(&self, x: &String) -> (r: Option<(i64, u64)>)
        ensures
            match r {
                Some(s) => {
                    &&& s.0 == units_sold(self.sale_items@, x@)
                    &&& s.1 == name_revenue(self.sale_items@, x@)
                },
                None => units_sold(self.sale_items@, x@) > i64::MAX || name_revenue(
                    self.sale_items@,
                    x@,
                ) > u64::MAX,
            },
    {
        let m = self.sale_items.len();
        let ghost uterms = units_terms(self.sale_items@, x@);
        let ghost rterms = name_revenue_terms(self.sale_items@, x@);
        proof {
            assert(forall|k: int| 0 <= k < uterms.len() ==> #[trigger] uterms[k] >= 0);
            assert forall|k: int| 0 <= k < rterms.len() implies #[trigger] rterms[k] >= 0 by {
                let row = self.sale_items@[k];
                assert(row.price * row.quantity >= 0) by (nonlinear_arith)
                    requires
                        row.price >= 0,
                        row.quantity >= 0,
                ;
            }
        }
        let mut uacc: u128 = 0;
        let mut racc: u128 = 0;
        let mut j: usize = 0;
        while j < m
            invariant
                m == self.sale_items.len(),
                uterms == units_terms(self.sale_items@, x@),
                rterms == name_revenue_terms(self.sale_items@, x@),
                forall|k: int| 0 <= k < uterms.len() ==> #[trigger] uterms[k] >= 0,
                forall|k: int| 0 <= k < rterms.len() ==> #[trigger] rterms[k] >= 0,
                j <= m,
                uacc as int == sum_terms(uterms.take(j as int)),
                racc as int == sum_terms(rterms.take(j as int)),
            decreases m - j,
        {
            proof {
                assert(uterms.take(j + 1).drop_last() =~= uterms.take(j as int));
                assert(uterms.take(j + 1).last() == uterms[j as int]);
                assert(rterms.take(j + 1).drop_last() =~= rterms.take(j as int));
                assert(rterms.take(j + 1).last() == rterms[j as int]);
                lemma_sum_terms_prefix(uterms, j + 1);
                lemma_sum_terms_prefix(rterms, j + 1);
            }
            let it = &self.sale_items[j];
            if it.name.eq(x) {
                let uterm = it.quantity as u128;
                proof {
                    assert(it.price * it.quantity <= u128::MAX) by (nonlinear_arith)
                        requires
                            it.price <= u64::MAX,
                            it.quantity <= u64::MAX,
                    ;
                }
                let rterm = (it.price as u128) * (it.quantity as u128);
                if uacc > u128::MAX - uterm {
                    proof {
                        lemma_big_sum_quotient(sum_terms(uterms), i64::MAX as int);
                    }
                    return None;
                }
                if racc > u128::MAX - rterm {
                    proof {
                        lemma_big_sum_quotient(sum_terms(rterms), u64::MAX as int);
                    }
                    return None;
                }
                uacc = uacc + uterm;
                racc = racc + rterm;
            }
            j = j + 1;
        }
        proof {
            assert(uterms.take(m as int) =~= uterms);
            assert(rterms.take(m as int) =~= rterms);
        }
        let units: u128 = uacc / (SCALE as u128);
        let rev: u128 = racc / (SCALE as u128);
        if units > i64::MAX as u128 {
            None
        } else if rev > u64::MAX as u128 {
            None
        } else {
            Some((units as i64, rev as u64))
        }
    }

    /// One day's revenue and order count; callable once the whole-ledger
    /// revenue is known to fit, which bounds every day's share.
    fn day_stats(&self, d: u64) -> (r: (u64, i64))
        requires
            self.wf(),
            total_revenue(self.sales@) <= u64::MAX,
        ensures
            r.0 == day_revenue(self.sales@, d),
            r.1 == day_orders(self.sales@, d),
    {
        let n = self.sales.len();
        let ghost dterms = day_revenue_terms(self.sales@, d);
        let ghost oterms = self.sales@.map_values(|r: SaleRow| if r.date == d { 1int } else { 0int });
        let ghost rterms = revenue_terms(self.sales@);
        proof {
            assert(forall|k: int| 0 <= k < dterms.len() ==> 0 <= #[trigger] dterms[k] <= rterms[k]);
            lemma_sum_terms_pointwise_le(dterms, rterms);
            lemma_sales_count_bound(*self);
        }
        let mut rev_acc: u64 = 0;
        let mut ord_acc: u64 = 0;
        let mut j: usize = 0;
        while j < n
            invariant
                self.wf(),
                n == self.sales.len(),
                n < i64::MAX,
                dterms == day_revenue_terms(self.sales@, d),
                oterms == self.sales@.map_values(
                    |r: SaleRow| if r.date == d { 1int } else { 0int },
                ),
                sum_terms(dterms) <= u64::MAX,
                j <= n,
                rev_acc as int == sum_terms(dterms.take(j as int)),
                ord_acc as int == sum_terms(oterms.take(j as int)),
                ord_acc <= j,
            decreases n - j,
        {
            proof {
                assert(dterms.take(j + 1).drop_last() =~= dterms.take(j as int));
                assert(dterms.take(j + 1).last() == dterms[j as int]);
                assert(oterms.take(j + 1).drop_last() =~= oterms.take(j as int));
                assert(oterms.take(j + 1).last() == oterms[j as int]);
                assert(forall|k: int| 0 <= k < dterms.len() ==> #[trigger] dterms[k] >= 0);
                lemma_sum_terms_prefix(dterms, j + 1);
            }
            let row = &self.sales[j];
            if row.date == d {
                rev_acc = rev_acc + row.total_amount;
                ord_acc = ord_acc + 1;
            }
            j = j + 1;
        }
        proof {
            assert(dterms.take(n as int) =~= dterms);
            assert(oterms.take(n as int) =~= oterms);
        }
        (rev_acc, ord_acc as i64)
    }

    /// The distinct sale dates in ascending order.
    fn sorted_dates_exec(&self) -> (dates: Vec<u64>)
        ensures
            dates@ == sorted_dates(self.sales@),
    {
        let n = self.sales.len();
        let mut dates: Vec<u64> = Vec::new();
        let mut j: usize = 0;
        while j < n
            invariant
                n == self.sales.len(),
                j <= n,
                dates@ == sorted_dates(self.sales@.take(j as int)),
            decreases n - j,
        {
            proof {
                assert(self.sales@.take(j + 1).drop_last() =~= self.sales@.take(j as int));
                assert(self.sales@.take(j + 1).last() == self.sales@[j as int]);
            }
            dates = insert_date_exec(dates, self.sales[j].date);
            j = j + 1;
        }
        proof {
            assert(self.sales@.take(n as int) =~= self.sales@);
        }
        dates
    }
}

impl Store {
    /// Computes the four analytics views in one pass over the raw rows:
    /// the daily revenue series (most recent distinct dates, ascending), the
    /// top products and distribution rankings, and the whole-ledger summary.
    /// Fails with a storage fault exactly when some aggregate does not fit
    /// the storage representation.
    pub fn get_analytics(&self) -> (r: Result<AnalyticsData, Fault>)
        requires
            self.wf(),
        ensures
            match r {
                Ok(a) => {
                    &&& analytics_ok(*self)
                    &&& daily_matches(*self, a.daily_revenue@)
                    &&& tops_match(*self, a.top_products@)
                    &&& dist_matches(*self, a.product_distribution@)
                    &&& summary_matches(*self, a.summary)
                },
                Err(f) => f == Fault::Storage && !analytics_ok(*self),
            },
    {
        let ghost items = self.sale_items@;
        // Summary first: its bound also caps every day's revenue.
        let total_rev = match self.total_revenue_checked() {
            Some(v) => v,
            None => {
                return Err(Fault::Storage);
            },
        };
        proof {
            lemma_sales_count_bound(*self);
        }
        let orders = self.sales.len();
        let avg: u64 = if orders == 0 {
            0
        } else {
            total_rev / (orders as u64)
        };
        let summary = AnalyticsSummary {
            total_orders: orders as i64,
            total_revenue: total_rev,
            average_order_value: avg,
        };
        // Group the line items by product name.
        let names = self.distinct_names_exec();
        let nn = names.len();
        let mut groups: Vec<Group> = Vec::new();
        let mut idx: usize = 0;
        while idx < nn
            invariant
                self.wf(),
                items == self.sale_items@,
                nn == names@.len(),
                string_views(names@) == distinct_names(items),
                idx <= nn,
                groups@.len() == idx,
                forall|k: int|
                    0 <= k < idx ==> gview(#[trigger] groups@[k]) == group_stat(
                        items,
                        string_views(names@)[k],
                    ),
            decreases nn - idx,
        {
            let stats = match self.name_stats_checked(&names[idx]) {
                Some(s) => s,
                None => {
                    proof {
                        assert(string_views(names@)[idx as int] == names@[idx as int]@);
                    }
                    return Err(Fault::Storage);
                },
            };
            let g = Group {
                name: clone_string(&names[idx]),
                units: stats.0,
                revenue: stats.1,
            };
            groups.push(g);
            proof {
                assert(string_views(names@)[idx as int] == names@[idx as int]@);
            }
            idx = idx + 1;
        }
        proof {
            lemma_distinct_names_complete(items);
            assert(gviews(groups@) =~= group_stats(items));
            assert forall|nm: Seq<char>| #[trigger] units_sold(items, nm) <= i64::MAX by {
                if exists|k: int| 0 <= k < items.len() && (#[trigger] items[k]).name@ == nm {
                    let k = choose|k: int|
                        0 <= k < items.len() && (#[trigger] items[k]).name@ == nm;
                    assert(distinct_names(items).contains(nm));
                    let i = choose|i: int|
                        0 <= i < distinct_names(items).len() && distinct_names(items)[i] == nm;
                    assert(string_views(names@)[i] == nm);
                    assert(gview(groups@[i]) == group_stat(items, nm));
                } else {
                    assert(forall|k: int|
                        0 <= k < items.len() ==> (#[trigger] items[k]).name@ != nm);
                    lemma_absent_name_zero(items, nm);
                }
            }
            assert forall|nm: Seq<char>| #[trigger] name_revenue(items, nm) <= u64::MAX by {
                if exists|k: int| 0 <= k < items.len() && (#[trigger] items[k]).name@ == nm {
                    let k = choose|k: int|
                        0 <= k < items.len() && (#[trigger] items[k]).name@ == nm;
                    assert(distinct_names(items).contains(nm));
                    let i = choose|i: int|
                        0 <= i < distinct_names(items).len() && distinct_names(items)[i] == nm;
                    assert(string_views(names@)[i] == nm);
                    assert(gview(groups@[i]) == group_stat(items, nm));
                } else {
                    assert(forall|k: int|
                        0 <= k < items.len() ==> (#[trigger] items[k]).name@ != nm);
                    lemma_absent_name_zero(items, nm);
                }
            }
        }
        // Rankings.
        let groups_for_dist = clone_groups(&groups);
        let top_groups = top_k_exec(groups, TOP_LIMIT);
        let dist_groups = top_k_exec(groups_for_dist, DIST_LIMIT);
        let mut top_products: Vec<TopProduct> = Vec::new();
        let tg = top_groups.len();
        let mut i: usize = 0;
        while i < tg
            invariant
                tg == top_groups@.len(),
                i <= tg,
                top_products@.len() == i,
                forall|k: int|
                    0 <= k < i ==> top_product_matches(
                        #[trigger] top_products@[k],
                        gviews(top_groups@)[k],
                    ),
            decreases tg - i,
        {
            let t = TopProduct {
                name: clone_string(&top_groups[i].name),
                sales: top_groups[i].units,
                revenue: top_groups[i].revenue,
            };
            top_products.push(t);
            i = i + 1;
        }
        let mut distribution: Vec<ProductDistribution> = Vec::new();
        let dg = dist_groups.len();
        let mut i2: usize = 0;
        while i2 < dg
            invariant
                dg == dist_groups@.len(),
                i2 <= dg,
                distribution@.len() == i2,
                forall|k: int|
                    0 <= k < i2 ==> distribution_matches(
                        #[trigger] distribution@[k],
                        gviews(dist_groups@)[k],
                    ),
            decreases dg - i2,
        {
            let t = ProductDistribution {
                name: clone_string(&dist_groups[i2].name),
                value: dist_groups[i2].units,
            };
            distribution.push(t);
            i2 = i2 + 1;
        }
        // Daily series: the most recent distinct dates, ascending.
        let dates = self.sorted_dates_exec();
        let dl = dates.len();
        let start: usize = if dl > DAILY_LIMIT {
            dl - DAILY_LIMIT
        } else {
            0
        };
        let ghost kd = recent_dates(self.sales@);
        proof {
            assert(kd =~= dates@.skip(start as int));
        }
        let mut daily: Vec<DailyRevenue> = Vec::new();
        let mut t2: usize = start;
        while t2 < dl
            invariant
                self.wf(),
                total_revenue(self.sales@) <= u64::MAX,
                dl == dates@.len(),
                kd == dates@.skip(start as int),
                start <= t2 <= dl,
                daily@.len() == t2 - start,
                forall|k: int|
                    0 <= k < t2 - start ==> {
                        &&& (#[trigger] daily@[k]).date == kd[k]
                        &&& daily@[k].revenue == day_revenue(self.sales@, kd[k])
                        &&& daily@[k].orders == day_orders(self.sales@, kd[k])
                    },
            decreases dl - t2,
        {
            let d = dates[t2];
            proof {
                assert(kd[t2 - start] == dates@[t2 as int]);
            }
            let stats = self.day_stats(d);
            let entry = DailyRevenue { date: d, revenue: stats.0, orders: stats.1 };
            daily.push(entry);
            t2 = t2 + 1;
        }
        Ok(
            AnalyticsData {
                daily_revenue: daily,
                top_products: top_products,
                product_distribution: distribution,
                summary: summary,
            },
        )
    }
}

/// Insertion into the ascending date list, mirroring its spec.
fn insert_date_exec(v: Vec<u64>, d: u64) -> (r: Vec<u64>)
    ensures
        r@ == insert_sorted_date(v@, d),
    decreases v@.len(),
{
    if v.len() == 0 {
        let mut v2 = v;
        v2.push(d);
        v2
    } else {
        let last = v[v.len() - 1];
        if last < d {
            let mut v2 = v;
            v2.push(d);
            v2
        } else if last == d {
            v
        } else {
            let ghost oldv = v@;
            let mut v2 = v;
            let popped = v2.pop().unwrap();
            proof {
                assert(v2@ =~= oldv.drop_last());
            }
            let mut r = insert_date_exec(v2, d);
            r.push(popped);
            r
        }
    }
}

/// The ranking: repeatedly move the first entry with maximal units over,
/// mirroring its spec.
fn top_k_exec(v: Vec<Group>, k: usize) -> (r: Vec<Group>)
    ensures
        gviews(r@) == top_k(gviews(v@), k as nat),
    decreases k,
{
    if k == 0 || v.len() == 0 {
        let out: Vec<Group> = Vec::new();
        proof {
            assert(gviews(out@) =~= top_k(gviews(v@), k as nat));
        }
        return out;
    }
    let ghost gs = gviews(v@);
    let mut best: usize = 0;
    let mut t: usize = 1;
    while t < v.len()
        invariant
            gs == gviews(v@),
            v@.len() > 0,
            1 <= t <= v@.len(),
            best < t,
            best as int == first_max_index(gs.take(t as int)),
        decreases v@.len() - t,
    {
        proof {
            assert(gs.take(t + 1).drop_last() =~= gs.take(t as int));
            assert(gs.take(t + 1).last() == gs[t as int]);
            assert(gs.take(t + 1)[first_max_index(gs.take(t as int))] == gs[best as int]);
        }
        if v[t].units > v[best].units {
            best = t;
        }
        t = t + 1;
    }
    proof {
        assert(gs.take(v@.len() as int) =~= gs);
    }
    let mut v2 = v;
    let g = v2.remove(best);
    let rest = top_k_exec(v2, k - 1);
    let mut out: Vec<Group> = Vec::new();
    out.push(g);
    let mut rest2 = rest;
    let ghost rest_view = rest2@;
    out.append(&mut rest2);
    proof {
        assert(gviews(v2@) =~= gs.remove(best as int));
        assert(gviews(out@) =~= seq![gs[best as int]] + gviews(rest_view));
    }
    out
}

} // verus!
