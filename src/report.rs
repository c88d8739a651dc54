//! Sales reporting over closed transactions: per-item totals over a time
//! window, ordered by revenue, and a summary of the window.
use vstd::prelude::*;
use crate::catalog::{
    Catalog, Category, Item, category_name_of, item_category_of, item_name_of,
};
use crate::model::{EngineError, Status, TransactionItem, TransactionView, name_view};
use crate::store::{Store, views};

verus! {

/// One sold line of a closed transaction.
#[derive(Clone, Copy, Debug, PartialEq, Eq, Structural)]
pub struct Sale {
    pub txn_id: u128,
    pub item_id: u128,
    pub quantity: u32,
    pub unit_price: u64,
    pub total_price: u64,
}

/// Whether `t` was closed within `[start, end)`.
pub open spec fn in_window(t: TransactionView, start: i64, end: i64) -> bool {
    &&& t.status == Status::Closed
    &&& t.closed_at is Some
    &&& start <= t.closed_at.unwrap() < end
}

/// The sale of line `l` of transaction `tid`.
pub open spec fn sale_of(tid: u128, l: TransactionItem) -> Sale {
    Sale {
        txn_id: tid,
        item_id: l.item_id,
        quantity: l.quantity as u32,
        unit_price: l.unit_price,
        total_price: l.total_price,
    }
}

/// The sales of every line of transaction `tid`, whether or not the
/// catalog still holds the item.
pub open spec fn line_sales(tid: u128, lines: Seq<TransactionItem>) -> Seq<Sale> {
    lines.map_values(|l: TransactionItem| sale_of(tid, l))
}

/// The sales of the transactions closed within `[start, end)`, in store
/// order.
pub open spec fn window_sales(s: Seq<TransactionView>, start: i64, end: i64) -> Seq<Sale>
    decreases s.len(),
{
    if s.len() == 0 {
        Seq::empty()
    } else {
        let rest = window_sales(s.drop_last(), start, end);
        let t = s.last();
        if in_window(t, start, end) {
            rest + line_sales(t.id, t.items)
        } else {
            rest
        }
    }
}

/// The number of transactions closed within `[start, end)`.
pub open spec fn window_count(s: Seq<TransactionView>, start: i64, end: i64) -> nat
    decreases s.len(),
{
    if s.len() == 0 {
        0
    } else {
        window_count(s.drop_last(), start, end) + if in_window(s.last(), start, end) {
            1nat
        } else {
            0nat
        }
    }
}

/// Appends the sales of one transaction's lines.
fn collect_lines(tid: u128, lines: &Vec<TransactionItem>, out: &mut Vec<Sale>)
    ensures
        final(out)@ == old(out)@ + line_sales(tid, lines@),
{
    let ghost start = old(out)@;
    let mut k: usize = 0;
    assert(start + line_sales(tid, lines@.take(0)) =~= start);
    while k < lines.len()
        invariant
            k <= lines@.len(),
            out@ =~= start + line_sales(tid, lines@.take(k as int)),
        decreases lines@.len() - k,
    {
        let l = lines[k];
        out.push(
            Sale {
                txn_id: tid,
                item_id: l.item_id,
                quantity: l.quantity as u32,
                unit_price: l.unit_price,
                total_price: l.total_price,
            },
        );
        k = k + 1;
        assert(out@ =~= start + line_sales(tid, lines@.take(k as int)));
    }
    assert(lines@.take(k as int) =~= lines@);
}

/// The reported sales of the transactions of `store` closed within
/// `[start, end)`, and how many such transactions there are.
fn collect_sales(store: &Store, start: i64, end: i64) -> (r: (Vec<Sale>, u64))
    ensures
        r.0@ == window_sales(store@, start, end),
        r.1 == window_count(store@, start, end),
{
    let txns = store.records();
    let mut out: Vec<Sale> = Vec::new();
    let mut count: u64 = 0;
    let mut k: usize = 0;
    while k < txns.len()
        invariant
            views(txns@) == store@,
            k <= txns@.len(),
            count <= k,
            out@ == window_sales(store@.take(k as int), start, end),
            count == window_count(store@.take(k as int), start, end),
        decreases txns@.len() - k,
    {
        let t = &txns[k];
        proof {
            assert(store@.take(k + 1).drop_last() =~= store@.take(k as int));
            assert(store@[k as int] == t@);
        }
        let within = match t.closed_at {
            Some(c) => t.status == Status::Closed && start <= c && c < end,
            None => false,
        };
        if within {
            collect_lines(t.id, &t.items, &mut out);
            count = count + 1;
        }
        k = k + 1;
    }
    assert(store@.take(k as int) =~= store@);
    (out, count)
}

/// A quantity summed over sales.
#[derive(Clone, Copy, Debug, PartialEq, Eq, Structural)]
pub enum Measure {
    Quantity,
    Revenue,
    UnitPrice,
    Lines,
}

/// The contribution of one sale to a measure.
pub open spec fn measure(s: Sale, m: Measure) -> nat {
    match m {
        Measure::Quantity => s.quantity as nat,
        Measure::Revenue => s.total_price as nat,
        Measure::UnitPrice => s.unit_price as nat,
        Measure::Lines => 1,
    }
}

/// The sum of measure `m` over all sales.
pub open spec fn total(sales: Seq<Sale>, m: Measure) -> nat
    decreases sales.len(),
{
    if sales.len() == 0 {
        0
    } else {
        total(sales.drop_last(), m) + measure(sales.last(), m)
    }
}

/// The sum of measure `m` over the sales of item `x`.
pub open spec fn tally(sales: Seq<Sale>, x: u128, m: Measure) -> nat
    decreases sales.len(),
{
    if sales.len() == 0 {
        0
    } else {
        tally(sales.drop_last(), x, m) + if sales.last().item_id == x {
            measure(sales.last(), m)
        } else {
            0
        }
    }
}

/// Whether an earlier sale than the one at `k` has its item and its
/// transaction.
pub open spec fn seen_before(sales: Seq<Sale>, k: int) -> bool {
    exists|j: int| 0 <= j < k && sales[j].item_id == sales[k].item_id && sales[j].txn_id == sales[k].txn_id
}

/// The number of distinct transactions among the sales of item `x`.
pub open spec fn txn_tally(sales: Seq<Sale>, x: u128) -> nat
    decreases sales.len(),
{
    if sales.len() == 0 {
        0
    } else {
        txn_tally(sales.drop_last(), x) + if sales.last().item_id == x && !seen_before(
            sales,
            sales.len() - 1,
        ) {
            1nat
        } else {
            0nat
        }
    }
}

/// The items sold, each once, in order of first sale.
pub open spec fn distinct_items(sales: Seq<Sale>) -> Seq<u128>
    decreases sales.len(),
{
    if sales.len() == 0 {
        Seq::empty()
    } else {
        let d = distinct_items(sales.drop_last());
        if d.contains(sales.last().item_id) {
            d
        } else {
            d.push(sales.last().item_id)
        }
    }
}

/// Running totals of one item.
#[derive(Clone, Copy, Debug, PartialEq, Eq, Structural)]
pub struct Group {
    pub item_id: u128,
    pub quantity: u128,
    pub revenue: u128,
    pub unit_sum: u128,
    pub lines: u128,
    pub txns: u128,
}

/// The totals of item `x` over `sales`.
pub open spec fn group_of(sales: Seq<Sale>, x: u128) -> Group {
    Group {
        item_id: x,
        quantity: tally(sales, x, Measure::Quantity) as u128,
        revenue: tally(sales, x, Measure::Revenue) as u128,
        unit_sum: tally(sales, x, Measure::UnitPrice) as u128,
        lines: tally(sales, x, Measure::Lines) as u128,
        txns: txn_tally(sales, x) as u128,
    }
}

/// The totals of every item sold, in order of first sale.
pub open spec fn groups_of(sales: Seq<Sale>) -> Seq<Group> {
    distinct_items(sales).map_values(|x: u128| group_of(sales, x))
}

/// Whether no total over `sales` exceeds a `u128`.
pub open spec fn totals_fit(sales: Seq<Sale>) -> bool {
    &&& total(sales, Measure::Quantity) <= u128::MAX
    &&& total(sales, Measure::Revenue) <= u128::MAX
    &&& total(sales, Measure::UnitPrice) <= u128::MAX
}

/// An item is listed exactly when it has a sale; an unlisted item tallies
/// to zero; the list has no repeats.
pub proof fn lemma_distinct_items(sales: Seq<Sale>, x: u128)
    ensures
        distinct_items(sales).contains(x) == (exists|j: int| 0 <= j < sales.len() && sales[j].item_id == x),
        !distinct_items(sales).contains(x) ==> tally(sales, x, Measure::Quantity) == 0 && tally(
            sales,
            x,
            Measure::Revenue,
        ) == 0 && tally(sales, x, Measure::UnitPrice) == 0 && tally(sales, x, Measure::Lines) == 0
            && txn_tally(sales, x) == 0,
        distinct_items(sales).no_duplicates(),
    decreases sales.len(),
{
    if sales.len() > 0 {
        let rest = sales.drop_last();
        let v = sales.last().item_id;
        lemma_distinct_items(rest, x);
        lemma_distinct_items(rest, v);
        let d = distinct_items(rest);
        assert((exists|j: int| 0 <= j < sales.len() && sales[j].item_id == x) == ((exists|j: int|
            0 <= j < rest.len() && rest[j].item_id == x) || v == x)) by {
            if exists|j: int| 0 <= j < rest.len() && rest[j].item_id == x {
                let j = choose|j: int| 0 <= j < rest.len() && rest[j].item_id == x;
                assert(sales[j].item_id == x);
            }
            if v == x {
                assert(sales[sales.len() - 1].item_id == x);
            }
            if exists|j: int| 0 <= j < sales.len() && sales[j].item_id == x {
                let j = choose|j: int| 0 <= j < sales.len() && sales[j].item_id == x;
                if j < rest.len() {
                    assert(rest[j].item_id == x);
                }
            }
        }
        if !d.contains(v) {
            let e = d.push(v);
            assert(e.contains(x) == (d.contains(x) || v == x)) by {
                if v == x {
                    assert(e[d.len() as int] == v);
                }
                if d.contains(x) {
                    let i = choose|i: int| 0 <= i < d.len() && d[i] == x;
                    assert(e[i] == x);
                }
                if e.contains(x) {
                    let i = choose|i: int| 0 <= i < e.len() && e[i] == x;
                    if i < d.len() {
                        assert(d[i] == x);
                    }
                }
            }
            assert(e.no_duplicates()) by {
                assert forall|a: int, b: int| 0 <= a < e.len() && 0 <= b < e.len() && a != b implies e[a] != e[b] by {
                    if a == d.len() {
                        assert(e[b] == d[b]);
                    } else if b == d.len() {
                        assert(e[a] == d[a]);
                    } else {
                        assert(e[a] == d[a] && e[b] == d[b]);
                    }
                }
            }
        }
    }
}

/// Item tallies and prefix totals never exceed the whole total; counts of
/// lines and transactions never exceed the number of sales.
pub proof fn lemma_tally_bounds(sales: Seq<Sale>, x: u128, m: Measure)
    ensures
        tally(sales, x, m) <= total(sales, m),
        total(sales, Measure::Lines) == sales.len(),
        txn_tally(sales, x) <= tally(sales, x, Measure::Lines),
    decreases sales.len(),
{
    if sales.len() > 0 {
        lemma_tally_bounds(sales.drop_last(), x, m);
    }
}

/// A prefix never totals more than the whole.
pub proof fn lemma_total_prefix(sales: Seq<Sale>, k: int, m: Measure)
    requires
        0 <= k <= sales.len(),
    ensures
        total(sales.take(k), m) <= total(sales, m),
    decreases sales.len() - k,
{
    if k < sales.len() {
        assert(sales.take(k + 1).drop_last() =~= sales.take(k));
        lemma_total_prefix(sales, k + 1, m);
    } else {
        assert(sales.take(k) =~= sales);
    }
}

/// Whether a sale before position `k` has the item and transaction of the
/// sale at `k`.
fn seen_earlier(sales: &Vec<Sale>, k: usize) -> (r: bool)
    requires
        k < sales@.len(),
    ensures
        r == seen_before(sales@, k as int),
{
    let mut j: usize = 0;
    while j < k
        invariant
            j <= k < sales@.len(),
            forall|i: int| 0 <= i < j ==> !(sales@[i].item_id == sales@[k as int].item_id && sales@[i].txn_id
                == sales@[k as int].txn_id),
        decreases k - j,
    {
        if sales[j].item_id == sales[k].item_id && sales[j].txn_id == sales[k].txn_id {
            return true;
        }
        j = j + 1;
    }
    false
}

/// The totals of every item sold, in order of first sale.
fn aggregate(sales: &Vec<Sale>) -> (r: Vec<Group>)
    requires
        totals_fit(sales@),
    ensures
        r@ == groups_of(sales@),
{
    let mut groups: Vec<Group> = Vec::new();
    let mut k: usize = 0;
    assert(groups@ =~= groups_of(sales@.take(0)));
    while k < sales.len()
        invariant
            totals_fit(sales@),
            k <= sales@.len(),
            groups@ == groups_of(sales@.take(k as int)),
        decreases sales@.len() - k,
    {
        let sale = sales[k];
        let ghost pre = sales@.take(k as int);
        let ghost post = sales@.take(k + 1);
        proof {
            assert(post.drop_last() =~= pre);
            assert(post.last() == sale);
            lemma_distinct_items(pre, sale.item_id);
            lemma_distinct_items(post, sale.item_id);
            lemma_tally_bounds(post, sale.item_id, Measure::Quantity);
            lemma_tally_bounds(post, sale.item_id, Measure::Revenue);
            lemma_tally_bounds(post, sale.item_id, Measure::UnitPrice);
            lemma_tally_bounds(post, sale.item_id, Measure::Lines);
            lemma_total_prefix(sales@, k + 1, Measure::Quantity);
            lemma_total_prefix(sales@, k + 1, Measure::Revenue);
            lemma_total_prefix(sales@, k + 1, Measure::UnitPrice);
            assert(seen_before(post, k as int) == seen_before(sales@, k as int)) by {
                if seen_before(sales@, k as int) {
                    let j = choose|j: int| 0 <= j < k && sales@[j].item_id == sales@[k as int].item_id
                        && sales@[j].txn_id == sales@[k as int].txn_id;
                    assert(post[j] == sales@[j]);
                }
                if seen_before(post, k as int) {
                    let j = choose|j: int| 0 <= j < k && post[j].item_id == post[k as int].item_id
                        && post[j].txn_id == post[k as int].txn_id;
                    assert(post[j] == sales@[j]);
                }
            }
        }
        let fresh: u128 = if seen_earlier(sales, k) { 0 } else { 1 };
        let mut g: usize = 0;
        while g < groups.len() && groups[g].item_id != sale.item_id
            invariant
                groups@ == groups_of(pre),
                g <= groups@.len(),
                forall|i: int| 0 <= i < g ==> groups@[i].item_id != sale.item_id,
            decreases groups@.len() - g,
        {
            g = g + 1;
        }
        proof {
            assert(groups@.len() == distinct_items(pre).len());
            assert forall|i: int| 0 <= i < groups@.len() implies #[trigger] groups@[i].item_id == distinct_items(pre)[i] by {
                assert(groups@[i] == group_of(pre, distinct_items(pre)[i]));
            }
        }
        if g < groups.len() {
            let old_g = groups[g];
            proof {
                assert(distinct_items(pre).contains(sale.item_id)) by {
                    assert(distinct_items(pre)[g as int] == sale.item_id);
                }
                assert(distinct_items(post) == distinct_items(pre));
                assert(old_g == group_of(pre, sale.item_id));
            }
            groups[g] = Group {
                item_id: sale.item_id,
                quantity: old_g.quantity + sale.quantity as u128,
                revenue: old_g.revenue + sale.total_price as u128,
                unit_sum: old_g.unit_sum + sale.unit_price as u128,
                lines: old_g.lines + 1,
                txns: old_g.txns + fresh,
            };
            proof {
                assert forall|i: int| 0 <= i < groups@.len() implies #[trigger] groups@[i] == groups_of(post)[i] by {
                    let y = distinct_items(pre)[i];
                    if i != g {
                        assert(y != sale.item_id) by {
                            lemma_distinct_items(pre, y);
                            assert(distinct_items(pre)[g as int] == sale.item_id);
                        }
                    }
                }
                assert(groups@ =~= groups_of(post));
            }
        } else {
            proof {
                assert(!distinct_items(pre).contains(sale.item_id)) by {
                    if distinct_items(pre).contains(sale.item_id) {
                        let i = choose|i: int| 0 <= i < distinct_items(pre).len() && distinct_items(pre)[i] == sale.item_id;
                        assert(groups@[i].item_id == sale.item_id);
                    }
                }
                assert(distinct_items(post) == distinct_items(pre).push(sale.item_id));
            }
            groups.push(Group {
                item_id: sale.item_id,
                quantity: sale.quantity as u128,
                revenue: sale.total_price as u128,
                unit_sum: sale.unit_price as u128,
                lines: 1,
                txns: fresh,
            });
            proof {
                assert forall|i: int| 0 <= i < groups@.len() implies #[trigger] groups@[i] == groups_of(post)[i] by {
                    if i < groups@.len() - 1 {
                        let y = distinct_items(pre)[i];
                        assert(y != sale.item_id);
                    }
                }
                assert(groups@ =~= groups_of(post));
            }
        }
        k = k + 1;
    }
    assert(sales@.take(k as int) =~= sales@);
    groups
}

/// Where a group of revenue `v` goes in a list ordered by decreasing
/// revenue: after every group of revenue at least `v`.
pub open spec fn insert_pos(sorted: Seq<Group>, v: u128) -> int
    decreases sorted.len(),
{
    if sorted.len() == 0 {
        0
    } else if sorted[0].revenue < v {
        0
    } else {
        1 + insert_pos(sorted.drop_first(), v)
    }
}

/// The groups by decreasing revenue; groups of equal revenue keep their
/// order.
pub open spec fn by_revenue(gs: Seq<Group>) -> Seq<Group>
    decreases gs.len(),
{
    if gs.len() == 0 {
        Seq::empty()
    } else {
        let s = by_revenue(gs.drop_last());
        s.insert(insert_pos(s, gs.last().revenue), gs.last())
    }
}

/// The insertion position is the first position after the groups of
/// revenue at least `v`.
pub proof fn lemma_insert_pos(sorted: Seq<Group>, v: u128, p: int)
    requires
        0 <= p <= sorted.len(),
        forall|j: int| 0 <= j < p ==> sorted[j].revenue >= v,
        p == sorted.len() || sorted[p].revenue < v,
    ensures
        insert_pos(sorted, v) == p,
    decreases p,
{
    if p > 0 {
        let rest = sorted.drop_first();
        assert forall|j: int| 0 <= j < p - 1 implies rest[j].revenue >= v by {
            assert(rest[j] == sorted[j + 1]);
        }
        if p < sorted.len() {
            assert(rest[p - 1] == sorted[p]);
        }
        lemma_insert_pos(rest, v, p - 1);
    }
}

/// The insertion position comes after every group of revenue at least `v`
/// and, in a list ordered by decreasing revenue, before every other one.
pub proof fn lemma_insert_pos_bounds(sorted: Seq<Group>, v: u128)
    ensures
        0 <= insert_pos(sorted, v) <= sorted.len(),
        forall|j: int| 0 <= j < insert_pos(sorted, v) ==> sorted[j].revenue >= v,
        insert_pos(sorted, v) < sorted.len() ==> sorted[insert_pos(sorted, v)].revenue < v,
    decreases sorted.len(),
{
    if sorted.len() > 0 && sorted[0].revenue >= v {
        let rest = sorted.drop_first();
        lemma_insert_pos_bounds(rest, v);
        assert forall|j: int| 0 <= j < insert_pos(sorted, v) implies sorted[j].revenue >= v by {
            if j > 0 {
                assert(sorted[j] == rest[j - 1]);
            }
        }
    }
}

/// Report rows are ordered by decreasing revenue, and there is one for
/// each group.
pub proof fn law_by_revenue_ordered(gs: Seq<Group>)
    ensures
        by_revenue(gs).len() == gs.len(),
        forall|i: int, j: int|
            0 <= i < j < by_revenue(gs).len() ==> by_revenue(gs)[i].revenue >= by_revenue(gs)[j].revenue,
    decreases gs.len(),
{
    if gs.len() > 0 {
        let s = by_revenue(gs.drop_last());
        law_by_revenue_ordered(gs.drop_last());
        let g = gs.last();
        lemma_insert_pos_bounds(s, g.revenue);
        let p = insert_pos(s, g.revenue);
        let t = s.insert(p, g);
        assert forall|i: int, j: int| 0 <= i < j < t.len() implies t[i].revenue >= t[j].revenue by {
            if j < p {
                assert(t[i] == s[i] && t[j] == s[j]);
            } else if j == p {
                assert(t[i] == s[i]);
            } else if i < p {
                assert(t[i] == s[i] && t[j] == s[j - 1]);
                if p < s.len() {
                    assert(s[p].revenue < g.revenue);
                }
            } else if i == p {
                assert(t[j] == s[j - 1]);
                assert(s[p].revenue >= s[j - 1].revenue);
            } else {
                assert(t[i] == s[i - 1] && t[j] == s[j - 1]);
            }
        }
    }
}

/// Orders groups by decreasing revenue, keeping the order of equal ones.
fn sort_by_revenue(groups: &Vec<Group>) -> (r: Vec<Group>)
    ensures
        r@ == by_revenue(groups@),
{
    let mut out: Vec<Group> = Vec::new();
    let mut k: usize = 0;
    while k < groups.len()
        invariant
            k <= groups@.len(),
            out@ == by_revenue(groups@.take(k as int)),
        decreases groups@.len() - k,
    {
        let g = groups[k];
        proof {
            assert(groups@.take(k + 1).drop_last() =~= groups@.take(k as int));
        }
        let mut p: usize = 0;
        while p < out.len() && out[p].revenue >= g.revenue
            invariant
                p <= out@.len(),
                forall|j: int| 0 <= j < p ==> out@[j].revenue >= g.revenue,
            decreases out@.len() - p,
        {
            p = p + 1;
        }
        proof {
            lemma_insert_pos(out@, g.revenue, p as int);
        }
        out.insert(p, g);
        k = k + 1;
    }
    assert(groups@.take(k as int) =~= groups@);
    out
}

/// Sales of one item over a report window.  Amounts are in cents; the
/// average price is the mean unit price over the item's lines, rounded
/// down.
#[derive(Debug)]
pub struct ItemSalesReport {
    pub item_id: u128,
    pub item_name: String,
    pub category_name: String,
    pub quantity_sold: u128,
    pub total_revenue: u128,
    pub average_price: u128,
    pub transaction_count: u128,
}

/// The mathematical value of an [`ItemSalesReport`].
pub struct ItemReportView {
    pub item_id: u128,
    pub item_name: Seq<char>,
    pub category_name: Seq<char>,
    pub quantity_sold: u128,
    pub total_revenue: u128,
    pub average_price: u128,
    pub transaction_count: u128,
}

impl View for ItemSalesReport {
    type V = ItemReportView;

    open spec fn view(&self) -> ItemReportView {
        ItemReportView {
            item_id: self.item_id,
            item_name: self.item_name@,
            category_name: self.category_name@,
            quantity_sold: self.quantity_sold,
            total_revenue: self.total_revenue,
            average_price: self.average_price,
            transaction_count: self.transaction_count,
        }
    }
}

/// Window-level totals.  Amounts are in cents; the average transaction
/// value is rounded down, and zero for an empty window.
#[derive(Debug)]
pub struct ReportSummary {
    pub total_revenue: u128,
    pub total_items_sold: u128,
    pub total_transactions: u64,
    pub average_transaction_value: u128,
    pub top_selling_item: Option<String>,
    pub top_revenue_item: Option<String>,
}

/// A sales report over the window `[start_date, end_date)`, in
/// milliseconds since the Unix epoch.
#[derive(Debug)]
pub struct SalesReport {
    pub start_date: i64,
    pub end_date: i64,
    pub items: Vec<ItemSalesReport>,
    pub summary: ReportSummary,
}

/// The name of `o`, or the empty text.
pub open spec fn name_or_empty(o: Option<Seq<char>>) -> Seq<char> {
    match o {
        Some(n) => n,
        None => Seq::empty(),
    }
}

/// The report row of a group, named from the catalog.
pub open spec fn item_report(g: Group, items: Seq<Item>, cats: Seq<Category>) -> ItemReportView {
    ItemReportView {
        item_id: g.item_id,
        item_name: name_or_empty(item_name_of(items, g.item_id)),
        category_name: match item_category_of(items, g.item_id) {
            Some(c) => name_or_empty(category_name_of(cats, c)),
            None => Seq::empty(),
        },
        quantity_sold: g.quantity,
        total_revenue: g.revenue,
        average_price: if g.lines > 0 {
            (g.unit_sum / g.lines) as u128
        } else {
            0
        },
        transaction_count: g.txns,
    }
}

/// The rows of a report over `sales`, by decreasing revenue.
pub open spec fn report_rows(sales: Seq<Sale>, items: Seq<Item>, cats: Seq<Category>) -> Seq<ItemReportView> {
    by_revenue(groups_of(sales)).map_values(|g: Group| item_report(g, items, cats))
}

/// The revenue (or, when `revenue` is false, the quantity) of a row.
pub open spec fn row_amount(r: ItemReportView, revenue: bool) -> nat {
    if revenue {
        r.total_revenue as nat
    } else {
        r.quantity_sold as nat
    }
}

/// The revenue (or the quantity) of a group.
pub open spec fn group_amount(g: Group, revenue: bool) -> nat {
    if revenue {
        g.revenue as nat
    } else {
        g.quantity as nat
    }
}

/// The measure that `revenue` selects.
pub open spec fn measure_of(revenue: bool) -> Measure {
    if revenue {
        Measure::Revenue
    } else {
        Measure::Quantity
    }
}

/// Sum of the revenue (or the quantity) over report rows.
pub open spec fn rows_sum(rows: Seq<ItemReportView>, revenue: bool) -> nat
    decreases rows.len(),
{
    if rows.len() == 0 {
        0
    } else {
        rows_sum(rows.drop_last(), revenue) + row_amount(rows.last(), revenue)
    }
}

/// Sum of the revenue (or the quantity) over groups.
pub open spec fn groups_sum(gs: Seq<Group>, revenue: bool) -> nat
    decreases gs.len(),
{
    if gs.len() == 0 {
        0
    } else {
        groups_sum(gs.drop_last(), revenue) + group_amount(gs.last(), revenue)
    }
}

/// Sum over the items `ids` of their tallies of `m`.
pub open spec fn tallies(ids: Seq<u128>, sales: Seq<Sale>, m: Measure) -> nat
    decreases ids.len(),
{
    if ids.len() == 0 {
        0
    } else {
        tallies(ids.drop_last(), sales, m) + tally(sales, ids.last(), m)
    }
}

/// One more sale adds its measure to the tallies of a list of distinct
/// items exactly when its item is listed.
proof fn lemma_tallies_push(ids: Seq<u128>, sales: Seq<Sale>, e: Sale, m: Measure)
    requires
        ids.no_duplicates(),
    ensures
        tallies(ids, sales.push(e), m) == tallies(ids, sales, m) + if ids.contains(e.item_id) {
            measure(e, m)
        } else {
            0
        },
    decreases ids.len(),
{
    if ids.len() > 0 {
        let rest = ids.drop_last();
        assert(rest.no_duplicates());
        lemma_tallies_push(rest, sales, e, m);
        assert(sales.push(e).drop_last() =~= sales);
        assert(ids.contains(e.item_id) == (rest.contains(e.item_id) || ids.last() == e.item_id)) by {
            if ids.contains(e.item_id) {
                let i = choose|i: int| 0 <= i < ids.len() && ids[i] == e.item_id;
                if i < rest.len() {
                    assert(rest[i] == e.item_id);
                }
            }
            if rest.contains(e.item_id) {
                let i = choose|i: int| 0 <= i < rest.len() && rest[i] == e.item_id;
                assert(ids[i] == e.item_id);
            }
            if ids.last() == e.item_id {
                assert(ids[ids.len() - 1] == e.item_id);
            }
        }
        if rest.contains(e.item_id) && ids.last() == e.item_id {
            let i = choose|i: int| 0 <= i < rest.len() && rest[i] == e.item_id;
            assert(ids[i] == ids[ids.len() - 1]);
        }
    }
}

/// The tallies of all items sold add up to the total.
proof fn lemma_tallies_total(sales: Seq<Sale>, m: Measure)
    ensures
        tallies(distinct_items(sales), sales, m) == total(sales, m),
    decreases sales.len(),
{
    if sales.len() > 0 {
        let rest = sales.drop_last();
        let e = sales.last();
        let d = distinct_items(rest);
        lemma_tallies_total(rest, m);
        lemma_distinct_items(rest, e.item_id);
        assert(sales =~= rest.push(e));
        lemma_tallies_push(d, rest, e, m);
        if !d.contains(e.item_id) {
            assert(d.push(e.item_id).drop_last() =~= d);
            assert(rest.push(e).drop_last() =~= rest);
        }
    }
}

/// Group sums are tally sums when the tallies fit.
proof fn lemma_groups_sum(ids: Seq<u128>, sales: Seq<Sale>, revenue: bool)
    requires
        forall|y: u128| tally(sales, y, measure_of(revenue)) <= u128::MAX,
    ensures
        groups_sum(ids.map_values(|x: u128| group_of(sales, x)), revenue) == tallies(
            ids,
            sales,
            measure_of(revenue),
        ),
    decreases ids.len(),
{
    if ids.len() > 0 {
        lemma_groups_sum(ids.drop_last(), sales, revenue);
        assert(ids.map_values(|x: u128| group_of(sales, x)).drop_last() =~= ids.drop_last().map_values(
            |x: u128| group_of(sales, x),
        ));
        let y = ids.last();
        assert(tally(sales, y, measure_of(revenue)) <= u128::MAX);
    }
}

/// Inserting a group adds its amount to the sum.
proof fn lemma_groups_sum_insert(s: Seq<Group>, p: int, g: Group, revenue: bool)
    requires
        0 <= p <= s.len(),
    ensures
        groups_sum(s.insert(p, g), revenue) == groups_sum(s, revenue) + group_amount(g, revenue),
    decreases s.len(),
{
    if p == s.len() {
        assert(s.insert(p, g).drop_last() =~= s);
    } else {
        lemma_groups_sum_insert(s.drop_last(), p, g, revenue);
        assert(s.insert(p, g).drop_last() =~= s.drop_last().insert(p, g));
        assert(s.insert(p, g).last() == s.last());
    }
}

/// Ordering by revenue keeps the sums.
proof fn lemma_by_revenue_sum(gs: Seq<Group>, revenue: bool)
    ensures
        groups_sum(by_revenue(gs), revenue) == groups_sum(gs, revenue),
    decreases gs.len(),
{
    if gs.len() > 0 {
        lemma_by_revenue_sum(gs.drop_last(), revenue);
        let s = by_revenue(gs.drop_last());
        lemma_insert_pos_bounds(s, gs.last().revenue);
        lemma_groups_sum_insert(s, insert_pos(s, gs.last().revenue), gs.last(), revenue);
    }
}

/// Rows carry their group's revenue and quantity.
proof fn lemma_rows_sum(gs: Seq<Group>, items: Seq<Item>, cats: Seq<Category>, revenue: bool)
    ensures
        rows_sum(gs.map_values(|g: Group| item_report(g, items, cats)), revenue) == groups_sum(gs, revenue),
    decreases gs.len(),
{
    if gs.len() > 0 {
        lemma_rows_sum(gs.drop_last(), items, cats, revenue);
        assert(gs.map_values(|g: Group| item_report(g, items, cats)).drop_last() =~= gs.drop_last().map_values(
            |g: Group| item_report(g, items, cats),
        ));
    }
}

/// The rows of a report add up to its summary: their revenues sum to the
/// total revenue of the window's sales, and their quantities to the total
/// number of items sold.
pub proof fn law_rows_add_up(sales: Seq<Sale>, items: Seq<Item>, cats: Seq<Category>)
    requires
        totals_fit(sales),
    ensures
        rows_sum(report_rows(sales, items, cats), true) == total(sales, Measure::Revenue),
        rows_sum(report_rows(sales, items, cats), false) == total(sales, Measure::Quantity),
{
    assert forall|revenue: bool| #[trigger] rows_sum(report_rows(sales, items, cats), revenue) == total(
        sales,
        measure_of(revenue),
    ) by {
        let m = measure_of(revenue);
        assert forall|y: u128| tally(sales, y, measure_of(revenue)) <= u128::MAX by {
            lemma_tally_bounds(sales, y, m);
        }
        let d = distinct_items(sales);
        lemma_groups_sum(d, sales, revenue);
        assert(groups_of(sales) =~= d.map_values(|x: u128| group_of(sales, x)));
        lemma_tallies_total(sales, m);
        lemma_by_revenue_sum(groups_of(sales), revenue);
        lemma_rows_sum(by_revenue(groups_of(sales)), items, cats, revenue);
    }
    assert(rows_sum(report_rows(sales, items, cats), true) == total(sales, measure_of(true)));
    assert(rows_sum(report_rows(sales, items, cats), false) == total(sales, measure_of(false)));
}

/// The position of the first row of greatest quantity.
pub open spec fn top_quantity_index(rows: Seq<ItemReportView>) -> int
    decreases rows.len(),
{
    if rows.len() <= 1 {
        0
    } else {
        let i = top_quantity_index(rows.drop_last());
        if rows.last().quantity_sold > rows[i].quantity_sold {
            rows.len() - 1
        } else {
            i
        }
    }
}

/// The views of report rows.
pub open spec fn row_views(v: Seq<ItemSalesReport>) -> Seq<ItemReportView> {
    v.map_values(|r: ItemSalesReport| r@)
}

/// The row of `g`.
fn make_row(g: Group, catalog: &Catalog) -> (r: ItemSalesReport)
    requires
        catalog.wf(),
    ensures
        r@ == item_report(g, catalog.items_view(), catalog.categories_view()),
{
    let item_name = match catalog.item_name(g.item_id) {
        Some(n) => n,
        None => String::new(),
    };
    let category_name = match catalog.item_category(g.item_id) {
        Some(c) => match catalog.category_name(c) {
            Some(n) => n,
            None => String::new(),
        },
        None => String::new(),
    };
    ItemSalesReport {
        item_id: g.item_id,
        item_name,
        category_name,
        quantity_sold: g.quantity,
        total_revenue: g.revenue,
        average_price: if g.lines > 0 {
            g.unit_sum / g.lines
        } else {
            0
        },
        transaction_count: g.txns,
    }
}

/// The position of the first row of greatest quantity.
fn top_quantity(rows: &Vec<ItemSalesReport>) -> (r: usize)
    requires
        rows@.len() > 0,
    ensures
        r == top_quantity_index(row_views(rows@)),
        r < rows@.len(),
{
    let mut best: usize = 0;
    let mut k: usize = 1;
    while k < rows.len()
        invariant
            1 <= k <= rows@.len(),
            best < k,
            best == top_quantity_index(row_views(rows@).take(k as int)),
        decreases rows@.len() - k,
    {
        proof {
            assert(row_views(rows@).take(k + 1).drop_last() =~= row_views(rows@).take(k as int));
        }
        if rows[k].quantity_sold > rows[best].quantity_sold {
            best = k;
        }
        k = k + 1;
    }
    assert(row_views(rows@).take(k as int) =~= row_views(rows@));
    best
}

/// The sums of quantity, revenue and unit price over all sales, or `None`
/// when one exceeds a `u128`.
fn sales_totals(sales: &Vec<Sale>) -> (r: Option<(u128, u128)>)
    ensures
        match r {
            Some((q, v)) => totals_fit(sales@) && q == total(sales@, Measure::Quantity) && v == total(
                sales@,
                Measure::Revenue,
            ),
            None => !totals_fit(sales@),
        },
{
    let mut q: u128 = 0;
    let mut v: u128 = 0;
    let mut u: u128 = 0;
    let mut k: usize = 0;
    while k < sales.len()
        invariant
            k <= sales@.len(),
            q == total(sales@.take(k as int), Measure::Quantity),
            v == total(sales@.take(k as int), Measure::Revenue),
            u == total(sales@.take(k as int), Measure::UnitPrice),
        decreases sales@.len() - k,
    {
        let s = sales[k];
        proof {
            assert(sales@.take(k + 1).drop_last() =~= sales@.take(k as int));
            lemma_total_prefix(sales@, k + 1, Measure::Quantity);
            lemma_total_prefix(sales@, k + 1, Measure::Revenue);
            lemma_total_prefix(sales@, k + 1, Measure::UnitPrice);
        }
        q = match q.checked_add(s.quantity as u128) {
            Some(x) => x,
            None => return None,
        };
        v = match v.checked_add(s.total_price as u128) {
            Some(x) => x,
            None => return None,
        };
        u = match u.checked_add(s.unit_price as u128) {
            Some(x) => x,
            None => return None,
        };
        k = k + 1;
    }
    assert(sales@.take(k as int) =~= sales@);
    Some((q, v))
}

/// Whether `rep` is the report of its window over the transactions `s`
/// and the catalog `items` and `cats`: one row per item sold, by
/// decreasing revenue, and the window's totals.
pub open spec fn describes(rep: SalesReport, s: Seq<TransactionView>, items: Seq<Item>, cats: Seq<Category>) -> bool {
    let sales = window_sales(s, rep.start_date, rep.end_date);
    let rows = report_rows(sales, items, cats);
    let count = window_count(s, rep.start_date, rep.end_date);
    let revenue = total(sales, Measure::Revenue);
    &&& totals_fit(sales)
    &&& row_views(rep.items@) == rows
    &&& rep.summary.total_revenue == revenue
    &&& rep.summary.total_items_sold == total(sales, Measure::Quantity)
    &&& rep.summary.total_transactions == count
    &&& rep.summary.average_transaction_value == if count > 0 {
        revenue / count
    } else {
        0
    }
    &&& name_view(rep.summary.top_revenue_item) == if rows.len() > 0 {
        Some(rows[0].item_name)
    } else {
        None
    }
    &&& name_view(rep.summary.top_selling_item) == if rows.len() > 0 {
        Some(rows[top_quantity_index(rows)].item_name)
    } else {
        None
    }
}

/// A sales report over the transactions closed within
/// `[start_date, end_date)`: one row per catalog item sold, by decreasing
/// revenue, and the window's totals.  `ValidationError` when the window is
/// empty or a total exceeds a `u128`.
pub fn generate_sales_report(store: &Store, catalog: &Catalog, start_date: i64, end_date: i64) -> (r: Result<
    SalesReport,
    EngineError,
>)
    requires
        catalog.wf(),
    ensures
        match r {
            Err(e) => e == EngineError::ValidationError && (end_date <= start_date || !totals_fit(
                window_sales(store@, start_date, end_date),
            )),
            Ok(rep) => rep.start_date == start_date && rep.end_date == end_date && start_date < end_date
                && describes(rep, store@, catalog.items_view(), catalog.categories_view()),
        },
{
    if end_date <= start_date {
        return Err(EngineError::ValidationError);
    }
    let (sales, count) = collect_sales(store, start_date, end_date);
    let (quantity, revenue) = match sales_totals(&sales) {
        Some(t) => t,
        None => return Err(EngineError::ValidationError),
    };
    let groups = aggregate(&sales);
    let ordered = sort_by_revenue(&groups);
    let ghost rows = report_rows(sales@, catalog.items_view(), catalog.categories_view());
    let mut items: Vec<ItemSalesReport> = Vec::new();
    let mut k: usize = 0;
    while k < ordered.len()
        invariant
            catalog.wf(),
            k <= ordered@.len(),
            ordered@ == by_revenue(groups_of(sales@)),
            rows == report_rows(sales@, catalog.items_view(), catalog.categories_view()),
            rows.len() == ordered@.len(),
            row_views(items@) =~= rows.take(k as int),
        decreases ordered@.len() - k,
    {
        let row = make_row(ordered[k], catalog);
        let ghost prev = row_views(items@);
        assert(row@ == rows[k as int]);
        items.push(row);
        assert(row_views(items@) =~= prev.push(row@));
        k = k + 1;
    }
    assert(row_views(items@) =~= rows);
    let average: u128 = if count > 0 {
        revenue / (count as u128)
    } else {
        0
    };
    let (top_selling_item, top_revenue_item) = if items.len() > 0 {
        let t = top_quantity(&items);
        (Some(items[t].item_name.clone()), Some(items[0].item_name.clone()))
    } else {
        (None, None)
    };
    Ok(
        SalesReport {
            start_date,
            end_date,
            items,
            summary: ReportSummary {
                total_revenue: revenue,
                total_items_sold: quantity,
                total_transactions: count,
                average_transaction_value: average,
                top_selling_item,
                top_revenue_item,
            },
        },
    )
}

/// Milliseconds in a day.
pub const DAY_MILLIS: i64 = 86_400_000;

/// Whether the report of the `days` days up to `end_date` fails: the
/// window's start is before the earliest representable time, or a total
/// over its sales exceeds a `u128`.
pub open spec fn days_report_fails(s: Seq<TransactionView>, end_date: i64, days: int) -> bool {
    end_date - days * DAY_MILLIS < i64::MIN || !totals_fit(
        window_sales(s, (end_date - days * DAY_MILLIS) as i64, end_date),
    )
}

/// The report of the `days` days up to `end_date`.
fn report_of_days(store: &Store, catalog: &Catalog, end_date: i64, days: i64) -> (r: Result<
    SalesReport,
    EngineError,
>)
    requires
        catalog.wf(),
        0 < days <= 366,
    ensures
        match r {
            Ok(rep) => !days_report_fails(store@, end_date, days as int) && rep.end_date == end_date
                && rep.start_date == end_date - days * DAY_MILLIS && describes(
                rep,
                store@,
                catalog.items_view(),
                catalog.categories_view(),
            ),
            Err(e) => days_report_fails(store@, end_date, days as int) && e
                == EngineError::ValidationError,
        },
{
    let span: i64 = days * DAY_MILLIS;
    match end_date.checked_sub(span) {
        Some(start_date) => generate_sales_report(store, catalog, start_date, end_date),
        None => Err(EngineError::ValidationError),
    }
}

/// The report of the day up to `now`, in milliseconds since the Unix
/// epoch.
pub fn get_daily_report(store: &Store, catalog: &Catalog, now: i64) -> (r: Result<SalesReport, EngineError>)
    requires
        catalog.wf(),
    ensures
        match r {
            Ok(rep) => !days_report_fails(store@, now, 1) && rep.end_date == now && rep.start_date
                == now - DAY_MILLIS && describes(rep, store@, catalog.items_view(), catalog.categories_view()),
            Err(e) => days_report_fails(store@, now, 1) && e == EngineError::ValidationError,
        },
{
    report_of_days(store, catalog, now, 1)
}

/// The report of the thirty days up to `now`, in milliseconds since the
/// Unix epoch.
pub fn get_monthly_report(store: &Store, catalog: &Catalog, now: i64) -> (r: Result<SalesReport, EngineError>)
    requires
        catalog.wf(),
    ensures
        match r {
            Ok(rep) => !days_report_fails(store@, now, 30) && rep.end_date == now && rep.start_date
                == now - 30 * DAY_MILLIS && describes(rep, store@, catalog.items_view(), catalog.categories_view()),
            Err(e) => days_report_fails(store@, now, 30) && e == EngineError::ValidationError,
        },
{
    report_of_days(store, catalog, now, 30)
}

} // verus!
