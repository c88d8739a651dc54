use vstd::prelude::*;
use crate::catalog::{Catalog, Item, ItemInfo, item_info_of, item_name_of};
use crate::receipt::{
    ReceiptCommand, ReceiptLine, ReceiptLineView, command_views, line_views, receipt_commands,
    receipt_layout, receipt_total,
};
use crate::model::{
    EngineError, Status, Transaction, TransactionItem, TransactionView, lines_total, line_wf,
    name_view, sum_lines, is_well_formed,
};

verus! {

/// Holds every transaction with its lines.  Each operation checks the state
/// and writes in one step, so a guard that passed cannot be invalidated
/// before the write it protects.
pub struct Store {
    transactions: Vec<Transaction>,
}

/// Whether `s` holds a transaction with identity `id`.
pub open spec fn has_txn(s: Seq<TransactionView>, id: u128) -> bool {
    exists|i: int| 0 <= i < s.len() && s[i].id == id
}

/// The position of the transaction with identity `id`.
pub open spec fn txn_index(s: Seq<TransactionView>, id: u128) -> int {
    choose|i: int| 0 <= i < s.len() && s[i].id == id
}

/// Identities are unique and every transaction satisfies its invariant.
#[verifier::opaque]
pub open spec fn store_wf(s: Seq<TransactionView>) -> bool {
    &&& forall|i: int, j: int|
        0 <= i < s.len() && 0 <= j < s.len() && i != j ==> #[trigger] s[i].id != #[trigger] s[j].id
    &&& forall|i: int| 0 <= i < s.len() ==> (#[trigger] s[i]).wf()
}

/// The guard shared by every mutation: the transaction exists and is open.
/// On success it gives the transaction's position.
pub open spec fn open_guard(s: Seq<TransactionView>, id: u128) -> Result<int, EngineError> {
    if !has_txn(s, id) {
        Err(EngineError::NotFound)
    } else if s[txn_index(s, id)].status != Status::Open {
        Err(EngineError::InvalidState)
    } else {
        Ok(txn_index(s, id))
    }
}

/// Whether some line of some transaction has identity `line_id`.
pub open spec fn line_id_used(s: Seq<TransactionView>, line_id: u128) -> bool {
    exists|i: int, j: int|
        0 <= i < s.len() && 0 <= j < s[i].items.len() && #[trigger] s[i].items[j].id == line_id
}

/// Whether `items` holds a line for catalog item `item_id`.
pub open spec fn has_line(items: Seq<TransactionItem>, item_id: u128) -> bool {
    exists|j: int| 0 <= j < items.len() && items[j].item_id == item_id
}

/// A new transaction: open, named `name`, with no lines and total zero.
pub open spec fn fresh_txn(id: u128, name: Option<Seq<char>>, now: i64) -> TransactionView {
    TransactionView {
        id,
        customer_name: name,
        status: Status::Open,
        total: 0,
        paid_amount: None,
        change_amount: None,
        created_at: now,
        updated_at: now,
        closed_at: None,
        items: Seq::empty(),
    }
}

/// `t` with `items` as its lines, the total recomputed from them and the
/// update time set to `now`.
pub open spec fn with_lines(t: TransactionView, items: Seq<TransactionItem>, now: i64) -> TransactionView {
    TransactionView { items, total: lines_total(items) as u64, updated_at: now, ..t }
}

/// Outcome of creating a transaction: a duplicate identity is refused by
/// the store.
pub open spec fn create_outcome(s: Seq<TransactionView>, id: u128, name: Option<Seq<char>>, now: i64)
    -> Result<Seq<TransactionView>, EngineError> {
    if has_txn(s, id) {
        Err(EngineError::StoreError)
    } else {
        Ok(s.push(fresh_txn(id, name, now)))
    }
}

/// Outcome of renaming a transaction.
pub open spec fn rename_outcome(s: Seq<TransactionView>, id: u128, name: Option<Seq<char>>, now: i64)
    -> Result<Seq<TransactionView>, EngineError> {
    match open_guard(s, id) {
        Err(e) => Err(e),
        Ok(i) => Ok(s.update(i, TransactionView { customer_name: name, updated_at: now, ..s[i] })),
    }
}

/// Outcome of cancelling a transaction: no payment field is touched.
pub open spec fn cancel_outcome(s: Seq<TransactionView>, id: u128, now: i64) -> Result<
    Seq<TransactionView>,
    EngineError,
> {
    match open_guard(s, id) {
        Err(e) => Err(e),
        Ok(i) => Ok(
            s.update(i, TransactionView { status: Status::Cancelled, updated_at: now, ..s[i] }),
        ),
    }
}

/// Outcome of closing a transaction with `paid` cents: the change is the
/// payment minus the total.
pub open spec fn close_outcome(s: Seq<TransactionView>, id: u128, paid: u64, now: i64) -> Result<
    (Seq<TransactionView>, u64),
    EngineError,
> {
    match open_guard(s, id) {
        Err(e) => Err(e),
        Ok(i) => if paid < s[i].total {
            Err(EngineError::InsufficientPayment)
        } else {
            let change = (paid - s[i].total) as u64;
            Ok(
                (
                    s.update(
                        i,
                        TransactionView {
                            status: Status::Closed,
                            paid_amount: Some(paid),
                            change_amount: Some(change),
                            closed_at: Some(now),
                            updated_at: now,
                            ..s[i]
                        },
                    ),
                    change,
                ),
            )
        },
    }
}

/// Each transaction of a well-formed store satisfies its invariant, and its
/// identity is found at its own position.
pub proof fn lemma_store_wf_at(s: Seq<TransactionView>, i: int)
    requires
        store_wf(s),
        0 <= i < s.len(),
    ensures
        s[i].wf(),
        has_txn(s, s[i].id),
        txn_index(s, s[i].id) == i,
{
    reveal(store_wf);
    assert(has_txn(s, s[i].id));
    let c = txn_index(s, s[i].id);
    assert(s[c].id == s[i].id);
}

/// Appending a well-formed transaction with a new identity keeps the store
/// well formed.
pub proof fn lemma_push_wf(s: Seq<TransactionView>, t: TransactionView)
    requires
        store_wf(s),
        t.wf(),
        !has_txn(s, t.id),
    ensures
        store_wf(s.push(t)),
{
    reveal(store_wf);
    let u = s.push(t);
    assert forall|a: int, b: int| 0 <= a < u.len() && 0 <= b < u.len() && a != b implies #[trigger] u[a].id
        != #[trigger] u[b].id by {
        if a == s.len() {
            assert(s[b].id == u[b].id);
        } else if b == s.len() {
            assert(s[a].id == u[a].id);
        }
    }
    assert forall|a: int| 0 <= a < u.len() implies (#[trigger] u[a]).wf() by {
        if a < s.len() {
            assert(u[a] == s[a]);
        }
    }
}

/// Replacing a transaction by a well-formed one with the same identity
/// keeps the store well formed.
pub proof fn lemma_update_wf(s: Seq<TransactionView>, i: int, t: TransactionView)
    requires
        store_wf(s),
        0 <= i < s.len(),
        t.wf(),
        t.id == s[i].id,
    ensures
        store_wf(s.update(i, t)),
{
    reveal(store_wf);
    let u = s.update(i, t);
    assert forall|a: int, b: int| 0 <= a < u.len() && 0 <= b < u.len() && a != b implies #[trigger] u[a].id
        != #[trigger] u[b].id by {
        assert(u[a].id == s[a].id && u[b].id == s[b].id);
    }
}

/// A line for `quantity` units of `item_id` at `price` cents each.
pub open spec fn new_line(line_id: u128, tid: u128, item_id: u128, quantity: i32, price: u64, now: i64)
    -> TransactionItem {
    TransactionItem {
        id: line_id,
        transaction_id: tid,
        item_id,
        quantity,
        unit_price: price,
        total_price: (price as int * quantity as int) as u64,
        created_at: now,
    }
}

/// Outcome of adding a line: the open guard, then the catalog lookup and
/// stock check, then the quantity and amount checks, then the store's
/// identity check.  The total is recomputed from the lines.
pub open spec fn add_item_outcome(
    s: Seq<TransactionView>,
    info: Option<ItemInfo>,
    tid: u128,
    item_id: u128,
    quantity: i32,
    line_id: u128,
    now: i64,
) -> Result<(Seq<TransactionView>, TransactionItem), EngineError> {
    match open_guard(s, tid) {
        Err(e) => Err(e),
        Ok(i) => match info {
            None => Err(EngineError::NotFound),
            Some(it) => if !it.in_stock {
                Err(EngineError::Unavailable)
            } else if quantity <= 0 || s[i].total + it.price * quantity > u64::MAX {
                Err(EngineError::ValidationError)
            } else if line_id_used(s, line_id) {
                Err(EngineError::StoreError)
            } else {
                let line = new_line(line_id, tid, item_id, quantity, it.price, now);
                Ok((s.update(i, with_lines(s[i], s[i].items.push(line), now)), line))
            },
        },
    }
}

/// `items` with every line of `item_id` set to `quantity` units at `price`
/// cents; each line keeps its identity and creation time.
#[verifier::opaque]
pub open spec fn requantify(items: Seq<TransactionItem>, item_id: u128, quantity: i32, price: u64)
    -> Seq<TransactionItem> {
    items.map_values(
        |l: TransactionItem|
            if l.item_id == item_id {
                TransactionItem {
                    quantity,
                    unit_price: price,
                    total_price: (price as int * quantity as int) as u64,
                    ..l
                }
            } else {
                l
            },
    )
}

/// The position of the first line of `item_id`.
pub open spec fn first_line(items: Seq<TransactionItem>, item_id: u128) -> int {
    choose|j: int|
        0 <= j < items.len() && items[j].item_id == item_id && forall|k: int|
            0 <= k < j ==> items[k].item_id != item_id
}

/// Outcome of changing the quantity of an item's lines; the unit price is
/// taken afresh from the catalog.  The first changed line is returned.
pub open spec fn update_item_outcome(
    s: Seq<TransactionView>,
    info: Option<ItemInfo>,
    tid: u128,
    item_id: u128,
    quantity: i32,
    now: i64,
) -> Result<(Seq<TransactionView>, TransactionItem), EngineError> {
    match open_guard(s, tid) {
        Err(e) => Err(e),
        Ok(i) => match info {
            None => Err(EngineError::NotFound),
            Some(it) => if !it.in_stock {
                Err(EngineError::Unavailable)
            } else if !has_line(s[i].items, item_id) {
                Err(EngineError::NotFound)
            } else {
                let items = requantify(s[i].items, item_id, quantity, it.price);
                if quantity <= 0 || it.price * quantity > u64::MAX || lines_total(items)
                    > u64::MAX {
                    Err(EngineError::ValidationError)
                } else {
                    Ok(
                        (
                            s.update(i, with_lines(s[i], items, now)),
                            items[first_line(s[i].items, item_id)],
                        ),
                    )
                }
            },
        },
    }
}

/// `items` without the lines of `item_id`, in their order.
pub open spec fn without_item(items: Seq<TransactionItem>, item_id: u128) -> Seq<TransactionItem>
    decreases items.len(),
{
    if items.len() == 0 {
        items
    } else if items.last().item_id == item_id {
        without_item(items.drop_last(), item_id)
    } else {
        without_item(items.drop_last(), item_id).push(items.last())
    }
}

/// Outcome of removing an item's lines.
pub open spec fn remove_item_outcome(s: Seq<TransactionView>, tid: u128, item_id: u128, now: i64)
    -> Result<Seq<TransactionView>, EngineError> {
    match open_guard(s, tid) {
        Err(e) => Err(e),
        Ok(i) => if !has_line(s[i].items, item_id) {
            Err(EngineError::NotFound)
        } else {
            Ok(s.update(i, with_lines(s[i], without_item(s[i].items, item_id), now)))
        },
    }
}

/// Outcome of recomputing an open transaction's total from its lines.
pub open spec fn recompute_outcome(s: Seq<TransactionView>, tid: u128, now: i64) -> Result<
    Seq<TransactionView>,
    EngineError,
> {
    match open_guard(s, tid) {
        Err(e) => Err(e),
        Ok(i) => Ok(s.update(i, with_lines(s[i], s[i].items, now))),
    }
}

/// Removing lines keeps each remaining line and never raises the sum.
pub proof fn lemma_without_item(items: Seq<TransactionItem>, item_id: u128)
    ensures
        lines_total(without_item(items, item_id)) <= lines_total(items),
        forall|j: int|
            0 <= j < without_item(items, item_id).len() ==> items.contains(
                #[trigger] without_item(items, item_id)[j],
            ) && without_item(items, item_id)[j].item_id != item_id,
        !has_line(without_item(items, item_id), item_id),
    decreases items.len(),
{
    if items.len() > 0 {
        let rest = items.drop_last();
        lemma_without_item(rest, item_id);
        let w = without_item(items, item_id);
        let wr = without_item(rest, item_id);
        if items.last().item_id != item_id {
            assert(w.drop_last() =~= wr);
            assert forall|j: int| 0 <= j < w.len() implies items.contains(#[trigger] w[j])
                && w[j].item_id != item_id by {
                if j < wr.len() {
                    assert(rest.contains(wr[j]));
                    let k = choose|k: int| 0 <= k < rest.len() && rest[k] == wr[j];
                    assert(items[k] == wr[j]);
                } else {
                    assert(items[items.len() - 1] == w[j]);
                }
            }
        } else {
            assert forall|j: int| 0 <= j < w.len() implies items.contains(#[trigger] w[j])
                && w[j].item_id != item_id by {
                assert(rest.contains(wr[j]));
                let k = choose|k: int| 0 <= k < rest.len() && rest[k] == wr[j];
                assert(items[k] == wr[j]);
            }
        }
        assert(!has_line(w, item_id)) by {
            if has_line(w, item_id) {
                let j = choose|j: int| 0 <= j < w.len() && w[j].item_id == item_id;
                assert(w[j].item_id != item_id);
            }
        }
    }
}

/// Every line of `item_id` set to `quantity` units at `price` cents, where
/// `line_total` is their product.
fn requantified(
    items: &Vec<TransactionItem>,
    item_id: u128,
    quantity: i32,
    price: u64,
    line_total: u64,
) -> (r: Vec<TransactionItem>)
    requires
        line_total as int == price as int * quantity as int,
    ensures
        r@ == requantify(items@, item_id, quantity, price),
        r@.len() == items@.len(),
{
    reveal(requantify);
    let ghost target = requantify(items@, item_id, quantity, price);
    let mut nitems: Vec<TransactionItem> = Vec::new();
    let mut k: usize = 0;
    while k < items.len()
        invariant
            target == requantify(items@, item_id, quantity, price),
            line_total as int == price as int * quantity as int,
            k <= items@.len(),
            nitems@ =~= target.take(k as int),
        decreases items@.len() - k,
    {
        proof {
            reveal(requantify);
        }
        let l = items[k];
        if l.item_id == item_id {
            nitems.push(
                TransactionItem {
                    quantity,
                    unit_price: price,
                    total_price: line_total,
                    ..l
                },
            );
        } else {
            nitems.push(l);
        }
        k = k + 1;
    }
    proof {
        reveal(requantify);
    }
    assert(nitems@ =~= target);
    nitems
}

/// The lines of `items` with every line of `item_id` requantified, when
/// the quantity is positive and every amount fits; `ValidationError`
/// otherwise.
fn requantify_checked(items: &Vec<TransactionItem>, item_id: u128, quantity: i32, price: u64)
    -> (r: Result<Vec<TransactionItem>, EngineError>)
    ensures
        match r {
            Ok(v) => v@ == requantify(items@, item_id, quantity, price) && quantity > 0
                && price * quantity <= u64::MAX && lines_total(v@) <= u64::MAX,
            Err(e) => e == EngineError::ValidationError && (quantity <= 0 || price * quantity
                > u64::MAX || lines_total(requantify(items@, item_id, quantity, price))
                > u64::MAX),
        },
{
    if quantity <= 0 {
        return Err(EngineError::ValidationError);
    }
    let line_total = match price.checked_mul(quantity as u64) {
        Some(v) => v,
        None => return Err(EngineError::ValidationError),
    };
    let nitems = requantified(items, item_id, quantity, price, line_total);
    match sum_lines(&nitems) {
        Some(_) => Ok(nitems),
        None => Err(EngineError::ValidationError),
    }
}

/// `items` without the lines of `item_id`.
fn without(items: &Vec<TransactionItem>, item_id: u128) -> (r: Vec<TransactionItem>)
    ensures
        r@ == without_item(items@, item_id),
{
    let mut nitems: Vec<TransactionItem> = Vec::new();
    let mut k: usize = 0;
    while k < items.len()
        invariant
            k <= items@.len(),
            nitems@ == without_item(items@.take(k as int), item_id),
        decreases items@.len() - k,
    {
        let l = items[k];
        proof {
            assert(items@.take(k as int + 1).drop_last() =~= items@.take(k as int));
        }
        if l.item_id != item_id {
            nitems.push(l);
        }
        k = k + 1;
    }
    assert(items@.take(k as int) =~= items@);
    nitems
}

/// Requantified lines of a positive quantity stay well formed.
pub proof fn lemma_requantify_wf(
    items: Seq<TransactionItem>,
    tid: u128,
    item_id: u128,
    quantity: i32,
    price: u64,
)
    requires
        forall|j: int| 0 <= j < items.len() ==> line_wf(#[trigger] items[j], tid),
        quantity > 0,
        price as int * quantity as int <= u64::MAX,
    ensures
        requantify(items, item_id, quantity, price).len() == items.len(),
        forall|j: int|
            0 <= j < items.len() ==> line_wf(
                #[trigger] requantify(items, item_id, quantity, price)[j],
                tid,
            ),
{
    reveal(requantify);
    assert forall|j: int| 0 <= j < items.len() implies line_wf(
        #[trigger] requantify(items, item_id, quantity, price)[j],
        tid,
    ) by {
        assert(line_wf(items[j], tid));
    }
}

/// The lines left after a removal stay well formed.
pub proof fn lemma_without_item_wf(items: Seq<TransactionItem>, tid: u128, item_id: u128)
    requires
        forall|j: int| 0 <= j < items.len() ==> line_wf(#[trigger] items[j], tid),
    ensures
        forall|j: int|
            0 <= j < without_item(items, item_id).len() ==> line_wf(
                #[trigger] without_item(items, item_id)[j],
                tid,
            ),
{
    lemma_without_item(items, item_id);
    let w = without_item(items, item_id);
    assert forall|j: int| 0 <= j < w.len() implies line_wf(#[trigger] w[j], tid) by {
        assert(items.contains(w[j]));
        let k = choose|k: int| 0 <= k < items.len() && items[k] == w[j];
        assert(line_wf(items[k], tid));
    }
}

/// The views of a sequence of transactions.
pub open spec fn views(v: Seq<Transaction>) -> Seq<TransactionView> {
    v.map_values(|t: Transaction| t@)
}

/// The transactions of `s`, most recently created first; only the open ones
/// when `open_only` holds.
pub open spec fn newest_first(s: Seq<TransactionView>, open_only: bool) -> Seq<TransactionView>
    decreases s.len(),
{
    if s.len() == 0 {
        Seq::empty()
    } else {
        let rest = newest_first(s.drop_last(), open_only);
        if !open_only || s.last().status == Status::Open {
            seq![s.last()] + rest
        } else {
            rest
        }
    }
}

/// A line together with the name of its catalog item.
#[derive(Debug)]
pub struct TransactionItemDetail {
    pub id: u128,
    pub item_id: u128,
    pub item_name: String,
    pub quantity: i32,
    pub unit_price: u64,
    pub total_price: u64,
}

/// The mathematical value of a [`TransactionItemDetail`].
pub struct DetailView {
    pub id: u128,
    pub item_id: u128,
    pub item_name: Seq<char>,
    pub quantity: i32,
    pub unit_price: u64,
    pub total_price: u64,
}

impl View for TransactionItemDetail {
    type V = DetailView;

    open spec fn view(&self) -> DetailView {
        DetailView {
            id: self.id,
            item_id: self.item_id,
            item_name: self.item_name@,
            quantity: self.quantity,
            unit_price: self.unit_price,
            total_price: self.total_price,
        }
    }
}

/// A transaction with its lines named from the catalog.
#[derive(Debug)]
pub struct TransactionDetails {
    pub transaction: Transaction,
    pub items: Vec<TransactionItemDetail>,
}

/// The views of a sequence of details.
pub open spec fn detail_views(v: Seq<TransactionItemDetail>) -> Seq<DetailView> {
    v.map_values(|d: TransactionItemDetail| d@)
}

/// The lines whose item the catalog holds, in order, each with that item's
/// name; a line whose item is no longer in the catalog is left out.
pub open spec fn detail_lines(items: Seq<TransactionItem>, cat: Seq<Item>) -> Seq<DetailView>
    decreases items.len(),
{
    if items.len() == 0 {
        Seq::empty()
    } else {
        let rest = detail_lines(items.drop_last(), cat);
        let l = items.last();
        match item_name_of(cat, l.item_id) {
            Some(n) => rest.push(
                DetailView {
                    id: l.id,
                    item_id: l.item_id,
                    item_name: n,
                    quantity: l.quantity,
                    unit_price: l.unit_price,
                    total_price: l.total_price,
                },
            ),
            None => rest,
        }
    }
}

/// The receipt lines of named lines.
pub open spec fn receipt_lines(d: Seq<DetailView>) -> Seq<ReceiptLineView> {
    d.map_values(
        |x: DetailView|
            ReceiptLineView { name: x.item_name, quantity: x.quantity as u32, unit_price: x.unit_price },
    )
}

/// The receipt of a closed transaction: its named lines, the amount paid
/// and the change.
pub open spec fn receipt_of(t: TransactionView, cat: Seq<Item>) -> Seq<crate::receipt::CommandView> {
    receipt_layout(
        receipt_lines(detail_lines(t.items, cat)),
        t.paid_amount.unwrap() as nat,
        t.change_amount.unwrap() as nat,
    )
}

/// Named well-formed lines never total more than the lines themselves.
pub proof fn lemma_receipt_total_bounded(items: Seq<TransactionItem>, tid: u128, cat: Seq<Item>)
    requires
        forall|j: int| 0 <= j < items.len() ==> line_wf(#[trigger] items[j], tid),
    ensures
        receipt_total(receipt_lines(detail_lines(items, cat))) <= lines_total(items),
    decreases items.len(),
{
    if items.len() > 0 {
        let rest = items.drop_last();
        assert forall|j: int| 0 <= j < rest.len() implies line_wf(#[trigger] rest[j], tid) by {
            assert(rest[j] == items[j]);
        }
        lemma_receipt_total_bounded(rest, tid, cat);
        let l = items.last();
        assert(line_wf(items[items.len() - 1], tid));
        let rl = receipt_lines(detail_lines(items, cat));
        let rr = receipt_lines(detail_lines(rest, cat));
        if item_name_of(cat, l.item_id) is Some {
            assert(rl.drop_last() =~= rr);
            assert(rl.last().quantity as int == l.quantity as int);
            assert(rl.last().unit_price == l.unit_price);
            vstd::arithmetic::mul::lemma_mul_is_commutative(l.quantity as int, l.unit_price as int);
        } else {
            assert(rl =~= rr);
        }
    }
}

/// The result of a successful close: the settled transaction and the change
/// owed to the customer, in cents.
#[derive(Debug)]
pub struct Settlement {
    pub transaction: Transaction,
    pub change_amount: u64,
}

impl View for Store {
    type V = Seq<TransactionView>;

    closed spec fn view(&self) -> Seq<TransactionView> {
        self.transactions@.map_values(|t: Transaction| t@)
    }
}

impl Store {
    /// The store invariant.
    pub open spec fn wf(&self) -> bool {
        store_wf(self@)
    }

    /// An empty store.
    pub fn new() -> (r: Store)
        ensures
            r.wf(),
            r@.len() == 0,
    {
        let r = Store { transactions: Vec::new() };
        assert(r@ =~= Seq::<TransactionView>::empty());
        assert(store_wf(r@)) by {
            reveal(store_wf);
        }
        r
    }

    /// A store holding `records`, in that order, when they satisfy the
    /// store invariant; `ValidationError` otherwise.
    pub fn restore(records: Vec<Transaction>) -> (r: Result<Store, EngineError>)
        ensures
            match r {
                Ok(s) => s.wf() && s@ == views(records@),
                Err(e) => e == EngineError::ValidationError && !store_wf(views(records@)),
            },
    {
        let ghost v = views(records@);
        let mut i: usize = 0;
        while i < records.len()
            invariant
                v == views(records@),
                i <= records@.len(),
                forall|a: int| 0 <= a < i ==> (#[trigger] v[a]).wf(),
                forall|a: int, b: int| 0 <= a < i && 0 <= b < records@.len() && a != b ==> #[trigger] v[a].id
                    != #[trigger] v[b].id,
            decreases records@.len() - i,
        {
            if !is_well_formed(&records[i]) {
                proof {
                    reveal(store_wf);
                    assert(!v[i as int].wf());
                }
                return Err(EngineError::ValidationError);
            }
            let mut j: usize = 0;
            while j < records.len()
                invariant
                    v == views(records@),
                    i < records@.len(),
                    j <= records@.len(),
                    forall|b: int| 0 <= b < j && b != i ==> v[i as int].id != #[trigger] v[b].id,
                decreases records@.len() - j,
            {
                if j != i && records[j].id == records[i].id {
                    proof {
                        reveal(store_wf);
                        assert(v[i as int].id == v[j as int].id);
                    }
                    return Err(EngineError::ValidationError);
                }
                j = j + 1;
            }
            proof {
                assert forall|a: int, b: int| 0 <= a < i + 1 && 0 <= b < records@.len() && a != b implies #[trigger] v[a].id
                    != #[trigger] v[b].id by {
                    if a == i {
                        assert(v[i as int].id != v[b].id);
                    }
                }
            }
            i = i + 1;
        }
        let s = Store { transactions: records };
        proof {
            assert(s@ =~= v);
            reveal(store_wf);
        }
        Ok(s)
    }

    /// Copies of every transaction, in creation order.
    pub fn export(&self) -> (r: Vec<Transaction>)
        ensures
            views(r@) == self@,
    {
        let mut r: Vec<Transaction> = Vec::new();
        let mut k: usize = 0;
        while k < self.transactions.len()
            invariant
                k <= self.transactions@.len(),
                views(r@) =~= self@.take(k as int),
            decreases self.transactions@.len() - k,
        {
            let c = self.transactions[k].snapshot();
            let ghost prev = views(r@);
            r.push(c);
            assert(views(r@) =~= prev.push(c@));
            k = k + 1;
        }
        assert(self@.take(k as int) =~= self@);
        r
    }

    /// The position of the transaction with identity `id`.
    fn find(&self, id: u128) -> (r: Option<usize>)
        requires
            self.wf(),
        ensures
            match r {
                Some(i) => i < self@.len() && self@[i as int].id == id && txn_index(self@, id) == i,
                None => !has_txn(self@, id),
            },
    {
        let mut k: usize = 0;
        while k < self.transactions.len()
            invariant
                self.wf(),
                k <= self@.len(),
                self@.len() == self.transactions@.len(),
                forall|j: int| 0 <= j < k ==> self@[j].id != id,
            decreases self.transactions@.len() - k,
        {
            if self.transactions[k].id == id {
                proof {
                    lemma_store_wf_at(self@, k as int);
                }
                return Some(k);
            }
            k = k + 1;
        }
        None
    }

    /// The open guard as an executable check.
    fn guard_open(&self, id: u128) -> (r: Result<usize, EngineError>)
        requires
            self.wf(),
        ensures
            match r {
                Ok(i) => open_guard(self@, id) == Ok::<int, EngineError>(i as int) && i < self@.len(),
                Err(e) => open_guard(self@, id) == Err::<int, EngineError>(e),
            },
    {
        match self.find(id) {
            None => Err(EngineError::NotFound),
            Some(i) => if self.transactions[i].status != Status::Open {
                Err(EngineError::InvalidState)
            } else {
                Ok(i)
            },
        }
    }

    /// Creates an open transaction with identity `id`; fails with
    /// `StoreError` when that identity is taken.
    pub fn create_transaction(&mut self, id: u128, customer_name: Option<String>, now: i64) -> (r:
        Result<Transaction, EngineError>)
        requires
            old(self).wf(),
        ensures
            final(self).wf(),
            match create_outcome(old(self)@, id, name_view(customer_name), now) {
                Ok(s) => final(self)@ == s && r is Ok && r->Ok_0@ == s.last(),
                Err(e) => final(self)@ == old(self)@ && r == Err::<Transaction, EngineError>(e),
            },
    {
        if self.find(id).is_some() {
            return Err(EngineError::StoreError);
        }
        let t = Transaction {
            id,
            customer_name,
            status: Status::Open,
            total: 0,
            paid_amount: None,
            change_amount: None,
            created_at: now,
            updated_at: now,
            closed_at: None,
            items: Vec::new(),
        };
        let r = t.snapshot();
        self.transactions.push(t);
        proof {
            assert(self@ =~= old(self)@.push(r@));
            assert(r@.items =~= Seq::<TransactionItem>::empty());
            assert(r@ == fresh_txn(id, name_view(customer_name), now));
            lemma_push_wf(old(self)@, r@);
        }
        Ok(r)
    }

    /// Sets the customer name of an open transaction.
    pub fn update_transaction(&mut self, id: u128, customer_name: Option<String>, now: i64) -> (r:
        Result<Transaction, EngineError>)
        requires
            old(self).wf(),
        ensures
            final(self).wf(),
            match rename_outcome(old(self)@, id, name_view(customer_name), now) {
                Ok(s) => final(self)@ == s && r is Ok && r->Ok_0@ == s[txn_index(s, id)],
                Err(e) => final(self)@ == old(self)@ && r == Err::<Transaction, EngineError>(e),
            },
    {
        let i = match self.guard_open(id) {
            Ok(i) => i,
            Err(e) => return Err(e),
        };
        proof {
            lemma_store_wf_at(self@, i as int);
        }
        let t = self.transactions.remove(i);
        let nt = Transaction { customer_name, updated_at: now, ..t };
        let r = nt.snapshot();
        self.transactions.insert(i, nt);
        proof {
            assert(self@ =~= old(self)@.update(i as int, r@));
            lemma_update_wf(old(self)@, i as int, r@);
            self.lemma_index_kept(old(self)@, i as int, id);
        }
        Ok(r)
    }

    /// Cancels an open transaction; payment fields stay unset.
    pub fn cancel_transaction(&mut self, id: u128, now: i64) -> (r: Result<Transaction, EngineError>)
        requires
            old(self).wf(),
        ensures
            final(self).wf(),
            match cancel_outcome(old(self)@, id, now) {
                Ok(s) => final(self)@ == s && r is Ok && r->Ok_0@ == s[txn_index(s, id)],
                Err(e) => final(self)@ == old(self)@ && r == Err::<Transaction, EngineError>(e),
            },
    {
        let i = match self.guard_open(id) {
            Ok(i) => i,
            Err(e) => return Err(e),
        };
        proof {
            lemma_store_wf_at(self@, i as int);
        }
        let t = self.transactions.remove(i);
        let nt = Transaction { status: Status::Cancelled, updated_at: now, ..t };
        let r = nt.snapshot();
        self.transactions.insert(i, nt);
        proof {
            assert(self@ =~= old(self)@.update(i as int, r@));
            lemma_update_wf(old(self)@, i as int, r@);
            self.lemma_index_kept(old(self)@, i as int, id);
        }
        Ok(r)
    }

    /// Settles an open transaction: fails with `InsufficientPayment` when
    /// `paid_amount` is below the total, otherwise records the payment, the
    /// change and the closing time in one write.
    pub fn close_transaction(&mut self, id: u128, paid_amount: u64, now: i64) -> (r: Result<
        Settlement,
        EngineError,
    >)
        requires
            old(self).wf(),
        ensures
            final(self).wf(),
            match close_outcome(old(self)@, id, paid_amount, now) {
                Ok((s, change)) => final(self)@ == s && r is Ok && r->Ok_0.transaction@ == s[txn_index(
                    s,
                    id,
                )] && r->Ok_0.change_amount == change,
                Err(e) => final(self)@ == old(self)@ && r is Err && r->Err_0 == e,
            },
    {
        let i = match self.guard_open(id) {
            Ok(i) => i,
            Err(e) => return Err(e),
        };
        proof {
            lemma_store_wf_at(self@, i as int);
        }
        if paid_amount < self.transactions[i].total {
            return Err(EngineError::InsufficientPayment);
        }
        let t = self.transactions.remove(i);
        let change = paid_amount - t.total;
        let nt = Transaction {
            status: Status::Closed,
            paid_amount: Some(paid_amount),
            change_amount: Some(change),
            closed_at: Some(now),
            updated_at: now,
            ..t
        };
        let r = nt.snapshot();
        self.transactions.insert(i, nt);
        proof {
            assert(self@ =~= old(self)@.update(i as int, r@));
            lemma_update_wf(old(self)@, i as int, r@);
            self.lemma_index_kept(old(self)@, i as int, id);
        }
        Ok(Settlement { transaction: r, change_amount: change })
    }

    /// Whether some line of some transaction has identity `line_id`.
    fn line_id_taken(&self, line_id: u128) -> (r: bool)
        ensures
            r == line_id_used(self@, line_id),
    {
        let mut i: usize = 0;
        while i < self.transactions.len()
            invariant
                i <= self@.len(),
                self@.len() == self.transactions@.len(),
                forall|a: int, b: int|
                    0 <= a < i && 0 <= b < self@[a].items.len() ==> #[trigger] self@[a].items[b].id
                        != line_id,
            decreases self.transactions@.len() - i,
        {
            let items = &self.transactions[i].items;
            let mut j: usize = 0;
            while j < items.len()
                invariant
                    i < self@.len(),
                    items@ == self@[i as int].items,
                    j <= items@.len(),
                    forall|b: int| 0 <= b < j ==> #[trigger] items@[b].id != line_id,
                decreases items@.len() - j,
            {
                if items[j].id == line_id {
                    assert(self@[i as int].items[j as int].id == line_id);
                    return true;
                }
                j = j + 1;
            }
            i = i + 1;
        }
        false
    }

    /// Adds a line for `quantity` units of catalog item `item_id` to an open
    /// transaction, at the item's current price, and recomputes the total.
    pub fn add_transaction_item(
        &mut self,
        catalog: &Catalog,
        transaction_id: u128,
        item_id: u128,
        quantity: i32,
        line_id: u128,
        now: i64,
    ) -> (r: Result<TransactionItem, EngineError>)
        requires
            old(self).wf(),
            catalog.wf(),
        ensures
            final(self).wf(),
            match add_item_outcome(
                old(self)@,
                item_info_of(catalog.items_view(), item_id),
                transaction_id,
                item_id,
                quantity,
                line_id,
                now,
            ) {
                Ok((s, line)) => final(self)@ == s && r == Ok::<TransactionItem, EngineError>(line),
                Err(e) => final(self)@ == old(self)@ && r == Err::<TransactionItem, EngineError>(e),
            },
    {
        let i = match self.guard_open(transaction_id) {
            Ok(i) => i,
            Err(e) => return Err(e),
        };
        proof {
            lemma_store_wf_at(self@, i as int);
        }
        let info = match catalog.item_info(item_id) {
            Some(info) => info,
            None => return Err(EngineError::NotFound),
        };
        if !info.in_stock {
            return Err(EngineError::Unavailable);
        }
        if quantity <= 0 {
            return Err(EngineError::ValidationError);
        }
        let line_total = match info.price.checked_mul(quantity as u64) {
            Some(v) => v,
            None => return Err(EngineError::ValidationError),
        };
        if self.transactions[i].total > u64::MAX - line_total {
            return Err(EngineError::ValidationError);
        }
        if self.line_id_taken(line_id) {
            return Err(EngineError::StoreError);
        }
        let line = TransactionItem {
            id: line_id,
            transaction_id,
            item_id,
            quantity,
            unit_price: info.price,
            total_price: line_total,
            created_at: now,
        };
        let mut t = self.transactions.remove(i);
        let ghost old_items = t.items@;
        t.items.push(line);
        proof {
            assert(t.items@.drop_last() =~= old_items);
        }
        t.total = sum_lines(&t.items).unwrap();
        t.updated_at = now;
        let ghost tv = t@;
        self.transactions.insert(i, t);
        proof {
            assert(self@ =~= old(self)@.update(i as int, tv));
            assert(tv == with_lines(old(self)@[i as int], old_items.push(line), now));
            assert forall|j: int| 0 <= j < tv.items.len() implies line_wf(#[trigger] tv.items[j], tv.id) by {
                if j < old_items.len() {
                    assert(tv.items[j] == old_items[j]);
                }
            }
            lemma_update_wf(old(self)@, i as int, tv);
        }
        Ok(line)
    }

    /// The position of the first line of `item_id` in `items`.
    fn first_line_of(items: &Vec<TransactionItem>, item_id: u128) -> (r: Option<usize>)
        ensures
            match r {
                Some(k) => k < items@.len() && has_line(items@, item_id) && first_line(items@, item_id)
                    == k,
                None => !has_line(items@, item_id),
            },
    {
        let mut k: usize = 0;
        while k < items.len()
            invariant
                k <= items@.len(),
                forall|j: int| 0 <= j < k ==> items@[j].item_id != item_id,
            decreases items@.len() - k,
        {
            if items[k].item_id == item_id {
                proof {
                    assert(has_line(items@, item_id));
                    let ki = k as int;
                    assert(0 <= ki < items@.len() && items@[ki].item_id == item_id && forall|j: int|
                        0 <= j < ki ==> items@[j].item_id != item_id);
                    let c = first_line(items@, item_id);
                    if c < ki {
                        assert(items@[c].item_id != item_id);
                    }
                    if ki < c {
                        assert(items@[ki].item_id != item_id);
                    }
                }
                return Some(k);
            }
            k = k + 1;
        }
        None
    }

    /// Sets every line of `item_id` on an open transaction to `quantity`
    /// units at the item's current price, and recomputes the total.
    pub fn update_transaction_item(
        &mut self,
        catalog: &Catalog,
        transaction_id: u128,
        item_id: u128,
        quantity: i32,
        now: i64,
    ) -> (r: Result<TransactionItem, EngineError>)
        requires
            old(self).wf(),
            catalog.wf(),
        ensures
            final(self).wf(),
            match update_item_outcome(
                old(self)@,
                item_info_of(catalog.items_view(), item_id),
                transaction_id,
                item_id,
                quantity,
                now,
            ) {
                Ok((s, line)) => final(self)@ == s && r == Ok::<TransactionItem, EngineError>(line),
                Err(e) => final(self)@ == old(self)@ && r == Err::<TransactionItem, EngineError>(e),
            },
    {
        let i = match self.guard_open(transaction_id) {
            Ok(i) => i,
            Err(e) => return Err(e),
        };
        proof {
            lemma_store_wf_at(self@, i as int);
        }
        let info = match catalog.item_info(item_id) {
            Some(info) => info,
            None => return Err(EngineError::NotFound),
        };
        if !info.in_stock {
            return Err(EngineError::Unavailable);
        }
        let first = match Self::first_line_of(&self.transactions[i].items, item_id) {
            Some(k) => k,
            None => return Err(EngineError::NotFound),
        };
        let ghost old_items = self@[i as int].items;
        let ghost target = requantify(old_items, item_id, quantity, info.price);
        let nitems = match requantify_checked(&self.transactions[i].items, item_id, quantity, info.price) {
            Ok(v) => v,
            Err(e) => return Err(e),
        };
        proof {
            lemma_requantify_wf(old_items, transaction_id, item_id, quantity, info.price);
        }
        let total = sum_lines(&nitems).unwrap();
        let line = nitems[first];
        let mut t = self.transactions.remove(i);
        t.items = nitems;
        t.total = total;
        t.updated_at = now;
        let ghost tv = t@;
        self.transactions.insert(i, t);
        proof {
            assert(self@ =~= old(self)@.update(i as int, tv));
            assert(tv == with_lines(old(self)@[i as int], target, now));
            assert(tv.items.len() == old_items.len());
            lemma_update_wf(old(self)@, i as int, tv);
        }
        Ok(line)
    }

    /// Removes every line of `item_id` from an open transaction and
    /// recomputes the total.
    #[verifier::rlimit(40)]
    pub fn remove_transaction_item(&mut self, transaction_id: u128, item_id: u128, now: i64) -> (r:
        Result<Transaction, EngineError>)
        requires
            old(self).wf(),
        ensures
            final(self).wf(),
            match remove_item_outcome(old(self)@, transaction_id, item_id, now) {
                Ok(s) => final(self)@ == s && r is Ok && r->Ok_0@ == s[txn_index(s, transaction_id)],
                Err(e) => final(self)@ == old(self)@ && r == Err::<Transaction, EngineError>(e),
            },
    {
        let i = match self.guard_open(transaction_id) {
            Ok(i) => i,
            Err(e) => return Err(e),
        };
        proof {
            lemma_store_wf_at(self@, i as int);
        }
        if Self::first_line_of(&self.transactions[i].items, item_id).is_none() {
            return Err(EngineError::NotFound);
        }
        let ghost old_items = self@[i as int].items;
        let nitems = without(&self.transactions[i].items, item_id);
        proof {
            lemma_without_item(old_items, item_id);
        }
        let mut t = self.transactions.remove(i);
        t.items = nitems;
        t.total = sum_lines(&t.items).unwrap();
        t.updated_at = now;
        let r = t.snapshot();
        self.transactions.insert(i, t);
        proof {
            assert(self@ =~= old(self)@.update(i as int, r@));
            lemma_without_item_wf(old_items, r@.id, item_id);
            lemma_update_wf(old(self)@, i as int, r@);
            self.lemma_index_kept(old(self)@, i as int, transaction_id);
        }
        Ok(r)
    }

    /// Recomputes an open transaction's total from its lines.
    pub fn update_transaction_total(&mut self, transaction_id: u128, now: i64) -> (r: Result<
        (),
        EngineError,
    >)
        requires
            old(self).wf(),
        ensures
            final(self).wf(),
            match recompute_outcome(old(self)@, transaction_id, now) {
                Ok(s) => final(self)@ == s && r is Ok,
                Err(e) => final(self)@ == old(self)@ && r == Err::<(), EngineError>(e),
            },
    {
        let i = match self.guard_open(transaction_id) {
            Ok(i) => i,
            Err(e) => return Err(e),
        };
        proof {
            lemma_store_wf_at(self@, i as int);
        }
        let mut t = self.transactions.remove(i);
        t.total = sum_lines(&t.items).unwrap();
        t.updated_at = now;
        let ghost tv = t@;
        self.transactions.insert(i, t);
        proof {
            assert(self@ =~= old(self)@.update(i as int, tv));
            lemma_update_wf(old(self)@, i as int, tv);
        }
        Ok(())
    }

    /// The transaction with identity `id`.
    pub fn get_transaction(&self, id: u128) -> (r: Result<Transaction, EngineError>)
        requires
            self.wf(),
        ensures
            match r {
                Ok(t) => has_txn(self@, id) && t@ == self@[txn_index(self@, id)],
                Err(e) => !has_txn(self@, id) && e == EngineError::NotFound,
            },
    {
        match self.find(id) {
            Some(i) => Ok(self.transactions[i].snapshot()),
            None => Err(EngineError::NotFound),
        }
    }

    /// Every transaction, or only the open ones, most recently created
    /// first.
    fn listing(&self, open_only: bool) -> (r: Vec<Transaction>)
        ensures
            views(r@) == newest_first(self@, open_only),
    {
        let mut r: Vec<Transaction> = Vec::new();
        let mut k: usize = self.transactions.len();
        assert(self@.take(k as int) =~= self@);
        assert(views(r@) =~= Seq::<TransactionView>::empty());
        assert(views(r@) + self@ =~= self@);
        while k > 0
            invariant
                k <= self@.len(),
                self@.len() == self.transactions@.len(),
                views(r@) + newest_first(self@.take(k as int), open_only) == newest_first(
                    self@,
                    open_only,
                ),
            decreases k,
        {
            let ghost pre = self@.take(k as int);
            proof {
                assert(pre.drop_last() =~= self@.take(k - 1));
                assert(pre.last() == self@[k - 1]);
            }
            let t = &self.transactions[k - 1];
            if !open_only || t.status == Status::Open {
                let c = t.snapshot();
                let ghost before = views(r@);
                r.push(c);
                proof {
                    assert(views(r@) =~= before.push(c@));
                    assert(views(r@) + newest_first(self@.take(k - 1), open_only) =~= before + (
                    seq![c@] + newest_first(self@.take(k - 1), open_only)));
                }
            }
            k = k - 1;
        }
        assert(self@.take(0) =~= Seq::<TransactionView>::empty());
        assert(views(r@) + Seq::<TransactionView>::empty() =~= views(r@));
        r
    }

    /// Every transaction, most recently created first.
    pub fn get_transactions(&self) -> (r: Vec<Transaction>)
        ensures
            views(r@) == newest_first(self@, false),
    {
        self.listing(false)
    }

    /// The open transactions, most recently created first.
    pub fn get_open_transactions(&self) -> (r: Vec<Transaction>)
        ensures
            views(r@) == newest_first(self@, true),
    {
        self.listing(true)
    }

    /// The named lines of `items`.
    fn details_of(items: &Vec<TransactionItem>, catalog: &Catalog) -> (r: Vec<TransactionItemDetail>)
        requires
            catalog.wf(),
        ensures
            detail_views(r@) == detail_lines(items@, catalog.items_view()),
    {
        let mut r: Vec<TransactionItemDetail> = Vec::new();
        let mut k: usize = 0;
        while k < items.len()
            invariant
                catalog.wf(),
                k <= items@.len(),
                detail_views(r@) =~= detail_lines(items@.take(k as int), catalog.items_view()),
            decreases items@.len() - k,
        {
            let l = items[k];
            proof {
                assert(items@.take(k + 1).drop_last() =~= items@.take(k as int));
            }
            match catalog.item_name(l.item_id) {
                Some(n) => {
                    r.push(
                        TransactionItemDetail {
                            id: l.id,
                            item_id: l.item_id,
                            item_name: n,
                            quantity: l.quantity,
                            unit_price: l.unit_price,
                            total_price: l.total_price,
                        },
                    );
                },
                None => {},
            }
            k = k + 1;
        }
        assert(items@.take(k as int) =~= items@);
        r
    }

    /// A transaction with its lines named from the catalog.
    pub fn transaction_details(&self, catalog: &Catalog, id: u128) -> (r: Result<
        TransactionDetails,
        EngineError,
    >)
        requires
            self.wf(),
            catalog.wf(),
        ensures
            match r {
                Ok(d) => has_txn(self@, id) && d.transaction@ == self@[txn_index(self@, id)]
                    && detail_views(d.items@) == detail_lines(
                    self@[txn_index(self@, id)].items,
                    catalog.items_view(),
                ),
                Err(e) => !has_txn(self@, id) && e == EngineError::NotFound,
            },
    {
        match self.find(id) {
            Some(i) => Ok(
                TransactionDetails {
                    transaction: self.transactions[i].snapshot(),
                    items: Self::details_of(&self.transactions[i].items, catalog),
                },
            ),
            None => Err(EngineError::NotFound),
        }
    }

    /// The receipt of a closed transaction; `InvalidState` when it is not
    /// closed.
    pub fn receipt(&self, catalog: &Catalog, id: u128) -> (r: Result<Vec<ReceiptCommand>, EngineError>)
        requires
            self.wf(),
            catalog.wf(),
        ensures
            match r {
                Ok(c) => has_txn(self@, id) && self@[txn_index(self@, id)].status == Status::Closed
                    && command_views(c@) == receipt_of(self@[txn_index(self@, id)], catalog.items_view()),
                Err(e) => if !has_txn(self@, id) {
                    e == EngineError::NotFound
                } else {
                    self@[txn_index(self@, id)].status != Status::Closed && e
                        == EngineError::InvalidState
                },
            },
    {
        let i = match self.find(id) {
            Some(i) => i,
            None => return Err(EngineError::NotFound),
        };
        proof {
            lemma_store_wf_at(self@, i as int);
        }
        let t = &self.transactions[i];
        if t.status != Status::Closed {
            return Err(EngineError::InvalidState);
        }
        let details = Self::details_of(&t.items, catalog);
        let mut lines: Vec<ReceiptLine> = Vec::new();
        let mut k: usize = 0;
        while k < details.len()
            invariant
                k <= details@.len(),
                line_views(lines@) =~= receipt_lines(detail_views(details@)).take(k as int),
            decreases details@.len() - k,
        {
            let d = &details[k];
            let ghost prev = line_views(lines@);
            let line = ReceiptLine { name: d.item_name.clone(), quantity: d.quantity as u32, unit_price: d.unit_price };
            assert(line@ == receipt_lines(detail_views(details@))[k as int]);
            lines.push(line);
            assert(line_views(lines@) =~= prev.push(line@));
            k = k + 1;
        }
        proof {
            assert(line_views(lines@) =~= receipt_lines(detail_views(details@)));
            lemma_receipt_total_bounded(t.items@, t.id, catalog.items_view());
        }
        let paid = t.paid_amount.unwrap();
        let change = t.change_amount.unwrap();
        Ok(receipt_commands(&lines, paid, change))
    }

    /// The stored transactions, in creation order.
    pub(crate) fn records(&self) -> (r: &Vec<Transaction>)
        ensures
            views(r@) == self@,
    {
        &self.transactions
    }

    /// After replacing position `i` by a transaction with the same identity,
    /// that identity is still found at `i`.
    proof fn lemma_index_kept(&self, s: Seq<TransactionView>, i: int, id: u128)
        requires
            store_wf(self@),
            0 <= i < s.len(),
            s.len() == self@.len(),
            self@[i].id == id,
        ensures
            has_txn(self@, id),
            txn_index(self@, id) == i,
    {
        lemma_store_wf_at(self@, i);
    }
}

} // verus!
