//! Properties of the transaction engine that relate its operations, proved
//! over the outcome functions that the operations' contracts are stated in.
use vstd::prelude::*;
use crate::catalog::ItemInfo;
use crate::model::{EngineError, Status, TransactionItem, TransactionView, line_wf, lines_total};
use crate::store::{
    add_item_outcome, cancel_outcome, close_outcome, has_txn, lemma_requantify_wf,
    lemma_store_wf_at, lemma_update_wf, lemma_without_item, lemma_without_item_wf, open_guard,
    recompute_outcome, remove_item_outcome, rename_outcome, store_wf, txn_index,
    update_item_outcome,
};

verus! {

/// Replacing position `i` by a transaction with the same identity keeps
/// that identity at `i`.
proof fn lemma_update_keeps_index(s: Seq<TransactionView>, i: int, t: TransactionView)
    requires
        store_wf(s),
        0 <= i < s.len(),
        t.id == s[i].id,
    ensures
        has_txn(s.update(i, t), t.id),
        txn_index(s.update(i, t), t.id) == i,
{
    reveal(store_wf);
    let u = s.update(i, t);
    assert(u[i].id == t.id);
    assert(has_txn(u, t.id));
    let c = txn_index(u, t.id);
    if c != i {
        assert(u[c].id == s[c].id);
        assert(s[c].id != s[i].id);
    }
}

/// Closing an open transaction fails with `InsufficientPayment` exactly
/// when the payment is below the total; otherwise it closes the transaction
/// and the change is the payment minus the total.
pub proof fn law_close_settles(s: Seq<TransactionView>, id: u128, paid: u64, now: i64)
    requires
        store_wf(s),
        has_txn(s, id),
        s[txn_index(s, id)].status == Status::Open,
    ensures
        ({
            let t = s[txn_index(s, id)];
            &&& (close_outcome(s, id, paid, now) == Err::<(Seq<TransactionView>, u64), EngineError>(
                EngineError::InsufficientPayment,
            )) == (paid < t.total)
            &&& paid >= t.total ==> {
                &&& close_outcome(s, id, paid, now) is Ok
                &&& close_outcome(s, id, paid, now)->Ok_0.1 == paid - t.total
                &&& close_outcome(s, id, paid, now)->Ok_0.0[txn_index(s, id)].status
                    == Status::Closed
                &&& close_outcome(s, id, paid, now)->Ok_0.0[txn_index(s, id)].change_amount
                    == Some((paid - t.total) as u64)
            }
        }),
{
}

/// Once a transaction is closed or cancelled, every mutation of it fails
/// with `InvalidState`.  (Each operation leaves the store unchanged when it
/// fails.)
pub proof fn law_terminal_rejects(
    s: Seq<TransactionView>,
    id: u128,
    info: Option<ItemInfo>,
    item_id: u128,
    quantity: i32,
    line_id: u128,
    paid: u64,
    name: Option<Seq<char>>,
    now: i64,
)
    requires
        has_txn(s, id),
        s[txn_index(s, id)].status != Status::Open,
    ensures
        add_item_outcome(s, info, id, item_id, quantity, line_id, now) == Err::<
            (Seq<TransactionView>, TransactionItem),
            EngineError,
        >(EngineError::InvalidState),
        update_item_outcome(s, info, id, item_id, quantity, now) == Err::<
            (Seq<TransactionView>, TransactionItem),
            EngineError,
        >(EngineError::InvalidState),
        remove_item_outcome(s, id, item_id, now) == Err::<Seq<TransactionView>, EngineError>(
            EngineError::InvalidState,
        ),
        rename_outcome(s, id, name, now) == Err::<Seq<TransactionView>, EngineError>(
            EngineError::InvalidState,
        ),
        close_outcome(s, id, paid, now) == Err::<(Seq<TransactionView>, u64), EngineError>(
            EngineError::InvalidState,
        ),
        cancel_outcome(s, id, now) == Err::<Seq<TransactionView>, EngineError>(
            EngineError::InvalidState,
        ),
        recompute_outcome(s, id, now) == Err::<Seq<TransactionView>, EngineError>(
            EngineError::InvalidState,
        ),
{
}

/// Adding an item that is out of stock to an open transaction always fails
/// with `Unavailable`, whatever the quantity; the store is left unchanged.
pub proof fn law_out_of_stock_rejected(
    s: Seq<TransactionView>,
    id: u128,
    price: u64,
    item_id: u128,
    quantity: i32,
    line_id: u128,
    now: i64,
)
    requires
        open_guard(s, id) is Ok,
    ensures
        add_item_outcome(s, Some(ItemInfo { price, in_stock: false }), id, item_id, quantity, line_id, now)
            == Err::<(Seq<TransactionView>, TransactionItem), EngineError>(
            EngineError::Unavailable,
        ),
{
}

/// A close followed by a line addition on the same transaction: the close
/// wins and the addition fails with `InvalidState`, so no line is attached
/// to a closed transaction.  The same holds after a cancel.
pub proof fn law_close_then_add(
    s: Seq<TransactionView>,
    id: u128,
    paid: u64,
    t_close: i64,
    info: Option<ItemInfo>,
    item_id: u128,
    quantity: i32,
    line_id: u128,
    t_add: i64,
)
    requires
        store_wf(s),
        close_outcome(s, id, paid, t_close) is Ok,
    ensures
        add_item_outcome(
            close_outcome(s, id, paid, t_close)->Ok_0.0,
            info,
            id,
            item_id,
            quantity,
            line_id,
            t_add,
        ) == Err::<(Seq<TransactionView>, TransactionItem), EngineError>(
            EngineError::InvalidState,
        ),
        cancel_outcome(s, id, t_close) is Ok ==> add_item_outcome(
            cancel_outcome(s, id, t_close)->Ok_0,
            info,
            id,
            item_id,
            quantity,
            line_id,
            t_add,
        ) == Err::<(Seq<TransactionView>, TransactionItem), EngineError>(
            EngineError::InvalidState,
        ),
{
    let i = txn_index(s, id);
    let s2 = close_outcome(s, id, paid, t_close)->Ok_0.0;
    lemma_update_keeps_index(s, i, s2[i]);
    assert(s2 == s.update(i, s2[i]));
    if cancel_outcome(s, id, t_close) is Ok {
        let s3 = cancel_outcome(s, id, t_close)->Ok_0;
        lemma_update_keeps_index(s, i, s3[i]);
        assert(s3 == s.update(i, s3[i]));
    }
}

/// A successful mutation changes only the transaction it names, and only
/// when that transaction is open: closed and cancelled records, with their
/// lines and totals, stay exactly as they were.
pub proof fn law_terminal_records_frozen(
    s: Seq<TransactionView>,
    id: u128,
    info: Option<ItemInfo>,
    item_id: u128,
    quantity: i32,
    line_id: u128,
    paid: u64,
    name: Option<Seq<char>>,
    now: i64,
    j: int,
)
    requires
        0 <= j < s.len(),
        s[j].status != Status::Open,
    ensures
        add_item_outcome(s, info, id, item_id, quantity, line_id, now) is Ok ==> add_item_outcome(
            s,
            info,
            id,
            item_id,
            quantity,
            line_id,
            now,
        )->Ok_0.0[j] == s[j],
        update_item_outcome(s, info, id, item_id, quantity, now) is Ok ==> update_item_outcome(
            s,
            info,
            id,
            item_id,
            quantity,
            now,
        )->Ok_0.0[j] == s[j],
        remove_item_outcome(s, id, item_id, now) is Ok ==> remove_item_outcome(
            s,
            id,
            item_id,
            now,
        )->Ok_0[j] == s[j],
        rename_outcome(s, id, name, now) is Ok ==> rename_outcome(s, id, name, now)->Ok_0[j]
            == s[j],
        close_outcome(s, id, paid, now) is Ok ==> close_outcome(s, id, paid, now)->Ok_0.0[j]
            == s[j],
        cancel_outcome(s, id, now) is Ok ==> cancel_outcome(s, id, now)->Ok_0[j] == s[j],
        recompute_outcome(s, id, now) is Ok ==> recompute_outcome(s, id, now)->Ok_0[j] == s[j],
{
}

/// Recomputing an open transaction's total from its lines changes nothing
/// but its update time: the total already is the sum of its lines.  Doing
/// it twice in a row therefore equals doing it once, up to that time.
pub proof fn law_recompute_idempotent(s: Seq<TransactionView>, id: u128, now1: i64, now2: i64)
    requires
        store_wf(s),
        recompute_outcome(s, id, now1) is Ok,
    ensures
        recompute_outcome(s, id, now1)->Ok_0 == s.update(
            txn_index(s, id),
            TransactionView { updated_at: now1, ..s[txn_index(s, id)] },
        ),
        recompute_outcome(recompute_outcome(s, id, now1)->Ok_0, id, now2) == Ok::<
            Seq<TransactionView>,
            EngineError,
        >(s.update(txn_index(s, id), TransactionView { updated_at: now2, ..s[txn_index(s, id)] })),
{
    let i = txn_index(s, id);
    lemma_store_wf_at(s, i);
    let s1 = recompute_outcome(s, id, now1)->Ok_0;
    assert(s1[i].items =~= s[i].items);
    assert(s1 =~= s.update(i, TransactionView { updated_at: now1, ..s[i] }));
    lemma_update_keeps_index(s, i, s1[i]);
    assert(s1.update(i, TransactionView { updated_at: now2, ..s1[i] }) =~= s.update(
        i,
        TransactionView { updated_at: now2, ..s[i] },
    ));
}

/// A line mutation of one transaction, with what the catalog said of the
/// item at the time.
pub enum LineOp {
    Add { info: Option<ItemInfo>, item_id: u128, quantity: i32, line_id: u128, now: i64 },
    Update { info: Option<ItemInfo>, item_id: u128, quantity: i32, now: i64 },
    Remove { item_id: u128, now: i64 },
}

/// The store after `op` on transaction `tid`; a failed operation leaves it
/// unchanged.
pub open spec fn apply_line_op(s: Seq<TransactionView>, tid: u128, op: LineOp) -> Seq<TransactionView> {
    match op {
        LineOp::Add { info, item_id, quantity, line_id, now } => match add_item_outcome(
            s,
            info,
            tid,
            item_id,
            quantity,
            line_id,
            now,
        ) {
            Ok((s2, _)) => s2,
            Err(_) => s,
        },
        LineOp::Update { info, item_id, quantity, now } => match update_item_outcome(
            s,
            info,
            tid,
            item_id,
            quantity,
            now,
        ) {
            Ok((s2, _)) => s2,
            Err(_) => s,
        },
        LineOp::Remove { item_id, now } => match remove_item_outcome(s, tid, item_id, now) {
            Ok(s2) => s2,
            Err(_) => s,
        },
    }
}

/// The store after the operations `ops`, in order.
pub open spec fn run_line_ops(s: Seq<TransactionView>, tid: u128, ops: Seq<LineOp>) -> Seq<TransactionView>
    decreases ops.len(),
{
    if ops.len() == 0 {
        s
    } else {
        apply_line_op(run_line_ops(s, tid, ops.drop_last()), tid, ops.last())
    }
}

/// One line mutation keeps the store well formed.
proof fn lemma_line_op_wf(s: Seq<TransactionView>, tid: u128, op: LineOp)
    requires
        store_wf(s),
    ensures
        store_wf(apply_line_op(s, tid, op)),
{
    if open_guard(s, tid) is Ok {
        let i = txn_index(s, tid);
        lemma_store_wf_at(s, i);
        let t = s[i];
        match op {
            LineOp::Add { info, item_id, quantity, line_id, now } => {
                if let Ok((s2, line)) = add_item_outcome(s, info, tid, item_id, quantity, line_id, now) {
                    let items = t.items.push(line);
                    assert(items.drop_last() =~= t.items);
                    let nt = s2[i];
                    assert forall|j: int| 0 <= j < nt.items.len() implies line_wf(#[trigger] nt.items[j], nt.id) by {
                        if j < t.items.len() {
                            assert(nt.items[j] == t.items[j]);
                        }
                    }
                    assert(s2 == s.update(i, nt));
                    lemma_update_wf(s, i, nt);
                }
            },
            LineOp::Update { info, item_id, quantity, now } => {
                if let Ok((s2, _)) = update_item_outcome(s, info, tid, item_id, quantity, now) {
                    let it = info.unwrap();
                    lemma_requantify_wf(t.items, tid, item_id, quantity, it.price);
                    let nt = s2[i];
                    assert(s2 == s.update(i, nt));
                    lemma_update_wf(s, i, nt);
                }
            },
            LineOp::Remove { item_id, now } => {
                if let Ok(s2) = remove_item_outcome(s, tid, item_id, now) {
                    lemma_without_item(t.items, item_id);
                    lemma_without_item_wf(t.items, tid, item_id);
                    let nt = s2[i];
                    assert(s2 == s.update(i, nt));
                    lemma_update_wf(s, i, nt);
                }
            },
        }
    }
}

/// After any sequence of line additions, updates and removals on a
/// transaction, every transaction's total is the sum of its current line
/// totals.
pub proof fn law_totals_follow_lines(s: Seq<TransactionView>, tid: u128, ops: Seq<LineOp>, j: int)
    requires
        store_wf(s),
        0 <= j < run_line_ops(s, tid, ops).len(),
    ensures
        store_wf(run_line_ops(s, tid, ops)),
        run_line_ops(s, tid, ops)[j].total == lines_total(run_line_ops(s, tid, ops)[j].items),
    decreases ops.len(),
{
    lemma_ops_wf(s, tid, ops);
    lemma_store_wf_at(run_line_ops(s, tid, ops), j);
}

/// Any sequence of line mutations keeps the store well formed.
proof fn lemma_ops_wf(s: Seq<TransactionView>, tid: u128, ops: Seq<LineOp>)
    requires
        store_wf(s),
    ensures
        store_wf(run_line_ops(s, tid, ops)),
    decreases ops.len(),
{
    if ops.len() > 0 {
        lemma_ops_wf(s, tid, ops.drop_last());
        lemma_line_op_wf(run_line_ops(s, tid, ops.drop_last()), tid, ops.last());
    }
}

} // verus!
