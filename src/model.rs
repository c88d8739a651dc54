use vstd::prelude::*;

verus! {

/// Lifecycle state of a transaction: `Open` until it is closed or
/// cancelled, both of which are terminal.
#[derive(Clone, Copy, Debug, PartialEq, Eq, Structural)]
pub enum Status {
    Open,
    Closed,
    Cancelled,
}

/// Typed failures of the transaction engine and the catalog.
#[derive(Clone, Copy, Debug, PartialEq, Eq, Structural)]
pub enum EngineError {
    /// The transaction, item or line does not exist.
    NotFound,
    /// A mutation was attempted on a transaction that is not open.
    InvalidState,
    /// The referenced catalog item is not in stock.
    Unavailable,
    /// The paid amount is below the transaction total.
    InsufficientPayment,
    /// Malformed input: a non-positive quantity, or an amount too large to
    /// be represented.
    ValidationError,
    /// The store refused the write (a duplicate identity).
    StoreError,
}

/// One catalog item attached to a transaction, with the unit price that was
/// current when the line was written.  Amounts are in cents.
#[derive(Clone, Copy, Debug, PartialEq, Eq, Structural)]
pub struct TransactionItem {
    pub id: u128,
    pub transaction_id: u128,
    pub item_id: u128,
    pub quantity: i32,
    pub unit_price: u64,
    pub total_price: u64,
    pub created_at: i64,
}

/// A sale.  `total` is derived from `items` and never set by callers;
/// timestamps are milliseconds since the Unix epoch.
#[derive(Debug)]
pub struct Transaction {
    pub id: u128,
    pub customer_name: Option<String>,
    pub status: Status,
    pub total: u64,
    pub paid_amount: Option<u64>,
    pub change_amount: Option<u64>,
    pub created_at: i64,
    pub updated_at: i64,
    pub closed_at: Option<i64>,
    pub items: Vec<TransactionItem>,
}

/// The mathematical value of a [`Transaction`].
pub struct TransactionView {
    pub id: u128,
    pub customer_name: Option<Seq<char>>,
    pub status: Status,
    pub total: u64,
    pub paid_amount: Option<u64>,
    pub change_amount: Option<u64>,
    pub created_at: i64,
    pub updated_at: i64,
    pub closed_at: Option<i64>,
    pub items: Seq<TransactionItem>,
}

/// The view of an optional name.
pub open spec fn name_view(n: Option<String>) -> Option<Seq<char>> {
    match n {
        Some(s) => Some(s@),
        None => None,
    }
}

impl View for Transaction {
    type V = TransactionView;

    open spec fn view(&self) -> TransactionView {
        TransactionView {
            id: self.id,
            customer_name: name_view(self.customer_name),
            status: self.status,
            total: self.total,
            paid_amount: self.paid_amount,
            change_amount: self.change_amount,
            created_at: self.created_at,
            updated_at: self.updated_at,
            closed_at: self.closed_at,
            items: self.items@,
        }
    }
}

impl Transaction {
    /// An independent copy of the transaction and its lines.
    pub fn snapshot(&self) -> (r: Transaction)
        ensures
            r@ == self@,
    {
        let customer_name = match &self.customer_name {
            Some(s) => Some(s.clone()),
            None => None,
        };
        let mut items: Vec<TransactionItem> = Vec::new();
        let mut k: usize = 0;
        while k < self.items.len()
            invariant
                k <= self.items@.len(),
                items@ =~= self.items@.take(k as int),
            decreases self.items@.len() - k,
        {
            items.push(self.items[k]);
            k = k + 1;
        }
        assert(items@ =~= self.items@);
        Transaction {
            id: self.id,
            customer_name,
            status: self.status,
            total: self.total,
            paid_amount: self.paid_amount,
            change_amount: self.change_amount,
            created_at: self.created_at,
            updated_at: self.updated_at,
            closed_at: self.closed_at,
            items,
        }
    }
}

/// Whether `t` satisfies the transaction invariant.
pub fn is_well_formed(t: &Transaction) -> (r: bool)
    ensures
        r == t@.wf(),
{
    let mut k: usize = 0;
    while k < t.items.len()
        invariant
            k <= t.items@.len(),
            forall|j: int| 0 <= j < k ==> line_wf(#[trigger] t.items@[j], t.id),
        decreases t.items@.len() - k,
    {
        let l = t.items[k];
        if l.transaction_id != t.id || l.quantity <= 0 {
            assert(!line_wf(t.items@[k as int], t.id));
            return false;
        }
        match l.unit_price.checked_mul(l.quantity as u64) {
            Some(v) => {
                if v != l.total_price {
                    assert(!line_wf(t.items@[k as int], t.id));
                    return false;
                }
            },
            None => {
                assert(!line_wf(t.items@[k as int], t.id));
                return false;
            },
        }
        k = k + 1;
    }
    match sum_lines(&t.items) {
        Some(v) => {
            if v != t.total {
                return false;
            }
        },
        None => {
            return false;
        },
    }
    let closed = t.status == Status::Closed;
    if t.paid_amount.is_some() != closed || t.change_amount.is_some() != closed
        || t.closed_at.is_some() != closed {
        return false;
    }
    if closed {
        let paid = t.paid_amount.unwrap();
        let change = t.change_amount.unwrap();
        match t.total.checked_add(change) {
            Some(v) => v == paid,
            None => false,
        }
    } else {
        true
    }
}

/// Sum of the line totals of `items`.
pub open spec fn lines_total(items: Seq<TransactionItem>) -> nat
    decreases items.len(),
{
    if items.len() == 0 {
        0
    } else {
        (lines_total(items.drop_last()) + items.last().total_price) as nat
    }
}

/// A line is well formed when it belongs to `tid`, has a positive quantity
/// and its total is the quantity times the unit price.
pub open spec fn line_wf(l: TransactionItem, tid: u128) -> bool {
    &&& l.transaction_id == tid
    &&& l.quantity > 0
    &&& l.total_price as int == l.unit_price as int * l.quantity as int
}

impl TransactionView {
    /// The transaction invariant: the total is the sum of the lines, and the
    /// payment fields are present exactly when the transaction is closed,
    /// with the change making up the difference between paid and total.
    pub open spec fn wf(self) -> bool {
        &&& self.total == lines_total(self.items)
        &&& forall|j: int| 0 <= j < self.items.len() ==> line_wf(#[trigger] self.items[j], self.id)
        &&& (self.status == Status::Closed) == self.paid_amount.is_some()
        &&& (self.status == Status::Closed) == self.change_amount.is_some()
        &&& (self.status == Status::Closed) == self.closed_at.is_some()
        &&& self.status == Status::Closed ==> self.paid_amount.unwrap() == self.total
            + self.change_amount.unwrap()
    }
}

/// The sum of a prefix grows by one line total per step.
pub proof fn lemma_lines_total_step(items: Seq<TransactionItem>, k: int)
    requires
        0 <= k < items.len(),
    ensures
        lines_total(items.take(k + 1)) == lines_total(items.take(k)) + items[k].total_price,
{
    assert(items.take(k + 1).drop_last() =~= items.take(k));
}

/// Sum of the line totals, or `None` when it does not fit in a `u64`.
pub fn sum_lines(items: &Vec<TransactionItem>) -> (r: Option<u64>)
    ensures
        r == (if lines_total(items@) <= u64::MAX {
            Some(lines_total(items@) as u64)
        } else {
            None::<u64>
        }),
{
    let mut acc: u64 = 0;
    let mut k: usize = 0;
    while k < items.len()
        invariant
            k <= items.len(),
            acc == lines_total(items@.take(k as int)),
        decreases items.len() - k,
    {
        proof {
            lemma_lines_total_step(items@, k as int);
        }
        let p = items[k].total_price;
        if acc > u64::MAX - p {
            proof {
                lemma_lines_total_prefix(items@, k as int + 1);
            }
            return None;
        }
        acc = acc + p;
        k = k + 1;
    }
    assert(items@.take(k as int) =~= items@);
    Some(acc)
}

/// A prefix never sums to more than the whole sequence.
pub proof fn lemma_lines_total_prefix(items: Seq<TransactionItem>, k: int)
    requires
        0 <= k <= items.len(),
    ensures
        lines_total(items.take(k)) <= lines_total(items),
    decreases items.len() - k,
{
    if k < items.len() {
        lemma_lines_total_step(items, k);
        lemma_lines_total_prefix(items, k + 1);
    } else {
        assert(items.take(k) =~= items);
    }
}

} // verus!
