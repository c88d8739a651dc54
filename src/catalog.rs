use vstd::prelude::*;
use vstd::string::*;
use crate::model::EngineError;

verus! {

/// A catalog category.
#[derive(Debug)]
pub struct Category {
    pub id: u128,
    pub name: String,
    pub description: Option<String>,
    pub created_at: i64,
    pub updated_at: i64,
}

/// A catalog item; `price` is in cents.
#[derive(Debug)]
pub struct Item {
    pub id: u128,
    pub name: String,
    pub description: Option<String>,
    pub price: u64,
    pub category_id: u128,
    pub sku: Option<String>,
    pub in_stock: bool,
    pub created_at: i64,
    pub updated_at: i64,
}

/// What the transaction engine reads of a catalog item.
#[derive(Clone, Copy, Debug, PartialEq, Eq, Structural)]
pub struct ItemInfo {
    pub price: u64,
    pub in_stock: bool,
}

/// Keyed storage of categories and items.
pub struct Catalog {
    categories: Vec<Category>,
    items: Vec<Item>,
}

/// Whether some item of `items` has identity `id`.
pub open spec fn has_item(items: Seq<Item>, id: u128) -> bool {
    exists|i: int| 0 <= i < items.len() && items[i].id == id
}

/// The position of the item with identity `id`.
pub open spec fn item_index(items: Seq<Item>, id: u128) -> int {
    choose|i: int| 0 <= i < items.len() && items[i].id == id
}

/// The price and stock flag of the item with identity `id`, if any.
pub open spec fn item_info_of(items: Seq<Item>, id: u128) -> Option<ItemInfo> {
    if has_item(items, id) {
        let it = items[item_index(items, id)];
        Some(ItemInfo { price: it.price, in_stock: it.in_stock })
    } else {
        None
    }
}

/// The name of the item with identity `id`, if any.
pub open spec fn item_name_of(items: Seq<Item>, id: u128) -> Option<Seq<char>> {
    if has_item(items, id) {
        Some(items[item_index(items, id)].name@)
    } else {
        None
    }
}

/// The fields of an item that an update may replace; `None` keeps the
/// current value.
#[derive(Debug)]
pub struct ItemUpdate {
    pub name: Option<String>,
    pub description: Option<String>,
    pub price: Option<u64>,
    pub category_id: Option<u128>,
    pub sku: Option<String>,
    pub in_stock: Option<bool>,
}

/// Whether some category of `cats` has identity `id`.
pub open spec fn has_category(cats: Seq<Category>, id: u128) -> bool {
    exists|i: int| 0 <= i < cats.len() && cats[i].id == id
}

/// The position of the category with identity `id`.
pub open spec fn category_index(cats: Seq<Category>, id: u128) -> int {
    choose|i: int| 0 <= i < cats.len() && cats[i].id == id
}

/// `c` with the given name and description, where given, updated at `now`.
pub open spec fn patched_category(c: Category, name: Option<String>, description: Option<String>, now: i64) -> Category {
    Category {
        name: match name {
            Some(n) => n,
            None => c.name,
        },
        description: match description {
            Some(d) => Some(d),
            None => c.description,
        },
        updated_at: now,
        ..c
    }
}

/// `it` with the fields that `u` gives replaced, updated at `now`.
pub open spec fn patched_item(it: Item, u: ItemUpdate, now: i64) -> Item {
    Item {
        name: match u.name {
            Some(n) => n,
            None => it.name,
        },
        description: match u.description {
            Some(d) => Some(d),
            None => it.description,
        },
        price: match u.price {
            Some(p) => p,
            None => it.price,
        },
        category_id: match u.category_id {
            Some(c) => c,
            None => it.category_id,
        },
        sku: match u.sku {
            Some(k) => Some(k),
            None => it.sku,
        },
        in_stock: match u.in_stock {
            Some(b) => b,
            None => it.in_stock,
        },
        updated_at: now,
        ..it
    }
}

/// The items of category `category_id`, in order.
pub open spec fn items_in_category(items: Seq<Item>, category_id: u128) -> Seq<Item>
    decreases items.len(),
{
    if items.len() == 0 {
        items
    } else {
        let rest = items_in_category(items.drop_last(), category_id);
        if items.last().category_id == category_id {
            rest.push(items.last())
        } else {
            rest
        }
    }
}

/// A copy of an optional string.
fn copy_opt(s: &Option<String>) -> (r: Option<String>)
    ensures
        r == *s,
{
    match s {
        Some(x) => Some(x.clone()),
        None => None,
    }
}

impl Category {
    /// An independent copy.
    pub fn snapshot(&self) -> (r: Category)
        ensures
            r == *self,
    {
        Category {
            id: self.id,
            name: self.name.clone(),
            description: copy_opt(&self.description),
            created_at: self.created_at,
            updated_at: self.updated_at,
        }
    }
}

impl Item {
    /// An independent copy.
    pub fn snapshot(&self) -> (r: Item)
        ensures
            r == *self,
    {
        Item {
            id: self.id,
            name: self.name.clone(),
            description: copy_opt(&self.description),
            price: self.price,
            category_id: self.category_id,
            sku: copy_opt(&self.sku),
            in_stock: self.in_stock,
            created_at: self.created_at,
            updated_at: self.updated_at,
        }
    }
}

/// The category of the item with identity `id`, if any.
pub open spec fn item_category_of(items: Seq<Item>, id: u128) -> Option<u128> {
    if has_item(items, id) {
        Some(items[item_index(items, id)].category_id)
    } else {
        None
    }
}

/// The name of the category with identity `id`, if any.
pub open spec fn category_name_of(cats: Seq<Category>, id: u128) -> Option<Seq<char>> {
    if has_category(cats, id) {
        Some(cats[category_index(cats, id)].name@)
    } else {
        None
    }
}

/// Whether name `a` sorts strictly before name `b`: at the first position
/// where they differ `a` has the lower code point, or `a` is a proper
/// prefix of `b`.
pub open spec fn name_before(a: Seq<char>, b: Seq<char>) -> bool {
    exists|i: int| #[trigger] first_lower_at(a, b, i)
}

/// `a` and `b` agree before position `i`, where `a` ends while `b` goes on
/// or `a` has the lower code point.
pub open spec fn first_lower_at(a: Seq<char>, b: Seq<char>, i: int) -> bool {
    &&& 0 <= i <= a.len()
    &&& i <= b.len()
    &&& forall|j: int| 0 <= j < i ==> a[j] == b[j]
    &&& (i == a.len() && i < b.len()) || (i < a.len() && i < b.len() && (a[i] as u32) < (b[i] as u32))
}

/// Where an item named `n` goes among items ordered by name: after every
/// item whose name does not sort after `n`.
pub open spec fn item_slot(sorted: Seq<Item>, n: Seq<char>) -> int
    decreases sorted.len(),
{
    if sorted.len() == 0 {
        0
    } else if name_before(n, sorted[0].name@) {
        0
    } else {
        1 + item_slot(sorted.drop_first(), n)
    }
}

/// The items ordered by name; items of equal name keep their order.
pub open spec fn items_by_name(items: Seq<Item>) -> Seq<Item>
    decreases items.len(),
{
    if items.len() == 0 {
        Seq::empty()
    } else {
        let s = items_by_name(items.drop_last());
        s.insert(item_slot(s, items.last().name@), items.last())
    }
}

/// Where a category named `n` goes among categories ordered by name.
pub open spec fn category_slot(sorted: Seq<Category>, n: Seq<char>) -> int
    decreases sorted.len(),
{
    if sorted.len() == 0 {
        0
    } else if name_before(n, sorted[0].name@) {
        0
    } else {
        1 + category_slot(sorted.drop_first(), n)
    }
}

/// The categories ordered by name; categories of equal name keep their
/// order.
pub open spec fn categories_by_name(cats: Seq<Category>) -> Seq<Category>
    decreases cats.len(),
{
    if cats.len() == 0 {
        Seq::empty()
    } else {
        let s = categories_by_name(cats.drop_last());
        s.insert(category_slot(s, cats.last().name@), cats.last())
    }
}

/// Whether `a` sorts strictly before `b` by code points.
pub fn precedes(a: &str, b: &str) -> (r: bool)
    ensures
        r == name_before(a@, b@),
{
    let la = a.unicode_len();
    let lb = b.unicode_len();
    let mut i: usize = 0;
    let mut same = true;
    while same && i < la && i < lb
        invariant
            la == a@.len(),
            lb == b@.len(),
            i <= la,
            i <= lb,
            forall|j: int| 0 <= j < i ==> a@[j] == b@[j],
            !same ==> i < la && i < lb && a@[i as int] != b@[i as int],
        decreases la - i + if same { 1int } else { 0int },
    {
        if a.get_char(i) == b.get_char(i) {
            i = i + 1;
        } else {
            same = false;
        }
    }
    let r = if same {
        i == la && i < lb
    } else {
        (a.get_char(i) as u32) < (b.get_char(i) as u32)
    };
    proof {
        let ai = a@;
        let bi = b@;
        let ii = i as int;
        if r {
            assert(first_lower_at(ai, bi, ii));
        } else {
            assert(!name_before(ai, bi)) by {
                if name_before(ai, bi) {
                    let k = choose|k: int| first_lower_at(ai, bi, k);
                    if k > ii {
                        assert(ai[ii] == bi[ii]);
                    } else if k < ii {
                        assert(ai[k] == bi[k]);
                    }
                }
            }
        }
    }
    r
}

/// The slot is after every item whose name does not sort after `n`, and
/// before the first one that does.
pub proof fn lemma_item_slot(sorted: Seq<Item>, n: Seq<char>, p: int)
    requires
        0 <= p <= sorted.len(),
        forall|j: int| 0 <= j < p ==> !name_before(n, #[trigger] sorted[j].name@),
        p == sorted.len() || name_before(n, sorted[p].name@),
    ensures
        item_slot(sorted, n) == p,
    decreases p,
{
    if p > 0 {
        let rest = sorted.drop_first();
        assert forall|j: int| 0 <= j < p - 1 implies !name_before(n, #[trigger] rest[j].name@) by {
            assert(rest[j] == sorted[j + 1]);
        }
        if p < sorted.len() {
            assert(rest[p - 1] == sorted[p]);
        }
        assert(!name_before(n, sorted[0].name@));
        lemma_item_slot(rest, n, p - 1);
    }
}

/// The category counterpart of [`lemma_item_slot`].
pub proof fn lemma_category_slot(sorted: Seq<Category>, n: Seq<char>, p: int)
    requires
        0 <= p <= sorted.len(),
        forall|j: int| 0 <= j < p ==> !name_before(n, #[trigger] sorted[j].name@),
        p == sorted.len() || name_before(n, sorted[p].name@),
    ensures
        category_slot(sorted, n) == p,
    decreases p,
{
    if p > 0 {
        let rest = sorted.drop_first();
        assert forall|j: int| 0 <= j < p - 1 implies !name_before(n, #[trigger] rest[j].name@) by {
            assert(rest[j] == sorted[j + 1]);
        }
        if p < sorted.len() {
            assert(rest[p - 1] == sorted[p]);
        }
        assert(!name_before(n, sorted[0].name@));
        lemma_category_slot(rest, n, p - 1);
    }
}

/// Copies of the items, ordered by name.
fn sorted_items(v: &Vec<Item>) -> (r: Vec<Item>)
    ensures
        r@ == items_by_name(v@),
{
    let mut out: Vec<Item> = Vec::new();
    let mut k: usize = 0;
    while k < v.len()
        invariant
            k <= v@.len(),
            out@ == items_by_name(v@.take(k as int)),
        decreases v@.len() - k,
    {
        proof {
            assert(v@.take(k + 1).drop_last() =~= v@.take(k as int));
        }
        let it = v[k].snapshot();
        let mut p: usize = 0;
        while p < out.len() && !precedes(it.name.as_str(), out[p].name.as_str())
            invariant
                p <= out@.len(),
                forall|j: int| 0 <= j < p ==> !name_before(it.name@, #[trigger] out@[j].name@),
            decreases out@.len() - p,
        {
            p = p + 1;
        }
        proof {
            lemma_item_slot(out@, it.name@, p as int);
        }
        out.insert(p, it);
        k = k + 1;
    }
    assert(v@.take(k as int) =~= v@);
    out
}

/// Copies of the categories, ordered by name.
fn sorted_categories(v: &Vec<Category>) -> (r: Vec<Category>)
    ensures
        r@ == categories_by_name(v@),
{
    let mut out: Vec<Category> = Vec::new();
    let mut k: usize = 0;
    while k < v.len()
        invariant
            k <= v@.len(),
            out@ == categories_by_name(v@.take(k as int)),
        decreases v@.len() - k,
    {
        proof {
            assert(v@.take(k + 1).drop_last() =~= v@.take(k as int));
        }
        let c = v[k].snapshot();
        let mut p: usize = 0;
        while p < out.len() && !precedes(c.name.as_str(), out[p].name.as_str())
            invariant
                p <= out@.len(),
                forall|j: int| 0 <= j < p ==> !name_before(c.name@, #[trigger] out@[j].name@),
            decreases out@.len() - p,
        {
            p = p + 1;
        }
        proof {
            lemma_category_slot(out@, c.name@, p as int);
        }
        out.insert(p, c);
        k = k + 1;
    }
    assert(v@.take(k as int) =~= v@);
    out
}

/// Identities are unique among `items`.
pub open spec fn item_ids_unique(items: Seq<Item>) -> bool {
    forall|i: int, j: int|
        0 <= i < items.len() && 0 <= j < items.len() && i != j ==> #[trigger] items[i].id
            != #[trigger] items[j].id
}

/// Identities are unique among `cats`.
pub open spec fn category_ids_unique(cats: Seq<Category>) -> bool {
    forall|i: int, j: int|
        0 <= i < cats.len() && 0 <= j < cats.len() && i != j ==> #[trigger] cats[i].id
            != #[trigger] cats[j].id
}

/// Whether the identities of `items` are unique.
fn items_unique(items: &Vec<Item>) -> (r: bool)
    ensures
        r == item_ids_unique(items@),
{
    let mut i: usize = 0;
    while i < items.len()
        invariant
            i <= items@.len(),
            forall|a: int, b: int| 0 <= a < i && 0 <= b < items@.len() && a != b ==> #[trigger] items@[a].id
                != #[trigger] items@[b].id,
        decreases items@.len() - i,
    {
        let mut j: usize = 0;
        while j < items.len()
            invariant
                i < items@.len(),
                j <= items@.len(),
                forall|b: int| 0 <= b < j && b != i ==> items@[i as int].id != #[trigger] items@[b].id,
            decreases items@.len() - j,
        {
            if j != i && items[j].id == items[i].id {
                assert(items@[i as int].id == items@[j as int].id);
                return false;
            }
            j = j + 1;
        }
        assert forall|a: int, b: int| 0 <= a < i + 1 && 0 <= b < items@.len() && a != b implies #[trigger] items@[a].id
            != #[trigger] items@[b].id by {
            if a == i {
                assert(items@[i as int].id != items@[b].id);
            }
        }
        i = i + 1;
    }
    true
}

/// Whether the identities of `cats` are unique.
fn categories_unique(cats: &Vec<Category>) -> (r: bool)
    ensures
        r == category_ids_unique(cats@),
{
    let mut i: usize = 0;
    while i < cats.len()
        invariant
            i <= cats@.len(),
            forall|a: int, b: int| 0 <= a < i && 0 <= b < cats@.len() && a != b ==> #[trigger] cats@[a].id
                != #[trigger] cats@[b].id,
        decreases cats@.len() - i,
    {
        let mut j: usize = 0;
        while j < cats.len()
            invariant
                i < cats@.len(),
                j <= cats@.len(),
                forall|b: int| 0 <= b < j && b != i ==> cats@[i as int].id != #[trigger] cats@[b].id,
            decreases cats@.len() - j,
        {
            if j != i && cats[j].id == cats[i].id {
                assert(cats@[i as int].id == cats@[j as int].id);
                return false;
            }
            j = j + 1;
        }
        assert forall|a: int, b: int| 0 <= a < i + 1 && 0 <= b < cats@.len() && a != b implies #[trigger] cats@[a].id
            != #[trigger] cats@[b].id by {
            if a == i {
                assert(cats@[i as int].id != cats@[b].id);
            }
        }
        i = i + 1;
    }
    true
}

impl Catalog {
    /// The stored items, in insertion order.
    pub closed spec fn items_view(&self) -> Seq<Item> {
        self.items@
    }

    /// The stored categories, in insertion order.
    pub closed spec fn categories_view(&self) -> Seq<Category> {
        self.categories@
    }

    /// Identities are unique among items and among categories.
    pub open spec fn wf(&self) -> bool {
        &&& forall|i: int, j: int|
            0 <= i < self.items_view().len() && 0 <= j < self.items_view().len() && i != j
                ==> #[trigger] self.items_view()[i].id != #[trigger] self.items_view()[j].id
        &&& forall|i: int, j: int|
            0 <= i < self.categories_view().len() && 0 <= j < self.categories_view().len() && i
                != j ==> #[trigger] self.categories_view()[i].id
                != #[trigger] self.categories_view()[j].id
    }

    /// An empty catalog.
    pub fn new() -> (r: Catalog)
        ensures
            r.wf(),
            r.items_view().len() == 0,
            r.categories_view().len() == 0,
    {
        Catalog { categories: Vec::new(), items: Vec::new() }
    }

    /// A catalog holding `categories` and `items`, in that order, when the
    /// identities are unique within each; `ValidationError` otherwise.
    pub fn restore(categories: Vec<Category>, items: Vec<Item>) -> (r: Result<Catalog, EngineError>)
        ensures
            match r {
                Ok(c) => c.wf() && c.categories_view() == categories@ && c.items_view() == items@,
                Err(e) => e == EngineError::ValidationError && !(category_ids_unique(categories@)
                    && item_ids_unique(items@)),
            },
    {
        if !categories_unique(&categories) || !items_unique(&items) {
            return Err(EngineError::ValidationError);
        }
        Ok(Catalog { categories, items })
    }

    /// Copies of the categories and the items, in creation order.
    pub fn export(&self) -> (r: (Vec<Category>, Vec<Item>))
        ensures
            r.0@ == self.categories_view(),
            r.1@ == self.items_view(),
    {
        let mut cats: Vec<Category> = Vec::new();
        let mut k: usize = 0;
        while k < self.categories.len()
            invariant
                k <= self.categories@.len(),
                cats@ =~= self.categories@.take(k as int),
            decreases self.categories@.len() - k,
        {
            cats.push(self.categories[k].snapshot());
            k = k + 1;
        }
        assert(self.categories@.take(k as int) =~= self.categories@);
        let mut items: Vec<Item> = Vec::new();
        let mut k: usize = 0;
        while k < self.items.len()
            invariant
                k <= self.items@.len(),
                items@ =~= self.items@.take(k as int),
            decreases self.items@.len() - k,
        {
            items.push(self.items[k].snapshot());
            k = k + 1;
        }
        assert(self.items@.take(k as int) =~= self.items@);
        (cats, items)
    }

    /// The position of the item with identity `id`.
    fn find_item(&self, id: u128) -> (r: Option<usize>)
        requires
            self.wf(),
        ensures
            match r {
                Some(i) => i < self.items_view().len() && self.items_view()[i as int].id == id
                    && item_index(self.items_view(), id) == i,
                None => !has_item(self.items_view(), id),
            },
    {
        let mut k: usize = 0;
        while k < self.items.len()
            invariant
                self.wf(),
                k <= self.items@.len(),
                forall|j: int| 0 <= j < k ==> self.items@[j].id != id,
            decreases self.items@.len() - k,
        {
            if self.items[k].id == id {
                proof {
                    assert(self.items_view()[k as int].id == id);
                    assert(has_item(self.items_view(), id));
                    let c = item_index(self.items_view(), id);
                    assert(self.items_view()[c].id == self.items_view()[k as int].id);
                }
                return Some(k);
            }
            k = k + 1;
        }
        None
    }

    /// The position of the category with identity `id`.
    fn find_category(&self, id: u128) -> (r: Option<usize>)
        requires
            self.wf(),
        ensures
            match r {
                Some(i) => i < self.categories_view().len() && self.categories_view()[i as int].id == id
                    && category_index(self.categories_view(), id) == i,
                None => !has_category(self.categories_view(), id),
            },
    {
        let mut k: usize = 0;
        while k < self.categories.len()
            invariant
                self.wf(),
                k <= self.categories@.len(),
                forall|j: int| 0 <= j < k ==> self.categories@[j].id != id,
            decreases self.categories@.len() - k,
        {
            if self.categories[k].id == id {
                proof {
                    assert(self.categories_view()[k as int].id == id);
                    assert(has_category(self.categories_view(), id));
                    let c = category_index(self.categories_view(), id);
                    assert(self.categories_view()[c].id == self.categories_view()[k as int].id);
                }
                return Some(k);
            }
            k = k + 1;
        }
        None
    }

    /// Every category, ordered by name.
    pub fn get_categories(&self) -> (r: Vec<Category>)
        ensures
            r@ == categories_by_name(self.categories_view()),
    {
        sorted_categories(&self.categories)
    }

    /// The category with identity `id`.
    pub fn get_category(&self, id: u128) -> (r: Result<Category, EngineError>)
        requires
            self.wf(),
        ensures
            match r {
                Ok(c) => has_category(self.categories_view(), id) && c == self.categories_view()[category_index(
                    self.categories_view(),
                    id,
                )],
                Err(e) => !has_category(self.categories_view(), id) && e == EngineError::NotFound,
            },
    {
        match self.find_category(id) {
            Some(i) => Ok(self.categories[i].snapshot()),
            None => Err(EngineError::NotFound),
        }
    }

    /// Adds a category; `StoreError` when the identity is taken.
    pub fn create_category(&mut self, id: u128, name: String, description: Option<String>, now: i64) -> (r:
        Result<Category, EngineError>)
        requires
            old(self).wf(),
        ensures
            final(self).wf(),
            final(self).items_view() == old(self).items_view(),
            if has_category(old(self).categories_view(), id) {
                r == Err::<Category, EngineError>(EngineError::StoreError) && final(self).categories_view()
                    == old(self).categories_view()
            } else {
                let c = Category { id, name, description, created_at: now, updated_at: now };
                r == Ok::<Category, EngineError>(c) && final(self).categories_view()
                    == old(self).categories_view().push(c)
            },
    {
        if self.find_category(id).is_some() {
            return Err(EngineError::StoreError);
        }
        let c = Category { id, name, description, created_at: now, updated_at: now };
        let r = c.snapshot();
        self.categories.push(c);
        proof {
            let v = self.categories_view();
            assert forall|a: int, b: int| 0 <= a < v.len() && 0 <= b < v.len() && a != b implies #[trigger] v[a].id
                != #[trigger] v[b].id by {
                if a == v.len() - 1 {
                    assert(old(self).categories_view()[b].id == v[b].id);
                } else if b == v.len() - 1 {
                    assert(old(self).categories_view()[a].id == v[a].id);
                } else {
                    assert(old(self).categories_view()[a].id == v[a].id);
                    assert(old(self).categories_view()[b].id == v[b].id);
                }
            }
        }
        Ok(r)
    }

    /// Replaces the given fields of a category.
    pub fn update_category(
        &mut self,
        id: u128,
        name: Option<String>,
        description: Option<String>,
        now: i64,
    ) -> (r: Result<Category, EngineError>)
        requires
            old(self).wf(),
        ensures
            final(self).wf(),
            final(self).items_view() == old(self).items_view(),
            if has_category(old(self).categories_view(), id) {
                let i = category_index(old(self).categories_view(), id);
                let c = patched_category(old(self).categories_view()[i], name, description, now);
                r == Ok::<Category, EngineError>(c) && final(self).categories_view()
                    == old(self).categories_view().update(i, c)
            } else {
                r == Err::<Category, EngineError>(EngineError::NotFound) && final(self).categories_view()
                    == old(self).categories_view()
            },
    {
        let i = match self.find_category(id) {
            Some(i) => i,
            None => return Err(EngineError::NotFound),
        };
        let c = self.categories.remove(i);
        let nc = Category {
            name: match name {
                Some(n) => n,
                None => c.name,
            },
            description: match description {
                Some(d) => Some(d),
                None => c.description,
            },
            updated_at: now,
            ..c
        };
        let r = nc.snapshot();
        self.categories.insert(i, nc);
        proof {
            assert(self.categories_view() =~= old(self).categories_view().update(i as int, r));
            let v = self.categories_view();
            let o = old(self).categories_view();
            assert forall|a: int, b: int| 0 <= a < v.len() && 0 <= b < v.len() && a != b implies #[trigger] v[a].id
                != #[trigger] v[b].id by {
                assert(v[a].id == o[a].id);
                assert(v[b].id == o[b].id);
            }
        }
        Ok(r)
    }

    /// Deletes a category; `NotFound` when there is none with that identity.
    pub fn delete_category(&mut self, id: u128) -> (r: Result<(), EngineError>)
        requires
            old(self).wf(),
        ensures
            final(self).wf(),
            final(self).items_view() == old(self).items_view(),
            if has_category(old(self).categories_view(), id) {
                r is Ok && final(self).categories_view() == old(self).categories_view().remove(
                    category_index(old(self).categories_view(), id),
                )
            } else {
                r == Err::<(), EngineError>(EngineError::NotFound) && final(self).categories_view()
                    == old(self).categories_view()
            },
    {
        let i = match self.find_category(id) {
            Some(i) => i,
            None => return Err(EngineError::NotFound),
        };
        self.categories.remove(i);
        proof {
            let v = self.categories_view();
            let o = old(self).categories_view();
            assert forall|a: int, b: int| 0 <= a < v.len() && 0 <= b < v.len() && a != b implies #[trigger] v[a].id
                != #[trigger] v[b].id by {
                let oa = if a < i { a } else { a + 1 };
                let ob = if b < i { b } else { b + 1 };
                assert(v[a].id == o[oa].id);
                assert(v[b].id == o[ob].id);
            }
        }
        Ok(())
    }

    /// Every item, ordered by name.
    pub fn get_items(&self) -> (r: Vec<Item>)
        ensures
            r@ == items_by_name(self.items_view()),
    {
        sorted_items(&self.items)
    }

    /// The items of one category, ordered by name.
    pub fn get_items_by_category(&self, category_id: u128) -> (r: Vec<Item>)
        ensures
            r@ == items_by_name(items_in_category(self.items_view(), category_id)),
    {
        let mut r: Vec<Item> = Vec::new();
        let mut k: usize = 0;
        while k < self.items.len()
            invariant
                k <= self.items@.len(),
                r@ =~= items_in_category(self.items@.take(k as int), category_id),
            decreases self.items@.len() - k,
        {
            proof {
                assert(self.items@.take(k + 1).drop_last() =~= self.items@.take(k as int));
            }
            if self.items[k].category_id == category_id {
                r.push(self.items[k].snapshot());
            }
            k = k + 1;
        }
        assert(self.items@.take(k as int) =~= self.items@);
        sorted_items(&r)
    }

    /// The item with identity `id`.
    pub fn get_item(&self, id: u128) -> (r: Result<Item, EngineError>)
        requires
            self.wf(),
        ensures
            match r {
                Ok(it) => has_item(self.items_view(), id) && it == self.items_view()[item_index(
                    self.items_view(),
                    id,
                )],
                Err(e) => !has_item(self.items_view(), id) && e == EngineError::NotFound,
            },
    {
        match self.find_item(id) {
            Some(i) => Ok(self.items[i].snapshot()),
            None => Err(EngineError::NotFound),
        }
    }

    /// Adds an item, in stock unless `in_stock` says otherwise; `StoreError`
    /// when the identity is taken.
    pub fn create_item(
        &mut self,
        id: u128,
        name: String,
        description: Option<String>,
        price: u64,
        category_id: u128,
        sku: Option<String>,
        in_stock: Option<bool>,
        now: i64,
    ) -> (r: Result<Item, EngineError>)
        requires
            old(self).wf(),
        ensures
            final(self).wf(),
            final(self).categories_view() == old(self).categories_view(),
            if has_item(old(self).items_view(), id) {
                r == Err::<Item, EngineError>(EngineError::StoreError) && final(self).items_view()
                    == old(self).items_view()
            } else {
                let it = Item {
                    id,
                    name,
                    description,
                    price,
                    category_id,
                    sku,
                    in_stock: match in_stock {
                        Some(b) => b,
                        None => true,
                    },
                    created_at: now,
                    updated_at: now,
                };
                r == Ok::<Item, EngineError>(it) && final(self).items_view() == old(self).items_view().push(it)
            },
    {
        if self.find_item(id).is_some() {
            return Err(EngineError::StoreError);
        }
        let stocked = match in_stock {
            Some(b) => b,
            None => true,
        };
        let it = Item {
            id,
            name,
            description,
            price,
            category_id,
            sku,
            in_stock: stocked,
            created_at: now,
            updated_at: now,
        };
        let r = it.snapshot();
        self.items.push(it);
        proof {
            let v = self.items_view();
            assert forall|a: int, b: int| 0 <= a < v.len() && 0 <= b < v.len() && a != b implies #[trigger] v[a].id
                != #[trigger] v[b].id by {
                if a == v.len() - 1 {
                    assert(old(self).items_view()[b].id == v[b].id);
                } else if b == v.len() - 1 {
                    assert(old(self).items_view()[a].id == v[a].id);
                } else {
                    assert(old(self).items_view()[a].id == v[a].id);
                    assert(old(self).items_view()[b].id == v[b].id);
                }
            }
        }
        Ok(r)
    }

    /// Replaces the fields of an item that `update` gives.
    pub fn update_item(&mut self, id: u128, update: ItemUpdate, now: i64) -> (r: Result<Item, EngineError>)
        requires
            old(self).wf(),
        ensures
            final(self).wf(),
            final(self).categories_view() == old(self).categories_view(),
            if has_item(old(self).items_view(), id) {
                let i = item_index(old(self).items_view(), id);
                let it = patched_item(old(self).items_view()[i], update, now);
                r == Ok::<Item, EngineError>(it) && final(self).items_view() == old(self).items_view().update(i, it)
            } else {
                r == Err::<Item, EngineError>(EngineError::NotFound) && final(self).items_view()
                    == old(self).items_view()
            },
    {
        let i = match self.find_item(id) {
            Some(i) => i,
            None => return Err(EngineError::NotFound),
        };
        let it = self.items.remove(i);
        let nit = Item {
            name: match update.name {
                Some(n) => n,
                None => it.name,
            },
            description: match update.description {
                Some(d) => Some(d),
                None => it.description,
            },
            price: match update.price {
                Some(p) => p,
                None => it.price,
            },
            category_id: match update.category_id {
                Some(c) => c,
                None => it.category_id,
            },
            sku: match update.sku {
                Some(k) => Some(k),
                None => it.sku,
            },
            in_stock: match update.in_stock {
                Some(b) => b,
                None => it.in_stock,
            },
            updated_at: now,
            ..it
        };
        let r = nit.snapshot();
        self.items.insert(i, nit);
        proof {
            assert(self.items_view() =~= old(self).items_view().update(i as int, r));
            let v = self.items_view();
            let o = old(self).items_view();
            assert forall|a: int, b: int| 0 <= a < v.len() && 0 <= b < v.len() && a != b implies #[trigger] v[a].id
                != #[trigger] v[b].id by {
                assert(v[a].id == o[a].id);
                assert(v[b].id == o[b].id);
            }
        }
        Ok(r)
    }

    /// Deletes an item; `NotFound` when there is none with that identity.
    /// Lines that already name the item keep their price snapshot.
    pub fn delete_item(&mut self, id: u128) -> (r: Result<(), EngineError>)
        requires
            old(self).wf(),
        ensures
            final(self).wf(),
            final(self).categories_view() == old(self).categories_view(),
            if has_item(old(self).items_view(), id) {
                r is Ok && final(self).items_view() == old(self).items_view().remove(
                    item_index(old(self).items_view(), id),
                )
            } else {
                r == Err::<(), EngineError>(EngineError::NotFound) && final(self).items_view()
                    == old(self).items_view()
            },
    {
        let i = match self.find_item(id) {
            Some(i) => i,
            None => return Err(EngineError::NotFound),
        };
        self.items.remove(i);
        proof {
            let v = self.items_view();
            let o = old(self).items_view();
            assert forall|a: int, b: int| 0 <= a < v.len() && 0 <= b < v.len() && a != b implies #[trigger] v[a].id
                != #[trigger] v[b].id by {
                let oa = if a < i { a } else { a + 1 };
                let ob = if b < i { b } else { b + 1 };
                assert(v[a].id == o[oa].id);
                assert(v[b].id == o[ob].id);
            }
        }
        Ok(())
    }

    /// The category of an item, or `None` when the item is unknown.
    pub fn item_category(&self, id: u128) -> (r: Option<u128>)
        requires
            self.wf(),
        ensures
            r == item_category_of(self.items_view(), id),
    {
        match self.find_item(id) {
            Some(i) => Some(self.items[i].category_id),
            None => None,
        }
    }

    /// The name of a category, or `None` when it is unknown.
    pub fn category_name(&self, id: u128) -> (r: Option<String>)
        requires
            self.wf(),
        ensures
            match r {
                Some(n) => category_name_of(self.categories_view(), id) == Some(n@),
                None => category_name_of(self.categories_view(), id) is None,
            },
    {
        match self.find_category(id) {
            Some(i) => Some(self.categories[i].name.clone()),
            None => None,
        }
    }

    /// The name of an item, or `None` when it is unknown.
    pub fn item_name(&self, id: u128) -> (r: Option<String>)
        requires
            self.wf(),
        ensures
            match r {
                Some(n) => item_name_of(self.items_view(), id) == Some(n@),
                None => item_name_of(self.items_view(), id) is None,
            },
    {
        match self.find_item(id) {
            Some(i) => Some(self.items[i].name.clone()),
            None => None,
        }
    }

    /// The price and stock flag of an item, or `None` when it is unknown.
    pub fn item_info(&self, id: u128) -> (r: Option<ItemInfo>)
        requires
            self.wf(),
        ensures
            r == item_info_of(self.items_view(), id),
    {
        match self.find_item(id) {
            Some(i) => Some(ItemInfo { price: self.items[i].price, in_stock: self.items[i].in_stock }),
            None => None,
        }
    }
}

} // verus!
