//! Sales repository: atomic sale creation (header plus line items), listing
//! with derived subtotals, and deletion with its dependent items.

use vstd::prelude::*;

use crate::clock::now_unix_seconds;
use crate::data::{clone_string, Fault, Sale, SaleItem, SaleItemRow, SaleRow, Transaction,
    TransactionItem, SCALE};
use crate::store::{sale_id_exists, Store};

verus! {

/// Seconds in one calendar day; sale timestamps split into a day number and
/// a second-of-day below this bound.
pub const SECONDS_PER_DAY: u64 = 86400;

/// The line items belonging to one sale, in insertion order.
pub open spec fn items_for_sale(items: Seq<SaleItemRow>, id: i64) -> Seq<SaleItemRow>
    decreases items.len(),
{
    if items.len() == 0 {
        Seq::empty()
    } else if items.last().sale_id == id {
        items_for_sale(items.drop_last(), id).push(items.last())
    } else {
        items_for_sale(items.drop_last(), id)
    }
}

/// The sale headers with the given identity removed; order kept.
pub open spec fn without_sale(sales: Seq<SaleRow>, id: i64) -> Seq<SaleRow>
    decreases sales.len(),
{
    if sales.len() == 0 {
        Seq::empty()
    } else if sales.last().id == id {
        without_sale(sales.drop_last(), id)
    } else {
        without_sale(sales.drop_last(), id).push(sales.last())
    }
}

/// The line items with every row of the given sale removed; order kept.
pub open spec fn without_sale_items(items: Seq<SaleItemRow>, id: i64) -> Seq<SaleItemRow>
    decreases items.len(),
{
    if items.len() == 0 {
        Seq::empty()
    } else if items.last().sale_id == id {
        without_sale_items(items.drop_last(), id)
    } else {
        without_sale_items(items.drop_last(), id).push(items.last())
    }
}

/// The stored rows a sale request's items turn into, each referencing the
/// freshly assigned identity, in the order given.
pub open spec fn item_rows_of(sale_id: i64, items: Seq<SaleItem>) -> Seq<SaleItemRow> {
    Seq::new(
        items.len(),
        |i: int|
            SaleItemRow {
                sale_id: sale_id,
                name: items[i].name,
                price: items[i].price,
                quantity: items[i].quantity,
                unit: items[i].unit,
            },
    )
}

/// A line's subtotal in fixed-point steps: price times quantity, scaled back
/// to thousandths.
pub open spec fn item_subtotal(r: SaleItemRow) -> int {
    (r.price * r.quantity) / (SCALE as int)
}

/// Every line item's subtotal fits the storage representation.
pub open spec fn tx_items_ok(items: Seq<SaleItemRow>) -> bool {
    forall|k: int| 0 <= k < items.len() ==> item_subtotal(#[trigger] items[k]) <= u64::MAX
}

/// The listed form of one stored line item.
pub open spec fn tx_item_of(r: SaleItemRow) -> TransactionItem {
    TransactionItem {
        name: r.name,
        price: r.price,
        quantity: r.quantity,
        unit: r.unit,
        subtotal: item_subtotal(r) as u64,
    }
}

/// The listed form of a sequence of stored line items.
pub open spec fn tx_items_view(items: Seq<SaleItemRow>) -> Seq<TransactionItem> {
    items.map_values(|r: SaleItemRow| tx_item_of(r))
}

/// A listed transaction agrees with a stored header: same header fields, and
/// exactly that sale's line items with derived subtotals.
pub open spec fn tx_matches(s: Store, t: Transaction, row: SaleRow) -> bool {
    &&& t.id == row.id
    &&& t.total_amount == row.total_amount
    &&& t.currency == row.currency
    &&& t.date == row.date
    &&& t.time == row.time
    &&& t.items@ == tx_items_view(items_for_sale(s.sale_items@, row.id))
}

/// What recording a sale does: on success the header goes in under the next
/// identity with the given timestamp, every item row follows in order, and
/// the counter advances; the only failure is an exhausted identity counter,
/// which changes nothing.
pub open spec fn sale_recorded(
    pre: Store,
    post: Store,
    sale: Sale,
    date: u64,
    time: u64,
    r: Result<i64, Fault>,
) -> bool {
    match r {
        Ok(sid) => {
            &&& pre.next_sale_id < i64::MAX
            &&& sid == pre.next_sale_id
            &&& post.sales@ == pre.sales@.push(
                SaleRow {
                    id: sid,
                    total_amount: sale.total_amount,
                    currency: sale.currency,
                    date: date,
                    time: time,
                },
            )
            &&& post.sale_items@ == pre.sale_items@ + item_rows_of(sid, sale.products@)
            &&& post.next_sale_id == pre.next_sale_id + 1
            &&& post.settings == pre.settings
            &&& post.products == pre.products
            &&& post.next_product_id == pre.next_product_id
        },
        Err(f) => {
            &&& f == Fault::Storage
            &&& pre.next_sale_id == i64::MAX
            &&& post == pre
        },
    }
}

impl Store {
    /// Records a sale at the given timestamp: the header first, then each
    /// line item referencing the new identity, as one all-or-nothing unit.
    /// Fails with a storage fault exactly when the identity counter is
    /// exhausted.
    pub fn record_sale(&mut self, sale: Sale, date: u64, time: u64) -> (r: Result<i64, Fault>)
        requires
            old(self).wf(),
        ensures
            final(self).wf(),
            sale_recorded(*old(self), *final(self), sale, date, time, r),
    {
        if self.next_sale_id == i64::MAX {
            return Err(Fault::Storage);
        }
        let sid = self.next_sale_id;
        let header = SaleRow {
            id: sid,
            total_amount: sale.total_amount,
            currency: sale.currency,
            date: date,
            time: time,
        };
        self.sales.push(header);
        let items = sale.products;
        let m = items.len();
        let mut rows: Vec<SaleItemRow> = Vec::new();
        let mut j: usize = 0;
        while j < m
            invariant
                m == items.len(),
                j <= m,
                rows@ == item_rows_of(sid, items@.take(j as int)),
            decreases m - j,
        {
            let row = SaleItemRow {
                sale_id: sid,
                name: clone_string(&items[j].name),
                price: items[j].price,
                quantity: items[j].quantity,
                unit: clone_string(&items[j].unit),
            };
            rows.push(row);
            proof {
                assert(rows@ =~= item_rows_of(sid, items@.take(j + 1)));
            }
            j = j + 1;
        }
        proof {
            assert(items@.take(m as int) =~= items@);
        }
        self.sale_items.append(&mut rows);
        self.next_sale_id = sid + 1;
        proof {
            let post = *self;
            let pre = *old(self);
            assert forall|k: int| 0 <= k < post.sale_items@.len() implies sale_id_exists(
                post.sales@,
                (#[trigger] post.sale_items[k]).sale_id,
            ) by {
                if k < pre.sale_items@.len() {
                    let i = choose|i: int|
                        0 <= i < pre.sales@.len() && (#[trigger] pre.sales@[i]).id
                            == pre.sale_items@[k].sale_id;
                    assert(post.sales@[i].id == pre.sale_items@[k].sale_id);
                } else {
                    assert(post.sales@[pre.sales@.len() as int].id == sid);
                }
            }
        }
        Ok(sid)
    }

    /// Records a sale dated and timed by the machine clock at insertion; the
    /// caller supplies no business time. Otherwise exactly
    /// [`Store::record_sale`].
    pub fn add_sale(&mut self, sale: Sale) -> (r: Result<i64, Fault>)
        requires
            old(self).wf(),
        ensures
            final(self).wf(),
            exists|date: u64, time: u64|
                time < SECONDS_PER_DAY && #[trigger] sale_recorded(
                    *old(self),
                    *final(self),
                    sale,
                    date,
                    time,
                    r,
                ),
    {
        let now = now_unix_seconds();
        let date = now / SECONDS_PER_DAY;
        let time = now % SECONDS_PER_DAY;
        let r = self.record_sale(sale, date, time);
        r
    }

    /// Lists every sale, newest first, each with its line items in insertion
    /// order and each item's subtotal derived as price times quantity. Fails
    /// with a storage fault exactly when some subtotal does not fit the
    /// storage representation.
    pub fn get_transactions(&self) -> (r: Result<Vec<Transaction>, Fault>)
        requires
            self.wf(),
        ensures
            match r {
                Ok(ts) => {
                    &&& tx_items_ok(self.sale_items@)
                    &&& ts@.len() == self.sales@.len()
                    &&& forall|i: int|
                        0 <= i < ts@.len() ==> tx_matches(
                            *self,
                            #[trigger] ts@[i],
                            self.sales@[self.sales@.len() - 1 - i],
                        )
                },
                Err(f) => f == Fault::Storage && !tx_items_ok(self.sale_items@),
            },
    {
        let m = self.sale_items.len();
        let mut j: usize = 0;
        while j < m
            invariant
                m == self.sale_items.len(),
                j <= m,
                forall|k: int|
                    0 <= k < j ==> item_subtotal(#[trigger] self.sale_items@[k]) <= u64::MAX,
            decreases m - j,
        {
            let it = &self.sale_items[j];
            if subtotal_milli(it.price, it.quantity).is_none() {
                return Err(Fault::Storage);
            }
            j = j + 1;
        }
        let n = self.sales.len();
        let mut out: Vec<Transaction> = Vec::new();
        let mut i: usize = 0;
        while i < n
            invariant
                self.wf(),
                tx_items_ok(self.sale_items@),
                n == self.sales.len(),
                m == self.sale_items.len(),
                i <= n,
                out@.len() == i,
                forall|k: int|
                    0 <= k < i ==> tx_matches(*self, #[trigger] out@[k], self.sales@[n - 1 - k]),
            decreases n - i,
        {
            let row = &self.sales[n - 1 - i];
            let sid = row.id;
            let mut titems: Vec<TransactionItem> = Vec::new();
            let mut j2: usize = 0;
            while j2 < m
                invariant
                    self.wf(),
                    tx_items_ok(self.sale_items@),
                    m == self.sale_items.len(),
                    j2 <= m,
                    titems@ == tx_items_view(items_for_sale(self.sale_items@.take(j2 as int), sid)),
                decreases m - j2,
            {
                proof {
                    assert(self.sale_items@.take(j2 + 1).drop_last() =~= self.sale_items@.take(
                        j2 as int,
                    ));
                    assert(self.sale_items@.take(j2 + 1).last() == self.sale_items@[j2 as int]);
                }
                let it = &self.sale_items[j2];
                if it.sale_id == sid {
                    let sub = match subtotal_milli(it.price, it.quantity) {
                        Some(v) => v,
                        None => {
                            proof {
                                assert(item_subtotal(self.sale_items@[j2 as int]) <= u64::MAX);
                            }
                            return Err(Fault::Storage);
                        },
                    };
                    let titem = TransactionItem {
                        name: clone_string(&it.name),
                        price: it.price,
                        quantity: it.quantity,
                        unit: clone_string(&it.unit),
                        subtotal: sub,
                    };
                    titems.push(titem);
                    proof {
                        assert(titems@ =~= tx_items_view(
                            items_for_sale(self.sale_items@.take(j2 + 1), sid),
                        ));
                    }
                }
                j2 = j2 + 1;
            }
            proof {
                assert(self.sale_items@.take(m as int) =~= self.sale_items@);
            }
            let t = Transaction {
                id: sid,
                items: titems,
                total_amount: row.total_amount,
                currency: clone_string(&row.currency),
                date: row.date,
                time: row.time,
            };
            out.push(t);
            i = i + 1;
        }
        Ok(out)
    }

    /// Deletes the sale with the given identity: its line items go first,
    /// then the header, so no orphaned item can remain. Deleting an unknown
    /// identity is a silent no-op, not a fault.
    pub fn delete_transaction(&mut self, id: i64)
        requires
            old(self).wf(),
        ensures
            final(self).wf(),
            final(self).sale_items@ == without_sale_items(old(self).sale_items@, id),
            final(self).sales@ == without_sale(old(self).sales@, id),
            final(self).settings == old(self).settings,
            final(self).products == old(self).products,
            final(self).next_product_id == old(self).next_product_id,
            final(self).next_sale_id == old(self).next_sale_id,
    {
        let m = self.sale_items.len();
        let mut kept_items: Vec<SaleItemRow> = Vec::new();
        let mut j: usize = 0;
        while j < m
            invariant
                m == self.sale_items.len(),
                j <= m,
                kept_items@ == without_sale_items(self.sale_items@.take(j as int), id),
            decreases m - j,
        {
            proof {
                assert(self.sale_items@.take(j + 1).drop_last() =~= self.sale_items@.take(
                    j as int,
                ));
                assert(self.sale_items@.take(j + 1).last() == self.sale_items@[j as int]);
            }
            let it = &self.sale_items[j];
            if it.sale_id != id {
                kept_items.push(crate::data::clone_sale_item_row(it));
            }
            j = j + 1;
        }
        let n = self.sales.len();
        let mut kept_sales: Vec<SaleRow> = Vec::new();
        let mut i: usize = 0;
        while i < n
            invariant
                n == self.sales.len(),
                i <= n,
                kept_sales@ == without_sale(self.sales@.take(i as int), id),
            decreases n - i,
        {
            proof {
                assert(self.sales@.take(i + 1).drop_last() =~= self.sales@.take(i as int));
                assert(self.sales@.take(i + 1).last() == self.sales@[i as int]);
            }
            let row = &self.sales[i];
            if row.id != id {
                let copy = SaleRow {
                    id: row.id,
                    total_amount: row.total_amount,
                    currency: clone_string(&row.currency),
                    date: row.date,
                    time: row.time,
                };
                kept_sales.push(copy);
            }
            i = i + 1;
        }
        proof {
            assert(self.sale_items@.take(m as int) =~= self.sale_items@);
            assert(self.sales@.take(n as int) =~= self.sales@);
            lemma_without_sale_structure(self.sales@, id);
            lemma_without_sale_items_structure(self.sale_items@, id);
            lemma_without_sale_keeps_other_ids(self.sales@, id);
        }
        self.sale_items = kept_items;
        self.sales = kept_sales;
        proof {
            let post = *self;
            let pre = *old(self);
            assert forall|k: int| 0 <= k < post.sale_items@.len() implies sale_id_exists(
                post.sales@,
                (#[trigger] post.sale_items[k]).sale_id,
            ) by {
                let j0 = choose|j0: int|
                    0 <= j0 < pre.sale_items@.len() && (#[trigger] post.sale_items@[k]) == (
                    pre.sale_items@[j0]);
                assert(sale_id_exists(pre.sales@, pre.sale_items@[j0].sale_id));
            }
        }
    }
}

/// A fixed-point subtotal: price times quantity in thousandth-steps, or
/// nothing when the result does not fit the storage representation.
fn subtotal_milli(price: u64, quantity: u64) -> (r: Option<u64>)
    ensures
        match r {
            Some(v) => v == (price * quantity) / (SCALE as int) && (price * quantity) / (
            SCALE as int) <= u64::MAX,
            None => (price * quantity) / (SCALE as int) > u64::MAX,
        },
{
    proof {
        assert(price * quantity <= u128::MAX) by (nonlinear_arith)
            requires
                price <= u64::MAX,
                quantity <= u64::MAX,
        ;
    }
    let prod: u128 = (price as u128) * (quantity as u128);
    let sub: u128 = prod / (SCALE as u128);
    if sub > u64::MAX as u128 {
        None
    } else {
        Some(sub as u64)
    }
}

/// Every row kept by [`without_sale`] is one of the original headers, its
/// identity differs from the removed one, and any strict ascent of
/// identities is preserved.
pub proof fn lemma_without_sale_structure(sales: Seq<SaleRow>, id: i64)
    ensures
        without_sale(sales, id).len() <= sales.len(),
        forall|k: int|
            0 <= k < without_sale(sales, id).len() ==> (#[trigger] without_sale(sales, id)[k]).id
                != id,
        forall|k: int|
            0 <= k < without_sale(sales, id).len() ==> exists|j: int|
                0 <= j < sales.len() && (#[trigger] without_sale(sales, id)[k]) == (
                #[trigger] sales[j]),
        (forall|i: int, j: int|
            0 <= i < j < sales.len() ==> (#[trigger] sales[i]).id < (#[trigger] sales[j]).id)
            ==> forall|i: int, j: int|
            0 <= i < j < without_sale(sales, id).len() ==> (#[trigger] without_sale(sales, id)[i]).id
                < (#[trigger] without_sale(sales, id)[j]).id,
    decreases sales.len(),
{
    if sales.len() == 0 {
    } else {
        let butlast = sales.drop_last();
        lemma_without_sale_structure(butlast, id);
        assert(forall|j: int| 0 <= j < butlast.len() ==> butlast[j] == sales[j]);
        let sub = without_sale(butlast, id);
        if sales.last().id != id {
            let whole = without_sale(sales, id);
            assert(whole == sub.push(sales.last()));
            assert(forall|k: int| 0 <= k < sub.len() ==> whole[k] == sub[k]);
            assert(whole[whole.len() - 1] == sales.last());
            assert(sales.last() == sales[sales.len() - 1]);
            if forall|i: int, j: int|
                0 <= i < j < sales.len() ==> (#[trigger] sales[i]).id < (#[trigger] sales[j]).id {
                assert forall|i: int, j: int|
                    0 <= i < j < whole.len() implies (#[trigger] whole[i]).id < (
                #[trigger] whole[j]).id by {
                    if j < whole.len() - 1 {
                    } else {
                        let ji = choose|ji: int|
                            0 <= ji < butlast.len() && whole[i] == butlast[ji];
                        assert(sales[ji].id < sales.last().id);
                    }
                }
            }
        }
    }
}

/// Every row kept by [`without_sale_items`] is one of the original line
/// items and references a different sale than the removed one.
pub proof fn lemma_without_sale_items_structure(items: Seq<SaleItemRow>, id: i64)
    ensures
        without_sale_items(items, id).len() <= items.len(),
        forall|k: int|
            0 <= k < without_sale_items(items, id).len() ==> (#[trigger] without_sale_items(
                items,
                id,
            )[k]).sale_id != id,
        forall|k: int|
            0 <= k < without_sale_items(items, id).len() ==> exists|j: int|
                0 <= j < items.len() && (#[trigger] without_sale_items(items, id)[k]) == (
                #[trigger] items[j]),
    decreases items.len(),
{
    if items.len() == 0 {
    } else {
        let butlast = items.drop_last();
        lemma_without_sale_items_structure(butlast, id);
        assert(forall|j: int| 0 <= j < butlast.len() ==> butlast[j] == items[j]);
        let sub = without_sale_items(butlast, id);
        if items.last().sale_id != id {
            let whole = without_sale_items(items, id);
            assert(whole == sub.push(items.last()));
            assert(forall|k: int| 0 <= k < sub.len() ==> whole[k] == sub[k]);
            assert(items.last() == items[items.len() - 1]);
        }
    }
}

/// Deleting one sale's headers keeps every other identity reachable.
pub proof fn lemma_without_sale_keeps_other_ids(sales: Seq<SaleRow>, id: i64)
    ensures
        forall|x: i64|
            #[trigger] sale_id_exists(sales, x) && x != id ==> sale_id_exists(
                without_sale(sales, id),
                x,
            ),
    decreases sales.len(),
{
    if sales.len() > 0 {
        let butlast = sales.drop_last();
        lemma_without_sale_keeps_other_ids(butlast, id);
        assert(forall|j: int| 0 <= j < butlast.len() ==> butlast[j] == sales[j]);
        let sub = without_sale(butlast, id);
        assert forall|x: i64| #[trigger] sale_id_exists(sales, x) && x != id implies sale_id_exists(
            without_sale(sales, id),
            x,
        ) by {
            let i = choose|i: int| 0 <= i < sales.len() && (#[trigger] sales[i]).id == x;
            if i < sales.len() - 1 {
                assert(sale_id_exists(butlast, x));
                let k = choose|k: int| 0 <= k < sub.len() && (#[trigger] sub[k]).id == x;
                if sales.last().id != id {
                    assert(without_sale(sales, id)[k] == sub[k]);
                }
            } else {
                assert(sales.last().id == x);
                let whole = without_sale(sales, id);
                assert(whole[whole.len() - 1] == sales.last());
            }
        }
    }
}

/// No orphaned line item: after deleting a sale's rows, that sale has no
/// items left.
pub proof fn lemma_delete_leaves_no_orphans(items: Seq<SaleItemRow>, id: i64)
    ensures
        items_for_sale(without_sale_items(items, id), id) == Seq::<SaleItemRow>::empty(),
{
    lemma_without_sale_items_structure(items, id);
    lemma_items_for_sale_empty(without_sale_items(items, id), id);
}

/// A sequence in which no row references the identity filters down to
/// nothing for it.
proof fn lemma_items_for_sale_empty(items: Seq<SaleItemRow>, id: i64)
    requires
        forall|k: int| 0 <= k < items.len() ==> (#[trigger] items[k]).sale_id != id,
    ensures
        items_for_sale(items, id) == Seq::<SaleItemRow>::empty(),
    decreases items.len(),
{
    if items.len() > 0 {
        assert(forall|k: int|
            0 <= k < items.drop_last().len() ==> (#[trigger] items.drop_last()[k]).sale_id != id);
        lemma_items_for_sale_empty(items.drop_last(), id);
    }
}

/// Deleting an identity that no header carries leaves the headers unchanged.
pub proof fn lemma_without_absent_sale_unchanged(sales: Seq<SaleRow>, id: i64)
    requires
        !sale_id_exists(sales, id),
    ensures
        without_sale(sales, id) == sales,
    decreases sales.len(),
{
    if sales.len() > 0 {
        assert(forall|j: int| 0 <= j < sales.len() ==> (#[trigger] sales[j]).id != id);
        assert(!sale_id_exists(sales.drop_last(), id)) by {
            assert(forall|j: int|
                0 <= j < sales.drop_last().len() ==> (#[trigger] sales.drop_last()[j]).id != id);
        }
        lemma_without_absent_sale_unchanged(sales.drop_last(), id);
        assert(without_sale(sales, id) =~= sales);
    }
}

/// Deleting a sale no item row references leaves the item rows unchanged.
pub proof fn lemma_without_absent_sale_items_unchanged(items: Seq<SaleItemRow>, id: i64)
    requires
        forall|k: int| 0 <= k < items.len() ==> (#[trigger] items[k]).sale_id != id,
    ensures
        without_sale_items(items, id) == items,
    decreases items.len(),
{
    if items.len() > 0 {
        assert(forall|k: int|
            0 <= k < items.drop_last().len() ==> (#[trigger] items.drop_last()[k]).sale_id != id);
        lemma_without_absent_sale_items_unchanged(items.drop_last(), id);
        assert(without_sale_items(items, id) =~= items);
    }
}

} // verus!
