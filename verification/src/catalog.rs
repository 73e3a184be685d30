//! Catalog repository: product listing, insertion and deletion.

use vstd::prelude::*;

use crate::data::{clone_product, Fault, NewProduct, Product};
use crate::store::Store;

verus! {

/// The catalog with every row of the given identity removed; insertion order
/// of the remaining rows is kept.
pub open spec fn without_id(products: Seq<Product>, id: i64) -> Seq<Product>
    decreases products.len(),
{
    if products.len() == 0 {
        Seq::empty()
    } else if products.last().id == id {
        without_id(products.drop_last(), id)
    } else {
        without_id(products.drop_last(), id).push(products.last())
    }
}

/// Every row kept by [`without_id`] is one of the original rows, its
/// identity differs from the removed one, and the original order (hence any
/// strict ascent of identities) is preserved.
pub proof fn lemma_without_id_structure(products: Seq<Product>, id: i64)
    ensures
        without_id(products, id).len() <= products.len(),
        forall|k: int|
            0 <= k < without_id(products, id).len() ==> (#[trigger] without_id(products, id)[k]).id
                != id,
        forall|k: int|
            0 <= k < without_id(products, id).len() ==> exists|j: int|
                0 <= j < products.len() && (#[trigger] without_id(products, id)[k]) == (
                #[trigger] products[j]),
        (forall|i: int, j: int|
            0 <= i < j < products.len() ==> (#[trigger] products[i]).id < (
            #[trigger] products[j]).id) ==> forall|i: int, j: int|
            0 <= i < j < without_id(products, id).len() ==> (#[trigger] without_id(products, id)[i]).id
                < (#[trigger] without_id(products, id)[j]).id,
    decreases products.len(),
{
    if products.len() == 0 {
    } else {
        let butlast = products.drop_last();
        lemma_without_id_structure(butlast, id);
        assert(forall|j: int| 0 <= j < butlast.len() ==> butlast[j] == products[j]);
        let sub = without_id(butlast, id);
        if products.last().id != id {
            let whole = without_id(products, id);
            assert(whole == sub.push(products.last()));
            assert(forall|k: int| 0 <= k < sub.len() ==> whole[k] == sub[k]);
            assert(whole[whole.len() - 1] == products.last());
            assert(products.last() == products[products.len() - 1]);
            if forall|i: int, j: int|
                0 <= i < j < products.len() ==> (#[trigger] products[i]).id < (
                #[trigger] products[j]).id {
                assert forall|i: int, j: int|
                    0 <= i < j < whole.len() implies (#[trigger] whole[i]).id < (
                #[trigger] whole[j]).id by {
                    if j < whole.len() - 1 {
                    } else {
                        let ji = choose|ji: int|
                            0 <= ji < butlast.len() && whole[i] == butlast[ji];
                        assert(products[ji].id < products.last().id);
                    }
                }
            }
        }
    }
}

/// Deleting a present identity removes exactly one row: with identities
/// strictly ascending, the count drops by one. Together with
/// [`lemma_without_absent_id_unchanged`] the catalog count is the number of
/// insertions minus the number of deletions that found their row.
pub proof fn lemma_without_present_id_len(products: Seq<Product>, id: i64)
    requires
        forall|i: int, j: int|
            0 <= i < j < products.len() ==> (#[trigger] products[i]).id < (
            #[trigger] products[j]).id,
        exists|i: int| 0 <= i < products.len() && (#[trigger] products[i]).id == id,
    ensures
        without_id(products, id).len() == products.len() - 1,
    decreases products.len(),
{
    let butlast = products.drop_last();
    assert(forall|j: int| 0 <= j < butlast.len() ==> butlast[j] == products[j]);
    if products.last().id == id {
        assert forall|j: int| 0 <= j < butlast.len() implies (#[trigger] butlast[j]).id != id by {
            assert(products[j].id < products[products.len() - 1].id);
        }
        lemma_without_absent_id_unchanged(butlast, id);
    } else {
        let i = choose|i: int| 0 <= i < products.len() && (#[trigger] products[i]).id == id;
        assert(products[i].id == id);
        assert(i < products.len() - 1);
        assert(butlast[i].id == id);
        lemma_without_present_id_len(butlast, id);
    }
}

/// Removing an identity that occurs nowhere leaves the catalog unchanged.
pub proof fn lemma_without_absent_id_unchanged(products: Seq<Product>, id: i64)
    requires
        forall|i: int| 0 <= i < products.len() ==> (#[trigger] products[i]).id != id,
    ensures
        without_id(products, id) == products,
    decreases products.len(),
{
    if products.len() > 0 {
        lemma_without_absent_id_unchanged(products.drop_last(), id);
        assert(without_id(products, id) =~= products);
    }
}

impl Store {
    /// All products, newest first: the rows in strict identity-descending
    /// order, or an empty list if none exist.
    pub fn get_products(&self) -> (r: Vec<Product>)
        requires
            self.wf(),
        ensures
            r@ == self.products@.reverse(),
    {
        let mut out: Vec<Product> = Vec::new();
        let n = self.products.len();
        let mut i: usize = 0;
        while i < n
            invariant
                n == self.products.len(),
                i <= n,
                out@.len() == i,
                forall|k: int| 0 <= k < i ==> out@[k] == self.products@[n - 1 - k],
            decreases n - i,
        {
            out.push(clone_product(&self.products[n - 1 - i]));
            i = i + 1;
        }
        assert(out@ =~= self.products@.reverse());
        out
    }

    /// Inserts a product, assigning the next identity and advancing the
    /// counter. Fails with a storage fault exactly when the identity counter
    /// is exhausted, and then changes nothing.
    pub fn add_product(&mut self, product: NewProduct) -> (r: Result<Product, Fault>)
        requires
            old(self).wf(),
        ensures
            final(self).wf(),
            final(self).settings == old(self).settings,
            final(self).sales == old(self).sales,
            final(self).sale_items == old(self).sale_items,
            final(self).next_sale_id == old(self).next_sale_id,
            match r {
                Ok(p) => {
                    &&& old(self).next_product_id < i64::MAX
                    &&& p.id == old(self).next_product_id
                    &&& p.name == product.name
                    &&& p.price == product.price
                    &&& p.unit == product.unit
                    &&& final(self).products@ == old(self).products@.push(p)
                    &&& final(self).next_product_id == old(self).next_product_id + 1
                },
                Err(f) => {
                    &&& f == Fault::Storage
                    &&& old(self).next_product_id == i64::MAX
                    &&& *final(self) == *old(self)
                },
            },
    {
        if self.next_product_id == i64::MAX {
            return Err(Fault::Storage);
        }
        let stored = Product {
            id: self.next_product_id,
            name: product.name,
            price: product.price,
            unit: product.unit,
        };
        let returned = clone_product(&stored);
        self.products.push(stored);
        self.next_product_id = self.next_product_id + 1;
        Ok(returned)
    }

    /// Deletes the product with the given identity if it is present; deleting
    /// an unknown identity is a silent no-op, not a fault.
    pub fn delete_product(&mut self, id: i64)
        requires
            old(self).wf(),
        ensures
            final(self).wf(),
            final(self).settings == old(self).settings,
            final(self).sales == old(self).sales,
            final(self).sale_items == old(self).sale_items,
            final(self).next_sale_id == old(self).next_sale_id,
            final(self).next_product_id == old(self).next_product_id,
            final(self).products@ == without_id(old(self).products@, id),
    {
        let n = self.products.len();
        let mut kept: Vec<Product> = Vec::new();
        let mut i: usize = 0;
        while i < n
            invariant
                n == self.products.len(),
                i <= n,
                kept@ == without_id(self.products@.take(i as int), id),
            decreases n - i,
        {
            proof {
                assert(self.products@.take(i + 1).drop_last() =~= self.products@.take(i as int));
                assert(self.products@.take(i + 1).last() == self.products@[i as int]);
            }
            if self.products[i].id != id {
                kept.push(clone_product(&self.products[i]));
            }
            i = i + 1;
        }
        proof {
            assert(self.products@.take(n as int) =~= self.products@);
            lemma_without_id_structure(self.products@, id);
        }
        self.products = kept;
    }
}

/// Listing order law: for a well-formed store the listed catalog is in
/// strict identity-descending order.
pub proof fn lemma_products_listed_descending(s: Store)
    requires
        s.wf(),
    ensures
        forall|i: int, j: int|
            0 <= i < j < s.products@.reverse().len() ==> (#[trigger] s.products@.reverse()[i]).id
                > (#[trigger] s.products@.reverse()[j]).id,
{
    let rev = s.products@.reverse();
    assert forall|i: int, j: int| 0 <= i < j < rev.len() implies (#[trigger] rev[i]).id > (
    #[trigger] rev[j]).id by {
        let n = s.products@.len();
        assert(rev[i] == s.products@[n - 1 - i]);
        assert(rev[j] == s.products@[n - 1 - j]);
    }
}

} // verus!
