//! The store itself: the four tables, their well-formedness invariant, and
//! idempotent schema seeding.

use vstd::prelude::*;

use crate::data::{Product, SaleItemRow, SaleRow, Settings};
use crate::data::{ProductModel, SaleItemRowModel, SaleRowModel, SettingsModel};

verus! {

/// The whole data layer: catalog, singleton settings, sales with their line
/// items, and the two identity counters.
///
/// A freshly opened store has no rows at all; seeding the settings row is the
/// job of [`Store::initialize_database`].
pub struct Store {
    pub settings: Option<Settings>,
    pub products: Vec<Product>,
    pub next_product_id: i64,
    pub sales: Vec<SaleRow>,
    pub sale_items: Vec<SaleItemRow>,
    pub next_sale_id: i64,
}

/// Spec-level model of a whole store.
pub struct StoreModel {
    pub settings: Option<SettingsModel>,
    pub products: Seq<ProductModel>,
    pub next_product_id: i64,
    pub sales: Seq<SaleRowModel>,
    pub sale_items: Seq<SaleItemRowModel>,
    pub next_sale_id: i64,
}

impl DeepView for Store {
    type V = StoreModel;

    open spec fn deep_view(&self) -> StoreModel {
        StoreModel {
            settings: self.settings.deep_view(),
            products: self.products.deep_view(),
            next_product_id: self.next_product_id,
            sales: self.sales.deep_view(),
            sale_items: self.sale_items.deep_view(),
            next_sale_id: self.next_sale_id,
        }
    }
}

impl Store {
    /// Well-formedness: identities are positive, strictly increasing in
    /// insertion order and below their counter, and every line item
    /// references a sale header that exists (referential integrity).
    pub open spec fn wf(self) -> bool {
        &&& 1 <= self.next_product_id
        &&& 1 <= self.next_sale_id
        &&& forall|i: int|
            0 <= i < self.products.len() ==> 1 <= (#[trigger] self.products[i]).id
                < self.next_product_id
        &&& forall|i: int, j: int|
            0 <= i < j < self.products.len() ==> (#[trigger] self.products[i]).id < (
            #[trigger] self.products[j]).id
        &&& forall|i: int|
            0 <= i < self.sales.len() ==> 1 <= (#[trigger] self.sales[i]).id < self.next_sale_id
        &&& forall|i: int, j: int|
            0 <= i < j < self.sales.len() ==> (#[trigger] self.sales[i]).id < (
            #[trigger] self.sales[j]).id
        &&& forall|k: int|
            0 <= k < self.sale_items.len() ==> sale_id_exists(
                self.sales@,
                (#[trigger] self.sale_items[k]).sale_id,
            )
    }

    /// Opens an empty store: no rows, counters at one. This models creating
    /// the backing file; it does not seed the settings row.
    pub fn open() -> (r: Store)
        ensures
            r.wf(),
            r.settings is None,
            r.products@ == Seq::<Product>::empty(),
            r.sales@ == Seq::<SaleRow>::empty(),
            r.sale_items@ == Seq::<SaleItemRow>::empty(),
            r.next_product_id == 1,
            r.next_sale_id == 1,
    {
        Store {
            settings: None,
            products: Vec::new(),
            next_product_id: 1,
            sales: Vec::new(),
            sale_items: Vec::new(),
            next_sale_id: 1,
        }
    }

    /// Creates the schema and seeds the singleton settings row if and only if
    /// none exists yet; safe to call on every startup.
    pub fn initialize_database(&mut self)
        requires
            old(self).wf(),
        ensures
            final(self).wf(),
            old(self).settings is Some ==> *final(self) == *old(self),
            old(self).settings is None ==> exists|d: Settings|
                #![auto]
                settings_is_default(d) && *final(self) == seeded(*old(self), d),
    {
        if self.settings.is_none() {
            let d = default_settings();
            self.settings = Some(d);
        }
    }
}

/// Membership of a sale identity among the stored headers.
pub open spec fn sale_id_exists(sales: Seq<SaleRow>, id: i64) -> bool {
    exists|i: int| 0 <= i < sales.len() && (#[trigger] sales[i]).id == id
}

/// Membership of a sale identity among modelled headers.
pub open spec fn sale_id_exists_m(sales: Seq<SaleRowModel>, id: i64) -> bool {
    exists|i: int| 0 <= i < sales.len() && (#[trigger] sales[i]).id == id
}

/// Well-formedness of a store model: the same invariant as [`Store::wf`],
/// stated over the model.
pub open spec fn wf_model(m: StoreModel) -> bool {
    &&& 1 <= m.next_product_id
    &&& 1 <= m.next_sale_id
    &&& forall|i: int|
        0 <= i < m.products.len() ==> 1 <= (#[trigger] m.products[i]).id < m.next_product_id
    &&& forall|i: int, j: int|
        0 <= i < j < m.products.len() ==> (#[trigger] m.products[i]).id < (
        #[trigger] m.products[j]).id
    &&& forall|i: int|
        0 <= i < m.sales.len() ==> 1 <= (#[trigger] m.sales[i]).id < m.next_sale_id
    &&& forall|i: int, j: int|
        0 <= i < j < m.sales.len() ==> (#[trigger] m.sales[i]).id < (#[trigger] m.sales[j]).id
    &&& forall|k: int|
        0 <= k < m.sale_items.len() ==> sale_id_exists_m(
            m.sales,
            (#[trigger] m.sale_items[k]).sale_id,
        )
}

/// A store is well-formed exactly when its model is.
pub proof fn lemma_wf_deep_view(s: Store)
    ensures
        s.wf() <==> wf_model(s.deep_view()),
{
    let m = s.deep_view();
    assert(m.products.len() == s.products@.len());
    assert(m.sales.len() == s.sales@.len());
    assert(m.sale_items.len() == s.sale_items@.len());
    assert(forall|i: int|
        0 <= i < s.products@.len() ==> (#[trigger] m.products[i]).id == s.products[i].id);
    assert(forall|i: int| 0 <= i < s.sales@.len() ==> (#[trigger] m.sales[i]).id == s.sales[i].id);
    assert(forall|k: int|
        0 <= k < s.sale_items@.len() ==> (#[trigger] m.sale_items[k]).sale_id
            == s.sale_items[k].sale_id);
    assert forall|id: i64|
        #[trigger] sale_id_exists(s.sales@, id) == sale_id_exists_m(m.sales, id) by {
        if sale_id_exists(s.sales@, id) {
            let i = choose|i: int| 0 <= i < s.sales@.len() && (#[trigger] s.sales@[i]).id == id;
            assert(m.sales[i].id == id);
        }
        if sale_id_exists_m(m.sales, id) {
            let i = choose|i: int| 0 <= i < m.sales.len() && (#[trigger] m.sales[i]).id == id;
            assert(s.sales@[i].id == id);
        }
    }
    if s.wf() {
        assert forall|k: int| 0 <= k < m.sale_items.len() implies sale_id_exists_m(
            m.sales,
            (#[trigger] m.sale_items[k]).sale_id,
        ) by {
            assert(sale_id_exists(s.sales@, s.sale_items[k].sale_id));
        }
        assert(wf_model(m));
    }
    if wf_model(m) {
        assert forall|k: int| 0 <= k < s.sale_items@.len() implies sale_id_exists(
            s.sales@,
            (#[trigger] s.sale_items[k]).sale_id,
        ) by {
            assert(sale_id_exists_m(m.sales, m.sale_items[k].sale_id));
        }
        assert forall|i: int| 0 <= i < s.products@.len() implies 1 <= (
        #[trigger] s.products[i]).id < s.next_product_id by {
            assert(m.products[i].id == s.products[i].id);
        }
        assert forall|i: int, j: int| 0 <= i < j < s.products@.len() implies (
        #[trigger] s.products[i]).id < (#[trigger] s.products[j]).id by {
            assert(m.products[i].id == s.products[i].id);
            assert(m.products[j].id == s.products[j].id);
        }
        assert forall|i: int| 0 <= i < s.sales@.len() implies 1 <= (#[trigger] s.sales[i]).id
            < s.next_sale_id by {
            assert(m.sales[i].id == s.sales[i].id);
        }
        assert forall|i: int, j: int| 0 <= i < j < s.sales@.len() implies (
        #[trigger] s.sales[i]).id < (#[trigger] s.sales[j]).id by {
            assert(m.sales[i].id == s.sales[i].id);
            assert(m.sales[j].id == s.sales[j].id);
        }
        assert(s.wf());
    }
}

/// The result of seeding: untouched when a settings row already exists,
/// otherwise the default row is inserted and nothing else changes.
pub open spec fn seeded(s: Store, d: Settings) -> Store {
    if s.settings is Some {
        s
    } else {
        Store { settings: Some(d), ..s }
    }
}

/// The seed row: a restaurant name, a currency and a receipt footer, with
/// every other field explicitly empty.
pub open spec fn settings_is_default(d: Settings) -> bool {
    &&& d.restaurant_name matches Some(n) && n@ == "Restaurant Management System"@
    &&& d.address is None
    &&& d.phone is None
    &&& d.email is None
    &&& d.tax_rate is None
    &&& d.currency matches Some(c) && c@ == "PKR"@
    &&& d.opening_time is None
    &&& d.closing_time is None
    &&& d.receipt_footer matches Some(f) && f@ == "Thank you for your business!"@
    &&& d.logo is None
}

fn default_settings() -> (d: Settings)
    ensures
        settings_is_default(d),
{
    Settings {
        restaurant_name: Some("Restaurant Management System".to_owned()),
        address: None,
        phone: None,
        email: None,
        tax_rate: None,
        currency: Some("PKR".to_owned()),
        opening_time: None,
        closing_time: None,
        receipt_footer: Some("Thank you for your business!".to_owned()),
        logo: None,
    }
}

/// Seeding is idempotent: once a settings row exists, seeding again changes
/// nothing, whatever default value either run would have inserted.
pub proof fn lemma_initialize_idempotent(s: Store, d1: Settings, d2: Settings)
    ensures
        seeded(seeded(s, d1), d2) == seeded(s, d1),
{
}

} // verus!
