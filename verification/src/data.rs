//! Plain records held by the store, their spec-level models, and the fault
//! taxonomy every operation reports through.
//!
//! Amounts and quantities are fixed-point numbers counted in thousandths, so
//! `2500` is `2.5` currency units and `3000` is a quantity of `3`.

use vstd::prelude::*;

verus! {

/// Number of fixed-point steps in one whole unit of money or quantity.
pub const SCALE: u64 = 1000;

/// The faults an operation can surface.
///
/// Deleting a row that is absent is a silent no-op, never a fault; `NotFound`
/// is reserved for the singleton settings row missing before the schema was
/// seeded.
#[derive(Clone, Copy, Debug, PartialEq, Eq, Structural)]
pub enum Fault {
    /// The storage location cannot be resolved or created.
    Configuration,
    /// An engine-level failure: a value or an aggregate does not fit the
    /// storage representation, or a snapshot is corrupt.
    Storage,
    /// The singleton settings row was never seeded.
    NotFound,
    /// Rejected input; the store itself performs no input validation, so this
    /// is left to callers.
    Validation,
}

/// A catalog row.
pub struct Product {
    pub id: i64,
    pub name: String,
    /// Price in thousandths of a currency unit.
    pub price: u64,
    pub unit: String,
}

/// The caller-supplied part of a catalog row.
pub struct NewProduct {
    pub name: String,
    pub price: u64,
    pub unit: String,
}

/// The singleton configuration row. Every field is optional text: an omitted
/// field is stored as an explicit `None`, never skipped.
pub struct Settings {
    pub restaurant_name: Option<String>,
    pub address: Option<String>,
    pub phone: Option<String>,
    pub email: Option<String>,
    pub tax_rate: Option<String>,
    pub currency: Option<String>,
    pub opening_time: Option<String>,
    pub closing_time: Option<String>,
    pub receipt_footer: Option<String>,
    pub logo: Option<String>,
}

/// One line of a sale request.
pub struct SaleItem {
    pub name: String,
    pub price: u64,
    pub quantity: u64,
    pub unit: String,
}

/// A sale creation request: the line items, the caller-computed total, and
/// the currency it was paid in.
pub struct Sale {
    pub products: Vec<SaleItem>,
    pub total_amount: u64,
    pub currency: String,
}

/// A stored sale header. The date is a day number and the time is seconds
/// since midnight, both assigned by the store at insertion.
pub struct SaleRow {
    pub id: i64,
    pub total_amount: u64,
    pub currency: String,
    pub date: u64,
    pub time: u64,
}

/// A stored sale line item. The product name is denormalised on purpose: the
/// row keeps its own copy of the name so it survives deletion of the catalog
/// row it was sold under.
pub struct SaleItemRow {
    pub sale_id: i64,
    pub name: String,
    pub price: u64,
    pub quantity: u64,
    pub unit: String,
}

/// One line of a listed transaction; the subtotal is derived at read time as
/// price times quantity, never stored.
pub struct TransactionItem {
    pub name: String,
    pub price: u64,
    pub quantity: u64,
    pub unit: String,
    pub subtotal: u64,
}

/// A listed sale: the stored header together with its line items.
pub struct Transaction {
    pub id: i64,
    pub items: Vec<TransactionItem>,
    pub total_amount: u64,
    pub currency: String,
    pub date: u64,
    pub time: u64,
}

/// Revenue and order count of one calendar day.
pub struct DailyRevenue {
    pub date: u64,
    pub revenue: u64,
    pub orders: i64,
}

/// A product ranked by units sold, with the revenue it brought in.
pub struct TopProduct {
    pub name: String,
    pub sales: i64,
    pub revenue: u64,
}

/// A product's share of units sold, for the distribution view.
pub struct ProductDistribution {
    pub name: String,
    pub value: i64,
}

/// Whole-ledger totals; the average is zero when there are no orders.
pub struct AnalyticsSummary {
    pub total_orders: i64,
    pub total_revenue: u64,
    pub average_order_value: u64,
}

/// The four derived views, recomputed from the raw rows on every request.
pub struct AnalyticsData {
    pub daily_revenue: Vec<DailyRevenue>,
    pub top_products: Vec<TopProduct>,
    pub product_distribution: Vec<ProductDistribution>,
    pub summary: AnalyticsSummary,
}

// ---------------------------------------------------------------------------
// Spec-level models: the same records with text abstracted to character
// sequences. Two stores with equal models hold the same data, whatever string
// values happen to represent the text.
// ---------------------------------------------------------------------------

pub struct ProductModel {
    pub id: i64,
    pub name: Seq<char>,
    pub price: u64,
    pub unit: Seq<char>,
}

pub struct SettingsModel {
    pub restaurant_name: Option<Seq<char>>,
    pub address: Option<Seq<char>>,
    pub phone: Option<Seq<char>>,
    pub email: Option<Seq<char>>,
    pub tax_rate: Option<Seq<char>>,
    pub currency: Option<Seq<char>>,
    pub opening_time: Option<Seq<char>>,
    pub closing_time: Option<Seq<char>>,
    pub receipt_footer: Option<Seq<char>>,
    pub logo: Option<Seq<char>>,
}

pub struct SaleRowModel {
    pub id: i64,
    pub total_amount: u64,
    pub currency: Seq<char>,
    pub date: u64,
    pub time: u64,
}

pub struct SaleItemRowModel {
    pub sale_id: i64,
    pub name: Seq<char>,
    pub price: u64,
    pub quantity: u64,
    pub unit: Seq<char>,
}

impl DeepView for Product {
    type V = ProductModel;

    open spec fn deep_view(&self) -> ProductModel {
        ProductModel {
            id: self.id,
            name: self.name.deep_view(),
            price: self.price,
            unit: self.unit.deep_view(),
        }
    }
}

impl DeepView for Settings {
    type V = SettingsModel;

    open spec fn deep_view(&self) -> SettingsModel {
        SettingsModel {
            restaurant_name: self.restaurant_name.deep_view(),
            address: self.address.deep_view(),
            phone: self.phone.deep_view(),
            email: self.email.deep_view(),
            tax_rate: self.tax_rate.deep_view(),
            currency: self.currency.deep_view(),
            opening_time: self.opening_time.deep_view(),
            closing_time: self.closing_time.deep_view(),
            receipt_footer: self.receipt_footer.deep_view(),
            logo: self.logo.deep_view(),
        }
    }
}

impl DeepView for SaleRow {
    type V = SaleRowModel;

    open spec fn deep_view(&self) -> SaleRowModel {
        SaleRowModel {
            id: self.id,
            total_amount: self.total_amount,
            currency: self.currency.deep_view(),
            date: self.date,
            time: self.time,
        }
    }
}

impl DeepView for SaleItemRow {
    type V = SaleItemRowModel;

    open spec fn deep_view(&self) -> SaleItemRowModel {
        SaleItemRowModel {
            sale_id: self.sale_id,
            name: self.name.deep_view(),
            price: self.price,
            quantity: self.quantity,
            unit: self.unit.deep_view(),
        }
    }
}

// ---------------------------------------------------------------------------
// Copy helpers. The store hands out copies of what it holds, and the copies
// are proved equal to the originals, so contracts can speak of the stored
// values themselves.
// ---------------------------------------------------------------------------

pub(crate) fn clone_string(s: &String) -> (r: String)
    ensures
        r == *s,
{
    s.clone()
}

pub(crate) fn clone_opt_string(s: &Option<String>) -> (r: Option<String>)
    ensures
        r == *s,
{
    match s {
        Some(v) => Some(v.clone()),
        None => None,
    }
}

pub(crate) fn clone_product(p: &Product) -> (r: Product)
    ensures
        r == *p,
{
    Product {
        id: p.id,
        name: clone_string(&p.name),
        price: p.price,
        unit: clone_string(&p.unit),
    }
}

pub(crate) fn clone_settings(s: &Settings) -> (r: Settings)
    ensures
        r == *s,
{
    Settings {
        restaurant_name: clone_opt_string(&s.restaurant_name),
        address: clone_opt_string(&s.address),
        phone: clone_opt_string(&s.phone),
        email: clone_opt_string(&s.email),
        tax_rate: clone_opt_string(&s.tax_rate),
        currency: clone_opt_string(&s.currency),
        opening_time: clone_opt_string(&s.opening_time),
        closing_time: clone_opt_string(&s.closing_time),
        receipt_footer: clone_opt_string(&s.receipt_footer),
        logo: clone_opt_string(&s.logo),
    }
}

pub(crate) fn clone_sale_item_row(it: &SaleItemRow) -> (r: SaleItemRow)
    ensures
        r == *it,
{
    SaleItemRow {
        sale_id: it.sale_id,
        name: clone_string(&it.name),
        price: it.price,
        quantity: it.quantity,
        unit: clone_string(&it.unit),
    }
}

} // verus!
