use pos_store::data::{Fault, NewProduct, Sale, SaleItem, Settings};
use pos_store::store::Store;

fn new_product(name: &str, price: u64, unit: &str) -> NewProduct {
    NewProduct { name: name.to_string(), price, unit: unit.to_string() }
}

fn settings_with_name(name: &str) -> Settings {
    Settings {
        restaurant_name: Some(name.to_string()),
        address: Some("1 Main St".to_string()),
        phone: None,
        email: None,
        tax_rate: Some("0.16".to_string()),
        currency: Some("PKR".to_string()),
        opening_time: None,
        closing_time: None,
        receipt_footer: None,
        logo: None,
    }
}

fn sale_of(items: Vec<SaleItem>, total: u64) -> Sale {
    Sale { products: items, total_amount: total, currency: "PKR".to_string() }
}

fn item(name: &str, price: u64, quantity: u64, unit: &str) -> SaleItem {
    SaleItem { name: name.to_string(), price, quantity, unit: unit.to_string() }
}

#[test]
fn initialize_seeds_default_settings() {
    let mut store = Store::open();
    store.initialize_database();
    let settings = store.get_settings().unwrap_or_else(|_| panic!("settings row missing"));
    assert_eq!(settings.restaurant_name.as_deref(), Some("Restaurant Management System"));
    assert_eq!(settings.currency.as_deref(), Some("PKR"));
    assert_eq!(settings.receipt_footer.as_deref(), Some("Thank you for your business!"));
    assert_eq!(settings.address, None);
    assert_eq!(settings.logo, None);
}

#[test]
fn initialize_twice_keeps_existing_row() {
    let mut store = Store::open();
    store.initialize_database();
    store.save_settings(settings_with_name("Corner Cafe"));
    store.initialize_database();
    let settings = store.get_settings().unwrap_or_else(|_| panic!("settings row missing"));
    assert_eq!(settings.restaurant_name.as_deref(), Some("Corner Cafe"));
    assert_eq!(settings.address.as_deref(), Some("1 Main St"));
}

#[test]
fn get_settings_before_seed_is_not_found() {
    let store = Store::open();
    assert!(matches!(store.get_settings(), Err(Fault::NotFound)));
}

#[test]
fn save_then_get_returns_exact_fields() {
    let mut store = Store::open();
    store.initialize_database();
    store.save_settings(settings_with_name("Harbor Grill"));
    let s = store.get_settings().unwrap_or_else(|_| panic!("settings row missing"));
    assert_eq!(s.restaurant_name.as_deref(), Some("Harbor Grill"));
    assert_eq!(s.tax_rate.as_deref(), Some("0.16"));
    assert_eq!(s.phone, None);
    assert_eq!(s.email, None);
    assert_eq!(s.opening_time, None);
    assert_eq!(s.closing_time, None);
    assert_eq!(s.receipt_footer, None);
}

#[test]
fn add_and_list_products_descending() {
    let mut store = Store::open();
    store.initialize_database();
    let p1 = store.add_product(new_product("Tea", 2500, "cup")).unwrap();
    let p2 = store.add_product(new_product("Coffee", 4000, "cup")).unwrap();
    let p3 = store.add_product(new_product("Cake", 9000, "slice")).unwrap();
    assert_eq!((p1.id, p2.id, p3.id), (1, 2, 3));
    let listed = store.get_products();
    assert_eq!(listed.len(), 3);
    assert_eq!(listed[0].id, 3);
    assert_eq!(listed[0].name, "Cake");
    assert_eq!(listed[1].id, 2);
    assert_eq!(listed[2].id, 1);
    assert!(listed[0].id > listed[1].id && listed[1].id > listed[2].id);
}

#[test]
fn add_product_returns_stored_fields() {
    let mut store = Store::open();
    let p = store.add_product(new_product("Tea", 2500, "cup")).unwrap();
    assert_eq!(p.id, 1);
    assert_eq!(p.name, "Tea");
    assert_eq!(p.price, 2500);
    assert_eq!(p.unit, "cup");
}

#[test]
fn delete_product_removes_only_that_row() {
    let mut store = Store::open();
    let p1 = store.add_product(new_product("Tea", 2500, "cup")).unwrap();
    let _p2 = store.add_product(new_product("Coffee", 4000, "cup")).unwrap();
    store.delete_product(p1.id);
    let listed = store.get_products();
    assert_eq!(listed.len(), 1);
    assert_eq!(listed[0].name, "Coffee");
}

#[test]
fn delete_unknown_product_is_silent_noop() {
    let mut store = Store::open();
    store.add_product(new_product("Tea", 2500, "cup")).unwrap();
    store.add_product(new_product("Coffee", 4000, "cup")).unwrap();
    store.delete_product(99);
    let listed = store.get_products();
    assert_eq!(listed.len(), 2);
    assert_eq!(listed[0].name, "Coffee");
    assert_eq!(listed[1].name, "Tea");
}

#[test]
fn add_product_fails_when_counter_exhausted() {
    let mut store = Store::open();
    store.next_product_id = i64::MAX;
    assert!(matches!(store.add_product(new_product("Tea", 1, "cup")), Err(Fault::Storage)));
    assert!(store.get_products().is_empty());
}

#[test]
fn sale_with_tea_items_lists_one_transaction_with_subtotal() {
    let mut store = Store::open();
    let sid = store
        .record_sale(sale_of(vec![item("Tea", 2500, 3000, "cup")], 7500), 19000, 36000)
        .unwrap();
    assert_eq!(sid, 1);
    let txs = store.get_transactions().unwrap();
    assert_eq!(txs.len(), 1);
    assert_eq!(txs[0].id, 1);
    assert_eq!(txs[0].total_amount, 7500);
    assert_eq!(txs[0].currency, "PKR");
    assert_eq!(txs[0].date, 19000);
    assert_eq!(txs[0].time, 36000);
    assert_eq!(txs[0].items.len(), 1);
    let it = &txs[0].items[0];
    assert_eq!(it.name, "Tea");
    assert_eq!(it.price, 2500);
    assert_eq!(it.quantity, 3000);
    assert_eq!(it.unit, "cup");
    assert_eq!(it.subtotal, 7500);
}

#[test]
fn add_sale_assigns_clock_timestamp() {
    let mut store = Store::open();
    let sid = store.add_sale(sale_of(vec![item("Tea", 2500, 3000, "cup")], 7500)).unwrap();
    assert_eq!(sid, 1);
    let txs = store.get_transactions().unwrap();
    assert_eq!(txs.len(), 1);
    assert_eq!(txs[0].items.len(), 1);
    assert_eq!(txs[0].items[0].subtotal, 7500);
    assert!(txs[0].time < 86400);
}

#[test]
fn transactions_list_newest_first() {
    let mut store = Store::open();
    store.record_sale(sale_of(vec![item("Tea", 2500, 1000, "cup")], 2500), 10, 0).unwrap();
    store.record_sale(sale_of(vec![item("Coffee", 4000, 1000, "cup")], 4000), 11, 0).unwrap();
    let txs = store.get_transactions().unwrap();
    assert_eq!(txs.len(), 2);
    assert_eq!(txs[0].id, 2);
    assert_eq!(txs[1].id, 1);
}

#[test]
fn subtotal_overflow_is_storage_fault() {
    let mut store = Store::open();
    store
        .record_sale(sale_of(vec![item("Gold", u64::MAX, u64::MAX, "bar")], 1), 10, 0)
        .unwrap();
    assert!(matches!(store.get_transactions(), Err(Fault::Storage)));
}

#[test]
fn delete_transaction_removes_header_and_items() {
    let mut store = Store::open();
    let s1 = store
        .record_sale(sale_of(vec![item("Tea", 2500, 1000, "cup")], 2500), 10, 0)
        .unwrap();
    let s2 = store
        .record_sale(
            sale_of(vec![item("Coffee", 4000, 1000, "cup"), item("Cake", 9000, 1000, "slice")], 13000),
            11,
            0,
        )
        .unwrap();
    store.delete_transaction(s2);
    let txs = store.get_transactions().unwrap();
    assert_eq!(txs.len(), 1);
    assert_eq!(txs[0].id, s1);
    let orphaned = store.sale_items.iter().filter(|it| it.sale_id == s2).count();
    assert_eq!(orphaned, 0);
}

#[test]
fn delete_unknown_transaction_is_silent_noop() {
    let mut store = Store::open();
    store.record_sale(sale_of(vec![item("Tea", 2500, 1000, "cup")], 2500), 10, 0).unwrap();
    store.delete_transaction(42);
    let txs = store.get_transactions().unwrap();
    assert_eq!(txs.len(), 1);
    assert_eq!(store.sale_items.len(), 1);
}

#[test]
fn email_template_has_placeholders() {
    let template = pos_store::email::load_email_template().unwrap();
    assert!(template.contains("{{SENDER_NAME}}"));
    assert!(template.contains("{{SENDER_EMAIL}}"));
    assert!(template.contains("{{SUBJECT}}"));
    assert!(template.contains("{{MESSAGE}}"));
}
