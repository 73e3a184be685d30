use base64::Engine;
use pos_store::data::{Fault, NewProduct, Sale, SaleItem};
use pos_store::snapshot::SnapshotFiles;
use pos_store::store::Store;

fn sale_of(items: Vec<SaleItem>, total: u64) -> Sale {
    Sale { products: items, total_amount: total, currency: "PKR".to_string() }
}

fn item(name: &str, price: u64, quantity: u64, unit: &str) -> SaleItem {
    SaleItem { name: name.to_string(), price, quantity, unit: unit.to_string() }
}

#[test]
fn analytics_on_empty_store_is_all_zero() {
    let mut store = Store::open();
    store.initialize_database();
    let a = store.get_analytics().unwrap();
    assert_eq!(a.summary.total_orders, 0);
    assert_eq!(a.summary.total_revenue, 0);
    assert_eq!(a.summary.average_order_value, 0);
    assert!(a.daily_revenue.is_empty());
    assert!(a.top_products.is_empty());
    assert!(a.product_distribution.is_empty());
}

#[test]
fn summary_average_is_revenue_over_orders() {
    let mut store = Store::open();
    store.record_sale(sale_of(vec![item("Tea", 1000, 1000, "cup")], 1000), 10, 0).unwrap();
    store.record_sale(sale_of(vec![item("Tea", 2000, 1000, "cup")], 2000), 10, 0).unwrap();
    let a = store.get_analytics().unwrap();
    assert_eq!(a.summary.total_orders, 2);
    assert_eq!(a.summary.total_revenue, 3000);
    assert_eq!(a.summary.average_order_value, 1500);
}

#[test]
fn daily_series_groups_by_date_ascending() {
    let mut store = Store::open();
    store.record_sale(sale_of(vec![item("Tea", 1000, 1000, "cup")], 1000), 20, 0).unwrap();
    store.record_sale(sale_of(vec![item("Tea", 2000, 1000, "cup")], 2000), 18, 0).unwrap();
    store.record_sale(sale_of(vec![item("Tea", 500, 1000, "cup")], 500), 20, 0).unwrap();
    let a = store.get_analytics().unwrap();
    assert_eq!(a.daily_revenue.len(), 2);
    assert_eq!(a.daily_revenue[0].date, 18);
    assert_eq!(a.daily_revenue[0].revenue, 2000);
    assert_eq!(a.daily_revenue[0].orders, 1);
    assert_eq!(a.daily_revenue[1].date, 20);
    assert_eq!(a.daily_revenue[1].revenue, 1500);
    assert_eq!(a.daily_revenue[1].orders, 2);
}

#[test]
fn daily_series_keeps_thirty_most_recent_dates() {
    let mut store = Store::open();
    let mut d: u64 = 1;
    while d <= 35 {
        store
            .record_sale(sale_of(vec![item("Tea", 100, 1000, "cup")], 100), d, 0)
            .unwrap();
        d += 1;
    }
    let a = store.get_analytics().unwrap();
    assert_eq!(a.daily_revenue.len(), 30);
    assert_eq!(a.daily_revenue[0].date, 6);
    assert_eq!(a.daily_revenue[29].date, 35);
    for w in a.daily_revenue.windows(2) {
        assert!(w[0].date < w[1].date);
    }
}

#[test]
fn top_products_rank_by_units_with_truncation() {
    let mut store = Store::open();
    store
        .record_sale(
            sale_of(
                vec![item("Tea", 1000, 5000, "cup"), item("Coffee", 2000, 2500, "cup")],
                10000,
            ),
            10,
            0,
        )
        .unwrap();
    store
        .record_sale(sale_of(vec![item("Coffee", 2000, 1000, "cup")], 2000), 11, 0)
        .unwrap();
    let a = store.get_analytics().unwrap();
    assert_eq!(a.top_products.len(), 2);
    assert_eq!(a.top_products[0].name, "Tea");
    assert_eq!(a.top_products[0].sales, 5);
    assert_eq!(a.top_products[0].revenue, 5000);
    assert_eq!(a.top_products[1].name, "Coffee");
    // 2.5 + 1 units truncate to 3 whole units sold.
    assert_eq!(a.top_products[1].sales, 3);
    assert_eq!(a.top_products[1].revenue, 7000);
}

#[test]
fn distribution_keeps_five_of_six_products() {
    let mut store = Store::open();
    let names = ["A", "B", "C", "D", "E", "F"];
    let mut q: u64 = 6000;
    for n in names.iter() {
        store
            .record_sale(sale_of(vec![item(n, 100, q, "unit")], 100), 10, 0)
            .unwrap();
        q -= 1000;
    }
    let a = store.get_analytics().unwrap();
    assert_eq!(a.top_products.len(), 6);
    assert_eq!(a.product_distribution.len(), 5);
    assert_eq!(a.product_distribution[0].name, "A");
    assert_eq!(a.product_distribution[0].value, 6);
    assert_eq!(a.product_distribution[4].name, "E");
    for w in a.product_distribution.windows(2) {
        assert!(w[0].value >= w[1].value);
    }
}

#[test]
fn analytics_aggregate_overflow_is_storage_fault() {
    let mut store = Store::open();
    store
        .record_sale(sale_of(vec![item("Gold", u64::MAX, u64::MAX, "bar")], 1), 10, 0)
        .unwrap();
    assert!(matches!(store.get_analytics(), Err(Fault::Storage)));
}

#[test]
fn snapshot_roundtrip_restores_contents_byte_identically() {
    let mut store = Store::open();
    store.initialize_database();
    store.add_product(NewProduct { name: "Tea".to_string(), price: 2500, unit: "cup".to_string() }).unwrap();
    store.add_product(NewProduct { name: "Cake".to_string(), price: 9000, unit: "slice".to_string() }).unwrap();
    store
        .record_sale(sale_of(vec![item("Tea", 2500, 3000, "cup")], 7500), 19000, 36000)
        .unwrap();
    let bytes = store.export_database();

    let mut restored = Store::open();
    restored.import_database(&bytes).unwrap();
    assert_eq!(restored.export_database(), bytes);

    let products = restored.get_products();
    assert_eq!(products.len(), 2);
    assert_eq!(products[0].name, "Cake");
    assert_eq!(products[1].name, "Tea");
    let txs = restored.get_transactions().unwrap();
    assert_eq!(txs.len(), 1);
    assert_eq!(txs[0].items[0].subtotal, 7500);
    let s = restored.get_settings().unwrap_or_else(|_| panic!("settings row missing"));
    assert_eq!(s.currency.as_deref(), Some("PKR"));
}

#[test]
fn import_of_garbage_bytes_is_storage_fault() {
    let mut store = Store::open();
    store.add_product(NewProduct { name: "Tea".to_string(), price: 2500, unit: "cup".to_string() }).unwrap();
    let r = store.import_database(&vec![1u8, 2, 3]);
    assert!(matches!(r, Err(Fault::Storage)));
    assert_eq!(store.get_products().len(), 1);
}

#[test]
fn encoded_snapshot_matches_standard_base64() {
    let mut store = Store::open();
    store.initialize_database();
    let bytes = store.export_database();
    let encoded = store.export_database_cmd();
    assert_eq!(encoded, base64::engine::general_purpose::STANDARD.encode(&bytes));
}

#[test]
fn encoded_snapshot_roundtrip_through_text() {
    let mut store = Store::open();
    store.initialize_database();
    store.add_product(NewProduct { name: "Tea".to_string(), price: 2500, unit: "cup".to_string() }).unwrap();
    let encoded = store.export_database_cmd();

    let mut restored = Store::open();
    restored.import_database_cmd(&encoded).unwrap();
    assert_eq!(restored.get_products().len(), 1);
    assert_eq!(restored.get_products()[0].name, "Tea");
}

#[test]
fn import_of_invalid_text_is_storage_fault() {
    let mut store = Store::open();
    let r = store.import_database_cmd("this is not a snapshot!");
    assert!(matches!(r, Err(Fault::Storage)));
}

#[test]
fn overwrite_backs_up_prior_database_once() {
    let mut files = SnapshotFiles { current: Some(vec![1, 2, 3]), backup: None };
    files.overwrite(vec![9, 9]);
    assert_eq!(files.current, Some(vec![9, 9]));
    assert_eq!(files.backup, Some(vec![1, 2, 3]));
    files.overwrite(vec![7]);
    assert_eq!(files.current, Some(vec![7]));
    assert_eq!(files.backup, Some(vec![9, 9]));
}

#[test]
fn overwrite_without_prior_database_leaves_backup_alone() {
    let mut files = SnapshotFiles { current: None, backup: None };
    files.overwrite(vec![5]);
    assert_eq!(files.current, Some(vec![5]));
    assert_eq!(files.backup, None);
    assert_eq!(files.read_current().unwrap(), vec![5]);
}

#[test]
fn read_current_without_database_is_storage_fault() {
    let files = SnapshotFiles { current: None, backup: None };
    assert!(matches!(files.read_current(), Err(Fault::Storage)));
}
