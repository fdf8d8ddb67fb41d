use ledger::catalog::{Catalog, CatalogError, ProductSpec};

fn product(name: &str, brand: &str, category: Option<&str>, barcode: Option<&str>, count: i64) -> ProductSpec {
    ProductSpec {
        name: name.to_string(),
        category: category.map(|s| s.to_string()),
        product_code: None,
        brand: brand.to_string(),
        supplier: None,
        barcode: barcode.map(|s| s.to_string()),
        count,
        cost: Some(250),
    }
}

#[test]
fn duplicate_type_name_is_refused() {
    let mut c = Catalog::new();
    assert_eq!(c.create_type("Paint".to_string()), Ok(1));
    assert_eq!(c.create_type("Paint".to_string()), Err(CatalogError::DuplicateName));
    assert_eq!(c.types.len(), 1);
    assert_eq!(c.types[0].id, 1);
    assert_eq!(c.types[0].name, "Paint");
    assert_eq!(c.create_type("Glue".to_string()), Ok(2));
}

#[test]
fn duplicate_brand_name_is_refused() {
    let mut c = Catalog::new();
    assert_eq!(c.create_brand("Acme".to_string()), Ok(1));
    assert_eq!(c.create_brand("Acme".to_string()), Err(CatalogError::DuplicateName));
    assert_eq!(c.brands.len(), 1);
    assert_eq!(c.brands[0].name, "Acme");
}

#[test]
fn product_needs_known_brand_and_type() {
    let mut c = Catalog::new();
    assert_eq!(c.create_product(product("p", "Acme", None, None, 1)), Err(CatalogError::UnknownBrand));
    c.create_brand("Acme".to_string()).unwrap();
    assert_eq!(
        c.create_product(product("p", "Acme", Some("Paint"), None, 1)),
        Err(CatalogError::UnknownType)
    );
    c.create_type("Paint".to_string()).unwrap();
    assert_eq!(c.create_product(product("p", "Acme", Some("Paint"), None, 1)), Ok(1));
    assert_eq!(c.create_product(product("q", "Acme", None, None, 0)), Ok(2));
    assert_eq!(c.products[1].name, "q");
    assert_eq!(c.products[1].cost, Some(250));
}

#[test]
fn duplicate_barcode_is_refused() {
    let mut c = Catalog::new();
    c.create_brand("Acme".to_string()).unwrap();
    assert_eq!(c.create_product(product("p", "Acme", None, Some("123"), 1)), Ok(1));
    assert_eq!(
        c.create_product(product("q", "Acme", None, Some("123"), 1)),
        Err(CatalogError::DuplicateBarcode)
    );
    assert_eq!(c.create_product(product("r", "Acme", None, Some("124"), 1)), Ok(2));
    assert_eq!(c.create_product(product("s", "Acme", None, None, 1)), Ok(3));
    assert_eq!(c.create_product(product("t", "Acme", None, None, 1)), Ok(4));
}

#[test]
fn negative_initial_count_is_refused() {
    let mut c = Catalog::new();
    c.create_brand("Acme".to_string()).unwrap();
    assert_eq!(c.create_product(product("p", "Acme", None, None, -1)), Err(CatalogError::NegativeCount));
    assert!(c.products.is_empty());
}

#[test]
fn inventory_never_goes_negative() {
    let mut c = Catalog::new();
    c.create_brand("Acme".to_string()).unwrap();
    let id = c.create_product(product("p", "Acme", None, None, 5)).unwrap();
    assert_eq!(c.adjust_inventory(id, -3), Ok(2));
    assert_eq!(c.adjust_inventory(id, -3), Err(CatalogError::InsufficientStock));
    assert_eq!(c.products[0].count, 2);
    assert_eq!(c.adjust_inventory(id, 10), Ok(12));
    assert_eq!(c.adjust_inventory(id, -12), Ok(0));
    assert_eq!(c.adjust_inventory(id, -1), Err(CatalogError::InsufficientStock));
    assert_eq!(c.products[0].count, 0);
    assert!(c.products.iter().all(|p| p.count >= 0));
}

#[test]
fn inventory_adjustment_errors() {
    let mut c = Catalog::new();
    c.create_brand("Acme".to_string()).unwrap();
    let id = c.create_product(product("p", "Acme", None, None, 5)).unwrap();
    assert_eq!(c.adjust_inventory(0, 1), Err(CatalogError::UnknownProduct));
    assert_eq!(c.adjust_inventory(id + 1, 1), Err(CatalogError::UnknownProduct));
    assert_eq!(c.adjust_inventory(id, i64::MAX), Err(CatalogError::CountOverflow));
    assert_eq!(c.adjust_inventory(id, i64::MIN), Err(CatalogError::InsufficientStock));
    assert_eq!(c.products[0].count, 5);
}
