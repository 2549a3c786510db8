use catalog_api::catalog::affected_outcome;
use catalog_api::catalog::catalog_item;
use catalog_api::catalog::catalog_items;
use catalog_api::catalog::catalogs_response;
use catalog_api::catalog::create;
use catalog_api::catalog::create_at;
use catalog_api::catalog::delete;
use catalog_api::catalog::get_catalog;
use catalog_api::catalog::get_catalogs;
use catalog_api::catalog::new_catalog;
use catalog_api::catalog::page_bounds;
use catalog_api::catalog::update;
use catalog_api::catalog::update_at;
use catalog_api::catalog::update_catalog;
use catalog_api::catalog::DEFAULT_LIMIT;
use catalog_api::models::Catalog;
use catalog_api::models::CatalogError;
use catalog_api::models::CatalogItem;
use catalog_api::models::CatalogRequest;
use catalog_api::models::Timestamp;
use catalog_api::models::ValidationFailure;
use catalog_api::price::to_storage;
use catalog_api::price::Decimal;
use catalog_api::price::InvalidPrice;
use catalog_api::store::CatalogStore;

fn request(name: &str, category: &str, price: f64) -> CatalogRequest {
    CatalogRequest {
        name: name.to_string(),
        description: format!("the {}", name),
        image: format!("https://img.example/{}.jpg", name),
        price: price.to_bits(),
        currency: "USD".to_string(),
        category: category.to_string(),
    }
}

fn at(micros: i64) -> Timestamp {
    Timestamp { micros }
}

fn item_ids(items: &Vec<CatalogItem>) -> Vec<i32> {
    items.iter().map(|i| i.id).collect()
}

fn twenty_five_books() -> CatalogStore {
    let mut store = CatalogStore::new();
    for n in 0..25 {
        create_at(&mut store, request(&format!("book {}", n), "books", 10.0 + n as f64), at(n))
            .unwrap();
    }
    store
}

#[test]
fn create_then_get_returns_the_request() {
    let mut store = CatalogStore::new();
    let id = create_at(&mut store, request("lamp", "home", 19.99), at(1000)).unwrap();
    assert_eq!(id, 1);
    let item = get_catalog(&store, id).unwrap();
    assert_eq!(item.id, 1);
    assert_eq!(item.name, "lamp");
    assert_eq!(item.description, "the lamp");
    assert_eq!(item.image, "https://img.example/lamp.jpg");
    assert_eq!(item.currency, "USD");
    assert_eq!(item.category, "home");
    assert!((f64::from_bits(item.price) - 19.99).abs() < 1e-9);
}

#[test]
fn create_stamps_both_times_alike() {
    let mut store = CatalogStore::new();
    let id = create_at(&mut store, request("lamp", "home", 19.99), at(1234)).unwrap();
    let row = store.find_by_id(id).unwrap();
    assert_eq!(row.created_at, at(1234));
    assert_eq!(row.updated_at, at(1234));
}

#[test]
fn create_reads_the_clock() {
    let mut store = CatalogStore::new();
    let id = create(&mut store, request("lamp", "home", 19.99)).unwrap();
    let row = store.find_by_id(id).unwrap();
    assert_eq!(row.created_at, row.updated_at);
    // later than the first of January 2020
    assert!(row.created_at.micros > 1_577_836_800_000_000);
    assert_eq!(get_catalog(&store, id).unwrap().name, "lamp");
}

#[test]
fn create_refuses_an_empty_name() {
    let mut store = CatalogStore::new();
    let r = create_at(&mut store, request("", "home", 1.0), at(1));
    assert_eq!(r, Err(CatalogError::ValidationError(ValidationFailure::EmptyName)));
    assert_eq!(store.count(&None), 0);
}

#[test]
fn the_name_is_checked_before_the_price() {
    let mut store = CatalogStore::new();
    let r = create_at(&mut store, request("", "home", f64::NAN), at(1));
    assert_eq!(r, Err(CatalogError::ValidationError(ValidationFailure::EmptyName)));
}

#[test]
fn empty_texts_other_than_the_name_are_accepted() {
    let mut store = CatalogStore::new();
    let r = CatalogRequest {
        name: " ".to_string(),
        description: String::new(),
        image: String::new(),
        price: 0.0f64.to_bits(),
        currency: String::new(),
        category: String::new(),
    };
    let id = create_at(&mut store, r, at(1)).unwrap();
    let item = get_catalog(&store, id).unwrap();
    assert_eq!(item.name, " ");
    assert_eq!(item.description, "");
    assert_eq!(item.price, 0.0f64.to_bits());
    assert_eq!(store.count(&Some(String::new())), 1);
}

#[test]
fn create_refuses_a_negative_price_and_stores_nothing() {
    let mut store = CatalogStore::new();
    create_at(&mut store, request("kept", "home", 1.0), at(1)).unwrap();
    let r = create_at(&mut store, request("lamp", "home", -1.0), at(2));
    assert_eq!(
        r,
        Err(CatalogError::ValidationError(ValidationFailure::InvalidPrice(
            InvalidPrice::Negative
        )))
    );
    assert_eq!(store.count(&None), 1);
    assert_eq!(create_at(&mut store, request("next", "home", 1.0), at(3)), Ok(2));
}

#[test]
fn create_refuses_a_price_that_is_not_a_number() {
    let mut store = CatalogStore::new();
    let r = create_at(&mut store, request("lamp", "home", f64::NAN), at(2));
    assert_eq!(
        r,
        Err(CatalogError::ValidationError(ValidationFailure::InvalidPrice(
            InvalidPrice::NotANumber
        )))
    );
    let r = create_at(&mut store, request("lamp", "home", f64::INFINITY), at(2));
    assert_eq!(
        r,
        Err(CatalogError::ValidationError(ValidationFailure::InvalidPrice(
            InvalidPrice::Infinite
        )))
    );
    assert_eq!(store.count(&None), 0);
}

#[test]
fn update_refuses_an_invalid_price_and_keeps_the_record() {
    let mut store = CatalogStore::new();
    let id = create_at(&mut store, request("lamp", "home", 5.0), at(1)).unwrap();
    let before = store.find_by_id(id).unwrap();
    for bad in [-1.0f64, f64::NAN, f64::NEG_INFINITY] {
        let r = update_at(&mut store, id, request("new", "other", bad), at(2));
        assert!(matches!(
            r,
            Err(CatalogError::ValidationError(ValidationFailure::InvalidPrice(_)))
        ));
        assert_eq!(store.find_by_id(id).unwrap(), before);
    }
    let r = update_at(&mut store, id, request("", "other", 1.0), at(2));
    assert_eq!(r, Err(CatalogError::ValidationError(ValidationFailure::EmptyName)));
    assert_eq!(store.find_by_id(id).unwrap(), before);
}

#[test]
fn update_replaces_every_field() {
    let mut store = CatalogStore::new();
    let id = create_at(&mut store, request("lamp", "home", 5.0), at(100)).unwrap();
    let r = CatalogRequest {
        name: "desk lamp".to_string(),
        description: String::new(),
        image: "lamp.png".to_string(),
        price: 7.5f64.to_bits(),
        currency: "EUR".to_string(),
        category: "office".to_string(),
    };
    assert_eq!(update_at(&mut store, id, r, at(200)), Ok(()));
    let item = get_catalog(&store, id).unwrap();
    assert_eq!(
        item,
        CatalogItem {
            id,
            name: "desk lamp".to_string(),
            description: String::new(),
            image: "lamp.png".to_string(),
            price: 7.5f64.to_bits(),
            currency: "EUR".to_string(),
            category: "office".to_string(),
        }
    );
    let row = store.find_by_id(id).unwrap();
    assert_eq!(row.created_at, at(100));
    assert_eq!(row.updated_at, at(200));
    assert!(row.updated_at.micros > row.created_at.micros);
}

#[test]
fn update_reads_the_clock() {
    let mut store = CatalogStore::new();
    let id = create_at(&mut store, request("lamp", "home", 5.0), at(100)).unwrap();
    assert_eq!(update(&mut store, id, request("lamp 2", "home", 6.0)), Ok(()));
    let row = store.find_by_id(id).unwrap();
    assert_eq!(row.created_at, at(100));
    assert!(row.updated_at.micros > 1_577_836_800_000_000);
    assert_eq!(row.name, "lamp 2");
    assert_eq!(update(&mut store, id + 1, request("x", "home", 6.0)), Err(CatalogError::NotFound));
}

#[test]
fn unknown_ids_are_not_found() {
    let mut store = CatalogStore::new();
    create_at(&mut store, request("lamp", "home", 5.0), at(1)).unwrap();
    assert_eq!(get_catalog(&store, 2), Err(CatalogError::NotFound));
    assert_eq!(get_catalog(&store, 0), Err(CatalogError::NotFound));
    assert_eq!(get_catalog(&store, -1), Err(CatalogError::NotFound));
    assert_eq!(get_catalog(&store, i32::MAX), Err(CatalogError::NotFound));
    assert_eq!(
        update_at(&mut store, 2, request("x", "y", 1.0), at(2)),
        Err(CatalogError::NotFound)
    );
    assert_eq!(delete(&mut store, 2), Err(CatalogError::NotFound));
    assert_eq!(store.count(&None), 1);
    assert_eq!(get_catalog(&store, 1).unwrap().name, "lamp");
}

#[test]
fn delete_removes_the_record() {
    let mut store = CatalogStore::new();
    let a = create_at(&mut store, request("a", "x", 1.0), at(1)).unwrap();
    let b = create_at(&mut store, request("b", "x", 2.0), at(2)).unwrap();
    assert_eq!(delete(&mut store, a), Ok(()));
    assert_eq!(get_catalog(&store, a), Err(CatalogError::NotFound));
    assert_eq!(get_catalog(&store, b).unwrap().name, "b");
    assert_eq!(delete(&mut store, a), Err(CatalogError::NotFound));
}

#[test]
fn twenty_five_books_in_two_pages() {
    let store = twenty_five_books();
    let first = get_catalogs(&store, Some("books".to_string()), Some(0), Some(20)).unwrap();
    assert_eq!(first.total, 25);
    assert_eq!(first.catalog_items.len(), 20);
    assert_eq!(first.offset, 0);
    assert_eq!(first.limit, 20);
    assert_eq!(item_ids(&first.catalog_items), (1..=20).collect::<Vec<i32>>());
    let second = get_catalogs(&store, Some("books".to_string()), Some(20), Some(20)).unwrap();
    assert_eq!(second.total, 25);
    assert_eq!(second.catalog_items.len(), 5);
    assert_eq!(second.offset, 20);
    assert_eq!(second.limit, 20);
    assert_eq!(item_ids(&second.catalog_items), (21..=25).collect::<Vec<i32>>());
}

#[test]
fn listing_defaults_to_offset_zero_and_limit_twenty() {
    let store = twenty_five_books();
    let page = get_catalogs(&store, None, None, None).unwrap();
    assert_eq!(page.offset, 0);
    assert_eq!(page.limit, 20);
    assert_eq!(page.total, 25);
    assert_eq!(item_ids(&page.catalog_items), (1..=20).collect::<Vec<i32>>());
    assert_eq!(DEFAULT_LIMIT, 20);
}

#[test]
fn negative_bounds_are_taken_as_zero() {
    let store = twenty_five_books();
    let page = get_catalogs(&store, None, Some(-5), Some(3)).unwrap();
    assert_eq!(page.offset, 0);
    assert_eq!(item_ids(&page.catalog_items), vec![1, 2, 3]);
    let page = get_catalogs(&store, None, Some(2), Some(-1)).unwrap();
    assert_eq!(page.offset, 2);
    assert_eq!(page.limit, 0);
    assert!(page.catalog_items.is_empty());
    assert_eq!(page.total, 25);
    assert_eq!(page_bounds(Some(i64::MIN), Some(i64::MIN)), (0, 0));
    assert_eq!(page_bounds(Some(i64::MAX), Some(i64::MAX)), (i64::MAX, i64::MAX));
    assert_eq!(page_bounds(None, None), (0, 20));
    assert_eq!(page_bounds(Some(7), None), (7, 20));
    assert_eq!(page_bounds(None, Some(0)), (0, 0));
}

#[test]
fn a_limit_of_zero_asks_for_the_total_only() {
    let store = twenty_five_books();
    let page = get_catalogs(&store, Some("books".to_string()), Some(0), Some(0)).unwrap();
    assert_eq!(page.total, 25);
    assert!(page.catalog_items.is_empty());
    assert_eq!(page.limit, 0);
}

#[test]
fn an_offset_past_the_end_gives_an_empty_page() {
    let store = twenty_five_books();
    let page = get_catalogs(&store, None, Some(25), Some(10)).unwrap();
    assert_eq!(page.total, 25);
    assert!(page.catalog_items.is_empty());
    let page = get_catalogs(&store, None, Some(i64::MAX), Some(i64::MAX)).unwrap();
    assert!(page.catalog_items.is_empty());
    assert_eq!(page.offset, i64::MAX);
}

#[test]
fn listing_and_total_share_the_filter() {
    let mut store = CatalogStore::new();
    for n in 0..12 {
        let category = if n % 3 == 0 { "books" } else { "games" };
        create_at(&mut store, request(&format!("n{}", n), category, 1.0), at(n)).unwrap();
    }
    let books = get_catalogs(&store, Some("books".to_string()), None, None).unwrap();
    assert_eq!(books.total, 4);
    assert_eq!(item_ids(&books.catalog_items), vec![1, 4, 7, 10]);
    assert!(books.catalog_items.iter().all(|i| i.category == "books"));
    let games = get_catalogs(&store, Some("games".to_string()), None, None).unwrap();
    assert_eq!(games.total, 8);
    assert_eq!(games.catalog_items.len(), 8);
    let none = get_catalogs(&store, Some("BOOKS".to_string()), None, None).unwrap();
    assert_eq!(none.total, 0);
    assert!(none.catalog_items.is_empty());
    let all = get_catalogs(&store, None, None, None).unwrap();
    assert_eq!(all.total, 12);
}

#[test]
fn paging_visits_every_id_once() {
    let mut store = CatalogStore::new();
    for n in 0..23 {
        let category = if n % 2 == 0 { "even" } else { "odd" };
        create_at(&mut store, request(&format!("n{}", n), category, 1.0), at(n)).unwrap();
    }
    delete(&mut store, 5).unwrap();
    for size in 1..9i64 {
        let mut seen: Vec<i32> = Vec::new();
        let mut offset = 0i64;
        let total = get_catalogs(&store, Some("even".to_string()), Some(0), Some(0))
            .unwrap()
            .total;
        while offset < total {
            let page =
                get_catalogs(&store, Some("even".to_string()), Some(offset), Some(size)).unwrap();
            assert_eq!(page.total, total);
            seen.extend(item_ids(&page.catalog_items));
            offset += size;
        }
        assert_eq!(seen, vec![1, 3, 7, 9, 11, 13, 15, 17, 19, 21, 23]);
        assert_eq!(seen.len() as i64, total);
    }
}

#[test]
fn affected_count_tells_found_from_not_found() {
    assert_eq!(affected_outcome(0), Err(CatalogError::NotFound));
    assert_eq!(affected_outcome(1), Ok(()));
    assert_eq!(affected_outcome(2), Ok(()));
}

#[test]
fn new_catalog_converts_and_stamps() {
    let new = new_catalog(request("lamp", "home", 0.5), at(9)).unwrap();
    assert_eq!(new.name, "lamp");
    assert_eq!(new.description, "the lamp");
    assert_eq!(new.image, "https://img.example/lamp.jpg");
    assert_eq!(new.price, Decimal::from_digits(vec![5], 1).unwrap());
    assert_eq!(new.currency, "USD");
    assert_eq!(new.category, "home");
    assert_eq!(new.created_at, at(9));
    assert_eq!(new.updated_at, at(9));
    assert_eq!(
        new_catalog(request("", "home", 0.5), at(9)),
        Err(CatalogError::ValidationError(ValidationFailure::EmptyName))
    );
}

#[test]
fn update_catalog_converts_and_stamps() {
    let update = update_catalog(request("lamp", "home", 2.0), at(11)).unwrap();
    assert_eq!(update.name, "lamp");
    assert_eq!(update.price, Decimal::from_digits(vec![2], 0).unwrap());
    assert_eq!(update.updated_at, at(11));
    assert_eq!(
        update_catalog(request("lamp", "home", -2.0), at(11)),
        Err(CatalogError::ValidationError(ValidationFailure::InvalidPrice(
            InvalidPrice::Negative
        )))
    );
}

fn row(id: i32, price: Decimal) -> Catalog {
    Catalog {
        id,
        name: format!("row {}", id),
        description: String::new(),
        image: String::new(),
        price,
        currency: "USD".to_string(),
        category: "c".to_string(),
        created_at: at(1),
        updated_at: at(2),
    }
}

#[test]
fn items_carry_the_price_in_transport_form() {
    let item = catalog_item(&row(4, to_storage(12.25f64.to_bits()).unwrap()));
    assert_eq!(item.id, 4);
    assert_eq!(item.name, "row 4");
    assert_eq!(item.price, 12.25f64.to_bits());
    assert_eq!(item.category, "c");
}

#[test]
fn a_price_beyond_the_transport_range_is_handed_out_as_infinity() {
    let huge = Decimal::from_digits(vec![1], -400).unwrap();
    let item = catalog_item(&row(4, huge));
    assert_eq!(item.id, 4);
    assert_eq!(item.name, "row 4");
    assert_eq!(item.price, f64::INFINITY.to_bits());
}

#[test]
fn a_listing_holds_every_record_whatever_its_price() {
    let rows = vec![
        row(1, to_storage(1.0f64.to_bits()).unwrap()),
        row(2, Decimal::from_digits(vec![1], -400).unwrap()),
        row(3, to_storage(3.0f64.to_bits()).unwrap()),
    ];
    let items = catalog_items(&rows);
    assert_eq!(item_ids(&items), vec![1, 2, 3]);
    assert_eq!(items[0].price, 1.0f64.to_bits());
    assert_eq!(items[1].price, f64::INFINITY.to_bits());
    assert_eq!(items[2].price, 3.0f64.to_bits());
    let response = catalogs_response(3, &rows, 0, 20);
    assert_eq!(response.catalog_items, items);
}

#[test]
fn a_stored_record_is_read_whatever_its_price() {
    let mut store = CatalogStore::new();
    let new = catalog_api::models::NewCatalog {
        name: "moon".to_string(),
        description: String::new(),
        image: String::new(),
        price: Decimal::from_digits(vec![1], -401).unwrap(),
        currency: "USD".to_string(),
        category: "land".to_string(),
        updated_at: at(1),
        created_at: at(1),
    };
    assert_eq!(store.insert(new), Ok(1));
    let item = get_catalog(&store, 1).unwrap();
    assert_eq!(item.name, "moon");
    assert_eq!(item.price, f64::INFINITY.to_bits());
    let listing = get_catalogs(&store, Some("land".to_string()), None, None).unwrap();
    assert_eq!(listing.total, 1);
    assert_eq!(item_ids(&listing.catalog_items), vec![1]);
    assert_eq!(listing.catalog_items[0].price, f64::INFINITY.to_bits());
}

#[test]
fn a_response_echoes_total_and_bounds() {
    let rows = vec![
        row(7, to_storage(1.0f64.to_bits()).unwrap()),
        row(9, to_storage(3.5f64.to_bits()).unwrap()),
    ];
    let response = catalogs_response(40, &rows, 10, 2);
    assert_eq!(response.total, 40);
    assert_eq!(response.offset, 10);
    assert_eq!(response.limit, 2);
    assert_eq!(item_ids(&response.catalog_items), vec![7, 9]);
    assert_eq!(response.catalog_items[1].price, 3.5f64.to_bits());
    let items = catalog_items(&rows);
    assert_eq!(items, response.catalog_items);
}

#[test]
fn create_fails_with_a_storage_error_once_ids_run_out() {
    let mut store = CatalogStore::after(i32::MAX).unwrap();
    let r = create_at(&mut store, request("lamp", "home", 1.0), at(1));
    assert_eq!(r, Err(CatalogError::StorageError));
    assert_eq!(store.count(&None), 0);
    // a refused request is told before the store is asked
    let r = create_at(&mut store, request("lamp", "home", -1.0), at(1));
    assert_eq!(
        r,
        Err(CatalogError::ValidationError(ValidationFailure::InvalidPrice(
            InvalidPrice::Negative
        )))
    );
}

#[test]
fn a_minus_zero_price_comes_back_as_zero() {
    let mut store = CatalogStore::new();
    let id = create_at(&mut store, request("free", "home", -0.0), at(1)).unwrap();
    assert_eq!(get_catalog(&store, id).unwrap().price, 0.0f64.to_bits());
}

#[test]
fn prices_come_back_bit_for_bit() {
    let mut store = CatalogStore::new();
    for price in [0.1f64, 19.99, 1e-300, 1e300, 123456.789, f64::MAX, f64::MIN_POSITIVE, 5e-324] {
        let id = create_at(&mut store, request("p", "home", price), at(1)).unwrap();
        assert_eq!(get_catalog(&store, id).unwrap().price, price.to_bits());
    }
}
