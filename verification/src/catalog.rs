//! The catalog operations: create, update, delete, get one, and list.
//!
//! Each operation is a short composition of steps that are public on
//! their own: checking and converting a request, reading the outcome of a
//! write off the number of records it changed, settling the page bounds,
//! and turning records into the items handed to callers. A service that
//! keeps its records elsewhere runs the same steps around its own store.

use vstd::prelude::*;
use crate::models::Catalog;
use crate::models::CatalogError;
use crate::models::CatalogFields;
use crate::models::CatalogItem;
use crate::models::CatalogItemView;
use crate::models::CatalogRequest;
use crate::models::CatalogRequestView;
use crate::models::CatalogView;
use crate::models::CatalogsResponse;
use crate::models::CatalogsResponseView;
use crate::models::NewCatalog;
use crate::models::NewCatalogView;
use crate::models::Timestamp;
use crate::models::UpdateCatalog;
use crate::models::UpdateCatalogView;
use crate::models::ValidationFailure;
use crate::models::catalog_views;
use crate::models::item_views;
use crate::price::Decimal;
use crate::price::exact_decimal;
use crate::price::price_fault;
use crate::price::to_storage;
use crate::price::to_transport;
use crate::price::transport_of;
use crate::store::CatalogStore;
use crate::store::StoreView;
use crate::store::filter_view;
use crate::store::has_id;

verus! {

/// The page size of a listing that names none.
pub const DEFAULT_LIMIT: i64 = 20;

/// Why a request is refused, if it is: the name is checked first, then
/// the price.
pub open spec fn request_fault(request: CatalogRequestView) -> Option<ValidationFailure> {
    if request.name.len() == 0 {
        Some(ValidationFailure::EmptyName)
    } else {
        match price_fault(request.price) {
            Some(fault) => Some(ValidationFailure::InvalidPrice(fault)),
            None => None,
        }
    }
}

/// The fields of a request in storage form: the texts as they are, and
/// the price as the decimal that equals it.
pub open spec fn request_fields(request: CatalogRequestView) -> CatalogFields {
    CatalogFields {
        name: request.name,
        description: request.description,
        image: request.image,
        price: exact_decimal(request.price),
        currency: request.currency,
        category: request.category,
    }
}

/// The record to insert for a request accepted at the time `now`.
pub open spec fn new_catalog_of(request: CatalogRequestView, now: Timestamp) -> NewCatalogView {
    NewCatalogView { fields: request_fields(request), updated_at: now, created_at: now }
}

/// The replacement for a request accepted at the time `now`.
pub open spec fn update_catalog_of(request: CatalogRequestView, now: Timestamp) -> UpdateCatalogView {
    UpdateCatalogView { fields: request_fields(request), updated_at: now }
}

/// The item handed out for a record: its id and texts, and its price in
/// transport form.
pub open spec fn item_of(row: CatalogView) -> CatalogItemView {
    CatalogItemView {
        id: row.id,
        name: row.fields.name,
        description: row.fields.description,
        image: row.fields.image,
        price: transport_of(row.fields.price),
        currency: row.fields.currency,
        category: row.fields.category,
    }
}

/// The items of a sequence of records, in the same order.
pub open spec fn items_of(rows: Seq<CatalogView>) -> Seq<CatalogItemView> {
    Seq::new(rows.len(), |i: int| item_of(rows[i]))
}

/// The offset in force: the one asked for, zero where none or a negative
/// one was.
pub open spec fn effective_offset(offset: Option<i64>) -> int {
    match offset {
        Some(o) => if o < 0 { 0 } else { o as int },
        None => 0,
    }
}

/// The limit in force: the one asked for, twenty where none was, zero
/// where a negative one was.
pub open spec fn effective_limit(limit: Option<i64>) -> int {
    match limit {
        Some(l) => if l < 0 { 0 } else { l as int },
        None => DEFAULT_LIMIT as int,
    }
}

/// The outcome of a listing: the number of all records that pass the
/// filter, the items of the page asked for, and the bounds in force.
pub open spec fn listing_of(
    store: StoreView,
    category: Option<Seq<char>>,
    offset: Option<i64>,
    limit: Option<i64>,
) -> CatalogsResponseView {
    let from = effective_offset(offset);
    let many = effective_limit(limit);
    CatalogsResponseView {
        total: store.count(category) as int,
        catalog_items: items_of(store.list(category, from as nat, many as nat)),
        offset: from,
        limit: many,
    }
}

/// The outcome of looking one record up: its item, or `NotFound` where no
/// record has the id.
pub open spec fn lookup_of(store: StoreView, id: int) -> Result<CatalogItemView, CatalogError> {
    match store.find_by_id(id) {
        Some(row) => Ok(item_of(row)),
        None => Err(CatalogError::NotFound),
    }
}

/// How a create at the time `now` relates the store before and after it
/// to its result: a refused request and a full store change nothing;
/// otherwise the record is inserted under the next id, which is returned.
pub open spec fn create_holds(
    before: StoreView,
    request: CatalogRequestView,
    now: Timestamp,
    after: StoreView,
    result: Result<i32, CatalogError>,
) -> bool {
    match request_fault(request) {
        Some(failure) => after == before && result == Err::<i32, CatalogError>(
            CatalogError::ValidationError(failure),
        ),
        None => if before.can_insert() {
            after == before.insert(new_catalog_of(request, now)) && result == Ok::<
                i32,
                CatalogError,
            >((before.last_id + 1) as i32)
        } else {
            after == before && result == Err::<i32, CatalogError>(CatalogError::StorageError)
        },
    }
}

/// How an update at the time `now` relates the store before and after it
/// to its result: a refused request and an unknown id change nothing;
/// otherwise every mutable field of the record is replaced.
pub open spec fn update_holds(
    before: StoreView,
    id: int,
    request: CatalogRequestView,
    now: Timestamp,
    after: StoreView,
    result: Result<(), CatalogError>,
) -> bool {
    match request_fault(request) {
        Some(failure) => after == before && result == Err::<(), CatalogError>(
            CatalogError::ValidationError(failure),
        ),
        None => if has_id(before.rows, id) {
            after == before.update(id, update_catalog_of(request, now)) && result == Ok::<
                (),
                CatalogError,
            >(())
        } else {
            after == before && result == Err::<(), CatalogError>(CatalogError::NotFound)
        },
    }
}

/// Reads the system clock with `std::time::SystemTime::now` and turns
/// the reading into microseconds since the Unix epoch with `chrono`'s
/// conversion from `SystemTime` to `DateTime<Utc>` and its
/// `timestamp_micros`. A clock that stands before 1970 gives a time before
/// the epoch. Nothing is claimed of the value. The conversion has no
/// answer, and stops, only for a clock beyond `chrono`'s range of years,
/// some 262,000 years from the epoch.
#[verifier::external_body]
fn now_utc() -> (now: Timestamp) {
    Timestamp {
        micros: chrono::DateTime::<chrono::Utc>::from(std::time::SystemTime::now())
            .timestamp_micros(),
    }
}

/// Checks a request, name first and price second, and converts its price
/// to storage form.
fn checked_price(request: &CatalogRequest) -> (price: Result<Decimal, CatalogError>)
    ensures
        match price {
            Ok(d) => request_fault(request@) is None && d@ == exact_decimal(request@.price),
            Err(e) => request_fault(request@) matches Some(failure) && e
                == CatalogError::ValidationError(failure),
        },
{
    if request.name.as_str().is_empty() {
        return Err(CatalogError::ValidationError(ValidationFailure::EmptyName));
    }
    match to_storage(request.price) {
        Err(fault) => Err(CatalogError::ValidationError(ValidationFailure::InvalidPrice(fault))),
        Ok(price) => Ok(price),
    }
}

/// Checks a request and makes the record to insert of it, stamped with
/// `now` as both its creation and its update time.
pub fn new_catalog(request: CatalogRequest, now: Timestamp) -> (made: Result<
    NewCatalog,
    CatalogError,
>)
    ensures
        match made {
            Ok(new) => request_fault(request@) is None && new@ == new_catalog_of(request@, now),
            Err(e) => request_fault(request@) matches Some(failure) && e
                == CatalogError::ValidationError(failure),
        },
{
    match checked_price(&request) {
        Err(e) => Err(e),
        Ok(price) => Ok(
            NewCatalog {
                name: request.name,
                description: request.description,
                image: request.image,
                price,
                currency: request.currency,
                category: request.category,
                updated_at: now,
                created_at: now,
            },
        ),
    }
}

/// Checks a request and makes the replacement of every mutable field of
/// it, stamped with `now` as the update time.
pub fn update_catalog(request: CatalogRequest, now: Timestamp) -> (made: Result<
    UpdateCatalog,
    CatalogError,
>)
    ensures
        match made {
            Ok(update) => request_fault(request@) is None && update@ == update_catalog_of(
                request@,
                now,
            ),
            Err(e) => request_fault(request@) matches Some(failure) && e
                == CatalogError::ValidationError(failure),
        },
{
    match checked_price(&request) {
        Err(e) => Err(e),
        Ok(price) => Ok(
            UpdateCatalog {
                name: request.name,
                description: request.description,
                image: request.image,
                price,
                currency: request.currency,
                category: request.category,
                updated_at: now,
            },
        ),
    }
}

/// Reads the outcome of an update or a delete off the number of records
/// it changed: none means that no record has the id.
pub fn affected_outcome(affected: usize) -> (outcome: Result<(), CatalogError>)
    ensures
        outcome == if affected == 0 {
            Err::<(), CatalogError>(CatalogError::NotFound)
        } else {
            Ok::<(), CatalogError>(())
        },
{
    if affected == 0 {
        Err(CatalogError::NotFound)
    } else {
        Ok(())
    }
}

/// Settles the bounds of a listing: offset zero and limit twenty where
/// none is given, and zero in place of a negative value.
pub fn page_bounds(offset: Option<i64>, limit: Option<i64>) -> (bounds: (i64, i64))
    ensures
        bounds.0 == effective_offset(offset),
        bounds.1 == effective_limit(limit),
{
    let from: i64 = match offset {
        Some(o) => if o < 0 { 0 } else { o },
        None => 0,
    };
    let many: i64 = match limit {
        Some(l) => if l < 0 { 0 } else { l },
        None => DEFAULT_LIMIT,
    };
    (from, many)
}

/// Makes the item handed out for a record.
pub fn catalog_item(row: &Catalog) -> (item: CatalogItem)
    ensures
        item@ == item_of(row@),
{
    CatalogItem {
        id: row.id,
        name: row.name.clone(),
        description: row.description.clone(),
        image: row.image.clone(),
        price: to_transport(&row.price),
        currency: row.currency.clone(),
        category: row.category.clone(),
    }
}

/// Makes the items of a sequence of records, in the same order.
pub fn catalog_items(rows: &Vec<Catalog>) -> (items: Vec<CatalogItem>)
    ensures
        item_views(items@) == items_of(catalog_views(rows@)),
{
    let mut items: Vec<CatalogItem> = Vec::new();
    let mut i: usize = 0;
    while i < rows.len()
        invariant
            i <= rows.len(),
            items@.len() == i,
            forall|k: int| 0 <= k < i ==> (#[trigger] items@[k])@ == item_of(rows@[k]@),
        decreases rows.len() - i,
    {
        let item = catalog_item(&rows[i]);
        items.push(item);
        i = i + 1;
    }
    assert(item_views(items@) =~= items_of(catalog_views(rows@)));
    items
}

/// Puts a listing together of the number of all matching records, the
/// records of the page, and the bounds in force.
pub fn catalogs_response(total: i64, rows: &Vec<Catalog>, offset: i64, limit: i64) -> (response:
    CatalogsResponse)
    ensures
        response@ == (CatalogsResponseView {
            total: total as int,
            catalog_items: items_of(catalog_views(rows@)),
            offset: offset as int,
            limit: limit as int,
        }),
{
    CatalogsResponse { total, catalog_items: catalog_items(rows), offset, limit }
}

/// Creates a record of the request, stamped with `now`.
pub fn create_at(store: &mut CatalogStore, request: CatalogRequest, now: Timestamp) -> (result:
    Result<i32, CatalogError>)
    ensures
        old(store)@.wf(),
        final(store)@.wf(),
        create_holds(old(store)@, request@, now, final(store)@, result),
{
    proof {
        use_type_invariant(&*store);
        store.lemma_well_formed();
    }
    match new_catalog(request, now) {
        Err(e) => Err(e),
        Ok(new) => store.insert(new),
    }
}

/// Creates a record of the request, stamped with the time of the system
/// clock, and returns its id. What holds of a create at a given time
/// holds of this one at the time that was read.
pub fn create(store: &mut CatalogStore, request: CatalogRequest) -> (result: Result<
    i32,
    CatalogError,
>)
    ensures
        old(store)@.wf(),
        final(store)@.wf(),
        exists|now: Timestamp| create_holds(old(store)@, request@, now, final(store)@, result),
{
    let now = now_utc();
    create_at(store, request, now)
}

/// Replaces every mutable field of the record with the id by the
/// request's, stamped with `now`.
pub fn update_at(
    store: &mut CatalogStore,
    catalog_id: i32,
    request: CatalogRequest,
    now: Timestamp,
) -> (result: Result<(), CatalogError>)
    ensures
        old(store)@.wf(),
        final(store)@.wf(),
        update_holds(old(store)@, catalog_id as int, request@, now, final(store)@, result),
{
    proof {
        use_type_invariant(&*store);
        store.lemma_well_formed();
    }
    match update_catalog(request, now) {
        Err(e) => Err(e),
        Ok(update) => {
            let affected = store.update(catalog_id, update);
            affected_outcome(affected)
        },
    }
}

/// Replaces every mutable field of the record with the id by the
/// request's, stamped with the time of the system clock. What holds of an
/// update at a given time holds of this one at the time that was read.
pub fn update(store: &mut CatalogStore, catalog_id: i32, request: CatalogRequest) -> (result:
    Result<(), CatalogError>)
    ensures
        old(store)@.wf(),
        final(store)@.wf(),
        exists|now: Timestamp|
            update_holds(old(store)@, catalog_id as int, request@, now, final(store)@, result),
{
    let now = now_utc();
    update_at(store, catalog_id, request, now)
}

/// Removes the record with the id; `NotFound` where no record has it.
pub fn delete(store: &mut CatalogStore, catalog_id: i32) -> (result: Result<(), CatalogError>)
    ensures
        old(store)@.wf(),
        final(store)@.wf(),
        final(store)@ == old(store)@.delete(catalog_id as int),
        result == if has_id(old(store)@.rows, catalog_id as int) {
            Ok::<(), CatalogError>(())
        } else {
            Err::<(), CatalogError>(CatalogError::NotFound)
        },
{
    let affected = store.delete(catalog_id);
    affected_outcome(affected)
}

/// Lists the records that pass the category filter, one page at a time,
/// with the number of all that pass. A listing does not fail.
pub fn get_catalogs(
    store: &CatalogStore,
    category_name: Option<String>,
    offset: Option<i64>,
    limit: Option<i64>,
) -> (result: Result<CatalogsResponse, CatalogError>)
    ensures
        store@.wf(),
        result matches Ok(response) && response@ == listing_of(
            store@,
            filter_view(category_name),
            offset,
            limit,
        ),
{
    let (from, many) = page_bounds(offset, limit);
    let total = store.count(&category_name);
    let rows = store.list(&category_name, from as u64, many as u64);
    Ok(catalogs_response(total as i64, &rows, from, many))
}

/// Looks one record up; `NotFound` where no record has the id, and the
/// record's item otherwise.
pub fn get_catalog(store: &CatalogStore, catalog_id: i32) -> (result: Result<
    CatalogItem,
    CatalogError,
>)
    ensures
        store@.wf(),
        match result {
            Ok(item) => lookup_of(store@, catalog_id as int) == Ok::<CatalogItemView, CatalogError>(
                item@,
            ),
            Err(e) => lookup_of(store@, catalog_id as int) == Err::<CatalogItemView, CatalogError>(
                e,
            ),
        },
{
    match store.find_by_id(catalog_id) {
        None => Err(CatalogError::NotFound),
        Some(row) => Ok(catalog_item(&row)),
    }
}

} // verus!
