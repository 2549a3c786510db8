//! What holds of the catalog across several operations, proved over the
//! views that the operations' own contracts speak of.

use vstd::prelude::*;
use crate::catalog::create_holds;
use crate::catalog::lookup_of;
use crate::catalog::new_catalog_of;
use crate::catalog::request_fault;
use crate::catalog::request_fields;
use crate::catalog::update_catalog_of;
use crate::catalog::update_holds;
use crate::models::CatalogError;
use crate::models::CatalogItemView;
use crate::models::CatalogRequestView;
use crate::models::CatalogView;
use crate::models::Timestamp;
use crate::price::lemma_round_trip;
use crate::price::price_fault;
use crate::price::unsigned_zero;
use crate::store::StoreView;
use crate::store::filtered;
use crate::store::has_id;
use crate::store::inserted_row;
use crate::store::lemma_filtered_push;
use crate::store::lemma_insert;
use crate::store::lemma_update;
use crate::store::matches_filter;
use crate::store::position;

verus! {

/// The ids rise strictly along the sequence.
pub open spec fn ascending_ids(rows: Seq<CatalogView>) -> bool {
    forall|i: int, j: int|
        0 <= i < j < rows.len() ==> (#[trigger] rows[i]).id < (#[trigger] rows[j]).id
}

/// Every record was created no later than it was last updated.
pub open spec fn time_ordered(rows: Seq<CatalogView>) -> bool {
    forall|i: int|
        0 <= i < rows.len() ==> (#[trigger] rows[i]).created_at.micros
            <= rows[i].updated_at.micros
}

/// The first `pages` pages of a listing with a page size of `size`, one
/// after another: the listings at the offsets `0`, `size`, `2 * size`, and
/// so on.
pub open spec fn pages_listed(
    store: StoreView,
    category: Option<Seq<char>>,
    size: nat,
    pages: nat,
) -> Seq<CatalogView>
    decreases pages,
{
    if pages == 0 {
        Seq::empty()
    } else {
        pages_listed(store, category, size, (pages - 1) as nat) + store.list(
            category,
            ((pages - 1) * size) as nat,
            size,
        )
    }
}

/// Creating and then looking up: a create that succeeded at the time
/// `now` left a well-formed store in which the returned id finds the
/// request's own record, stamped with `now` twice; the id is a new one,
/// and the item handed out for it carries the request's texts and its
/// price unchanged, but for the sign of a zero price.
pub proof fn lemma_create_then_get(
    before: StoreView,
    request: CatalogRequestView,
    now: Timestamp,
    after: StoreView,
    id: i32,
)
    requires
        before.wf(),
        create_holds(before, request, now, after, Ok(id)),
    ensures
        after.wf(),
        request_fault(request) is None,
        !has_id(before.rows, id as int),
        after.find_by_id(id as int) == Some(
            inserted_row(id as int, new_catalog_of(request, now)),
        ),
        lookup_of(after, id as int) == Ok::<CatalogItemView, CatalogError>(
            CatalogItemView {
                id: id as int,
                name: request.name,
                description: request.description,
                image: request.image,
                price: unsigned_zero(request.price),
                currency: request.currency,
                category: request.category,
            },
        ),
{
    lemma_insert(before, new_catalog_of(request, now), 0);
    lemma_round_trip(request.price);
}

/// Updating and then looking up: an update that succeeded at the time
/// `now` left a well-formed store with as many records as before, in
/// which the id finds a record with every field of the request, the
/// creation time it had, and `now` as its update time, which is later
/// than the one it had wherever `now` is. The item handed out for the id
/// carries the request's texts and its price unchanged, but for the sign
/// of a zero price.
pub proof fn lemma_update_then_get(
    before: StoreView,
    id: int,
    request: CatalogRequestView,
    now: Timestamp,
    after: StoreView,
)
    requires
        before.wf(),
        update_holds(before, id, request, now, after, Ok(())),
    ensures
        after.wf(),
        request_fault(request) is None,
        before.find_by_id(id) is Some,
        after.rows.len() == before.rows.len(),
        after.find_by_id(id) == Some(
            CatalogView {
                id,
                fields: request_fields(request),
                created_at: before.find_by_id(id)->Some_0.created_at,
                updated_at: now,
            },
        ),
        now.micros > before.find_by_id(id)->Some_0.updated_at.micros ==> after.find_by_id(
            id,
        )->Some_0.updated_at.micros > before.find_by_id(id)->Some_0.updated_at.micros,
        lookup_of(after, id) == Ok::<CatalogItemView, CatalogError>(
            CatalogItemView {
                id: id,
                name: request.name,
                description: request.description,
                image: request.image,
                price: unsigned_zero(request.price),
                currency: request.currency,
                category: request.category,
            },
        ),
{
    lemma_update(before, id, update_catalog_of(request, now), id + 1);
    lemma_round_trip(request.price);
}

/// An id that no record has: looking it up, deleting it, and updating it
/// with a request that passes the checks all end in `NotFound`, and none
/// of them changes the store.
pub proof fn lemma_unknown_id(
    store: StoreView,
    id: int,
    request: CatalogRequestView,
    now: Timestamp,
    after: StoreView,
    result: Result<(), CatalogError>,
)
    requires
        !has_id(store.rows, id),
        request_fault(request) is None,
        update_holds(store, id, request, now, after, result),
    ensures
        lookup_of(store, id) == Err::<CatalogItemView, CatalogError>(CatalogError::NotFound),
        store.delete(id) == store,
        result == Err::<(), CatalogError>(CatalogError::NotFound),
        after == store,
{
}

/// A request whose price is not a number, infinite or below zero is
/// refused with a validation error by create and by update, and the store
/// stays as it was.
pub proof fn lemma_invalid_price_stores_nothing(
    before: StoreView,
    id: int,
    request: CatalogRequestView,
    now: Timestamp,
    after_create: StoreView,
    created: Result<i32, CatalogError>,
    after_update: StoreView,
    updated: Result<(), CatalogError>,
)
    requires
        price_fault(request.price) is Some,
        create_holds(before, request, now, after_create, created),
        update_holds(before, id, request, now, after_update, updated),
    ensures
        after_create == before,
        after_update == before,
        created matches Err(CatalogError::ValidationError(_)),
        updated matches Err(CatalogError::ValidationError(_)),
{
}

/// An update at a later time moves the update time forward: in a store
/// whose records were all created no later than they were updated, an
/// update that succeeded at a time after the record's update time leaves
/// the creation time as it was, an update time that is later than the
/// one before and not before the creation time, and a store whose
/// records are all still created no later than they were updated.
pub proof fn lemma_update_advances_time(
    before: StoreView,
    id: int,
    request: CatalogRequestView,
    now: Timestamp,
    after: StoreView,
)
    requires
        before.wf(),
        time_ordered(before.rows),
        update_holds(before, id, request, now, after, Ok(())),
        now.micros > before.find_by_id(id)->Some_0.updated_at.micros,
    ensures
        before.find_by_id(id) is Some,
        after.find_by_id(id) is Some,
        after.find_by_id(id)->Some_0.created_at == before.find_by_id(id)->Some_0.created_at,
        after.find_by_id(id)->Some_0.updated_at.micros > before.find_by_id(
            id,
        )->Some_0.updated_at.micros,
        after.find_by_id(id)->Some_0.updated_at.micros >= after.find_by_id(
            id,
        )->Some_0.created_at.micros,
        time_ordered(after.rows),
{
    lemma_update_then_get(before, id, request, now, after);
    lemma_times_stay_ordered(before, id, request, now);
    let at = position(before.rows, id);
    assert(before.rows[at].created_at.micros <= before.rows[at].updated_at.micros);
}

/// Creation stamps both times alike, and an update at or after a record's
/// creation time keeps the two in order: a store whose records were all
/// created no later than they were updated stays so.
pub proof fn lemma_times_stay_ordered(
    before: StoreView,
    id: int,
    request: CatalogRequestView,
    now: Timestamp,
)
    requires
        before.wf(),
        time_ordered(before.rows),
    ensures
        time_ordered(before.insert(new_catalog_of(request, now)).rows),
        time_ordered(before.delete(id).rows),
        before.find_by_id(id) matches Some(row) && row.created_at.micros <= now.micros
            ==> time_ordered(before.update(id, update_catalog_of(request, now)).rows),
{
}

/// Filtering keeps the order of the records: what passes the filter has
/// strictly rising ids, passes the filter, and stands in the sequence
/// that was filtered; and every record of that sequence that passes the
/// filter is kept.
pub proof fn lemma_filtered(rows: Seq<CatalogView>, category: Option<Seq<char>>)
    requires
        ascending_ids(rows),
    ensures
        ascending_ids(filtered(rows, category)),
        filtered(rows, category).len() <= rows.len(),
        forall|i: int|
            0 <= i < filtered(rows, category).len() ==> matches_filter(
                #[trigger] filtered(rows, category)[i],
                category,
            ) && rows.contains(filtered(rows, category)[i]),
        forall|i: int|
            0 <= i < rows.len() && matches_filter(rows[i], category) ==> filtered(
                rows,
                category,
            ).contains(#[trigger] rows[i]),
    decreases rows.len(),
{
    if rows.len() == 0 {
        reveal(Seq::filter);
    } else {
        let rest = rows.drop_last();
        let last = rows.last();
        assert(rows =~= rest.push(last));
        lemma_filtered(rest, category);
        lemma_filtered_push(rest, last, category);
    }
}

/// The filter of a listing and of a count is one and the same: a listing
/// holds only records of the store that pass the filter, in rising id
/// order, and the count is the number of the store's records that pass
/// it, each counted once. A page is full unless the filtered records
/// end within it, and empty where the offset is not below the count.
pub proof fn lemma_listing_filter(
    store: StoreView,
    category: Option<Seq<char>>,
    offset: nat,
    limit: nat,
)
    requires
        store.wf(),
    ensures
        store.list(category, offset, limit).len() <= limit,
        store.list(category, offset, limit).len() == if offset >= store.count(category) {
            0
        } else if offset + limit <= store.count(category) {
            limit as int
        } else {
            store.count(category) - offset
        },
        ascending_ids(store.list(category, offset, limit)),
        forall|i: int|
            0 <= i < store.list(category, offset, limit).len() ==> matches_filter(
                #[trigger] store.list(category, offset, limit)[i],
                category,
            ) && store.rows.contains(store.list(category, offset, limit)[i]),
        store.count(category) == Set::new(
            |row: CatalogView| store.rows.contains(row) && matches_filter(row, category),
        ).len(),
{
    lemma_filtered(store.rows, category);
    let all = filtered(store.rows, category);
    all.unique_seq_to_set();
    let matching = Set::new(
        |row: CatalogView| store.rows.contains(row) && matches_filter(row, category),
    );
    assert(all.to_set() =~= matching) by {
    }
}

/// Pages laid end to end are a prefix of the filtered records: the first
/// `pages` pages of `size` records hold the first `pages * size` of them,
/// or all of them where there are no more.
pub proof fn lemma_pages_listed(
    store: StoreView,
    category: Option<Seq<char>>,
    size: nat,
    pages: nat,
)
    ensures
        pages_listed(store, category, size, pages) == filtered(store.rows, category).take(
            if pages * size <= store.count(category) {
                (pages * size) as int
            } else {
                store.count(category) as int
            },
        ),
    decreases pages,
{
    if pages == 0 {
    } else {
        let done = (pages - 1) as nat;
        lemma_pages_listed(store, category, size, done);
        assert(done * size + size == pages * size) by (nonlinear_arith)
            requires
                done + 1 == pages,
        ;
    }
}

/// Paging through a listing misses and repeats nothing: in a store that
/// stays as it is, the pages at the offsets `0`, `size`, `2 * size`, and
/// so on, once they reach the count, hold every record that passes the
/// filter exactly once, in rising id order, and as many records as the
/// count says.
pub proof fn lemma_paging_complete(
    store: StoreView,
    category: Option<Seq<char>>,
    size: nat,
    pages: nat,
)
    requires
        store.wf(),
        pages * size >= store.count(category),
    ensures
        pages_listed(store, category, size, pages) == filtered(store.rows, category),
        pages_listed(store, category, size, pages).len() == store.count(category),
        ascending_ids(pages_listed(store, category, size, pages)),
        forall|i: int|
            0 <= i < store.rows.len() && matches_filter(store.rows[i], category) ==> pages_listed(
                store,
                category,
                size,
                pages,
            ).contains(#[trigger] store.rows[i]),
        forall|i: int|
            0 <= i < pages_listed(store, category, size, pages).len() ==> matches_filter(
                #[trigger] pages_listed(store, category, size, pages)[i],
                category,
            ) && store.rows.contains(pages_listed(store, category, size, pages)[i]),
{
    let all = filtered(store.rows, category);
    lemma_pages_listed(store, category, size, pages);
    assert(all.take(all.len() as int) =~= all);
    lemma_filtered(store.rows, category);
}

} // verus!
