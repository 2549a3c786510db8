//! The catalog store: records keyed by id and kept in ascending id order.
//!
//! The store is described by its view, a sequence of record views and the
//! last id handed out. Every operation is stated as a function on that
//! view, so listing and counting share one filter by construction.

use vstd::prelude::*;
use crate::models::Catalog;
use crate::models::CatalogError;
use crate::models::CatalogView;
use crate::models::NewCatalog;
use crate::models::NewCatalogView;
use crate::models::UpdateCatalog;
use crate::models::UpdateCatalogView;
use crate::models::catalog_views;

verus! {

/// The category filter of a listing as a mathematical value.
pub open spec fn filter_view(category: Option<String>) -> Option<Seq<char>> {
    match category {
        Some(c) => Some(c@),
        None => None,
    }
}

/// Exact, case-sensitive match on the category; no filter matches all.
pub open spec fn matches_filter(row: CatalogView, category: Option<Seq<char>>) -> bool {
    match category {
        Some(c) => row.fields.category == c,
        None => true,
    }
}

/// The records that pass the filter, in their stored order.
pub open spec fn filtered(rows: Seq<CatalogView>, category: Option<Seq<char>>) -> Seq<
    CatalogView,
> {
    rows.filter(|row: CatalogView| matches_filter(row, category))
}

/// The page of at most `limit` elements that starts `offset` elements in.
pub open spec fn page<T>(s: Seq<T>, offset: nat, limit: nat) -> Seq<T> {
    let lo = if offset <= s.len() { offset as int } else { s.len() as int };
    let hi = if offset + limit <= s.len() { (offset + limit) as int } else { s.len() as int };
    s.subrange(lo, hi)
}

/// Some record has the id.
pub open spec fn has_id(rows: Seq<CatalogView>, id: int) -> bool {
    exists|i: int| 0 <= i < rows.len() && #[trigger] rows[i].id == id
}

/// The place of a record with the id, where there is one.
pub open spec fn position(rows: Seq<CatalogView>, id: int) -> int {
    choose|i: int| 0 <= i < rows.len() && #[trigger] rows[i].id == id
}

/// The record a store makes of a record to insert and a fresh id.
pub open spec fn inserted_row(id: int, new: NewCatalogView) -> CatalogView {
    CatalogView { id, fields: new.fields, created_at: new.created_at, updated_at: new.updated_at }
}

/// A record after an update: every mutable field and the update time are
/// replaced, the id and the creation time stay.
pub open spec fn updated_row(row: CatalogView, update: UpdateCatalogView) -> CatalogView {
    CatalogView {
        id: row.id,
        fields: update.fields,
        created_at: row.created_at,
        updated_at: update.updated_at,
    }
}

/// The mathematical state of a store.
pub struct StoreView {
    /// The records, in ascending id order.
    pub rows: Seq<CatalogView>,
    /// The last id handed out; zero before the first insert.
    pub last_id: int,
}

impl StoreView {
    /// Ids are positive, at most the last one handed out, and strictly
    /// ascending along the sequence, hence unique.
    pub open spec fn wf(self) -> bool {
        &&& 0 <= self.last_id <= i32::MAX
        &&& forall|i: int|
            0 <= i < self.rows.len() ==> 1 <= (#[trigger] self.rows[i]).id <= self.last_id
        &&& forall|i: int, j: int|
            0 <= i < j < self.rows.len() ==> (#[trigger] self.rows[i]).id < (
            #[trigger] self.rows[j]).id
    }

    /// The store with no record, before any id was handed out.
    pub open spec fn empty() -> StoreView {
        StoreView { rows: Seq::empty(), last_id: 0 }
    }

    /// Whether another id can be handed out.
    pub open spec fn can_insert(self) -> bool {
        self.last_id < i32::MAX
    }

    /// The state after an insert that was given the next id.
    pub open spec fn insert(self, new: NewCatalogView) -> StoreView {
        StoreView {
            rows: self.rows.push(inserted_row(self.last_id + 1, new)),
            last_id: self.last_id + 1,
        }
    }

    /// The state after an update of the record with the id, if there is one.
    pub open spec fn update(self, id: int, update: UpdateCatalogView) -> StoreView {
        if has_id(self.rows, id) {
            let at = position(self.rows, id);
            StoreView {
                rows: self.rows.update(at, updated_row(self.rows[at], update)),
                last_id: self.last_id,
            }
        } else {
            self
        }
    }

    /// The state after the record with the id, if there is one, is removed.
    pub open spec fn delete(self, id: int) -> StoreView {
        if has_id(self.rows, id) {
            StoreView { rows: self.rows.remove(position(self.rows, id)), last_id: self.last_id }
        } else {
            self
        }
    }

    /// The record with the id, if there is one.
    pub open spec fn find_by_id(self, id: int) -> Option<CatalogView> {
        if has_id(self.rows, id) {
            Some(self.rows[position(self.rows, id)])
        } else {
            None
        }
    }

    /// The page of the filtered records.
    pub open spec fn list(self, category: Option<Seq<char>>, offset: nat, limit: nat) -> Seq<
        CatalogView,
    > {
        page(filtered(self.rows, category), offset, limit)
    }

    /// The number of filtered records.
    pub open spec fn count(self, category: Option<Seq<char>>) -> nat {
        filtered(self.rows, category).len()
    }
}

/// In a well-formed store the place of an id is the only one that holds it.
pub proof fn lemma_position_unique(s: StoreView, id: int, at: int)
    requires
        s.wf(),
        0 <= at < s.rows.len(),
        s.rows[at].id == id,
    ensures
        has_id(s.rows, id),
        position(s.rows, id) == at,
{
}

/// A well-formed store holds no more records than ids it has handed out.
pub proof fn lemma_len_at_most_last_id(s: StoreView)
    requires
        s.wf(),
    ensures
        s.rows.len() <= s.last_id,
{
    lemma_id_at_least_place(s, s.rows.len() as int - 1);
}

/// The record at place `at` has an id above `at`.
proof fn lemma_id_at_least_place(s: StoreView, at: int)
    requires
        s.wf(),
        -1 <= at < s.rows.len(),
    ensures
        at >= 0 ==> s.rows[at].id >= at + 1,
        at + 1 <= s.last_id,
    decreases at + 1,
{
    if at >= 0 {
        lemma_id_at_least_place(s, at - 1);
    }
}

/// An insert into a well-formed store that has an id left gives a
/// well-formed store, whose new record is found under the new id, and in
/// which every other id finds what it found before.
pub proof fn lemma_insert(before: StoreView, new: NewCatalogView, other: int)
    requires
        before.wf(),
        before.can_insert(),
        other != before.last_id + 1,
    ensures
        before.insert(new).wf(),
        !has_id(before.rows, before.last_id + 1),
        before.insert(new).find_by_id(before.last_id + 1) == Some(
            inserted_row(before.last_id + 1, new),
        ),
        before.insert(new).find_by_id(other) == before.find_by_id(other),
{
    let id = before.last_id + 1;
    let after = before.insert(new);
    let n = before.rows.len() as int;
    lemma_position_unique(after, id, n);
    if has_id(before.rows, other) {
        let p = position(before.rows, other);
        lemma_position_unique(after, other, p);
    }
}

/// An update of a well-formed store gives a well-formed store. The
/// updated record keeps its id and its creation time and has every other
/// field replaced; every other id finds what it found before.
pub proof fn lemma_update(before: StoreView, id: int, update: UpdateCatalogView, other: int)
    requires
        before.wf(),
        has_id(before.rows, id),
        other != id,
    ensures
        before.update(id, update).wf(),
        before.update(id, update).rows.len() == before.rows.len(),
        before.update(id, update).find_by_id(id) == Some(
            updated_row(before.find_by_id(id)->Some_0, update),
        ),
        before.update(id, update).find_by_id(other) == before.find_by_id(other),
{
    let at = position(before.rows, id);
    let after = before.update(id, update);
    lemma_position_unique(after, id, at);
    if has_id(before.rows, other) {
        let p = position(before.rows, other);
        lemma_position_unique(after, other, p);
    }
}

/// A delete from a well-formed store gives a well-formed store in which
/// the id finds nothing and every other id finds what it found before.
pub proof fn lemma_delete(before: StoreView, id: int, other: int)
    requires
        before.wf(),
        other != id,
    ensures
        before.delete(id).wf(),
        before.delete(id).find_by_id(id) is None,
        before.delete(id).find_by_id(other) == before.find_by_id(other),
        has_id(before.rows, id) ==> before.delete(id).rows.len() + 1 == before.rows.len(),
{
    let after = before.delete(id);
    if has_id(before.rows, id) {
        let at = position(before.rows, id);
        if has_id(before.rows, other) {
            let p = position(before.rows, other);
            let q = if p < at { p } else { p - 1 };
            lemma_position_unique(after, other, q);
        }
    }
}

/// Filtering one more record either appends it or changes nothing.
pub proof fn lemma_filtered_push(rows: Seq<CatalogView>, row: CatalogView, category: Option<
    Seq<char>,
>)
    ensures
        filtered(rows.push(row), category) == if matches_filter(row, category) {
            filtered(rows, category).push(row)
        } else {
            filtered(rows, category)
        },
{
    reveal(Seq::filter);
    let longer = rows.push(row);
    assert(longer.drop_last() =~= rows);
}

/// An ordered catalog store held in memory.
pub struct CatalogStore {
    rows: Vec<Catalog>,
    last_id: i32,
}

impl View for CatalogStore {
    type V = StoreView;

    closed spec fn view(&self) -> StoreView {
        StoreView { rows: catalog_views(self.rows@), last_id: self.last_id as int }
    }
}

impl CatalogStore {
    /// What holds of every store: its view is well formed.
    #[verifier::type_invariant]
    pub closed spec fn well_formed(&self) -> bool {
        self@.wf()
    }

    /// The view of a store is well formed.
    pub proof fn lemma_well_formed(&self)
        requires
            self.well_formed(),
        ensures
            self@.wf(),
    {
    }

    /// A store with no record.
    pub fn new() -> (store: CatalogStore)
        ensures
            store@ == StoreView::empty(),
    {
        let store = CatalogStore { rows: Vec::new(), last_id: 0 };
        assert(store@.rows =~= Seq::<CatalogView>::empty());
        store
    }

    /// A store with no record whose first id will be the one after
    /// `last_id`; `None` where `last_id` is below zero.
    pub fn after(last_id: i32) -> (made: Option<CatalogStore>)
        ensures
            match made {
                Some(store) => last_id >= 0 && store@ == (StoreView {
                    rows: Seq::empty(),
                    last_id: last_id as int,
                }),
                None => last_id < 0,
            },
    {
        if last_id < 0 {
            return None;
        }
        let store = CatalogStore { rows: Vec::new(), last_id };
        assert(store@.rows =~= Seq::<CatalogView>::empty());
        Some(store)
    }

    /// The place of the record with the id.
    fn find_index(&self, id: i32) -> (found: Option<usize>)
        ensures
            self@.wf(),
            match found {
                Some(at) => at < self.rows.len() && has_id(self@.rows, id as int) && position(
                    self@.rows,
                    id as int,
                ) == at,
                None => !has_id(self@.rows, id as int),
            },
    {
        proof {
            use_type_invariant(self);
        }
        let mut i: usize = 0;
        while i < self.rows.len()
            invariant
                self@.wf(),
                i <= self.rows.len(),
                forall|k: int| 0 <= k < i ==> (#[trigger] self@.rows[k]).id != id,
            decreases self.rows.len() - i,
        {
            if self.rows[i].id == id {
                proof {
                    lemma_position_unique(self@, id as int, i as int);
                }
                return Some(i);
            }
            i = i + 1;
        }
        None
    }

    /// Stores a new record under the next id and returns that id. Fails
    /// with `StorageError`, and stores nothing, once every id is used up.
    pub fn insert(&mut self, new: NewCatalog) -> (result: Result<i32, CatalogError>)
        ensures
            old(self)@.wf(),
            final(self)@.wf(),
            old(self)@.can_insert() ==> result == Ok::<i32, CatalogError>(
                (old(self)@.last_id + 1) as i32,
            ) && final(self)@ == old(self)@.insert(new@),
            !old(self)@.can_insert() ==> result == Err::<i32, CatalogError>(
                CatalogError::StorageError,
            ) && final(self)@ == old(self)@,
    {
        proof {
            use_type_invariant(&*self);
        }
        if self.last_id == i32::MAX {
            return Err(CatalogError::StorageError);
        }
        let id: i32 = self.last_id + 1;
        let row = Catalog {
            id,
            name: new.name,
            description: new.description,
            image: new.image,
            price: new.price,
            currency: new.currency,
            category: new.category,
            created_at: new.created_at,
            updated_at: new.updated_at,
        };
        let mut rows: Vec<Catalog> = Vec::new();
        std::mem::swap(&mut rows, &mut self.rows);
        rows.push(row);
        self.last_id = id;
        proof {
            assert(catalog_views(rows@) =~= old(self)@.rows.push(inserted_row(id as int, new@)));
        }
        self.rows = rows;
        Ok(id)
    }

    /// Replaces every mutable field of the record with the id and returns
    /// the number of records changed: one, or zero where no record has it.
    pub fn update(&mut self, id: i32, update: UpdateCatalog) -> (affected: usize)
        ensures
            old(self)@.wf(),
            final(self)@.wf(),
            final(self)@ == old(self)@.update(id as int, update@),
            affected == if has_id(old(self)@.rows, id as int) { 1usize } else { 0usize },
    {
        match self.find_index(id) {
            Some(at) => {
                let created_at = self.rows[at].created_at;
                let row = Catalog {
                    id,
                    name: update.name,
                    description: update.description,
                    image: update.image,
                    price: update.price,
                    currency: update.currency,
                    category: update.category,
                    created_at,
                    updated_at: update.updated_at,
                };
                let mut rows: Vec<Catalog> = Vec::new();
                std::mem::swap(&mut rows, &mut self.rows);
                rows.set(at, row);
                proof {
                    assert(catalog_views(rows@) =~= old(self)@.update(id as int, update@).rows);
                }
                self.rows = rows;
                1
            },
            None => 0,
        }
    }

    /// Removes the record with the id and returns the number of records
    /// removed: one, or zero where no record has it.
    pub fn delete(&mut self, id: i32) -> (affected: usize)
        ensures
            old(self)@.wf(),
            final(self)@.wf(),
            final(self)@ == old(self)@.delete(id as int),
            affected == if has_id(old(self)@.rows, id as int) { 1usize } else { 0usize },
    {
        match self.find_index(id) {
            Some(at) => {
                let mut rows: Vec<Catalog> = Vec::new();
                std::mem::swap(&mut rows, &mut self.rows);
                rows.remove(at);
                proof {
                    assert(catalog_views(rows@) =~= old(self)@.delete(id as int).rows);
                }
                self.rows = rows;
                1
            },
            None => 0,
        }
    }

    /// A copy of the record with the id, or `None` where no record has it.
    pub fn find_by_id(&self, id: i32) -> (found: Option<Catalog>)
        ensures
            self@.wf(),
            match found {
                Some(row) => self@.find_by_id(id as int) == Some(row@),
                None => self@.find_by_id(id as int) is None,
            },
    {
        match self.find_index(id) {
            Some(at) => Some(self.rows[at].clone()),
            None => None,
        }
    }

    /// Whether the record passes the category filter.
    fn passes(row: &Catalog, category: &Option<String>) -> (pass: bool)
        ensures
            pass == matches_filter(row@, filter_view(*category)),
    {
        match category {
            Some(c) => row.category == *c,
            None => true,
        }
    }

    /// The number of records that pass the filter.
    pub fn count(&self, category: &Option<String>) -> (total: usize)
        ensures
            self@.wf(),
            total == self@.count(filter_view(*category)),
            total <= i32::MAX,
    {
        proof {
            use_type_invariant(self);
            lemma_len_at_most_last_id(self@);
        }
        let ghost filter = filter_view(*category);
        let mut total: usize = 0;
        let mut i: usize = 0;
        while i < self.rows.len()
            invariant
                i <= self.rows.len(),
                filter == filter_view(*category),
                total == filtered(self@.rows.take(i as int), filter).len(),
                total <= i,
            decreases self.rows.len() - i,
        {
            proof {
                lemma_filtered_push(self@.rows.take(i as int), self@.rows[i as int], filter);
                assert(self@.rows.take(i as int + 1) =~= self@.rows.take(i as int).push(
                    self@.rows[i as int],
                ));
            }
            if Self::passes(&self.rows[i], category) {
                total = total + 1;
            }
            i = i + 1;
        }
        assert(self@.rows.take(i as int) =~= self@.rows);
        total
    }

    /// Copies of at most `limit` records that pass the filter, starting
    /// `offset` records into the filtered set, in ascending id order.
    pub fn list(&self, category: &Option<String>, offset: u64, limit: u64) -> (rows: Vec<Catalog>)
        ensures
            self@.wf(),
            catalog_views(rows@) == self@.list(
                filter_view(*category),
                offset as nat,
                limit as nat,
            ),
    {
        proof {
            use_type_invariant(self);
        }
        let ghost filter = filter_view(*category);
        let mut out: Vec<Catalog> = Vec::new();
        let mut seen: usize = 0;
        let mut i: usize = 0;
        assert(catalog_views(out@) =~= page(
            filtered(self@.rows.take(0), filter),
            offset as nat,
            limit as nat,
        ));
        while i < self.rows.len()
            invariant
                i <= self.rows.len(),
                filter == filter_view(*category),
                seen == filtered(self@.rows.take(i as int), filter).len(),
                seen <= i,
                catalog_views(out@) == page(
                    filtered(self@.rows.take(i as int), filter),
                    offset as nat,
                    limit as nat,
                ),
            decreases self.rows.len() - i,
        {
            let ghost before = filtered(self@.rows.take(i as int), filter);
            proof {
                lemma_filtered_push(self@.rows.take(i as int), self@.rows[i as int], filter);
                assert(self@.rows.take(i as int + 1) =~= self@.rows.take(i as int).push(
                    self@.rows[i as int],
                ));
            }
            if Self::passes(&self.rows[i], category) {
                if seen as u64 >= offset && (seen as u64 - offset) < limit {
                    let row = self.rows[i].clone();
                    let ghost old_out = out@;
                    out.push(row);
                    assert(catalog_views(out@) =~= catalog_views(old_out).push(
                        self@.rows[i as int],
                    ));
                }
                assert(catalog_views(out@) =~= page(
                    before.push(self@.rows[i as int]),
                    offset as nat,
                    limit as nat,
                ));
                seen = seen + 1;
            }
            i = i + 1;
        }
        assert(self@.rows.take(i as int) =~= self@.rows);
        out
    }
}

} // verus!
