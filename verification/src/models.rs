//! The catalog entity and the values exchanged with its callers.
//!
//! Each type that owns text or a price has a view made of mathematical
//! values, and the contracts of the crate speak of those views.

use vstd::prelude::*;
use crate::price::Decimal;
use crate::price::DecimalView;
use crate::price::InvalidPrice;

verus! {

/// A point in time: microseconds since the Unix epoch, in UTC.
#[derive(Clone, Copy, Debug, PartialEq, Eq, Structural)]
pub struct Timestamp {
    pub micros: i64,
}

/// Input of create and update. The price is the IEEE 754 binary64 bit
/// pattern of the transport number.
#[derive(Debug, PartialEq, Eq)]
pub struct CatalogRequest {
    pub name: String,
    pub description: String,
    pub image: String,
    pub price: u64,
    pub currency: String,
    pub category: String,
}

pub struct CatalogRequestView {
    pub name: Seq<char>,
    pub description: Seq<char>,
    pub image: Seq<char>,
    pub price: u64,
    pub currency: Seq<char>,
    pub category: Seq<char>,
}

impl View for CatalogRequest {
    type V = CatalogRequestView;

    open spec fn view(&self) -> CatalogRequestView {
        CatalogRequestView {
            name: self.name@,
            description: self.description@,
            image: self.image@,
            price: self.price,
            currency: self.currency@,
            category: self.category@,
        }
    }
}

/// The mutable fields of a catalog record, with the price in storage form.
pub struct CatalogFields {
    pub name: Seq<char>,
    pub description: Seq<char>,
    pub image: Seq<char>,
    pub price: DecimalView,
    pub currency: Seq<char>,
    pub category: Seq<char>,
}

/// A record to insert: every field but the id, which the store assigns.
#[derive(Debug, PartialEq, Eq)]
pub struct NewCatalog {
    pub name: String,
    pub description: String,
    pub image: String,
    pub price: Decimal,
    pub currency: String,
    pub category: String,
    pub updated_at: Timestamp,
    pub created_at: Timestamp,
}

pub struct NewCatalogView {
    pub fields: CatalogFields,
    pub updated_at: Timestamp,
    pub created_at: Timestamp,
}

impl View for NewCatalog {
    type V = NewCatalogView;

    open spec fn view(&self) -> NewCatalogView {
        NewCatalogView {
            fields: CatalogFields {
                name: self.name@,
                description: self.description@,
                image: self.image@,
                price: self.price@,
                currency: self.currency@,
                category: self.category@,
            },
            updated_at: self.updated_at,
            created_at: self.created_at,
        }
    }
}

/// The replacement for every mutable field of an existing record.
#[derive(Debug, PartialEq, Eq)]
pub struct UpdateCatalog {
    pub name: String,
    pub description: String,
    pub image: String,
    pub price: Decimal,
    pub currency: String,
    pub category: String,
    pub updated_at: Timestamp,
}

pub struct UpdateCatalogView {
    pub fields: CatalogFields,
    pub updated_at: Timestamp,
}

impl View for UpdateCatalog {
    type V = UpdateCatalogView;

    open spec fn view(&self) -> UpdateCatalogView {
        UpdateCatalogView {
            fields: CatalogFields {
                name: self.name@,
                description: self.description@,
                image: self.image@,
                price: self.price@,
                currency: self.currency@,
                category: self.category@,
            },
            updated_at: self.updated_at,
        }
    }
}

/// A persisted catalog record.
#[derive(Debug, PartialEq, Eq)]
pub struct Catalog {
    pub id: i32,
    pub name: String,
    pub description: String,
    pub image: String,
    pub price: Decimal,
    pub currency: String,
    pub category: String,
    pub created_at: Timestamp,
    pub updated_at: Timestamp,
}

pub struct CatalogView {
    pub id: int,
    pub fields: CatalogFields,
    pub created_at: Timestamp,
    pub updated_at: Timestamp,
}

impl View for Catalog {
    type V = CatalogView;

    open spec fn view(&self) -> CatalogView {
        CatalogView {
            id: self.id as int,
            fields: CatalogFields {
                name: self.name@,
                description: self.description@,
                image: self.image@,
                price: self.price@,
                currency: self.currency@,
                category: self.category@,
            },
            created_at: self.created_at,
            updated_at: self.updated_at,
        }
    }
}

impl Clone for Catalog {
    /// An independent copy of the record.
    fn clone(&self) -> (row: Catalog)
        ensures
            row@ == self@,
    {
        Catalog {
            id: self.id,
            name: self.name.clone(),
            description: self.description.clone(),
            image: self.image.clone(),
            price: self.price.clone(),
            currency: self.currency.clone(),
            category: self.category.clone(),
            created_at: self.created_at,
            updated_at: self.updated_at,
        }
    }
}

/// A catalog record as handed to callers: the price is the IEEE 754
/// binary64 bit pattern of the transport number, and the timestamps are
/// left out.
#[derive(Debug, PartialEq, Eq)]
pub struct CatalogItem {
    pub id: i32,
    pub name: String,
    pub description: String,
    pub image: String,
    pub price: u64,
    pub currency: String,
    pub category: String,
}

pub struct CatalogItemView {
    pub id: int,
    pub name: Seq<char>,
    pub description: Seq<char>,
    pub image: Seq<char>,
    pub price: u64,
    pub currency: Seq<char>,
    pub category: Seq<char>,
}

impl View for CatalogItem {
    type V = CatalogItemView;

    open spec fn view(&self) -> CatalogItemView {
        CatalogItemView {
            id: self.id as int,
            name: self.name@,
            description: self.description@,
            image: self.image@,
            price: self.price,
            currency: self.currency@,
            category: self.category@,
        }
    }
}

/// One page of a listing, with the size of the whole filtered set.
#[derive(Debug, PartialEq, Eq)]
pub struct CatalogsResponse {
    pub total: i64,
    pub catalog_items: Vec<CatalogItem>,
    pub offset: i64,
    pub limit: i64,
}

pub struct CatalogsResponseView {
    pub total: int,
    pub catalog_items: Seq<CatalogItemView>,
    pub offset: int,
    pub limit: int,
}

/// The views of a sequence of items, in the same order.
pub open spec fn item_views(items: Seq<CatalogItem>) -> Seq<CatalogItemView> {
    Seq::new(items.len(), |i: int| items[i]@)
}

/// The views of a sequence of records, in the same order.
pub open spec fn catalog_views(rows: Seq<Catalog>) -> Seq<CatalogView> {
    Seq::new(rows.len(), |i: int| rows[i]@)
}

impl View for CatalogsResponse {
    type V = CatalogsResponseView;

    open spec fn view(&self) -> CatalogsResponseView {
        CatalogsResponseView {
            total: self.total as int,
            catalog_items: item_views(self.catalog_items@),
            offset: self.offset as int,
            limit: self.limit as int,
        }
    }
}

/// Why a request was refused before anything was stored.
#[derive(Clone, Copy, Debug, PartialEq, Eq, Structural)]
pub enum ValidationFailure {
    /// The name is empty.
    EmptyName,
    /// The price cannot be converted.
    InvalidPrice(InvalidPrice),
}

/// The ways a catalog operation fails.
#[derive(Clone, Copy, Debug, PartialEq, Eq, Structural)]
pub enum CatalogError {
    /// The input is malformed; nothing was stored.
    ValidationError(ValidationFailure),
    /// No record has the given id.
    NotFound,
    /// The store could not take the write.
    StorageError,
}

} // verus!
