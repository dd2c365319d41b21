//! The query builder and query results.

use vstd::prelude::*;
use vstd::string::*;
use crate::query::cursor::Cursor;
use crate::query::filter::Filter;
use crate::query::sort::SortField;
use crate::record::{Record, opt_str_view};

verus! {

/// A query against records, built step by step:
/// `Query::new().schema("app.commerce.listing").sort(SortField::desc("price")).limit(50)`.
#[derive(Debug)]
pub struct Query {
    /// Only records of this schema (`None`: all schemas).
    pub schema: Option<String>,
    /// Only records of this namespace (`None`: all in scope).
    pub namespace: Option<String>,
    /// Filter predicate (`None`: no filtering).
    pub filter: Option<Filter>,
    /// Sort fields, applied in order (empty: storage order).
    pub sort: Vec<SortField>,
    /// Maximum number of records per page.
    pub limit: usize,
    /// Resume after this cursor.
    pub after: Option<Cursor>,
    /// Records to skip after the cursor (0: none).
    pub offset: usize,
}

impl Query {
    /// A query with no scope, filter or sort, a limit of 100 and no offset.
    pub fn new() -> (r: Query)
        ensures
            r.schema is None,
            r.namespace is None,
            r.filter is None,
            r.sort@.len() == 0,
            r.limit == 100,
            r.after is None,
            r.offset == 0,
    {
        Query { schema: None, namespace: None, filter: None, sort: Vec::new(), limit: 100, after: None, offset: 0 }
    }

    /// Limits the query to a schema.
    pub fn schema(self, schema: &str) -> (r: Query)
        ensures
            opt_str_view(r.schema) == Some(schema@),
            r.namespace == self.namespace,
            r.filter == self.filter,
            r.sort == self.sort,
            r.limit == self.limit,
            r.after == self.after,
            r.offset == self.offset,
    {
        let mut q = self;
        q.schema = Some(String::from_str(schema));
        q
    }

    /// Limits the query to a namespace.
    pub fn namespace(self, namespace: &str) -> (r: Query)
        ensures
            r.schema == self.schema,
            opt_str_view(r.namespace) == Some(namespace@),
            r.filter == self.filter,
            r.sort == self.sort,
            r.limit == self.limit,
            r.after == self.after,
            r.offset == self.offset,
    {
        let mut q = self;
        q.namespace = Some(String::from_str(namespace));
        q
    }

    /// Sets the filter.
    pub fn filter(self, filter: Filter) -> (r: Query)
        ensures
            r.schema == self.schema,
            r.namespace == self.namespace,
            r.filter == Some(filter),
            r.sort == self.sort,
            r.limit == self.limit,
            r.after == self.after,
            r.offset == self.offset,
    {
        let mut q = self;
        q.filter = Some(filter);
        q
    }

    /// Adds a sort field after the existing ones.
    pub fn sort(self, field: SortField) -> (r: Query)
        ensures
            r.schema == self.schema,
            r.namespace == self.namespace,
            r.filter == self.filter,
            r.sort@ == self.sort@.push(field),
            r.limit == self.limit,
            r.after == self.after,
            r.offset == self.offset,
    {
        let mut q = self;
        q.sort.push(field);
        q
    }

    /// Sets the page size.
    pub fn limit(self, limit: usize) -> (r: Query)
        ensures
            r.schema == self.schema,
            r.namespace == self.namespace,
            r.filter == self.filter,
            r.sort == self.sort,
            r.limit == limit,
            r.after == self.after,
            r.offset == self.offset,
    {
        let mut q = self;
        q.limit = limit;
        q
    }

    /// Resumes after a cursor.
    pub fn after(self, cursor: Cursor) -> (r: Query)
        ensures
            r.schema == self.schema,
            r.namespace == self.namespace,
            r.filter == self.filter,
            r.sort == self.sort,
            r.limit == self.limit,
            r.after == Some(cursor),
            r.offset == self.offset,
    {
        let mut q = self;
        q.after = Some(cursor);
        q
    }

    /// Skips `offset` records.
    pub fn offset(self, offset: usize) -> (r: Query)
        ensures
            r.schema == self.schema,
            r.namespace == self.namespace,
            r.filter == self.filter,
            r.sort == self.sort,
            r.limit == self.limit,
            r.after == self.after,
            r.offset == offset,
    {
        let mut q = self;
        q.offset = offset;
        q
    }
}

impl Default for Query {
    fn default() -> (r: Self)
        ensures
            r.schema is None,
            r.namespace is None,
            r.filter is None,
            r.sort@.len() == 0,
            r.limit == 100,
            r.after is None,
            r.offset == 0,
    {
        Query::new()
    }
}

/// The result of a query.
#[derive(Debug)]
pub struct QueryResult {
    /// The matching records of this page.
    pub records: Vec<Record>,
    /// How many records match, over all pages.
    pub total_count: u64,
    /// The cursor of the next page, when there is one.
    pub next_cursor: Option<Cursor>,
    /// Whether more records follow this page.
    pub has_more: bool,
}

} // verus!
