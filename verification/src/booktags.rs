//! Book-level tags: a library-organising layer above the per-word tags. Books get
//! named tags (some applied by hand, some derived from the catalog's subjects, the
//! `auto` ones) so the books page can filter and group a growing library.

use vstd::prelude::*;

verus! {

/// A book tag, with the count of books carrying it.
pub struct BookTag {
    pub name: String,
    /// Derived from catalog subjects rather than applied by hand.
    pub auto: bool,
    pub n_books: i64,
}

/// A book plus its tags, as the books page renders it.
pub struct BookWithTags {
    pub book_id: i64,
    pub slug: String,
    pub title: String,
    pub tags: Vec<BookTag>,
}

} // verus!
