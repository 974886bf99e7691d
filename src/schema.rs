use vstd::prelude::*;

use crate::catalog::{
    Catalog,
    CatalogError,
    Migration,
    MigrationKind,
    ascending,
    has_duplicate_version,
    has_empty_record,
};

verus! {

pub const AUTHORS_DESCRIPTION: &'static str = "create_authors_table";

pub const AUTHORS_SQL: &'static str =
    "CREATE TABLE IF NOT EXISTS authors (id INTEGER PRIMARY KEY AUTOINCREMENT, name TEXT NOT NULL);";

pub const CATEGORIES_DESCRIPTION: &'static str = "create_categories_table";

pub const CATEGORIES_SQL: &'static str =
    "CREATE TABLE IF NOT EXISTS categories (id INTEGER PRIMARY KEY AUTOINCREMENT, name TEXT NOT NULL);";

pub const LOCATIONS_DESCRIPTION: &'static str = "create_locations_table";

pub const LOCATIONS_SQL: &'static str =
    "CREATE TABLE IF NOT EXISTS locations (id INTEGER PRIMARY KEY AUTOINCREMENT, name TEXT NOT NULL);";

pub const BOOKS_DESCRIPTION: &'static str = "create_books_table";

pub const BOOKS_SQL: &'static str = "CREATE TABLE IF NOT EXISTS books (
                id INTEGER PRIMARY KEY AUTOINCREMENT,
                name TEXT NOT NULL,
                publish_year INTEGER NULL,
                number_of_pages INTEGER NULL,
                image_url TEXT NULL,
                location_id INTEGER NULL REFERENCES locations(id) ON DELETE SET NULL ON UPDATE CASCADE,
                created_at TIMESTAMP DEFAULT CURRENT_TIMESTAMP
            );";

pub const AUTHOR_BOOK_DESCRIPTION: &'static str = "create_author_book_table";

pub const AUTHOR_BOOK_SQL: &'static str = "CREATE TABLE IF NOT EXISTS author_book (
                id INTEGER PRIMARY KEY AUTOINCREMENT,
                book_id INTEGER NULL REFERENCES books(id) ON DELETE SET NULL ON UPDATE CASCADE,
                author_id INTEGER NULL REFERENCES authors(id) ON DELETE SET NULL ON UPDATE CASCADE
            );";

pub const CATEGORY_BOOK_DESCRIPTION: &'static str = "create_category_book_table";

pub const CATEGORY_BOOK_SQL: &'static str = "CREATE TABLE IF NOT EXISTS category_book (
                id INTEGER PRIMARY KEY AUTOINCREMENT,
                book_id INTEGER NULL REFERENCES books(id) ON DELETE SET NULL ON UPDATE CASCADE,
                category_id INTEGER NULL REFERENCES categories(id) ON DELETE SET NULL ON UPDATE CASCADE
            );";

pub const SETTINGS_DESCRIPTION: &'static str = "create_settings_table";

pub const SETTINGS_SQL: &'static str =
    "CREATE TABLE IF NOT EXISTS settings (id INTEGER PRIMARY KEY AUTOINCREMENT, name TEXT NOT NULL, value TEXT NOT NULL);";

/// Description of the book schema's migration with version `v`, for `v` in 1..=7.
pub open spec fn book_description(v: int) -> Seq<char> {
    if v == 1 {
        AUTHORS_DESCRIPTION@
    } else if v == 2 {
        CATEGORIES_DESCRIPTION@
    } else if v == 3 {
        LOCATIONS_DESCRIPTION@
    } else if v == 4 {
        BOOKS_DESCRIPTION@
    } else if v == 5 {
        AUTHOR_BOOK_DESCRIPTION@
    } else if v == 6 {
        CATEGORY_BOOK_DESCRIPTION@
    } else {
        SETTINGS_DESCRIPTION@
    }
}

/// The one statement of the book schema's migration with version `v`, for `v` in 1..=7.
pub open spec fn book_sql(v: int) -> Seq<char> {
    if v == 1 {
        AUTHORS_SQL@
    } else if v == 2 {
        CATEGORIES_SQL@
    } else if v == 3 {
        LOCATIONS_SQL@
    } else if v == 4 {
        BOOKS_SQL@
    } else if v == 5 {
        AUTHOR_BOOK_SQL@
    } else if v == 6 {
        CATEGORY_BOOK_SQL@
    } else {
        SETTINGS_SQL@
    }
}

/// The book schema's migrations, listed in version order 1 to 7.
pub open spec fn is_book_schema(s: Seq<Migration>) -> bool {
    &&& s.len() == 7
    &&& forall|i: int|
        0 <= i < 7 ==> {
            &&& (#[trigger] s[i]).version == i + 1
            &&& s[i].kind == MigrationKind::Up
            &&& s[i].description@ == book_description(i + 1)
            &&& s[i].statements@.len() == 1
            &&& s[i].statements@[0]@ == book_sql(i + 1)
        }
}

/// A forward migration made of one statement.
fn up(version: u64, description: &str, sql: &str) -> (r: Migration)
    ensures
        r.version == version,
        r.kind == MigrationKind::Up,
        r.statements@.len() == 1,
        r.description@ == description@,
        r.statements@[0]@ == sql@,
{
    let mut statements: Vec<String> = Vec::new();
    statements.push(sql.to_string());
    Migration { version, description: description.to_string(), statements, kind: MigrationKind::Up }
}

/// The migrations of the book collection schema: authors, categories and
/// locations, then books, then the tables that join books to authors and to
/// categories, then settings. Later tables refer to earlier ones.
pub fn book_migrations() -> (r: Vec<Migration>)
    ensures
        is_book_schema(r@),
{
    let mut m: Vec<Migration> = Vec::new();
    m.push(up(1, AUTHORS_DESCRIPTION, AUTHORS_SQL));
    m.push(up(2, CATEGORIES_DESCRIPTION, CATEGORIES_SQL));
    m.push(up(3, LOCATIONS_DESCRIPTION, LOCATIONS_SQL));
    m.push(up(4, BOOKS_DESCRIPTION, BOOKS_SQL));
    m.push(up(5, AUTHOR_BOOK_DESCRIPTION, AUTHOR_BOOK_SQL));
    m.push(up(6, CATEGORY_BOOK_DESCRIPTION, CATEGORY_BOOK_SQL));
    m.push(up(7, SETTINGS_DESCRIPTION, SETTINGS_SQL));
    m
}

/// The book collection schema as a validated catalog: it always loads, and
/// holds the records of `book_migrations` in version order.
pub fn book_catalog() -> (r: Result<Catalog, CatalogError>)
    ensures
        r is Ok,
        r matches Ok(c) ==> c.wf() && is_book_schema(c@),
{
    let entries = book_migrations();
    let ghost e = entries@;
    assert(!has_duplicate_version(e)) by {
        assert forall|i: int, j: int| 0 <= i < j < e.len() implies #[trigger] e[i].version
            != #[trigger] e[j].version by {}
    }
    assert(!has_empty_record(e)) by {
        assert forall|i: int| 0 <= i < e.len() implies (#[trigger] e[i]).statements@.len() > 0 by {}
    }
    assert(ascending(e)) by {
        assert forall|i: int, j: int| 0 <= i < j < e.len() implies #[trigger] e[i].version
            < #[trigger] e[j].version by {}
    }
    Catalog::load(entries)
}

} // verus!
