//! The statement that reads the files of a category from the database on disk.
use super::migrations::{category_key, category_word};
use crate::model::Category;
use sea_query::{Alias, Expr, Order, Query, SqliteQueryBuilder};
use vstd::prelude::*;

verus! {

broadcast use vstd::string::group_string_axioms;

/// `s` with every `mark` in it doubled.
pub open spec fn doubled(s: Seq<char>, mark: char) -> Seq<char>
    decreases s.len(),
{
    if s.len() == 0 {
        s
    } else if s.last() == mark {
        doubled(s.drop_last(), mark).push(mark).push(mark)
    } else {
        doubled(s.drop_last(), mark).push(s.last())
    }
}

/// `s` between two `mark`s, with every `mark` in it doubled.
pub open spec fn quoted(s: Seq<char>, mark: char) -> Seq<char> {
    seq![mark] + doubled(s, mark) + seq![mark]
}

/// The quoted names of `columns`, one behind the other.
pub open spec fn column_list(columns: Seq<Seq<char>>) -> Seq<char>
    decreases columns.len(),
{
    if columns.len() == 0 {
        Seq::empty()
    } else if columns.len() == 1 {
        quoted(columns[0], '"')
    } else {
        column_list(columns.drop_last()) + ", "@ + quoted(columns.last(), '"')
    }
}

/// The SQL text of a query for `columns` of the rows of `table` whose `column` holds `value`, by
/// `first` and then `second`, both ascending.
pub open spec fn select_sql(
    table: Seq<char>,
    columns: Seq<Seq<char>>,
    column: Seq<char>,
    value: Seq<char>,
    first: Seq<char>,
    second: Seq<char>,
) -> Seq<char> {
    "SELECT "@ + column_list(columns) + " FROM "@ + quoted(table, '"') + " WHERE "@ + quoted(
        column,
        '"',
    ) + " = "@ + quoted(value, '\'') + " ORDER BY "@ + quoted(first, '"') + " ASC, "@ + quoted(
        second,
        '"',
    ) + " ASC"@
}

/// `SelectStatement::to_string` of `sea_query` with the builder for SQLite, on a statement made of
/// the arguments: it lists the columns and the table, compares the column with the value, and
/// orders by the two columns. Names stand in double quotes and the value in single quotes, where a
/// quote of the same kind is doubled.
#[verifier::external_body]
fn select_statement(
    table: &str,
    columns: &Vec<String>,
    column: &str,
    value: &str,
    first: &str,
    second: &str,
) -> (r: String)
    ensures
        r@ == select_sql(table@, columns.deep_view(), column@, value@, first@, second@),
{
    let mut query = Query::select();
    query
        .columns(columns.iter().map(Alias::new))
        .from(Alias::new(table))
        .and_where(Expr::col(Alias::new(column)).eq(value))
        .order_by(Alias::new(first), Order::Asc)
        .order_by(Alias::new(second), Order::Asc);
    query.to_string(SqliteQueryBuilder)
}

/// The columns that make up a file row.
pub open spec fn file_columns() -> Seq<Seq<char>> {
    seq![
        "path"@,
        "stem"@,
        "extension"@,
        "size"@,
        "modified"@,
        "first_seen_at"@,
        "preview_waveform"@,
    ]
}

/// The statement that reads the files of `category`, by stem and extension.
pub fn file_rows_statement(category: Category) -> (r: String)
    ensures
        r@ == select_sql(
            "files"@,
            file_columns(),
            "category"@,
            category_word(category),
            "stem"@,
            "extension"@,
        ),
{
    let mut columns: Vec<String> = Vec::new();
    columns.push("path".to_owned());
    columns.push("stem".to_owned());
    columns.push("extension".to_owned());
    columns.push("size".to_owned());
    columns.push("modified".to_owned());
    columns.push("first_seen_at".to_owned());
    columns.push("preview_waveform".to_owned());
    assert(columns.deep_view() =~= file_columns());
    select_statement("files", &columns, "category", category_key(category), "stem", "extension")
}

} // verus!
