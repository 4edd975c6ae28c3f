//! The stash API: flat groupings of cards, their membership table, and the
//! paging request helpers, query text included, that the listing endpoints
//! are built on.

use vstd::prelude::*;

use crate::store::{StashCardRow, StashRow, Store};
use crate::StoreError;

verus! {

/// The column a stash listing is ordered by.
#[derive(Clone, Copy, Debug, PartialEq, Eq, Structural)]
pub enum SortBy {
    CreatedAt,
    UpdatedAt,
    Name,
}

#[derive(Clone, Copy, Debug, PartialEq, Eq, Structural)]
pub enum SortOrder {
    Descending,
    Ascending,
}

/// One page of a stash listing: pages are one-based, `per_page` non-negative.
pub struct StashesPageRequest {
    pub page: i64,
    pub per_page: i64,
    pub sort_by: SortBy,
    pub order: SortOrder,
    pub card: Option<i64>,
}

impl StashesPageRequest {
    /// The request is in range and its offset fits the row-count type.
    pub open spec fn wf(self) -> bool {
        1 <= self.page && 0 <= self.per_page && (self.page - 1) * self.per_page <= i64::MAX
    }

    /// How many rows the listing skips before this page.
    pub fn get_offset(&self) -> (r: i64)
        requires
            self.wf(),
        ensures
            r == (self.page - 1) * self.per_page,
    {
        proof {
            assert((self.page - 1) * self.per_page >= 0) by (nonlinear_arith)
                requires
                    self.page >= 1,
                    self.per_page >= 0,
            ;
        }
        let offset: i64 = (self.page - 1) * self.per_page;
        offset
    }
}

/// A request to create a stash; a missing description means the empty one.
pub struct CreateStash {
    pub name: String,
    pub description: Option<String>,
}

/// A request to change a stash's fields; a missing field is left unchanged.
pub struct UpdateStash {
    pub name: Option<String>,
    pub description: Option<String>,
}

/// The Unicode whitespace characters, the set `str::trim` strips: a name
/// must not consist of these alone.
pub open spec fn is_blank_char(c: char) -> bool {
    ||| c == ' '
    ||| c == '\t'
    ||| c == '\n'
    ||| c == '\r'
    ||| c == '\u{b}'
    ||| c == '\u{c}'
    ||| c == '\u{85}'
    ||| c == '\u{a0}'
    ||| c == '\u{1680}'
    ||| c == '\u{2000}'
    ||| c == '\u{2001}'
    ||| c == '\u{2002}'
    ||| c == '\u{2003}'
    ||| c == '\u{2004}'
    ||| c == '\u{2005}'
    ||| c == '\u{2006}'
    ||| c == '\u{2007}'
    ||| c == '\u{2008}'
    ||| c == '\u{2009}'
    ||| c == '\u{200a}'
    ||| c == '\u{2028}'
    ||| c == '\u{2029}'
    ||| c == '\u{202f}'
    ||| c == '\u{205f}'
    ||| c == '\u{3000}'
}

/// Whether the character is one `str::trim` would strip.
fn is_blank(c: char) -> (r: bool)
    ensures
        r == is_blank_char(c),
{
    c == ' ' || c == '\t' || c == '\n' || c == '\r' || c == '\u{b}' || c == '\u{c}' || c
        == '\u{85}' || c == '\u{a0}' || c == '\u{1680}' || c == '\u{2000}' || c == '\u{2001}'
        || c == '\u{2002}' || c == '\u{2003}' || c == '\u{2004}' || c == '\u{2005}' || c
        == '\u{2006}' || c == '\u{2007}' || c == '\u{2008}' || c == '\u{2009}' || c
        == '\u{200a}' || c == '\u{2028}' || c == '\u{2029}' || c == '\u{202f}' || c
        == '\u{205f}' || c == '\u{3000}'
}

/// The text holds at least one non-whitespace character.
pub open spec fn has_visible_char(s: Seq<char>) -> bool {
    exists|i: int| 0 <= i < s.len() && !is_blank_char(#[trigger] s[i])
}

impl UpdateStash {
    /// A missing name is acceptable (the field is left alone); a given one
    /// must not be blank.
    pub open spec fn valid_name_spec(self) -> bool {
        match self.name {
            Some(n) => has_visible_char(n@),
            None => true,
        }
    }

    pub fn valid_name(&self) -> (r: bool)
        ensures
            r == self.valid_name_spec(),
    {
        match &self.name {
            Some(n) => {
                let s: &str = n.as_str();
                let len = s.unicode_len();
                let mut i: usize = 0;
                while i < len
                    invariant
                        0 <= i <= len,
                        len == n@.len(),
                        s@ == n@,
                        forall|j: int| 0 <= j < i ==> is_blank_char(#[trigger] n@[j]),
                    decreases len - i,
                {
                    let c = s.get_char(i);
                    if !is_blank(c) {
                        return true;
                    }
                    i += 1;
                }
                false
            },
            None => true,
        }
    }

    /// Whether the request carries anything to apply.
    pub fn should_update(&self) -> (r: bool)
        ensures
            r == (self.valid_name_spec() || self.description is Some),
    {
        self.valid_name() || self.description.is_some()
    }

    /// The SET clause and its named parameters for the update statement.
    pub fn sqlize(&self) -> (r: (String, Vec<(String, String)>))
        ensures
            (match (self.name, self.description) {
                (Some(n), Some(d)) => r.0@ == "name = :name, description = :description"@
                    && r.1@.len() == 2 && r.1@[0].0@ == ":name"@ && r.1@[0].1@ == n@
                    && r.1@[1].0@ == ":description"@ && r.1@[1].1@ == d@,
                (Some(n), None) => r.0@ == "name = :name"@ && r.1@.len() == 1 && r.1@[0].0@
                    == ":name"@ && r.1@[0].1@ == n@,
                (None, Some(d)) => r.0@ == "description = :description"@ && r.1@.len() == 1
                    && r.1@[0].0@ == ":description"@ && r.1@[0].1@ == d@,
                (None, None) => r.0@.len() == 0 && r.1@.len() == 0,
            }),
    {
        let mut values: Vec<(String, String)> = Vec::new();
        match (&self.name, &self.description) {
            (Some(n), Some(d)) => {
                values.push((":name".to_owned(), n.clone()));
                values.push((":description".to_owned(), d.clone()));
                ("name = :name, description = :description".to_owned(), values)
            },
            (Some(n), None) => {
                values.push((":name".to_owned(), n.clone()));
                ("name = :name".to_owned(), values)
            },
            (None, Some(d)) => {
                values.push((":description".to_owned(), d.clone()));
                ("description = :description".to_owned(), values)
            },
            (None, None) => (String::new(), values),
        }
    }
}


/// Code-point lexicographic order on character sequences: the order the
/// store's binary collation gives to its text columns.
pub open spec fn seq_char_le(a: Seq<char>, b: Seq<char>) -> bool
    decreases a.len(),
{
    if a.len() == 0 {
        true
    } else if b.len() == 0 {
        false
    } else if (a[0] as u32) == (b[0] as u32) {
        seq_char_le(a.drop_first(), b.drop_first())
    } else {
        (a[0] as u32) < (b[0] as u32)
    }
}

/// The lexicographic order is total.
pub proof fn lemma_seq_char_le_total(a: Seq<char>, b: Seq<char>)
    ensures
        seq_char_le(a, b) || seq_char_le(b, a),
    decreases a.len(),
{
    if a.len() == 0 {
    } else if b.len() == 0 {
    } else if (a[0] as u32) == (b[0] as u32) {
        lemma_seq_char_le_total(a.drop_first(), b.drop_first());
    }
}

/// The lexicographic order is transitive.
pub proof fn lemma_seq_char_le_trans(a: Seq<char>, b: Seq<char>, c: Seq<char>)
    requires
        seq_char_le(a, b),
        seq_char_le(b, c),
    ensures
        seq_char_le(a, c),
    decreases a.len(),
{
    if a.len() == 0 {
    } else {
        assert(b.len() > 0);
        assert(c.len() > 0);
        if (a[0] as u32) == (b[0] as u32) && (b[0] as u32) == (c[0] as u32) {
            lemma_seq_char_le_trans(a.drop_first(), b.drop_first(), c.drop_first());
        }
    }
}

/// Compares two strings in code-point lexicographic order.
fn str_le(x: &str, y: &str) -> (r: bool)
    ensures
        r == seq_char_le(x@, y@),
{
    let xn = x.unicode_len();
    let yn = y.unicode_len();
    proof {
        assert(x@.skip(0) =~= x@);
        assert(y@.skip(0) =~= y@);
    }
    let mut i: usize = 0;
    while i < xn && i < yn
        invariant
            0 <= i <= xn,
            i <= yn,
            xn == x@.len(),
            yn == y@.len(),
            seq_char_le(x@, y@) == seq_char_le(x@.skip(i as int), y@.skip(i as int)),
        decreases xn - i,
    {
        let cx = x.get_char(i);
        let cy = y.get_char(i);
        proof {
            assert(x@.skip(i as int)[0] == x@[i as int]);
            assert(y@.skip(i as int)[0] == y@[i as int]);
        }
        if (cx as u32) != (cy as u32) {
            return (cx as u32) < (cy as u32);
        }
        proof {
            assert(x@.skip(i as int).drop_first() =~= x@.skip(i + 1));
            assert(y@.skip(i as int).drop_first() =~= y@.skip(i + 1));
        }
        i += 1;
    }
    proof {
        if i == xn {
            assert(x@.skip(i as int).len() == 0);
        } else {
            assert(y@.skip(i as int).len() == 0);
            assert(x@.skip(i as int).len() > 0);
        }
    }
    i == xn
}

/// The row count a stash listing reports for paging.
pub struct StashPaginationInfo {
    pub num_of_stashes: i64,
}

/// The listing statement for one page of stashes, by sort column and order.
pub open spec fn stashes_query_spec(sort_by: SortBy, order: SortOrder) -> Seq<char> {
    match (sort_by, order) {
        (SortBy::CreatedAt, SortOrder::Descending) => "
                SELECT
                    stash_id, name, description, created_at, updated_at
                FROM
                    Stashes
                WHERE oid NOT IN (
                    SELECT
                        oid
                    FROM
                        Stashes
                    ORDER BY
                        created_at
                    DESC
                    LIMIT :offset
                )
                ORDER BY
                    created_at
                DESC
                LIMIT :per_page;
            "@,
        (SortBy::CreatedAt, SortOrder::Ascending) => "
                SELECT
                    stash_id, name, description, created_at, updated_at
                FROM
                    Stashes
                WHERE oid NOT IN (
                    SELECT
                        oid
                    FROM
                        Stashes
                    ORDER BY
                        created_at
                    ASC
                    LIMIT :offset
                )
                ORDER BY
                    created_at
                ASC
                LIMIT :per_page;
            "@,
        (SortBy::UpdatedAt, SortOrder::Descending) => "
                SELECT
                    stash_id, name, description, created_at, updated_at
                FROM
                    Stashes
                WHERE oid NOT IN (
                    SELECT
                        oid
                    FROM
                        Stashes
                    ORDER BY
                        updated_at
                    DESC
                    LIMIT :offset
                )
                ORDER BY
                    updated_at
                DESC
                LIMIT :per_page;
            "@,
        (SortBy::UpdatedAt, SortOrder::Ascending) => "
                SELECT
                    stash_id, name, description, created_at, updated_at
                FROM
                    Stashes
                WHERE oid NOT IN (
                    SELECT
                        oid
                    FROM
                        Stashes
                    ORDER BY
                        updated_at
                    ASC
                    LIMIT :offset
                )
                ORDER BY
                    updated_at
                ASC
                LIMIT :per_page;
            "@,
        (SortBy::Name, SortOrder::Descending) => "
                SELECT
                    stash_id, name, description, created_at, updated_at
                FROM
                    Stashes
                WHERE oid NOT IN (
                    SELECT
                        oid
                    FROM
                        Stashes
                    ORDER BY
                        name
                    DESC
                    LIMIT :offset
                )
                ORDER BY
                    name
                DESC
                LIMIT :per_page;
            "@,
        (SortBy::Name, SortOrder::Ascending) => "
                SELECT
                    stash_id, name, description, created_at, updated_at
                FROM
                    Stashes
                WHERE oid NOT IN (
                    SELECT
                        oid
                    FROM
                        Stashes
                    ORDER BY
                        name
                    ASC
                    LIMIT :offset
                )
                ORDER BY
                    name
                ASC
                LIMIT :per_page;
            "@,
    }
}

/// Builds the listing statement for the page request.
pub fn get_stashes_query(page_query: &StashesPageRequest) -> (r: String)
    ensures
        r@ == stashes_query_spec(page_query.sort_by, page_query.order),
{
    match (page_query.sort_by, page_query.order) {
        (SortBy::CreatedAt, SortOrder::Descending) => "
                SELECT
                    stash_id, name, description, created_at, updated_at
                FROM
                    Stashes
                WHERE oid NOT IN (
                    SELECT
                        oid
                    FROM
                        Stashes
                    ORDER BY
                        created_at
                    DESC
                    LIMIT :offset
                )
                ORDER BY
                    created_at
                DESC
                LIMIT :per_page;
            ".to_owned(),
        (SortBy::CreatedAt, SortOrder::Ascending) => "
                SELECT
                    stash_id, name, description, created_at, updated_at
                FROM
                    Stashes
                WHERE oid NOT IN (
                    SELECT
                        oid
                    FROM
                        Stashes
                    ORDER BY
                        created_at
                    ASC
                    LIMIT :offset
                )
                ORDER BY
                    created_at
                ASC
                LIMIT :per_page;
            ".to_owned(),
        (SortBy::UpdatedAt, SortOrder::Descending) => "
                SELECT
                    stash_id, name, description, created_at, updated_at
                FROM
                    Stashes
                WHERE oid NOT IN (
                    SELECT
                        oid
                    FROM
                        Stashes
                    ORDER BY
                        updated_at
                    DESC
                    LIMIT :offset
                )
                ORDER BY
                    updated_at
                DESC
                LIMIT :per_page;
            ".to_owned(),
        (SortBy::UpdatedAt, SortOrder::Ascending) => "
                SELECT
                    stash_id, name, description, created_at, updated_at
                FROM
                    Stashes
                WHERE oid NOT IN (
                    SELECT
                        oid
                    FROM
                        Stashes
                    ORDER BY
                        updated_at
                    ASC
                    LIMIT :offset
                )
                ORDER BY
                    updated_at
                ASC
                LIMIT :per_page;
            ".to_owned(),
        (SortBy::Name, SortOrder::Descending) => "
                SELECT
                    stash_id, name, description, created_at, updated_at
                FROM
                    Stashes
                WHERE oid NOT IN (
                    SELECT
                        oid
                    FROM
                        Stashes
                    ORDER BY
                        name
                    DESC
                    LIMIT :offset
                )
                ORDER BY
                    name
                DESC
                LIMIT :per_page;
            ".to_owned(),
        (SortBy::Name, SortOrder::Ascending) => "
                SELECT
                    stash_id, name, description, created_at, updated_at
                FROM
                    Stashes
                WHERE oid NOT IN (
                    SELECT
                        oid
                    FROM
                        Stashes
                    ORDER BY
                        name
                    ASC
                    LIMIT :offset
                )
                ORDER BY
                    name
                ASC
                LIMIT :per_page;
            ".to_owned(),
    }
}

/// The listing statement for one page of the stashes holding a given card.
pub open spec fn stashes_query_by_card_spec(sort_by: SortBy, order: SortOrder) -> Seq<char> {
    match (sort_by, order) {
        (SortBy::CreatedAt, SortOrder::Descending) => "
                SELECT
                    stash_id, name, description, created_at, updated_at
                FROM
                    Stashes
                INNER JOIN
                    StashCards
                ON
                    Stashes.stash_id = StashCards.stash
                WHERE Stashes.oid NOT IN (
                    SELECT
                        Stashes.oid
                    FROM
                        Stashes
                    INNER JOIN
                        StashCards
                    ON
                        Stashes.stash_id = StashCards.stash
                    AND StashCards.card = :card_id
                    ORDER BY
                        created_at
                    DESC
                    LIMIT :offset
                )
                AND StashCards.card = :card_id
                ORDER BY
                    created_at
                DESC
                LIMIT :per_page;
            "@,
        (SortBy::CreatedAt, SortOrder::Ascending) => "
                SELECT
                    stash_id, name, description, created_at, updated_at
                FROM
                    Stashes
                INNER JOIN
                    StashCards
                ON
                    Stashes.stash_id = StashCards.stash
                WHERE Stashes.oid NOT IN (
                    SELECT
                        Stashes.oid
                    FROM
                        Stashes
                    INNER JOIN
                        StashCards
                    ON
                        Stashes.stash_id = StashCards.stash
                    AND StashCards.card = :card_id
                    ORDER BY
                        created_at
                    ASC
                    LIMIT :offset
                )
                AND StashCards.card = :card_id
                ORDER BY
                    created_at
                ASC
                LIMIT :per_page;
            "@,
        (SortBy::UpdatedAt, SortOrder::Descending) => "
                SELECT
                    stash_id, name, description, created_at, updated_at
                FROM
                    Stashes
                INNER JOIN
                    StashCards
                ON
                    Stashes.stash_id = StashCards.stash
                WHERE Stashes.oid NOT IN (
                    SELECT
                        Stashes.oid
                    FROM
                        Stashes
                    INNER JOIN
                        StashCards
                    ON
                        Stashes.stash_id = StashCards.stash
                    AND StashCards.card = :card_id
                    ORDER BY
                        updated_at
                    DESC
                    LIMIT :offset
                )
                AND StashCards.card = :card_id
                ORDER BY
                    updated_at
                DESC
                LIMIT :per_page;
            "@,
        (SortBy::UpdatedAt, SortOrder::Ascending) => "
                SELECT
                    stash_id, name, description, created_at, updated_at
                FROM
                    Stashes
                INNER JOIN
                    StashCards
                ON
                    Stashes.stash_id = StashCards.stash
                WHERE Stashes.oid NOT IN (
                    SELECT
                        Stashes.oid
                    FROM
                        Stashes
                    INNER JOIN
                        StashCards
                    ON
                        Stashes.stash_id = StashCards.stash
                    AND StashCards.card = :card_id
                    ORDER BY
                        updated_at
                    ASC
                    LIMIT :offset
                )
                AND StashCards.card = :card_id
                ORDER BY
                    updated_at
                ASC
                LIMIT :per_page;
            "@,
        (SortBy::Name, SortOrder::Descending) => "
                SELECT
                    stash_id, name, description, created_at, updated_at
                FROM
                    Stashes
                INNER JOIN
                    StashCards
                ON
                    Stashes.stash_id = StashCards.stash
                WHERE Stashes.oid NOT IN (
                    SELECT
                        Stashes.oid
                    FROM
                        Stashes
                    INNER JOIN
                        StashCards
                    ON
                        Stashes.stash_id = StashCards.stash
                    AND StashCards.card = :card_id
                    ORDER BY
                        name
                    DESC
                    LIMIT :offset
                )
                AND StashCards.card = :card_id
                ORDER BY
                    name
                DESC
                LIMIT :per_page;
            "@,
        (SortBy::Name, SortOrder::Ascending) => "
                SELECT
                    stash_id, name, description, created_at, updated_at
                FROM
                    Stashes
                INNER JOIN
                    StashCards
                ON
                    Stashes.stash_id = StashCards.stash
                WHERE Stashes.oid NOT IN (
                    SELECT
                        Stashes.oid
                    FROM
                        Stashes
                    INNER JOIN
                        StashCards
                    ON
                        Stashes.stash_id = StashCards.stash
                    AND StashCards.card = :card_id
                    ORDER BY
                        name
                    ASC
                    LIMIT :offset
                )
                AND StashCards.card = :card_id
                ORDER BY
                    name
                ASC
                LIMIT :per_page;
            "@,
    }
}

/// Builds the listing statement for the stashes that hold the card named by
/// the `:card_id` parameter.
pub fn get_stashes_query_by_card(card_id: i64, page_query: &StashesPageRequest) -> (r: String)
    ensures
        r@ == stashes_query_by_card_spec(page_query.sort_by, page_query.order),
{
    match (page_query.sort_by, page_query.order) {
        (SortBy::CreatedAt, SortOrder::Descending) => "
                SELECT
                    stash_id, name, description, created_at, updated_at
                FROM
                    Stashes
                INNER JOIN
                    StashCards
                ON
                    Stashes.stash_id = StashCards.stash
                WHERE Stashes.oid NOT IN (
                    SELECT
                        Stashes.oid
                    FROM
                        Stashes
                    INNER JOIN
                        StashCards
                    ON
                        Stashes.stash_id = StashCards.stash
                    AND StashCards.card = :card_id
                    ORDER BY
                        created_at
                    DESC
                    LIMIT :offset
                )
                AND StashCards.card = :card_id
                ORDER BY
                    created_at
                DESC
                LIMIT :per_page;
            ".to_owned(),
        (SortBy::CreatedAt, SortOrder::Ascending) => "
                SELECT
                    stash_id, name, description, created_at, updated_at
                FROM
                    Stashes
                INNER JOIN
                    StashCards
                ON
                    Stashes.stash_id = StashCards.stash
                WHERE Stashes.oid NOT IN (
                    SELECT
                        Stashes.oid
                    FROM
                        Stashes
                    INNER JOIN
                        StashCards
                    ON
                        Stashes.stash_id = StashCards.stash
                    AND StashCards.card = :card_id
                    ORDER BY
                        created_at
                    ASC
                    LIMIT :offset
                )
                AND StashCards.card = :card_id
                ORDER BY
                    created_at
                ASC
                LIMIT :per_page;
            ".to_owned(),
        (SortBy::UpdatedAt, SortOrder::Descending) => "
                SELECT
                    stash_id, name, description, created_at, updated_at
                FROM
                    Stashes
                INNER JOIN
                    StashCards
                ON
                    Stashes.stash_id = StashCards.stash
                WHERE Stashes.oid NOT IN (
                    SELECT
                        Stashes.oid
                    FROM
                        Stashes
                    INNER JOIN
                        StashCards
                    ON
                        Stashes.stash_id = StashCards.stash
                    AND StashCards.card = :card_id
                    ORDER BY
                        updated_at
                    DESC
                    LIMIT :offset
                )
                AND StashCards.card = :card_id
                ORDER BY
                    updated_at
                DESC
                LIMIT :per_page;
            ".to_owned(),
        (SortBy::UpdatedAt, SortOrder::Ascending) => "
                SELECT
                    stash_id, name, description, created_at, updated_at
                FROM
                    Stashes
                INNER JOIN
                    StashCards
                ON
                    Stashes.stash_id = StashCards.stash
                WHERE Stashes.oid NOT IN (
                    SELECT
                        Stashes.oid
                    FROM
                        Stashes
                    INNER JOIN
                        StashCards
                    ON
                        Stashes.stash_id = StashCards.stash
                    AND StashCards.card = :card_id
                    ORDER BY
                        updated_at
                    ASC
                    LIMIT :offset
                )
                AND StashCards.card = :card_id
                ORDER BY
                    updated_at
                ASC
                LIMIT :per_page;
            ".to_owned(),
        (SortBy::Name, SortOrder::Descending) => "
                SELECT
                    stash_id, name, description, created_at, updated_at
                FROM
                    Stashes
                INNER JOIN
                    StashCards
                ON
                    Stashes.stash_id = StashCards.stash
                WHERE Stashes.oid NOT IN (
                    SELECT
                        Stashes.oid
                    FROM
                        Stashes
                    INNER JOIN
                        StashCards
                    ON
                        Stashes.stash_id = StashCards.stash
                    AND StashCards.card = :card_id
                    ORDER BY
                        name
                    DESC
                    LIMIT :offset
                )
                AND StashCards.card = :card_id
                ORDER BY
                    name
                DESC
                LIMIT :per_page;
            ".to_owned(),
        (SortBy::Name, SortOrder::Ascending) => "
                SELECT
                    stash_id, name, description, created_at, updated_at
                FROM
                    Stashes
                INNER JOIN
                    StashCards
                ON
                    Stashes.stash_id = StashCards.stash
                WHERE Stashes.oid NOT IN (
                    SELECT
                        Stashes.oid
                    FROM
                        Stashes
                    INNER JOIN
                        StashCards
                    ON
                        Stashes.stash_id = StashCards.stash
                    AND StashCards.card = :card_id
                    ORDER BY
                        name
                    ASC
                    LIMIT :offset
                )
                AND StashCards.card = :card_id
                ORDER BY
                    name
                ASC
                LIMIT :per_page;
            ".to_owned(),
    }
}

/// Ascending order of two stashes under the chosen column.
pub open spec fn stash_key_le_asc(s: Store, sort_by: SortBy, a: i64, b: i64) -> bool {
    match sort_by {
        SortBy::CreatedAt => s.stashes@[a].created_at <= s.stashes@[b].created_at,
        SortBy::UpdatedAt => s.stashes@[a].updated_at <= s.stashes@[b].updated_at,
        SortBy::Name => seq_char_le(s.stashes@[a].name@, s.stashes@[b].name@),
    }
}

/// The listing order: the chosen column, in the chosen direction.
pub open spec fn stash_key_le(s: Store, sort_by: SortBy, order: SortOrder, a: i64, b: i64) -> bool {
    match order {
        SortOrder::Ascending => stash_key_le_asc(s, sort_by, a, b),
        SortOrder::Descending => stash_key_le_asc(s, sort_by, b, a),
    }
}

/// The listing order is total.
proof fn lemma_stash_key_le_total(s: Store, sort_by: SortBy, order: SortOrder, a: i64, b: i64)
    ensures
        stash_key_le(s, sort_by, order, a, b) || stash_key_le(s, sort_by, order, b, a),
{
    if sort_by == SortBy::Name {
        lemma_seq_char_le_total(s.stashes@[a].name@, s.stashes@[b].name@);
        lemma_seq_char_le_total(s.stashes@[b].name@, s.stashes@[a].name@);
    }
}

/// The listing order is transitive.
proof fn lemma_stash_key_le_trans(
    s: Store,
    sort_by: SortBy,
    order: SortOrder,
    a: i64,
    b: i64,
    c: i64,
)
    requires
        stash_key_le(s, sort_by, order, a, b),
        stash_key_le(s, sort_by, order, b, c),
    ensures
        stash_key_le(s, sort_by, order, a, c),
{
    if sort_by == SortBy::Name {
        match order {
            SortOrder::Ascending => lemma_seq_char_le_trans(
                s.stashes@[a].name@,
                s.stashes@[b].name@,
                s.stashes@[c].name@,
            ),
            SortOrder::Descending => lemma_seq_char_le_trans(
                s.stashes@[c].name@,
                s.stashes@[b].name@,
                s.stashes@[a].name@,
            ),
        }
    }
}

/// The stash is one the listing shows: it exists and, when the listing is
/// restricted to a card, it holds that card.
pub open spec fn listed_stash(s: Store, card: Option<i64>, k: i64) -> bool {
    s.stashes@.contains_key(k) && (match card {
        Some(c) => s.has_stash_card(k, c),
        None => true,
    })
}

/// A full listing: every listed stash once, ordered by the chosen column and
/// direction.
pub open spec fn stash_listing(
    s: Store,
    sort_by: SortBy,
    order: SortOrder,
    card: Option<i64>,
    full: Seq<i64>,
) -> bool {
    &&& forall|t: int| 0 <= t < full.len() ==> listed_stash(s, card, #[trigger] full[t])
    &&& forall|k: i64| #[trigger] listed_stash(s, card, k) ==> full.contains(k)
    &&& forall|i: int, j: int|
        #![trigger full[i], full[j]]
        0 <= i < j < full.len() ==> full[i] != full[j] && stash_key_le(s, sort_by, order, full[i],
        full[j])
}

/// One page of a full listing: the rows from `offset` on, at most `limit` of
/// them.
pub open spec fn page_window(full: Seq<i64>, offset: int, limit: int) -> Seq<i64> {
    let lo = if offset <= full.len() {
        offset
    } else {
        full.len() as int
    };
    let hi = if offset + limit <= full.len() {
        offset + limit
    } else {
        full.len() as int
    };
    if 0 <= lo <= hi <= full.len() {
        full.subrange(lo, hi)
    } else {
        Seq::empty()
    }
}

/// Copies the page starting at `offset`, at most `limit` rows.
fn window_of(full: Vec<i64>, offset: i64, limit: i64) -> (r: Vec<i64>)
    requires
        0 <= offset,
        0 <= limit,
    ensures
        r@ == page_window(full@, offset as int, limit as int),
{
    let n = full.len();
    let mut t: usize = 0;
    while t < n && (t as u64) < (offset as u64)
        invariant
            0 <= t <= n,
            n == full@.len(),
            t <= offset,
        decreases n - t,
    {
        t += 1;
    }
    let ghost lo = t as int;
    proof {
        assert(lo == if offset <= full@.len() {
            offset as int
        } else {
            full@.len() as int
        });
    }
    let mut out: Vec<i64> = Vec::new();
    let mut taken: i64 = 0;
    proof {
        assert(out@ =~= full@.subrange(lo, lo));
    }
    while t < n && taken < limit
        invariant
            lo <= t <= n,
            n == full@.len(),
            0 <= taken <= limit,
            taken == t - lo,
            out@ == full@.subrange(lo, t as int),
        decreases n - t,
    {
        out.push(full[t]);
        proof {
            assert(full@.subrange(lo, t + 1) =~= full@.subrange(lo, t as int).push(
                full@[t as int],
            ));
        }
        t += 1;
        taken = taken + 1;
    }
    proof {
        assert(out@ =~= page_window(full@, offset as int, limit as int));
    }
    out
}

impl Store {
    /// Every listed stash, ordered for the listing: the chosen column in the
    /// chosen direction, each stash once.
    #[verifier::rlimit(100)]
    fn sorted_stash_ids(&self, sort_by: SortBy, order: SortOrder, card: Option<i64>) -> (r: Vec<
        i64,
    >)
        requires
            self.wf(),
        ensures
            stash_listing(*self, sort_by, order, card, r@),
    {
        let n = self.stashes.len();
        let mut out: Vec<i64> = Vec::new();
        let mut i: usize = 0;
        while i < n
            invariant
                0 <= i <= n,
                n == self.stashes.rows@.len(),
                forall|t: int|
                    0 <= t < out@.len() ==> listed_stash(*self, card, #[trigger] out@[t])
                        && exists|j: int|
                        0 <= j < i && (#[trigger] self.stashes.rows@[j]).0 == out@[t],
                forall|j: int|
                    0 <= j < i && listed_stash(*self, card, (#[trigger] self.stashes.rows@[j]).0)
                        ==> out@.contains(self.stashes.rows@[j].0),
                forall|p: int, q: int|
                    #![trigger out@[p], out@[q]]
                    0 <= p < q < out@.len() ==> out@[p] != out@[q] && stash_key_le(*self, sort_by,
                    order, out@[p], out@[q]),
            decreases n - i,
        {
            let k = self.stashes.rows[i].0;
            proof {
                self.stashes.lemma_index(i as int);
            }
            let member = match card {
                Some(c) => self.stash_card_exists(k, c),
                None => true,
            };
            if member {
                let m = out.len();
                let mut pos: usize = 0;
                while pos < m && self.stash_le(sort_by, order, out[pos], k)
                    invariant
                        0 <= pos <= m,
                        m == out@.len(),
                        forall|t: int|
                            0 <= t < pos ==> stash_key_le(*self, sort_by, order,
                            #[trigger] out@[t], k),
                    decreases m - pos,
                {
                    pos += 1;
                }
                proof {
                    assert forall|t: int| 0 <= t < out@.len() implies (#[trigger] out@[t])
                        != k by {
                        let j = choose|j: int|
                            0 <= j < i && (#[trigger] self.stashes.rows@[j]).0 == out@[t];
                        assert(self.stashes.rows@[j].0 != self.stashes.rows@[i as int].0);
                    }
                    if (pos as int) < out@.len() {
                        lemma_stash_key_le_total(*self, sort_by, order, out@[pos as int], k);
                    }
                }
                let ghost oldout = out@;
                out.insert(pos, k);
                proof {
                    assert(out@[pos as int] == k);
                    assert forall|p: int, q: int|
                        #![trigger out@[p], out@[q]]
                        0 <= p < q < out@.len() implies out@[p] != out@[q] && stash_key_le(
                        *self,
                        sort_by,
                        order,
                        out@[p],
                        out@[q],
                    ) by {
                        let p0: int = if p < pos as int {
                            p
                        } else {
                            p - 1
                        };
                        let q0: int = if q < pos as int {
                            q
                        } else {
                            q - 1
                        };
                        if p != pos as int && q != pos as int {
                            assert(out@[p] == oldout[p0]);
                            assert(out@[q] == oldout[q0]);
                        } else if p == pos as int {
                            assert(out@[p] == k);
                            assert(out@[q] == oldout[q0]);
                            assert(q0 >= pos as int);
                            if q0 > pos as int {
                                assert(stash_key_le(*self, sort_by, order, k,
                                oldout[pos as int]));
                                assert(stash_key_le(*self, sort_by, order, oldout[pos as int],
                                oldout[q0]));
                                lemma_stash_key_le_trans(*self, sort_by, order, k,
                                oldout[pos as int], oldout[q0]);
                            }
                        } else {
                            assert(out@[q] == k);
                            assert(out@[p] == oldout[p0]);
                            assert(p0 < pos as int);
                            assert(stash_key_le(*self, sort_by, order, oldout[p0], k));
                        }
                    }
                    assert forall|t: int|
                        0 <= t < out@.len() implies listed_stash(*self, card, #[trigger] out@[t])
                        && exists|j: int|
                        0 <= j < i + 1 && (#[trigger] self.stashes.rows@[j]).0 == out@[t] by {
                        if t == pos as int {
                            assert((#[trigger] self.stashes.rows@[i as int]).0 == k);
                        } else {
                            let t0: int = if t < pos as int {
                                t
                            } else {
                                t - 1
                            };
                            assert(out@[t] == oldout[t0]);
                            let j = choose|j: int|
                                0 <= j < i && (#[trigger] self.stashes.rows@[j]).0 == oldout[t0];
                            assert(0 <= j < i + 1 && (#[trigger] self.stashes.rows@[j]).0
                                == out@[t]);
                        }
                    }
                    assert forall|j: int|
                        0 <= j < i + 1 && listed_stash(*self, card, (
                    #[trigger] self.stashes.rows@[j]).0) implies out@.contains(
                        self.stashes.rows@[j].0,
                    ) by {
                        if j == i as int {
                            assert(out@[pos as int] == self.stashes.rows@[j].0);
                        } else {
                            assert(oldout.contains(self.stashes.rows@[j].0));
                            let t0 = choose|t0: int|
                                0 <= t0 < oldout.len() && oldout[t0] == self.stashes.rows@[j].0;
                            if t0 < pos as int {
                                assert(out@[t0] == self.stashes.rows@[j].0);
                            } else {
                                assert(out@[t0 + 1] == self.stashes.rows@[j].0);
                            }
                        }
                    }
                }
            } else {
                proof {
                    assert forall|j: int|
                        0 <= j < i + 1 && listed_stash(*self, card, (
                    #[trigger] self.stashes.rows@[j]).0) implies out@.contains(
                        self.stashes.rows@[j].0,
                    ) by {}
                }
            }
            i += 1;
        }
        proof {
            assert forall|k: i64| #[trigger] listed_stash(*self, card, k) implies out@.contains(
                k,
            ) by {
                self.stashes.lemma_contains(k);
                let j = self.stashes.index_of(k);
                assert(listed_stash(*self, card, (#[trigger] self.stashes.rows@[j]).0));
            }
        }
        out
    }

    /// Compares two stashes in the listing order.
    fn stash_le(&self, sort_by: SortBy, order: SortOrder, a: i64, b: i64) -> (r: bool)
        requires
            self.wf(),
            self.stashes@.contains_key(a),
            self.stashes@.contains_key(b),
        ensures
            r == stash_key_le(*self, sort_by, order, a, b),
    {
        match order {
            SortOrder::Ascending => self.stash_le_asc(sort_by, a, b),
            SortOrder::Descending => self.stash_le_asc(sort_by, b, a),
        }
    }

    fn stash_le_asc(&self, sort_by: SortBy, a: i64, b: i64) -> (r: bool)
        requires
            self.wf(),
            self.stashes@.contains_key(a),
            self.stashes@.contains_key(b),
        ensures
            r == stash_key_le_asc(*self, sort_by, a, b),
    {
        let ra = self.stashes.get(a).unwrap();
        let rb = self.stashes.get(b).unwrap();
        match sort_by {
            SortBy::CreatedAt => ra.created_at <= rb.created_at,
            SortBy::UpdatedAt => ra.updated_at <= rb.updated_at,
            SortBy::Name => str_le(ra.name.as_str(), rb.name.as_str()),
        }
    }

    /// One page of the stash listing: the ids of every stash, ordered by the
    /// requested column and direction, windowed by the page request.
    pub fn get_list(&self, page_query: &StashesPageRequest) -> (r: Vec<i64>)
        requires
            self.wf(),
            page_query.wf(),
        ensures
            exists|full: Seq<i64>|
                #[trigger] stash_listing(*self, page_query.sort_by, page_query.order, None, full)
                    && r@ == page_window(full, (page_query.page - 1) * page_query.per_page,
                page_query.per_page as int),
    {
        let full = self.sorted_stash_ids(page_query.sort_by, page_query.order, None);
        let ghost full_seq = full@;
        let offset = page_query.get_offset();
        let r = window_of(full, offset, page_query.per_page);
        proof {
            assert(stash_listing(*self, page_query.sort_by, page_query.order, None, full_seq));
        }
        r
    }

    /// One page of the listing of the stashes that hold the given card.
    pub fn get_by_card(&self, card_id: i64, page_query: &StashesPageRequest) -> (r: Vec<i64>)
        requires
            self.wf(),
            page_query.wf(),
        ensures
            exists|full: Seq<i64>|
                #[trigger] stash_listing(*self, page_query.sort_by, page_query.order, Some(
                    card_id), full) && r@ == page_window(full, (page_query.page - 1)
                    * page_query.per_page, page_query.per_page as int),
    {
        let full = self.sorted_stash_ids(page_query.sort_by, page_query.order, Some(card_id));
        let ghost full_seq = full@;
        let offset = page_query.get_offset();
        let r = window_of(full, offset, page_query.per_page);
        proof {
            assert(stash_listing(*self, page_query.sort_by, page_query.order, Some(card_id),
            full_seq));
        }
        r
    }

    /// Packaged consequences of replacing the membership rows by a filtered
    /// copy: the composite key survives, and membership restricts pointwise.
    pub(crate) proof fn lemma_stash_cards_filter_facts(self, pre: Store, pred: spec_fn(StashCardRow) -> bool)
        requires
            pre.stash_cards_unique(),
            self.stash_cards@ == pre.stash_cards@.filter(pred),
        ensures
            self.stash_cards_unique(),
            forall|s: i64, c: i64|
                #[trigger] self.has_stash_card(s, c) <==> (pre.has_stash_card(s, c) && pred(
                    pre.stash_cards@[pre.stash_card_idx(s, c)],
                )),
            forall|i: int|
                0 <= i < self.stash_cards@.len() ==> pre.stash_cards@.contains(
                    #[trigger] self.stash_cards@[i],
                ),
    {
        let same = |x: StashCardRow, y: StashCardRow| x.stash == y.stash && x.card == y.card;
        crate::table::lemma_filter_elems(pre.stash_cards@, pred);
        crate::table::lemma_filter_nodup(pre.stash_cards@, pred, same);
        assert forall|i: int, j: int| 0 <= i < j < self.stash_cards@.len() implies !((
        #[trigger] self.stash_cards@[i]).stash == (#[trigger] self.stash_cards@[j]).stash
            && self.stash_cards@[i].card == self.stash_cards@[j].card) by {
            assert(!same(pre.stash_cards@.filter(pred)[i], pre.stash_cards@.filter(pred)[j]));
        }
        assert forall|s: i64, c: i64| #[trigger] self.has_stash_card(s, c) implies (
        pre.has_stash_card(s, c) && pred(pre.stash_cards@[pre.stash_card_idx(s, c)])) by {
            self.lemma_stash_card(s, c);
            let i = self.stash_card_idx(s, c);
            let e = self.stash_cards@[i];
            assert(pred(e) && pre.stash_cards@.contains(e));
            let j = choose|j: int| 0 <= j < pre.stash_cards@.len() && pre.stash_cards@[j] == e;
            pre.lemma_stash_card_at(j);
        }
        assert forall|s: i64, c: i64|
            pre.has_stash_card(s, c) && pred(pre.stash_cards@[pre.stash_card_idx(s, c)]) implies
            self.has_stash_card(s, c) by {
            pre.lemma_stash_card(s, c);
            let j = pre.stash_card_idx(s, c);
            assert(pre.stash_cards@.filter(pred).contains(pre.stash_cards@[j]));
            let i = choose|i: int|
                0 <= i < pre.stash_cards@.filter(pred).len() && pre.stash_cards@.filter(pred)[i]
                    == pre.stash_cards@[j];
            assert((#[trigger] self.stash_cards@[i]).stash == s && self.stash_cards@[i].card
                == c);
        }
    }

    /// Re-derives the parts of the invariant that quantify existentially
    /// after an operation that left the closure and membership rows alone.
    pub(crate) proof fn lemma_untouched_rows_wf(pre: Store, post: Store)
        requires
            pre.wf(),
            post.closure@ == pre.closure@,
            post.stash_cards@ == pre.stash_cards@,
            forall|d: i64| #[trigger] post.decks@.contains_key(d) ==> pre.decks@.contains_key(d),
        ensures
            forall|d: i64| #[trigger] post.decks@.contains_key(d) ==> post.has_edge(d, d),
    {
        Store::lemma_edges_unchanged(pre, post);
        assert forall|d: i64| #[trigger] post.decks@.contains_key(d) implies post.has_edge(
            d,
            d,
        ) by {
            assert(pre.has_edge(d, d));
        }
    }

    /// Creates a stash; the description defaults to the empty text.
    pub fn create_stash(&mut self, create_stash_request: &CreateStash, now: i64) -> (id: i64)
        requires
            old(self).wf(),
            old(self).next_id < i64::MAX,
            create_stash_request.name@.len() > 0,
        ensures
            final(self).wf(),
            id == old(self).next_id,
            !old(self).stashes@.contains_key(id),
            final(self).next_id == old(self).next_id + 1,
            final(self).stashes@.contains_key(id),
            forall|k: i64|
                k != id ==> (#[trigger] final(self).stashes@.contains_key(k) == old(
                    self).stashes@.contains_key(k) && (old(self).stashes@.contains_key(k) ==> final(
                    self).stashes@[k] == old(self).stashes@[k])),
            final(self).stashes@[id].name@ == create_stash_request.name@,
            final(self).stashes@[id].description@ == (match create_stash_request.description {
                Some(d) => d@,
                None => Seq::<char>::empty(),
            }),
            final(self).stashes@[id].created_at == now,
            final(self).stashes@[id].updated_at == now,
            final(self).stashes@[id].reviewed_at == now,
            final(self).decks == old(self).decks,
            final(self).closure == old(self).closure,
            final(self).cards == old(self).cards,
            final(self).scores == old(self).scores,
            final(self).history == old(self).history,
            final(self).stash_cards == old(self).stash_cards,
            final(self).deck_cache == old(self).deck_cache,
            final(self).stash_cache == old(self).stash_cache,
    {
        let ghost pre = *self;
        let id = self.next_id;
        self.next_id = self.next_id + 1;
        let description = match &create_stash_request.description {
            Some(d) => d.clone(),
            None => String::new(),
        };
        let row = StashRow {
            name: create_stash_request.name.clone(),
            description,
            created_at: now,
            updated_at: now,
            reviewed_at: now,
        };
        self.stashes.insert_new(id, row);
        proof {
            Store::lemma_untouched_rows_wf(pre, *self);
        }
        id
    }

    /// The stash's row; fails exactly when the stash does not exist.
    pub fn get_stash(&self, stash_id: i64) -> (r: Result<&StashRow, StoreError>)
        requires
            self.wf(),
        ensures
            (match r {
                Ok(row) => self.stashes@.contains_key(stash_id) && *row == self.stashes@[stash_id],
                Err(e) => e == StoreError::NotFound && !self.stashes@.contains_key(stash_id),
            }),
    {
        match self.stashes.get(stash_id) {
            Some(row) => Ok(row),
            None => Err(StoreError::NotFound),
        }
    }

    /// The stash's row together with whether it holds the given card.
    pub fn get_stash_with_card(&self, stash_id: i64, card_id: i64) -> (r: Result<
        (&StashRow, bool),
        StoreError,
    >)
        requires
            self.wf(),
        ensures
            (match r {
                Ok((row, has_card)) => self.stashes@.contains_key(stash_id) && *row
                    == self.stashes@[stash_id] && has_card == self.has_stash_card(
                    stash_id,
                    card_id,
                ),
                Err(e) => e == StoreError::NotFound && !self.stashes@.contains_key(stash_id),
            }),
    {
        match self.stashes.get(stash_id) {
            Some(row) => {
                let has_card = self.stash_card_exists(stash_id, card_id);
                Ok((row, has_card))
            },
            None => Err(StoreError::NotFound),
        }
    }

    /// How many stashes the store holds.
    pub fn count_stashes(&self) -> (r: usize)
        ensures
            r == self.stashes.rows@.len(),
    {
        self.stashes.len()
    }

    /// Applies an update request to the stash's row; a request that carries
    /// nothing, or names a stash that does not exist, changes nothing.
    pub fn update_stash(
        &mut self,
        stash_id: i64,
        update_stash_request: &UpdateStash,
        now: i64,
    ) -> (r: Result<(), StoreError>)
        requires
            old(self).wf(),
        ensures
            final(self).wf(),
            r is Ok,
            (if old(self).stashes@.contains_key(stash_id) && (update_stash_request.name is Some
                || update_stash_request.description is Some) {
                let old_row = old(self).stashes@[stash_id];
                let new_row = final(self).stashes@[stash_id];
                &&& final(self).stashes@.contains_key(stash_id)
                &&& forall|k: i64|
                    k != stash_id ==> (#[trigger] final(self).stashes@.contains_key(k) == old(
                        self).stashes@.contains_key(k) && (old(self).stashes@.contains_key(k)
                        ==> final(self).stashes@[k] == old(self).stashes@[k]))
                &&& new_row.name@ == (match update_stash_request.name {
                    Some(n) => n@,
                    None => old_row.name@,
                })
                &&& new_row.description@ == (match update_stash_request.description {
                    Some(d) => d@,
                    None => old_row.description@,
                })
                &&& new_row.created_at == old_row.created_at
                &&& new_row.updated_at == now
                &&& new_row.reviewed_at == old_row.reviewed_at
            } else {
                *final(self) == *old(self)
            }),
            final(self).next_id == old(self).next_id,
            final(self).decks == old(self).decks,
            final(self).closure == old(self).closure,
            final(self).cards == old(self).cards,
            final(self).scores == old(self).scores,
            final(self).history == old(self).history,
            final(self).stash_cards == old(self).stash_cards,
            final(self).deck_cache == old(self).deck_cache,
            final(self).stash_cache == old(self).stash_cache,
    {
        let ghost pre = *self;
        if update_stash_request.name.is_none() && update_stash_request.description.is_none() {
            return Ok(());
        }
        let old_row = match self.stashes.remove(stash_id) {
            Some(row) => row,
            None => {
                return Ok(());
            },
        };
        let name = match &update_stash_request.name {
            Some(n) => n.clone(),
            None => old_row.name,
        };
        let description = match &update_stash_request.description {
            Some(d) => d.clone(),
            None => old_row.description,
        };
        let new_row = StashRow {
            name,
            description,
            created_at: old_row.created_at,
            updated_at: now,
            reviewed_at: old_row.reviewed_at,
        };
        self.stashes.insert_new(stash_id, new_row);
        proof {
            Store::lemma_untouched_rows_wf(pre, *self);
            assert forall|k: i64| k != stash_id implies (
            #[trigger] self.stashes@.contains_key(k) == pre.stashes@.contains_key(k) && (
            pre.stashes@.contains_key(k) ==> self.stashes@[k] == pre.stashes@[k])) by {}
        }
        Ok(())
    }


    /// How many stashes hold the given card.
    pub fn count_stashes_by_card(&self, card_id: i64) -> (r: usize)
        ensures
            r == self.stash_cards@.filter((|row: StashCardRow| row.card == card_id)).len(),
    {
        let ghost pred = |row: StashCardRow| row.card == card_id;
        let n = self.stash_cards.len();
        let mut count: usize = 0;
        let mut i: usize = 0;
        while i < n
            invariant
                0 <= i <= n,
                n == self.stash_cards@.len(),
                count == self.stash_cards@.take(i as int).filter(pred).len(),
            decreases n - i,
        {
            proof {
                assert(self.stash_cards@.take(i + 1) =~= self.stash_cards@.take(
                    i as int).push(self.stash_cards@[i as int]));
                crate::table::lemma_filter_push(
                    self.stash_cards@.take(i as int),
                    self.stash_cards@[i as int],
                    pred,
                );
            }
            if self.stash_cards[i].card == card_id {
                count += 1;
            }
            i += 1;
        }
        proof {
            assert(self.stash_cards@.take(n as int) =~= self.stash_cards@);
        }
        count
    }

    /// Puts the card into the stash; doing so again changes nothing.
    pub fn add_card_to_stash(&mut self, stash_id: i64, card_id: i64, now: i64) -> (r: Result<
        (),
        StoreError,
    >)
        requires
            old(self).wf(),
            old(self).stashes@.contains_key(stash_id),
            old(self).cards@.contains_key(card_id),
        ensures
            final(self).wf(),
            r is Ok,
            forall|s: i64, c: i64|
                #[trigger] final(self).has_stash_card(s, c) <==> (old(self).has_stash_card(s, c)
                    || (s == stash_id && c == card_id)),
            (if old(self).has_stash_card(stash_id, card_id) {
                *final(self) == *old(self)
            } else {
                final(self).stash_cards@ == old(self).stash_cards@.push(
                    (StashCardRow { stash: stash_id, card: card_id, added_at: now }),
                )
            }),
            final(self).next_id == old(self).next_id,
            final(self).decks == old(self).decks,
            final(self).closure == old(self).closure,
            final(self).cards == old(self).cards,
            final(self).scores == old(self).scores,
            final(self).history == old(self).history,
            final(self).stashes == old(self).stashes,
            final(self).deck_cache == old(self).deck_cache,
            final(self).stash_cache == old(self).stash_cache,
    {
        let ghost pre = *self;
        if self.stash_card_exists(stash_id, card_id) {
            proof {
                assert forall|s: i64, c: i64| #[trigger] self.has_stash_card(s, c) <==> (
                pre.has_stash_card(s, c) || (s == stash_id && c == card_id)) by {}
            }
            return Ok(());
        }
        let row = StashCardRow { stash: stash_id, card: card_id, added_at: now };
        self.stash_cards.push(row);
        proof {
            let n = pre.stash_cards@.len() as int;
            assert forall|i: int, j: int| 0 <= i < j < self.stash_cards@.len() implies !((
            #[trigger] self.stash_cards@[i]).stash == (#[trigger] self.stash_cards@[j]).stash
                && self.stash_cards@[i].card == self.stash_cards@[j].card) by {
                if j < n {
                    assert(self.stash_cards@[i] == pre.stash_cards@[i]);
                    assert(self.stash_cards@[j] == pre.stash_cards@[j]);
                } else {
                    assert(self.stash_cards@[j] == row);
                    assert(self.stash_cards@[i] == pre.stash_cards@[i]);
                    if pre.stash_cards@[i].stash == stash_id && pre.stash_cards@[i].card
                        == card_id {
                        pre.lemma_stash_card_at(i);
                    }
                }
            }
            assert forall|s: i64, c: i64| #[trigger] self.has_stash_card(s, c) <==> (
            pre.has_stash_card(s, c) || (s == stash_id && c == card_id)) by {
                if pre.has_stash_card(s, c) {
                    let i = pre.stash_card_idx(s, c);
                    pre.lemma_stash_card(s, c);
                    assert((#[trigger] self.stash_cards@[i]).stash == s
                        && self.stash_cards@[i].card == c);
                }
                if s == stash_id && c == card_id {
                    assert((#[trigger] self.stash_cards@[n]).stash == s
                        && self.stash_cards@[n].card == c);
                }
                if self.has_stash_card(s, c) {
                    let i = self.stash_card_idx(s, c);
                    self.lemma_stash_card(s, c);
                    if i < n {
                        assert((#[trigger] pre.stash_cards@[i]).stash == s
                            && pre.stash_cards@[i].card == c);
                        pre.lemma_stash_card_at(i);
                    }
                }
            }
            assert forall|i: int| 0 <= i < self.stash_cards@.len() implies
                self.stashes@.contains_key((#[trigger] self.stash_cards@[i]).stash)
                && self.cards@.contains_key(self.stash_cards@[i].card) by {
                if i < n {
                    assert(self.stash_cards@[i] == pre.stash_cards@[i]);
                    assert(self.stashes@.contains_key((#[trigger] pre.stash_cards@[i]).stash));
                }
            }
            Store::lemma_edges_unchanged(pre, *self);
            assert forall|d: i64| #[trigger] self.decks@.contains_key(d) implies self.has_edge(
                d,
                d,
            ) by {
                assert(pre.has_edge(d, d));
            }
        }
        Ok(())
    }

    /// Takes the card out of the stash, if it is in it.
    pub fn remove_card_from_stash(&mut self, stash_id: i64, card_id: i64) -> (r: Result<
        (),
        StoreError,
    >)
        requires
            old(self).wf(),
        ensures
            final(self).wf(),
            r is Ok,
            final(self).stash_cards@ == old(self).stash_cards@.filter(
                (|row: StashCardRow| !(row.stash == stash_id && row.card == card_id)),
            ),
            forall|s: i64, c: i64|
                #[trigger] final(self).has_stash_card(s, c) <==> (old(self).has_stash_card(s, c)
                    && !(s == stash_id && c == card_id)),
            final(self).next_id == old(self).next_id,
            final(self).decks == old(self).decks,
            final(self).closure == old(self).closure,
            final(self).cards == old(self).cards,
            final(self).scores == old(self).scores,
            final(self).history == old(self).history,
            final(self).stashes == old(self).stashes,
            final(self).deck_cache == old(self).deck_cache,
            final(self).stash_cache == old(self).stash_cache,
    {
        let ghost pre = *self;
        let ghost pred = |row: StashCardRow| !(row.stash == stash_id && row.card == card_id);
        let mut src: Vec<StashCardRow> = Vec::new();
        core::mem::swap(&mut self.stash_cards, &mut src);
        let n = src.len();
        let mut i: usize = 0;
        while i < n
            invariant
                0 <= i <= n,
                n == pre.stash_cards@.len(),
                src@ == pre.stash_cards@.skip(i as int),
                self.stash_cards@ == pre.stash_cards@.take(i as int).filter(pred),
                *self == (Store { stash_cards: self.stash_cards, ..pre }),
            decreases n - i,
        {
            let e = src.remove(0);
            proof {
                assert(e == pre.stash_cards@[i as int]);
                assert(src@ =~= pre.stash_cards@.skip(i + 1));
                assert(pre.stash_cards@.take(i + 1) =~= pre.stash_cards@.take(i as int).push(e));
                crate::table::lemma_filter_push(pre.stash_cards@.take(i as int), e, pred);
            }
            if !(e.stash == stash_id && e.card == card_id) {
                self.stash_cards.push(e);
            }
            i += 1;
        }
        proof {
            assert(pre.stash_cards@.take(n as int) =~= pre.stash_cards@);
            self.lemma_stash_cards_filter_facts(pre, pred);
            assert forall|s: i64, c: i64| #[trigger] self.has_stash_card(s, c) <==> (
            pre.has_stash_card(s, c) && !(s == stash_id && c == card_id)) by {
                if pre.has_stash_card(s, c) {
                    pre.lemma_stash_card(s, c);
                }
            }
            assert forall|i2: int| 0 <= i2 < self.stash_cards@.len() implies
                self.stashes@.contains_key((#[trigger] self.stash_cards@[i2]).stash)
                && self.cards@.contains_key(self.stash_cards@[i2].card) by {
                let e = self.stash_cards@[i2];
                assert(pre.stash_cards@.contains(e));
                let j = choose|j: int|
                    0 <= j < pre.stash_cards@.len() && pre.stash_cards@[j] == e;
                assert(pre.stashes@.contains_key((#[trigger] pre.stash_cards@[j]).stash));
            }
            Store::lemma_edges_unchanged(pre, *self);
            assert forall|d: i64| #[trigger] self.decks@.contains_key(d) implies self.has_edge(
                d,
                d,
            ) by {
                assert(pre.has_edge(d, d));
            }
        }
        Ok(())
    }

    /// Takes the card out of every stash it is in.
    pub fn remove_card_from_all_stashes(&mut self, card_id: i64) -> (r: Result<(), StoreError>)
        requires
            old(self).wf(),
        ensures
            final(self).wf(),
            r is Ok,
            final(self).stash_cards@ == old(self).stash_cards@.filter((|row: StashCardRow| row.card != card_id)),
            forall|s: i64, c: i64|
                #[trigger] final(self).has_stash_card(s, c) <==> (old(self).has_stash_card(s, c)
                    && c != card_id),
            final(self).next_id == old(self).next_id,
            final(self).decks == old(self).decks,
            final(self).closure == old(self).closure,
            final(self).cards == old(self).cards,
            final(self).scores == old(self).scores,
            final(self).history == old(self).history,
            final(self).stashes == old(self).stashes,
            final(self).deck_cache == old(self).deck_cache,
            final(self).stash_cache == old(self).stash_cache,
    {
        let ghost pre = *self;
        let ghost pred = |row: StashCardRow| row.card != card_id;
        let mut src: Vec<StashCardRow> = Vec::new();
        core::mem::swap(&mut self.stash_cards, &mut src);
        let n = src.len();
        let mut i: usize = 0;
        while i < n
            invariant
                0 <= i <= n,
                n == pre.stash_cards@.len(),
                src@ == pre.stash_cards@.skip(i as int),
                self.stash_cards@ == pre.stash_cards@.take(i as int).filter(pred),
                *self == (Store { stash_cards: self.stash_cards, ..pre }),
            decreases n - i,
        {
            let e = src.remove(0);
            proof {
                assert(e == pre.stash_cards@[i as int]);
                assert(src@ =~= pre.stash_cards@.skip(i + 1));
                assert(pre.stash_cards@.take(i + 1) =~= pre.stash_cards@.take(i as int).push(e));
                crate::table::lemma_filter_push(pre.stash_cards@.take(i as int), e, pred);
            }
            if e.card != card_id {
                self.stash_cards.push(e);
            }
            i += 1;
        }
        proof {
            assert(pre.stash_cards@.take(n as int) =~= pre.stash_cards@);
            self.lemma_stash_cards_filter_facts(pre, pred);
            assert forall|s: i64, c: i64| #[trigger] self.has_stash_card(s, c) <==> (
            pre.has_stash_card(s, c) && c != card_id) by {
                if pre.has_stash_card(s, c) {
                    pre.lemma_stash_card(s, c);
                }
            }
            assert forall|i2: int| 0 <= i2 < self.stash_cards@.len() implies
                self.stashes@.contains_key((#[trigger] self.stash_cards@[i2]).stash)
                && self.cards@.contains_key(self.stash_cards@[i2].card) by {
                let e = self.stash_cards@[i2];
                assert(pre.stash_cards@.contains(e));
                let j = choose|j: int|
                    0 <= j < pre.stash_cards@.len() && pre.stash_cards@[j] == e;
                assert(pre.stashes@.contains_key((#[trigger] pre.stash_cards@[j]).stash));
            }
            Store::lemma_edges_unchanged(pre, *self);
            assert forall|d: i64| #[trigger] self.decks@.contains_key(d) implies self.has_edge(
                d,
                d,
            ) by {
                assert(pre.has_edge(d, d));
            }
        }
        Ok(())
    }

    /// Empties the stash of its cards.
    pub fn remove_all_cards_from_stash(&mut self, stash_id: i64) -> (r: Result<(), StoreError>)
        requires
            old(self).wf(),
        ensures
            final(self).wf(),
            r is Ok,
            final(self).stash_cards@ == old(self).stash_cards@.filter((|row: StashCardRow| row.stash != stash_id)),
            forall|s: i64, c: i64|
                #[trigger] final(self).has_stash_card(s, c) <==> (old(self).has_stash_card(s, c)
                    && s != stash_id),
            final(self).next_id == old(self).next_id,
            final(self).decks == old(self).decks,
            final(self).closure == old(self).closure,
            final(self).cards == old(self).cards,
            final(self).scores == old(self).scores,
            final(self).history == old(self).history,
            final(self).stashes == old(self).stashes,
            final(self).deck_cache == old(self).deck_cache,
            final(self).stash_cache == old(self).stash_cache,
    {
        let ghost pre = *self;
        let ghost pred = |row: StashCardRow| row.stash != stash_id;
        let mut src: Vec<StashCardRow> = Vec::new();
        core::mem::swap(&mut self.stash_cards, &mut src);
        let n = src.len();
        let mut i: usize = 0;
        while i < n
            invariant
                0 <= i <= n,
                n == pre.stash_cards@.len(),
                src@ == pre.stash_cards@.skip(i as int),
                self.stash_cards@ == pre.stash_cards@.take(i as int).filter(pred),
                *self == (Store { stash_cards: self.stash_cards, ..pre }),
            decreases n - i,
        {
            let e = src.remove(0);
            proof {
                assert(e == pre.stash_cards@[i as int]);
                assert(src@ =~= pre.stash_cards@.skip(i + 1));
                assert(pre.stash_cards@.take(i + 1) =~= pre.stash_cards@.take(i as int).push(e));
                crate::table::lemma_filter_push(pre.stash_cards@.take(i as int), e, pred);
            }
            if e.stash != stash_id {
                self.stash_cards.push(e);
            }
            i += 1;
        }
        proof {
            assert(pre.stash_cards@.take(n as int) =~= pre.stash_cards@);
            self.lemma_stash_cards_filter_facts(pre, pred);
            assert forall|s: i64, c: i64| #[trigger] self.has_stash_card(s, c) <==> (
            pre.has_stash_card(s, c) && s != stash_id) by {
                if pre.has_stash_card(s, c) {
                    pre.lemma_stash_card(s, c);
                }
            }
            assert forall|i2: int| 0 <= i2 < self.stash_cards@.len() implies
                self.stashes@.contains_key((#[trigger] self.stash_cards@[i2]).stash)
                && self.cards@.contains_key(self.stash_cards@[i2].card) by {
                let e = self.stash_cards@[i2];
                assert(pre.stash_cards@.contains(e));
                let j = choose|j: int|
                    0 <= j < pre.stash_cards@.len() && pre.stash_cards@[j] == e;
                assert(pre.stashes@.contains_key((#[trigger] pre.stash_cards@[j]).stash));
            }
            Store::lemma_edges_unchanged(pre, *self);
            assert forall|d: i64| #[trigger] self.decks@.contains_key(d) implies self.has_edge(
                d,
                d,
            ) by {
                assert(pre.has_edge(d, d));
            }
        }
        Ok(())
    }

    /// Deletes the stash. Its memberships and its cache slot go with it, as
    /// the schema's cascades demand; deleting an absent stash is a no-op.
    pub fn delete_stash(&mut self, stash_id: i64) -> (r: Result<(), StoreError>)
        requires
            old(self).wf(),
        ensures
            final(self).wf(),
            r is Ok,
            final(self).stashes@ == old(self).stashes@.remove(stash_id),
            forall|s: i64, c: i64|
                #[trigger] final(self).has_stash_card(s, c) <==> (old(self).has_stash_card(s, c)
                    && s != stash_id),
            final(self).stash_cache@ == old(self).stash_cache@.remove(stash_id),
            final(self).next_id == old(self).next_id,
            final(self).decks == old(self).decks,
            final(self).closure == old(self).closure,
            final(self).cards == old(self).cards,
            final(self).scores == old(self).scores,
            final(self).history == old(self).history,
            final(self).deck_cache == old(self).deck_cache,
    {
        let ghost pre = *self;
        let _removed = self.remove_all_cards_from_stash(stash_id);
        let ghost mid = *self;
        self.stashes.remove(stash_id);
        self.stash_cache.remove(stash_id);
        proof {
            Store::lemma_stash_cards_unchanged(mid, *self);
            assert forall|s2: i64, c2: i64| #[trigger] self.has_stash_card(s2, c2) <==> (
            pre.has_stash_card(s2, c2) && s2 != stash_id) by {
                assert(self.has_stash_card(s2, c2) == mid.has_stash_card(s2, c2));
            }
            assert forall|i2: int| 0 <= i2 < self.stash_cards@.len() implies
                self.stashes@.contains_key((#[trigger] self.stash_cards@[i2]).stash)
                && self.cards@.contains_key(self.stash_cards@[i2].card) by {
                self.lemma_stash_card_at(i2);
                assert(self.has_stash_card(self.stash_cards@[i2].stash,
                self.stash_cards@[i2].card));
                assert(pre.has_stash_card(self.stash_cards@[i2].stash,
                self.stash_cards@[i2].card) && self.stash_cards@[i2].stash != stash_id);
                pre.lemma_stash_card(self.stash_cards@[i2].stash, self.stash_cards@[i2].card);
                let j = pre.stash_card_idx(self.stash_cards@[i2].stash,
                self.stash_cards@[i2].card);
                assert(pre.stashes@.contains_key((#[trigger] pre.stash_cards@[j]).stash));
            }
            Store::lemma_edges_unchanged(pre, *self);
            assert forall|d: i64| #[trigger] self.decks@.contains_key(d) implies self.has_edge(
                d,
                d,
            ) by {
                assert(pre.has_edge(d, d));
            }
        }
        Ok(())
    }
}

} // verus!
