//! The report: rows in the order of the chosen keys, one column for each key,
//! and, against a baseline, a comparison of the rows that agree in all keys
//! before the key of the baseline.

use crate::fold::{lemma_try_fold_error, lemma_try_fold_step, try_fold};
use crate::print::{texts, Comparison, Format};
use crate::row::{names_result, title_of, Row};
use crate::sorting::{
    all_cover, covers, group_rows, group_views, groups_cover, key_texts, lemma_runs_keep,
    lemma_singles_keep, lemma_sorted_keeps, runs, single_rows, singles, sort_rows,
    sorted, views, Fields,
};
use crate::text::same_text;
use crate::value::{Cell, Pad, Scalar};
use vstd::prelude::*;
use vstd::string::*;

verus! {

/// Why rows are not rendered.
#[derive(Clone, Copy, Debug, PartialEq, Eq, Structural)]
pub enum RenderError {
    /// The key of the baseline is none of the keys of the report.
    MissingBaselineKey,
    /// A row has no value under a key of the report.
    UnknownKey,
    /// The value of a row under the key of the baseline is no text.
    BaselineNotText,
    /// A group has fewer rows than the first group.
    UnevenGroups,
    /// The change between two values is asked for that are not both counts
    /// or both quotients.
    NotComparable,
}

/// One column of a table.
pub struct Column {
    /// Whether nothing follows the column in a line.
    pub last: bool,
    pub title: Seq<char>,
    /// The side on which the values are padded.
    pub pad: Pad,
    /// The values, one for each line after the header.
    pub cells: Seq<Seq<char>>,
}

/// The numbers from 0 up to `count`, without `count`.
pub open spec fn indices(count: nat) -> Seq<int> {
    Seq::new(count, |i: int| i)
}

/// `i` is the first position of `key` among `keys`.
pub open spec fn is_first(keys: Seq<Seq<char>>, key: Seq<char>, i: int) -> bool {
    &&& 0 <= i < keys.len()
    &&& keys[i] == key
    &&& forall|j: int| 0 <= j < i ==> #[trigger] keys[j] != key
}

/// The first position of `key` among `keys`, where it is one of them.
pub open spec fn position(keys: Seq<Seq<char>>, key: Seq<char>) -> int {
    choose|i: int| is_first(keys, key, i)
}

/// `key` is one of `keys`.
pub open spec fn listed(keys: Seq<Seq<char>>, key: Seq<char>) -> bool {
    exists|i: int| 0 <= i < keys.len() && #[trigger] keys[i] == key
}

/// `key` is one of the keys behind the position `at`.
pub open spec fn listed_behind(keys: Seq<Seq<char>>, at: int, key: Seq<char>) -> bool {
    exists|i: int| at < i < keys.len() && #[trigger] keys[i] == key
}

/// There is only one first position.
pub proof fn lemma_is_first_unique(keys: Seq<Seq<char>>, key: Seq<char>, i: int)
    requires
        is_first(keys, key, i),
    ensures
        position(keys, key) == i,
        listed(keys, key),
{
    let k = position(keys, key);
    assert(is_first(keys, key, k));
    if k < i {
        assert(keys[k] != key);
    }
    if i < k {
        assert(keys[i] != key);
    }
}

/// The first position of `key` among `keys`.
pub fn find_key(keys: &Vec<String>, key: &str) -> (found: Option<usize>)
    ensures
        found is Some <==> listed(key_texts(keys@), key@),
        found matches Some(i) ==> is_first(key_texts(keys@), key@, i as int) && i == position(
            key_texts(keys@),
            key@,
        ),
{
    let ghost texts = key_texts(keys@);
    let mut i: usize = 0;
    while i < keys.len()
        invariant
            i <= keys@.len(),
            texts == key_texts(keys@),
            forall|j: int| 0 <= j < i ==> #[trigger] texts[j] != key@,
        decreases keys@.len() - i,
    {
        if same_text(keys[i].as_str(), key) {
            proof {
                assert(texts[i as int] == key@);
                lemma_is_first_unique(texts, key@, i as int);
            }
            return Some(i);
        }
        i = i + 1;
    }
    None
}

/// Whether `key` is one of the keys behind the position `at`.
pub fn is_listed_behind(keys: &Vec<String>, at: usize, key: &str) -> (found: bool)
    requires
        at < keys@.len(),
    ensures
        found == listed_behind(key_texts(keys@), at as int, key@),
{
    let ghost texts = key_texts(keys@);
    let count: usize = keys.len();
    let mut i: usize = at + 1;
    while i < keys.len()
        invariant
            at < i <= keys@.len(),
            texts == key_texts(keys@),
            forall|j: int| at < j < i ==> #[trigger] texts[j] != key@,
        decreases keys@.len() - i,
    {
        if same_text(keys[i].as_str(), key) {
            assert(texts[i as int] == key@);
            return true;
        }
        i = i + 1;
    }
    false
}

/// The text of a value that is one.
pub open spec fn label(cell: Cell) -> Seq<char> {
    match cell {
        Cell::Text(text) => text,
        _ => Seq::empty(),
    }
}

/// Every row has a text under the key.
pub open spec fn labelled(rows: Seq<Fields>, key: Seq<char>) -> bool {
    forall|i: int| 0 <= i < rows.len() ==> (#[trigger] rows[i])[key] is Text
}

/// The value of the first row of each group under a key, as it is shown.
pub open spec fn first_cells(groups: Seq<Seq<Fields>>, key: Seq<char>) -> Seq<Seq<char>> {
    Seq::new(groups.len(), |g: int| groups[g][0][key].shown())
}

/// The column of a key that is not compared: the value of the first row of
/// each group, padded as the first of them asks.
pub open spec fn plain_column(groups: Seq<Seq<Fields>>, key: Seq<char>, last: bool) -> Column {
    Column {
        last,
        title: title_of(key),
        pad: groups[0][0][key].pad(),
        cells: first_cells(groups, key),
    }
}

/// In every group all rows have the same value under the key as the first
/// row of the group.
pub open spec fn unchanged(groups: Seq<Seq<Fields>>, key: Seq<char>) -> bool {
    forall|g: int, m: int|
        0 <= g < groups.len() && 0 < m < groups[g].len() ==> (#[trigger] groups[g][m])[key].same(
            groups[g][0][key],
        )
}

/// Every group has a row at the place `m`.
pub open spec fn reaches(groups: Seq<Seq<Fields>>, m: int) -> bool {
    forall|g: int| 0 <= g < groups.len() ==> m < (#[trigger] groups[g]).len()
}

/// The value of the row at the place `m` of each group, as it is shown.
pub open spec fn member_cells(groups: Seq<Seq<Fields>>, key: Seq<char>, m: int) -> Seq<Seq<char>> {
    Seq::new(groups.len(), |g: int| groups[g][m][key].shown())
}

/// In every group the first row and the row at the place `m` have values
/// between which there is a change.
pub open spec fn comparable(groups: Seq<Seq<Fields>>, key: Seq<char>, m: int) -> bool {
    forall|g: int|
        0 <= g < groups.len() ==> (#[trigger] groups[g])[0][key].change_to(groups[g][m][key])
            is Some
}

/// The change from the first row to the row at the place `m` of each group.
pub open spec fn change_cells(groups: Seq<Seq<Fields>>, key: Seq<char>, m: int) -> Seq<Seq<char>> {
    Seq::new(groups.len(), |g: int| groups[g][0][key].change_to(groups[g][m][key])->0)
}

/// The title of the column of one member of a comparison.
pub open spec fn member_title(title: Seq<char>, member: Seq<char>) -> Seq<char> {
    title + seq![' ', '('] + member + seq![')']
}

/// The title of the column of the change of one member against the
/// baseline.
pub open spec fn change_title(title: Seq<char>, member: Seq<char>, base: Seq<char>) -> Seq<char> {
    title + seq![' ', '('] + member + seq![' ', '-', ' '] + base + seq![')']
}

/// Whether the change of the member at the place `m` is shown: for every
/// member but the first, under a key that names a result, where the first
/// row of the first group has a number.
pub open spec fn shows_change(groups: Seq<Seq<Fields>>, key: Seq<char>, m: int) -> bool {
    m != 0 && names_result(key) && groups[0][0][key].is_numeric()
}

/// The columns of a compared key with those of one more member: the column
/// of its values, titled with its text under the key of the baseline, and
/// behind it, where the change is shown, the column of its change against
/// the first member.
pub open spec fn member_step(
    groups: Seq<Seq<Fields>>,
    key: Seq<char>,
    baseline: Seq<char>,
    last: bool,
) -> spec_fn(Seq<Column>, int) -> Result<Seq<Column>, RenderError> {
    |done: Seq<Column>, m: int|
        {
            let at_end = last && m == groups[0].len() - 1;
            let title = title_of(key);
            let member = label(groups[0][m][baseline]);
            let values = Column {
                last: at_end && !shows_change(groups, key, m),
                title: member_title(title, member),
                pad: groups[0][m][key].pad(),
                cells: member_cells(groups, key, m),
            };
            let changes = Column {
                last: at_end,
                title: change_title(title, member, label(groups[0][0][baseline])),
                pad: Pad::Left,
                cells: change_cells(groups, key, m),
            };
            if !reaches(groups, m) {
                Err(RenderError::UnevenGroups)
            } else if !shows_change(groups, key, m) {
                Ok(done.push(values))
            } else if !comparable(groups, key, m) {
                Err(RenderError::NotComparable)
            } else {
                Ok(done.push(values).push(changes))
            }
        }
}

/// The columns of a compared key: a single column where no group has a row
/// that differs from its first, and the columns of each member of the first
/// group otherwise.
pub open spec fn compared_columns(
    groups: Seq<Seq<Fields>>,
    key: Seq<char>,
    baseline: Seq<char>,
    last: bool,
) -> Result<Seq<Column>, RenderError> {
    if unchanged(groups, key) {
        Ok(seq![plain_column(groups, key, last)])
    } else {
        try_fold(
            indices(groups[0].len()),
            Seq::<Column>::empty(),
            member_step(groups, key, baseline, last),
        )
    }
}

/// A compared key under which no group has a row that differs from the
/// first row of the group has a single column, and not one for each member
/// of a group.
pub proof fn lemma_unchanged_is_one_column(
    groups: Seq<Seq<Fields>>,
    key: Seq<char>,
    baseline: Seq<char>,
    last: bool,
)
    requires
        unchanged(groups, key),
    ensures
        compared_columns(groups, key, baseline, last) == Ok::<Seq<Column>, RenderError>(
            seq![plain_column(groups, key, last)],
        ),
        compared_columns(groups, key, baseline, last)->Ok_0.len() == 1,
{
}

/// The columns of the key at the position `at`: none for the key of the
/// baseline, those of a comparison for a key that stands behind it, and one
/// for every other key. The column of the last key is the last.
pub open spec fn key_columns(
    groups: Seq<Seq<Fields>>,
    keys: Seq<Seq<char>>,
    baseline: Option<Seq<char>>,
    at: int,
) -> Result<Seq<Column>, RenderError> {
    let last = at == keys.len() - 1;
    match baseline {
        None => Ok(seq![plain_column(groups, keys[at], last)]),
        Some(base) => if keys[at] == base {
            Ok(Seq::empty())
        } else if listed_behind(keys, position(keys, base), keys[at]) {
            compared_columns(groups, keys[at], base, last)
        } else {
            Ok(seq![plain_column(groups, keys[at], last)])
        },
    }
}

/// The columns so far with those of one more key.
pub open spec fn key_step(
    groups: Seq<Seq<Fields>>,
    keys: Seq<Seq<char>>,
    baseline: Option<Seq<char>>,
) -> spec_fn(Seq<Column>, int) -> Result<Seq<Column>, RenderError> {
    |done: Seq<Column>, at: int|
        match key_columns(groups, keys, baseline, at) {
            Ok(columns) => Ok(done + columns),
            Err(e) => Err(e),
        }
}

/// The columns of all keys, in the order of the keys.
pub open spec fn columns(
    groups: Seq<Seq<Fields>>,
    keys: Seq<Seq<char>>,
    baseline: Option<Seq<char>>,
) -> Result<Seq<Column>, RenderError> {
    try_fold(indices(keys.len()), Seq::<Column>::empty(), key_step(groups, keys, baseline))
}

impl Format {
    /// The lines of a table with more columns.
    pub open spec fn with_columns(self, lines: Seq<Seq<char>>, columns: Seq<Column>) -> Seq<
        Seq<char>,
    >
        decreases columns.len(),
    {
        if columns.len() == 0 {
            lines
        } else {
            let column = columns.last();
            self.with_values(
                self.with_columns(lines, columns.drop_last()),
                column.last,
                column.title,
                column.pad,
                column.cells,
            )
        }
    }

    /// The lines of a table of `count` rows before its first column.
    pub open spec fn started(self, count: nat) -> Seq<Seq<char>> {
        Seq::new(
            self.header_height() + count,
            |i: int| self.line_start(self.sub_header() && i == 1),
        )
    }

    /// The lines of a table after its last column.
    pub open spec fn ended(self, lines: Seq<Seq<char>>) -> Seq<Seq<char>> {
        Seq::new(lines.len(), |i: int| lines[i] + self.line_end(self.sub_header() && i == 1))
    }

    /// The lines of the table of the columns, which have `count` values
    /// each.
    pub open spec fn table(self, columns: Seq<Column>, count: nat) -> Seq<Seq<char>> {
        self.ended(self.with_columns(self.started(count), columns))
    }

    /// The lines of the table of the groups, with one line for each group.
    pub open spec fn table_of(
        self,
        groups: Seq<Seq<Fields>>,
        keys: Seq<Seq<char>>,
        baseline: Option<Seq<char>>,
    ) -> Result<Seq<Seq<char>>, RenderError> {
        match columns(groups, keys, baseline) {
            Ok(columns) => Ok(self.table(columns, groups.len())),
            Err(e) => Err(e),
        }
    }

    /// The lines of the report of the rows under the keys. There is none
    /// where there is no row. The rows are sorted by the keys. Without a
    /// baseline each row is a line. With the key of a baseline, the rows
    /// that follow one another and agree in every key before it are one
    /// line, and the first of them is what the others are compared with.
    pub open spec fn rendered(
        self,
        rows: Seq<Fields>,
        keys: Seq<Seq<char>>,
        baseline: Option<Seq<char>>,
    ) -> Result<Seq<Seq<char>>, RenderError> {
        if rows.len() == 0 {
            Ok(Seq::empty())
        } else if baseline is Some && !listed(keys, baseline->0) {
            Err(RenderError::MissingBaselineKey)
        } else if !all_cover(rows, keys) {
            Err(RenderError::UnknownKey)
        } else {
            match baseline {
                None => self.table_of(singles(sorted(rows, keys)), keys, None),
                Some(base) => {
                    let at = position(keys, base);
                    if at + 1 < keys.len() && !labelled(rows, base) {
                        Err(RenderError::BaselineNotText)
                    } else {
                        self.table_of(runs(sorted(rows, keys), keys.take(at)), keys, baseline)
                    }
                },
            }
        }
    }

    /// More columns behind columns are added one after the other.
    pub proof fn lemma_with_columns_joined(
        self,
        lines: Seq<Seq<char>>,
        first: Seq<Column>,
        second: Seq<Column>,
    )
        ensures
            self.with_columns(lines, first + second) == self.with_columns(
                self.with_columns(lines, first),
                second,
            ),
        decreases second.len(),
    {
        if second.len() == 0 {
            assert(first + second =~= first);
        } else {
            self.lemma_with_columns_joined(lines, first, second.drop_last());
            assert((first + second).drop_last() =~= first + second.drop_last());
            assert((first + second).last() == second.last());
        }
    }

    /// A column does not change the number of lines.
    pub proof fn lemma_with_columns_height(self, lines: Seq<Seq<char>>, columns: Seq<Column>)
        ensures
            self.with_columns(lines, columns).len() == lines.len(),
        decreases columns.len(),
    {
        if columns.len() > 0 {
            self.lemma_with_columns_height(lines, columns.drop_last());
        }
    }
}

/// The values of the rows at the place `m` of each group under a key, as
/// they are shown.
fn member_values(groups: &Vec<Vec<&Row>>, key: &str, m: usize) -> (values: Option<Vec<String>>)
    requires
        groups_cover(group_views(groups@), seq![key@]),
    ensures
        values is Some <==> reaches(group_views(groups@), m as int),
        values matches Some(v) ==> texts(v@) == member_cells(group_views(groups@), key@, m as int),
{
    let ghost all = group_views(groups@);
    let mut values: Vec<String> = Vec::new();
    let mut g: usize = 0;
    while g < groups.len()
        invariant
            g <= groups@.len(),
            all == group_views(groups@),
            groups_cover(all, seq![key@]),
            values@.len() == g,
            forall|k: int| 0 <= k < g ==> m < (#[trigger] all[k]).len(),
            forall|k: int| 0 <= k < g ==> (#[trigger] values@[k])@ == all[k][m as int][key@].shown(),
        decreases groups@.len() - g,
    {
        proof {
            assert(all[g as int].len() == groups@[g as int]@.len());
        }
        if m >= groups[g].len() {
            return None;
        }
        proof {
            assert(covers(all[g as int][m as int], seq![key@]));
            assert(seq![key@][0] == key@);
            assert(all[g as int][m as int] == groups@[g as int]@[m as int]@);
        }
        let value = groups[g][m].get(key).unwrap();
        values.push(value.display());
        g = g + 1;
    }
    assert(texts(values@) =~= member_cells(all, key@, m as int));
    Some(values)
}

/// The changes from the first row to the row at the place `m` of each
/// group under a key.
fn change_values(groups: &Vec<Vec<&Row>>, key: &str, m: usize) -> (values: Option<Vec<String>>)
    requires
        groups_cover(group_views(groups@), seq![key@]),
        reaches(group_views(groups@), m as int),
    ensures
        values is Some <==> comparable(group_views(groups@), key@, m as int),
        values matches Some(v) ==> texts(v@) == change_cells(group_views(groups@), key@, m as int),
{
    let ghost all = group_views(groups@);
    let mut values: Vec<String> = Vec::new();
    let mut g: usize = 0;
    while g < groups.len()
        invariant
            g <= groups@.len(),
            all == group_views(groups@),
            groups_cover(all, seq![key@]),
            reaches(all, m as int),
            values@.len() == g,
            forall|k: int|
                0 <= k < g ==> (#[trigger] all[k])[0][key@].change_to(all[k][m as int][key@])
                    is Some,
            forall|k: int|
                0 <= k < g ==> (#[trigger] values@[k])@ == all[k][0][key@].change_to(
                    all[k][m as int][key@],
                )->0,
        decreases groups@.len() - g,
    {
        proof {
            assert(all[g as int].len() == groups@[g as int]@.len());
            assert(m < all[g as int].len());
            assert(covers(all[g as int][m as int], seq![key@]));
            assert(covers(all[g as int][0], seq![key@]));
            assert(seq![key@][0] == key@);
            assert(all[g as int][m as int] == groups@[g as int]@[m as int]@);
            assert(all[g as int][0] == groups@[g as int]@[0]@);
        }
        let from = groups[g][0].get(key).unwrap();
        let to = groups[g][m].get(key).unwrap();
        match from.diff(to) {
            Some(text) => {
                values.push(text);
            },
            None => {
                return None;
            },
        }
        g = g + 1;
    }
    assert(texts(values@) =~= change_cells(all, key@, m as int));
    Some(values)
}

/// Whether in every group all rows have the same value under the key as the
/// first row of the group.
fn is_null_comparison(groups: &Vec<Vec<&Row>>, key: &str) -> (null: bool)
    requires
        groups_cover(group_views(groups@), seq![key@]),
    ensures
        null == unchanged(group_views(groups@), key@),
{
    let ghost all = group_views(groups@);
    let mut g: usize = 0;
    while g < groups.len()
        invariant
            g <= groups@.len(),
            all == group_views(groups@),
            groups_cover(all, seq![key@]),
            forall|k: int, m: int|
                0 <= k < g && 0 < m < all[k].len() ==> (#[trigger] all[k][m])[key@].same(
                    all[k][0][key@],
                ),
        decreases groups@.len() - g,
    {
        proof {
            assert(all[g as int].len() == groups@[g as int]@.len());
            assert(all[g as int].len() > 0);
            assert(covers(all[g as int][0], seq![key@]));
            assert(seq![key@][0] == key@);
            assert(all[g as int][0] == groups@[g as int]@[0]@);
        }
        let first = groups[g][0].get(key).unwrap();
        let mut m: usize = 1;
        while m < groups[g].len()
            invariant
                g < groups@.len(),
                1 <= m <= groups@[g as int]@.len(),
                all == group_views(groups@),
                groups_cover(all, seq![key@]),
                all[g as int].len() == groups@[g as int]@.len(),
                first@ == all[g as int][0][key@],
                forall|n: int| 0 < n < m ==> (#[trigger] all[g as int][n])[key@].same(first@),
            decreases groups@[g as int]@.len() - m,
        {
            proof {
                assert(covers(all[g as int][m as int], seq![key@]));
                assert(seq![key@][0] == key@);
                assert(all[g as int][m as int] == groups@[g as int]@[m as int]@);
            }
            let value = groups[g][m].get(key).unwrap();
            if !(*value == *first) {
                assert(!all[g as int][m as int][key@].same(all[g as int][0][key@]));
                return false;
            }
            m = m + 1;
        }
        g = g + 1;
    }
    true
}

/// The text of a value that is one.
fn label_of(value: &Scalar) -> (text: &str)
    ensures
        text@ == label(value@),
{
    match value {
        Scalar::Text(text) => text.as_str(),
        _ => {
            proof {
                reveal_strlit("");
            }
            assert(""@ =~= Seq::<char>::empty());
            ""
        },
    }
}

impl Format {
    /// Adds the column of a key that is not compared.
    fn add_plain(&self, last: bool, groups: &Vec<Vec<&Row>>, key: &str, lines: &mut Vec<String>)
        requires
            groups@.len() > 0,
            groups_cover(group_views(groups@), seq![key@]),
            old(lines)@.len() == self.header_height() + groups@.len(),
        ensures
            texts(final(lines)@) == self.with_columns(
                texts(old(lines)@),
                seq![plain_column(group_views(groups@), key@, last)],
            ),
            final(lines)@.len() == old(lines)@.len(),
    {
        let ghost all = group_views(groups@);
        proof {
            assert(all[0].len() == groups@[0]@.len());
            assert(reaches(all, 0)) by {
                assert forall|g: int| 0 <= g < all.len() implies 0 < (#[trigger] all[g]).len() by {}
            }
            assert(covers(all[0][0], seq![key@]));
            assert(seq![key@][0] == key@);
            assert(all[0][0] == groups@[0]@[0]@);
        }
        let first = groups[0][0];
        let title = first.title(key);
        let pad = first.get(key).unwrap().pad();
        let values = member_values(groups, key, 0).unwrap();
        assert(texts(values@) =~= first_cells(all, key@));
        assert(texts(values@).len() == values@.len());
        let ghost before = texts(lines@);
        self.add_values(last, title.as_str(), pad, &values, lines);
        proof {
            let column = plain_column(all, key@, last);
            assert(seq![column].drop_last() =~= Seq::<Column>::empty());
            assert(seq![column].last() == column);
            assert(self.with_columns(before, Seq::<Column>::empty()) == before);
            assert(column.pad == pad);
            assert(column.title == title@);
            assert(column.cells == texts(values@));
            assert(texts(lines@).len() == before.len());
        }
    }

    /// Adds the columns of a compared key.
    fn add_compared(
        &self,
        last: bool,
        groups: &Vec<Vec<&Row>>,
        key: &str,
        baseline: &str,
        lines: &mut Vec<String>,
    ) -> (done: Result<(), RenderError>)
        requires
            groups@.len() > 0,
            groups_cover(group_views(groups@), seq![key@]),
            groups_cover(group_views(groups@), seq![baseline@]),
            old(lines)@.len() == self.header_height() + groups@.len(),
        ensures
            final(lines)@.len() == old(lines)@.len(),
            match done {
                Ok(_) => compared_columns(group_views(groups@), key@, baseline@, last) is Ok
                    && texts(final(lines)@) == self.with_columns(
                    texts(old(lines)@),
                    compared_columns(group_views(groups@), key@, baseline@, last)->Ok_0,
                ),
                Err(e) => compared_columns(group_views(groups@), key@, baseline@, last) == Err::<
                    Seq<Column>,
                    RenderError,
                >(e),
            },
    {
        let ghost all = group_views(groups@);
        if is_null_comparison(groups, key) {
            self.add_plain(last, groups, key, lines);
            return Ok(());
        }
        proof {
            assert(all[0].len() == groups@[0]@.len());
            assert(all[0].len() > 0);
            assert(covers(all[0][0], seq![key@]));
            assert(covers(all[0][0], seq![baseline@]));
            assert(seq![key@][0] == key@);
            assert(seq![baseline@][0] == baseline@);
            assert(all[0][0] == groups@[0]@[0]@);
        }
        let first = groups[0][0];
        let title = first.title(key);
        let numeric = first.get(key).unwrap().is_numeric();
        let result = first.is_result(key);
        let base = label_of(first.get(baseline).unwrap());
        let count: usize = groups[0].len();
        let ghost before = texts(lines@);
        let ghost step = member_step(all, key@, baseline@, last);
        let ghost places = indices(count as nat);
        let ghost mut columns: Seq<Column> = Seq::empty();
        let mut m: usize = 0;
        proof {
            assert(places.take(0) =~= Seq::<int>::empty());
        }
        while m < count
            invariant
                m <= count,
                count == all[0].len(),
                count == groups@[0]@.len(),
                groups@.len() > 0,
                all == group_views(groups@),
                groups_cover(all, seq![key@]),
                groups_cover(all, seq![baseline@]),
                places == indices(count as nat),
                step == member_step(all, key@, baseline@, last),
                !unchanged(all, key@),
                title@ == title_of(key@),
                numeric == all[0][0][key@].is_numeric(),
                result == names_result(key@),
                base@ == label(all[0][0][baseline@]),
                lines@.len() == old(lines)@.len(),
                lines@.len() == self.header_height() + groups@.len(),
                before == texts(old(lines)@),
                try_fold(places.take(m as int), Seq::<Column>::empty(), step) == Ok::<
                    Seq<Column>,
                    RenderError,
                >(columns),
                texts(lines@) == self.with_columns(before, columns),
            decreases count - m,
        {
            proof {
                lemma_try_fold_step(places, Seq::<Column>::empty(), step, m as int);
                assert(places[m as int] == m);
                assert(covers(all[0][m as int], seq![key@]));
                assert(covers(all[0][m as int], seq![baseline@]));
                assert(seq![key@][0] == key@);
                assert(seq![baseline@][0] == baseline@);
                assert(all[0][m as int] == groups@[0]@[m as int]@);
            }
            let has_diff = m != 0 && result && numeric;
            let at_end = last && m == count - 1;
            let member = label_of(groups[0][m].get(baseline).unwrap());
            let pad = groups[0][m].get(key).unwrap().pad();
            let values = match member_values(groups, key, m) {
                Some(values) => values,
                None => {
                    proof {
                        lemma_try_fold_error(places, Seq::<Column>::empty(), step, m + 1);
                    }
                    return Err(RenderError::UnevenGroups);
                },
            };
            let changes = if has_diff {
                match change_values(groups, key, m) {
                    Some(changes) => Some(changes),
                    None => {
                        proof {
                            lemma_try_fold_error(places, Seq::<Column>::empty(), step, m + 1);
                        }
                        return Err(RenderError::NotComparable);
                    },
                }
            } else {
                None
            };
            {
                proof {
                    reveal_strlit(" (");
                    reveal_strlit(")");
                }
                let mut heading = title.clone();
                heading.append(" (");
                heading.append(member);
                heading.append(")");
                assert(heading@ =~= member_title(title@, member@));
                let ghost lines_before = texts(lines@);
                assert(texts(values@).len() == values@.len());
                self.add_values(at_end && !has_diff, heading.as_str(), pad, &values, lines);
                proof {
                    let column = Column {
                        last: at_end && !has_diff,
                        title: heading@,
                        pad,
                        cells: texts(values@),
                    };
                    assert(columns.push(column).drop_last() =~= columns);
                    assert(texts(lines@) == self.with_columns(before, columns.push(column)));
                    assert(texts(lines@).len() == lines_before.len());
                    columns = columns.push(column);
                }
            }
            if let Some(changes) = changes {
                proof {
                    reveal_strlit(" (");
                    reveal_strlit(" - ");
                    reveal_strlit(")");
                }
                let mut heading = title.clone();
                heading.append(" (");
                heading.append(member);
                heading.append(" - ");
                heading.append(base);
                heading.append(")");
                assert(heading@ =~= change_title(title@, member@, base@));
                let ghost lines_before = texts(lines@);
                assert(texts(changes@).len() == changes@.len());
                self.add_values(at_end, heading.as_str(), Pad::Left, &changes, lines);
                proof {
                    let column = Column {
                        last: at_end,
                        title: heading@,
                        pad: Pad::Left,
                        cells: texts(changes@),
                    };
                    assert(columns.push(column).drop_last() =~= columns);
                    assert(texts(lines@) == self.with_columns(before, columns.push(column)));
                    assert(texts(lines@).len() == lines_before.len());
                    columns = columns.push(column);
                }
            }
            m = m + 1;
        }
        assert(places.take(count as int) =~= places);
        Ok(())
    }

    /// Adds the columns of the key at the position `at`.
    fn add_rows(
        &self,
        groups: &Vec<Vec<&Row>>,
        keys: &Vec<String>,
        baseline: Option<(&str, usize)>,
        at: usize,
        lines: &mut Vec<String>,
    ) -> (done: Result<(), RenderError>)
        requires
            groups@.len() > 0,
            at < keys@.len(),
            groups_cover(group_views(groups@), key_texts(keys@)),
            old(lines)@.len() == self.header_height() + groups@.len(),
            baseline matches Some((base, place)) ==> is_first(
                key_texts(keys@),
                base@,
                place as int,
            ),
        ensures
            final(lines)@.len() == old(lines)@.len(),
            match done {
                Ok(_) => key_columns(
                    group_views(groups@),
                    key_texts(keys@),
                    baseline_key(baseline),
                    at as int,
                ) is Ok && texts(final(lines)@) == self.with_columns(
                    texts(old(lines)@),
                    key_columns(
                        group_views(groups@),
                        key_texts(keys@),
                        baseline_key(baseline),
                        at as int,
                    )->Ok_0,
                ),
                Err(e) => key_columns(
                    group_views(groups@),
                    key_texts(keys@),
                    baseline_key(baseline),
                    at as int,
                ) == Err::<Seq<Column>, RenderError>(e),
            },
    {
        let ghost all = group_views(groups@);
        let ghost names = key_texts(keys@);
        let key = keys[at].as_str();
        let last = at == keys.len() - 1;
        proof {
            assert(names[at as int] == key@);
            lemma_covers_one(all, names, at as int);
        }
        match baseline {
            None => {
                self.add_plain(last, groups, key, lines);
                Ok(())
            },
            Some((base, place)) => {
                proof {
                    lemma_is_first_unique(names, base@, place as int);
                    lemma_covers_one(all, names, place as int);
                }
                if same_text(key, base) {
                    Ok(())
                } else if is_listed_behind(keys, place, key) {
                    self.add_compared(last, groups, key, base, lines)
                } else {
                    self.add_plain(last, groups, key, lines);
                    Ok(())
                }
            },
        }
    }

    /// The lines of the report of the rows under the keys.
    pub fn render_rows(
        &self,
        rows: Vec<Row>,
        keys: &Vec<String>,
        baseline: Option<&Comparison>,
    ) -> (lines: Result<Vec<String>, RenderError>)
        requires
            rows@.len() + 2 <= usize::MAX,
        ensures
            self.rendered(views(rows@), key_texts(keys@), compared_key(baseline)) == match lines {
                Ok(lines) => Ok(texts(lines@)),
                Err(e) => Err(e),
            },
    {
        let ghost given = views(rows@);
        let ghost names = key_texts(keys@);
        if rows.len() == 0 {
            let lines: Vec<String> = Vec::new();
            assert(texts(lines@) =~= Seq::<Seq<char>>::empty());
            return Ok(lines);
        }
        let place = match baseline {
            Some(comparison) => match find_key(keys, comparison.key.as_str()) {
                Some(place) => Some((comparison.key.as_str(), place)),
                None => {
                    return Err(RenderError::MissingBaselineKey);
                },
            },
            None => None,
        };
        if !rows_cover(&rows, keys) {
            return Err(RenderError::UnknownKey);
        }
        if let Some((base, at)) = place {
            proof {
                lemma_all_cover_one(given, names, at as int);
            }
            if at < keys.len() - 1 && !rows_labelled(&rows, base) {
                return Err(RenderError::BaselineNotText);
            }
        }
        let ordered = sort_rows(rows, keys.as_slice());
        proof {
            lemma_sorted_keeps(given, names, names);
        }
        let groups = match place {
            Some((_, at)) => {
                let prefix = first_keys(keys, at);
                proof {
                    lemma_cover_fewer(views(ordered@), names, at as int);
                }
                group_rows(&ordered, &prefix)
            },
            None => {
                proof {
                    lemma_singles_keep(views(ordered@), names);
                }
                single_rows(&ordered)
            },
        };
        let ghost all = group_views(groups@);
        proof {
            assert(groups@.len() == all.len());
            if let Some((_, first)) = place {
                lemma_runs_keep(views(ordered@), names.take(first as int), names);
            }
        }
        let header_offset: usize = self.header_lines();
        let nlines: usize = groups.len() + header_offset;
        let mut lines: Vec<String> = Vec::new();
        let mut i: usize = 0;
        while i < nlines
            invariant
                i <= nlines,
                lines@.len() == i,
                forall|k: int|
                    0 <= k < i ==> (#[trigger] lines@[k])@ == self.line_start(
                        self.sub_header() && k == 1,
                    ),
            decreases nlines - i,
        {
            let sub_header = i == 1 && self.has_sub_header();
            let mut line = String::new();
            self.add_line_start(sub_header, &mut line);
            assert(line@ =~= self.line_start(self.sub_header() && i == 1));
            lines.push(line);
            i = i + 1;
        }
        let ghost start = texts(lines@);
        let ghost step = key_step(all, names, compared_key(baseline));
        let ghost places = indices(keys@.len() as nat);
        let ghost mut columns_so_far: Seq<Column> = Seq::empty();
        proof {
            assert(start =~= self.started(groups@.len() as nat));
            assert(places.take(0) =~= Seq::<int>::empty());
            assert(self.rendered(given, names, compared_key(baseline)) == self.table_of(
                all,
                names,
                compared_key(baseline),
            ));
        }
        let mut at: usize = 0;
        while at < keys.len()
            invariant
                at <= keys@.len(),
                groups@.len() > 0,
                lines@.len() == nlines,
                nlines == self.header_height() + groups@.len(),
                all == group_views(groups@),
                names == key_texts(keys@),
                groups_cover(all, names),
                place matches Some((base, first)) ==> is_first(names, base@, first as int),
                baseline_key(place) == compared_key(baseline),
                places == indices(keys@.len() as nat),
                step == key_step(all, names, compared_key(baseline)),
                try_fold(places.take(at as int), Seq::<Column>::empty(), step) == Ok::<
                    Seq<Column>,
                    RenderError,
                >(columns_so_far),
                texts(lines@) == self.with_columns(start, columns_so_far),
                given == views(rows@),
                self.rendered(given, names, compared_key(baseline)) == self.table_of(
                    all,
                    names,
                    compared_key(baseline),
                ),
            decreases keys@.len() - at,
        {
            proof {
                lemma_try_fold_step(places, Seq::<Column>::empty(), step, at as int);
                assert(places[at as int] == at);
            }
            match self.add_rows(&groups, keys, place, at, &mut lines) {
                Ok(_) => {
                    proof {
                        let more = key_columns(all, names, compared_key(baseline), at as int)->Ok_0;
                        self.lemma_with_columns_joined(start, columns_so_far, more);
                        columns_so_far = columns_so_far + more;
                    }
                },
                Err(e) => {
                    proof {
                        lemma_try_fold_error(places, Seq::<Column>::empty(), step, at + 1);
                    }
                    return Err(e);
                },
            }
            at = at + 1;
        }
        let ghost body = texts(lines@);
        proof {
            assert(places.take(keys@.len() as int) =~= places);
            self.lemma_with_columns_height(start, columns_so_far);
        }
        let mut i: usize = 0;
        while i < nlines
            invariant
                i <= nlines,
                lines@.len() == nlines,
                body.len() == nlines,
                forall|k: int|
                    0 <= k < i ==> (#[trigger] lines@[k])@ == body[k] + self.line_end(
                        self.sub_header() && k == 1,
                    ),
                forall|k: int| i <= k < nlines ==> (#[trigger] lines@[k])@ == body[k],
            decreases nlines - i,
        {
            let sub_header = i == 1 && self.has_sub_header();
            self.add_line_end(sub_header, &mut lines[i]);
            i = i + 1;
        }
        assert(texts(lines@) =~= self.ended(body));
        Ok(lines)
    }
}

/// The key of the baseline, where there is one.
pub open spec fn compared_key(baseline: Option<&Comparison>) -> Option<Seq<char>> {
    match baseline {
        Some(comparison) => Some(comparison.key@),
        None => None,
    }
}

/// The key of the baseline, where there is one.
pub open spec fn baseline_key(baseline: Option<(&str, usize)>) -> Option<Seq<char>> {
    match baseline {
        Some((base, _)) => Some(base@),
        None => None,
    }
}

/// Rows that have a value under all keys have one under each.
pub proof fn lemma_covers_one(groups: Seq<Seq<Fields>>, keys: Seq<Seq<char>>, at: int)
    requires
        0 <= at < keys.len(),
        groups_cover(groups, keys),
    ensures
        groups_cover(groups, seq![keys[at]]),
{
    assert forall|g: int| 0 <= g < groups.len() implies (#[trigger] groups[g]).len() > 0
        && all_cover(groups[g], seq![keys[at]]) by {
        assert forall|m: int| 0 <= m < groups[g].len() implies covers(
            #[trigger] groups[g][m],
            seq![keys[at]],
        ) by {
            assert(covers(groups[g][m], keys));
            assert(groups[g][m].contains_key(keys[at]));
        }
    }
}

/// Rows that have a value under all keys have one under each.
pub proof fn lemma_all_cover_one(rows: Seq<Fields>, keys: Seq<Seq<char>>, at: int)
    requires
        0 <= at < keys.len(),
        all_cover(rows, keys),
    ensures
        forall|i: int| 0 <= i < rows.len() ==> (#[trigger] rows[i]).contains_key(keys[at]),
{
    assert forall|i: int| 0 <= i < rows.len() implies (#[trigger] rows[i]).contains_key(
        keys[at],
    ) by {
        assert(covers(rows[i], keys));
    }
}

/// Rows that have a value under all keys have one under the first of them.
pub proof fn lemma_cover_fewer(rows: Seq<Fields>, keys: Seq<Seq<char>>, count: int)
    requires
        0 <= count <= keys.len(),
        all_cover(rows, keys),
    ensures
        all_cover(rows, keys.take(count)),
{
    assert forall|i: int| 0 <= i < rows.len() implies covers(#[trigger] rows[i], keys.take(count)) by {
        assert(covers(rows[i], keys));
        assert forall|k: int| 0 <= k < count implies rows[i].contains_key(
            #[trigger] keys.take(count)[k],
        ) by {
            assert(keys.take(count)[k] == keys[k]);
        }
    }
}

/// Whether every row has a value under every key.
pub fn rows_cover(rows: &Vec<Row>, keys: &Vec<String>) -> (all: bool)
    ensures
        all == all_cover(views(rows@), key_texts(keys@)),
{
    let ghost names = key_texts(keys@);
    let mut i: usize = 0;
    while i < rows.len()
        invariant
            i <= rows@.len(),
            names == key_texts(keys@),
            forall|j: int| 0 <= j < i ==> covers(#[trigger] views(rows@)[j], names),
        decreases rows@.len() - i,
    {
        let mut k: usize = 0;
        while k < keys.len()
            invariant
                i < rows@.len(),
                k <= keys@.len(),
                names == key_texts(keys@),
                forall|j: int| 0 <= j < k ==> rows@[i as int]@.contains_key(#[trigger] names[j]),
            decreases keys@.len() - k,
        {
            if rows[i].get(keys[k].as_str()).is_none() {
                proof {
                    assert(!rows@[i as int]@.contains_key(names[k as int]));
                    assert(!covers(views(rows@)[i as int], names));
                }
                return false;
            }
            k = k + 1;
        }
        assert(covers(views(rows@)[i as int], names));
        i = i + 1;
    }
    true
}

/// Whether every row has a text under the key.
pub fn rows_labelled(rows: &Vec<Row>, key: &str) -> (all: bool)
    requires
        forall|i: int| 0 <= i < rows@.len() ==> (#[trigger] views(rows@)[i]).contains_key(key@),
    ensures
        all == labelled(views(rows@), key@),
{
    let mut i: usize = 0;
    while i < rows.len()
        invariant
            i <= rows@.len(),
            forall|j: int| 0 <= j < rows@.len() ==> (#[trigger] views(rows@)[j]).contains_key(key@),
            forall|j: int| 0 <= j < i ==> (#[trigger] views(rows@)[j])[key@] is Text,
        decreases rows@.len() - i,
    {
        assert(views(rows@)[i as int].contains_key(key@));
        match rows[i].get(key).unwrap() {
            Scalar::Text(_) => {},
            _ => {
                assert(!(views(rows@)[i as int][key@] is Text));
                return false;
            },
        }
        i = i + 1;
    }
    true
}

/// The first `count` keys.
pub fn first_keys(keys: &Vec<String>, count: usize) -> (first: Vec<String>)
    requires
        count <= keys@.len(),
    ensures
        key_texts(first@) == key_texts(keys@).take(count as int),
{
    let mut first: Vec<String> = Vec::new();
    let mut i: usize = 0;
    while i < count
        invariant
            i <= count <= keys@.len(),
            first@.len() == i,
            forall|j: int| 0 <= j < i ==> (#[trigger] first@[j])@ == keys@[j]@,
        decreases count - i,
    {
        first.push(keys[i].clone());
        i = i + 1;
    }
    assert(key_texts(first@) =~= key_texts(keys@).take(count as int));
    first
}

} // verus!
