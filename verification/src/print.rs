//! The formats of a report, and how a column of values is laid out in the
//! lines of a table.

use crate::text::{append_repeated, repeated, same_text, text_width, width};
use crate::value::Pad;
use vstd::prelude::*;
use vstd::string::*;

verus! {

/// A comparison against a baseline. The rows that agree in every key before
/// `key` are compared with one another, and their values under `key` tell
/// them apart. `baseline` names the value under `key` of the rows that the
/// others are compared with; they are taken to be those that come first in
/// the order of the rows.
pub struct Comparison {
    pub key: String,
    pub baseline: String,
}

/// The form in which a table is written.
#[derive(Clone, Copy, Debug, PartialEq, Eq, Structural)]
pub enum Format {
    /// A Markdown table: bars around and between the columns, and a line of
    /// dashes under the header.
    Markdown,
    /// Columns of equal width with a space between them, and a line of
    /// dashes under the header.
    Pretty,
    /// Columns of equal width with a comma and a space between them.
    PrettyCsv,
    /// The values with a comma between them.
    Csv,
    /// Columns of equal width with a tab between them.
    PrettyTsv,
    /// The values with a tab between them.
    Tsv,
}

/// The fields of a text between its commas. A text without a comma is one
/// field, and so is the empty text.
pub open spec fn split(text: Seq<char>) -> Seq<Seq<char>>
    decreases text.len(),
{
    if text.len() == 0 {
        seq![Seq::empty()]
    } else {
        let before = split(text.drop_last());
        if text.last() == ',' {
            before.push(Seq::empty())
        } else {
            before.drop_last().push(before.last().push(text.last()))
        }
    }
}

/// The keys of a report, which are given as one text with commas between
/// them.
pub fn split_keys(text: &str) -> (keys: Vec<String>)
    ensures
        texts(keys@) == split(text@),
{
    let mut keys: Vec<String> = Vec::new();
    let mut field = String::new();
    let count: usize = text.unicode_len();
    let mut i: usize = 0;
    assert(text@.take(0) =~= Seq::<char>::empty());
    assert(texts(keys@).push(field@) =~= split(text@.take(0)));
    while i < count
        invariant
            i <= count,
            count == text@.len(),
            texts(keys@).push(field@) == split(text@.take(i as int)),
        decreases count - i,
    {
        let ghost before = texts(keys@).push(field@);
        let chr = text.get_char(i);
        proof {
            assert(text@.take(i + 1).drop_last() =~= text@.take(i as int));
            assert(text@.take(i + 1).last() == chr);
            assert(before.last() == field@);
            assert(before.drop_last() =~= texts(keys@));
        }
        if chr == ',' {
            keys.push(field);
            field = String::new();
            assert(texts(keys@).push(field@) =~= before.push(Seq::<char>::empty()));
        } else {
            let ghost was = field@;
            field.push(chr);
            assert(texts(keys@).push(field@) =~= before.drop_last().push(was.push(chr)));
        }
        i = i + 1;
    }
    assert(text@.take(count as int) =~= text@);
    let ghost head = texts(keys@);
    keys.push(field);
    assert(texts(keys@) =~= head.push(field@));
    keys
}

/// The characters of each text.
pub open spec fn texts(lines: Seq<String>) -> Seq<Seq<char>> {
    Seq::new(lines.len(), |i: int| lines[i]@)
}

/// The width of the widest of the cells.
pub open spec fn widest(cells: Seq<Seq<char>>) -> nat
    decreases cells.len(),
{
    if cells.len() == 0 {
        0
    } else if widest(cells.drop_last()) < width(cells.last()) {
        width(cells.last())
    } else {
        widest(cells.drop_last())
    }
}

/// The width of a column: that of its widest cell, the title included.
pub open spec fn column_width(title: Seq<char>, cells: Seq<Seq<char>>) -> nat {
    if width(title) < widest(cells) {
        widest(cells)
    } else {
        width(title)
    }
}

/// No cell is wider than the widest.
pub proof fn lemma_widest(cells: Seq<Seq<char>>, i: int)
    requires
        0 <= i < cells.len(),
    ensures
        width(cells[i]) <= widest(cells),
    decreases cells.len(),
{
    if i < cells.len() - 1 {
        lemma_widest(cells.drop_last(), i);
    }
}

impl Format {
    /// The format of a name: `markdown`, `pretty`, `csv` or `tsv`. The last
    /// two are the forms without padding.
    pub open spec fn named(name: Seq<char>) -> Option<Format> {
        if name == "markdown"@ {
            Some(Format::Markdown)
        } else if name == "pretty"@ {
            Some(Format::Pretty)
        } else if name == "csv"@ {
            Some(Format::Csv)
        } else if name == "tsv"@ {
            Some(Format::Tsv)
        } else {
            None
        }
    }

    /// The format of a name.
    pub fn from_name(name: &str) -> (format: Option<Format>)
        ensures
            format == Format::named(name@),
    {
        if same_text(name, "markdown") {
            Some(Format::Markdown)
        } else if same_text(name, "pretty") {
            Some(Format::Pretty)
        } else if same_text(name, "csv") {
            Some(Format::Csv)
        } else if same_text(name, "tsv") {
            Some(Format::Tsv)
        } else {
            None
        }
    }

    /// What a line begins with.
    pub open spec fn line_start(self, sub_header: bool) -> Seq<char> {
        match self {
            Format::Markdown => if sub_header {
                seq!['|', '-']
            } else {
                seq!['|', ' ']
            },
            _ => Seq::empty(),
        }
    }

    /// What a line ends with.
    pub open spec fn line_end(self, sub_header: bool) -> Seq<char> {
        match self {
            Format::Markdown => if sub_header {
                seq!['-', '|']
            } else {
                seq![' ', '|']
            },
            _ => Seq::empty(),
        }
    }

    /// Whether a line of dashes stands under the header.
    pub open spec fn sub_header(self) -> bool {
        self == Format::Markdown || self == Format::Pretty
    }

    /// What stands between two columns in the line under the header.
    pub open spec fn sub_header_separator(self) -> Seq<char> {
        match self {
            Format::Markdown => seq!['-', '|', '-'],
            Format::Pretty => seq![' '],
            _ => Seq::empty(),
        }
    }

    /// What stands between two columns.
    pub open spec fn separator(self) -> Seq<char> {
        match self {
            Format::Markdown => seq![' ', '|', ' '],
            Format::Pretty => seq![' '],
            Format::PrettyCsv => seq![',', ' '],
            Format::Csv => seq![','],
            Format::PrettyTsv => seq!['\t'],
            Format::Tsv => seq!['\t'],
        }
    }

    /// Whether the values are padded to the width of their column.
    pub open spec fn pads(self) -> bool {
        self != Format::Csv && self != Format::Tsv
    }

    /// The padding of `count` places.
    pub open spec fn fill(self, count: nat) -> Seq<char> {
        if self.pads() {
            repeated(' ', count)
        } else {
            Seq::empty()
        }
    }

    /// The cell of a column of width `len` in the line under the header,
    /// with what follows it unless the column is the last.
    pub open spec fn sub_header_value(self, last: bool, len: nat) -> Seq<char> {
        (if self.sub_header() {
            repeated('-', len)
        } else {
            Seq::empty()
        }) + (if last {
            Seq::empty()
        } else {
            self.sub_header_separator()
        })
    }

    /// A value in a column of width `max_len`, padded on the side `pad`, with
    /// what follows it unless the column is the last.
    pub open spec fn value(self, last: bool, pad: Pad, max_len: nat, text: Seq<char>) -> Seq<char> {
        let sides = pad.split((max_len - width(text)) as nat);
        self.fill(sides.0) + text + self.fill(sides.1) + (if last {
            Seq::empty()
        } else {
            self.separator()
        })
    }

    /// The number of lines of the header.
    pub open spec fn header_height(self) -> nat {
        if self.sub_header() {
            2
        } else {
            1
        }
    }

    /// What one column adds to the line `i` of a table: nothing to a line
    /// behind the last value.
    pub open spec fn added(
        self,
        i: int,
        last: bool,
        title: Seq<char>,
        pad: Pad,
        cells: Seq<Seq<char>>,
    ) -> Seq<char> {
        let max_len = column_width(title, cells);
        if i == 0 {
            self.value(last, Pad::Middle, max_len, title)
        } else if self.sub_header() && i == 1 {
            self.sub_header_value(last, max_len)
        } else if i < self.header_height() + cells.len() {
            self.value(last, pad, max_len, cells[i - self.header_height()])
        } else {
            Seq::empty()
        }
    }

    /// The lines of a table with one more column: the centred title in the
    /// first line, dashes in the line under the header where there is one,
    /// and the values in the lines after it. Lines behind the last value
    /// stay as they are.
    pub open spec fn with_values(
        self,
        lines: Seq<Seq<char>>,
        last: bool,
        title: Seq<char>,
        pad: Pad,
        cells: Seq<Seq<char>>,
    ) -> Seq<Seq<char>> {
        Seq::new(lines.len(), |i: int| lines[i] + self.added(i, last, title, pad, cells))
    }

    pub fn add_line_start(&self, sub_header: bool, line: &mut String)
        ensures
            final(line)@ == old(line)@ + self.line_start(sub_header),
    {
        proof {
            reveal_strlit("|-");
            reveal_strlit("| ");
        }
        match self {
            Format::Markdown => {
                if sub_header {
                    line.append("|-");
                } else {
                    line.append("| ");
                }
            },
            _ => (),
        }
        assert(line@ =~= old(line)@ + self.line_start(sub_header));
    }

    pub fn add_line_end(&self, sub_header: bool, line: &mut String)
        ensures
            final(line)@ == old(line)@ + self.line_end(sub_header),
    {
        proof {
            reveal_strlit("-|");
            reveal_strlit(" |");
        }
        match self {
            Format::Markdown => {
                if sub_header {
                    line.append("-|");
                } else {
                    line.append(" |");
                }
            },
            _ => (),
        }
        assert(line@ =~= old(line)@ + self.line_end(sub_header));
    }

    pub fn has_sub_header(&self) -> (yes: bool)
        ensures
            yes == self.sub_header(),
    {
        match self {
            Format::Markdown | Format::Pretty => true,
            _ => false,
        }
    }

    pub fn add_sub_header_value(&self, last: bool, len: usize, line: &mut String)
        ensures
            final(line)@ == old(line)@ + self.sub_header_value(last, len as nat),
    {
        proof {
            reveal_strlit("-");
        }
        match self {
            Format::Markdown | Format::Pretty => {
                append_repeated(line, "-", len);
            },
            _ => (),
        }
        if !last {
            self.add_sub_header_separater(line);
        }
        assert(line@ =~= old(line)@ + self.sub_header_value(last, len as nat));
    }

    pub fn add_sub_header_separater(&self, line: &mut String)
        ensures
            final(line)@ == old(line)@ + self.sub_header_separator(),
    {
        proof {
            reveal_strlit("-|-");
            reveal_strlit(" ");
        }
        match self {
            Format::Markdown => {
                line.append("-|-");
            },
            Format::Pretty => {
                line.append(" ");
            },
            _ => (),
        }
        assert(line@ =~= old(line)@ + self.sub_header_separator());
    }

    pub fn add_separater(&self, line: &mut String)
        ensures
            final(line)@ == old(line)@ + self.separator(),
    {
        proof {
            reveal_strlit(" | ");
            reveal_strlit(" ");
            reveal_strlit(", ");
            reveal_strlit(",");
            reveal_strlit("\t");
        }
        match self {
            Format::Markdown => {
                line.append(" | ");
            },
            Format::Pretty => {
                line.append(" ");
            },
            Format::PrettyCsv => {
                line.append(", ");
            },
            Format::Csv => {
                line.append(",");
            },
            Format::PrettyTsv | Format::Tsv => {
                line.append("\t");
            },
        }
        assert(line@ =~= old(line)@ + self.separator());
    }

    pub fn add_padding(&self, padding: usize, line: &mut String)
        ensures
            final(line)@ == old(line)@ + self.fill(padding as nat),
    {
        proof {
            reveal_strlit(" ");
        }
        match self {
            Format::Markdown | Format::Pretty | Format::PrettyCsv | Format::PrettyTsv => {
                append_repeated(line, " ", padding);
            },
            _ => (),
        }
        assert(line@ =~= old(line)@ + self.fill(padding as nat));
    }

    /// Adds a value to a line. The value must not be wider than the column.
    pub fn add_value(&self, last: bool, pad: Pad, max_len: usize, value: &str, line: &mut String)
        requires
            width(value@) <= max_len,
        ensures
            final(line)@ == old(line)@ + self.value(last, pad, max_len as nat, value@),
    {
        let padding: usize = max_len - text_width(value);
        let (left_padding, right_padding) = pad.padding(padding);
        self.add_padding(left_padding, line);
        line.append(value);
        self.add_padding(right_padding, line);
        if !last {
            self.add_separater(line);
        }
        assert(line@ =~= old(line)@ + self.value(last, pad, max_len as nat, value@));
    }

    pub fn header_lines(&self) -> (count: usize)
        ensures
            count == self.header_height(),
    {
        let sub_header_lines: usize = if self.has_sub_header() {
            1
        } else {
            0
        };
        1 + sub_header_lines
    }

    /// Adds a column to the lines of a table: its title to the first line and
    /// its values to the lines after the header, all padded to the width of
    /// the widest of them. There must be a line for the header and for each
    /// value; further lines stay as they are.
    pub fn add_values(
        &self,
        last: bool,
        title: &str,
        pad: Pad,
        values: &Vec<String>,
        lines: &mut Vec<String>,
    )
        requires
            old(lines)@.len() >= self.header_height() + values@.len(),
        ensures
            texts(final(lines)@) == self.with_values(
                texts(old(lines)@),
                last,
                title@,
                pad,
                texts(values@),
            ),
    {
        let ghost cells = texts(values@);
        let ghost before = texts(lines@);
        let mut max_len: usize = text_width(title);
        let mut i: usize = 0;
        assert(cells.take(0) =~= Seq::<Seq<char>>::empty());
        while i < values.len()
            invariant
                i <= values@.len(),
                cells == texts(values@),
                max_len == column_width(title@, cells.take(i as int)),
            decreases values@.len() - i,
        {
            proof {
                assert(cells.take(i + 1).drop_last() =~= cells.take(i as int));
                assert(cells.take(i + 1).last() == values@[i as int]@);
            }
            if text_width(values[i].as_str()) > max_len {
                max_len = text_width(values[i].as_str());
            }
            i = i + 1;
        }
        assert(cells.take(values@.len() as int) =~= cells);
        let header_offset: usize = self.header_lines();
        self.add_value(last, Pad::Middle, max_len, title, &mut lines[0]);
        if self.has_sub_header() {
            self.add_sub_header_value(last, max_len, &mut lines[1]);
        }
        let mut line: usize = 0;
        let total: usize = lines.len();
        while line < values.len()
            invariant
                line <= values@.len(),
                total == lines@.len(),
                header_offset == self.header_height(),
                cells == texts(values@),
                max_len == column_width(title@, cells),
                lines@.len() >= header_offset + values@.len(),
                before.len() == lines@.len(),
                forall|k: int|
                    0 <= k < header_offset + line ==> (#[trigger] lines@[k])@ == before[k]
                        + self.added(k, last, title@, pad, cells),
                forall|k: int|
                    header_offset + line <= k < lines@.len() ==> (#[trigger] lines@[k])@
                        == before[k],
            decreases values@.len() - line,
        {
            proof {
                lemma_widest(cells, line as int);
            }
            self.add_value(
                last,
                pad,
                max_len,
                values[line].as_str(),
                &mut lines[header_offset + line],
            );
            line = line + 1;
        }
        assert forall|k: int| 0 <= k < lines@.len() implies (#[trigger] lines@[k])@ == before[k]
            + self.added(k, last, title@, pad, cells) by {
            if k >= header_offset + values@.len() {
                assert(before[k] + Seq::<char>::empty() =~= before[k]);
            }
        }
        assert(texts(lines@) =~= self.with_values(before, last, title@, pad, cells));
    }
}

} // verus!
