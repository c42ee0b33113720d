//! A measurement as a row of a report: its fields by their key, with the
//! speed and the compression ratio that follow from them.

use crate::benchmark::BenchmarkResult;
use crate::config::wrap;
use crate::decimal::{max_dividend, quotient, Decimal};
use crate::entries::{find, has_key, lemma_lookup_push, lemma_lookup_update, lookup};
use crate::text::{begins_with, ends_with, finishes_with, same_text, starts_with};
use crate::value::{Cell, Scalar};
use vstd::prelude::*;
use vstd::string::*;

verus! {

/// `String::push`: the character is added at the end of the text.
pub assume_specification[ std::string::String::push ](text: &mut std::string::String, c: char)
    ensures
        final(text)@ == old(text)@.push(c),
;

/// The uppercase form of a character, which may be more than one character.
pub uninterp spec fn uppercase(c: char) -> Seq<char>;

/// `char::to_uppercase`, collected into a text.
#[verifier::external_body]
fn to_uppercase(c: char) -> (upper: String)
    ensures
        upper@ == uppercase(c),
{
    c.to_uppercase().collect()
}

/// A key in words: an underscore becomes a space, and the character after
/// one, like the first character, becomes uppercase.
pub open spec fn in_words(key: Seq<char>, capital: bool) -> Seq<char>
    decreases key.len(),
{
    if key.len() == 0 {
        Seq::empty()
    } else if key[0] == '_' {
        seq![' '] + in_words(key.drop_first(), true)
    } else if capital {
        uppercase(key[0]) + in_words(key.drop_first(), false)
    } else {
        seq![key[0]] + in_words(key.drop_first(), false)
    }
}

/// The title of the column of a key: a title of its own for four of the
/// keys, and the key in words for all others.
pub open spec fn title_of(key: Seq<char>) -> Seq<char> {
    if key == "speed_mbps"@ {
        "Speed MB/s"@
    } else if key == "cc"@ {
        "Compiler"@
    } else if key == "cc_version"@ {
        "Compiler Version"@
    } else if key == "cflags"@ {
        "Compiler Flags"@
    } else {
        in_words(key, true)
    }
}

/// Whether a key names a result of a measurement, of which the change
/// against a baseline is of interest: the ratio, a number of bytes, a
/// duration or a speed.
pub open spec fn names_result(key: Seq<char>) -> bool {
    ||| key == "ratio"@
    ||| finishes_with(key, "bytes"@)
    ||| begins_with(key, "duration_ns"@)
    ||| begins_with(key, "speed_mbps"@)
}

/// The texts joined by a space.
pub open spec fn joined(parts: Seq<String>) -> Seq<char>
    decreases parts.len(),
{
    if parts.len() == 0 {
        Seq::empty()
    } else if parts.len() == 1 {
        parts[0]@
    } else {
        joined(parts.drop_last()) + seq![' '] + parts.last()@
    }
}

/// The first ten characters of a text, or all of a shorter one.
pub open spec fn shortened(text: Seq<char>) -> Seq<char> {
    if text.len() <= 10 {
        text
    } else {
        text.take(10)
    }
}

/// A text, or no value where there is none.
pub open spec fn text_cell(text: Option<String>) -> Cell {
    match text {
        Some(t) => Cell::Text(t@),
        None => Cell::Missing,
    }
}

/// A count, or no value where there is none.
pub open spec fn count_cell(count: Option<u64>) -> Cell {
    match count {
        Some(n) => Cell::Integer(n),
        None => Cell::Missing,
    }
}

/// The speed in bytes per millisecond at which `bytes` bytes are handled in
/// `nanos` nanoseconds: a thousand times the bytes, divided by the
/// nanoseconds. There is none where the number of bytes is missing.
pub open spec fn speed_cell(bytes: Option<u64>, nanos: u64) -> Cell {
    match bytes {
        Some(n) => Cell::Decimal(quotient(1000 * n as nat, nanos as nat)),
        None => Cell::Missing,
    }
}

/// The compression ratio: the uncompressed bytes divided by the compressed
/// ones. There is none where a number of bytes is missing.
pub open spec fn ratio_cell(uncompressed: Option<u64>, compressed: Option<u64>) -> Cell {
    match (uncompressed, compressed) {
        (Some(u), Some(c)) => Cell::Decimal(quotient(u as nat, c as nat)),
        _ => Cell::Missing,
    }
}

/// The fields of the row of a measurement.
pub open spec fn fields_of(result: BenchmarkResult) -> Map<Seq<char>, Cell> {
    Map::<Seq<char>, Cell>::empty().insert(
        "commit"@,
        Cell::Text(shortened(result.zstd_commit@)),
    ).insert("revision"@, Cell::Text(result.zstd_revision@)).insert(
        "tag"@,
        text_cell(result.zstd_tag),
    ).insert("branch"@, text_cell(result.zstd_branch)).insert(
        "commit_timestamp"@,
        Cell::Integer(crate::config::wrapped(result.zstd_commit_timestamp)),
    ).insert("cc"@, Cell::Text(result.cc@)).insert(
        "cc_version"@,
        Cell::Text(result.cc_version@),
    ).insert("cflags"@, Cell::Text(result.cflags@)).insert(
        "command_prefix"@,
        Cell::Text(joined(result.command_prefix@)),
    ).insert("benchmark"@, Cell::Text(result.benchmark_name@)).insert(
        "config"@,
        text_cell(result.config_name),
    ).insert("dataset"@, Cell::Text(result.data_set@)).insert(
        "iters_per_run"@,
        Cell::Integer(result.iters_per_run),
    ).insert("runs"@, Cell::Integer(result.runs)).insert(
        "uncompressed_bytes"@,
        count_cell(result.uncompressed_bytes),
    ).insert("compressed_bytes"@, count_cell(result.compressed_bytes)).insert(
        "duration_ns"@,
        Cell::Integer(result.duration_ns.mean),
    ).insert("duration_ns_min"@, Cell::Integer(result.duration_ns.min)).insert(
        "duration_ns_max"@,
        Cell::Integer(result.duration_ns.max),
    ).insert("duration_ns_median"@, Cell::Integer(result.duration_ns.median)).insert(
        "duration_ns_stddev"@,
        Cell::Integer(result.duration_ns.std_dev),
    ).insert("ratio"@, ratio_cell(result.uncompressed_bytes, result.compressed_bytes)).insert(
        "speed_mbps"@,
        speed_cell(result.uncompressed_bytes, result.duration_ns.mean),
    ).insert(
        "speed_mbps_min"@,
        speed_cell(result.uncompressed_bytes, result.duration_ns.max),
    ).insert(
        "speed_mbps_max"@,
        speed_cell(result.uncompressed_bytes, result.duration_ns.min),
    ).insert(
        "speed_mbps_median"@,
        speed_cell(result.uncompressed_bytes, result.duration_ns.median),
    ).insert(
        "speed_mbps_stddev"@,
        speed_cell(result.uncompressed_bytes, result.duration_ns.std_dev),
    )
}

/// The texts joined by a space.
pub fn join(parts: &Vec<String>) -> (all: String)
    ensures
        all@ == joined(parts@),
{
    let mut all = String::new();
    let mut i: usize = 0;
    assert(parts@.take(0) =~= Seq::<String>::empty());
    while i < parts.len()
        invariant
            i <= parts@.len(),
            all@ == joined(parts@.take(i as int)),
        decreases parts@.len() - i,
    {
        let ghost before = all@;
        if i > 0 {
            all.push(' ');
        }
        all.append(parts[i].as_str());
        proof {
            let next = parts@.take(i + 1);
            assert(next.drop_last() =~= parts@.take(i as int));
            assert(next.last() == parts@[i as int]);
            if i == 0 {
                assert(all@ =~= parts@[0]@);
            } else {
                assert(all@ =~= before + seq![' '] + parts@[i as int]@);
            }
        }
        i = i + 1;
    }
    assert(parts@.take(parts@.len() as int) =~= parts@);
    all
}

/// The speed at which `bytes` bytes are handled in `nanos` nanoseconds.
pub fn speed(bytes: Option<u64>, nanos: u64) -> (value: Scalar)
    ensures
        value@ == speed_cell(bytes, nanos),
{
    match bytes {
        Some(n) => {
            assert(1000 * n <= max_dividend()) by (nonlinear_arith)
                requires
                    n <= u64::MAX,
                    max_dividend() == 1000 * (u64::MAX as nat),
            ;
            Scalar::Decimal(Decimal::ratio(1000 * (n as u128), nanos))
        },
        None => Scalar::Missing,
    }
}

/// The compression ratio of a number of uncompressed and of compressed bytes.
pub fn ratio(uncompressed: Option<u64>, compressed: Option<u64>) -> (value: Scalar)
    ensures
        value@ == ratio_cell(uncompressed, compressed),
{
    match (uncompressed, compressed) {
        (Some(u), Some(c)) => Scalar::Decimal(Decimal::ratio(u as u128, c)),
        _ => Scalar::Missing,
    }
}

/// The fields of one row of a report, by their key.
pub struct Row {
    values: Vec<(String, Scalar)>,
}

/// What entries hold under each key.
pub open spec fn fields(entries: Seq<(String, Scalar)>) -> Map<Seq<char>, Cell> {
    Map::new(
        |key: Seq<char>| has_key(entries, key),
        |key: Seq<char>| lookup(entries, key)->0@,
    )
}

impl View for Row {
    type V = Map<Seq<char>, Cell>;

    closed spec fn view(&self) -> Map<Seq<char>, Cell> {
        fields(self.values@)
    }
}

impl Row {
    /// A row without fields.
    pub fn new() -> (row: Row)
        ensures
            row@ == Map::<Seq<char>, Cell>::empty(),
    {
        let row = Row { values: Vec::new() };
        assert(row@ =~= Map::<Seq<char>, Cell>::empty());
        row
    }

    /// Puts a value under a key, in place of the one that the key had.
    pub fn insert(&mut self, key: String, value: Scalar)
        ensures
            final(self)@ == old(self)@.insert(key@, value@),
    {
        let ghost before = self.values@;
        match find(&self.values, key.as_str()) {
            Some(i) => {
                self.values.set(i, (key, value));
                proof {
                    assert forall|k: Seq<char>|
                        has_key(self.values@, k) == (has_key(before, k) || k == key@) && (has_key(
                            self.values@,
                            k,
                        ) ==> lookup(self.values@, k)->0@ == if k == key@ {
                            value@
                        } else {
                            lookup(before, k)->0@
                        }) by {
                        lemma_lookup_update(before, i as int, (key, value), k);
                    }
                    assert(self@ =~= old(self)@.insert(key@, value@));
                }
            },
            None => {
                self.values.push((key, value));
                proof {
                    assert forall|k: Seq<char>|
                        has_key(self.values@, k) == (has_key(before, k) || k == key@) && (has_key(
                            self.values@,
                            k,
                        ) ==> lookup(self.values@, k)->0@ == if k == key@ {
                            value@
                        } else {
                            lookup(before, k)->0@
                        }) by {
                        lemma_lookup_push(before, (key, value), k);
                    }
                    assert(self@ =~= old(self)@.insert(key@, value@));
                }
            },
        }
    }

    /// The value under a key.
    pub fn get(&self, key: &str) -> (value: Option<&Scalar>)
        ensures
            value is Some <==> self@.contains_key(key@),
            value matches Some(v) ==> v@ == self@[key@],
    {
        match find(&self.values, key) {
            Some(i) => Some(&self.values[i].1),
            None => None,
        }
    }

    /// The keys of the fields.
    pub fn keys(&self) -> (keys: Vec<&String>)
        ensures
            forall|i: int| 0 <= i < keys@.len() ==> self@.contains_key(#[trigger] keys@[i]@),
            forall|key: Seq<char>|
                self@.contains_key(key) ==> exists|i: int|
                    0 <= i < keys@.len() && (#[trigger] keys@[i])@ == key,
    {
        let mut keys: Vec<&String> = Vec::new();
        let mut i: usize = 0;
        while i < self.values.len()
            invariant
                i <= self.values@.len(),
                keys@.len() == i,
                forall|j: int| 0 <= j < i ==> (#[trigger] keys@[j])@ == self.values@[j].0@,
            decreases self.values@.len() - i,
        {
            keys.push(&self.values[i].0);
            i = i + 1;
        }
        proof {
            assert forall|j: int| 0 <= j < keys@.len() implies self@.contains_key(
                #[trigger] keys@[j]@,
            ) by {
                assert(self.values@[j].0@ == keys@[j]@);
            }
            assert forall|key: Seq<char>| self@.contains_key(key) implies exists|j: int|
                0 <= j < keys@.len() && (#[trigger] keys@[j])@ == key by {
                let j = choose|j: int|
                    0 <= j < self.values@.len() && (#[trigger] self.values@[j]).0@ == key;
                assert(keys@[j]@ == key);
            }
        }
        keys
    }

    /// The title of the column of a key.
    pub fn title(&self, key: &str) -> (title: String)
        ensures
            title@ == title_of(key@),
    {
        if same_text(key, "speed_mbps") {
            return String::from_str("Speed MB/s");
        }
        if same_text(key, "cc") {
            return String::from_str("Compiler");
        }
        if same_text(key, "cc_version") {
            return String::from_str("Compiler Version");
        }
        if same_text(key, "cflags") {
            return String::from_str("Compiler Flags");
        }
        let mut title = String::new();
        let mut prev_space = true;
        let count: usize = key.unicode_len();
        let mut i: usize = 0;
        assert(key@.skip(0) =~= key@);
        assert(title@ + in_words(key@, true) =~= in_words(key@, true));
        while i < count
            invariant
                i <= count,
                count == key@.len(),
                title@ + in_words(key@.skip(i as int), prev_space) == in_words(key@, true),
            decreases count - i,
        {
            let ghost before = title@;
            let ghost rest = key@.skip(i as int);
            let chr = key.get_char(i);
            assert(rest[0] == chr);
            assert(rest.drop_first() =~= key@.skip(i + 1));
            if chr == '_' {
                prev_space = true;
                title.push(' ');
                assert(title@ + in_words(key@.skip(i + 1), true) =~= before + (seq![' ']
                    + in_words(key@.skip(i + 1), true)));
            } else if prev_space {
                let upper = to_uppercase(chr);
                title.append(upper.as_str());
                prev_space = false;
                assert(title@ + in_words(key@.skip(i + 1), false) =~= before + (uppercase(chr)
                    + in_words(key@.skip(i + 1), false)));
            } else {
                title.push(chr);
                assert(title@ + in_words(key@.skip(i + 1), false) =~= before + (seq![chr]
                    + in_words(key@.skip(i + 1), false)));
            }
            i = i + 1;
        }
        assert(in_words(key@.skip(count as int), prev_space) =~= Seq::<char>::empty());
        assert(title@ =~= title@ + Seq::<char>::empty());
        title
    }

    /// Whether a key names a result of a measurement.
    pub fn is_result(&self, key: &str) -> (yes: bool)
        ensures
            yes == names_result(key@),
    {
        if same_text(key, "ratio") {
            true
        } else if ends_with(key, "bytes") {
            true
        } else if starts_with(key, "duration_ns") {
            true
        } else if starts_with(key, "speed_mbps") {
            true
        } else {
            false
        }
    }

    /// The row of a measurement.
    pub fn from(result: BenchmarkResult) -> (row: Row)
        ensures
            row@ == fields_of(result),
    {
        let mut row = Row::new();
        let uncompressed = result.uncompressed_bytes;
        let compressed = result.compressed_bytes;
        let stat = result.duration_ns;
        let commit = result.zstd_commit.as_str();
        let length: usize = commit.unicode_len();
        let short = if length <= 10 {
            commit.substring_char(0, length)
        } else {
            commit.substring_char(0, 10)
        };
        assert(short@ =~= shortened(result.zstd_commit@));
        row.insert(String::from_str("commit"), Scalar::Text(String::from_str(short)));
        row.insert(String::from_str("revision"), Scalar::Text(result.zstd_revision));
        row.insert(String::from_str("tag"), Scalar::from_text(result.zstd_tag));
        row.insert(String::from_str("branch"), Scalar::from_text(result.zstd_branch));
        row.insert(
            String::from_str("commit_timestamp"),
            Scalar::Integer(wrap(result.zstd_commit_timestamp)),
        );
        row.insert(String::from_str("cc"), Scalar::Text(result.cc));
        row.insert(String::from_str("cc_version"), Scalar::Text(result.cc_version));
        row.insert(String::from_str("cflags"), Scalar::Text(result.cflags));
        row.insert(
            String::from_str("command_prefix"),
            Scalar::Text(join(&result.command_prefix)),
        );
        row.insert(String::from_str("benchmark"), Scalar::Text(result.benchmark_name));
        row.insert(String::from_str("config"), Scalar::from_text(result.config_name));
        row.insert(String::from_str("dataset"), Scalar::Text(result.data_set));
        row.insert(String::from_str("iters_per_run"), Scalar::Integer(result.iters_per_run));
        row.insert(String::from_str("runs"), Scalar::Integer(result.runs));
        row.insert(String::from_str("uncompressed_bytes"), Scalar::from_count(uncompressed));
        row.insert(String::from_str("compressed_bytes"), Scalar::from_count(compressed));
        row.insert(String::from_str("duration_ns"), Scalar::Integer(stat.mean));
        row.insert(String::from_str("duration_ns_min"), Scalar::Integer(stat.min));
        row.insert(String::from_str("duration_ns_max"), Scalar::Integer(stat.max));
        row.insert(String::from_str("duration_ns_median"), Scalar::Integer(stat.median));
        row.insert(String::from_str("duration_ns_stddev"), Scalar::Integer(stat.std_dev));
        row.insert(String::from_str("ratio"), ratio(uncompressed, compressed));
        row.insert(String::from_str("speed_mbps"), speed(uncompressed, stat.mean));
        row.insert(String::from_str("speed_mbps_min"), speed(uncompressed, stat.max));
        row.insert(String::from_str("speed_mbps_max"), speed(uncompressed, stat.min));
        row.insert(String::from_str("speed_mbps_median"), speed(uncompressed, stat.median));
        row.insert(String::from_str("speed_mbps_stddev"), speed(uncompressed, stat.std_dev));
        row
    }
}

} // verus!
