//! Datasets: byte payloads with a fingerprint, made from the bytes of files and
//! free of duplicates.

use crate::config::{DataSetConfig, DataSetMode};
use crate::vecs::{reversed, take_next};
use std::collections::HashSet;
use vstd::prelude::*;
use vstd::slice::{slice_subrange, slice_to_vec};

verus! {

broadcast use vstd::std_specs::hash::group_hash_axioms;

/// The 64-bit xxHash of a byte string, with the seed 0.
pub uninterp spec fn xx_hash64(bytes: Seq<u8>) -> u64;

/// `fasthash::xx::hash64`: the 64-bit xxHash of the bytes, which is the same
/// on every platform.
#[verifier::external_body]
fn fingerprint(bytes: &[u8]) -> (id: u64)
    ensures
        id == xx_hash64(bytes@),
{
    fasthash::xx::hash64(bytes)
}

/// One payload of a dataset, with the fingerprint of its bytes.
pub struct Datum {
    bytes: Vec<u8>,
    id: u64,
}

impl View for Datum {
    type V = Seq<u8>;

    closed spec fn view(&self) -> Seq<u8> {
        self.bytes@
    }
}

impl Datum {
    #[verifier::type_invariant]
    spec fn fingerprinted(self) -> bool {
        self.id == xx_hash64(self.bytes@)
    }

    /// A datum of the given bytes.
    pub fn new(bytes: Vec<u8>) -> (datum: Datum)
        ensures
            datum@ == bytes@,
    {
        let id = fingerprint(bytes.as_slice());
        Datum { bytes, id }
    }

    pub fn bytes(&self) -> (bytes: &[u8])
        ensures
            bytes@ == self@,
    {
        self.bytes.as_slice()
    }

    pub fn len(&self) -> (len: usize)
        ensures
            len == self@.len(),
    {
        self.bytes.len()
    }

    /// The fingerprint of the bytes.
    pub fn id(&self) -> (id: u64)
        ensures
            id == xx_hash64(self@),
    {
        proof {
            use_type_invariant(self);
        }
        self.id
    }
}

/// The chunks of `size` bytes that a file is cut into; the last one holds
/// what is left and may be shorter. An empty file has no chunk.
pub open spec fn chunks(file: Seq<u8>, size: nat) -> Seq<Seq<u8>>
    decreases file.len(),
{
    if file.len() == 0 || size == 0 {
        Seq::empty()
    } else if file.len() <= size {
        seq![file]
    } else {
        seq![file.take(size as int)] + chunks(file.skip(size as int), size)
    }
}

/// All files, one after the other.
pub open spec fn concatenated(files: Seq<Seq<u8>>) -> Seq<u8>
    decreases files.len(),
{
    if files.len() == 0 {
        Seq::empty()
    } else {
        concatenated(files.drop_last()) + files.last()
    }
}

/// The chunks of all files, in the order of the files.
pub open spec fn all_chunks(files: Seq<Seq<u8>>, size: nat) -> Seq<Seq<u8>>
    decreases files.len(),
{
    if files.len() == 0 {
        Seq::empty()
    } else {
        all_chunks(files.drop_last(), size) + chunks(files.last(), size)
    }
}

/// The payloads that the files give in a mode, duplicates included.
pub open spec fn payloads(mode: DataSetMode, files: Seq<Seq<u8>>) -> Seq<Seq<u8>> {
    match mode {
        DataSetMode::SeparateFiles => files,
        DataSetMode::ConcatenateFiles => seq![concatenated(files)],
        DataSetMode::Cut(size) => all_chunks(files, size as nat),
    }
}

/// An earlier payload has the fingerprint of the payload at `i`.
pub open spec fn seen_before(items: Seq<Seq<u8>>, i: int) -> bool {
    exists|j: int| 0 <= j < i && xx_hash64(#[trigger] items[j]) == xx_hash64(items[i])
}

/// The payloads without those whose fingerprint an earlier payload has, in
/// their first-seen order.
pub open spec fn first_seen(items: Seq<Seq<u8>>) -> Seq<Seq<u8>>
    decreases items.len(),
{
    if items.len() == 0 {
        Seq::empty()
    } else if seen_before(items, items.len() - 1) {
        first_seen(items.drop_last())
    } else {
        first_seen(items.drop_last()).push(items.last())
    }
}

/// No two payloads have the same fingerprint.
pub open spec fn distinct_fingerprints(items: Seq<Seq<u8>>) -> bool {
    forall|i: int, j: int|
        0 <= i < j < items.len() ==> xx_hash64(#[trigger] items[i]) != xx_hash64(
            #[trigger] items[j],
        )
}

/// The fingerprints of payloads.
pub open spec fn fingerprints(items: Seq<Seq<u8>>) -> Seq<u64> {
    Seq::new(items.len(), |i: int| xx_hash64(items[i]))
}

/// What `first_seen` keeps: each kept payload is one of the given ones, and
/// every fingerprint of the given payloads is the fingerprint of a kept one.
pub proof fn lemma_first_seen_members(items: Seq<Seq<u8>>)
    ensures
        first_seen(items).len() <= items.len(),
        forall|k: int|
            0 <= k < first_seen(items).len() ==> exists|i: int|
                0 <= i < items.len() && items[i] == #[trigger] first_seen(items)[k],
        forall|i: int|
            0 <= i < items.len() ==> exists|k: int|
                0 <= k < first_seen(items).len() && xx_hash64(first_seen(items)[k]) == xx_hash64(
                    #[trigger] items[i],
                ),
    decreases items.len(),
{
    if items.len() > 0 {
        let rest = items.drop_last();
        let last = items.len() - 1;
        lemma_first_seen_members(rest);
        let kept = first_seen(items);
        assert forall|k: int| 0 <= k < kept.len() implies exists|i: int|
            0 <= i < items.len() && items[i] == #[trigger] kept[k] by {
            if k < first_seen(rest).len() {
                let i = choose|i: int| 0 <= i < rest.len() && rest[i] == first_seen(rest)[k];
                assert(items[i] == kept[k]);
            } else {
                assert(items[last] == kept[k]);
            }
        }
        assert forall|i: int| 0 <= i < items.len() implies exists|k: int|
            0 <= k < kept.len() && xx_hash64(kept[k]) == xx_hash64(#[trigger] items[i]) by {
            if i < last {
                let k = choose|k: int|
                    0 <= k < first_seen(rest).len() && xx_hash64(first_seen(rest)[k]) == xx_hash64(
                        rest[i],
                    );
                assert(kept[k] == first_seen(rest)[k]);
            } else if seen_before(items, last) {
                let j = choose|j: int|
                    0 <= j < last && xx_hash64(#[trigger] items[j]) == xx_hash64(items[last]);
                let k = choose|k: int|
                    0 <= k < first_seen(rest).len() && xx_hash64(first_seen(rest)[k]) == xx_hash64(
                        rest[j],
                    );
                assert(kept[k] == first_seen(rest)[k]);
            } else {
                assert(kept[kept.len() - 1] == items[last]);
            }
        }
    }
}

/// After the removal of duplicates no two payloads have the same
/// fingerprint.
pub proof fn lemma_first_seen_distinct(items: Seq<Seq<u8>>)
    ensures
        distinct_fingerprints(first_seen(items)),
    decreases items.len(),
{
    if items.len() > 0 {
        let rest = items.drop_last();
        let last = items.len() - 1;
        lemma_first_seen_distinct(rest);
        lemma_first_seen_members(rest);
        if !seen_before(items, last) {
            let kept = first_seen(items);
            assert forall|i: int, j: int| 0 <= i < j < kept.len() implies xx_hash64(
                #[trigger] kept[i],
            ) != xx_hash64(#[trigger] kept[j]) by {
                if j == kept.len() - 1 {
                    let at = choose|at: int| 0 <= at < rest.len() && rest[at] == first_seen(rest)[i];
                    assert(items[at] == kept[i]);
                } else {
                    assert(kept[i] == first_seen(rest)[i]);
                    assert(kept[j] == first_seen(rest)[j]);
                }
            }
        }
    }
}

/// Where two of the payloads are the same bytes, the removal of duplicates
/// leaves fewer payloads than were given, and no two of them have the same
/// fingerprint.
pub proof fn lemma_duplicates_removed(items: Seq<Seq<u8>>, a: int, b: int)
    requires
        0 <= a < b < items.len(),
        items[a] == items[b],
    ensures
        first_seen(items).len() < items.len(),
        distinct_fingerprints(first_seen(items)),
    decreases items.len(),
{
    lemma_first_seen_distinct(items);
    let rest = items.drop_last();
    lemma_first_seen_members(rest);
    if b == items.len() - 1 {
        assert(xx_hash64(items[a]) == xx_hash64(items[b]));
        assert(seen_before(items, items.len() - 1));
    } else {
        assert(rest[a] == rest[b]);
        lemma_duplicates_removed(rest, a, b);
    }
}

/// Something is kept of payloads of which there is at least one.
pub proof fn lemma_first_seen_nonempty(items: Seq<Seq<u8>>)
    ensures
        first_seen(items).len() == 0 <==> items.len() == 0,
{
    lemma_first_seen_members(items);
    if items.len() > 0 {
        assert(exists|k: int|
            0 <= k < first_seen(items).len() && xx_hash64(first_seen(items)[k]) == xx_hash64(
                #[trigger] items[0],
            ));
    }
}

/// Why the bytes of files are no dataset.
#[derive(Clone, Copy, Debug, PartialEq, Eq, Structural)]
pub enum DataSetError {
    /// There is no file.
    NoFiles,
    /// The files are to be cut into chunks of no bytes.
    ZeroChunkSize,
    /// The files give no payload.
    Empty,
}

/// Why files are no dataset in a mode, if they are none.
pub open spec fn load_error(mode: DataSetMode, files: Seq<Seq<u8>>) -> Option<DataSetError> {
    if files.len() == 0 {
        Some(DataSetError::NoFiles)
    } else if mode == DataSetMode::Cut(0) {
        Some(DataSetError::ZeroChunkSize)
    } else if payloads(mode, files).len() == 0 {
        Some(DataSetError::Empty)
    } else {
        None
    }
}

/// The bytes of each item.
pub open spec fn bytes_of(items: Seq<Vec<u8>>) -> Seq<Seq<u8>> {
    Seq::new(items.len(), |i: int| items[i]@)
}

/// The bytes of each datum.
pub open spec fn contents_of(data: Seq<Datum>) -> Seq<Seq<u8>> {
    Seq::new(data.len(), |i: int| data[i]@)
}

/// A named collection of payloads, of which there is at least one and no two
/// have the same fingerprint.
pub struct DataSet {
    data: Vec<Datum>,
    name: String,
}

impl DataSet {
    #[verifier::type_invariant]
    spec fn well_formed(self) -> bool {
        &&& self.data@.len() > 0
        &&& distinct_fingerprints(contents_of(self.data@))
    }

    /// The bytes of each datum, in order.
    pub closed spec fn contents(self) -> Seq<Seq<u8>> {
        contents_of(self.data@)
    }

    /// The name of the dataset.
    pub closed spec fn spec_name(self) -> Seq<char> {
        self.name@
    }

    /// The data: at least one datum, and no two with the same fingerprint.
    pub fn data(&self) -> (data: &[Datum])
        ensures
            contents_of(data@) == self.contents(),
            data@.len() > 0,
            distinct_fingerprints(self.contents()),
    {
        proof {
            use_type_invariant(self);
        }
        self.data.as_slice()
    }

    pub fn name(&self) -> (name: &str)
        ensures
            name@ == self.spec_name(),
    {
        self.name.as_str()
    }

    /// `self` is the dataset that the files give under `config`.
    pub open spec fn loaded_from(self, config: DataSetConfig, files: Seq<Seq<u8>>) -> bool {
        &&& self.spec_name() == config.name@
        &&& self.contents() == first_seen(payloads(config.mode, files))
    }

    /// The dataset that the bytes of the files give under `config`: the
    /// payloads of the mode, without those whose fingerprint an earlier one
    /// has.
    pub fn load(config: &DataSetConfig, file_data: Vec<Vec<u8>>) -> (loaded: Result<
        DataSet,
        DataSetError,
    >)
        ensures
            match loaded {
                Ok(data_set) => load_error(config.mode, bytes_of(file_data@)) is None
                    && data_set.loaded_from(*config, bytes_of(file_data@)),
                Err(e) => load_error(config.mode, bytes_of(file_data@)) == Some(e),
            },
    {
        let ghost files = bytes_of(file_data@);
        if file_data.len() == 0 {
            return Err(DataSetError::NoFiles);
        }
        let items = match config.mode {
            DataSetMode::ConcatenateFiles => {
                let mut items: Vec<Vec<u8>> = Vec::new();
                items.push(concatenate(&file_data));
                assert(bytes_of(items@) =~= seq![concatenated(files)]);
                items
            },
            DataSetMode::Cut(size) => {
                if size == 0 {
                    return Err(DataSetError::ZeroChunkSize);
                }
                cut_all(&file_data, size)
            },
            DataSetMode::SeparateFiles => file_data,
        };
        assert(bytes_of(items@) == payloads(config.mode, files));
        let data = remove_duplicates(items);
        proof {
            lemma_first_seen_nonempty(payloads(config.mode, files));
            lemma_first_seen_distinct(payloads(config.mode, files));
        }
        if data.len() == 0 {
            return Err(DataSetError::Empty);
        }
        Ok(DataSet { name: config.name.clone(), data })
    }
}

/// All files, one after the other.
pub fn concatenate(files: &Vec<Vec<u8>>) -> (all: Vec<u8>)
    ensures
        all@ == concatenated(bytes_of(files@)),
{
    let mut all: Vec<u8> = Vec::new();
    let mut i: usize = 0;
    let ghost view = bytes_of(files@);
    assert(view.take(0) =~= Seq::<Seq<u8>>::empty());
    while i < files.len()
        invariant
            i <= files@.len(),
            view == bytes_of(files@),
            all@ == concatenated(view.take(i as int)),
        decreases files@.len() - i,
    {
        let ghost before = all@;
        all.extend_from_slice(files[i].as_slice());
        proof {
            assert(view.take(i + 1).drop_last() =~= view.take(i as int));
            assert(view.take(i + 1).last() == files@[i as int]@);
            assert(all@ =~= before + files@[i as int]@);
        }
        i = i + 1;
    }
    assert(view.take(files@.len() as int) =~= view);
    all
}

/// The chunks of `size` bytes of one file, added to `out`.
pub fn cut(file: &[u8], size: usize, out: &mut Vec<Vec<u8>>)
    requires
        size > 0,
    ensures
        bytes_of(final(out)@) == bytes_of(old(out)@) + chunks(file@, size as nat),
{
    let mut start: usize = 0;
    assert(file@.skip(0) =~= file@);
    assert(bytes_of(out@) =~= bytes_of(old(out)@) + Seq::<Seq<u8>>::empty());
    let ghost mut done: Seq<Seq<u8>> = Seq::empty();
    while start < file.len()
        invariant
            size > 0,
            start <= file@.len(),
            bytes_of(out@) == bytes_of(old(out)@) + done,
            chunks(file@, size as nat) == done + chunks(file@.skip(start as int), size as nat),
        decreases file@.len() - start,
    {
        let ghost rest = file@.skip(start as int);
        let end: usize = if file.len() - start <= size {
            file.len()
        } else {
            start + size
        };
        let chunk = slice_to_vec(slice_subrange(file, start, end));
        let ghost before = bytes_of(out@);
        out.push(chunk);
        proof {
            assert(bytes_of(out@) =~= before.push(chunk@));
            if file@.len() - start <= size {
                assert(chunk@ =~= rest);
                assert(file@.skip(end as int).len() == 0);
                assert(chunks(file@.skip(end as int), size as nat) =~= Seq::<Seq<u8>>::empty());
                assert(chunks(rest, size as nat) =~= seq![rest]);
            } else {
                assert(chunk@ =~= rest.take(size as int));
                assert(rest.skip(size as int) =~= file@.skip(end as int));
            }
            assert(done + chunks(rest, size as nat) =~= done.push(chunk@) + chunks(
                file@.skip(end as int),
                size as nat,
            ));
            done = done.push(chunk@);
        }
        start = end;
    }
    assert(chunks(file@.skip(start as int), size as nat) =~= Seq::<Seq<u8>>::empty());
}

/// The chunks of `size` bytes of all files.
pub fn cut_all(files: &Vec<Vec<u8>>, size: usize) -> (out: Vec<Vec<u8>>)
    requires
        size > 0,
    ensures
        bytes_of(out@) == all_chunks(bytes_of(files@), size as nat),
{
    let mut out: Vec<Vec<u8>> = Vec::new();
    let mut i: usize = 0;
    let ghost view = bytes_of(files@);
    assert(view.take(0) =~= Seq::<Seq<u8>>::empty());
    assert(bytes_of(out@) =~= Seq::<Seq<u8>>::empty());
    while i < files.len()
        invariant
            size > 0,
            i <= files@.len(),
            view == bytes_of(files@),
            bytes_of(out@) == all_chunks(view.take(i as int), size as nat),
        decreases files@.len() - i,
    {
        cut(files[i].as_slice(), size, &mut out);
        proof {
            assert(view.take(i + 1).drop_last() =~= view.take(i as int));
            assert(view.take(i + 1).last() == files@[i as int]@);
        }
        i = i + 1;
    }
    assert(view.take(files@.len() as int) =~= view);
    out
}

/// The payloads as data, without those whose fingerprint an earlier payload
/// has.
pub fn remove_duplicates(items: Vec<Vec<u8>>) -> (data: Vec<Datum>)
    ensures
        contents_of(data@) == first_seen(bytes_of(items@)),
{
    let ghost all = items@;
    let ghost given = bytes_of(items@);
    let mut data: Vec<Datum> = Vec::new();
    let mut ids: HashSet<u64> = HashSet::new();
    let mut rest = reversed(items);
    let ghost mut taken: int = 0;
    proof {
        assert(rest@ =~= all.reverse().take(all.len() - 0));
        assert(given.take(0) =~= Seq::<Seq<u8>>::empty());
        assert(contents_of(data@) =~= Seq::<Seq<u8>>::empty());
    }
    while rest.len() > 0
        invariant
            0 <= taken <= all.len(),
            given == bytes_of(all),
            rest@ == all.reverse().take(all.len() - taken),
            contents_of(data@) == first_seen(given.take(taken)),
            forall|id: u64|
                ids@.contains(id) <==> exists|j: int|
                    0 <= j < taken && xx_hash64(#[trigger] given[j]) == id,
        decreases rest@.len(),
    {
        let ghost before = contents_of(data@);
        let item = take_next(&mut rest, Ghost(all), Ghost(taken));
        let datum = Datum::new(item);
        proof {
            assert(datum@ == given[taken]);
            assert(given.take(taken + 1).drop_last() =~= given.take(taken));
            assert(seen_before(given.take(taken + 1), taken) <==> exists|j: int|
                0 <= j < taken && xx_hash64(#[trigger] given[j]) == xx_hash64(given[taken])) by {
                if seen_before(given.take(taken + 1), taken) {
                    let j = choose|j: int|
                        0 <= j < taken && xx_hash64(#[trigger] given.take(taken + 1)[j])
                            == xx_hash64(given.take(taken + 1)[taken]);
                    assert(given[j] == given.take(taken + 1)[j]);
                }
                if exists|j: int|
                    0 <= j < taken && xx_hash64(#[trigger] given[j]) == xx_hash64(given[taken]) {
                    let j = choose|j: int|
                        0 <= j < taken && xx_hash64(#[trigger] given[j]) == xx_hash64(given[taken]);
                    assert(given.take(taken + 1)[j] == given[j]);
                }
            }
        }
        let id = datum.id();
        let ghost old_ids = ids@;
        if ids.insert(id) {
            data.push(datum);
            proof {
                assert(contents_of(data@) =~= before.push(given[taken]));
            }
        }
        proof {
            assert forall|other: u64| ids@.contains(other) <==> exists|j: int|
                0 <= j < taken + 1 && xx_hash64(#[trigger] given[j]) == other by {
                if ids@.contains(other) {
                    if old_ids.contains(other) {
                        let j = choose|j: int|
                            0 <= j < taken && xx_hash64(#[trigger] given[j]) == other;
                        assert(0 <= j < taken + 1);
                    } else {
                        assert(xx_hash64(given[taken]) == other);
                    }
                }
                if exists|j: int| 0 <= j < taken + 1 && xx_hash64(#[trigger] given[j]) == other {
                    let j = choose|j: int|
                        0 <= j < taken + 1 && xx_hash64(#[trigger] given[j]) == other;
                    if j < taken {
                        assert(old_ids.contains(other));
                    }
                }
            }
            taken = taken + 1;
        }
    }
    assert(given.take(given.len() as int) =~= given);
    data
}

/// Each dataset is the one that its files give under its configuration.
pub open spec fn all_loaded(
    data_sets: Seq<DataSet>,
    configs: Seq<DataSetConfig>,
    files: Seq<Vec<Vec<u8>>>,
) -> bool {
    &&& data_sets.len() == configs.len()
    &&& forall|i: int|
        0 <= i < data_sets.len() ==> (#[trigger] data_sets[i]).loaded_from(
            configs[i],
            bytes_of(files[i]@),
        )
}

/// The datasets that the files give under the configurations, where the
/// files at a place are those of the configuration at that place. The first
/// dataset that cannot be loaded ends the loading.
pub fn load_data_sets(configs: &[DataSetConfig], files: Vec<Vec<Vec<u8>>>) -> (loaded: Result<
    Vec<DataSet>,
    DataSetError,
>)
    requires
        configs@.len() == files@.len(),
    ensures
        match loaded {
            Ok(data_sets) => all_loaded(data_sets@, configs@, files@) && forall|i: int|
                0 <= i < configs@.len() ==> load_error(
                    (#[trigger] configs@[i]).mode,
                    bytes_of(files@[i]@),
                ) is None,
            Err(e) => exists|i: int|
                0 <= i < configs@.len() && load_error(
                    (#[trigger] configs@[i]).mode,
                    bytes_of(files@[i]@),
                ) == Some(e) && forall|j: int|
                    0 <= j < i ==> load_error(
                        (#[trigger] configs@[j]).mode,
                        bytes_of(files@[j]@),
                    ) is None,
        },
{
    let ghost given = files@;
    let mut rest = reversed(files);
    let mut data_sets: Vec<DataSet> = Vec::new();
    let mut at: usize = 0;
    assert(rest@ =~= given.reverse().take(given.len() - 0));
    while at < configs.len()
        invariant
            at <= configs@.len(),
            given == files@,
            given.len() == configs@.len(),
            rest@ == given.reverse().take(given.len() - at),
            data_sets@.len() == at,
            forall|i: int|
                0 <= i < at ==> (#[trigger] data_sets@[i]).loaded_from(
                    configs@[i],
                    bytes_of(given[i]@),
                ),
            forall|i: int|
                0 <= i < at ==> load_error((#[trigger] configs@[i]).mode, bytes_of(given[i]@))
                    is None,
        decreases configs@.len() - at,
    {
        let file_data = take_next(&mut rest, Ghost(given), Ghost(at as int));
        match DataSet::load(&configs[at], file_data) {
            Ok(data_set) => {
                data_sets.push(data_set);
            },
            Err(e) => {
                assert(load_error(configs@[at as int].mode, bytes_of(given[at as int]@)) == Some(
                    e,
                ));
                return Err(e);
            },
        }
        at = at + 1;
    }
    Ok(data_sets)
}

/// Loading the same files under the same configuration twice gives the same
/// payloads with the same fingerprints, in the same order.
pub proof fn lemma_load_repeatable(
    first: DataSet,
    second: DataSet,
    config: DataSetConfig,
    files: Seq<Seq<u8>>,
)
    requires
        first.loaded_from(config, files),
        second.loaded_from(config, files),
    ensures
        first.contents() == second.contents(),
        fingerprints(first.contents()) == fingerprints(second.contents()),
        first.spec_name() == second.spec_name(),
{
}

} // verus!
