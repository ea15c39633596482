//! The display-list encoder: turns each run of a row into a record, reusing
//! or registering blobs in the store as it goes.

use crate::mode::Mode;
use crate::store::{
    lemma_lookup_from, lookup, registered, Blob, BlobName, BlobView, Store, StoreError,
};
use crate::tile::{continuous, indices_of, is_continuous, run_indices, Config, Run, RunView, Tile};
use vstd::prelude::*;

verus! {

/// How a record reaches the graphics of its run.
#[derive(Clone, Copy, Debug, PartialEq, Eq, Structural)]
pub enum Encoding {
    /// Straight from tile memory, from the tile at index `base` on.
    Continuous { base: u32 },
    /// From the pixel bytes of a blob; the run starts `slot` index slots
    /// into the blob's content, which is `slot` times the bytes of one slot
    /// into its bytes.
    Immediate { blob: BlobName, slot: usize },
    /// Through the index array of a blob, from entry `slot` on.
    Indirect { blob: BlobName, slot: usize },
}

/// One record of a display list.
#[derive(Clone, Copy, Debug, PartialEq, Eq, Structural)]
pub struct Record {
    /// Column of the run's first cell.
    pub first: usize,
    /// Column of the run's last cell.
    pub last: usize,
    pub mode: Mode,
    pub palette: u8,
    /// Width of the run in the unit of its encoding: bytes when the record
    /// points at graphics, index slots when it points at an index array.
    pub width: usize,
    pub encoding: Encoding,
}

impl Encoding {
    /// The record points at graphics, not at an index array.
    pub open spec fn spec_direct(self) -> bool {
        !(self is Indirect)
    }

    /// The record points at graphics, not at an index array.
    #[verifier::when_used_as_spec(spec_direct)]
    pub fn direct(self) -> (r: bool)
        ensures
            r == self.spec_direct(),
    {
        match self {
            Encoding::Indirect { .. } => false,
            _ => true,
        }
    }
}

/// A run can be encoded under a configuration: it holds between 1 and
/// the configured maximum of tiles and ends inside the addressable columns.
pub open spec fn encodable(run: RunView, config: Config) -> bool {
    &&& 1 <= run.tiles.len() <= config.max_run_length
    &&& 0 <= run.start
    &&& run.start + run.tiles.len() <= usize::MAX
}

/// Every run of the list can be encoded.
pub open spec fn all_encodable(runs: Seq<Run>, config: Config) -> bool {
    forall|i: int| 0 <= i < runs.len() ==> encodable((#[trigger] runs[i])@, config)
}

/// The run may take the continuous shortcut.
pub open spec fn shortcut(tiles: Seq<Tile>, config: Config) -> bool {
    continuous(tiles, config.tile_width) && config.spec_shortcut_allowed()
}

/// The width field of a record over `slots` index slots.
pub open spec fn record_width(slots: int, direct: bool, config: Config) -> int {
    if direct {
        slots * config.spec_bytes_per_tile()
    } else {
        slots
    }
}

/// The record of `run` with the given encoding.
pub open spec fn record_of(run: RunView, encoding: Encoding, config: Config) -> Record {
    Record {
        first: run.start as usize,
        last: (run.start + run.tiles.len() - 1) as usize,
        mode: run.tiles[0].mode,
        palette: run.tiles[0].palette,
        width: record_width(
            run_indices(run.tiles, config.spec_bytes_per_tile() as int).len() as int,
            encoding.spec_direct(),
            config,
        ) as usize,
        encoding,
    }
}

/// The encoding that points `slot` slots into a blob of the given kind.
pub open spec fn blob_encoding(blob: BlobName, immediate: bool, slot: int) -> Encoding {
    if immediate {
        Encoding::Immediate { blob, slot: slot as usize }
    } else {
        Encoding::Indirect { blob, slot: slot as usize }
    }
}

/// The blob that a run registers under `name` when the store holds nothing
/// to reuse.
pub open spec fn fresh_blob(run: RunView, name: BlobName, config: Config) -> BlobView {
    BlobView {
        name,
        content: run_indices(run.tiles, config.spec_bytes_per_tile() as int),
        immediate: config.immediate,
        tiles: run.tiles,
    }
}

/// The record of one run and the store after it. A continuous run takes the
/// shortcut, where that is allowed, and leaves the store alone. Otherwise
/// the run reuses the first entry that holds its index array as a window;
/// failing that, its index array is registered under `name`.
pub open spec fn encoded(store: Seq<BlobView>, run: RunView, name: BlobName, config: Config)
    -> Result<(Record, Seq<BlobView>), StoreError> {
    let content = run_indices(run.tiles, config.spec_bytes_per_tile() as int);
    if shortcut(run.tiles, config) {
        Ok((record_of(run, Encoding::Continuous { base: run.tiles[0].index }, config), store))
    } else {
        match lookup(store, content) {
            Some((i, p)) => Ok(
                (
                    record_of(run, blob_encoding(store[i].name, store[i].immediate, p), config),
                    store,
                ),
            ),
            None => match registered(store, fresh_blob(run, name, config)) {
                Ok(after) => Ok(
                    (record_of(run, blob_encoding(name, config.immediate, 0), config), after),
                ),
                Err(e) => Err(e),
            },
        }
    }
}

/// The records of the first `n` runs of row `row` and the store after
/// them; run `c` registers under the name `Row(row, c)` when it needs to.
pub open spec fn encoded_runs(
    store: Seq<BlobView>,
    runs: Seq<RunView>,
    row: usize,
    config: Config,
    n: int,
) -> Result<(Seq<Record>, Seq<BlobView>), StoreError>
    decreases n,
{
    if n <= 0 {
        Ok((Seq::empty(), store))
    } else {
        match encoded_runs(store, runs, row, config, n - 1) {
            Err(e) => Err(e),
            Ok((records, held)) => match encoded(
                held,
                runs[n - 1],
                BlobName::Row(row, (n - 1) as usize),
                config,
            ) {
                Err(e) => Err(e),
                Ok((record, after)) => Ok((records.push(record), after)),
            },
        }
    }
}

/// The records of a row and the store after it.
pub open spec fn encoded_row(store: Seq<BlobView>, runs: Seq<RunView>, row: usize, config: Config)
    -> Result<(Seq<Record>, Seq<BlobView>), StoreError> {
    encoded_runs(store, runs, row, config, runs.len() as int)
}

/// The index array of a run has one or two slots per tile.
pub proof fn lemma_run_indices_len(tiles: Seq<Tile>, bytes_per_tile: int)
    ensures
        tiles.len() <= run_indices(tiles, bytes_per_tile).len() <= 2 * tiles.len(),
    decreases tiles.len(),
{
    if tiles.len() > 0 {
        lemma_run_indices_len(tiles.drop_last(), bytes_per_tile);
    }
}

fn make_record(run: &Run, slots: usize, encoding: Encoding, config: &Config) -> (r: Record)
    requires
        config.valid(),
        encodable(run@, *config),
        slots == run_indices(run@.tiles, config.spec_bytes_per_tile() as int).len(),
    ensures
        r == record_of(run@, encoding, *config),
        r.first == run@.start,
        r.last == run@.start + run@.tiles.len() - 1,
        r.width == record_width(slots as int, encoding.spec_direct(), *config),
{
    proof {
        lemma_run_indices_len(run@.tiles, config.spec_bytes_per_tile() as int);
    }
    let first: Tile = run.tiles[0];
    let width: usize = if encoding.direct() {
        slots * config.bytes_per_tile()
    } else {
        slots
    };
    Record {
        first: run.start,
        last: run.start + (run.tiles.len() - 1),
        mode: first.mode,
        palette: first.palette,
        width,
        encoding,
    }
}

fn copy_tiles(tiles: &Vec<Tile>) -> (r: Vec<Tile>)
    ensures
        r@ == tiles@,
{
    let mut out: Vec<Tile> = Vec::new();
    let mut i: usize = 0;
    while i < tiles.len()
        invariant
            i <= tiles.len(),
            out@ == tiles@.take(i as int),
        decreases tiles.len() - i,
    {
        out.push(tiles[i]);
        assert(out@ =~= tiles@.take(i + 1));
        i += 1;
    }
    assert(tiles@.take(tiles.len() as int) =~= tiles@);
    out
}

/// Encodes one run against the store; `name` is the name under which its
/// index array is registered if nothing in the store can be reused.
pub fn encode_run(store: &mut Store, run: &Run, name: BlobName, config: &Config) -> (r: Result<
    Record,
    StoreError,
>)
    requires
        config.valid(),
        encodable(run@, *config),
    ensures
        match encoded(old(store)@, run@, name, *config) {
            Ok((record, after)) => r == Ok::<Record, StoreError>(record) && final(store)@ == after,
            Err(e) => r == Err::<Record, StoreError>(e) && final(store)@ == old(store)@,
        },
{
    let content = indices_of(&run.tiles, config);
    let slots: usize = content.len();
    if config.shortcut_allowed() && is_continuous(&run.tiles, config) {
        let first: Tile = run.tiles[0];
        return Ok(make_record(run, slots, Encoding::Continuous { base: first.index }, config));
    }
    match store.find(&content) {
        Some(f) => {
            proof {
                lemma_lookup_from(store@, content@, 0);
            }
            let held = store.entry(f.entry);
            let encoding = if held.immediate {
                Encoding::Immediate { blob: held.name, slot: f.offset }
            } else {
                Encoding::Indirect { blob: held.name, slot: f.offset }
            };
            Ok(make_record(run, slots, encoding, config))
        },
        None => {
            let encoding = if config.immediate {
                Encoding::Immediate { blob: name, slot: 0 }
            } else {
                Encoding::Indirect { blob: name, slot: 0 }
            };
            let blob = Blob {
                name,
                content,
                immediate: config.immediate,
                tiles: copy_tiles(&run.tiles),
            };
            match store.register(blob) {
                Ok(()) => Ok(make_record(run, slots, encoding, config)),
                Err(e) => Err(e),
            }
        },
    }
}

fn encode_each(store: &mut Store, runs: &Vec<Run>, row: usize, config: &Config) -> (r: Result<
    Vec<Record>,
    StoreError,
>)
    requires
        config.valid(),
        all_encodable(runs@, *config),
    ensures
        match encoded_row(old(store)@, crate::tile::run_views(runs@), row, *config) {
            Ok((records, after)) => r.is_ok() && r.unwrap()@ == records && final(store)@ == after,
            Err(e) => r == Err::<Vec<Record>, StoreError>(e),
        },
{
    let ghost views = crate::tile::run_views(runs@);
    let mut records: Vec<Record> = Vec::new();
    let mut c: usize = 0;
    while c < runs.len()
        invariant
            c <= runs.len(),
            config.valid(),
            all_encodable(runs@, *config),
            views == crate::tile::run_views(runs@),
            encoded_runs(old(store)@, views, row, *config, c as int) == Ok::<
                (Seq<Record>, Seq<BlobView>),
                StoreError,
            >((records@, store@)),
        decreases runs.len() - c,
    {
        assert(views[c as int] == runs@[c as int]@);
        match encode_run(store, &runs[c], BlobName::Row(row, c), config) {
            Ok(record) => {
                records.push(record);
            },
            Err(e) => {
                proof {
                    lemma_encoded_runs_fail(old(store)@, views, row, *config, c + 1, runs.len() as int);
                }
                return Err(e);
            },
        }
        c += 1;
    }
    Ok(records)
}

/// Encodes the runs of row `row`, in order. On success the store holds, in
/// addition, the blobs that the row had to register. Against a store in
/// which every blob of a row comes from a row above, this never fails.
pub fn encode_row(store: &mut Store, runs: &Vec<Run>, row: usize, config: &Config) -> (r: Result<
    Vec<Record>,
    StoreError,
>)
    requires
        config.valid(),
        all_encodable(runs@, *config),
    ensures
        match encoded_row(old(store)@, crate::tile::run_views(runs@), row, *config) {
            Ok((records, after)) => r.is_ok() && r.unwrap()@ == records && final(store)@ == after,
            Err(e) => r == Err::<Vec<Record>, StoreError>(e),
        },
        rows_before(old(store)@, row as int, 0) ==> r.is_ok() && rows_before(
            final(store)@,
            row + 1,
            0,
        ),
{
    let count: usize = runs.len();
    proof {
        if rows_before(store@, row as int, 0) {
            let views = crate::tile::run_views(runs@);
            lemma_encoded_runs_succeed(store@, views, row, *config, count as int);
            lemma_rows_before_next(
                encoded_row(store@, views, row, *config).unwrap().1,
                row as int,
                count as int,
            );
        }
    }
    encode_each(store, runs, row, config)
}

/// What lies before the end of a row lies before the start of the next.
pub proof fn lemma_rows_before_next(store: Seq<BlobView>, row: int, place: int)
    requires
        rows_before(store, row, place),
    ensures
        rows_before(store, row + 1, 0),
{
    assert forall|i: int| 0 <= i < store.len() implies match (#[trigger] store[i]).name {
        BlobName::Row(r, k) => r < row + 1 || (r == row + 1 && k < 0),
        BlobName::Sequence(_) => true,
    } by {
        assert(match store[i].name {
            BlobName::Row(r, k) => r < row || (r == row && k < place),
            BlobName::Sequence(_) => true,
        });
    }
}

/// Once a run fails, the row fails with the same error.
pub proof fn lemma_encoded_runs_fail(
    store: Seq<BlobView>,
    runs: Seq<RunView>,
    row: usize,
    config: Config,
    n: int,
    m: int,
)
    requires
        n <= m,
        encoded_runs(store, runs, row, config, n).is_err(),
    ensures
        encoded_runs(store, runs, row, config, m) == encoded_runs(store, runs, row, config, n),
    decreases m - n,
{
    if n < m {
        lemma_encoded_runs_fail(store, runs, row, config, n, m - 1);
    }
}

/// A run that has to register its index array adds exactly one entry to
/// the store, and no entry before it held that index array, not even as a
/// window.
pub proof fn lemma_fresh_blob_is_new(
    store: Seq<BlobView>,
    run: RunView,
    name: BlobName,
    config: Config,
)
    requires
        !shortcut(run.tiles, config),
        lookup(store, fresh_blob(run, name, config).content).is_none(),
        encoded(store, run, name, config).is_ok(),
    ensures
        encoded(store, run, name, config).unwrap().1 == store.push(fresh_blob(run, name, config)),
        forall|j: int|
            0 <= j < store.len() ==> !crate::window::has_window(
                (#[trigger] store[j]).content,
                fresh_blob(run, name, config).content,
            ),
{
    let blob = fresh_blob(run, name, config);
    lemma_lookup_from(store, blob.content, 0);
    crate::store::lemma_name_index_from(store, name, 0);
    crate::store::lemma_held_from(store, blob, 0);
    crate::window::lemma_first_window_self(blob.content);
    crate::window::lemma_first_window(blob.content, blob.content);
    assert forall|j: int| 0 <= j < store.len() implies !crate::store::same_blob(
        #[trigger] store[j],
        blob,
    ) by {
        assert(!crate::window::has_window(store[j].content, blob.content));
    }
    match crate::store::name_index(store, name) {
        Some(i) => {
            assert(!crate::window::has_window(store[i].content, blob.content));
        },
        None => {},
    }
}

/// Reuse: once a run has been encoded through the store, every later run
/// with the same index array, encoded against that store or any store that
/// continues it, registers nothing and points where the first run points.
/// Every store that a later run or row meets is such a continuation,
/// because encoding only ever appends.
/// Where the first run had to register its index array, the later run
/// points at that entry, by the name the first run gave it, at slot 0.
pub proof fn lemma_second_use_reuses(
    store: Seq<BlobView>,
    more: Seq<BlobView>,
    first: RunView,
    first_name: BlobName,
    second: RunView,
    second_name: BlobName,
    config: Config,
)
    requires
        !shortcut(first.tiles, config),
        !shortcut(second.tiles, config),
        run_indices(first.tiles, config.spec_bytes_per_tile() as int) == run_indices(
            second.tiles,
            config.spec_bytes_per_tile() as int,
        ),
        encoded(store, first, first_name, config).is_ok(),
    ensures
        ({
            let (first_record, held) = encoded(store, first, first_name, config).unwrap();
            let later = encoded(held + more, second, second_name, config);
            &&& later.is_ok()
            &&& later.unwrap().1 == held + more
            &&& later.unwrap().0.encoding == first_record.encoding
            &&& held.len() <= store.len() + 1
            &&& lookup(store, fresh_blob(first, first_name, config).content).is_none() ==> {
                &&& held == store.push(fresh_blob(first, first_name, config))
                &&& first_record.encoding == blob_encoding(first_name, config.immediate, 0)
            }
        }),
{
    let content = run_indices(first.tiles, config.spec_bytes_per_tile() as int);
    let (first_record, held) = encoded(store, first, first_name, config).unwrap();
    match lookup(store, content) {
        Some((i, p)) => {
            lemma_lookup_from(store, content, 0);
            crate::store::lemma_lookup_stable(store, more, content);
            assert((store + more)[i] == store[i]);
        },
        None => {
            lemma_fresh_blob_is_new(store, first, first_name, config);
            let blob = fresh_blob(first, first_name, config);
            crate::store::lemma_lookup_appended(store, blob);
            crate::store::lemma_lookup_stable(held, more, content);
            assert((held + more)[store.len() as int] == blob);
        },
    }
}

/// Every blob that a row registered lies before place `place` of row
/// `row`: it was registered by a row above, or by a run of that row
/// before that place.
pub open spec fn rows_before(store: Seq<BlobView>, row: int, place: int) -> bool {
    forall|i: int|
        0 <= i < store.len() ==> match (#[trigger] store[i]).name {
            BlobName::Row(r, k) => r < row || (r == row && k < place),
            BlobName::Sequence(_) => true,
        }
}

/// A run whose name lies behind every name in the store is encoded without
/// conflict, and then its own name is the last that the store may hold.
pub proof fn lemma_encoded_succeeds(
    store: Seq<BlobView>,
    run: RunView,
    row: usize,
    place: usize,
    config: Config,
)
    requires
        rows_before(store, row as int, place as int),
    ensures
        encoded(store, run, BlobName::Row(row, place), config).is_ok(),
        rows_before(
            encoded(store, run, BlobName::Row(row, place), config).unwrap().1,
            row as int,
            place + 1,
        ),
{
    let name = BlobName::Row(row, place);
    crate::store::lemma_name_index_from(store, name, 0);
    match crate::store::name_index(store, name) {
        Some(i) => {
            assert(store[i].name == name);
        },
        None => {},
    }
    let after = store.push(fresh_blob(run, name, config));
    assert forall|i: int| 0 <= i < after.len() implies match (#[trigger] after[i]).name {
        BlobName::Row(r, k) => r < row || (r == row && k < place + 1),
        BlobName::Sequence(_) => true,
    } by {
        if i < store.len() {
            assert(after[i] == store[i]);
        }
    }
}

/// The runs of a row are encoded without conflict when every blob in the
/// store comes from a row above.
pub proof fn lemma_encoded_runs_succeed(
    store: Seq<BlobView>,
    runs: Seq<RunView>,
    row: usize,
    config: Config,
    n: int,
)
    requires
        rows_before(store, row as int, 0),
        0 <= n <= usize::MAX,
    ensures
        encoded_runs(store, runs, row, config, n).is_ok(),
        rows_before(encoded_runs(store, runs, row, config, n).unwrap().1, row as int, n),
    decreases n,
{
    if n > 0 {
        lemma_encoded_runs_succeed(store, runs, row, config, n - 1);
        let held = encoded_runs(store, runs, row, config, n - 1).unwrap().1;
        lemma_encoded_succeeds(held, runs[n - 1], row, (n - 1) as usize, config);
    }
}

/// A row leaves one record for each of its runs, over the columns of the
/// run.
pub proof fn lemma_encoded_runs_spans(
    store: Seq<BlobView>,
    runs: Seq<RunView>,
    row: usize,
    config: Config,
    n: int,
)
    requires
        0 <= n <= runs.len(),
        encoded_runs(store, runs, row, config, n).is_ok(),
        forall|i: int| 0 <= i < runs.len() ==> encodable(#[trigger] runs[i], config),
    ensures
        encoded_runs(store, runs, row, config, n).unwrap().0.len() == n,
        forall|i: int|
            0 <= i < n ==> {
                let record = #[trigger] encoded_runs(store, runs, row, config, n).unwrap().0[i];
                &&& record.first == runs[i].start
                &&& record.last == runs[i].end() - 1
                &&& record.mode == runs[i].tiles[0].mode
                &&& record.palette == runs[i].tiles[0].palette
            },
    decreases n,
{
    if n > 0 {
        lemma_encoded_runs_spans(store, runs, row, config, n - 1);
        let before = encoded_runs(store, runs, row, config, n - 1).unwrap().0;
        let after = encoded_runs(store, runs, row, config, n).unwrap().0;
        assert(encodable(runs[n - 1], config));
        assert forall|i: int| 0 <= i < n implies {
            let record = #[trigger] after[i];
            &&& record.first == runs[i].start
            &&& record.last == runs[i].end() - 1
            &&& record.mode == runs[i].tiles[0].mode
            &&& record.palette == runs[i].tiles[0].palette
        } by {
            if i < n - 1 {
                assert(after[i] == before[i]);
            }
        }
    }
}

/// Encoding a run only ever appends to the store: the store after the run
/// continues the store before it.
pub proof fn lemma_encoded_extends(store: Seq<BlobView>, run: RunView, name: BlobName, config: Config)
    requires
        encoded(store, run, name, config).is_ok(),
    ensures
        store.is_prefix_of(encoded(store, run, name, config).unwrap().1),
{
    let after = encoded(store, run, name, config).unwrap().1;
    if after != store {
        assert(after == store.push(fresh_blob(run, name, config)));
        assert(after.subrange(0, store.len() as int) =~= store);
    } else {
        assert(store.subrange(0, store.len() as int) =~= store);
    }
}

/// Encoding the runs of a row only ever appends to the store.
pub proof fn lemma_encoded_runs_extend(
    store: Seq<BlobView>,
    runs: Seq<RunView>,
    row: usize,
    config: Config,
    n: int,
)
    requires
        encoded_runs(store, runs, row, config, n).is_ok(),
    ensures
        store.is_prefix_of(encoded_runs(store, runs, row, config, n).unwrap().1),
    decreases n,
{
    if n > 0 {
        lemma_encoded_runs_extend(store, runs, row, config, n - 1);
        let held = encoded_runs(store, runs, row, config, n - 1).unwrap().1;
        lemma_encoded_extends(held, runs[n - 1], BlobName::Row(row, (n - 1) as usize), config);
        let after = encoded_runs(store, runs, row, config, n).unwrap().1;
        assert(after.subrange(0, store.len() as int) =~= held.subrange(0, store.len() as int));
    } else {
        assert(store.subrange(0, store.len() as int) =~= store);
    }
}

} // verus!
