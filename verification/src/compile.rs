//! The whole compilation: sequences are registered, every row is carved
//! and refined, then the rows are encoded from top to bottom against the
//! growing store, laid out, and gathered in the row-pointer table.

use crate::catalog::{Catalog, CatalogView};
use crate::cover::{row_placed, runs_placed};
use crate::encode::{
    all_encodable, encodable, encode_row, encoded_row, lemma_encoded_runs_spans, rows_before,
    Encoding, Record,
};
use crate::grid::{row_cells, Grid, GridView};
use crate::layout::{display_list, lay_out, list_views, row_table, share_rows, terminator, Item};
use crate::refine::{
    lemma_refined_ordered, lemma_refined_sound, lemma_refined_within, refine_runs, refined,
    runs_within,
};
use crate::segment::{segment, segment_row};
use crate::segment_proofs::{
    backgrounds_first, lemma_backgrounds_first, lemma_blank_row, lemma_segment_sound, run_sound,
    runs_sound,
};
use crate::sequence::{
    all_resolve, decl_views, only_sequences, register_sequences, seeded, DeclView, SequenceDecl,
    SequenceError,
};
use crate::store::{blobs_distinct, names_distinct, BlobName, BlobView, Store, StoreError};
use crate::tile::{run_views, Config, Run, RunView};
use vstd::prelude::*;

verus! {

/// Why a compilation was abandoned.
#[derive(Clone, Copy, Debug, PartialEq, Eq, Structural)]
pub enum CompileError {
    /// The configuration allows no run, or runs beyond what can be counted.
    InvalidConfig,
    /// A sequence could not be resolved or registered.
    Sequence(SequenceError),
    /// A blob could not be registered.
    Store(StoreError),
}

/// What a compilation yields.
pub struct Compiled {
    /// The store, with the sequences and every blob that a row registered.
    pub store: Store,
    /// The records of each row.
    pub rows: Vec<Vec<Record>>,
    /// The display list of each row.
    pub lists: Vec<Vec<Item>>,
    /// For each row, the row whose display list it points at.
    pub table: Vec<usize>,
}

/// The mathematical value of a [`Compiled`].
pub struct CompiledView {
    pub store: Seq<BlobView>,
    pub rows: Seq<Seq<Record>>,
    pub lists: Seq<Seq<Item>>,
    pub table: Seq<usize>,
}

/// The records of a list of rows, as mathematical values.
pub open spec fn record_views(rows: Seq<Vec<Record>>) -> Seq<Seq<Record>> {
    Seq::new(rows.len(), |i: int| rows[i]@)
}

impl View for Compiled {
    type V = CompiledView;

    open spec fn view(&self) -> CompiledView {
        CompiledView {
            store: self.store@,
            rows: record_views(self.rows@),
            lists: list_views(self.lists@),
            table: self.table@,
        }
    }
}

/// The runs of row `y`, carved and then refined against the store as the
/// sequences left it.
pub open spec fn planned_row(
    store: Seq<BlobView>,
    grid: GridView,
    c: CatalogView,
    config: Config,
    y: int,
) -> Seq<RunView> {
    refined(
        store,
        segment(row_cells(c.tiles, grid, y), config.max_run_length as int, config.left_to_right),
        config,
    )
}

/// The runs of every row.
pub open spec fn planned(store: Seq<BlobView>, grid: GridView, c: CatalogView, config: Config)
    -> Seq<Seq<RunView>> {
    Seq::new(grid.height, |y: int| planned_row(store, grid, c, config, y))
}

/// The records of the first `n` rows and the store after them: the rows
/// are encoded from the top down, each against the store that the rows
/// above it left.
pub open spec fn encoded_rows(store: Seq<BlobView>, plan: Seq<Seq<RunView>>, config: Config, n: int)
    -> Result<(Seq<Seq<Record>>, Seq<BlobView>), StoreError>
    decreases n,
{
    if n <= 0 {
        Ok((Seq::empty(), store))
    } else {
        match encoded_rows(store, plan, config, n - 1) {
            Err(e) => Err(e),
            Ok((rows, held)) => match encoded_row(held, plan[n - 1], (n - 1) as usize, config) {
                Err(e) => Err(e),
                Ok((records, after)) => Ok((rows.push(records), after)),
            },
        }
    }
}

/// The display lists of the rows.
pub open spec fn laid_out(rows: Seq<Seq<Record>>, config: Config) -> Seq<Seq<Item>> {
    Seq::new(rows.len(), |y: int| display_list(rows[y], config))
}

/// What the compilation of a grid yields.
pub open spec fn compiled(grid: GridView, c: CatalogView, decls: Seq<DeclView>, config: Config)
    -> Result<CompiledView, CompileError> {
    if !config.valid() {
        Err(CompileError::InvalidConfig)
    } else {
        match seeded(Seq::empty(), c, decls, config, decls.len() as int) {
            Err(e) => Err(CompileError::Sequence(e)),
            Ok(seed) => match encoded_rows(
                seed,
                planned(seed, grid, c, config),
                config,
                grid.height as int,
            ) {
                Err(e) => Err(CompileError::Store(e)),
                Ok((rows, store)) => Ok(
                    CompiledView {
                        store,
                        rows,
                        lists: laid_out(rows, config),
                        table: row_table(laid_out(rows, config)),
                    },
                ),
            },
        }
    }
}

/// Some record of the rows points into the blob called `name`.
pub open spec fn spec_used(rows: Seq<Seq<Record>>, name: BlobName) -> bool {
    exists|y: int, c: int|
        0 <= y < rows.len() && 0 <= c < rows[y].len() && points_into(
            (#[trigger] rows[y][c]).encoding,
            name,
        )
}

/// The encoding points into the blob called `name`.
pub open spec fn points_into(encoding: Encoding, name: BlobName) -> bool {
    match encoding {
        Encoding::Continuous { .. } => false,
        Encoding::Immediate { blob, .. } => blob == name,
        Encoding::Indirect { blob, .. } => blob == name,
    }
}

/// Once a row fails, the compilation fails with the same error.
pub proof fn lemma_encoded_rows_fail(
    store: Seq<BlobView>,
    plan: Seq<Seq<RunView>>,
    config: Config,
    n: int,
    m: int,
)
    requires
        n <= m,
        encoded_rows(store, plan, config, n).is_err(),
    ensures
        encoded_rows(store, plan, config, m) == encoded_rows(store, plan, config, n),
    decreases m - n,
{
    if n < m {
        lemma_encoded_rows_fail(store, plan, config, n, m - 1);
    }
}

/// Carves and refines one row.
pub fn plan_row(store: &Store, grid: &Grid, catalog: &Catalog, config: &Config, y: usize) -> (runs:
    Vec<Run>)
    requires
        config.valid(),
        y < grid@.height,
    ensures
        run_views(runs@) == planned_row(store@, grid@, catalog@, *config, y as int),
        all_encodable(runs@, *config),
{
    let cells = grid.row(catalog, y);
    let carved = segment_row(&cells, config);
    proof {
        let max = config.max_run_length as int;
        lemma_segment_sound(cells@, max, config.left_to_right);
        let views = run_views(carved@);
        assert forall|i: int| 0 <= i < carved@.len() implies crate::refine::addressable(
            (#[trigger] carved@[i])@,
        ) by {
            assert(run_sound(views[i], cells@, cells@.len() as int, max));
        }
        assert forall|i: int| 0 <= i < views.len() implies 1 <= (#[trigger] views[i]).tiles.len()
            <= max && 0 <= views[i].start && views[i].end() <= cells@.len() by {
            assert(run_sound(views[i], cells@, cells@.len() as int, max));
        }
        lemma_refined_within(store@, views, *config, 0, cells@.len() as int, max);
    }
    let runs = refine_runs(store, &carved, config);
    proof {
        let views = run_views(runs@);
        assert forall|i: int| 0 <= i < runs@.len() implies encodable(
            (#[trigger] runs@[i])@,
            *config,
        ) by {
            assert(views[i] == runs@[i]@);
            assert(1 <= views[i].tiles.len());
        }
    }
    runs
}

/// The runs of a list of rows, as mathematical values.
pub open spec fn plan_views(plan: Seq<Vec<Run>>) -> Seq<Seq<RunView>> {
    Seq::new(plan.len(), |y: int| run_views(plan[y]@))
}

/// Every run of every row can be encoded.
pub open spec fn plan_encodable(plan: Seq<Vec<Run>>, config: Config) -> bool {
    forall|y: int| 0 <= y < plan.len() ==> all_encodable((#[trigger] plan[y])@, config)
}

/// Carves and refines every row of a grid.
pub fn plan_rows(store: &Store, grid: &Grid, catalog: &Catalog, config: &Config) -> (plan: Vec<
    Vec<Run>,
>)
    requires
        config.valid(),
    ensures
        plan_views(plan@) == planned(store@, grid@, catalog@, *config),
        plan_encodable(plan@, *config),
{
    let height: usize = grid.height();
    let mut plan: Vec<Vec<Run>> = Vec::new();
    let mut y: usize = 0;
    while y < height
        invariant
            y <= height,
            height == grid@.height,
            config.valid(),
            plan@.len() == y,
            plan_encodable(plan@, *config),
            forall|k: int|
                0 <= k < y ==> run_views((#[trigger] plan@[k])@) == planned_row(
                    store@,
                    grid@,
                    catalog@,
                    *config,
                    k,
                ),
        decreases height - y,
    {
        let runs = plan_row(store, grid, catalog, config, y);
        plan.push(runs);
        y += 1;
    }
    assert(plan_views(plan@) =~= planned(store@, grid@, catalog@, *config));
    plan
}

/// The state of the encoding after the first `y` rows of a plan.
pub open spec fn encoded_so_far(
    seed: Seq<BlobView>,
    plan: Seq<Seq<RunView>>,
    config: Config,
    y: int,
    rows: Seq<Seq<Record>>,
    store: Seq<BlobView>,
) -> bool {
    encoded_rows(seed, plan, config, y) == Ok::<(Seq<Seq<Record>>, Seq<BlobView>), StoreError>(
        (rows, store),
    )
}

/// One more row is encoded, or the encoding fails for good.
proof fn lemma_encoded_next(
    seed: Seq<BlobView>,
    plan: Seq<Seq<RunView>>,
    config: Config,
    y: int,
    rows: Seq<Seq<Record>>,
    store: Seq<BlobView>,
)
    requires
        0 <= y < plan.len(),
        encoded_so_far(seed, plan, config, y, rows, store),
    ensures
        match encoded_row(store, plan[y], y as usize, config) {
            Ok((records, after)) => encoded_so_far(
                seed,
                plan,
                config,
                y + 1,
                rows.push(records),
                after,
            ),
            Err(e) => encoded_rows(seed, plan, config, plan.len() as int) == Err::<
                (Seq<Seq<Record>>, Seq<BlobView>),
                StoreError,
            >(e),
        },
{
    if encoded_row(store, plan[y], y as usize, config).is_err() {
        lemma_encoded_rows_fail(seed, plan, config, y + 1, plan.len() as int);
    }
}

/// Encodes the rows of a plan from the top down. Against a store that
/// holds no blob of a row, this never fails.
pub fn encode_rows(store: &mut Store, plan: &Vec<Vec<Run>>, config: &Config) -> (r: Result<
    Vec<Vec<Record>>,
    StoreError,
>)
    requires
        config.valid(),
        plan_encodable(plan@, *config),
    ensures
        match encoded_rows(old(store)@, plan_views(plan@), *config, plan@.len() as int) {
            Ok((rows, after)) => r matches Ok(out) && record_views(out@) == rows && final(store)@
                == after,
            Err(e) => r matches Err(x) && x == e,
        },
        rows_before(old(store)@, 0, 0) ==> r.is_ok(),
{
    let ghost views = plan_views(plan@);
    let ghost seed = store@;
    let mut rows: Vec<Vec<Record>> = Vec::new();
    assert(record_views(rows@) =~= Seq::<Seq<Record>>::empty());
    let mut y: usize = 0;
    while y < plan.len()
        invariant
            y <= plan.len(),
            config.valid(),
            plan_encodable(plan@, *config),
            views == plan_views(plan@),
            views.len() == plan@.len(),
            seed == old(store)@,
            rows_before(seed, 0, 0) ==> rows_before(store@, y as int, 0),
            encoded_so_far(seed, views, *config, y as int, record_views(rows@), store@),
        decreases plan.len() - y,
    {
        let ghost before = record_views(rows@);
        proof {
            assert(views[y as int] == run_views(plan@[y as int]@));
            lemma_encoded_next(seed, views, *config, y as int, before, store@);
        }
        match encode_row(store, &plan[y], y, config) {
            Err(e) => {
                return Err(e);
            },
            Ok(records) => {
                rows.push(records);
                assert(record_views(rows@) =~= before.push(records@));
            },
        }
        y += 1;
    }
    Ok(rows)
}

/// Lays out the display list of every row.
pub fn lay_out_rows(rows: &Vec<Vec<Record>>, config: &Config) -> (lists: Vec<Vec<Item>>)
    ensures
        list_views(lists@) == laid_out(record_views(rows@), *config),
{
    let mut lists: Vec<Vec<Item>> = Vec::new();
    let mut y: usize = 0;
    while y < rows.len()
        invariant
            y <= rows.len(),
            lists@.len() == y,
            forall|k: int|
                0 <= k < y ==> (#[trigger] lists@[k])@ == display_list(rows@[k]@, *config),
        decreases rows.len() - y,
    {
        lists.push(lay_out(&rows[y], config));
        y += 1;
    }
    assert(list_views(lists@) =~= laid_out(record_views(rows@), *config));
    lists
}

/// Compiles a grid: registers the sequences in an empty store, carves and
/// refines every row, encodes the rows from the top down, lays them out
/// and builds the row-pointer table.
pub fn compile(grid: &Grid, catalog: &Catalog, sequences: &Vec<SequenceDecl>, config: &Config) -> (r:
    Result<Compiled, CompileError>)
    ensures
        match compiled(grid@, catalog@, decl_views(sequences@), *config) {
            Ok(view) => r matches Ok(out) && out@ == view,
            Err(e) => r matches Err(x) && x == e,
        },
        r.is_ok() <==> config.valid() && all_resolve(catalog@, decl_views(sequences@)),
        r matches Ok(out) ==> names_distinct(out.store@) && blobs_distinct(out.store@),
{
    if !config.is_valid() {
        return Err(CompileError::InvalidConfig);
    }
    let mut store = Store::new();
    assert(only_sequences(store@, 0));
    match register_sequences(&mut store, catalog, sequences, config) {
        Err(e) => {
            return Err(CompileError::Sequence(e));
        },
        Ok(()) => {},
    }
    let ghost seed = store@;
    proof {
        lemma_only_sequences_before(seed, sequences@.len() as int);
    }
    let plan = plan_rows(&store, grid, catalog, config);
    assert(plan_views(plan@).len() == plan@.len());
    assert(plan@.len() == grid@.height);
    let rows = match encode_rows(&mut store, &plan, config) {
        Err(e) => {
            return Err(CompileError::Store(e));
        },
        Ok(rows) => rows,
    };
    let lists = lay_out_rows(&rows, config);
    let table = share_rows(&lists);
    store.distinct_entries();
    let out = Compiled { store, rows, lists, table };
    proof {
        let view = compiled(grid@, catalog@, decl_views(sequences@), *config).unwrap();
        assert(out@.store == view.store);
        assert(out@.rows == view.rows);
        assert(out@.lists == view.lists);
        assert(out@.table == view.table);
    }
    Ok(out)
}

/// Whether some record of the rows points into the blob called `name`.
pub fn is_used(rows: &Vec<Vec<Record>>, name: BlobName) -> (r: bool)
    ensures
        r == spec_used(record_views(rows@), name),
{
    let ghost views = record_views(rows@);
    let mut y: usize = 0;
    while y < rows.len()
        invariant
            y <= rows.len(),
            views == record_views(rows@),
            forall|k: int, c: int|
                0 <= k < y && 0 <= c < views[k].len() ==> !points_into(
                    (#[trigger] views[k][c]).encoding,
                    name,
                ),
        decreases rows.len() - y,
    {
        let row = &rows[y];
        assert(row@ == views[y as int]);
        let mut c: usize = 0;
        while c < row.len()
            invariant
                c <= row.len(),
                y < rows.len(),
                views == record_views(rows@),
                row@ == views[y as int],
                forall|k: int, c: int|
                    0 <= k < y && 0 <= c < views[k].len() ==> !points_into(
                        (#[trigger] views[k][c]).encoding,
                        name,
                    ),
                forall|m: int| 0 <= m < c ==> !points_into((#[trigger] row@[m]).encoding, name),
            decreases row.len() - c,
        {
            let hit: bool = match row[c].encoding {
                Encoding::Continuous { .. } => false,
                Encoding::Immediate { blob, .. } => blob == name,
                Encoding::Indirect { blob, .. } => blob == name,
            };
            if hit {
                assert(points_into(views[y as int][c as int].encoding, name));
                return true;
            }
            c += 1;
        }
        y += 1;
    }
    false
}

/// A grid in which no cell draws anything compiles, whenever its sequences
/// can be registered, to rows without records: every display list is the
/// terminator alone, no row registers a blob, and every row points at the
/// list of the first row.
pub proof fn lemma_blank_grid(grid: GridView, c: CatalogView, decls: Seq<DeclView>, config: Config)
    requires
        config.valid(),
        grid.cells.len() == grid.width * grid.height,
        forall|k: int| 0 <= k < grid.cells.len() ==> !resolved_drawn(c, #[trigger] grid.cells[k]),
        seeded(Seq::empty(), c, decls, config, decls.len() as int).is_ok(),
    ensures
        compiled(grid, c, decls, config).is_ok(),
        compiled(grid, c, decls, config).unwrap().store == seeded(
            Seq::empty(),
            c,
            decls,
            config,
            decls.len() as int,
        ).unwrap(),
        compiled(grid, c, decls, config).unwrap().lists.len() == grid.height,
        forall|y: int|
            0 <= y < grid.height ==> (#[trigger] compiled(
                grid,
                c,
                decls,
                config,
            ).unwrap().lists[y]) == terminator(config),
        forall|y: int|
            0 <= y < grid.height ==> (#[trigger] compiled(grid, c, decls, config).unwrap().rows[y])
                == Seq::<Record>::empty(),
{
    let seed = seeded(Seq::empty(), c, decls, config, decls.len() as int).unwrap();
    let plan = planned(seed, grid, c, config);
    assert forall|y: int| 0 <= y < grid.height implies (#[trigger] plan[y]) == Seq::<
        RunView,
    >::empty() by {
        let cells = row_cells(c.tiles, grid, y);
        assert forall|x: int| 0 <= x < cells.len() implies !(#[trigger] cells[x]).drawn() by {
            crate::grid::lemma_cell_in_grid(x, y, grid.width as int, grid.height as int);
            assert(!resolved_drawn(c, grid.cells[y * grid.width + x]));
        }
        lemma_blank_row(cells, config.max_run_length as int, config.left_to_right);
        crate::refine::lemma_refined_none(seed, config);
    }
    lemma_blank_rows(seed, plan, config, grid.height as int);
    let rows = encoded_rows(seed, plan, config, grid.height as int).unwrap().0;
    let out = compiled(grid, c, decls, config).unwrap();
    assert forall|y: int| 0 <= y < grid.height implies (#[trigger] out.lists[y]) == terminator(
        config,
    ) by {
        crate::layout::lemma_bare_list(config);
        assert(rows[y] == Seq::<Record>::empty());
    }
}

/// The grid value `v` resolves to a cell that draws something.
pub open spec fn resolved_drawn(c: CatalogView, v: u32) -> bool {
    crate::catalog::resolved(c.tiles, v).drawn()
}

proof fn lemma_blank_rows(store: Seq<BlobView>, plan: Seq<Seq<RunView>>, config: Config, n: int)
    requires
        0 <= n <= plan.len(),
        forall|y: int| 0 <= y < plan.len() ==> (#[trigger] plan[y]) == Seq::<RunView>::empty(),
    ensures
        encoded_rows(store, plan, config, n).is_ok(),
        encoded_rows(store, plan, config, n).unwrap().1 == store,
        encoded_rows(store, plan, config, n).unwrap().0.len() == n,
        forall|y: int|
            0 <= y < n ==> (#[trigger] encoded_rows(store, plan, config, n).unwrap().0[y]) == Seq::<
                Record,
            >::empty(),
    decreases n,
{
    if n > 0 {
        lemma_blank_rows(store, plan, config, n - 1);
        assert(plan[n - 1] == Seq::<RunView>::empty());
        let before = encoded_rows(store, plan, config, n - 1).unwrap().0;
        let after = encoded_rows(store, plan, config, n).unwrap().0;
        assert(after == before.push(Seq::<Record>::empty()));
        assert forall|y: int| 0 <= y < n implies (#[trigger] after[y]) == Seq::<Record>::empty() by {
            if y < n - 1 {
                assert(after[y] == before[y]);
            }
        }
    }
}

/// A store of sequences holds no blob of a row.
pub proof fn lemma_only_sequences_before(store: Seq<BlobView>, n: int)
    requires
        only_sequences(store, n),
    ensures
        rows_before(store, 0, 0),
{
    assert forall|i: int| 0 <= i < store.len() implies match (#[trigger] store[i]).name {
        BlobName::Row(r, k) => r < 0 || (r == 0 && k < 0),
        BlobName::Sequence(_) => true,
    } by {
        assert(match store[i].name {
            BlobName::Sequence(k) => k < n,
            BlobName::Row(_, _) => false,
        });
    }
}

/// Each row of a plan leaves one record for each of its runs, over the
/// columns of the run and with the mode and palette of its tiles.
pub proof fn lemma_encoded_rows_spans(
    store: Seq<BlobView>,
    plan: Seq<Seq<RunView>>,
    config: Config,
    n: int,
    y: int,
)
    requires
        0 <= y < n <= plan.len(),
        encoded_rows(store, plan, config, n).is_ok(),
        forall|i: int| 0 <= i < plan[y].len() ==> encodable(#[trigger] plan[y][i], config),
    ensures
        encoded_rows(store, plan, config, n).unwrap().0.len() == n,
        encoded_rows(store, plan, config, n).unwrap().0[y].len() == plan[y].len(),
        forall|i: int|
            0 <= i < plan[y].len() ==> {
                let record = #[trigger] encoded_rows(store, plan, config, n).unwrap().0[y][i];
                &&& record.first == plan[y][i].start
                &&& record.last == plan[y][i].end() - 1
                &&& record.mode == plan[y][i].tiles[0].mode
                &&& record.palette == plan[y][i].tiles[0].palette
            },
    decreases n,
{
    lemma_encoded_rows_len(store, plan, config, n);
    if y < n - 1 {
        lemma_encoded_rows_spans(store, plan, config, n - 1, y);
        let before = encoded_rows(store, plan, config, n - 1).unwrap().0;
        let after = encoded_rows(store, plan, config, n).unwrap().0;
        assert(after[y] == before[y]);
    } else {
        let held = encoded_rows(store, plan, config, n - 1).unwrap().1;
        lemma_encoded_runs_spans(held, plan[y], y as usize, config, plan[y].len() as int);
    }
}

proof fn lemma_encoded_rows_len(store: Seq<BlobView>, plan: Seq<Seq<RunView>>, config: Config, n: int)
    requires
        0 <= n,
        encoded_rows(store, plan, config, n).is_ok(),
    ensures
        encoded_rows(store, plan, config, n).unwrap().0.len() == n,
    decreases n,
{
    if n > 0 {
        lemma_encoded_rows_len(store, plan, config, n - 1);
    }
}

/// In every row of a compiled grid, the runs behind the records lay down
/// exactly the tiles that the cells of the row ask for, each at its
/// column: nothing is left out and nothing is laid twice. Each run holds
/// between 1 and the configured maximum of tiles, all compatible with one
/// another and each the tile that its cell gives to the layer of the run;
/// under the default policy the background runs come first. Each record
/// spans the columns of its run.
pub proof fn lemma_compiled_cover(
    grid: GridView,
    c: CatalogView,
    decls: Seq<DeclView>,
    config: Config,
    y: int,
)
    requires
        compiled(grid, c, decls, config).is_ok(),
        0 <= y < grid.height,
        grid.width <= usize::MAX,
    ensures
        ({
            let out = compiled(grid, c, decls, config).unwrap();
            let seed = seeded(Seq::empty(), c, decls, config, decls.len() as int).unwrap();
            let runs = planned_row(seed, grid, c, config, y);
            let cells = row_cells(c.tiles, grid, y);
            &&& runs_placed(runs) == row_placed(cells, cells.len() as int)
            &&& runs_within(runs, 0, grid.width as int, config.max_run_length as int)
            &&& runs_sound(runs, cells, grid.width as int, config.max_run_length as int)
            &&& !config.left_to_right ==> backgrounds_first(runs)
            &&& out.rows.len() == grid.height
            &&& out.rows[y].len() == runs.len()
            &&& forall|i: int|
                0 <= i < runs.len() ==> (#[trigger] out.rows[y][i]).first == runs[i].start
                    && out.rows[y][i].last == runs[i].end() - 1
        }),
{
    let max = config.max_run_length as int;
    let ltr = config.left_to_right;
    let seed = seeded(Seq::empty(), c, decls, config, decls.len() as int).unwrap();
    let plan = planned(seed, grid, c, config);
    let cells = row_cells(c.tiles, grid, y);
    let carved = segment(cells, max, ltr);
    let runs = planned_row(seed, grid, c, config, y);
    crate::cover::lemma_exact_cover(cells, max, ltr);
    crate::refine::lemma_refined_placed(seed, carved, config);
    lemma_segment_sound(cells, max, ltr);
    assert forall|i: int| 0 <= i < carved.len() implies 1 <= (#[trigger] carved[i]).tiles.len()
        <= max && 0 <= carved[i].start && carved[i].end() <= cells.len() by {
        assert(run_sound(carved[i], cells, cells.len() as int, max));
    }
    lemma_refined_within(seed, carved, config, 0, cells.len() as int, max);
    lemma_refined_sound(seed, carved, config, cells, cells.len() as int, max);
    if !ltr {
        lemma_backgrounds_first(cells, max);
        lemma_refined_ordered(seed, carved, config);
    }
    assert(plan[y] == runs);
    assert forall|i: int| 0 <= i < plan[y].len() implies encodable(
        #[trigger] plan[y][i],
        config,
    ) by {
        assert(1 <= runs[i].tiles.len());
    }
    lemma_encoded_rows_spans(seed, plan, config, grid.height as int, y);
}

/// Encoding rows only ever appends to the store: the store after any
/// number of rows continues the store that the rows started from.
pub proof fn lemma_encoded_rows_extend(
    store: Seq<BlobView>,
    plan: Seq<Seq<RunView>>,
    config: Config,
    n: int,
)
    requires
        encoded_rows(store, plan, config, n).is_ok(),
    ensures
        store.is_prefix_of(encoded_rows(store, plan, config, n).unwrap().1),
    decreases n,
{
    if n > 0 {
        lemma_encoded_rows_extend(store, plan, config, n - 1);
        let held = encoded_rows(store, plan, config, n - 1).unwrap().1;
        crate::encode::lemma_encoded_runs_extend(
            held,
            plan[n - 1],
            (n - 1) as usize,
            config,
            plan[n - 1].len() as int,
        );
        let after = encoded_rows(store, plan, config, n).unwrap().1;
        assert(after.subrange(0, store.len() as int) =~= held.subrange(0, store.len() as int));
    } else {
        assert(store.subrange(0, store.len() as int) =~= store);
    }
}

} // verus!
