//! The sequence registry: pre-declared sequences of tiles, resolved against
//! the catalog and registered in the store before any row is encoded.

use crate::catalog::{Catalog, CatalogView};
use crate::names::{bound, label, label_text, number_of, parse_number};
use crate::store::{registered, Blob, BlobName, BlobView, Store, StoreError};
use crate::tile::{indices_of, run_indices, Config, Tile};
use vstd::prelude::*;

verus! {

/// A pre-declared sequence of tiles.
#[derive(Debug)]
pub struct SequenceDecl {
    /// The tiles of the sequence, each by name or by tile-memory index.
    pub tiles: Vec<String>,
    /// A tile put once in front of the repeated sequence.
    pub prefix: Option<String>,
    /// A tile put once behind the repeated sequence.
    pub postfix: Option<String>,
    /// How many times the tiles are repeated.
    pub repeat: usize,
    /// The sequence is registered for reuse.
    pub generate: bool,
    /// The sequence is passed over altogether.
    pub ignored: bool,
}

/// The mathematical value of a [`SequenceDecl`].
pub struct DeclView {
    pub tiles: Seq<Seq<char>>,
    pub prefix: Option<Seq<char>>,
    pub postfix: Option<Seq<char>>,
    pub repeat: nat,
    pub generate: bool,
    pub ignored: bool,
}

impl View for SequenceDecl {
    type V = DeclView;

    open spec fn view(&self) -> DeclView {
        DeclView {
            tiles: Seq::new(self.tiles@.len(), |i: int| self.tiles@[i]@),
            prefix: match self.prefix {
                Some(s) => Some(s@),
                None => None,
            },
            postfix: match self.postfix {
                Some(s) => Some(s@),
                None => None,
            },
            repeat: self.repeat as nat,
            generate: self.generate,
            ignored: self.ignored,
        }
    }
}

/// The values of a list of declarations, in order.
pub open spec fn decl_views(decls: Seq<SequenceDecl>) -> Seq<DeclView> {
    Seq::new(decls.len(), |i: int| decls[i]@)
}

/// Why the sequences of a sheet cannot be registered.
#[derive(Clone, Copy, Debug, PartialEq, Eq, Structural)]
pub enum SequenceError {
    /// The sequence with this number refers to a tile-memory index that no
    /// tile cell was given.
    UnknownNumber(usize, u32),
    /// The sequence with this number refers to a name without a tile.
    UnknownName(usize),
    /// The name of a sequence is taken in the store.
    Conflict(BlobName),
}

/// The tile that the name `name` stands for in sequence `k`.
pub open spec fn named_tile(c: CatalogView, name: Seq<char>, k: int) -> Result<Tile, SequenceError> {
    match bound(c.refs, name) {
        Some(v) => if c.tiles.contains_key(v) {
            Ok(c.tiles[v])
        } else {
            Err(SequenceError::UnknownName(k as usize))
        },
        None => Err(SequenceError::UnknownName(k as usize)),
    }
}

/// The tile that a reference of sequence `k` stands for. A reference that
/// writes a number is the tile-memory index of a tile cell, and stands for
/// the tile that bears the label of that cell; any other reference is a
/// name.
pub open spec fn referred(c: CatalogView, reference: Seq<char>, k: int) -> Result<
    Tile,
    SequenceError,
> {
    match number_of(reference) {
        Some(index) => if c.labels.contains_key(index) && c.labels[index].definition
            < c.names.len() {
            named_tile(
                c,
                label_text(c.names[c.labels[index].definition as int], c.labels[index].offset),
                k,
            )
        } else {
            Err(SequenceError::UnknownNumber(k as usize, index))
        },
        None => named_tile(c, reference, k),
    }
}

/// The tiles that the first `n` references stand for.
pub open spec fn referred_all(c: CatalogView, references: Seq<Seq<char>>, k: int, n: int) -> Result<
    Seq<Tile>,
    SequenceError,
>
    decreases n,
{
    if n <= 0 {
        Ok(Seq::empty())
    } else {
        match referred_all(c, references, k, n - 1) {
            Err(e) => Err(e),
            Ok(tiles) => match referred(c, references[n - 1], k) {
                Err(e) => Err(e),
                Ok(t) => Ok(tiles.push(t)),
            },
        }
    }
}

/// A tile that may be there, as a list of none or one.
pub open spec fn optional(c: CatalogView, reference: Option<Seq<char>>, k: int) -> Result<
    Seq<Tile>,
    SequenceError,
> {
    match reference {
        None => Ok(Seq::empty()),
        Some(r) => match referred(c, r, k) {
            Err(e) => Err(e),
            Ok(t) => Ok(seq![t]),
        },
    }
}

/// `tiles`, `n` times over.
pub open spec fn repeated(tiles: Seq<Tile>, n: nat) -> Seq<Tile>
    decreases n,
{
    if n == 0 {
        Seq::empty()
    } else {
        repeated(tiles, (n - 1) as nat) + tiles
    }
}

/// The tiles of sequence `k`: the prefix, the tiles as often as they are
/// repeated, the postfix. The tiles are resolved first, then the prefix,
/// then the postfix, and the first reference that fails is reported.
pub open spec fn sequence_tiles(c: CatalogView, decl: DeclView, k: int) -> Result<
    Seq<Tile>,
    SequenceError,
> {
    match referred_all(c, decl.tiles, k, decl.tiles.len() as int) {
        Err(e) => Err(e),
        Ok(middle) => match optional(c, decl.prefix, k) {
            Err(e) => Err(e),
            Ok(front) => match optional(c, decl.postfix, k) {
                Err(e) => Err(e),
                Ok(back) => Ok(front + repeated(middle, decl.repeat) + back),
            },
        },
    }
}

/// The blob of sequence `k`: an immediate blob over the index array of its
/// tiles.
pub open spec fn sequence_blob(tiles: Seq<Tile>, k: int, config: Config) -> BlobView {
    BlobView {
        name: BlobName::Sequence(k as usize),
        content: run_indices(tiles, config.spec_bytes_per_tile() as int),
        immediate: true,
        tiles,
    }
}

/// The store after sequence `k`. An ignored sequence changes nothing and
/// is not even resolved; any other is resolved, and registered if it is to
/// be generated.
pub open spec fn seeded_one(store: Seq<BlobView>, c: CatalogView, decl: DeclView, k: int, config: Config)
    -> Result<Seq<BlobView>, SequenceError> {
    if decl.ignored {
        Ok(store)
    } else {
        match sequence_tiles(c, decl, k) {
            Err(e) => Err(e),
            Ok(tiles) => if decl.generate {
                match registered(store, sequence_blob(tiles, k, config)) {
                    Ok(after) => Ok(after),
                    Err(StoreError::Conflict(name)) => Err(SequenceError::Conflict(name)),
                }
            } else {
                Ok(store)
            },
        }
    }
}

/// The store after the first `n` sequences.
pub open spec fn seeded(
    store: Seq<BlobView>,
    c: CatalogView,
    decls: Seq<DeclView>,
    config: Config,
    n: int,
) -> Result<Seq<BlobView>, SequenceError>
    decreases n,
{
    if n <= 0 {
        Ok(store)
    } else {
        match seeded(store, c, decls, config, n - 1) {
            Err(e) => Err(e),
            Ok(held) => seeded_one(held, c, decls[n - 1], n - 1, config),
        }
    }
}

/// Once a sequence fails, the registry fails with the same error.
pub proof fn lemma_seeded_fails(
    store: Seq<BlobView>,
    c: CatalogView,
    decls: Seq<DeclView>,
    config: Config,
    n: int,
    m: int,
)
    requires
        n <= m,
        seeded(store, c, decls, config, n).is_err(),
    ensures
        seeded(store, c, decls, config, m) == seeded(store, c, decls, config, n),
    decreases m - n,
{
    if n < m {
        lemma_seeded_fails(store, c, decls, config, n, m - 1);
    }
}

proof fn lemma_referred_all_fails(c: CatalogView, references: Seq<Seq<char>>, k: int, n: int, m: int)
    requires
        n <= m,
        referred_all(c, references, k, n).is_err(),
    ensures
        referred_all(c, references, k, m) == referred_all(c, references, k, n),
    decreases m - n,
{
    if n < m {
        lemma_referred_all_fails(c, references, k, n, m - 1);
    }
}

fn named(catalog: &Catalog, name: &str, k: usize) -> (r: Result<Tile, SequenceError>)
    ensures
        r == named_tile(catalog@, name@, k as int),
{
    match catalog.value_of(name) {
        Some(v) => match catalog.tile(v) {
            Some(t) => Ok(t),
            None => Err(SequenceError::UnknownName(k)),
        },
        None => Err(SequenceError::UnknownName(k)),
    }
}

/// Resolves one reference of sequence `k`.
pub fn refer(catalog: &Catalog, reference: &str, k: usize) -> (r: Result<Tile, SequenceError>)
    ensures
        r == referred(catalog@, reference@, k as int),
{
    match parse_number(reference) {
        Some(index) => match catalog.label_at(index) {
            Some(l) => {
                if l.definition < catalog.definitions() {
                    let text = label(catalog.name(l.definition), l.offset);
                    named(catalog, text.as_str(), k)
                } else {
                    Err(SequenceError::UnknownNumber(k, index))
                }
            },
            None => Err(SequenceError::UnknownNumber(k, index)),
        },
        None => named(catalog, reference, k),
    }
}

fn refer_optional(catalog: &Catalog, reference: &Option<String>, k: usize) -> (r: Result<
    Vec<Tile>,
    SequenceError,
>)
    ensures
        match optional(
            catalog@,
            match reference {
                Some(s) => Some(s@),
                None => None,
            },
            k as int,
        ) {
            Ok(tiles) => r matches Ok(v) && v@ == tiles,
            Err(e) => r matches Err(x) && x == e,
        },
{
    let mut out: Vec<Tile> = Vec::new();
    match reference {
        None => {
            assert(out@ =~= Seq::<Tile>::empty());
            Ok(out)
        },
        Some(s) => match refer(catalog, s.as_str(), k) {
            Err(e) => Err(e),
            Ok(t) => {
                out.push(t);
                assert(out@ =~= seq![t]);
                Ok(out)
            },
        },
    }
}

fn append_tiles(out: &mut Vec<Tile>, tiles: &Vec<Tile>)
    ensures
        final(out)@ == old(out)@ + tiles@,
{
    let mut i: usize = 0;
    while i < tiles.len()
        invariant
            i <= tiles.len(),
            out@ == old(out)@ + tiles@.take(i as int),
        decreases tiles.len() - i,
    {
        out.push(tiles[i]);
        assert(out@ =~= old(out)@ + tiles@.take(i + 1));
        i += 1;
    }
    assert(tiles@.take(tiles.len() as int) =~= tiles@);
}

/// Resolves the tiles of sequence `k`.
pub fn resolve_sequence(catalog: &Catalog, decl: &SequenceDecl, k: usize) -> (r: Result<
    Vec<Tile>,
    SequenceError,
>)
    ensures
        match sequence_tiles(catalog@, decl@, k as int) {
            Ok(tiles) => r matches Ok(v) && v@ == tiles,
            Err(e) => r matches Err(x) && x == e,
        },
{
    let ghost references = decl@.tiles;
    let mut middle: Vec<Tile> = Vec::new();
    let mut i: usize = 0;
    while i < decl.tiles.len()
        invariant
            i <= decl.tiles.len(),
            references == decl@.tiles,
            referred_all(catalog@, references, k as int, i as int) == Ok::<
                Seq<Tile>,
                SequenceError,
            >(middle@),
        decreases decl.tiles.len() - i,
    {
        assert(references[i as int] == decl.tiles@[i as int]@);
        match refer(catalog, decl.tiles[i].as_str(), k) {
            Err(e) => {
                proof {
                    lemma_referred_all_fails(
                        catalog@,
                        references,
                        k as int,
                        i + 1,
                        decl.tiles.len() as int,
                    );
                }
                return Err(e);
            },
            Ok(t) => {
                middle.push(t);
            },
        }
        i += 1;
    }
    let mut all: Vec<Tile> = match refer_optional(catalog, &decl.prefix, k) {
        Err(e) => {
            return Err(e);
        },
        Ok(front) => front,
    };
    let back: Vec<Tile> = match refer_optional(catalog, &decl.postfix, k) {
        Err(e) => {
            return Err(e);
        },
        Ok(back) => back,
    };
    let ghost front = all@;
    let mut n: usize = 0;
    while n < decl.repeat
        invariant
            n <= decl.repeat,
            all@ == front + repeated(middle@, n as nat),
        decreases decl.repeat - n,
    {
        append_tiles(&mut all, &middle);
        n += 1;
        assert(all@ =~= front + repeated(middle@, n as nat));
    }
    append_tiles(&mut all, &back);
    Ok(all)
}

fn register_all(store: &mut Store, catalog: &Catalog, decls: &Vec<SequenceDecl>, config: &Config) -> (r:
    Result<(), SequenceError>)
    ensures
        match seeded(old(store)@, catalog@, decl_views(decls@), *config, decls@.len() as int) {
            Ok(after) => r.is_ok() && final(store)@ == after,
            Err(e) => r == Err::<(), SequenceError>(e),
        },
{
    let ghost views = decl_views(decls@);
    let mut k: usize = 0;
    while k < decls.len()
        invariant
            k <= decls.len(),
            views == decl_views(decls@),
            seeded(old(store)@, catalog@, views, *config, k as int) == Ok::<
                Seq<BlobView>,
                SequenceError,
            >(store@),
        decreases decls.len() - k,
    {
        let decl = &decls[k];
        assert(views[k as int] == decl@);
        if !decl.ignored {
            match resolve_sequence(catalog, decl, k) {
                Err(e) => {
                    proof {
                        lemma_seeded_fails(
                            old(store)@,
                            catalog@,
                            views,
                            *config,
                            k + 1,
                            decls.len() as int,
                        );
                    }
                    return Err(e);
                },
                Ok(tiles) => {
                    if decl.generate {
                        let content = indices_of(&tiles, config);
                        let blob = Blob {
                            name: BlobName::Sequence(k),
                            content,
                            immediate: true,
                            tiles,
                        };
                        match store.register(blob) {
                            Ok(()) => {},
                            Err(StoreError::Conflict(name)) => {
                                proof {
                                    lemma_seeded_fails(
                                        old(store)@,
                                        catalog@,
                                        views,
                                        *config,
                                        k + 1,
                                        decls.len() as int,
                                    );
                                }
                                return Err(SequenceError::Conflict(name));
                            },
                        }
                    }
                },
            }
        }
        k += 1;
    }
    Ok(())
}

/// Resolves the sequences of a sheet, in order, and registers those that
/// are to be generated. Into a store that holds no sequence and no blob of
/// a row, this succeeds exactly when every sequence that is not ignored
/// can be resolved.
pub fn register_sequences(
    store: &mut Store,
    catalog: &Catalog,
    decls: &Vec<SequenceDecl>,
    config: &Config,
) -> (r: Result<(), SequenceError>)
    ensures
        match seeded(old(store)@, catalog@, decl_views(decls@), *config, decls@.len() as int) {
            Ok(after) => r.is_ok() && final(store)@ == after,
            Err(e) => r == Err::<(), SequenceError>(e),
        },
        only_sequences(old(store)@, 0) ==> {
            &&& r.is_ok() <==> all_resolve(catalog@, decl_views(decls@))
            &&& r.is_ok() ==> only_sequences(final(store)@, decls@.len() as int)
            &&& r matches Err(e) ==> !(e is Conflict)
        },
{
    let count: usize = decls.len();
    proof {
        if only_sequences(store@, 0) {
            let views = decl_views(decls@);
            lemma_seeded_outcome(store@, catalog@, views, *config, count as int);
            assert(views.take(count as int) =~= views);
        }
    }
    register_all(store, catalog, decls, config)
}

/// A reference that cannot be resolved is unknown; it is never a conflict.
pub proof fn lemma_tiles_never_conflict(c: CatalogView, decl: DeclView, k: int)
    ensures
        sequence_tiles(c, decl, k) matches Err(e) ==> !(e is Conflict),
{
    lemma_referred_never_conflict(c, decl.tiles, k, decl.tiles.len() as int);
}

proof fn lemma_referred_never_conflict(c: CatalogView, references: Seq<Seq<char>>, k: int, n: int)
    ensures
        referred_all(c, references, k, n) matches Err(e) ==> !(e is Conflict),
    decreases n,
{
    if n > 0 {
        lemma_referred_never_conflict(c, references, k, n - 1);
    }
}

/// Every sequence that is not ignored can be resolved.
pub open spec fn all_resolve(c: CatalogView, decls: Seq<DeclView>) -> bool {
    forall|k: int|
        0 <= k < decls.len() ==> (#[trigger] decls[k]).ignored || sequence_tiles(c, decls[k], k).is_ok()
}

/// The store holds nothing but sequences, numbered below `n`.
pub open spec fn only_sequences(store: Seq<BlobView>, n: int) -> bool {
    forall|i: int|
        0 <= i < store.len() ==> match (#[trigger] store[i]).name {
            BlobName::Sequence(k) => k < n,
            BlobName::Row(_, _) => false,
        }
}

/// From a store without sequences, registering the first `n` sequences
/// never meets a taken name: it succeeds exactly when every sequence that
/// is not ignored can be resolved, and then the store holds nothing but
/// sequences numbered below `n`.
pub proof fn lemma_seeded_outcome(
    store: Seq<BlobView>,
    c: CatalogView,
    decls: Seq<DeclView>,
    config: Config,
    n: int,
)
    requires
        only_sequences(store, 0),
        0 <= n <= decls.len(),
        n <= usize::MAX,
    ensures
        seeded(store, c, decls, config, n).is_ok() <==> all_resolve(c, decls.take(n)),
        seeded(store, c, decls, config, n) matches Ok(after) ==> only_sequences(after, n),
        seeded(store, c, decls, config, n) matches Err(e) ==> !(e is Conflict),
    decreases n,
{
    if n > 0 {
        lemma_seeded_outcome(store, c, decls, config, n - 1);
        let head = decls.take(n - 1);
        let all = decls.take(n);
        assert forall|k: int| 0 <= k < head.len() implies head[k] == all[k] by {}
        assert(all[n - 1] == decls[n - 1]);
        match seeded(store, c, decls, config, n - 1) {
            Err(e) => {
                assert(!all_resolve(c, head));
                let k = choose|k: int|
                    0 <= k < head.len() && !((#[trigger] head[k]).ignored || sequence_tiles(
                        c,
                        head[k],
                        k,
                    ).is_ok());
                assert(all[k] == head[k]);
            },
            Ok(held) => {
                let decl = decls[n - 1];
                lemma_tiles_never_conflict(c, decl, n - 1);
                let name = BlobName::Sequence((n - 1) as usize);
                crate::store::lemma_name_index_from(held, name, 0);
                match crate::store::name_index(held, name) {
                    Some(i) => {
                        assert(held[i].name == name);
                    },
                    None => {},
                }
                if !decl.ignored && sequence_tiles(c, decl, n - 1).is_ok() && decl.generate {
                    let tiles = sequence_tiles(c, decl, n - 1).unwrap();
                    let after = held.push(sequence_blob(tiles, n - 1, config));
                    assert forall|i: int| 0 <= i < after.len() implies match (
                    #[trigger] after[i]).name {
                        BlobName::Sequence(k) => k < n,
                        BlobName::Row(_, _) => false,
                    } by {
                        if i < held.len() {
                            assert(after[i] == held[i]);
                        }
                    }
                }
                if all_resolve(c, head) && (decl.ignored || sequence_tiles(c, decl, n - 1).is_ok()) {
                    assert forall|k: int| 0 <= k < all.len() implies (#[trigger] all[k]).ignored
                        || sequence_tiles(c, all[k], k).is_ok() by {
                        if k < n - 1 {
                            assert(all[k] == head[k]);
                        }
                    }
                }
            },
        }
    } else {
        assert(decls.take(0).len() == 0);
    }
}

} // verus!
