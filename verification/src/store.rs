//! The store: an append-only registry of named blobs, searched for
//! contiguous windows so that later runs can reuse earlier content.

use crate::tile::Tile;
use crate::window::{
    find_window, first_window, has_window, lemma_first_window, lemma_first_window_self,
};
use vstd::prelude::*;

verus! {

/// The name under which a blob is registered.
#[derive(Clone, Copy, Debug, PartialEq, Eq, Structural)]
pub enum BlobName {
    /// The pre-declared sequence with this number, in declaration order.
    Sequence(usize),
    /// The blob first needed by a run of a row: row number, then the run's
    /// position in the row's list.
    Row(usize, usize),
}

/// A registered blob.
#[derive(Debug, PartialEq, Eq)]
pub struct Blob {
    pub name: BlobName,
    /// The index array that the blob stands for.
    pub content: Vec<u64>,
    /// The blob is emitted as pixel bytes rather than as the index array.
    pub immediate: bool,
    /// The tiles whose pixels make up an immediate blob.
    pub tiles: Vec<Tile>,
}

/// The mathematical value of a [`Blob`].
pub struct BlobView {
    pub name: BlobName,
    pub content: Seq<u64>,
    pub immediate: bool,
    pub tiles: Seq<Tile>,
}

impl View for Blob {
    type V = BlobView;

    open spec fn view(&self) -> BlobView {
        BlobView {
            name: self.name,
            content: self.content@,
            immediate: self.immediate,
            tiles: self.tiles@,
        }
    }
}

/// Why a registration was refused.
#[derive(Clone, Copy, Debug, PartialEq, Eq, Structural)]
pub enum StoreError {
    /// The name is taken by a blob with other content or of the other kind.
    Conflict(BlobName),
}

/// Where a window was found: the entry and the offset into its content.
#[derive(Clone, Copy, Debug, PartialEq, Eq, Structural)]
pub struct Found {
    pub entry: usize,
    pub offset: usize,
}

/// The values of a list of blobs, in order.
pub open spec fn blob_views(blobs: Seq<Blob>) -> Seq<BlobView> {
    Seq::new(blobs.len(), |i: int| blobs[i]@)
}

/// Index of the first entry at or after `from` that bears `name`.
pub open spec fn name_index_from(store: Seq<BlobView>, name: BlobName, from: int) -> Option<int>
    decreases store.len() - from,
{
    if from < 0 || from >= store.len() {
        None
    } else if store[from].name == name {
        Some(from)
    } else {
        name_index_from(store, name, from + 1)
    }
}

/// Index of the first entry that bears `name`.
pub open spec fn name_index(store: Seq<BlobView>, name: BlobName) -> Option<int> {
    name_index_from(store, name, 0)
}

/// No two entries bear the same name.
pub open spec fn names_distinct(store: Seq<BlobView>) -> bool {
    forall|i: int, j: int|
        0 <= i < j < store.len() ==> (#[trigger] store[i]).name != (#[trigger] store[j]).name
}

/// Two blobs are the same blob: same content, same kind.
pub open spec fn same_blob(a: BlobView, b: BlobView) -> bool {
    a.content == b.content && a.immediate == b.immediate
}

/// No two entries are the same blob under two names.
pub open spec fn blobs_distinct(store: Seq<BlobView>) -> bool {
    forall|i: int, j: int|
        0 <= i < j < store.len() ==> !same_blob(#[trigger] store[i], #[trigger] store[j])
}

/// Some entry at or after `from` is the same blob as `blob`.
pub open spec fn held_from(store: Seq<BlobView>, blob: BlobView, from: int) -> bool
    decreases store.len() - from,
{
    if from < 0 || from >= store.len() {
        false
    } else {
        same_blob(store[from], blob) || held_from(store, blob, from + 1)
    }
}

/// Some entry is the same blob as `blob`.
pub open spec fn held(store: Seq<BlobView>, blob: BlobView) -> bool {
    held_from(store, blob, 0)
}

/// The store after registering `blob`. The first registration wins: when
/// the name is taken by the same blob, or the blob is held under another
/// name, the store stays as it is; when the name is taken by another blob,
/// the registration is refused; otherwise the blob is appended.
pub open spec fn registered(store: Seq<BlobView>, blob: BlobView) -> Result<
    Seq<BlobView>,
    StoreError,
> {
    match name_index(store, blob.name) {
        None => if held(store, blob) {
            Ok(store)
        } else {
            Ok(store.push(blob))
        },
        Some(i) => if same_blob(store[i], blob) {
            Ok(store)
        } else {
            Err(StoreError::Conflict(blob.name))
        },
    }
}

/// `held_from` says whether some entry from `from` on is the same blob.
pub proof fn lemma_held_from(store: Seq<BlobView>, blob: BlobView, from: int)
    requires
        0 <= from,
    ensures
        held_from(store, blob, from) <==> exists|j: int|
            from <= j < store.len() && same_blob(#[trigger] store[j], blob),
    decreases store.len() - from,
{
    if from < store.len() {
        lemma_held_from(store, blob, from + 1);
        if same_blob(store[from], blob) {
        } else if held_from(store, blob, from + 1) {
            let j = choose|j: int| from + 1 <= j < store.len() && same_blob(#[trigger] store[j], blob);
            assert(from <= j < store.len() && same_blob(store[j], blob));
        } else {
            assert forall|j: int| from <= j < store.len() implies !same_blob(
                #[trigger] store[j],
                blob,
            ) by {
                if j > from {
                    assert(from + 1 <= j);
                }
            }
        }
    }
}

/// The first entry at or after `from` whose content holds `needle` as a
/// contiguous window, with the least offset of the window in it.
pub open spec fn lookup_from(store: Seq<BlobView>, needle: Seq<u64>, from: int) -> Option<
    (int, int),
>
    decreases store.len() - from,
{
    if from < 0 || from >= store.len() {
        None
    } else {
        match first_window(store[from].content, needle) {
            Some(p) => Some((from, p)),
            None => lookup_from(store, needle, from + 1),
        }
    }
}

/// The first entry whose content holds `needle` as a contiguous window,
/// with the least offset of the window in it.
pub open spec fn lookup(store: Seq<BlobView>, needle: Seq<u64>) -> Option<(int, int)> {
    lookup_from(store, needle, 0)
}

/// Some immediate entry holds `needle` as a contiguous window.
pub open spec fn immediate_match(store: Seq<BlobView>, needle: Seq<u64>) -> bool {
    exists|i: int|
        0 <= i < store.len() && (#[trigger] store[i]).immediate && has_window(
            store[i].content,
            needle,
        )
}

/// `name_index_from` finds the first entry with the name, if there is one.
pub proof fn lemma_name_index_from(store: Seq<BlobView>, name: BlobName, from: int)
    requires
        0 <= from,
    ensures
        match name_index_from(store, name, from) {
            Some(i) => from <= i < store.len() && store[i].name == name && forall|j: int|
                from <= j < i ==> (#[trigger] store[j]).name != name,
            None => forall|j: int| from <= j < store.len() ==> (#[trigger] store[j]).name != name,
        },
    decreases store.len() - from,
{
    if from < store.len() && store[from].name != name {
        lemma_name_index_from(store, name, from + 1);
    }
}

/// `lookup_from` finds the first entry that holds the window, and the
/// least offset in it.
pub proof fn lemma_lookup_from(store: Seq<BlobView>, needle: Seq<u64>, from: int)
    requires
        0 <= from,
    ensures
        match lookup_from(store, needle, from) {
            Some((i, p)) => {
                &&& from <= i < store.len()
                &&& first_window(store[i].content, needle) == Some(p)
                &&& forall|j: int|
                    from <= j < i ==> !has_window((#[trigger] store[j]).content, needle)
            },
            None => forall|j: int|
                from <= j < store.len() ==> !has_window((#[trigger] store[j]).content, needle),
        },
    decreases store.len() - from,
{
    if from < store.len() {
        lemma_first_window(store[from].content, needle);
        if first_window(store[from].content, needle).is_none() {
            lemma_lookup_from(store, needle, from + 1);
        }
    }
}

/// What is found in a store is found, at the same place, in every store
/// that continues it.
pub proof fn lemma_lookup_stable(store: Seq<BlobView>, more: Seq<BlobView>, needle: Seq<u64>)
    requires
        lookup(store, needle).is_some(),
    ensures
        lookup(store + more, needle) == lookup(store, needle),
{
    lemma_lookup_stable_from(store, more, needle, 0);
}

proof fn lemma_lookup_stable_from(
    store: Seq<BlobView>,
    more: Seq<BlobView>,
    needle: Seq<u64>,
    from: int,
)
    requires
        0 <= from,
        lookup_from(store, needle, from).is_some(),
    ensures
        lookup_from(store + more, needle, from) == lookup_from(store, needle, from),
    decreases store.len() - from,
{
    assert((store + more)[from] == store[from]);
    if first_window(store[from].content, needle).is_none() {
        lemma_lookup_stable_from(store, more, needle, from + 1);
    }
}

/// A blob appended to a store that did not hold its content is found
/// there, at offset 0.
pub proof fn lemma_lookup_appended(store: Seq<BlobView>, blob: BlobView)
    requires
        lookup(store, blob.content).is_none(),
    ensures
        lookup(store.push(blob), blob.content) == Some((store.len() as int, 0int)),
{
    lemma_lookup_appended_from(store, blob, 0);
}

proof fn lemma_lookup_appended_from(store: Seq<BlobView>, blob: BlobView, from: int)
    requires
        0 <= from <= store.len(),
        lookup_from(store, blob.content, from).is_none(),
    ensures
        lookup_from(store.push(blob), blob.content, from) == Some((store.len() as int, 0int)),
    decreases store.len() - from,
{
    let grown = store.push(blob);
    if from < store.len() {
        assert(grown[from] == store[from]);
        lemma_lookup_appended_from(store, blob, from + 1);
    } else {
        assert(grown[from] == blob);
        lemma_first_window_self(blob.content);
    }
}

/// Registering keeps names distinct and blobs distinct.
pub proof fn lemma_registered_distinct(store: Seq<BlobView>, blob: BlobView)
    requires
        names_distinct(store),
        blobs_distinct(store),
    ensures
        registered(store, blob) matches Ok(after) ==> names_distinct(after) && blobs_distinct(
            after,
        ),
{
    lemma_name_index_from(store, blob.name, 0);
    lemma_held_from(store, blob, 0);
    if name_index(store, blob.name).is_none() && !held(store, blob) {
        let after = store.push(blob);
        assert forall|i: int, j: int| 0 <= i < j < after.len() implies !same_blob(
            #[trigger] after[i],
            #[trigger] after[j],
        ) by {
            if j < store.len() {
                assert(after[i] == store[i] && after[j] == store[j]);
            } else {
                assert(after[i] == store[i]);
                assert(!same_blob(store[i], blob));
            }
        }
    }
    if name_index(store, blob.name).is_none() && !held(store, blob) {
        let after = store.push(blob);
        assert forall|i: int, j: int| 0 <= i < j < after.len() implies (#[trigger] after[i]).name
            != (#[trigger] after[j]).name by {
            if j < store.len() {
                assert(after[i] == store[i] && after[j] == store[j]);
            } else {
                assert(after[i] == store[i]);
                assert(store[i].name != blob.name);
            }
        }
    }
}

/// Whether two index arrays are equal.
pub fn same_content(a: &Vec<u64>, b: &Vec<u64>) -> (r: bool)
    ensures
        r == (a@ == b@),
{
    if a.len() != b.len() {
        return false;
    }
    let mut i: usize = 0;
    while i < a.len()
        invariant
            a.len() == b.len(),
            i <= a.len(),
            forall|k: int| 0 <= k < i ==> a@[k] == b@[k],
        decreases a.len() - i,
    {
        if a[i] != b[i] {
            return false;
        }
        i += 1;
    }
    assert(a@ =~= b@);
    true
}

/// The append-only registry of blobs.
pub struct Store {
    entries: Vec<Blob>,
}

impl View for Store {
    type V = Seq<BlobView>;

    closed spec fn view(&self) -> Seq<BlobView> {
        blob_views(self.entries@)
    }
}

impl Store {
    #[verifier::type_invariant]
    spec fn distinct(&self) -> bool {
        names_distinct(blob_views(self.entries@)) && blobs_distinct(blob_views(self.entries@))
    }

    /// Does nothing when run. To the verifier it brings what holds of
    /// every store: no name is borne twice and no blob is held under two
    /// names.
    pub fn distinct_entries(&self)
        ensures
            names_distinct(self@),
            blobs_distinct(self@),
    {
        proof {
            use_type_invariant(self);
        }
    }

    /// The empty store.
    pub fn new() -> (s: Store)
        ensures
            s@ == Seq::<BlobView>::empty(),
    {
        let s = Store { entries: Vec::new() };
        assert(s@ =~= Seq::<BlobView>::empty());
        s
    }

    /// Whether some entry is the same blob as one of the given content and
    /// kind.
    fn holds(&self, content: &Vec<u64>, immediate: bool) -> (r: bool)
        ensures
            forall|blob: BlobView|
                blob.content == content@ && blob.immediate == immediate ==> r == #[trigger] held(
                    self@,
                    blob,
                ),
    {
        let ghost probe = BlobView {
            name: BlobName::Sequence(0),
            content: content@,
            immediate,
            tiles: Seq::empty(),
        };
        let mut i: usize = 0;
        while i < self.entries.len()
            invariant
                i <= self.entries.len(),
                probe.content == content@,
                probe.immediate == immediate,
                held(self@, probe) == held_from(self@, probe, i as int),
            decreases self.entries.len() - i,
        {
            let e = &self.entries[i];
            assert(e@ == self@[i as int]);
            if e.immediate == immediate && same_content(&e.content, content) {
                proof {
                    lemma_held_probe(self@, probe);
                }
                return true;
            }
            i += 1;
        }
        proof {
            lemma_held_probe(self@, probe);
        }
        false
    }

    /// Number of entries.
    pub fn len(&self) -> (n: usize)
        ensures
            n == self@.len(),
    {
        self.entries.len()
    }

    /// The entry at `i`.
    pub fn entry(&self, i: usize) -> (b: &Blob)
        requires
            i < self@.len(),
        ensures
            b@ == self@[i as int],
    {
        &self.entries[i]
    }

    /// Index of the first entry that bears `name`.
    pub fn position(&self, name: BlobName) -> (r: Option<usize>)
        ensures
            match r {
                Some(i) => i < self@.len() && name_index(self@, name) == Some(i as int),
                None => name_index(self@, name).is_none(),
            },
    {
        let mut i: usize = 0;
        while i < self.entries.len()
            invariant
                i <= self.entries.len(),
                name_index(self@, name) == name_index_from(self@, name, i as int),
            decreases self.entries.len() - i,
        {
            if self.entries[i].name == name {
                return Some(i);
            }
            i += 1;
        }
        None
    }

    /// Registers a blob. The first registration wins: registering the same
    /// blob again, under its name or under a new one, changes nothing, and
    /// another blob under a taken name is refused.
    pub fn register(&mut self, blob: Blob) -> (r: Result<(), StoreError>)
        ensures
            match registered(old(self)@, blob@) {
                Ok(after) => r.is_ok() && final(self)@ == after,
                Err(e) => r == Err::<(), StoreError>(e) && final(self)@ == old(self)@,
            },
    {
        proof {
            use_type_invariant(&*self);
            lemma_registered_distinct(self@, blob@);
        }
        match self.position(blob.name) {
            None => {
                if !self.holds(&blob.content, blob.immediate) {
                    let mut taken = Store { entries: Vec::new() };
                    assert(blob_views(taken.entries@) =~= Seq::<BlobView>::empty());
                    std::mem::swap(self, &mut taken);
                    let mut entries = taken.entries;
                    entries.push(blob);
                    assert(blob_views(entries@) =~= old(self)@.push(blob@));
                    *self = Store { entries };
                }
                Ok(())
            },
            Some(i) => {
                let taken = &self.entries[i];
                assert(taken@ == self@[i as int]);
                if same_content(&taken.content, &blob.content) && taken.immediate == blob.immediate {
                    Ok(())
                } else {
                    Err(StoreError::Conflict(blob.name))
                }
            },
        }
    }

    /// The first entry whose content holds `needle` as a contiguous
    /// window, and the least offset of the window in that entry.
    pub fn find(&self, needle: &Vec<u64>) -> (r: Option<Found>)
        ensures
            match r {
                Some(f) => lookup(self@, needle@) == Some((f.entry as int, f.offset as int)),
                None => lookup(self@, needle@).is_none(),
            },
    {
        let mut i: usize = 0;
        while i < self.entries.len()
            invariant
                i <= self.entries.len(),
                lookup(self@, needle@) == lookup_from(self@, needle@, i as int),
            decreases self.entries.len() - i,
        {
            match find_window(&self.entries[i].content, needle) {
                Some(p) => {
                    return Some(Found { entry: i, offset: p });
                },
                None => {},
            }
            i += 1;
        }
        None
    }

    /// Whether some immediate entry holds `needle` as a contiguous window.
    pub fn holds_immediate(&self, needle: &Vec<u64>) -> (r: bool)
        ensures
            r == immediate_match(self@, needle@),
    {
        let mut i: usize = 0;
        while i < self.entries.len()
            invariant
                i <= self.entries.len(),
                forall|j: int|
                    0 <= j < i ==> !((#[trigger] self@[j]).immediate && has_window(
                        self@[j].content,
                        needle@,
                    )),
            decreases self.entries.len() - i,
        {
            if self.entries[i].immediate {
                proof {
                    lemma_first_window(self@[i as int].content, needle@);
                }
                if find_window(&self.entries[i].content, needle).is_some() {
                    return true;
                }
            }
            i += 1;
        }
        false
    }
}

/// Whether a blob is held goes by its content and kind alone.
pub proof fn lemma_held_probe(store: Seq<BlobView>, probe: BlobView)
    ensures
        forall|blob: BlobView|
            blob.content == probe.content && blob.immediate == probe.immediate ==> held(
                store,
                probe,
            ) == #[trigger] held(store, blob),
{
    assert forall|blob: BlobView|
        blob.content == probe.content && blob.immediate == probe.immediate implies held(
        store,
        probe,
    ) == #[trigger] held(store, blob) by {
        lemma_held_same(store, probe, blob, 0);
    }
}

proof fn lemma_held_same(store: Seq<BlobView>, a: BlobView, b: BlobView, from: int)
    requires
        a.content == b.content,
        a.immediate == b.immediate,
    ensures
        held_from(store, a, from) == held_from(store, b, from),
    decreases store.len() - from,
{
    if 0 <= from < store.len() {
        lemma_held_same(store, a, b, from + 1);
    }
}

} // verus!
