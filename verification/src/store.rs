//! Every version of every tile.
use crate::tile;
use crate::tile::Tile;
use vstd::hash_map::StringHashMap;
use vstd::prelude::*;

verus! {

/// One version of a tile.
#[derive(Debug)]
pub struct StoredTile {
    pub tile: Tile,
    pub version: u32,
    pub parent_version: Option<u32>,
    pub stored_at: u64,
}

/// What a `StoredTile` says.
pub struct StoredView {
    pub tile: tile::TileView,
    pub version: u32,
    pub parent_version: Option<u32>,
    pub stored_at: u64,
}

impl View for StoredTile {
    type V = StoredView;

    open spec fn view(&self) -> StoredView {
        StoredView {
            tile: self.tile@,
            version: self.version,
            parent_version: self.parent_version,
            stored_at: self.stored_at,
        }
    }
}

impl Clone for StoredTile {
    fn clone(&self) -> (r: Self)
        ensures
            r@ == self@,
    {
        StoredTile {
            tile: self.tile.clone(),
            version: self.version,
            parent_version: self.parent_version,
            stored_at: self.stored_at,
        }
    }
}

/// What the versions of a list say.
pub open spec fn stored_views(versions: Seq<StoredTile>) -> Seq<StoredView> {
    versions.map_values(|s: StoredTile| s@)
}

/// What the versions of a list of references say.
pub open spec fn stored_references(versions: Seq<&StoredTile>) -> Seq<StoredView> {
    versions.map_values(|s: &StoredTile| s@)
}

/// The history of a tile: its versions are numbered from one, and each but the first has the one
/// before it for its parent.
pub open spec fn is_history(id: Seq<char>, versions: Seq<StoredView>) -> bool {
    &&& 0 < versions.len() <= u32::MAX
    &&& forall|i: int|
        #![trigger versions[i]]
        0 <= i < versions.len() ==> {
            &&& versions[i].tile.id == id
            &&& versions[i].version == i + 1
            &&& versions[i].parent_version == if i == 0 {
                None
            } else {
                Some(i as u32)
            }
        }
}

/// What a `TileStore` holds: the ids in the order in which they were first stored, and the history
/// of each.
pub struct StoreView {
    pub ids: Seq<Seq<char>>,
    pub histories: Map<Seq<char>, Seq<StoredView>>,
}

impl StoreView {
    /// A store that holds nothing.
    pub open spec fn empty() -> StoreView {
        StoreView { ids: Seq::empty(), histories: Map::empty() }
    }

    /// Each id is listed once and has a history.
    pub open spec fn well_formed(self) -> bool {
        &&& self.ids.no_duplicates()
        &&& forall|id: Seq<char>| #[trigger]
            self.histories.contains_key(id) <==> self.ids.contains(id)
        &&& forall|id: Seq<char>| #[trigger]
            self.histories.contains_key(id) ==> is_history(id, self.histories[id])
    }

    /// The versions of the tile with the given id; none where there is no such tile.
    pub open spec fn history(self, id: Seq<char>) -> Seq<StoredView> {
        if self.histories.contains_key(id) {
            self.histories[id]
        } else {
            Seq::empty()
        }
    }

    /// The next version of a tile.
    pub open spec fn next(self, t: tile::TileView, now: u64) -> StoredView {
        let n = self.history(t.id).len();
        StoredView {
            tile: t,
            version: (n + 1) as u32,
            parent_version: if n == 0 {
                None
            } else {
                Some(n as u32)
            },
            stored_at: now,
        }
    }

    /// The store after `t` is stored at the time `now`.
    pub open spec fn stored(self, t: tile::TileView, now: u64) -> StoreView {
        StoreView {
            ids: if self.histories.contains_key(t.id) {
                self.ids
            } else {
                self.ids.push(t.id)
            },
            histories: self.histories.insert(t.id, self.history(t.id).push(self.next(t, now))),
        }
    }

    /// The latest version of each tile.
    pub open spec fn latest(self) -> Seq<StoredView> {
        self.ids.map_values(|id: Seq<char>| self.history(id).last())
    }
}

/// Every version of every tile.
pub struct TileStore {
    index: StringHashMap<usize>,
    histories: Vec<Vec<StoredTile>>,
}

/// The id of the tile with the given place.
spec fn id_at(histories: Seq<Vec<StoredTile>>, i: int) -> Seq<char> {
    histories[i]@[0].tile.id@
}

/// The index gives the place of each id, and nothing else.
spec fn indexed(index: Map<Seq<char>, usize>, histories: Seq<Vec<StoredTile>>) -> bool {
    &&& forall|i: int|
        #![trigger histories[i]]
        0 <= i < histories.len() ==> {
            &&& index.contains_key(id_at(histories, i))
            &&& index[id_at(histories, i)] == i
        }
    &&& forall|id: Seq<char>| #[trigger]
        index.contains_key(id) ==> {
            &&& index[id] < histories.len()
            &&& id_at(histories, index[id] as int) == id
        }
}

spec fn contents(index: Map<Seq<char>, usize>, histories: Seq<Vec<StoredTile>>) -> StoreView {
    StoreView {
        ids: Seq::new(histories.len(), |i: int| id_at(histories, i)),
        histories: Map::new(
            |id: Seq<char>| index.contains_key(id),
            |id: Seq<char>| stored_views(histories[index[id] as int]@),
        ),
    }
}

impl View for TileStore {
    type V = StoreView;

    closed spec fn view(&self) -> StoreView {
        contents(self.index@, self.histories@)
    }
}

impl TileStore {
    #[verifier::type_invariant]
    spec fn consistent(self) -> bool {
        indexed(self.index@, self.histories@) && self@.well_formed()
    }

    /// A store that holds nothing.
    pub fn new() -> (r: TileStore)
        ensures
            r@ == StoreView::empty(),
    {
        let index = StringHashMap::<usize>::new();
        let histories: Vec<Vec<StoredTile>> = Vec::new();
        proof {
            let view = contents(index@, histories@);
            assert(view.ids =~= Seq::empty());
            assert(view.histories =~= Map::empty());
        }
        TileStore { index, histories }
    }

    /// The versions of the tile with the given id, where there is one.
    fn find(&self, id: &str) -> (r: Option<&Vec<StoredTile>>)
        ensures
            match r {
                Some(versions) => {
                    &&& self@.histories.contains_key(id@)
                    &&& stored_views(versions@) == self@.history(id@)
                },
                None => !self@.histories.contains_key(id@),
            },
            self@.well_formed(),
    {
        proof {
            use_type_invariant(self);
        }
        match self.index.get(id) {
            Some(i) => Some(&self.histories[*i]),
            None => None,
        }
    }

    /// The version that the tile with the given id would be stored as.
    pub fn next_version(&self, id: &str) -> (r: u32)
        requires
            self@.history(id@).len() < u32::MAX,
        ensures
            r == self@.history(id@).len() + 1,
    {
        match self.get_latest(id) {
            Some(s) => s.version + 1,
            None => 1,
        }
    }

    /// The latest version of the tile with the given id.
    pub fn get_latest(&self, id: &str) -> (r: Option<&StoredTile>)
        ensures
            match r {
                Some(s) => self@.history(id@).len() > 0 && s@ == self@.history(id@).last(),
                None => self@.history(id@).len() == 0,
            },
            self@.well_formed(),
    {
        match self.find(id) {
            Some(versions) => {
                assert(stored_views(versions@).len() == versions@.len());
                Some(&versions[versions.len() - 1])
            },
            None => None,
        }
    }

    /// The given version of the tile with the given id.
    pub fn get_version(&self, id: &str, version: u32) -> (r: Option<&StoredTile>)
        ensures
            match r {
                Some(s) => {
                    &&& 1 <= version <= self@.history(id@).len()
                    &&& s@ == self@.history(id@)[version - 1]
                    &&& s.version == version
                },
                None => version == 0 || version > self@.history(id@).len(),
            },
            self@.well_formed(),
    {
        match self.find(id) {
            Some(versions) => {
                assert(stored_views(versions@).len() == versions@.len());
                if version >= 1 && versions.len() >= version as usize {
                    let s = &versions[(version - 1) as usize];
                    assert(s@ == self@.history(id@)[version - 1]);
                    Some(s)
                } else {
                    None
                }
            },
            None => None,
        }
    }

    /// How many versions of the tile with the given id there are.
    pub fn version_count(&self, id: &str) -> (n: usize)
        ensures
            n == self@.history(id@).len(),
            self@.well_formed(),
    {
        match self.find(id) {
            Some(versions) => {
                assert(stored_views(versions@).len() == versions@.len());
                versions.len()
            },
            None => 0,
        }
    }

    /// The latest version of each tile, in the order in which the tiles were first stored.
    pub fn all_latest(&self) -> (r: Vec<&StoredTile>)
        ensures
            stored_references(r@) == self@.latest(),
            self@.well_formed(),
    {
        let mut r: Vec<&StoredTile> = Vec::new();
        let mut i: usize = 0;
        proof {
            use_type_invariant(self);
        }
        while i < self.histories.len()
            invariant
                indexed(self.index@, self.histories@),
                self@.well_formed(),
                i <= self.histories.len(),
                stored_references(r@) == self@.latest().take(i as int),
            decreases self.histories.len() - i,
        {
            let versions = &self.histories[i];
            let ghost id = id_at(self.histories@, i as int);
            let ghost before = stored_references(r@);
            proof {
                assert(self@.ids[i as int] == id);
                assert(self@.histories.contains_key(id));
                assert(self@.history(id) == stored_views(versions@));
                assert(stored_views(versions@).len() == versions@.len());
            }
            let s = &versions[versions.len() - 1];
            r.push(s);
            assert(stored_references(r@) =~= before.push(s@));
            assert(self@.latest().take(i + 1) =~= self@.latest().take(i as int).push(s@));
            i = i + 1;
        }
        assert(self@.latest().take(i as int) =~= self@.latest());
        r
    }

    /// Stores `tile` as the next version of the tile with its id, and returns that version.
    pub fn insert(&mut self, tile: Tile, now: u64) -> (r: u32)
        requires
            old(self)@.history(tile@.id).len() < u32::MAX,
        ensures
            final(self)@ == old(self)@.stored(tile@, now),
            r == old(self)@.history(tile@.id).len() + 1,
            final(self)@.well_formed(),
    {
        let ghost before = self@;
        let ghost t = tile@;
        proof {
            use_type_invariant(&*self);
        }
        let version = self.next_version(tile.id.as_str());
        let id = tile.id.clone();
        let stored = StoredTile {
            tile,
            version,
            parent_version: if version > 1 {
                Some(version - 1)
            } else {
                None
            },
            stored_at: now,
        };
        assert(stored@ == before.next(t, now));
        let mut taken = TileStore::new();
        std::mem::swap(&mut taken, self);
        let TileStore { mut index, mut histories } = taken;
        let ghost old_index = index@;
        let ghost old_histories = histories@;
        let place = match index.get(id.as_str()) {
            Some(i) => Some(*i),
            None => None,
        };
        match place {
            Some(i) => {
                histories[i].push(stored);
            },
            None => {
                let mut versions: Vec<StoredTile> = Vec::new();
                versions.push(stored);
                index.insert(id, histories.len());
                histories.push(versions);
            },
        }
        proof {
            let after = contents(index@, histories@);
            assert(after.ids =~= before.stored(t, now).ids);
            let expected = before.stored(t, now).histories;
            let place_of_id = index@[t.id] as int;
            assert(stored_views(histories[place_of_id]@) =~= expected[t.id]);
            assert forall|x: Seq<char>| x != t.id && #[trigger] index@.contains_key(
                x,
            ) implies after.histories[x] == expected[x] by {
                assert(old_index.contains_key(x));
                assert(histories[index@[x] as int] == old_histories[old_index[x] as int]);
            }
            assert(after.histories =~= expected);
            store_keeps_well_formed(before, t, now);
        }
        *self = TileStore { index, histories };
        version
    }
}

/// A store that holds nothing is well-formed.
pub proof fn empty_store_well_formed()
    ensures
        StoreView::empty().well_formed(),
{
}

/// Storing a tile keeps a store well-formed: each id is listed once, and its versions are numbered
/// from one without a gap.
pub proof fn store_keeps_well_formed(store: StoreView, t: tile::TileView, now: u64)
    requires
        store.well_formed(),
        store.history(t.id).len() < u32::MAX,
    ensures
        store.stored(t, now).well_formed(),
{
    let after = store.stored(t, now);
    if !store.histories.contains_key(t.id) {
        assert(!store.ids.contains(t.id));
        assert forall|x: Seq<char>| #[trigger] after.ids.contains(x) <==> (store.ids.contains(x) || x
            == t.id) by {
            assert(after.ids[store.ids.len() as int] == t.id);
            if store.ids.contains(x) {
                let k = choose|k: int| 0 <= k < store.ids.len() && store.ids[k] == x;
                assert(after.ids[k] == x);
            }
        }
    }
    assert forall|x: Seq<char>| #[trigger] after.histories.contains_key(x) implies is_history(
        x,
        after.histories[x],
    ) by {
        if x == t.id {
            assert(store.histories.contains_key(t.id) ==> is_history(t.id, store.histories[t.id]));
        } else {
            assert(store.histories.contains_key(x));
        }
    }
    assert forall|x: Seq<char>| #[trigger] after.histories.contains_key(x) <==> after.ids.contains(
        x,
    ) by {
        assert(store.histories.contains_key(x) <==> store.ids.contains(x));
    }
}

/// A tile that was stored is the latest version of its id, with the next number.
pub proof fn stored_tile_is_the_latest(store: StoreView, t: tile::TileView, now: u64)
    requires
        store.well_formed(),
        store.history(t.id).len() < u32::MAX,
    ensures
        ({
            let after = store.stored(t, now).history(t.id);
            &&& after.len() == store.history(t.id).len() + 1
            &&& after.last().tile == t
            &&& after.last().stored_at == now
            &&& after.last().version == after.len()
            &&& after.len() == 1 ==> after.last().parent_version is None
            &&& after.len() > 1 ==> after.last().parent_version == Some((after.len() - 1) as u32)
        }),
{
}

/// Storing a tile leaves every earlier version of every tile as it was.
pub proof fn earlier_versions_stay(store: StoreView, t: tile::TileView, now: u64, id: Seq<char>)
    requires
        store.well_formed(),
    ensures
        store.history(id).is_prefix_of(store.stored(t, now).history(id)),
        id != t.id ==> store.stored(t, now).history(id) == store.history(id),
{
    if id == t.id {
        assert(store.history(id) =~= store.stored(t, now).history(id).subrange(
            0,
            store.history(id).len() as int,
        ));
    } else {
        assert(store.history(id) =~= store.history(id).subrange(0, store.history(id).len() as int));
    }
}

/// The latest versions are those of different tiles, and there is one of each tile.
pub proof fn latest_lists_each_tile_once(store: StoreView)
    requires
        store.well_formed(),
    ensures
        store.latest().len() == store.ids.len(),
        forall|i: int|
            0 <= i < store.latest().len() ==> (#[trigger] store.latest()[i]).tile.id
                == store.ids[i],
        forall|i: int, j: int|
            0 <= i < j < store.latest().len() ==> (#[trigger] store.latest()[i]).tile.id != (
            #[trigger] store.latest()[j]).tile.id,
        forall|id: Seq<char>|
            store.history(id).len() > 0 ==> store.latest().contains(
                (#[trigger] store.history(id)).last(),
            ),
{
    assert forall|i: int| 0 <= i < store.latest().len() implies (#[trigger]
    store.latest()[i]).tile.id == store.ids[i] by {
        assert(store.ids.contains(store.ids[i]));
        assert(store.histories.contains_key(store.ids[i]));
        assert(is_history(store.ids[i], store.histories[store.ids[i]]));
    }
    assert forall|id: Seq<char>| store.history(id).len() > 0 implies store.latest().contains(
        (#[trigger] store.history(id)).last(),
    ) by {
        assert(store.ids.contains(id));
        let k = choose|k: int| 0 <= k < store.ids.len() && store.ids[k] == id;
        assert(store.latest()[k] == store.history(id).last());
    }
}

/// The versions of a tile bear its id and are numbered from one; each has the one before it for its
/// parent, and the first has none.
pub proof fn versions_are_numbered(store: StoreView, id: Seq<char>, i: int)
    requires
        store.well_formed(),
        0 <= i < store.history(id).len(),
    ensures
        store.history(id)[i].tile.id == id,
        store.history(id)[i].version == i + 1,
        i == 0 ==> store.history(id)[i].parent_version is None,
        i > 0 ==> store.history(id)[i].parent_version == Some(store.history(id)[i - 1].version),
        i > 0 ==> store.history(id)[i].parent_version == Some(i as u32),
{
    assert(is_history(id, store.histories[id]));
}

/// A store that holds nothing has no version of any tile.
pub proof fn empty_store_has_no_versions(id: Seq<char>)
    ensures
        StoreView::empty().history(id).len() == 0,
        StoreView::empty().latest().len() == 0,
{
}

/// Storing a tile puts it in the place of the version before it among the latest versions, or at the
/// end where it is the first of its id, and leaves the others where they were.
pub proof fn latest_after_storing(store: StoreView, t: tile::TileView, now: u64)
    requires
        store.well_formed(),
        store.history(t.id).len() < u32::MAX,
    ensures
        ({
            let before = store.latest();
            let after = store.stored(t, now).latest();
            let new = store.stored(t, now).history(t.id).last();
            &&& new.tile == t
            &&& forall|i: int|
                0 <= i < before.len() ==> #[trigger] after[i] == if before[i].tile.id == t.id {
                    new
                } else {
                    before[i]
                }
            &&& store.history(t.id).len() > 0 ==> after.len() == before.len()
            &&& store.history(t.id).len() == 0 ==> after.len() == before.len() + 1 && after.last()
                == new
        }),
{
    let next = store.stored(t, now);
    latest_lists_each_tile_once(store);
    if store.histories.contains_key(t.id) {
        assert(is_history(t.id, store.histories[t.id]));
    }
    assert forall|i: int| 0 <= i < store.latest().len() implies #[trigger] next.latest()[i] == (if
    store.latest()[i].tile.id == t.id {
        next.history(t.id).last()
    } else {
        store.latest()[i]
    }) by {
        assert(store.latest()[i].tile.id == store.ids[i]);
        assert(next.ids[i] == store.ids[i]);
    }
}

/// A version says what its fields hold, and a list of versions says what each of them says.
pub proof fn versions_say_what_they_hold(
    s: StoredTile,
    versions: Seq<StoredTile>,
    references: Seq<&StoredTile>,
)
    ensures
        s@.tile == s.tile@,
        s@.version == s.version,
        s@.parent_version == s.parent_version,
        s@.stored_at == s.stored_at,
        stored_views(versions).len() == versions.len(),
        forall|i: int|
            0 <= i < versions.len() ==> #[trigger] stored_views(versions)[i] == versions[i]@,
        stored_references(references).len() == references.len(),
        forall|i: int|
            0 <= i < references.len() ==> #[trigger] stored_references(references)[i]
                == references[i]@,
{
}

} // verus!
