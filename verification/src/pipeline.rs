//! From a raw tile to a stored, searchable one.
use crate::binary64;
use crate::binary64::Binary64;
use crate::dedup;
use crate::dedup::TileDedup;
use crate::float_laws;
use crate::score;
use crate::score::{Score, TileScorer};
use crate::store;
use crate::store::{StoredTile, TileStore};
use crate::tile;
use crate::tile::Tile;
use crate::validate;
use crate::validate::ValidationGate;
use vstd::prelude::*;

verus! {

/// What became of a tile.
pub enum PipelineResult {
    /// It passed every gate and was stored.
    Accepted { tile_id: String, score: Score, version: u32, is_duplicate: bool },
    /// It did not pass the gates with these names.
    Rejected { failures: Vec<&'static str> },
}

/// What a `Pipeline` holds: the store, and every tile that it accepted, in order.
pub struct PipelineView {
    pub store: store::StoreView,
    pub accepted: Seq<tile::TileView>,
}

/// The tiles of a list of versions.
pub open spec fn tiles_of(versions: Seq<store::StoredView>) -> Seq<tile::TileView> {
    versions.map_values(|s: store::StoredView| s.tile)
}

/// The tiles with the given id.
pub open spec fn with_id(tiles: Seq<tile::TileView>, id: Seq<char>) -> Seq<tile::TileView> {
    tiles.filter(|t: tile::TileView| t.id == id)
}

/// A tile found by a search, with its score.
pub type Hit = (Score, tile::TileView);

/// The hits among the versions of a list, in their order: those that share enough words with the
/// query.
pub open spec fn hits_among(
    versions: Seq<store::StoredView>,
    query: Seq<char>,
    now: u64,
) -> Seq<Hit>
    decreases versions.len(),
{
    if versions.len() == 0 {
        Seq::empty()
    } else {
        let hits = hits_among(versions.drop_last(), query, now);
        let s = score::score_of(versions.last().tile, query, now);
        if s.relevant() {
            hits.push((s, versions.last().tile))
        } else {
            hits
        }
    }
}

/// The first place in `items`, at `from` or after it, whose key is below `x`.
pub open spec fn place<T>(
    items: Seq<T>,
    key: spec_fn(T) -> Binary64,
    x: Binary64,
    from: nat,
) -> nat
    decreases items.len() - from,
{
    if from >= items.len() || binary64::less(key(items[from as int]), x) {
        from
    } else {
        place(items, key, x, from + 1)
    }
}

/// The items ordered by their keys, the largest first; equal ones stay in their order.
pub open spec fn ranked_by<T>(items: Seq<T>, key: spec_fn(T) -> Binary64) -> Seq<T>
    decreases items.len(),
{
    if items.len() == 0 {
        Seq::empty()
    } else {
        let rest = ranked_by(items.drop_last(), key);
        rest.insert(place(rest, key, key(items.last()), 0) as int, items.last())
    }
}

/// The keyword signal of a hit.
pub open spec fn keyword_of() -> spec_fn(Hit) -> Binary64 {
    |h: Hit| h.0.keyword
}

/// The value that a tile was found with.
pub open spec fn value_of<T>() -> spec_fn((Binary64, T)) -> Binary64 {
    |h: (Binary64, T)| h.0
}

/// The hits with the values of their scores in place of the signals; `temporals` holds the temporal
/// signal of each.
pub open spec fn scored<T>(hits: Seq<(Score, T)>, temporals: Seq<Binary64>) -> Seq<(Binary64, T)> {
    Seq::new(hits.len(), |i: int| (hits[i].0.total(temporals[i]), hits[i].1))
}

/// The hits ordered by keyword signal, the largest first; equal ones stay in their order.
pub open spec fn ranked(hits: Seq<Hit>) -> Seq<Hit> {
    ranked_by(hits, keyword_of())
}

/// The hits that a list of scored references stands for.
pub open spec fn hit_views(hits: Seq<(Score, &Tile)>) -> Seq<Hit> {
    hits.map_values(|h: (Score, &Tile)| (h.0, h.1@))
}

/// The tiles and values that a list of references with values stands for.
pub open spec fn value_views(results: Seq<(Binary64, &Tile)>) -> Seq<(Binary64, tile::TileView)> {
    results.map_values(|h: (Binary64, &Tile)| (h.0, h.1@))
}

impl PipelineView {
    /// A pipeline that has not accepted a tile yet.
    pub open spec fn empty() -> PipelineView {
        PipelineView { store: store::StoreView::empty(), accepted: Seq::empty() }
    }

    /// The store is well-formed, each history holds the accepted tiles with its id in order, and
    /// every version was valid when it was stored.
    pub open spec fn well_formed(self) -> bool {
        &&& self.store.well_formed()
        &&& forall|id: Seq<char>|
            tiles_of(#[trigger] self.store.history(id)) == with_id(self.accepted, id)
        &&& forall|id: Seq<char>, i: int|
            #![trigger self.store.history(id)[i]]
            0 <= i < self.store.history(id).len() ==> validate::valid(
                self.store.history(id)[i].tile,
                self.store.history(id)[i].stored_at,
            )
    }

    /// The pipeline after it accepted `t` at the time `now`.
    pub open spec fn accepting(self, t: tile::TileView, now: u64) -> PipelineView {
        PipelineView { store: self.store.stored(t, now), accepted: self.accepted.push(t) }
    }

    /// The latest versions that share enough words with the query, the best match first.
    pub open spec fn hits(self, query: Seq<char>, now: u64) -> Seq<Hit> {
        ranked(hits_among(self.store.latest(), query, now))
    }

    /// The hits with the values of their scores, the largest first; `temporals` holds the temporal
    /// signal of each hit.
    pub open spec fn results(
        self,
        query: Seq<char>,
        now: u64,
        temporals: Seq<Binary64>,
    ) -> Seq<(Binary64, tile::TileView)> {
        ranked_by(scored(self.hits(query, now), temporals), value_of())
    }
}

/// From a raw tile to a stored, searchable one.
pub struct Pipeline {
    store: TileStore,
    tiles: Vec<Tile>,
}

impl View for Pipeline {
    type V = PipelineView;

    closed spec fn view(&self) -> PipelineView {
        PipelineView { store: self.store@, accepted: tile::tile_views(self.tiles@) }
    }
}

impl Pipeline {
    #[verifier::type_invariant]
    spec fn consistent(self) -> bool {
        self@.well_formed()
    }

    /// A pipeline that has not accepted a tile yet.
    pub fn new() -> (r: Pipeline)
        ensures
            r@ == PipelineView::empty(),
    {
        let store = TileStore::new();
        let tiles: Vec<Tile> = Vec::new();
        proof {
            assert(tile::tile_views(tiles@) =~= Seq::empty());
            empty_pipeline_well_formed();
        }
        Pipeline { store, tiles }
    }

    /// Every tile that was accepted, in order.
    pub fn tiles(&self) -> (r: &[Tile])
        ensures
            tile::tile_views(r@) == self@.accepted,
            self@.well_formed(),
    {
        proof {
            use_type_invariant(self);
        }
        self.tiles.as_slice()
    }

    /// Validates `tile`; where it passes every gate, scores it against `query`, says whether it is
    /// a duplicate of a tile accepted before, and stores it as the next version.
    pub fn process(&mut self, tile: Tile, query: &str, now: u64) -> (r: PipelineResult)
        requires
            validate::valid(tile@, now) ==> old(self)@.store.history(tile@.id).len() < u32::MAX,
        ensures
            match r {
                PipelineResult::Rejected { failures } => {
                    &&& !validate::valid(tile@, now)
                    &&& validate::names(failures@) == validate::failures_of(tile@, now)
                    &&& final(self)@ == old(self)@
                },
                PipelineResult::Accepted { tile_id, score, version, is_duplicate } => {
                    &&& validate::valid(tile@, now)
                    &&& tile_id@ == tile@.id
                    &&& score == score::score_of(tile@, query@, now)
                    &&& version == old(self)@.store.history(tile@.id).len() + 1
                    &&& is_duplicate == dedup::has_duplicate(old(self)@.accepted, tile@)
                    &&& final(self)@ == old(self)@.accepting(tile@, now)
                },
            },
            final(self)@.well_formed(),
    {
        let ghost before = self@;
        proof {
            use_type_invariant(&*self);
        }
        let (valid, failures) = ValidationGate::validate_all(&tile, now);
        if !valid {
            return PipelineResult::Rejected { failures };
        }
        let score = TileScorer::score(&tile, query, now);
        let is_dup = TileDedup::any_duplicate(self.tiles.as_slice(), &tile);
        let tile_id = tile.id.clone();
        let ghost t = tile@;
        let mut taken = Pipeline::new();
        std::mem::swap(&mut taken, self);
        let Pipeline { mut store, mut tiles } = taken;
        let version = store.insert(tile.clone(), now);
        let ghost old_tiles = tiles@;
        tiles.push(tile);
        proof {
            assert(tile::tile_views(tiles@) =~= tile::tile_views(old_tiles).push(t));
            accepting_keeps_well_formed(before, t, now);
        }
        *self = Pipeline { store, tiles };
        PipelineResult::Accepted { tile_id, score, version, is_duplicate: is_dup }
    }

    /// The latest version of the tile with the given id.
    pub fn get(&self, id: &str) -> (r: Option<&StoredTile>)
        ensures
            match r {
                Some(s) => {
                    &&& self@.store.history(id@).len() > 0
                    &&& s@ == self@.store.history(id@).last()
                },
                None => self@.store.history(id@).len() == 0,
            },
            self@.well_formed(),
    {
        proof {
            use_type_invariant(self);
        }
        self.store.get_latest(id)
    }

    /// How many versions of the tile with the given id there are.
    pub fn history(&self, id: &str) -> (n: usize)
        ensures
            n == self@.store.history(id@).len(),
            self@.well_formed(),
    {
        proof {
            use_type_invariant(self);
        }
        self.store.version_count(id)
    }

    /// The latest version of each tile that shares enough words with `query`, with its score; the
    /// best match of words first, equal ones in the order in which they were first stored.
    pub fn search(&self, query: &str, now: u64) -> (r: Vec<(Score, &Tile)>)
        ensures
            hit_views(r@) == self@.hits(query@, now),
            forall|i: int, temporal: Binary64|
                0 <= i < r@.len() && float_laws::non_negative(temporal) ==> binary64::less(
                    binary64::zero(),
                    (#[trigger] r@[i].0.total(temporal)),
                ) && binary64::less(binary64::ratio_of(235, 1000), r@[i].0.total(temporal)),
            forall|i: int, j: int|
                0 <= i < j < r@.len() ==> (#[trigger] r@[i]).1.id@ != (#[trigger] r@[j]).1.id@,
            self@.well_formed(),
    {
        proof {
            use_type_invariant(self);
        }
        let latest = self.store.all_latest();
        let ghost versions = self@.store.latest();
        let mut r: Vec<(Score, &Tile)> = Vec::new();
        let mut i: usize = 0;
        assert(hit_views(r@) =~= ranked(hits_among(versions.take(0), query@, now)));
        while i < latest.len()
            invariant
                store::stored_references(latest@) == versions,
                versions == self@.store.latest(),
                self@.well_formed(),
                i <= latest.len(),
                hit_views(r@) == ranked(hits_among(versions.take(i as int), query@, now)),
                forall|k: int|
                    0 <= k < r@.len() ==> score::non_negative_signals((#[trigger] r@[k]).0)
                        && binary64::at_most(binary64::ratio_of(3, 10), r@[k].0.belief)
                        && r@[k].0.relevant(),
            decreases latest.len() - i,
        {
            let stored: &StoredTile = latest[i];
            let s = TileScorer::score(&stored.tile, query, now);
            let ghost hits = hits_among(versions.take(i as int), query@, now);
            let ghost before = hit_views(r@);
            proof {
                assert(versions[i as int] == stored@);
                assert(versions.take(i + 1).drop_last() =~= versions.take(i as int));
                assert(versions.take(i + 1).last() == stored@);
            }
            proof {
                lemma_latest_valid(self@, i as int);
                score::confident_signals_non_negative(stored.tile@, query@, now);
            }
            if s.is_relevant() {
                let mut p: usize = 0;
                while p < r.len() && !r[p].0.keyword.lt(s.keyword)
                    invariant
                        p <= r.len(),
                        before == hit_views(r@),
                        place(before, keyword_of(), s.keyword, 0) == place(
                            before,
                            keyword_of(),
                            s.keyword,
                            p as nat,
                        ),
                    decreases r.len() - p,
                {
                    assert(before[p as int].0 == r[p as int].0);
                    p = p + 1;
                }
                proof {
                    if p < r.len() {
                        assert(before[p as int].0 == r[p as int].0);
                    }
                    assert(place(before, keyword_of(), s.keyword, p as nat) == p);
                    let hit = (s, stored.tile@);
                    assert(hits.push(hit).drop_last() =~= hits);
                    assert(hits.push(hit).last() == hit);
                }
                r.insert(p, (s, &stored.tile));
                assert(hit_views(r@) =~= before.insert(p as int, (s, stored.tile@)));
            }
            i = i + 1;
        }
        assert(versions.take(versions.len() as int) =~= versions);
        assert forall|i: int, temporal: Binary64|
            0 <= i < r@.len() && float_laws::non_negative(temporal) implies binary64::less(
            binary64::zero(),
            (#[trigger] r@[i].0.total(temporal)),
        ) && binary64::less(binary64::ratio_of(235, 1000), r@[i].0.total(temporal)) by {
            assert(score::non_negative_signals(r@[i].0));
            score::relevant_scores_positive(r@[i].0, temporal);
            score::confident_scores_above(r@[i].0, temporal);
        }
        assert forall|i: int, j: int| 0 <= i < j < r@.len() implies (#[trigger] r@[i]).1.id@ != (
        #[trigger] r@[j]).1.id@ by {
            no_tile_is_found_twice(self@, query@, now, i, j);
            assert(hit_views(r@)[i].1 == r@[i].1@ && hit_views(r@)[j].1 == r@[j].1@);
        }
        r
    }
}

/// A pipeline that has not accepted a tile yet is well-formed.
pub proof fn empty_pipeline_well_formed()
    ensures
        PipelineView::empty().well_formed(),
{
    let view = PipelineView::empty();
    store::empty_store_well_formed();
    reveal(Seq::filter);
    assert forall|id: Seq<char>| tiles_of(#[trigger] view.store.history(id)) == with_id(
        view.accepted,
        id,
    ) by {
        assert(tiles_of(view.store.history(id)) =~= with_id(view.accepted, id));
    }
}

/// Accepting a valid tile keeps a pipeline well-formed.
pub proof fn accepting_keeps_well_formed(p: PipelineView, t: tile::TileView, now: u64)
    requires
        p.well_formed(),
        validate::valid(t, now),
        p.store.history(t.id).len() < u32::MAX,
    ensures
        p.accepting(t, now).well_formed(),
{
    let after = p.accepting(t, now);
    store::store_keeps_well_formed(p.store, t, now);
    assert forall|id: Seq<char>| tiles_of(#[trigger] after.store.history(id)) == with_id(
        after.accepted,
        id,
    ) by {
        reveal(Seq::filter);
        assert(after.accepted.drop_last() =~= p.accepted);
        assert(tiles_of(p.store.history(id)) == with_id(p.accepted, id));
        if id == t.id {
            assert(tiles_of(after.store.history(id)) =~= tiles_of(p.store.history(id)).push(t));
        } else {
            assert(after.store.history(id) == p.store.history(id));
        }
    }
    assert forall|id: Seq<char>, i: int|
        #![trigger after.store.history(id)[i]]
        0 <= i < after.store.history(id).len() implies validate::valid(
        after.store.history(id)[i].tile,
        after.store.history(id)[i].stored_at,
    ) by {
        if id == t.id && i < p.store.history(id).len() {
            assert(after.store.history(id)[i] == p.store.history(id)[i]);
        } else if id != t.id {
            assert(after.store.history(id) == p.store.history(id));
            assert(after.store.history(id)[i] == p.store.history(id)[i]);
        }
    }
}

/// Every latest version was valid when it was stored.
proof fn lemma_latest_valid(p: PipelineView, i: int)
    requires
        p.well_formed(),
        0 <= i < p.store.latest().len(),
    ensures
        validate::valid(p.store.latest()[i].tile, p.store.latest()[i].stored_at),
{
    let id = p.store.ids[i];
    assert(p.store.ids.contains(id));
    assert(p.store.histories.contains_key(id));
    let last = p.store.history(id).len() - 1;
    assert(p.store.history(id)[last] == p.store.latest()[i]);
}

/// An accepted tile is what its id gives afterwards.
pub proof fn accepted_tile_is_the_latest(p: PipelineView, t: tile::TileView, now: u64)
    requires
        p.well_formed(),
        p.store.history(t.id).len() < u32::MAX,
    ensures
        p.accepting(t, now).store.history(t.id).last().tile == t,
        p.accepting(t, now).store.history(t.id).len() == p.store.history(t.id).len() + 1,
{
    store::stored_tile_is_the_latest(p.store, t, now);
}

/// The history of an id is as long as the number of accepted tiles with that id.
pub proof fn history_counts_accepted_tiles(p: PipelineView, id: Seq<char>)
    requires
        p.well_formed(),
    ensures
        p.store.history(id).len() == with_id(p.accepted, id).len(),
{
    assert(tiles_of(p.store.history(id)).len() == p.store.history(id).len());
}

/// A tile with the question and answer of one that was accepted is flagged as a duplicate, whatever
/// its id is, and whatever was accepted in between.
pub proof fn repeated_content_is_flagged(p: PipelineView, i: int, t: tile::TileView)
    requires
        0 <= i < p.accepted.len(),
        p.accepted[i].question == t.question,
        p.accepted[i].answer == t.answer,
    ensures
        dedup::has_duplicate(p.accepted, t),
{
    assert(dedup::duplicate(p.accepted[i], t));
}

/// The first place found is in range; what stands before it is not below, what stands at it is.
proof fn lemma_place<T>(items: Seq<T>, key: spec_fn(T) -> Binary64, x: Binary64, from: nat)
    requires
        from <= items.len(),
    ensures
        from <= place(items, key, x, from) <= items.len(),
        forall|i: int|
            from <= i < place(items, key, x, from) ==> !binary64::less(
                key(#[trigger] items[i]),
                x,
            ),
        place(items, key, x, from) < items.len() ==> binary64::less(
            key(items[place(items, key, x, from) as int]),
            x,
        ),
    decreases items.len() - from,
{
    if from < items.len() && !binary64::less(key(items[from as int]), x) {
        lemma_place(items, key, x, from + 1);
    }
}

/// Ranking neither loses nor adds an item.
pub proof fn ranking_keeps_the_items<T>(items: Seq<T>, key: spec_fn(T) -> Binary64)
    ensures
        ranked_by(items, key).to_multiset() == items.to_multiset(),
        ranked_by(items, key).len() == items.len(),
    decreases items.len(),
{
    broadcast use vstd::seq_lib::group_to_multiset_ensures;

    if items.len() > 0 {
        let rest = ranked_by(items.drop_last(), key);
        let h = items.last();
        ranking_keeps_the_items(items.drop_last(), key);
        lemma_place(rest, key, key(h), 0);
        let p = place(rest, key, key(h), 0) as int;
        assert(items =~= items.drop_last().push(h));
        vstd::seq_lib::to_multiset_insert(rest, p, h);
    } else {
        assert(ranked_by(items, key) =~= items);
    }
}

/// No item comes before one with a larger key.
pub proof fn larger_keys_come_first<T>(
    items: Seq<T>,
    key: spec_fn(T) -> Binary64,
    i: int,
    j: int,
)
    requires
        0 <= i < j < ranked_by(items, key).len(),
    ensures
        !binary64::less(key(ranked_by(items, key)[i]), key(ranked_by(items, key)[j])),
    decreases items.len(),
{
    let rest = ranked_by(items.drop_last(), key);
    let h = items.last();
    lemma_place(rest, key, key(h), 0);
    let p = place(rest, key, key(h), 0) as int;
    if i < p && j == p {
        assert(rest[i] == ranked_by(items, key)[i]);
    } else if i == p {
        if j - 1 > p {
            larger_keys_come_first(items.drop_last(), key, p, j - 1);
        }
    } else {
        let i0 = if i < p {
            i
        } else {
            i - 1
        };
        let j0 = if j < p {
            j
        } else {
            j - 1
        };
        larger_keys_come_first(items.drop_last(), key, i0, j0);
    }
}

/// Ranking neither loses nor adds a hit.
pub proof fn ranking_keeps_the_hits(hits: Seq<Hit>)
    ensures
        ranked(hits).to_multiset() == hits.to_multiset(),
        ranked(hits).len() == hits.len(),
{
    ranking_keeps_the_items(hits, keyword_of());
}

/// No hit comes before one with a larger keyword signal.
pub proof fn better_matches_come_first(hits: Seq<Hit>, i: int, j: int)
    requires
        0 <= i < j < ranked(hits).len(),
    ensures
        !binary64::less(ranked(hits)[i].0.keyword, ranked(hits)[j].0.keyword),
{
    larger_keys_come_first(hits, keyword_of(), i, j);
}

/// The tiles of a search with the values of their scores, the largest value first; equal ones stay
/// in their order.
pub fn rank_by_value<'a>(hits: &Vec<(Binary64, &'a Tile)>) -> (r: Vec<(Binary64, &'a Tile)>)
    ensures
        r@ == ranked_by(hits@, value_of()),
        r@.to_multiset() == hits@.to_multiset(),
        forall|i: int, j: int|
            0 <= i < j < r@.len() ==> !binary64::less(
                (#[trigger] r@[i]).0,
                (#[trigger] r@[j]).0,
            ),
{
    let mut r: Vec<(Binary64, &'a Tile)> = Vec::new();
    let mut i: usize = 0;
    while i < hits.len()
        invariant
            i <= hits.len(),
            r@ == ranked_by(hits@.take(i as int), value_of()),
        decreases hits.len() - i,
    {
        let value: Binary64 = hits[i].0;
        let mut p: usize = 0;
        while p < r.len() && !r[p].0.lt(value)
            invariant
                p <= r.len(),
                place(r@, value_of(), value, 0) == place(r@, value_of(), value, p as nat),
            decreases r.len() - p,
        {
            p = p + 1;
        }
        proof {
            assert(place(r@, value_of(), value, p as nat) == p);
            assert(hits@.take(i + 1).drop_last() =~= hits@.take(i as int));
            assert(hits@.take(i + 1).last() == hits@[i as int]);
        }
        r.insert(p, (value, hits[i].1));
        i = i + 1;
    }
    proof {
        assert(hits@.take(hits@.len() as int) =~= hits@);
        ranking_keeps_the_items(hits@, value_of());
        assert forall|i: int, j: int| 0 <= i < j < r@.len() implies !binary64::less(
            (#[trigger] r@[i]).0,
            (#[trigger] r@[j]).0,
        ) by {
            larger_keys_come_first(hits@, value_of(), i, j);
        }
    }
    r
}

/// Ranking goes along with a change of the items that keeps their keys.
proof fn lemma_ranking_maps<S, T>(
    items: Seq<S>,
    key: spec_fn(S) -> Binary64,
    f: spec_fn(S) -> T,
    mapped_key: spec_fn(T) -> Binary64,
)
    requires
        forall|x: S| #[trigger] mapped_key(f(x)) == key(x),
    ensures
        ranked_by(items, key).map_values(f) == ranked_by(items.map_values(f), mapped_key),
    decreases items.len(),
{
    if items.len() > 0 {
        let rest = ranked_by(items.drop_last(), key);
        let h = items.last();
        lemma_ranking_maps(items.drop_last(), key, f, mapped_key);
        lemma_place_maps(rest, key, f, mapped_key, key(h), 0);
        lemma_place(rest, key, key(h), 0);
        let p = place(rest, key, key(h), 0) as int;
        assert(items.map_values(f).drop_last() =~= items.drop_last().map_values(f));
        assert(items.map_values(f).last() == f(h));
        assert(rest.insert(p, h).map_values(f) =~= rest.map_values(f).insert(p, f(h)));
    } else {
        assert(ranked_by(items, key).map_values(f) =~= ranked_by(items.map_values(f), mapped_key));
    }
}

/// The place found goes along with a change of the items that keeps their keys.
proof fn lemma_place_maps<S, T>(
    items: Seq<S>,
    key: spec_fn(S) -> Binary64,
    f: spec_fn(S) -> T,
    mapped_key: spec_fn(T) -> Binary64,
    x: Binary64,
    from: nat,
)
    requires
        forall|y: S| #[trigger] mapped_key(f(y)) == key(y),
        from <= items.len(),
    ensures
        place(items.map_values(f), mapped_key, x, from) == place(items, key, x, from),
    decreases items.len() - from,
{
    if from < items.len() {
        assert(items.map_values(f)[from as int] == f(items[from as int]));
        lemma_place_maps(items, key, f, mapped_key, x, from + 1);
    }
}

/// The hits of a search with the values of their scores, the largest value first; equal ones stay in
/// their order. `temporals` holds the temporal signal of each hit: one half to the power
/// `half_lives`.
pub fn rank_by_score<'a>(
    hits: &Vec<(Score, &'a Tile)>,
    temporals: &Vec<Binary64>,
) -> (r: Vec<(Binary64, &'a Tile)>)
    requires
        hits@.len() == temporals@.len(),
    ensures
        value_views(r@) == ranked_by(scored(hit_views(hits@), temporals@), value_of()),
        r@.to_multiset() == scored(hits@, temporals@).to_multiset(),
        forall|i: int, j: int|
            0 <= i < j < r@.len() ==> !binary64::less(
                (#[trigger] r@[i]).0,
                (#[trigger] r@[j]).0,
            ),
        (forall|k: int|
            0 <= k < hits@.len() ==> !(#[trigger] hits@[k].0.total(temporals@[k])).nan()) ==> (
        forall|i: int, j: int|
            0 <= i < j < r@.len() ==> binary64::at_most(
                (#[trigger] r@[j]).0,
                (#[trigger] r@[i]).0,
            )),
{
    let mut values: Vec<(Binary64, &'a Tile)> = Vec::new();
    let mut i: usize = 0;
    while i < hits.len()
        invariant
            i <= hits.len(),
            hits@.len() == temporals@.len(),
            values@ == scored(hits@, temporals@).take(i as int),
        decreases hits.len() - i,
    {
        values.push((hits[i].0.value(temporals[i]), hits[i].1));
        assert(values@ =~= scored(hits@, temporals@).take(i + 1));
        i = i + 1;
    }
    assert(values@ =~= scored(hits@, temporals@));
    proof {
        let f = |h: (Binary64, &Tile)| (h.0, h.1@);
        lemma_ranking_maps(values@, value_of(), f, value_of());
        assert(values@.map_values(f) =~= scored(hit_views(hits@), temporals@));
    }
    let r = rank_by_value(&values);
    proof {
        assert forall|n: int|
            0 <= n < r@.len() && (forall|k: int|
                0 <= k < hits@.len() ==> !(#[trigger] hits@[k].0.total(
                    temporals@[k],
                )).nan()) implies !(#[trigger] r@[n]).0.nan() by {
            assert(r@.contains(r@[n]));
            vstd::seq_lib::to_multiset_contains(r@, r@[n]);
            vstd::seq_lib::to_multiset_contains(values@, r@[n]);
            let k = choose|k: int| 0 <= k < values@.len() && values@[k] == r@[n];
            assert(values@[k].0 == hits@[k].0.total(temporals@[k]));
        }
    }
    r
}

/// The hits are the relevant ones among the versions.
proof fn lemma_hits_among(versions: Seq<store::StoredView>, query: Seq<char>, now: u64, hit: Hit)
    ensures
        hits_among(versions, query, now).contains(hit) <==> {
            &&& hit.0.relevant()
            &&& hit.0 == score::score_of(hit.1, query, now)
            &&& tiles_of(versions).contains(hit.1)
        },
    decreases versions.len(),
{
    let hits = hits_among(versions, query, now);
    let tiles = tiles_of(versions);
    if versions.len() > 0 {
        let rest = versions.drop_last();
        let s = score::score_of(versions.last().tile, query, now);
        let fewer = hits_among(rest, query, now);
        lemma_hits_among(rest, query, now, hit);
        assert(tiles =~= tiles_of(rest).push(versions.last().tile));
        vstd::seq_lib::lemma_seq_contains_after_push(
            tiles_of(rest),
            versions.last().tile,
            hit.1,
        );
        if s.relevant() {
            vstd::seq_lib::lemma_seq_contains_after_push(fewer, (s, versions.last().tile), hit);
        }
    }
}

/// A search finds exactly those latest versions whose score is above zero, whatever the temporal
/// signal is, as long as it is not negative.
pub proof fn search_finds_the_positive_scores(
    p: PipelineView,
    query: Seq<char>,
    now: u64,
    temporal: Binary64,
    i: int,
)
    requires
        p.well_formed(),
        0 <= i < p.store.latest().len(),
        score::countable(p.store.latest()[i].tile, query),
        float_laws::non_negative(temporal),
    ensures
        ({
            let t = p.store.latest()[i].tile;
            let s = score::score_of(t, query, now);
            p.hits(query, now).contains((s, t)) <==> binary64::less(
                binary64::zero(),
                s.total(temporal),
            )
        }),
{
    let t = p.store.latest()[i].tile;
    let s = score::score_of(t, query, now);
    let among = hits_among(p.store.latest(), query, now);
    lemma_latest_valid(p, i);
    lemma_hits_among(p.store.latest(), query, now, (s, t));
    assert(tiles_of(p.store.latest())[i] == t);
    ranking_keeps_the_hits(among);
    vstd::seq_lib::to_multiset_contains(ranked(among), (s, t));
    vstd::seq_lib::to_multiset_contains(among, (s, t));
    if s.relevant() {
        score::keyword_signal_in_unit_interval(t, query);
        score::confident_signals_non_negative(t, query, now);
        score::relevant_scores_positive(s, temporal);
    }
}

/// Every hit is the latest version of a tile that was valid when it was stored, with its score.
proof fn lemma_hit_valid(p: PipelineView, query: Seq<char>, now: u64, k: int)
    requires
        p.well_formed(),
        0 <= k < p.hits(query, now).len(),
    ensures
        ({
            let (s, t) = p.hits(query, now)[k];
            &&& s.relevant()
            &&& s == score::score_of(t, query, now)
            &&& validate::confident(t)
        }),
{
    let hit = p.hits(query, now)[k];
    let among = hits_among(p.store.latest(), query, now);
    ranking_keeps_the_hits(among);
    assert(ranked(among).contains(hit));
    vstd::seq_lib::to_multiset_contains(ranked(among), hit);
    vstd::seq_lib::to_multiset_contains(among, hit);
    lemma_hits_among(p.store.latest(), query, now, hit);
    let i = choose|i: int|
        0 <= i < tiles_of(p.store.latest()).len() && tiles_of(p.store.latest())[i] == hit.1;
    lemma_latest_valid(p, i);
}

/// A stored tile that a search finds scores above 0.235.
pub proof fn found_tiles_score_above(
    p: PipelineView,
    query: Seq<char>,
    now: u64,
    temporal: Binary64,
    k: int,
)
    requires
        p.well_formed(),
        0 <= k < p.hits(query, now).len(),
        score::countable(p.hits(query, now)[k].1, query),
        float_laws::non_negative(temporal),
    ensures
        binary64::less(
            binary64::ratio_of(235, 1000),
            p.hits(query, now)[k].0.total(temporal),
        ),
{
    let t = p.hits(query, now)[k].1;
    lemma_hit_valid(p, query, now, k);
    score::keyword_signal_in_unit_interval(t, query);
    score::confident_signals_non_negative(t, query, now);
    score::confident_scores_above(score::score_of(t, query, now), temporal);
}

/// The results of a search are its hits, each with its score.
pub proof fn results_are_the_hits(
    p: PipelineView,
    query: Seq<char>,
    now: u64,
    temporals: Seq<Binary64>,
)
    ensures
        p.results(query, now, temporals).to_multiset() == scored(
            p.hits(query, now),
            temporals,
        ).to_multiset(),
        p.results(query, now, temporals).len() == p.hits(query, now).len(),
{
    ranking_keeps_the_items(scored(p.hits(query, now), temporals), value_of());
}

/// The results of a search are ranked by score, the best first.
pub proof fn best_scores_come_first(
    p: PipelineView,
    query: Seq<char>,
    now: u64,
    temporals: Seq<Binary64>,
    i: int,
    j: int,
)
    requires
        p.well_formed(),
        temporals.len() == p.hits(query, now).len(),
        forall|k: int|
            0 <= k < temporals.len() ==> float_laws::non_negative(#[trigger] temporals[k]),
        forall|k: int|
            0 <= k < p.hits(query, now).len() ==> score::countable(
                (#[trigger] p.hits(query, now)[k]).1,
                query,
            ),
        0 <= i < j < p.results(query, now, temporals).len(),
    ensures
        binary64::at_most(
            p.results(query, now, temporals)[j].0,
            p.results(query, now, temporals)[i].0,
        ),
{
    let values = scored(p.hits(query, now), temporals);
    let results = p.results(query, now, temporals);
    larger_keys_come_first(values, value_of(), i, j);
    ranking_keeps_the_items(values, value_of());
    assert forall|n: int| 0 <= n < results.len() implies !(#[trigger] results[n]).0.nan() by {
        assert(results.contains(results[n]));
        vstd::seq_lib::to_multiset_contains(results, results[n]);
        vstd::seq_lib::to_multiset_contains(values, results[n]);
        let k = choose|k: int| 0 <= k < values.len() && values[k] == results[n];
        assert(float_laws::non_negative(temporals[k]));
        found_tiles_score_above(p, query, now, temporals[k], k);
    }
}

/// The hits among some versions are the relevant ones of them, once each and in their order, with
/// their scores.
pub proof fn hits_are_the_relevant_versions(
    versions: Seq<store::StoredView>,
    query: Seq<char>,
    now: u64,
)
    ensures
        hits_among(versions, query, now) == versions.filter(
            |v: store::StoredView| score::score_of(v.tile, query, now).relevant(),
        ).map_values(
            |v: store::StoredView| (score::score_of(v.tile, query, now), v.tile),
        ),
    decreases versions.len(),
{
    let relevant = |v: store::StoredView| score::score_of(v.tile, query, now).relevant();
    let scored_tile = |v: store::StoredView| (score::score_of(v.tile, query, now), v.tile);
    let found = versions.filter(relevant);
    reveal(Seq::filter);
    if versions.len() > 0 {
        let rest = versions.drop_last();
        hits_are_the_relevant_versions(rest, query, now);
        if relevant(versions.last()) {
            assert(found.map_values(scored_tile) =~= rest.filter(relevant).map_values(
                scored_tile,
            ).push(scored_tile(versions.last())));
        }
    } else {
        assert(found.map_values(scored_tile) =~= hits_among(versions, query, now));
    }
}

/// No two of the hits have the same id.
spec fn different_ids(hits: Seq<Hit>) -> bool {
    forall|i: int, j: int|
        0 <= i < j < hits.len() ==> (#[trigger] hits[i]).1.id != (#[trigger] hits[j]).1.id
}

/// The hits among versions of different tiles are different tiles.
proof fn lemma_hits_differ(versions: Seq<store::StoredView>, query: Seq<char>, now: u64)
    requires
        forall|i: int, j: int|
            0 <= i < j < versions.len() ==> (#[trigger] versions[i]).tile.id != (
            #[trigger] versions[j]).tile.id,
    ensures
        different_ids(hits_among(versions, query, now)),
    decreases versions.len(),
{
    if versions.len() > 0 {
        let rest = versions.drop_last();
        let hits = hits_among(rest, query, now);
        assert forall|i: int, j: int| 0 <= i < j < rest.len() implies (#[trigger]
        rest[i]).tile.id != (#[trigger] rest[j]).tile.id by {
            assert(versions[i].tile.id != versions[j].tile.id);
        }
        lemma_hits_differ(rest, query, now);
        assert forall|i: int| 0 <= i < hits.len() implies (#[trigger] hits[i]).1.id
            != versions.last().tile.id by {
            lemma_hits_among(rest, query, now, hits[i]);
            assert(hits.contains(hits[i]));
            let k = choose|k: int| 0 <= k < tiles_of(rest).len() && tiles_of(rest)[k] == hits[i].1;
            assert(versions[k].tile.id != versions[versions.len() - 1].tile.id);
        }
    }
}

/// Ranking keeps different tiles different.
proof fn lemma_ranked_differ(hits: Seq<Hit>)
    requires
        different_ids(hits),
    ensures
        different_ids(ranked(hits)),
    decreases hits.len(),
{
    if hits.len() > 0 {
        let fewer = hits.drop_last();
        let rest = ranked(fewer);
        let h = hits.last();
        assert forall|i: int, j: int| 0 <= i < j < fewer.len() implies (#[trigger] fewer[i]).1.id
            != (#[trigger] fewer[j]).1.id by {
            assert(hits[i].1.id != hits[j].1.id);
        }
        lemma_ranked_differ(fewer);
        ranking_keeps_the_hits(fewer);
        lemma_place(rest, keyword_of(), h.0.keyword, 0);
        let p = place(rest, keyword_of(), h.0.keyword, 0) as int;
        assert forall|i: int| 0 <= i < rest.len() implies (#[trigger] rest[i]).1.id != h.1.id by {
            assert(rest.contains(rest[i]));
            vstd::seq_lib::to_multiset_contains(rest, rest[i]);
            vstd::seq_lib::to_multiset_contains(fewer, rest[i]);
            let k = choose|k: int| 0 <= k < fewer.len() && fewer[k] == rest[i];
            assert(hits[k].1.id != hits[hits.len() - 1].1.id);
        }
        let all = rest.insert(p, h);
        assert(ranked(hits) == all);
        assert forall|i: int, j: int| 0 <= i < j < all.len() implies (#[trigger] all[i]).1.id != (
        #[trigger] all[j]).1.id by {
            let i0 = if i < p {
                i
            } else {
                i - 1
            };
            let j0 = if j < p {
                j
            } else {
                j - 1
            };
            if i == p {
                assert(all[j] == rest[j0]);
            } else if j == p {
                assert(all[i] == rest[i0]);
            } else {
                assert(all[i] == rest[i0] && all[j] == rest[j0]);
                assert(rest[i0].1.id != rest[j0].1.id);
            }
        }
    }
}

/// A search finds no tile twice: its hits have pairwise different ids.
pub proof fn no_tile_is_found_twice(
    p: PipelineView,
    query: Seq<char>,
    now: u64,
    i: int,
    j: int,
)
    requires
        p.well_formed(),
        0 <= i < j < p.hits(query, now).len(),
    ensures
        p.hits(query, now)[i].1.id != p.hits(query, now)[j].1.id,
{
    store::latest_lists_each_tile_once(p.store);
    lemma_hits_differ(p.store.latest(), query, now);
    lemma_ranked_differ(hits_among(p.store.latest(), query, now));
}

/// What a search finds is the latest version of a tile, with the score of that tile.
pub proof fn found_tiles_are_the_latest(p: PipelineView, query: Seq<char>, now: u64, k: int)
    requires
        p.well_formed(),
        0 <= k < p.hits(query, now).len(),
    ensures
        ({
            let (s, t) = p.hits(query, now)[k];
            &&& p.store.history(t.id).len() > 0
            &&& p.store.history(t.id).last().tile == t
            &&& s == score::score_of(t, query, now)
            &&& s.relevant()
        }),
{
    let hit = p.hits(query, now)[k];
    let among = hits_among(p.store.latest(), query, now);
    lemma_hit_valid(p, query, now, k);
    ranking_keeps_the_hits(among);
    assert(ranked(among).contains(hit));
    vstd::seq_lib::to_multiset_contains(ranked(among), hit);
    vstd::seq_lib::to_multiset_contains(among, hit);
    lemma_hits_among(p.store.latest(), query, now, hit);
    let i = choose|i: int|
        0 <= i < tiles_of(p.store.latest()).len() && tiles_of(p.store.latest())[i] == hit.1;
    store::latest_lists_each_tile_once(p.store);
    let id = p.store.ids[i];
    assert(p.store.latest()[i].tile.id == id);
    assert(p.store.ids.contains(id));
    assert(p.store.histories.contains_key(id));
    assert(store::is_history(id, p.store.histories[id]));
}

/// A search finds as many tiles as there are relevant latest versions.
pub proof fn hits_are_as_many_as_the_relevant_versions(
    p: PipelineView,
    query: Seq<char>,
    now: u64,
)
    ensures
        p.hits(query, now).len() == p.store.latest().filter(
            |v: store::StoredView| score::score_of(v.tile, query, now).relevant(),
        ).len(),
{
    hits_are_the_relevant_versions(p.store.latest(), query, now);
    ranking_keeps_the_hits(hits_among(p.store.latest(), query, now));
}

/// Items with the same key stay in their order when they are ranked.
pub proof fn equal_keys_keep_their_order<T>(
    items: Seq<T>,
    key: spec_fn(T) -> Binary64,
    x: Binary64,
)
    ensures
        ranked_by(items, key).filter(|y: T| key(y) == x) == items.filter(|y: T| key(y) == x),
    decreases items.len(),
{
    let same = |y: T| key(y) == x;
    reveal(Seq::filter);
    if items.len() > 0 {
        let fewer = items.drop_last();
        let rest = ranked_by(fewer, key);
        let h = items.last();
        equal_keys_keep_their_order(fewer, key, x);
        lemma_place(rest, key, key(h), 0);
        let p = place(rest, key, key(h), 0) as int;
        let (left, right) = (rest.take(p), rest.skip(p));
        assert(rest =~= left + right);
        assert(rest.insert(p, h) =~= left.push(h) + right);
        Seq::filter_distributes_over_add(left, right, same);
        Seq::filter_distributes_over_add(left.push(h), right, same);
        assert(left.push(h).drop_last() =~= left);
        if same(h) {
            assert forall|j: int| 0 <= j < right.len() implies !same(#[trigger] right[j]) by {
                if j > 0 {
                    larger_keys_come_first(fewer, key, p, p + j);
                }
            }
            lemma_nothing_left(right, same);
            assert(left.filter(same) + right.filter(same) =~= left.filter(same));
            assert(left.filter(same).push(h) + right.filter(same) =~= left.filter(same).push(h));
        }
    } else {
        assert(ranked_by(items, key) =~= items);
    }
}

/// Nothing is left where nothing fits.
proof fn lemma_nothing_left<T>(items: Seq<T>, fits: spec_fn(T) -> bool)
    requires
        forall|i: int| 0 <= i < items.len() ==> !fits(#[trigger] items[i]),
    ensures
        items.filter(fits) == Seq::<T>::empty(),
    decreases items.len(),
{
    reveal(Seq::filter);
    if items.len() > 0 {
        assert forall|i: int| 0 <= i < items.len() - 1 implies !fits(
            #[trigger] items.drop_last()[i],
        ) by {
            assert(!fits(items[i]));
        }
        assert(!fits(items[items.len() - 1]));
        lemma_nothing_left(items.drop_last(), fits);
    }
}

/// The value of each hit is that of its score with its temporal signal, and its tile is the same.
pub proof fn values_are_those_of_the_scores<T>(
    hits: Seq<(Score, T)>,
    temporals: Seq<Binary64>,
    i: int,
)
    requires
        0 <= i < hits.len(),
    ensures
        scored(hits, temporals).len() == hits.len(),
        scored(hits, temporals)[i].0 == hits[i].0.total(temporals[i]),
        scored(hits, temporals)[i].1 == hits[i].1,
{
}

/// A list of references stands for what they say, in their order.
pub proof fn references_stand_for_their_tiles(
    hits: Seq<(Score, &Tile)>,
    results: Seq<(Binary64, &Tile)>,
)
    ensures
        hit_views(hits).len() == hits.len(),
        forall|i: int|
            0 <= i < hits.len() ==> (#[trigger] hit_views(hits)[i]).0 == hits[i].0 && hit_views(
                hits,
            )[i].1 == hits[i].1@,
        value_views(results).len() == results.len(),
        forall|i: int|
            0 <= i < results.len() ==> (#[trigger] value_views(results)[i]).0 == results[i].0
                && value_views(results)[i].1 == results[i].1@,
{
}

/// Accepting a tile adds it behind the tiles accepted before, adds one version to its history, and
/// leaves every other history as it was.
pub proof fn accepting_adds_one_tile(p: PipelineView, t: tile::TileView, now: u64, id: Seq<char>)
    requires
        p.well_formed(),
        p.store.history(t.id).len() < u32::MAX,
    ensures
        ({
            let after = p.accepting(t, now);
            &&& after.accepted.len() == p.accepted.len() + 1
            &&& after.accepted.last() == t
            &&& forall|i: int|
                0 <= i < p.accepted.len() ==> #[trigger] after.accepted[i] == p.accepted[i]
            &&& after.store.history(t.id).len() == p.store.history(t.id).len() + 1
            &&& after.store.history(t.id).last().tile == t
            &&& after.store.history(t.id).last().stored_at == now
            &&& p.store.history(id).is_prefix_of(after.store.history(id))
            &&& id != t.id ==> after.store.history(id) == p.store.history(id)
        }),
{
    store::stored_tile_is_the_latest(p.store, t, now);
    store::earlier_versions_stay(p.store, t, now, id);
}

/// A pipeline that has not accepted a tile holds none, and finds none.
pub proof fn empty_pipeline_holds_nothing(id: Seq<char>, query: Seq<char>, now: u64)
    ensures
        PipelineView::empty().accepted.len() == 0,
        PipelineView::empty().store.history(id).len() == 0,
        PipelineView::empty().hits(query, now).len() == 0,
{
    store::empty_store_has_no_versions(id);
    ranking_keeps_the_hits(hits_among(PipelineView::empty().store.latest(), query, now));
}

/// The history of an id holds the accepted tiles with that id: a further tile is one more exactly
/// where it has the id.
pub proof fn tiles_with_an_id(tiles: Seq<tile::TileView>, t: tile::TileView, id: Seq<char>)
    ensures
        with_id(Seq::empty(), id) == Seq::<tile::TileView>::empty(),
        t.id == id ==> with_id(tiles.push(t), id) == with_id(tiles, id).push(t),
        t.id != id ==> with_id(tiles.push(t), id) == with_id(tiles, id),
{
    reveal(Seq::filter);
    assert(tiles.push(t).drop_last() =~= tiles);
    assert(with_id(Seq::empty(), id) =~= Seq::<tile::TileView>::empty());
}

} // verus!
