//! Which tiles build on which.
use crate::tile;
use crate::tile::Tile;
use vstd::prelude::*;

verus! {

/// Follows the dependencies of tiles.
pub struct TileCascade;

/// `t` depends on the tile with the given id.
pub open spec fn depends_on(t: tile::TileView, id: Seq<char>) -> bool {
    t.dependencies.contains(id)
}

/// The tiles that depend on the tile with the given id, in their order.
pub open spec fn dependents(id: Seq<char>, tiles: Seq<tile::TileView>) -> Seq<tile::TileView> {
    tiles.filter(|t: tile::TileView| depends_on(t, id))
}

/// Whether `tile` depends on the tile with the given id.
fn is_dependent(tile: &Tile, tile_id: &str) -> (r: bool)
    ensures
        r == depends_on(tile@, tile_id@),
{
    let id = tile_id.to_owned();
    let mut i: usize = 0;
    while i < tile.dependencies.len()
        invariant
            id@ == tile_id@,
            i <= tile.dependencies.len(),
            forall|k: int| 0 <= k < i ==> tile.dependencies[k]@ != tile_id@,
        decreases tile.dependencies.len() - i,
    {
        if tile.dependencies[i] == id {
            assert(tile@.dependencies[i as int] == tile_id@);
            return true;
        }
        i = i + 1;
    }
    assert forall|k: int| 0 <= k < tile@.dependencies.len() implies tile@.dependencies[k]
        != tile_id@ by {
        assert(tile@.dependencies[k] == tile.dependencies[k]@);
    }
    false
}

impl TileCascade {
    /// The tiles of `all_tiles` that depend on the tile with the given id, in their order.
    pub fn dependents_of<'a>(tile_id: &str, all_tiles: &'a [Tile]) -> (r: Vec<&'a Tile>)
        ensures
            tile::referenced_views(r@) == dependents(tile_id@, tile::tile_views(all_tiles@)),
    {
        let ghost views = tile::tile_views(all_tiles@);
        let ghost pred = |t: tile::TileView| depends_on(t, tile_id@);
        let mut found: Vec<&'a Tile> = Vec::new();
        let mut i: usize = 0;
        proof {
            reveal(Seq::filter);
            assert(tile::referenced_views(found@) =~= views.take(0).filter(pred));
        }
        while i < all_tiles.len()
            invariant
                views == tile::tile_views(all_tiles@),
                pred == (|t: tile::TileView| depends_on(t, tile_id@)),
                i <= all_tiles.len(),
                tile::referenced_views(found@) == views.take(i as int).filter(pred),
            decreases all_tiles.len() - i,
        {
            let tile = &all_tiles[i];
            let ghost before = tile::referenced_views(found@);
            proof {
                reveal(Seq::filter);
                assert(views.take(i + 1).drop_last() =~= views.take(i as int));
                assert(views.take(i + 1).last() == tile@);
            }
            if is_dependent(tile, tile_id) {
                found.push(tile);
                assert(tile::referenced_views(found@) =~= before.push(tile@));
            }
            i = i + 1;
        }
        assert(views.take(views.len() as int) =~= views);
        found
    }
}

/// A tile is among the dependents exactly where it is one of the tiles and names the id.
pub proof fn dependents_are_those_that_name_the_id(
    id: Seq<char>,
    tiles: Seq<tile::TileView>,
    t: tile::TileView,
)
    ensures
        dependents(id, tiles).contains(t) <==> tiles.contains(t) && t.dependencies.contains(id),
{
    let pred = |x: tile::TileView| depends_on(x, id);
    if dependents(id, tiles).contains(t) {
        let i = choose|i: int| 0 <= i < tiles.filter(pred).len() && tiles.filter(pred)[i] == t;
        tiles.lemma_filter_pred(pred, i);
        tiles.lemma_filter_contains_rev(pred, t);
    }
    if tiles.contains(t) && depends_on(t, id) {
        let i = choose|i: int| 0 <= i < tiles.len() && tiles[i] == t;
        tiles.lemma_filter_contains(pred, i);
    }
}

/// The dependents among two lists, one after the other, are those of the first and then those of the
/// second; of a single tile, it is one itself exactly where it names the id.
pub proof fn dependents_keep_order_and_number(
    id: Seq<char>,
    first: Seq<tile::TileView>,
    second: Seq<tile::TileView>,
    t: tile::TileView,
)
    ensures
        dependents(id, first + second) == dependents(id, first) + dependents(id, second),
        t.dependencies.contains(id) ==> dependents(id, seq![t]) == seq![t],
        !t.dependencies.contains(id) ==> dependents(id, seq![t]) == Seq::<tile::TileView>::empty(),
        dependents(id, Seq::empty()) == Seq::<tile::TileView>::empty(),
{
    let pred = |x: tile::TileView| depends_on(x, id);
    Seq::filter_distributes_over_add(first, second, pred);
    reveal(Seq::filter);
    assert(seq![t].drop_last() =~= Seq::empty());
    assert(seq![t].drop_last().filter(pred) =~= Seq::empty());
    assert(Seq::<tile::TileView>::empty().push(t) =~= seq![t]);
    assert(dependents(id, seq![t]) =~= if t.dependencies.contains(id) {
        seq![t]
    } else {
        Seq::empty()
    });
}

} // verus!
