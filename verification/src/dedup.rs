//! Finding tiles that say the same.
use crate::binary64;
use crate::binary64::Binary64;
use crate::float_laws;
use crate::rounding::BINADE;
use crate::text;
use crate::text::WordSet;
use crate::tile;
use crate::tile::Tile;
use vstd::prelude::*;

verus! {

/// Finds tiles that say the same.
pub struct TileDedup;

/// The Jaccard index of the words of two texts: the number of common words over the number of all.
pub open spec fn overlap(a: Seq<char>, b: Seq<char>) -> Binary64 {
    let x = text::words_of(a);
    let y = text::words_of(b);
    if x.len() == 0 && y.len() == 0 {
        binary64::integer(1)
    } else if x.len() == 0 || y.len() == 0 {
        binary64::zero()
    } else {
        binary64::ratio_of(x.intersect(y).len(), x.union(y).len())
    }
}

/// Two tiles say the same: question and answer agree, or the words of the questions overlap by more
/// than 0.9.
pub open spec fn duplicate(a: tile::TileView, b: tile::TileView) -> bool {
    ||| a.question == b.question && a.answer == b.answer
    ||| binary64::less(binary64::ratio_of(9, 10), overlap(a.question, b.question))
}

/// One of `tiles` says the same as `t`.
pub open spec fn has_duplicate(tiles: Seq<tile::TileView>, t: tile::TileView) -> bool {
    exists|i: int| 0 <= i < tiles.len() && duplicate(#[trigger] tiles[i], t)
}

/// The tiles that stay: each one in turn, unless it says the same as one kept before it.
pub open spec fn deduplicated(tiles: Seq<tile::TileView>) -> Seq<tile::TileView>
    decreases tiles.len(),
{
    if tiles.len() == 0 {
        Seq::empty()
    } else {
        let kept = deduplicated(tiles.drop_last());
        if has_duplicate(kept, tiles.last()) {
            kept
        } else {
            kept.push(tiles.last())
        }
    }
}

impl TileDedup {
    /// Whether two tiles say the same.
    pub fn is_duplicate(a: &Tile, b: &Tile) -> (r: bool)
        ensures
            r == duplicate(a@, b@),
    {
        if a.question == b.question && a.answer == b.answer {
            return true;
        }
        Binary64::ratio(9, 10).lt(Self::jaccard(a.question.as_str(), b.question.as_str()))
    }

    /// The number of common words of two texts over the number of all.
    pub fn jaccard(a: &str, b: &str) -> (r: Binary64)
        ensures
            r == overlap(a@, b@),
            float_laws::in_unit_interval(r),
    {
        proof {
            vstd::arithmetic::power2::lemma_pow2_pos(binary64::UNIT_EXPONENT as nat);
            float_laws::integer_exact(1);
        }
        let sa = WordSet::of(a);
        let sb = WordSet::of(b);
        if sa.len() == 0 && sb.len() == 0 {
            return Binary64::from_u64(1);
        }
        if sa.len() == 0 || sb.len() == 0 {
            return Binary64::zero();
        }
        let intersection: usize = sa.common(&sb);
        let union: usize = WordSet::of_both(a, b).len();
        proof {
            lemma_common_and_all(sa@, sb@);
            float_laws::ratio_in_unit_interval(intersection as nat, union as nat);
        }
        Binary64::ratio(intersection as u64, union as u64)
    }

    /// Whether one of `tiles` says the same as `tile`.
    pub fn any_duplicate(tiles: &[Tile], tile: &Tile) -> (r: bool)
        ensures
            r == has_duplicate(tile::tile_views(tiles@), tile@),
    {
        let ghost views = tile::tile_views(tiles@);
        let mut i: usize = 0;
        while i < tiles.len()
            invariant
                views == tile::tile_views(tiles@),
                i <= tiles.len(),
                forall|k: int| 0 <= k < i ==> !duplicate(#[trigger] views[k], tile@),
            decreases tiles.len() - i,
        {
            if Self::is_duplicate(&tiles[i], tile) {
                assert(duplicate(views[i as int], tile@));
                return true;
            }
            i = i + 1;
        }
        false
    }

    /// The tiles that stay when each one is left out that says the same as one kept before it.
    pub fn dedup_batch(tiles: &[Tile]) -> (r: Vec<&Tile>)
        ensures
            tile::referenced_views(r@) == deduplicated(tile::tile_views(tiles@)),
    {
        let ghost views = tile::tile_views(tiles@);
        let mut kept: Vec<&Tile> = Vec::new();
        let mut i: usize = 0;
        assert(tile::referenced_views(kept@) =~= deduplicated(views.take(0)));
        while i < tiles.len()
            invariant
                views == tile::tile_views(tiles@),
                i <= tiles.len(),
                tile::referenced_views(kept@) == deduplicated(views.take(i as int)),
            decreases tiles.len() - i,
        {
            let tile = &tiles[i];
            let ghost kept_views = tile::referenced_views(kept@);
            let mut found = false;
            let mut j: usize = 0;
            while j < kept.len() && !found
                invariant
                    kept_views == tile::referenced_views(kept@),
                    j <= kept.len(),
                    found ==> has_duplicate(kept_views, tile@),
                    !found ==> forall|k: int|
                        0 <= k < j ==> !duplicate(#[trigger] kept_views[k], tile@),
                decreases kept.len() - j,
            {
                if Self::is_duplicate(kept[j], tile) {
                    assert(duplicate(kept_views[j as int], tile@));
                    found = true;
                }
                j = j + 1;
            }
            proof {
                assert(views.take(i + 1).drop_last() =~= views.take(i as int));
                assert(views.take(i + 1).last() == tile@);
            }
            if !found {
                kept.push(tile);
                assert(tile::referenced_views(kept@) =~= kept_views.push(tile@));
            }
            i = i + 1;
        }
        assert(views.take(views.len() as int) =~= views);
        kept
    }
}

/// Every tile says the same as itself.
pub proof fn duplicate_reflexive(t: tile::TileView)
    ensures
        duplicate(t, t),
{
}

/// Where one tile says the same as another, so does the other.
pub proof fn duplicate_symmetric(a: tile::TileView, b: tile::TileView)
    ensures
        duplicate(a, b) == duplicate(b, a),
{
    let x = text::words_of(a.question);
    let y = text::words_of(b.question);
    assert(x.intersect(y) =~= y.intersect(x));
    assert(x.union(y) =~= y.union(x));
}

/// No tile that stays says the same as another one that stays.
pub proof fn kept_tiles_differ(tiles: Seq<tile::TileView>, i: int, j: int)
    requires
        0 <= i < deduplicated(tiles).len(),
        0 <= j < deduplicated(tiles).len(),
        i != j,
    ensures
        !duplicate(deduplicated(tiles)[i], deduplicated(tiles)[j]),
    decreases tiles.len(), i,
{
    let kept = deduplicated(tiles.drop_last());
    if i > j {
        duplicate_symmetric(deduplicated(tiles)[i], deduplicated(tiles)[j]);
        kept_tiles_differ(tiles, j, i);
    } else if j < kept.len() {
        kept_tiles_differ(tiles.drop_last(), i, j);
    } else {
        assert(!duplicate(kept[i], tiles.last()));
    }
}

/// Every tile of the batch says the same as one that stays.
pub proof fn every_tile_is_represented(tiles: Seq<tile::TileView>, i: int)
    requires
        0 <= i < tiles.len(),
    ensures
        has_duplicate(deduplicated(tiles), tiles[i]),
    decreases tiles.len(),
{
    let kept = deduplicated(tiles.drop_last());
    let all = deduplicated(tiles);
    if i == tiles.len() - 1 {
        if !has_duplicate(kept, tiles[i]) {
            assert(duplicate(all[all.len() - 1], tiles[i]));
        }
    } else {
        every_tile_is_represented(tiles.drop_last(), i);
        let k = choose|k: int| 0 <= k < kept.len() && duplicate(#[trigger] kept[k], tiles[i]);
        assert(all[k] == kept[k]);
    }
}

/// Every tile that stays is one of the batch.
pub proof fn kept_tiles_come_from_the_batch(tiles: Seq<tile::TileView>, i: int)
    requires
        0 <= i < deduplicated(tiles).len(),
    ensures
        tiles.contains(deduplicated(tiles)[i]),
    decreases tiles.len(),
{
    let kept = deduplicated(tiles.drop_last());
    if i < kept.len() {
        kept_tiles_come_from_the_batch(tiles.drop_last(), i);
        let k = choose|k: int| 0 <= k < tiles.len() - 1 && tiles.drop_last()[k] == kept[i];
        assert(tiles[k] == kept[i]);
    } else {
        assert(tiles[tiles.len() - 1] == deduplicated(tiles)[i]);
    }
}

/// What stays of the beginning of a batch does not depend on the tiles after it.
pub proof fn later_tiles_change_nothing_before(tiles: Seq<tile::TileView>, n: int)
    requires
        0 <= n <= tiles.len(),
    ensures
        deduplicated(tiles.take(n)).is_prefix_of(deduplicated(tiles)),
    decreases tiles.len(),
{
    let first = deduplicated(tiles.take(n));
    let all = deduplicated(tiles);
    if n == tiles.len() {
        assert(tiles.take(n) =~= tiles);
        assert(first =~= all.subrange(0, first.len() as int));
    } else {
        let rest = tiles.drop_last();
        later_tiles_change_nothing_before(rest, n);
        assert(rest.take(n) =~= tiles.take(n));
        assert(first =~= all.subrange(0, first.len() as int));
    }
}

/// A batch without tiles that say the same stays as it is.
proof fn lemma_different_tiles_stay(tiles: Seq<tile::TileView>)
    requires
        forall|i: int, j: int|
            0 <= i < j < tiles.len() ==> !duplicate(#[trigger] tiles[i], #[trigger] tiles[j]),
    ensures
        deduplicated(tiles) == tiles,
    decreases tiles.len(),
{
    if tiles.len() > 0 {
        lemma_different_tiles_stay(tiles.drop_last());
        assert forall|i: int| 0 <= i < tiles.len() - 1 implies !duplicate(
            #[trigger] tiles.drop_last()[i],
            tiles.last(),
        ) by {
            assert(tiles[i] == tiles.drop_last()[i]);
        }
        assert(tiles.drop_last().push(tiles.last()) =~= tiles);
    } else {
        assert(deduplicated(tiles) =~= tiles);
    }
}

/// What stays of a batch stays again when it is gone through once more.
pub proof fn dedup_idempotent(tiles: Seq<tile::TileView>)
    ensures
        deduplicated(deduplicated(tiles)) == deduplicated(tiles),
{
    let kept = deduplicated(tiles);
    assert forall|i: int, j: int| 0 <= i < j < kept.len() implies !duplicate(
        #[trigger] kept[i],
        #[trigger] kept[j],
    ) by {
        kept_tiles_differ(tiles, i, j);
    }
    lemma_different_tiles_stay(kept);
}

/// Common words are among all words.
proof fn lemma_common_and_all(x: Set<Seq<char>>, y: Set<Seq<char>>)
    requires
        x.finite(),
        y.finite(),
    ensures
        x.intersect(y).len() <= x.union(y).len(),
        x.len() <= x.union(y).len() <= x.len() + y.len(),
        x.intersect(y).len() == x.union(y).len() <==> x == y,
        x.intersect(y).len() == 0 <==> x.disjoint(y),
{
    let common = x.intersect(y);
    let all = x.union(y);
    vstd::set_lib::lemma_len_subset(common, all);
    vstd::set_lib::lemma_len_subset(x, all);
    vstd::set_lib::lemma_len_union(x, y);
    if common.len() == all.len() {
        vstd::set_lib::lemma_subset_equality(common, all);
        assert(x =~= y) by {
            assert forall|w: Seq<char>| x.contains(w) implies y.contains(w) by {
                assert(all.contains(w));
                assert(common.contains(w));
            }
            assert forall|w: Seq<char>| y.contains(w) implies x.contains(w) by {
                assert(all.contains(w));
                assert(common.contains(w));
            }
        }
    }
    if x == y {
        assert(common =~= x);
        assert(all =~= x);
    }
    vstd::set_lib::lemma_disjoint_iff_empty_intersection(x, y);
    if common.len() == 0 {
        common.lemma_len0_is_empty();
    }
}

/// The overlap of two texts is that of the other way round.
pub proof fn overlap_symmetric(a: Seq<char>, b: Seq<char>)
    ensures
        overlap(a, b) == overlap(b, a),
{
    let x = text::words_of(a);
    let y = text::words_of(b);
    assert(x.intersect(y) =~= y.intersect(x));
    assert(x.union(y) =~= y.union(x));
}

/// The overlap of texts that a machine can count is a number from zero to one.
pub proof fn overlap_in_unit_interval(a: Seq<char>, b: Seq<char>)
    requires
        a.len() + b.len() <= u64::MAX,
    ensures
        float_laws::in_unit_interval(overlap(a, b)),
{
    let x = text::words_of(a);
    let y = text::words_of(b);
    text::words_bounded(a);
    text::words_bounded(b);
    lemma_common_and_all(x, y);
    vstd::arithmetic::power2::lemma_pow2_pos(binary64::UNIT_EXPONENT as nat);
    float_laws::integer_exact(1);
    if x.len() > 0 && y.len() > 0 {
        float_laws::ratio_in_unit_interval(x.intersect(y).len(), x.union(y).len());
    }
}

/// The overlap is one exactly where the words are the same.
pub proof fn overlap_one(a: Seq<char>, b: Seq<char>)
    requires
        text::words_of(a).union(text::words_of(b)).len() <= 2 * BINADE,
    ensures
        overlap(a, b) == binary64::integer(1) <==> text::words_of(a) == text::words_of(b),
{
    let x = text::words_of(a);
    let y = text::words_of(b);
    text::words_bounded(a);
    text::words_bounded(b);
    lemma_common_and_all(x, y);
    float_laws::integer_exact(1);
    vstd::arithmetic::power2::lemma_pow2_pos(binary64::UNIT_EXPONENT as nat);
    assert(binary64::zero().value() == 0);
    if x.len() == 0 && y.len() == 0 {
        x.lemma_len0_is_empty();
        y.lemma_len0_is_empty();
    } else if x.len() > 0 && y.len() > 0 {
        float_laws::ratio_is_one(x.intersect(y).len(), x.union(y).len());
    }
}

/// The overlap is zero exactly where no word is common, and one of the texts has a word.
pub proof fn overlap_zero(a: Seq<char>, b: Seq<char>)
    requires
        a.len() + b.len() <= u64::MAX,
    ensures
        overlap(a, b) == binary64::zero() <==> {
            &&& text::words_of(a).disjoint(text::words_of(b))
            &&& text::words_of(a).len() > 0 || text::words_of(b).len() > 0
        },
{
    let x = text::words_of(a);
    let y = text::words_of(b);
    text::words_bounded(a);
    text::words_bounded(b);
    lemma_common_and_all(x, y);
    float_laws::integer_exact(1);
    vstd::arithmetic::power2::lemma_pow2_pos(binary64::UNIT_EXPONENT as nat);
    assert(binary64::zero().value() == 0);
    if x.len() > 0 && y.len() > 0 {
        float_laws::ratio_is_zero(x.intersect(y).len(), x.union(y).len());
    } else {
        if x.len() == 0 {
            x.lemma_len0_is_empty();
        }
        if y.len() == 0 {
            y.lemma_len0_is_empty();
        }
    }
}

/// The overlap depends on the words alone, however they are arranged.
pub proof fn overlap_depends_on_words(a: Seq<char>, b: Seq<char>, c: Seq<char>, d: Seq<char>)
    requires
        text::words_of(a) == text::words_of(c),
        text::words_of(b) == text::words_of(d),
    ensures
        overlap(a, b) == overlap(c, d),
{
}

/// Questions with some words overlap by more than 0.9 exactly where more than nine tenths of all
/// their words are common.
pub proof fn overlap_above_nine_tenths(a: Seq<char>, b: Seq<char>)
    requires
        text::words_of(a).len() > 0,
        text::words_of(b).len() > 0,
        text::words_of(a).union(text::words_of(b)).len() <= BINADE / 8,
    ensures
        binary64::less(binary64::ratio_of(9, 10), overlap(a, b)) <==> 10 * text::words_of(
            a,
        ).intersect(text::words_of(b)).len() > 9 * text::words_of(a).union(
            text::words_of(b),
        ).len(),
{
    let x = text::words_of(a);
    let y = text::words_of(b);
    let i = x.intersect(y).len();
    let m = x.union(y).len();
    text::words_bounded(a);
    text::words_bounded(b);
    vstd::set_lib::lemma_len_intersect(x, y);
    vstd::set_lib::lemma_len_subset(x, x.union(y));
    float_laws::ratio_rounded_once(i, m);
    float_laws::ratio_rounded_once(9, 10);
    if 10 * i > 9 * m {
        float_laws::above_nine_tenths(i, m);
    } else {
        float_laws::ratio_monotone(i, m, 9, 10);
    }
}

/// Tiles whose questions have the same words say the same, in whatever order the words stand.
pub proof fn same_words_are_duplicates(a: tile::TileView, b: tile::TileView)
    requires
        text::words_of(a.question) == text::words_of(b.question),
        text::words_of(a.question).len() <= BINADE / 8,
    ensures
        duplicate(a, b),
{
    let x = text::words_of(a.question);
    assert(x.intersect(x) =~= x);
    assert(x.union(x) =~= x);
    if x.len() > 0 {
        overlap_above_nine_tenths(a.question, b.question);
    } else {
        float_laws::above_nine_tenths(1, 1);
        float_laws::integer_exact(1);
        float_laws::ratio_rounded_once(1, 1);
        float_laws::ratio_rounded_once(9, 10);
        float_laws::ratio_in_unit_interval(1, 1);
    }
}

/// When two tiles say the same, in plain numbers: the questions and the answers agree, or more than
/// nine tenths of all words of the questions are common, or neither question has a word. Nothing else
/// of a tile counts.
pub proof fn duplicates_in_plain_numbers(a: tile::TileView, b: tile::TileView)
    requires
        text::words_of(a.question).union(text::words_of(b.question)).len() <= BINADE / 8,
    ensures
        ({
            let x = text::words_of(a.question);
            let y = text::words_of(b.question);
            duplicate(a, b) <==> {
                ||| a.question == b.question && a.answer == b.answer
                ||| 10 * x.intersect(y).len() > 9 * x.union(y).len()
                ||| x == Set::<Seq<char>>::empty() && y == Set::<Seq<char>>::empty()
            }
        }),
{
    let x = text::words_of(a.question);
    let y = text::words_of(b.question);
    text::words_bounded(a.question);
    text::words_bounded(b.question);
    lemma_common_and_all(x, y);
    lemma_common_and_all(y, x);
    assert(x.union(y) =~= y.union(x));
    float_laws::ratio_positive(9, 10);
    if x.len() > 0 && y.len() > 0 {
        overlap_above_nine_tenths(a.question, b.question);
    } else {
        if x.len() == 0 {
            x.lemma_len0_is_empty();
        }
        if y.len() == 0 {
            y.lemma_len0_is_empty();
        }
        if x.len() == 0 && y.len() == 0 {
            same_words_are_duplicates(a, b);
        } else {
            assert(x.intersect(y) =~= Set::empty());
            assert(binary64::zero().value() == 0);
        }
    }
}

/// Whether two tiles say the same depends on their questions and answers alone.
pub proof fn duplicates_depend_on_question_and_answer(
    a: tile::TileView,
    b: tile::TileView,
    c: tile::TileView,
    d: tile::TileView,
)
    requires
        a.question == c.question,
        a.answer == c.answer,
        b.question == d.question,
        b.answer == d.answer,
    ensures
        duplicate(a, b) == duplicate(c, d),
{
}

/// Among no tiles there is none that says the same; among more tiles there is one where it was one
/// before or is one of the further tiles.
pub proof fn duplicates_among_more_tiles(
    tiles: Seq<tile::TileView>,
    more: tile::TileView,
    t: tile::TileView,
)
    ensures
        !has_duplicate(Seq::empty(), t),
        has_duplicate(tiles.push(more), t) <==> has_duplicate(tiles, t) || duplicate(more, t),
{
    let all = tiles.push(more);
    assert(all[tiles.len() as int] == more);
    assert forall|i: int| 0 <= i < tiles.len() implies #[trigger] all[i] == tiles[i] by {}
    if has_duplicate(tiles, t) {
        let i = choose|i: int| 0 <= i < tiles.len() && duplicate(#[trigger] tiles[i], t);
        assert(duplicate(all[i], t));
    }
    if has_duplicate(all, t) {
        let i = choose|i: int| 0 <= i < all.len() && duplicate(#[trigger] all[i], t);
        if i < tiles.len() {
            assert(duplicate(tiles[i], t));
        }
    }
}

/// A further tile stays exactly where it does not say the same as one kept before it.
pub proof fn further_tiles_stay_where_new(tiles: Seq<tile::TileView>, t: tile::TileView)
    ensures
        deduplicated(Seq::empty()) == Seq::<tile::TileView>::empty(),
        (exists|i: int|
            0 <= i < deduplicated(tiles).len() && duplicate(
                #[trigger] deduplicated(tiles)[i],
                t,
            )) ==> deduplicated(tiles.push(t)) == deduplicated(tiles),
        (forall|i: int|
            0 <= i < deduplicated(tiles).len() ==> !duplicate(
                #[trigger] deduplicated(tiles)[i],
                t,
            )) ==> deduplicated(tiles.push(t)) == deduplicated(tiles).push(t),
{
    assert(tiles.push(t).drop_last() =~= tiles);
    assert(deduplicated(Seq::empty()) =~= Seq::<tile::TileView>::empty());
}

/// The overlap is the share of common words among all words, rounded once.
pub proof fn overlap_is_the_share_of_common_words(a: Seq<char>, b: Seq<char>)
    requires
        text::words_of(a).union(text::words_of(b)).len() <= 2 * BINADE,
        text::words_of(a).len() > 0 || text::words_of(b).len() > 0,
    ensures
        ({
            let common = text::words_of(a).intersect(text::words_of(b)).len();
            let all = text::words_of(a).union(text::words_of(b)).len();
            float_laws::near_fraction(
                overlap(a, b).value(),
                (common * float_laws::one()) as int,
                all as int,
            )
        }),
{
    let x = text::words_of(a);
    let y = text::words_of(b);
    text::words_bounded(a);
    text::words_bounded(b);
    lemma_common_and_all(x, y);
    lemma_common_and_all(y, x);
    assert(x.union(y) =~= y.union(x));
    if x.len() > 0 && y.len() > 0 {
        float_laws::ratio_near(x.intersect(y).len(), x.union(y).len());
    } else {
        if x.len() == 0 {
            x.lemma_len0_is_empty();
        } else {
            y.lemma_len0_is_empty();
        }
        assert(x.intersect(y) =~= Set::empty());
        float_laws::ratio_near(0, x.union(y).len());
        float_laws::ratio_is_zero(0, x.union(y).len());
    }
}

/// Of as many words in all, more common ones overlap more.
pub proof fn more_common_words_overlap_more(
    a: Seq<char>,
    b: Seq<char>,
    c: Seq<char>,
    d: Seq<char>,
)
    requires
        text::words_of(a).union(text::words_of(b)).len() == text::words_of(c).union(
            text::words_of(d),
        ).len() <= BINADE,
        text::words_of(a).intersect(text::words_of(b)).len() < text::words_of(c).intersect(
            text::words_of(d),
        ).len(),
    ensures
        binary64::less(overlap(a, b), overlap(c, d)),
{
    let (x, y, z, w) = (
        text::words_of(a),
        text::words_of(b),
        text::words_of(c),
        text::words_of(d),
    );
    text::words_bounded(a);
    text::words_bounded(b);
    text::words_bounded(c);
    text::words_bounded(d);
    lemma_common_and_all(x, y);
    lemma_common_and_all(z, w);
    vstd::set_lib::lemma_len_intersect(z, w);
    vstd::set_lib::lemma_len_intersect(w, z);
    assert(w.intersect(z) =~= z.intersect(w));
    float_laws::ratio_strictly_grows(
        x.intersect(y).len(),
        z.intersect(w).len(),
        z.union(w).len(),
    );
    float_laws::ratio_is_zero(0, z.union(w).len());
    vstd::set_lib::lemma_len_intersect(x, y);
    vstd::set_lib::lemma_len_intersect(y, x);
    assert(y.intersect(x) =~= x.intersect(y));
    if x.len() == 0 && y.len() == 0 {
        x.lemma_len0_is_empty();
        y.lemma_len0_is_empty();
        assert(x.union(y) =~= Set::empty());
    }
}

/// Two tiles say the same exactly where questions and answers agree or the overlap of the questions is
/// a number above 0.9, however many words they have.
pub proof fn duplicates_by_overlap(a: tile::TileView, b: tile::TileView)
    ensures
        duplicate(a, b) <==> {
            ||| a.question == b.question && a.answer == b.answer
            ||| 0x3fec_cccc_cccc_cccd < overlap(a.question, b.question).bits
                <= 0x7ff0_0000_0000_0000
        },
{
    let o = overlap(a.question, b.question);
    let most = binary64::ratio_of(9, 10);
    float_laws::decimal_fractions();
    if o.bits < 0x8000_0000_0000_0000 {
        float_laws::order_is_that_of_the_bits(most, o);
    } else if o.bits <= 0xfff0_0000_0000_0000 {
        float_laws::signed_numbers_come_first(o, most);
    }
}

/// No number lies closer to the share of common words than the overlap.
pub proof fn overlap_is_closest(a: Seq<char>, b: Seq<char>, d: Binary64)
    requires
        text::words_of(a).union(text::words_of(b)).len() <= 2 * BINADE,
        text::words_of(a).len() > 0 || text::words_of(b).len() > 0,
        !d.nan(),
    ensures
        ({
            let common = text::words_of(a).intersect(text::words_of(b)).len();
            let all = text::words_of(a).union(text::words_of(b)).len();
            let exact = common * float_laws::one();
            float_laws::distance(overlap(a, b).value() * all - exact) <= float_laws::distance(
                d.value() * all - exact,
            )
        }),
{
    let x = text::words_of(a);
    let y = text::words_of(b);
    text::words_bounded(a);
    text::words_bounded(b);
    lemma_common_and_all(x, y);
    lemma_common_and_all(y, x);
    assert(x.union(y) =~= y.union(x));
    float_laws::ratio_is_closest(x.intersect(y).len(), x.union(y).len(), d);
    if x.len() == 0 || y.len() == 0 {
        if x.len() == 0 {
            x.lemma_len0_is_empty();
        } else {
            y.lemma_len0_is_empty();
        }
        assert(x.intersect(y) =~= Set::empty());
        float_laws::ratio_is_zero(0, x.union(y).len());
    }
}

} // verus!
