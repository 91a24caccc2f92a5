//! What changed from one tile to another.
use crate::binary64;
use crate::binary64::Binary64;
use crate::float_laws;
use crate::tile;
use crate::tile::Tile;
use vstd::prelude::*;

verus! {

/// Compares tiles.
pub struct TileVersion;

/// The difference of the confidences is more than 0.01 in size.
pub open spec fn confidence_moved(a: Binary64, b: Binary64) -> bool {
    binary64::less(
        binary64::ratio_of(1, 100),
        binary64::absolute(binary64::difference(a, b)),
    )
}

/// The name of a change where there is one.
pub open spec fn change(changed: bool, name: Seq<char>) -> Seq<Seq<char>> {
    if changed {
        seq![name]
    } else {
        Seq::empty()
    }
}

/// The names of what changed from `a` to `b`.
pub open spec fn changes_of(a: tile::TileView, b: tile::TileView) -> Seq<Seq<char>> {
    change(a.question != b.question, "question_changed"@) + change(
        a.answer != b.answer,
        "answer_changed"@,
    ) + change(a.domain != b.domain, "domain_changed"@) + change(
        confidence_moved(a.confidence, b.confidence),
        "confidence_changed"@,
    )
}

/// Adds `name` to `changes` where there is a change.
fn note(changes: &mut Vec<String>, changed: bool, name: &str)
    ensures
        tile::texts(final(changes)@) == tile::texts(old(changes)@) + change(changed, name@),
{
    let ghost before = tile::texts(changes@);
    if changed {
        changes.push(name.to_owned());
    }
    assert(tile::texts(changes@) =~= before + change(changed, name@));
}

impl TileVersion {
    /// The names of what changed from `a` to `b`.
    pub fn diff(a: &Tile, b: &Tile) -> (r: Vec<String>)
        ensures
            tile::texts(r@) == changes_of(a@, b@),
    {
        let mut changes: Vec<String> = Vec::new();
        assert(tile::texts(changes@) =~= Seq::empty());
        note(&mut changes, !(a.question == b.question), "question_changed");
        note(&mut changes, !(a.answer == b.answer), "answer_changed");
        note(&mut changes, !(a.domain == b.domain), "domain_changed");
        let moved = Binary64::ratio(1, 100).lt(a.confidence.sub(b.confidence).abs());
        note(&mut changes, moved, "confidence_changed");
        assert(tile::texts(changes@) =~= changes_of(a@, b@));
        changes
    }
}

/// Nothing changes from a tile to itself.
pub proof fn no_change_from_itself(t: tile::TileView)
    ensures
        changes_of(t, t).len() == 0,
{
    float_laws::difference_from_itself(t.confidence);
    float_laws::ratio_positive(1, 100);
    assert(!confidence_moved(t.confidence, t.confidence));
}

/// The same changes are named in both directions.
pub proof fn changes_symmetric(a: tile::TileView, b: tile::TileView)
    ensures
        changes_of(a, b) == changes_of(b, a),
{
    float_laws::difference_symmetric(a.confidence, b.confidence);
}

/// Each change is named exactly where there is one.
pub proof fn changes_named(a: tile::TileView, b: tile::TileView)
    ensures
        changes_of(a, b).contains("question_changed"@) <==> a.question != b.question,
        changes_of(a, b).contains("answer_changed"@) <==> a.answer != b.answer,
        changes_of(a, b).contains("domain_changed"@) <==> a.domain != b.domain,
        changes_of(a, b).contains("confidence_changed"@) <==> confidence_moved(
            a.confidence,
            b.confidence,
        ),
{
    reveal_strlit("question_changed");
    reveal_strlit("answer_changed");
    reveal_strlit("domain_changed");
    reveal_strlit("confidence_changed");
    assert("question_changed"@.len() == 16);
    assert("answer_changed"@.len() == 14);
    assert("domain_changed"@.len() == 14);
    assert("confidence_changed"@.len() == 18);
    assert("answer_changed"@[0] != "domain_changed"@[0]);
    let moved = confidence_moved(a.confidence, b.confidence);
    let p = change(a.question != b.question, "question_changed"@);
    let q = change(a.answer != b.answer, "answer_changed"@);
    let r = change(a.domain != b.domain, "domain_changed"@);
    let s = change(moved, "confidence_changed"@);
    assert forall|name: Seq<char>| #[trigger]
        changes_of(a, b).contains(name) <==> (p.contains(name) || q.contains(name) || r.contains(
            name,
        ) || s.contains(name)) by {
        vstd::seq_lib::lemma_seq_concat_contains_all_elements(p, q, name);
        vstd::seq_lib::lemma_seq_concat_contains_all_elements(p + q, r, name);
        vstd::seq_lib::lemma_seq_concat_contains_all_elements(p + q + r, s, name);
    }
    lemma_change_names(a.question != b.question, "question_changed"@);
    lemma_change_names(a.answer != b.answer, "answer_changed"@);
    lemma_change_names(a.domain != b.domain, "domain_changed"@);
    lemma_change_names(moved, "confidence_changed"@);
}

/// A change is named by its own name only, and only where there is one.
proof fn lemma_change_names(changed: bool, name: Seq<char>)
    ensures
        forall|x: Seq<char>| #[trigger]
            change(changed, name).contains(x) <==> (changed && x == name),
{
    if changed {
        assert(change(changed, name)[0] == name);
    }
}

/// A change of the confidence is named where it is more than 0.01, up to 2^-51 of that, and not
/// where it is at most 0.01.
pub proof fn confidence_changes_by_a_hundredth(a: tile::TileView, b: tile::TileView)
    requires
        a.confidence.finite(),
        b.confidence.finite(),
    ensures
        ({
            let moved = float_laws::distance(a.confidence.value() - b.confidence.value());
            let one = float_laws::one() as int;
            &&& 100 * moved <= one ==> !changes_of(a, b).contains("confidence_changed"@)
            &&& (100 * moved - one) * 0x8_0000_0000_0000 >= one ==> changes_of(a, b).contains(
                "confidence_changed"@,
            )
        }),
{
    changes_named(a, b);
    float_laws::difference_above_a_hundredth(a.confidence, b.confidence);
}

/// A larger change of the confidence is named where a smaller one is.
pub proof fn larger_confidence_changes_stay_named(
    a: tile::TileView,
    b: tile::TileView,
    c: tile::TileView,
    d: tile::TileView,
)
    requires
        a.confidence.finite(),
        b.confidence.finite(),
        c.confidence.finite(),
        d.confidence.finite(),
        float_laws::distance(a.confidence.value() - b.confidence.value()) <= float_laws::distance(
            c.confidence.value() - d.confidence.value(),
        ),
        changes_of(a, b).contains("confidence_changed"@),
    ensures
        changes_of(c, d).contains("confidence_changed"@),
{
    changes_named(a, b);
    changes_named(c, d);
    float_laws::difference_grows(a.confidence, b.confidence, c.confidence, d.confidence);
}

/// From a finite confidence to an infinite one there is a change, and none is named where one of them
/// is not a number or where both are the same infinity.
pub proof fn confidence_changes_beyond_numbers(a: tile::TileView, b: tile::TileView)
    ensures
        a.confidence.nan() || b.confidence.nan() ==> !changes_of(a, b).contains(
            "confidence_changed"@,
        ),
        a.confidence.infinite() && a.confidence == b.confidence ==> !changes_of(a, b).contains(
            "confidence_changed"@,
        ),
        a.confidence.infinite() && !b.confidence.nan() && a.confidence != b.confidence
            ==> changes_of(a, b).contains("confidence_changed"@),
{
    changes_named(a, b);
    float_laws::difference_beyond_numbers(a.confidence, b.confidence);
}

/// Each change is named once, in the order of question, answer, domain and confidence.
pub proof fn changes_in_order(a: tile::TileView, b: tile::TileView)
    ensures
        ({
            let order = seq![
                "question_changed"@,
                "answer_changed"@,
                "domain_changed"@,
                "confidence_changed"@,
            ];
            let named = changes_of(a, b);
            &&& forall|i: int| 0 <= i < named.len() ==> order.contains(#[trigger] named[i])
            &&& forall|i: int, j: int, x: int, y: int|
                #![trigger named[i], named[j], order[x], order[y]]
                0 <= i < j < named.len() && 0 <= x < 4 && 0 <= y < 4 && named[i] == order[x]
                    && named[j] == order[y] ==> x < y
        }),
{
    let order = seq![
        "question_changed"@,
        "answer_changed"@,
        "domain_changed"@,
        "confidence_changed"@,
    ];
    reveal_strlit("question_changed");
    reveal_strlit("answer_changed");
    reveal_strlit("domain_changed");
    reveal_strlit("confidence_changed");
    assert("question_changed"@.len() == 16);
    assert("answer_changed"@.len() == 14);
    assert("domain_changed"@.len() == 14);
    assert("confidence_changed"@.len() == 18);
    assert("answer_changed"@[0] != "domain_changed"@[0]);
    assert(order[0].len() == 16 && order[1].len() == 14 && order[2].len() == 14 && order[3].len()
        == 18 && order[1] != order[2]);
}

/// A change of the confidence is named exactly where the size of the difference is a number above the
/// double 0.01.
pub proof fn confidence_changes_in_bits(a: tile::TileView, b: tile::TileView)
    ensures
        changes_of(a, b).contains("confidence_changed"@) <==> 0x3f84_7ae1_47ae_147b
            < binary64::absolute(binary64::difference(a.confidence, b.confidence)).bits
            <= 0x7ff0_0000_0000_0000,
{
    changes_named(a, b);
    float_laws::decimal_fractions();
    float_laws::order_is_that_of_the_bits(
        binary64::ratio_of(1, 100),
        binary64::absolute(binary64::difference(a.confidence, b.confidence)),
    );
}

} // verus!
