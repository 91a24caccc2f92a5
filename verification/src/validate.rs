//! The gates that a tile has to pass before it is stored.
use crate::binary64;
use crate::binary64::Binary64;
use crate::float_laws;
use crate::tile;
use crate::tile::Tile;
use vstd::prelude::*;

verus! {

/// How long a tile counts as fresh, in seconds: thirty days.
pub const FRESH_SECONDS: u64 = 2_592_000;

/// The least number of bytes in a question and in an answer.
pub const LEAST_LENGTH: usize = 10;

/// The gates that a tile has to pass before it is stored.
pub struct ValidationGate;

/// The confidence is a number, and at least 0.3.
pub open spec fn confident(t: tile::TileView) -> bool {
    binary64::at_most(binary64::ratio_of(3, 10), t.confidence)
}

/// Question and answer have at least ten bytes each in UTF-8.
pub open spec fn long_enough(t: tile::TileView) -> bool {
    &&& vstd::utf8::encode_utf8(t.question).len() >= LEAST_LENGTH
    &&& vstd::utf8::encode_utf8(t.answer).len() >= LEAST_LENGTH
}

/// The domain is not empty.
pub open spec fn has_domain(t: tile::TileView) -> bool {
    t.domain.len() > 0
}

/// The tile was created less than thirty days before `now`, or after it.
pub open spec fn fresh(t: tile::TileView, now: u64) -> bool {
    now - t.created_at < FRESH_SECONDS
}

/// All four gates are passed.
pub open spec fn valid(t: tile::TileView, now: u64) -> bool {
    confident(t) && long_enough(t) && has_domain(t) && fresh(t, now)
}

/// The name of a gate where it is not passed.
pub open spec fn failure(passed: bool, name: Seq<char>) -> Seq<Seq<char>> {
    if passed {
        Seq::empty()
    } else {
        seq![name]
    }
}

/// The names of the gates that are not passed, in the order of the gates.
pub open spec fn failures_of(t: tile::TileView, now: u64) -> Seq<Seq<char>> {
    failure(confident(t), "confidence"@) + failure(long_enough(t), "content_length"@) + failure(
        has_domain(t),
        "domain_format"@,
    ) + failure(fresh(t, now), "freshness"@)
}

/// The texts of a list of names.
pub open spec fn names(list: Seq<&'static str>) -> Seq<Seq<char>> {
    list.map_values(|s: &'static str| s@)
}

/// Adds `name` to `failures` unless its gate is passed.
fn note(failures: &mut Vec<&'static str>, passed: bool, name: &'static str)
    ensures
        names(final(failures)@) == names(old(failures)@) + failure(passed, name@),
{
    let ghost before = names(failures@);
    if !passed {
        failures.push(name);
    }
    assert(names(failures@) =~= before + failure(passed, name@));
}

impl ValidationGate {
    /// Whether the confidence is at least 0.3.
    pub fn confidence(tile: &Tile) -> (r: bool)
        ensures
            r == confident(tile@),
    {
        Binary64::ratio(3, 10).le(tile.confidence)
    }

    /// Whether question and answer have at least ten bytes each.
    pub fn content_length(tile: &Tile) -> (r: bool)
        ensures
            r == long_enough(tile@),
    {
        tile.question.as_str().as_bytes().len() >= LEAST_LENGTH
            && tile.answer.as_str().as_bytes().len() >= LEAST_LENGTH
    }

    /// Whether there is a domain.
    pub fn domain_format(tile: &Tile) -> (r: bool)
        ensures
            r == has_domain(tile@),
    {
        !tile.domain.as_str().is_empty()
    }

    /// Whether the tile was created less than thirty days ago.
    pub fn freshness(tile: &Tile, now: u64) -> (r: bool)
        ensures
            r == fresh(tile@, now),
    {
        now.saturating_sub(tile.created_at) < FRESH_SECONDS
    }

    /// Whether all gates are passed, and the names of those that are not.
    pub fn validate_all(tile: &Tile, now: u64) -> (r: (bool, Vec<&'static str>))
        ensures
            r.0 == valid(tile@, now),
            names(r.1@) == failures_of(tile@, now),
    {
        let mut failures: Vec<&'static str> = Vec::new();
        assert(names(failures@) =~= Seq::empty());
        note(&mut failures, Self::confidence(tile), "confidence");
        note(&mut failures, Self::content_length(tile), "content_length");
        note(&mut failures, Self::domain_format(tile), "domain_format");
        note(&mut failures, Self::freshness(tile, now), "freshness");
        assert(names(failures@) =~= failures_of(tile@, now));
        assert(names(failures@).len() == failures@.len());
        (failures.is_empty(), failures)
    }
}

/// A tile is valid exactly where no gate is named as failed.
pub proof fn valid_iff_no_failures(t: tile::TileView, now: u64)
    ensures
        valid(t, now) <==> failures_of(t, now).len() == 0,
{
}

/// Each gate is named exactly where it is not passed.
pub proof fn failures_name_the_gates(t: tile::TileView, now: u64)
    ensures
        failures_of(t, now).contains("confidence"@) <==> !confident(t),
        failures_of(t, now).contains("content_length"@) <==> !long_enough(t),
        failures_of(t, now).contains("domain_format"@) <==> !has_domain(t),
        failures_of(t, now).contains("freshness"@) <==> !fresh(t, now),
{
    reveal_strlit("confidence");
    reveal_strlit("content_length");
    reveal_strlit("domain_format");
    reveal_strlit("freshness");
    let a = failure(confident(t), "confidence"@);
    let b = failure(long_enough(t), "content_length"@);
    let c = failure(has_domain(t), "domain_format"@);
    let d = failure(fresh(t, now), "freshness"@);
    assert("confidence"@.len() == 10);
    assert("content_length"@.len() == 14);
    assert("domain_format"@.len() == 13);
    assert("freshness"@.len() == 9);
    assert forall|name: Seq<char>| #[trigger]
        failures_of(t, now).contains(name) <==> (a.contains(name) || b.contains(name) || c.contains(
            name,
        ) || d.contains(name)) by {
        vstd::seq_lib::lemma_seq_concat_contains_all_elements(a, b, name);
        vstd::seq_lib::lemma_seq_concat_contains_all_elements(a + b, c, name);
        vstd::seq_lib::lemma_seq_concat_contains_all_elements(a + b + c, d, name);
    }
    lemma_failure_names(confident(t), "confidence"@);
    lemma_failure_names(long_enough(t), "content_length"@);
    lemma_failure_names(has_domain(t), "domain_format"@);
    lemma_failure_names(fresh(t, now), "freshness"@);
}

/// A gate is named by its own name only, and only where it is not passed.
proof fn lemma_failure_names(passed: bool, name: Seq<char>)
    ensures
        forall|x: Seq<char>| #[trigger]
            failure(passed, name).contains(x) <==> (!passed && x == name),
{
    if !passed {
        assert(failure(passed, name)[0] == name);
    }
}

/// A tile that is fresh stays so at every earlier time.
pub proof fn freshness_only_fades(t: tile::TileView, earlier: u64, later: u64)
    requires
        earlier <= later,
        fresh(t, later),
    ensures
        fresh(t, earlier),
{
}

/// The gates in plain numbers: a confidence from 0.3 up, at least ten bytes each of question and
/// answer, a domain, and less than thirty days since the creation. Nothing else of a tile counts.
pub proof fn gates_in_plain_numbers(t: tile::TileView, now: u64)
    ensures
        failures_of(t, now).contains("confidence"@) <==> !(0x3fd3_3333_3333_3333
            <= t.confidence.bits <= 0x7ff0_0000_0000_0000),
        failures_of(t, now).contains("content_length"@) <==> vstd::utf8::encode_utf8(
            t.question,
        ).len() < 10 || vstd::utf8::encode_utf8(t.answer).len() < 10,
        failures_of(t, now).contains("domain_format"@) <==> t.domain == Seq::<char>::empty(),
        failures_of(t, now).contains("freshness"@) <==> now >= t.created_at + 30 * 24 * 3600,
        valid(t, now) <==> {
            &&& 0x3fd3_3333_3333_3333 <= t.confidence.bits <= 0x7ff0_0000_0000_0000
            &&& vstd::utf8::encode_utf8(t.question).len() >= 10
            &&& vstd::utf8::encode_utf8(t.answer).len() >= 10
            &&& t.domain != Seq::<char>::empty()
            &&& now < t.created_at + 30 * 24 * 3600
        },
{
    failures_name_the_gates(t, now);
    lemma_confident_bits(t);
    if t.domain.len() == 0 {
        assert(t.domain =~= Seq::<char>::empty());
    }
}

/// A confidence passes its gate exactly where it is a number from 0.3 up.
proof fn lemma_confident_bits(t: tile::TileView)
    ensures
        confident(t) <==> 0x3fd3_3333_3333_3333 <= t.confidence.bits <= 0x7ff0_0000_0000_0000,
{
    let c = t.confidence;
    let least = binary64::ratio_of(3, 10);
    float_laws::decimal_fractions();
    if c.bits < 0x8000_0000_0000_0000 {
        float_laws::order_is_that_of_the_bits(least, c);
    } else if c.bits <= 0xfff0_0000_0000_0000 {
        float_laws::signed_numbers_come_first(c, least);
    }
}

/// The failed gates are named once each, in the order of the gates.
pub proof fn failures_in_order(t: tile::TileView, now: u64)
    ensures
        ({
            let order = seq!["confidence"@, "content_length"@, "domain_format"@, "freshness"@];
            let named = failures_of(t, now);
            &&& forall|i: int| 0 <= i < named.len() ==> order.contains(#[trigger] named[i])
            &&& forall|i: int, j: int, x: int, y: int|
                #![trigger named[i], named[j], order[x], order[y]]
                0 <= i < j < named.len() && 0 <= x < 4 && 0 <= y < 4 && named[i] == order[x]
                    && named[j] == order[y] ==> x < y
        }),
{
    let order = seq!["confidence"@, "content_length"@, "domain_format"@, "freshness"@];
    reveal_strlit("confidence");
    reveal_strlit("content_length");
    reveal_strlit("domain_format");
    reveal_strlit("freshness");
    assert("confidence"@.len() == 10);
    assert("content_length"@.len() == 14);
    assert("domain_format"@.len() == 13);
    assert("freshness"@.len() == 9);
    assert(order[0].len() == 10 && order[1].len() == 14 && order[2].len() == 13 && order[3].len()
        == 9);
}

/// The texts of a list of names are theirs, in their order.
pub proof fn names_are_those_of_the_list(list: Seq<&'static str>)
    ensures
        names(list).len() == list.len(),
        forall|i: int| 0 <= i < list.len() ==> #[trigger] names(list)[i] == list[i]@,
{
}

} // verus!
