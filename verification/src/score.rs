//! How well a tile answers a query.
use crate::binary64;
use crate::binary64::Binary64;
use crate::float_laws;
use crate::rounding::BINADE;
use crate::text;
use crate::text::WordSet;
use crate::tile;
use crate::tile::Tile;
use vstd::prelude::*;

verus! {

/// The seconds of an hour.
pub const HOUR: u64 = 3600;

/// The hours in which the temporal signal halves: seven days.
pub const HALF_LIFE_HOURS: u64 = 168;

/// The seconds of seven days, which make a half-life.
pub const SEVEN_DAYS: u64 = 604_800;

/// Scores tiles against queries.
pub struct TileScorer;

/// The signals that make up a score. One of them is left as an exponent: the temporal signal is one
/// half to the power `half_lives`.
#[derive(Debug, Clone, Copy, PartialEq, Eq, Structural)]
pub struct Score {
    pub keyword: Binary64,
    pub belief: Binary64,
    pub half_lives: Binary64,
    pub frequency: Binary64,
    pub controversy: Binary64,
}

/// The different words of a tile's question and answer.
pub open spec fn tile_words(t: tile::TileView) -> Set<Seq<char>> {
    text::words_of(t.question).union(text::words_of(t.answer))
}

/// The larger of two numbers.
pub open spec fn max(a: nat, b: nat) -> nat {
    if a < b {
        b
    } else {
        a
    }
}

/// The share of common words in the larger of the two sets of words, that of the query and that of
/// the tile.
pub open spec fn keyword_signal(t: tile::TileView, query: Seq<char>) -> Binary64 {
    let q = text::words_of(query);
    let w = tile_words(t);
    if q.len() == 0 || w.len() == 0 {
        binary64::zero()
    } else {
        binary64::ratio_of(q.intersect(w).len(), max(q.len(), w.len()))
    }
}

/// The seconds from the last refresh up to `now`, at least zero.
pub open spec fn age(t: tile::TileView, now: u64) -> nat {
    if now < t.refreshed_at {
        0
    } else {
        (now - t.refreshed_at) as nat
    }
}

/// The age of a tile in half-lives.
pub open spec fn half_lives_of(t: tile::TileView, now: u64) -> Binary64 {
    binary64::quotient(
        binary64::ratio_of(age(t, now), HOUR as nat),
        binary64::integer(HALF_LIFE_HOURS as nat),
    )
}

/// The number of uses, capped at ten, over ten.
pub open spec fn frequency_of(t: tile::TileView) -> Binary64 {
    binary64::quotient(
        binary64::smaller(binary64::integer(t.use_count as nat), binary64::integer(10)),
        binary64::integer(10),
    )
}

/// A twentieth for each challenge, up to 0.3.
pub open spec fn controversy_of(t: tile::TileView) -> Binary64 {
    if t.challenge_count == 0 {
        binary64::zero()
    } else {
        binary64::smaller(
            binary64::product(
                binary64::integer(t.challenge_count as nat),
                binary64::ratio_of(5, 100),
            ),
            binary64::ratio_of(30, 100),
        )
    }
}

/// The signals of a tile for a query.
pub open spec fn score_of(t: tile::TileView, query: Seq<char>, now: u64) -> Score {
    Score {
        keyword: keyword_signal(t, query),
        belief: t.confidence,
        half_lives: half_lives_of(t, now),
        frequency: frequency_of(t),
        controversy: controversy_of(t),
    }
}

/// `signal` times a weight in percent.
pub open spec fn weighted(signal: Binary64, percent: nat) -> Binary64 {
    binary64::product(signal, binary64::ratio_of(percent, 100))
}

impl Score {
    /// Enough words are in common: the keyword signal is not below 0.01.
    pub open spec fn relevant(self) -> bool {
        !binary64::less(self.keyword, binary64::ratio_of(1, 100))
    }

    /// The number that the signals give together with the temporal signal `temporal`.
    pub open spec fn total(self, temporal: Binary64) -> Binary64 {
        if !self.relevant() {
            binary64::zero()
        } else {
            let words = weighted(self.keyword, 30);
            let believed = binary64::sum(words, weighted(self.belief, 25));
            let in_domain = binary64::sum(believed, weighted(binary64::ratio_of(8, 10), 20));
            let recent = binary64::sum(in_domain, weighted(temporal, 15));
            let used = binary64::sum(recent, weighted(self.frequency, 10));
            binary64::sum(used, weighted(self.controversy, 10))
        }
    }

    /// Whether enough words are in common for a score above zero.
    pub fn is_relevant(&self) -> (r: bool)
        ensures
            r == self.relevant(),
    {
        !self.keyword.lt(Binary64::ratio(1, 100))
    }

    /// The weighted sum of the signals, where `temporal` is one half to the power
    /// `self.half_lives`; zero where too few words are in common.
    pub fn value(&self, temporal: Binary64) -> (r: Binary64)
        ensures
            r == self.total(temporal),
    {
        if !self.is_relevant() {
            return Binary64::zero();
        }
        let domain = Binary64::ratio(8, 10);
        TileScorer::weigh(self.keyword, 30)
            .add(TileScorer::weigh(self.belief, 25))
            .add(TileScorer::weigh(domain, 20))
            .add(TileScorer::weigh(temporal, 15))
            .add(TileScorer::weigh(self.frequency, 10))
            .add(TileScorer::weigh(self.controversy, 10))
    }
}

impl TileScorer {
    /// The signals of `tile` for `query` at the time `now`.
    pub fn score(tile: &Tile, query: &str, now: u64) -> (r: Score)
        ensures
            r == score_of(tile@, query@, now),
            float_laws::in_unit_interval(r.keyword),
    {
        Score {
            keyword: Self::keyword_match(tile, query),
            belief: tile.confidence,
            half_lives: Self::half_lives(tile, now),
            frequency: Self::frequency_signal(tile),
            controversy: Self::controversy_signal(tile),
        }
    }

    /// `signal` times a weight in percent.
    fn weigh(signal: Binary64, percent: u64) -> (r: Binary64)
        ensures
            r == weighted(signal, percent as nat),
    {
        signal.mul(Binary64::ratio(percent, 100))
    }

    /// The share of common words in the larger of the two sets of words.
    pub fn keyword_match(tile: &Tile, query: &str) -> (r: Binary64)
        ensures
            r == keyword_signal(tile@, query@),
            float_laws::in_unit_interval(r),
    {
        let q_words = WordSet::of(query);
        let t_words = WordSet::of_both(tile.question.as_str(), tile.answer.as_str());
        let q: usize = q_words.len();
        let t: usize = t_words.len();
        if q == 0 || t == 0 {
            proof {
                vstd::arithmetic::power2::lemma_pow2_pos(binary64::UNIT_EXPONENT as nat);
            }
            return Binary64::zero();
        }
        let intersection: usize = q_words.common(&t_words);
        let larger: usize = if q < t {
            t
        } else {
            q
        };
        proof {
            vstd::set_lib::lemma_len_intersect(q_words@, t_words@);
            float_laws::ratio_in_unit_interval(intersection as nat, larger as nat);
        }
        Binary64::ratio(intersection as u64, larger as u64)
    }

    /// The age of `tile` at the time `now`, in half-lives of seven days.
    pub fn half_lives(tile: &Tile, now: u64) -> (r: Binary64)
        ensures
            r == half_lives_of(tile@, now),
    {
        let age_hours = Binary64::ratio(now.saturating_sub(tile.refreshed_at), HOUR);
        age_hours.div(Binary64::from_u64(HALF_LIFE_HOURS))
    }

    /// The number of uses, capped at ten, over ten.
    pub fn frequency_signal(tile: &Tile) -> (r: Binary64)
        ensures
            r == frequency_of(tile@),
    {
        let ten = Binary64::from_u64(10);
        Binary64::from_u64(tile.use_count).min(ten).div(ten)
    }

    /// The bonus of a tile that survived challenges.
    pub fn controversy_signal(tile: &Tile) -> (r: Binary64)
        ensures
            r == controversy_of(tile@),
    {
        if tile.challenge_count == 0 {
            return Binary64::zero();
        }
        Binary64::from_u64(tile.challenge_count).mul(Binary64::ratio(5, 100)).min(
            Binary64::ratio(30, 100),
        )
    }
}

/// The texts are no longer than a machine can count.
pub open spec fn countable(t: tile::TileView, query: Seq<char>) -> bool {
    query.len() <= u64::MAX && t.question.len() + t.answer.len() <= u64::MAX
}

/// The keyword signal is a number from zero to one.
pub proof fn keyword_signal_in_unit_interval(t: tile::TileView, query: Seq<char>)
    requires
        countable(t, query),
    ensures
        float_laws::in_unit_interval(keyword_signal(t, query)),
{
    let q = text::words_of(query);
    let w = tile_words(t);
    vstd::arithmetic::power2::lemma_pow2_pos(binary64::UNIT_EXPONENT as nat);
    lemma_word_counts(t, query);
    vstd::set_lib::lemma_len_intersect(q, w);
    if q.len() > 0 && w.len() > 0 {
        float_laws::ratio_in_unit_interval(q.intersect(w).len(), max(q.len(), w.len()));
    }
}

/// The keyword signal is zero exactly where query and tile have no word in common.
pub proof fn keyword_signal_zero(t: tile::TileView, query: Seq<char>)
    requires
        countable(t, query),
    ensures
        keyword_signal(t, query) == binary64::zero() <==> text::words_of(query).disjoint(
            tile_words(t),
        ),
{
    let q = text::words_of(query);
    let w = tile_words(t);
    let common = q.intersect(w);
    lemma_word_counts(t, query);
    vstd::set_lib::lemma_disjoint_iff_empty_intersection(q, w);
    vstd::set_lib::lemma_len_intersect(q, w);
    if common.len() == 0 {
        common.lemma_len0_is_empty();
    }
    if q.len() > 0 && w.len() > 0 {
        float_laws::ratio_is_zero(common.len(), max(q.len(), w.len()));
    } else {
        assert(common.len() <= w.len()) by {
            vstd::set_lib::lemma_len_intersect(w, q);
            assert(w.intersect(q) =~= common);
        }
    }
}

/// The keyword signal is one exactly where query and tile have the same words, and have some.
pub proof fn keyword_signal_one(t: tile::TileView, query: Seq<char>)
    requires
        max(text::words_of(query).len(), tile_words(t).len()) <= 2 * BINADE,
    ensures
        keyword_signal(t, query) == binary64::integer(1) <==> {
            &&& text::words_of(query) == tile_words(t)
            &&& text::words_of(query).len() > 0
        },
{
    let q = text::words_of(query);
    let w = tile_words(t);
    let common = q.intersect(w);
    lemma_words_finite(t, query);
    vstd::set_lib::lemma_len_intersect(q, w);
    vstd::set_lib::lemma_len_intersect(w, q);
    assert(w.intersect(q) =~= common);
    if q.len() > 0 && w.len() > 0 {
        float_laws::ratio_is_one(common.len(), max(q.len(), w.len()));
        if common.len() == max(q.len(), w.len()) {
            vstd::set_lib::lemma_subset_equality(common, q);
            vstd::set_lib::lemma_subset_equality(common, w);
        }
        if q == w {
            assert(common =~= q);
        }
    } else {
        float_laws::integer_exact(1);
        vstd::arithmetic::power2::lemma_pow2_pos(binary64::UNIT_EXPONENT as nat);
        assert(binary64::zero().value() == 0);
    }
}

/// The keyword signal depends on the words alone: where the words are the same it is the same,
/// however they are arranged, and whether they stand in the question or in the answer.
pub proof fn keyword_signal_depends_on_words(
    t: tile::TileView,
    u: tile::TileView,
    query: Seq<char>,
    other: Seq<char>,
)
    requires
        text::words_of(query) == text::words_of(other),
        tile_words(t) == tile_words(u),
    ensures
        keyword_signal(t, query) == keyword_signal(u, other),
{
}

/// The keyword signal is the same when question and answer change places.
pub proof fn keyword_signal_swaps(t: tile::TileView, query: Seq<char>)
    ensures
        keyword_signal(
            (tile::TileView { question: t.answer, answer: t.question, ..t }),
            query,
        ) == keyword_signal(t, query),
{
    let u = tile::TileView { question: t.answer, answer: t.question, ..t };
    assert(tile_words(u) =~= tile_words(t));
}

/// The words of query and tile are finitely many.
proof fn lemma_words_finite(t: tile::TileView, query: Seq<char>)
    ensures
        text::words_of(query).finite(),
        tile_words(t).finite(),
{
    text::words_bounded(query);
    text::words_bounded(t.question);
    text::words_bounded(t.answer);
}

/// The words of query and tile are no more than a machine can count.
proof fn lemma_word_counts(t: tile::TileView, query: Seq<char>)
    requires
        countable(t, query),
    ensures
        text::words_of(query).finite(),
        tile_words(t).finite(),
        max(text::words_of(query).len(), tile_words(t).len()) <= u64::MAX,
{
    lemma_words_finite(t, query);
    text::words_bounded(query);
    text::words_bounded(t.question);
    text::words_bounded(t.answer);
    vstd::set_lib::lemma_len_union(text::words_of(t.question), text::words_of(t.answer));
}

/// Enough words are in common where they make up a hundredth of the larger set.
pub proof fn relevant_from_one_hundredth(t: tile::TileView, query: Seq<char>, now: u64)
    requires
        max(text::words_of(query).len(), tile_words(t).len()) <= BINADE,
    ensures
        score_of(t, query, now).relevant() <==> {
            let q = text::words_of(query);
            let w = tile_words(t);
            &&& q.len() > 0
            &&& w.len() > 0
            &&& 100 * q.intersect(w).len() >= max(q.len(), w.len())
        },
{
    let q = text::words_of(query);
    let w = tile_words(t);
    float_laws::ratio_positive(1, 100);
    if q.len() > 0 && w.len() > 0 {
        text::words_bounded(query);
        let i = q.intersect(w).len();
        let m = max(q.len(), w.len());
        vstd::set_lib::lemma_len_intersect(q, w);
        float_laws::ratio_rounded_once(i, m);
        float_laws::ratio_rounded_once(1, 100);
        if 100 * i >= m {
            float_laws::ratio_monotone(1, 100, i, m);
        } else {
            float_laws::below_one_hundredth(i, m);
        }
    }
}

/// Every signal of a score, and its belief, is a number and at least zero.
pub open spec fn non_negative_signals(s: Score) -> bool {
    &&& float_laws::non_negative(s.keyword)
    &&& float_laws::non_negative(s.belief)
    &&& float_laws::non_negative(s.frequency)
    &&& float_laws::non_negative(s.controversy)
}

/// A score is zero where too few words are in common, whatever the other signals are.
pub proof fn irrelevant_scores_zero(s: Score, temporal: Binary64)
    requires
        binary64::less(s.keyword, binary64::ratio_of(1, 100)),
    ensures
        s.total(temporal) == binary64::zero(),
{
}

/// The weight of a signal keeps it from becoming negative, and grows with it.
proof fn lemma_weighted(a: Binary64, b: Binary64, percent: nat)
    requires
        float_laws::non_negative(a),
        float_laws::non_negative(b),
        a.value() <= b.value(),
        0 < percent <= 100,
    ensures
        float_laws::non_negative(weighted(a, percent)),
        float_laws::non_negative(weighted(b, percent)),
        weighted(a, percent).value() <= weighted(b, percent).value(),
{
    float_laws::ratio_positive(percent, 100);
    float_laws::product_monotone(a, b, binary64::ratio_of(percent, 100));
}

/// A score is above zero where enough words are in common.
pub proof fn relevant_scores_positive(s: Score, temporal: Binary64)
    requires
        non_negative_signals(s),
        float_laws::non_negative(temporal),
        s.relevant(),
    ensures
        binary64::less(binary64::zero(), s.total(temporal)),
{
    let domain = binary64::ratio_of(8, 10);
    float_laws::ratio_positive(8, 10);
    float_laws::ratio_positive(20, 100);
    float_laws::product_positive(domain, binary64::ratio_of(20, 100));
    lemma_weighted(s.keyword, s.keyword, 30);
    lemma_weighted(s.belief, s.belief, 25);
    lemma_weighted(temporal, temporal, 15);
    lemma_weighted(s.frequency, s.frequency, 10);
    lemma_weighted(s.controversy, s.controversy, 10);
    let words = weighted(s.keyword, 30);
    let believed = binary64::sum(words, weighted(s.belief, 25));
    let in_domain = binary64::sum(believed, weighted(domain, 20));
    let recent = binary64::sum(in_domain, weighted(temporal, 15));
    let used = binary64::sum(recent, weighted(s.frequency, 10));
    float_laws::sum_not_below_terms(words, weighted(s.belief, 25));
    float_laws::sum_not_below_terms(believed, weighted(domain, 20));
    float_laws::sum_not_below_terms(in_domain, weighted(temporal, 15));
    float_laws::sum_not_below_terms(recent, weighted(s.frequency, 10));
    float_laws::sum_not_below_terms(used, weighted(s.controversy, 10));
}

/// A score does not fall when its signals rise.
pub proof fn score_grows_with_its_signals(
    a: Score,
    temporal_a: Binary64,
    b: Score,
    temporal_b: Binary64,
)
    requires
        non_negative_signals(a),
        non_negative_signals(b),
        float_laws::non_negative(temporal_a),
        float_laws::non_negative(temporal_b),
        binary64::at_most(a.keyword, b.keyword),
        binary64::at_most(a.belief, b.belief),
        binary64::at_most(temporal_a, temporal_b),
        binary64::at_most(a.frequency, b.frequency),
        binary64::at_most(a.controversy, b.controversy),
    ensures
        binary64::at_most(a.total(temporal_a), b.total(temporal_b)),
{
    if b.relevant() {
        relevant_scores_positive(b, temporal_b);
    }
    if a.relevant() {
        relevant_scores_positive(a, temporal_a);
        let domain = binary64::ratio_of(8, 10);
        float_laws::ratio_positive(1, 100);
        float_laws::ratio_positive(8, 10);
        lemma_weighted(a.keyword, b.keyword, 30);
        lemma_weighted(a.belief, b.belief, 25);
        lemma_weighted(domain, domain, 20);
        lemma_weighted(temporal_a, temporal_b, 15);
        lemma_weighted(a.frequency, b.frequency, 10);
        lemma_weighted(a.controversy, b.controversy, 10);
        let (a1, b1) = (weighted(a.keyword, 30), weighted(b.keyword, 30));
        let (wa, wb) = (weighted(a.belief, 25), weighted(b.belief, 25));
        lemma_sums(a1, wa, b1, wb);
        let (a2, b2) = (binary64::sum(a1, wa), binary64::sum(b1, wb));
        let d = weighted(domain, 20);
        lemma_sums(a2, d, b2, d);
        let (a3, b3) = (binary64::sum(a2, d), binary64::sum(b2, d));
        let (ta, tb) = (weighted(temporal_a, 15), weighted(temporal_b, 15));
        lemma_sums(a3, ta, b3, tb);
        let (a4, b4) = (binary64::sum(a3, ta), binary64::sum(b3, tb));
        let (fa, fb) = (weighted(a.frequency, 10), weighted(b.frequency, 10));
        lemma_sums(a4, fa, b4, fb);
        let (a5, b5) = (binary64::sum(a4, fa), binary64::sum(b4, fb));
        let (ca, cb) = (weighted(a.controversy, 10), weighted(b.controversy, 10));
        lemma_sums(a5, ca, b5, cb);
    }
}

/// Sums of numbers that are not negative are not negative, and grow with their terms.
proof fn lemma_sums(a1: Binary64, b1: Binary64, a2: Binary64, b2: Binary64)
    requires
        float_laws::non_negative(a1),
        float_laws::non_negative(b1),
        float_laws::non_negative(a2),
        float_laws::non_negative(b2),
        a1.value() <= a2.value(),
        b1.value() <= b2.value(),
    ensures
        float_laws::non_negative(binary64::sum(a1, b1)),
        float_laws::non_negative(binary64::sum(a2, b2)),
        binary64::sum(a1, b1).value() <= binary64::sum(a2, b2).value(),
{
    float_laws::sum_not_below_terms(a1, b1);
    float_laws::sum_not_below_terms(a2, b2);
    float_laws::sum_monotone(a1, b1, a2, b2);
}

/// The frequency signal is not negative, and does not fall with further uses.
pub proof fn frequency_grows_with_uses(a: tile::TileView, b: tile::TileView)
    requires
        a.use_count <= b.use_count,
    ensures
        float_laws::non_negative(frequency_of(a)),
        float_laws::non_negative(frequency_of(b)),
        frequency_of(a).value() <= frequency_of(b).value(),
{
    float_laws::integer_monotone(a.use_count as nat, b.use_count as nat);
    float_laws::integer_exact(10);
    float_laws::integer_monotone(10, 10);
    vstd::arithmetic::power2::lemma_pow2_pos(binary64::UNIT_EXPONENT as nat);
    let ten = binary64::integer(10);
    let x = binary64::smaller(binary64::integer(a.use_count as nat), ten);
    let y = binary64::smaller(binary64::integer(b.use_count as nat), ten);
    float_laws::quotient_monotone(x, y, ten);
}

/// The controversy signal is not negative, and does not fall with further challenges.
pub proof fn controversy_grows_with_challenges(a: tile::TileView, b: tile::TileView)
    requires
        a.challenge_count <= b.challenge_count,
    ensures
        float_laws::non_negative(controversy_of(a)),
        float_laws::non_negative(controversy_of(b)),
        controversy_of(a).value() <= controversy_of(b).value(),
{
    float_laws::integer_monotone(a.challenge_count as nat, b.challenge_count as nat);
    float_laws::ratio_positive(5, 100);
    float_laws::ratio_positive(30, 100);
    float_laws::product_monotone(
        binary64::integer(a.challenge_count as nat),
        binary64::integer(b.challenge_count as nat),
        binary64::ratio_of(5, 100),
    );
}

/// Up to its refresh a tile is no half-life old.
pub proof fn no_half_life_before_refresh(t: tile::TileView, now: u64)
    requires
        now <= t.refreshed_at,
    ensures
        half_lives_of(t, now) == binary64::zero(),
{
    float_laws::ratio_is_zero(0, HOUR as nat);
    float_laws::integer_monotone(1, HALF_LIFE_HOURS as nat);
    vstd::arithmetic::power2::lemma_pow2_pos(binary64::UNIT_EXPONENT as nat);
    float_laws::zero_quotient(binary64::integer(HALF_LIFE_HOURS as nat));
}

/// `h` is the fraction `exact / SEVEN_DAYS`, up to 2^-51 of it.
pub open spec fn near_weeks(h: int, exact: int) -> bool {
    &&& (SEVEN_DAYS * h - exact) * (BINADE / 2) <= exact
    &&& (exact - SEVEN_DAYS * h) * (BINADE / 2) <= exact
}

/// An age that is rounded, divided by the seconds of an hour, and then by the hours of a half-life,
/// each with its rounding, is the age over seven days, up to the three roundings.
proof fn lemma_three_roundings(exact: int, seconds: int, hours: int, h: int)
    requires
        exact >= 0,
        seconds >= 0,
        hours >= 0,
        float_laws::near_fraction(seconds, exact, 1),
        float_laws::near_fraction(hours, seconds, HOUR as int),
        float_laws::near_fraction(h, hours, HALF_LIFE_HOURS as int),
    ensures
        near_weeks(h, exact),
{
    assert(2 * BINADE == 0x20_0000_0000_0000);
    assert(BINADE / 2 == 0x8_0000_0000_0000);
    let e = seconds - exact;
    let f = 3600 * hours - seconds;
    let g = 168 * h - hours;
    assert(e * 0x20_0000_0000_0000 <= exact && -e * 0x20_0000_0000_0000 <= exact);
    assert(f * 0x20_0000_0000_0000 <= seconds && -f * 0x20_0000_0000_0000 <= seconds);
    assert(g * 0x20_0000_0000_0000 <= hours && -g * 0x20_0000_0000_0000 <= hours);
    let moved = 604_800 * h - exact;
    assert(moved == 3600 * g + f + e);
    assert(10 * seconds <= 11 * exact) by (nonlinear_arith)
        requires
            (seconds - exact) * 0x20_0000_0000_0000 <= exact,
            exact >= 0,
    ;
    assert(36_000 * hours <= 11 * seconds) by (nonlinear_arith)
        requires
            (3600 * hours - seconds) * 0x20_0000_0000_0000 <= seconds,
            seconds >= 0,
    ;
    assert(moved * 0x20_0000_0000_0000 == 3600 * (g * 0x20_0000_0000_0000) + f
        * 0x20_0000_0000_0000 + e * 0x20_0000_0000_0000) by (nonlinear_arith)
        requires
            moved == 3600 * g + f + e,
    ;
    assert(moved * 0x8_0000_0000_0000 <= exact && -moved * 0x8_0000_0000_0000 <= exact);
}

/// The age in half-lives is the age over seven days, up to 2^-51 of it.
pub proof fn half_lives_count_seven_days(t: tile::TileView, now: u64)
    ensures
        near_weeks(half_lives_of(t, now).value(), (age(t, now) * float_laws::one()) as int),
{
    let one = float_laws::one();
    let n = age(t, now);
    let exact = (n * one) as int;
    if n == 0 {
        no_half_life_before_refresh(t, now);
        assert(exact == 0) by (nonlinear_arith)
            requires
                exact == 0 * one,
        ;
        let h = half_lives_of(t, now).value();
        assert(h == 0);
        assert(SEVEN_DAYS * h == 0 && 0 * (BINADE / 2) == 0) by (nonlinear_arith)
            requires
                h == 0,
        ;
        assert(near_weeks(h, 0));
    } else {
        let seconds = binary64::integer(n);
        let hours = binary64::ratio_of(n, HOUR as nat);
        float_laws::lemma_one_is_many_units();
        float_laws::integer_monotone(1, n);
        float_laws::integer_exact(1);
        float_laws::integer_monotone(1, HOUR as nat);
        float_laws::integer_error(n);
        float_laws::quotient_error(seconds, HOUR as nat);
        float_laws::quotient_monotone(seconds, seconds, binary64::integer(HOUR as nat));
        assert(2 * BINADE == 0x20_0000_0000_0000);
        float_laws::quotient_error(hours, HALF_LIFE_HOURS as nat);
        lemma_three_roundings(
            exact,
            seconds.value(),
            hours.value(),
            half_lives_of(t, now).value(),
        );
    }
}

/// From the refresh on, seven days more make a tile one half-life older, up to 2^-50 of its age in
/// half-lives.
pub proof fn seven_days_add_one_half_life(t: tile::TileView, now: u64)
    requires
        t.refreshed_at <= now <= u64::MAX - SEVEN_DAYS,
    ensures
        ({
            let later = (now + SEVEN_DAYS) as u64;
            let moved = half_lives_of(t, later).value() - half_lives_of(t, now).value()
                - float_laws::one();
            let exact = age(t, later) * float_laws::one();
            &&& (SEVEN_DAYS * moved) * (BINADE / 4) <= exact
            &&& -(SEVEN_DAYS * moved) * (BINADE / 4) <= exact
        }),
{
    let later = (now + SEVEN_DAYS) as u64;
    let one = float_laws::one();
    let (x, y) = (half_lives_of(t, now).value(), half_lives_of(t, later).value());
    let (m, n) = (age(t, now), age(t, later));
    half_lives_count_seven_days(t, now);
    half_lives_count_seven_days(t, later);
    assert(n * one == m * one + 604_800 * one && m * one >= 0) by (nonlinear_arith)
        requires
            n == m + 604_800,
            m >= 0,
            one >= 0,
    ;
    assert(BINADE / 2 == 0x8_0000_0000_0000);
    assert(BINADE / 4 == 0x4_0000_0000_0000);
    let moved = 604_800 * (y - x - one);
    let (first, exact) = ((m * one) as int, (n * one) as int);
    let (dx, dy) = (604_800 * x - first, 604_800 * y - exact);
    assert(dx * 0x8_0000_0000_0000 <= first && -dx * 0x8_0000_0000_0000 <= first);
    assert(dy * 0x8_0000_0000_0000 <= exact && -dy * 0x8_0000_0000_0000 <= exact);
    assert(moved == dy - dx);
    assert(moved * 0x4_0000_0000_0000 <= exact && -moved * 0x4_0000_0000_0000 <= exact)
        by (nonlinear_arith)
        requires
            moved == dy - dx,
            dx * 0x8_0000_0000_0000 <= first,
            -dx * 0x8_0000_0000_0000 <= first,
            dy * 0x8_0000_0000_0000 <= exact,
            -dy * 0x8_0000_0000_0000 <= exact,
            first <= exact,
    ;
}

/// The age of a tile in half-lives is not negative, and the older of two tiles is not less old in
/// half-lives.
pub proof fn half_lives_grow_with_age(
    t: tile::TileView,
    now: u64,
    older: tile::TileView,
    then: u64,
)
    requires
        age(t, now) <= age(older, then),
    ensures
        float_laws::non_negative(half_lives_of(t, now)),
        half_lives_of(t, now).value() <= half_lives_of(older, then).value(),
        half_lives_of(older, then).finite(),
{
    let (a, b) = (age(t, now), age(older, then));
    float_laws::integer_monotone(a, b);
    float_laws::integer_monotone(1, HOUR as nat);
    float_laws::integer_monotone(1, HALF_LIFE_HOURS as nat);
    vstd::arithmetic::power2::lemma_pow2_pos(binary64::UNIT_EXPONENT as nat);
    let hour = binary64::integer(HOUR as nat);
    float_laws::quotient_monotone(binary64::integer(a), binary64::integer(b), hour);
    float_laws::quotient_monotone(binary64::integer(a), binary64::integer(a), hour);
    float_laws::quotient_monotone(
        binary64::ratio_of(a, HOUR as nat),
        binary64::ratio_of(b, HOUR as nat),
        binary64::integer(HALF_LIFE_HOURS as nat),
    );
}

/// The age of a tile in half-lives is not negative, and does not fall as time goes on.
pub proof fn half_lives_grow_with_time(t: tile::TileView, earlier: u64, later: u64)
    requires
        earlier <= later,
    ensures
        float_laws::non_negative(half_lives_of(t, earlier)),
        half_lives_of(t, earlier).value() <= half_lives_of(t, later).value(),
        half_lives_of(t, later).finite(),
{
    half_lives_grow_with_age(t, earlier, t, later);
}

/// Of a tile whose confidence is not negative, no signal is negative.
pub proof fn signals_non_negative(t: tile::TileView, query: Seq<char>, now: u64)
    requires
        float_laws::non_negative(t.confidence),
        float_laws::non_negative(keyword_signal(t, query)),
    ensures
        non_negative_signals(score_of(t, query, now)),
{
    frequency_grows_with_uses(t, t);
    controversy_grows_with_challenges(t, t);
}

/// Of a tile that passes the confidence gate, the signals are not negative.
pub proof fn confident_signals_non_negative(t: tile::TileView, query: Seq<char>, now: u64)
    requires
        crate::validate::confident(t),
        float_laws::non_negative(keyword_signal(t, query)),
    ensures
        non_negative_signals(score_of(t, query, now)),
{
    float_laws::ratio_positive(3, 10);
    signals_non_negative(t, query, now);
}

/// Of a tile whose confidence is a number from zero to one, every signal is.
pub proof fn signals_in_unit_interval(t: tile::TileView, query: Seq<char>, now: u64)
    requires
        float_laws::in_unit_interval(t.confidence),
        countable(t, query),
    ensures
        unit_signals(score_of(t, query, now)),
{
    keyword_signal_in_unit_interval(t, query);
    frequency_grows_with_uses(t, t);
    controversy_grows_with_challenges(t, t);
    float_laws::integer_monotone(t.use_count as nat, t.use_count as nat);
    float_laws::integer_exact(10);
    float_laws::integer_monotone(10, 10);
    vstd::arithmetic::power2::lemma_pow2_pos(binary64::UNIT_EXPONENT as nat);
    let ten = binary64::integer(10);
    let uses = binary64::smaller(binary64::integer(t.use_count as nat), ten);
    float_laws::quotient_monotone(uses, ten, ten);
    float_laws::ratio_in_unit_interval(10, 10);
    float_laws::ratio_in_unit_interval(30, 100);
    float_laws::ratio_positive(5, 100);
    let count = binary64::integer(t.challenge_count as nat);
    float_laws::integer_monotone(t.challenge_count as nat, t.challenge_count as nat);
    float_laws::product_monotone(count, count, binary64::ratio_of(5, 100));
}

/// Every signal of a score, and its belief, is a number from zero to one.
pub open spec fn unit_signals(s: Score) -> bool {
    &&& float_laws::in_unit_interval(s.keyword)
    &&& float_laws::in_unit_interval(s.belief)
    &&& float_laws::in_unit_interval(s.frequency)
    &&& float_laws::in_unit_interval(s.controversy)
}

/// The weighted sum of the signals without any rounding, in hundredths:
/// `30 k + 25 b + 16 + 15 t + 10 f + 10 c`.
pub open spec fn exact_hundredths(s: Score, temporal: Binary64) -> int {
    30 * s.keyword.value() + 25 * s.belief.value() + 16 * float_laws::one() + 15
        * temporal.value() + 10 * s.frequency.value() + 10 * s.controversy.value()
}

/// A weighted signal is off by at most 2^-41 hundredths.
proof fn lemma_weighted_close(signal: Binary64, percent: nat)
    requires
        float_laws::in_unit_interval(signal),
        0 < percent <= 100,
    ensures
        float_laws::non_negative(weighted(signal, percent)),
        ({
            let moved = 100 * weighted(signal, percent).value() - percent * signal.value();
            let one = float_laws::one() as int;
            -one <= moved * 0x200_0000_0000 <= one
        }),
{
    let u = float_laws::one() as int;
    let ratio = binary64::ratio_of(percent, 100);
    float_laws::ratio_positive(percent, 100);
    float_laws::ratio_close(percent, 100);
    float_laws::ratio_in_unit_interval(percent, 100);
    float_laws::product_close(signal, ratio);
    vstd::arithmetic::power2::lemma_pow2_pos(binary64::UNIT_EXPONENT as nat);
    let (x, r, w) = (signal.value(), ratio.value(), weighted(signal, percent).value());
    let d = u * w - x * r;
    let e = 100 * r - percent * u;
    let moved = 100 * w - percent * x;
    assert(u * moved == 100 * d + x * e) by (nonlinear_arith)
        requires
            d == u * w - x * r,
            e == 100 * r - percent * u,
            moved == 100 * w - percent * x,
    ;
    assert(-(100 * (u * u)) <= (x * e) * 0x2_0000_0000_0000 <= 100 * (u * u)) by (nonlinear_arith)
        requires
            0 <= x <= u,
            e * 0x2_0000_0000_0000 <= 100 * u,
            -e * 0x2_0000_0000_0000 <= 100 * u,
    {
        let f = e * 0x2_0000_0000_0000;
        assert((x * e) * 0x2_0000_0000_0000 == x * f);
        assert(x * f <= x * (100 * u));
        assert(x * -f <= x * (100 * u));
        assert(x * (100 * u) <= u * (100 * u));
    }
    let f = moved * 0x2_0000_0000_0000;
    assert(u * f == (u * moved) * 0x2_0000_0000_0000) by (nonlinear_arith)
        requires
            f == moved * 0x2_0000_0000_0000,
    ;
    assert(-(200 * (u * u)) <= u * f <= 200 * (u * u));
    assert(-(200 * u) <= f <= 200 * u) by (nonlinear_arith)
        requires
            -(200 * (u * u)) <= u * f <= 200 * (u * u),
            u > 0,
    ;
}

/// A sum is off by at most 2^-41 hundredths.
proof fn lemma_sum_close(a: Binary64, b: Binary64)
    requires
        float_laws::non_negative(a),
        float_laws::non_negative(b),
        a.value() + b.value() <= 8 * float_laws::one(),
    ensures
        float_laws::non_negative(binary64::sum(a, b)),
        ({
            let moved = 100 * (binary64::sum(a, b).value() - a.value() - b.value());
            let one = float_laws::one() as int;
            -one <= moved * 0x200_0000_0000 <= one
        }),
{
    float_laws::sum_close(a, b);
}

/// The score of signals between zero and one is their weighted sum
/// `0.30 k + 0.25 b + 0.16 + 0.15 t + 0.10 f + 0.10 c`, up to 1e-9.
pub proof fn score_is_the_weighted_sum(s: Score, temporal: Binary64)
    requires
        unit_signals(s),
        float_laws::in_unit_interval(temporal),
        s.relevant(),
    ensures
        float_laws::non_negative(s.total(temporal)),
        ({
            let moved = 100 * s.total(temporal).value() - exact_hundredths(s, temporal);
            let one = float_laws::one() as int;
            -one <= moved * 10_000_000 <= one
        }),
{
    let u = float_laws::one() as int;
    let domain = binary64::ratio_of(8, 10);
    float_laws::ratio_in_unit_interval(8, 10);
    float_laws::ratio_close(8, 10);
    vstd::arithmetic::power2::lemma_pow2_pos(binary64::UNIT_EXPONENT as nat);
    lemma_weighted_close(s.keyword, 30);
    lemma_weighted_close(s.belief, 25);
    lemma_weighted_close(domain, 20);
    lemma_weighted_close(temporal, 15);
    lemma_weighted_close(s.frequency, 10);
    lemma_weighted_close(s.controversy, 10);
    let words = weighted(s.keyword, 30);
    let believed = binary64::sum(words, weighted(s.belief, 25));
    lemma_sum_close(words, weighted(s.belief, 25));
    let in_domain = binary64::sum(believed, weighted(domain, 20));
    lemma_sum_close(believed, weighted(domain, 20));
    let recent = binary64::sum(in_domain, weighted(temporal, 15));
    lemma_sum_close(in_domain, weighted(temporal, 15));
    let used = binary64::sum(recent, weighted(s.frequency, 10));
    lemma_sum_close(recent, weighted(s.frequency, 10));
    lemma_sum_close(used, weighted(s.controversy, 10));
    let off = 20 * domain.value() - 16 * u;
    assert(-u <= off * 0x200_0000_0000 <= u);
    let moved = 100 * s.total(temporal).value() - exact_hundredths(s, temporal);
    assert(-(12 * u) <= moved * 0x200_0000_0000 <= 12 * u);
}

/// A score with enough common words and a belief of at least 0.3 is above 0.235, whatever its other
/// signals are, as long as none is negative.
pub proof fn confident_scores_above(s: Score, temporal: Binary64)
    requires
        non_negative_signals(s),
        binary64::at_most(binary64::ratio_of(3, 10), s.belief),
        float_laws::non_negative(temporal),
        s.relevant(),
    ensures
        binary64::less(binary64::ratio_of(235, 1000), s.total(temporal)),
{
    let zero = binary64::zero();
    let least = Score {
        keyword: binary64::ratio_of(1, 100),
        belief: binary64::ratio_of(3, 10),
        half_lives: zero,
        frequency: zero,
        controversy: zero,
    };
    let u = float_laws::one() as int;
    vstd::arithmetic::power2::lemma_pow2_pos(binary64::UNIT_EXPONENT as nat);
    assert(zero.value() == 0);
    float_laws::ratio_in_unit_interval(1, 100);
    float_laws::ratio_in_unit_interval(3, 10);
    float_laws::ratio_in_unit_interval(235, 1000);
    float_laws::ratio_close(1, 100);
    float_laws::ratio_close(3, 10);
    float_laws::ratio_close(235, 1000);
    score_is_the_weighted_sum(least, zero);
    score_grows_with_its_signals(least, zero, s, temporal);
    let (k, b, r) = (
        least.keyword.value(),
        least.belief.value(),
        binary64::ratio_of(235, 1000).value(),
    );
    assert(1000 * (100 * k) >= 999 * u);
    assert(1000 * (10 * b) >= 2999 * u);
    assert(1000 * r <= 236 * u);
}

/// `power` gives the temporal signal for an age in half-lives: it is not negative, and it does not
/// rise with the age.
pub open spec fn fading(power: spec_fn(Binary64) -> Binary64) -> bool {
    forall|x: Binary64, y: Binary64|
        float_laws::non_negative(x) && binary64::at_most(x, y) ==> {
            &&& float_laws::non_negative(#[trigger] power(y))
            &&& binary64::at_most(power(y), #[trigger] power(x))
        }
}

/// A tile with the same words as another, and at least its confidence, its uses and its challenges,
/// and refreshed no longer ago, does not score less.
pub proof fn better_tiles_never_score_less(
    t: tile::TileView,
    now: u64,
    better: tile::TileView,
    then: u64,
    query: Seq<char>,
    power: spec_fn(Binary64) -> Binary64,
)
    requires
        float_laws::non_negative(t.confidence),
        binary64::at_most(t.confidence, better.confidence),
        t.use_count <= better.use_count,
        t.challenge_count <= better.challenge_count,
        age(better, then) <= age(t, now),
        tile_words(better) == tile_words(t),
        countable(t, query),
        fading(power),
    ensures
        binary64::at_most(
            score_of(t, query, now).total(power(half_lives_of(t, now))),
            score_of(better, query, then).total(power(half_lives_of(better, then))),
        ),
{
    keyword_signal_in_unit_interval(t, query);
    keyword_signal_depends_on_words(t, better, query, query);
    signals_non_negative(t, query, now);
    signals_non_negative(better, query, then);
    frequency_grows_with_uses(t, better);
    controversy_grows_with_challenges(t, better);
    half_lives_grow_with_age(better, then, t, now);
    half_lives_grow_with_age(t, now, t, now);
    score_grows_with_its_signals(
        score_of(t, query, now),
        power(half_lives_of(t, now)),
        score_of(better, query, then),
        power(half_lives_of(better, then)),
    );
}

/// A tile that survived more challenges does not score less.
pub proof fn challenges_never_lower_the_score(
    t: tile::TileView,
    more: u64,
    query: Seq<char>,
    now: u64,
    temporal: Binary64,
)
    requires
        float_laws::non_negative(t.confidence),
        countable(t, query),
        float_laws::non_negative(temporal),
        t.challenge_count <= more,
    ensures
        binary64::at_most(
            score_of(t, query, now).total(temporal),
            score_of((tile::TileView { challenge_count: more, ..t }), query, now).total(temporal),
        ),
{
    let u = tile::TileView { challenge_count: more, ..t };
    better_tiles_never_score_less(t, now, u, now, query, |x: Binary64| temporal);
}

/// The keyword signal is the share of common words in the larger set of words, rounded once.
pub proof fn keyword_signal_is_the_share(t: tile::TileView, query: Seq<char>)
    requires
        text::words_of(query).len() > 0 || tile_words(t).len() > 0,
        text::words_of(query).len() <= 2 * BINADE,
        tile_words(t).len() <= 2 * BINADE,
    ensures
        ({
            let q = text::words_of(query);
            let w = text::words_of(t.question).union(text::words_of(t.answer));
            let larger = if q.len() < w.len() {
                w.len()
            } else {
                q.len()
            };
            float_laws::near_fraction(
                keyword_signal(t, query).value(),
                (q.intersect(w).len() * float_laws::one()) as int,
                larger as int,
            )
        }),
{
    let q = text::words_of(query);
    let w = tile_words(t);
    let m = max(q.len(), w.len());
    lemma_words_finite(t, query);
    vstd::set_lib::lemma_len_intersect(q, w);
    vstd::set_lib::lemma_len_intersect(w, q);
    assert(w.intersect(q) =~= q.intersect(w));
    float_laws::ratio_near(q.intersect(w).len(), m);
    if q.len() == 0 || w.len() == 0 {
        float_laws::ratio_is_zero(0, m);
    }
}

/// Of as many words in the larger set, more common ones give a larger keyword signal.
pub proof fn more_common_words_match_better(
    t: tile::TileView,
    query: Seq<char>,
    better: tile::TileView,
    other: Seq<char>,
)
    requires
        max(text::words_of(query).len(), tile_words(t).len()) == max(
            text::words_of(other).len(),
            tile_words(better).len(),
        ) <= BINADE,
        text::words_of(query).intersect(tile_words(t)).len() < text::words_of(other).intersect(
            tile_words(better),
        ).len(),
    ensures
        binary64::less(keyword_signal(t, query), keyword_signal(better, other)),
{
    let (q, w) = (text::words_of(query), tile_words(t));
    let (p, v) = (text::words_of(other), tile_words(better));
    lemma_words_finite(t, query);
    lemma_words_finite(better, other);
    vstd::set_lib::lemma_len_intersect(p, v);
    vstd::set_lib::lemma_len_intersect(v, p);
    assert(v.intersect(p) =~= p.intersect(v));
    vstd::set_lib::lemma_len_intersect(q, w);
    vstd::set_lib::lemma_len_intersect(w, q);
    assert(w.intersect(q) =~= q.intersect(w));
    let m = max(p.len(), v.len());
    float_laws::ratio_strictly_grows(q.intersect(w).len(), p.intersect(v).len(), m);
    float_laws::ratio_is_zero(0, m);
}

/// The words of a tile are those of its question and those of its answer.
pub proof fn tile_words_are_of_question_and_answer(t: tile::TileView, w: Seq<char>)
    ensures
        tile_words(t).contains(w) <==> text::words_of(t.question).contains(w) || text::words_of(
            t.answer,
        ).contains(w),
{
}

/// The age in half-lives counts the seconds since the refresh, 604800 to each, up to 2^-51 of it.
pub proof fn half_lives_since_the_refresh(t: tile::TileView, now: u64)
    requires
        t.refreshed_at <= now,
    ensures
        ({
            let exact = (now - t.refreshed_at) * float_laws::one();
            let counted = 604_800 * half_lives_of(t, now).value();
            float_laws::distance(counted - exact) * 0x8_0000_0000_0000 <= exact
        }),
{
    half_lives_count_seven_days(t, now);
    let exact = age(t, now) * float_laws::one();
    let h = half_lives_of(t, now).value();
    assert(BINADE / 2 == 0x8_0000_0000_0000);
    assert((now - t.refreshed_at) * float_laws::one() == exact);
    let moved = 604_800 * h - exact;
    assert(moved * 0x8_0000_0000_0000 <= exact && -moved * 0x8_0000_0000_0000 <= exact);
}

/// The frequency signal is a tenth for each use, up to ten uses, rounded once.
pub proof fn frequency_is_a_tenth_for_each_use(t: tile::TileView)
    ensures
        ({
            let uses: nat = if t.use_count < 10 {
                t.use_count as nat
            } else {
                10
            };
            float_laws::near_fraction(
                frequency_of(t).value(),
                (uses * float_laws::one()) as int,
                10,
            )
        }),
        t.use_count == 0 ==> frequency_of(t).value() == 0,
        t.use_count >= 10 ==> frequency_of(t) == binary64::integer(1),
{
    let uses: nat = if t.use_count < 10 {
        t.use_count as nat
    } else {
        10
    };
    float_laws::integer_monotone(t.use_count as nat, t.use_count as nat);
    if t.use_count < 10 {
        float_laws::integer_monotone(t.use_count as nat, 10);
    } else {
        float_laws::integer_monotone(10, t.use_count as nat);
    }
    float_laws::integer_exact(10);
    float_laws::integer_exact(uses);
    lemma_same_number(t.use_count as nat);
    assert(frequency_of(t) == binary64::ratio_of(uses, 10));
    float_laws::ratio_near(uses, 10);
    float_laws::ratio_is_one(uses, 10);
    float_laws::ratio_is_zero(uses, 10);
}

/// The smaller of an integer and ten is that integer, or ten.
proof fn lemma_same_number(n: nat)
    requires
        n <= u64::MAX,
    ensures
        binary64::smaller(binary64::integer(n), binary64::integer(10)) == if n < 10 {
            binary64::integer(n)
        } else {
            binary64::integer(10)
        },
{
    vstd::arithmetic::power2::lemma_pow2_pos(binary64::UNIT_EXPONENT as nat);
    float_laws::integer_monotone(n, n);
    float_laws::integer_monotone(10, 10);
    float_laws::integer_exact(10);
    if n <= 10 {
        float_laws::integer_exact(n);
        float_laws::integer_monotone(n, 10);
        assert(n * float_laws::one() < 10 * float_laws::one() || n == 10) by (nonlinear_arith)
            requires
                n <= 10,
                float_laws::one() > 0,
        ;
    } else {
        float_laws::integer_exact(11);
        float_laws::integer_monotone(11, n);
    }
}

/// The controversy signal is a twentieth for each challenge, up to 0.3, off by at most 2^-44.
pub proof fn controversy_is_a_twentieth_for_each_challenge(t: tile::TileView)
    ensures
        ({
            let hundredths: int = if t.challenge_count < 6 {
                5 * t.challenge_count
            } else {
                30
            };
            let one = float_laws::one() as int;
            float_laws::distance(100 * controversy_of(t).value() - hundredths * one)
                * 0x1000_0000_0000 <= one
        }),
        t.challenge_count == 0 ==> controversy_of(t).value() == 0,
        t.challenge_count >= 6 ==> controversy_of(t).bits == 0x3fd3_3333_3333_3333,
{
    let u = float_laws::one() as int;
    let n = t.challenge_count as nat;
    let few: nat = if n < 7 {
        n
    } else {
        7
    };
    let twentieth = binary64::ratio_of(5, 100);
    let cap = binary64::ratio_of(30, 100);
    float_laws::lemma_one_is_many_units();
    float_laws::ratio_positive(5, 100);
    float_laws::ratio_positive(30, 100);
    float_laws::ratio_near(5, 100);
    float_laws::ratio_near(30, 100);
    float_laws::thirty_hundredths();
    float_laws::integer_exact(few);
    float_laws::integer_monotone(few, n);
    float_laws::integer_monotone(few, few);
    if n > 0 {
        assert(few * u > 0 && few * u <= 7 * u) by (nonlinear_arith)
            requires
                0 < few <= 7,
                u > 0,
        ;
        float_laws::lemma_small_numbers(binary64::integer(few));
        float_laws::percentage_error(binary64::integer(few), 5);
        float_laws::product_monotone(binary64::integer(few), binary64::integer(n), twentieth);
        let w = binary64::product(binary64::integer(few), twentieth).value();
        let c = cap.value();
        assert(5 * (few * u) == (5 * few) * u) by (nonlinear_arith);
        let x = few * u;
        assert(float_laws::distance(100 * w - 5 * x) * 0x20_0000_0000_0000 <= 20 * x
            + 0x20_0000_0000_0000 * 128);
        assert(float_laws::distance(100 * w - 5 * x) * 0x2000_0000_0000 <= u);
        assert(float_laws::distance(100 * c - 30 * u) * 0x2000_0000_0000 <= u);
        if n < 6 {
            assert(x <= 5 * u) by (nonlinear_arith)
                requires
                    x == few * u,
                    few <= 5,
                    u > 0,
            ;
            assert(100 * w < 26 * u && 100 * c > 29 * u);
            assert(controversy_of(t).value() == w);
            assert((5 * t.challenge_count) * u == 5 * x);
        }
        if n == 6 {
            float_laws::six_twentieths();
            if w == c {
                float_laws::same_value_same_number(
                    binary64::product(binary64::integer(few), twentieth),
                    cap,
                );
            }
        }
    } else {
        assert((5 * t.challenge_count) * u == 0) by (nonlinear_arith)
            requires
                t.challenge_count == 0,
        ;
        assert(controversy_of(t).value() == 0);
    }
}

/// Enough words are in common where the keyword signal is a number from 0.01 up, or no number.
pub proof fn relevance_in_bits(s: Score)
    ensures
        s.relevant() <==> {
            ||| 0x3f84_7ae1_47ae_147b <= s.keyword.bits < 0x8000_0000_0000_0000
            ||| s.keyword.bits > 0xfff0_0000_0000_0000
        },
{
    let c = s.keyword;
    let least = binary64::ratio_of(1, 100);
    float_laws::decimal_fractions();
    if c.bits < 0x8000_0000_0000_0000 {
        float_laws::order_is_that_of_the_bits(c, least);
    } else if c.bits <= 0xfff0_0000_0000_0000 {
        float_laws::signed_numbers_come_first(c, least);
    }
}

/// The belief of a score is the confidence of the tile, whatever number it is.
pub proof fn belief_is_the_confidence(t: tile::TileView, query: Seq<char>, now: u64)
    ensures
        score_of(t, query, now).belief == t.confidence,
        score_of(t, query, now).keyword == keyword_signal(t, query),
        score_of(t, query, now).half_lives == half_lives_of(t, now),
        score_of(t, query, now).frequency == frequency_of(t),
        score_of(t, query, now).controversy == controversy_of(t),
{
}

/// `a` is a number of at most 2^1021, with whatever sign.
pub open spec fn moderate(a: Binary64) -> bool {
    a.ordinal() <= 0x7fc0_0000_0000_0000
}

/// `a` is finite, and it is `exact` hundredths of size `size` at most, up to `slack` parts of 2^-53.
#[verifier::opaque]
spec fn near_hundredths(a: Binary64, exact: int, size: int, slack: int) -> bool {
    &&& a.finite()
    &&& float_laws::distance(exact) <= size
    &&& float_laws::distance(100 * a.value() - exact) * 0x20_0000_0000_0000 <= slack
}

/// A sum of two numbers, each near its exact value, is near the sum of the exact values.
proof fn lemma_next_sum(
    a: Binary64,
    ea: int,
    za: int,
    sa: int,
    b: Binary64,
    eb: int,
    zb: int,
    sb: int,
    size: int,
)
    requires
        near_hundredths(a, ea, za, sa),
        near_hundredths(b, eb, zb, sb),
        za + zb <= size,
        sa + sb <= 0x20_0000_0000_0000 * size,
        size <= 25 * float_laws::largest(),
    ensures
        near_hundredths(binary64::sum(a, b), ea + eb, za + zb, sa + sb + 2 * size),
{
    reveal(near_hundredths);
    let (x, y) = (a.value(), b.value());
    let (da, db) = (100 * x - ea, 100 * y - eb);
    let both = float_laws::distance(da) + float_laws::distance(db);
    assert(both * 0x20_0000_0000_0000 <= sa + sb);
    assert(both <= size);
    assert(100 * float_laws::distance(x + y) <= 2 * size);
    float_laws::sum_error(a, b);
    let z = binary64::sum(a, b).value();
    let off = float_laws::distance(z - (x + y));
    assert(off * 0x20_0000_0000_0000 <= float_laws::distance(x + y));
    assert(100 * (off * 0x20_0000_0000_0000) <= 2 * size);
    let all = float_laws::distance(100 * z - (ea + eb));
    assert(all <= 100 * off + both);
}

/// A weighted signal is near its part of the signal.
proof fn lemma_next_term(signal: Binary64, percent: nat)
    requires
        moderate(signal),
        0 < percent <= 100,
    ensures
        near_hundredths(
            weighted(signal, percent),
            percent * signal.value(),
            percent * float_laws::distance(signal.value()),
            4 * (percent * float_laws::distance(signal.value())) + 0x1000_0000_0000_0000,
        ),
{
    reveal(near_hundredths);
    float_laws::percentage_error(signal, percent);
    let x = signal.value();
    assert(float_laws::distance(percent * x) == percent * float_laws::distance(x))
        by (nonlinear_arith)
        requires
            percent > 0,
    ;
}

/// The weighted domain signal is near 0.16.
proof fn lemma_domain_term()
    ensures
        near_hundredths(
            weighted(binary64::ratio_of(8, 10), 20),
            16 * float_laws::one() as int,
            16 * float_laws::one() as int,
            120 * float_laws::one() as int,
        ),
{
    reveal(near_hundredths);
    let u = float_laws::one() as int;
    let domain = binary64::ratio_of(8, 10);
    let d = domain.value();
    float_laws::lemma_one_is_many_units();
    float_laws::ratio_in_unit_interval(8, 10);
    float_laws::ratio_positive(8, 10);
    float_laws::ratio_near(8, 10);
    float_laws::lemma_small_numbers(domain);
    float_laws::percentage_error(domain, 20);
    let w = 100 * weighted(domain, 20).value();
    assert(2 * BINADE == 0x20_0000_0000_0000);
    let g = 10 * d - 8 * u;
    assert(g * 0x20_0000_0000_0000 <= 8 * u && -g * 0x20_0000_0000_0000 <= 8 * u);
    assert(float_laws::distance(20 * d - 16 * u) * 0x20_0000_0000_0000 <= 16 * u);
    assert(float_laws::distance(w - 20 * d) * 0x20_0000_0000_0000 <= 80 * d + 0x20_0000_0000_0000
        * 128);
    assert(float_laws::distance(w - 16 * u) <= float_laws::distance(w - 20 * d)
        + float_laws::distance(20 * d - 16 * u));
}

/// The number of a score is its weighted sum `0.30 k + 0.25 b + 0.16 + 0.15 t + 0.10 f + 0.10 c`, up
/// to 2^-46 of the terms, whatever their signs are.
pub proof fn score_near_its_weighted_sum(s: Score, temporal: Binary64)
    requires
        s.relevant(),
        moderate(s.keyword),
        moderate(s.belief),
        moderate(temporal),
        moderate(s.frequency),
        moderate(s.controversy),
    ensures
        s.total(temporal).finite(),
        ({
            let one = float_laws::one() as int;
            let (k, b, t) = (s.keyword.value(), s.belief.value(), temporal.value());
            let (f, c) = (s.frequency.value(), s.controversy.value());
            let exact = 30 * k + 25 * b + 16 * one + 15 * t + 10 * f + 10 * c;
            let size = 30 * float_laws::distance(k) + 25 * float_laws::distance(b) + 16 * one + 15
                * float_laws::distance(t) + 10 * float_laws::distance(f) + 10
                * float_laws::distance(c);
            float_laws::distance(100 * s.total(temporal).value() - exact) * 0x4000_0000_0000
                <= size
        }),
{
    let u = float_laws::one() as int;
    let domain = binary64::ratio_of(8, 10);
    float_laws::lemma_one_is_many_units();
    float_laws::lemma_largest();
    float_laws::lemma_sixth_of_largest(s.keyword);
    float_laws::lemma_sixth_of_largest(s.belief);
    float_laws::lemma_sixth_of_largest(temporal);
    float_laws::lemma_sixth_of_largest(s.frequency);
    float_laws::lemma_sixth_of_largest(s.controversy);
    lemma_domain_term();
    lemma_next_term(s.keyword, 30);
    lemma_next_term(s.belief, 25);
    lemma_next_term(temporal, 15);
    lemma_next_term(s.frequency, 10);
    lemma_next_term(s.controversy, 10);
    let (k, b, t) = (s.keyword.value(), s.belief.value(), temporal.value());
    let (f, c) = (s.frequency.value(), s.controversy.value());
    let (zk, zb, zt) = (
        30 * float_laws::distance(k),
        25 * float_laws::distance(b),
        15 * float_laws::distance(t),
    );
    let (zf, zc) = (10 * float_laws::distance(f), 10 * float_laws::distance(c));
    let size = zk + zb + 16 * u + zt + zf + zc;
    let tiny: int = 0x1000_0000_0000_0000;
    let (wk, wb, wd) = (weighted(s.keyword, 30), weighted(s.belief, 25), weighted(domain, 20));
    let (wt, wf, wc) = (
        weighted(temporal, 15),
        weighted(s.frequency, 10),
        weighted(s.controversy, 10),
    );
    let (sk, sb, st) = (4 * zk + tiny, 4 * zb + tiny, 4 * zt + tiny);
    let (sf, sc) = (4 * zf + tiny, 4 * zc + tiny);
    let (z2, z3, z4, z5) = (zk + zb, zk + zb + 16 * u, zk + zb + 16 * u + zt, size - zc);
    let e2 = 30 * k + 25 * b;
    let e3 = e2 + 16 * u;
    let e4 = e3 + 15 * t;
    let e5 = e4 + 10 * f;
    let t2 = sk + sb + 2 * size;
    let t3 = t2 + 120 * u + 2 * size;
    let t4 = t3 + st + 2 * size;
    let t5 = t4 + sf + 2 * size;
    let t6 = t5 + sc + 2 * size;
    assert(0 <= zk && 0 <= zb && 0 <= zt && 0 <= zf && 0 <= zc);
    assert(size <= 25 * float_laws::largest());
    assert(t6 <= 128 * size);
    lemma_next_sum(wk, 30 * k, zk, sk, wb, 25 * b, zb, sb, size);
    let believed = binary64::sum(wk, wb);
    lemma_next_sum(believed, e2, z2, t2, wd, 16 * u, 16 * u, 120 * u, size);
    let in_domain = binary64::sum(believed, wd);
    lemma_next_sum(in_domain, e3, z3, t3, wt, 15 * t, zt, st, size);
    let recent = binary64::sum(in_domain, wt);
    lemma_next_sum(recent, e4, z4, t4, wf, 10 * f, zf, sf, size);
    let used = binary64::sum(recent, wf);
    lemma_next_sum(used, e5, z5, t5, wc, 10 * c, zc, sc, size);
    assert(near_hundredths(s.total(temporal), e5 + 10 * c, size, t6));
    reveal(near_hundredths);
}

/// Where enough words are in common, a belief or a temporal signal that is not a number gives a score
/// that is not one.
pub proof fn scores_without_a_number(s: Score, temporal: Binary64)
    requires
        s.relevant(),
        s.belief.nan() || temporal.nan() || s.keyword.nan() || s.frequency.nan()
            || s.controversy.nan(),
    ensures
        s.total(temporal).nan(),
{
    let domain = binary64::ratio_of(8, 10);
    float_laws::products_without_a_number(s.keyword, binary64::ratio_of(30, 100));
    float_laws::products_without_a_number(s.belief, binary64::ratio_of(25, 100));
    float_laws::products_without_a_number(temporal, binary64::ratio_of(15, 100));
    float_laws::products_without_a_number(s.frequency, binary64::ratio_of(10, 100));
    float_laws::products_without_a_number(s.controversy, binary64::ratio_of(10, 100));
    let words = weighted(s.keyword, 30);
    let believed = binary64::sum(words, weighted(s.belief, 25));
    let in_domain = binary64::sum(believed, weighted(domain, 20));
    let recent = binary64::sum(in_domain, weighted(temporal, 15));
    let used = binary64::sum(recent, weighted(s.frequency, 10));
    float_laws::sums_without_a_number(words, weighted(s.belief, 25));
    float_laws::sums_without_a_number(believed, weighted(domain, 20));
    float_laws::sums_without_a_number(in_domain, weighted(temporal, 15));
    float_laws::sums_without_a_number(recent, weighted(s.frequency, 10));
    float_laws::sums_without_a_number(used, weighted(s.controversy, 10));
}

/// The number of a score in steps: each signal is multiplied by its weight and added to the sum of the
/// signals before it, in the order of keyword, belief, domain, time, frequency and controversy, with
/// the weights 0.30, 0.25, 0.20, 0.15, 0.10 and 0.10 and the domain signal 0.8.
pub proof fn score_in_steps(s: Score, temporal: Binary64)
    requires
        s.relevant(),
    ensures
        ({
            let w30 = Binary64 { bits: 0x3fd3_3333_3333_3333 };
            let w25 = Binary64 { bits: 0x3fd0_0000_0000_0000 };
            let domain = Binary64 { bits: 0x3fe9_9999_9999_999a };
            let w20 = Binary64 { bits: 0x3fc9_9999_9999_999a };
            let w15 = Binary64 { bits: 0x3fc3_3333_3333_3333 };
            let w10 = Binary64 { bits: 0x3fb9_9999_9999_999a };
            let a = binary64::product(s.keyword, w30);
            let b = binary64::sum(a, binary64::product(s.belief, w25));
            let c = binary64::sum(b, binary64::product(domain, w20));
            let d = binary64::sum(c, binary64::product(temporal, w15));
            let e = binary64::sum(d, binary64::product(s.frequency, w10));
            s.total(temporal) == binary64::sum(e, binary64::product(s.controversy, w10))
        }),
{
    float_laws::thirty_hundredths();
    float_laws::weights();
    assert(binary64::ratio_of(30, 100) == (Binary64 { bits: 0x3fd3_3333_3333_3333 }));
    assert(binary64::ratio_of(25, 100) == (Binary64 { bits: 0x3fd0_0000_0000_0000 }));
    assert(binary64::ratio_of(8, 10) == (Binary64 { bits: 0x3fe9_9999_9999_999a }));
    assert(binary64::ratio_of(20, 100) == (Binary64 { bits: 0x3fc9_9999_9999_999a }));
    assert(binary64::ratio_of(15, 100) == (Binary64 { bits: 0x3fc3_3333_3333_3333 }));
    assert(binary64::ratio_of(10, 100) == (Binary64 { bits: 0x3fb9_9999_9999_999a }));
}

/// The age in half-lives in steps: the seconds since the refresh, over 3600, over 168.
pub proof fn half_lives_in_steps(t: tile::TileView, now: u64)
    requires
        t.refreshed_at <= now,
    ensures
        half_lives_of(t, now) == binary64::quotient(
            binary64::quotient(
                binary64::integer((now - t.refreshed_at) as nat),
                binary64::integer(3600),
            ),
            binary64::integer(168),
        ),
{
}

/// The controversy signal in steps: the number of challenges times 0.05, or 0.3 where that is less.
pub proof fn controversy_in_steps(t: tile::TileView)
    requires
        t.challenge_count > 0,
    ensures
        ({
            let each = binary64::product(
                binary64::integer(t.challenge_count as nat),
                (Binary64 { bits: 0x3fa9_9999_9999_999a }),
            );
            let most = Binary64 { bits: 0x3fd3_3333_3333_3333 };
            &&& binary64::less(most, each) ==> controversy_of(t) == most
            &&& !binary64::less(most, each) && !each.nan() ==> controversy_of(t) == each
        }),
{
    float_laws::thirty_hundredths();
    float_laws::weights();
    assert(binary64::ratio_of(30, 100) == (Binary64 { bits: 0x3fd3_3333_3333_3333 }));
    assert(binary64::ratio_of(5, 100) == (Binary64 { bits: 0x3fa9_9999_9999_999a }));
}

/// No number lies closer to the share of common words than the keyword signal.
pub proof fn keyword_signal_is_closest(t: tile::TileView, query: Seq<char>, d: Binary64)
    requires
        text::words_of(query).len() > 0 || tile_words(t).len() > 0,
        text::words_of(query).len() <= 2 * BINADE,
        tile_words(t).len() <= 2 * BINADE,
        !d.nan(),
    ensures
        ({
            let q = text::words_of(query);
            let w = text::words_of(t.question).union(text::words_of(t.answer));
            let larger = if q.len() < w.len() {
                w.len()
            } else {
                q.len()
            };
            let exact = q.intersect(w).len() * float_laws::one();
            float_laws::distance(keyword_signal(t, query).value() * larger - exact)
                <= float_laws::distance(d.value() * larger - exact)
        }),
{
    let q = text::words_of(query);
    let w = tile_words(t);
    let m = max(q.len(), w.len());
    lemma_words_finite(t, query);
    vstd::set_lib::lemma_len_intersect(q, w);
    vstd::set_lib::lemma_len_intersect(w, q);
    assert(w.intersect(q) =~= q.intersect(w));
    float_laws::ratio_is_closest(q.intersect(w).len(), m, d);
    if q.len() == 0 || w.len() == 0 {
        float_laws::ratio_is_zero(0, m);
    }
}

} // verus!
