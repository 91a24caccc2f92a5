//! Tiles: questions with their answers, and what is known about them.
use crate::binary64::Binary64;
use crate::clock;
use vstd::prelude::*;

verus! {

/// Whether a tile speaks for or against something.
#[derive(Debug, Clone, Copy, PartialEq, Eq, Structural)]
pub enum Polarity {
    Positive,
    Negative,
    Neutral,
}

impl Default for Polarity {
    fn default() -> (r: Self)
        ensures
            r == Polarity::Neutral,
    {
        Polarity::Neutral
    }
}

/// Where a tile comes from.
#[derive(Debug)]
pub struct Provenance {
    pub created_by: String,
    pub validation_method: String,
    pub source_room: String,
}

/// What a `Provenance` says.
pub struct ProvenanceView {
    pub created_by: Seq<char>,
    pub validation_method: Seq<char>,
    pub source_room: Seq<char>,
}

impl View for Provenance {
    type V = ProvenanceView;

    open spec fn view(&self) -> ProvenanceView {
        ProvenanceView {
            created_by: self.created_by@,
            validation_method: self.validation_method@,
            source_room: self.source_room@,
        }
    }
}

/// The provenance of a tile of which nothing is known.
pub open spec fn unknown_provenance() -> ProvenanceView {
    ProvenanceView {
        created_by: "unknown"@,
        validation_method: "none"@,
        source_room: Seq::empty(),
    }
}

impl Default for Provenance {
    fn default() -> (r: Self)
        ensures
            r@ == unknown_provenance(),
    {
        Provenance {
            created_by: "unknown".to_owned(),
            validation_method: "none".to_owned(),
            source_room: String::new(),
        }
    }
}

impl Clone for Provenance {
    fn clone(&self) -> (r: Self)
        ensures
            r@ == self@,
    {
        Provenance {
            created_by: self.created_by.clone(),
            validation_method: self.validation_method.clone(),
            source_room: self.source_room.clone(),
        }
    }
}

/// A question with its answer, and what is known about them.
#[derive(Debug)]
pub struct Tile {
    pub id: String,
    pub question: String,
    pub answer: String,
    pub domain: String,
    pub confidence: Binary64,
    pub polarity: Polarity,
    pub tags: Vec<String>,
    pub created_at: u64,
    pub refreshed_at: u64,
    pub use_count: u64,
    pub success_rate: Binary64,
    pub challenge_count: u64,
    pub provenance: Provenance,
    pub dependencies: Vec<String>,
}

/// What a `Tile` says.
pub struct TileView {
    pub id: Seq<char>,
    pub question: Seq<char>,
    pub answer: Seq<char>,
    pub domain: Seq<char>,
    pub confidence: Binary64,
    pub polarity: Polarity,
    pub tags: Seq<Seq<char>>,
    pub created_at: u64,
    pub refreshed_at: u64,
    pub use_count: u64,
    pub success_rate: Binary64,
    pub challenge_count: u64,
    pub provenance: ProvenanceView,
    pub dependencies: Seq<Seq<char>>,
}

/// The texts of a list of strings.
pub open spec fn texts(list: Seq<String>) -> Seq<Seq<char>> {
    list.map_values(|s: String| s@)
}

impl View for Tile {
    type V = TileView;

    open spec fn view(&self) -> TileView {
        TileView {
            id: self.id@,
            question: self.question@,
            answer: self.answer@,
            domain: self.domain@,
            confidence: self.confidence,
            polarity: self.polarity,
            tags: texts(self.tags@),
            created_at: self.created_at,
            refreshed_at: self.refreshed_at,
            use_count: self.use_count,
            success_rate: self.success_rate,
            challenge_count: self.challenge_count,
            provenance: self.provenance@,
            dependencies: texts(self.dependencies@),
        }
    }
}

/// What the tiles of a list say.
pub open spec fn tile_views(tiles: Seq<Tile>) -> Seq<TileView> {
    tiles.map_values(|t: Tile| t@)
}

/// What the tiles of a list of references say.
pub open spec fn referenced_views(tiles: Seq<&Tile>) -> Seq<TileView> {
    tiles.map_values(|t: &Tile| t@)
}

impl Clone for Tile {
    fn clone(&self) -> (r: Self)
        ensures
            r@ == self@,
    {
        let tags = self.tags.clone();
        let dependencies = self.dependencies.clone();
        assert(tags@ =~= self.tags@);
        assert(dependencies@ =~= self.dependencies@);
        Tile {
            id: self.id.clone(),
            question: self.question.clone(),
            answer: self.answer.clone(),
            domain: self.domain.clone(),
            confidence: self.confidence,
            polarity: self.polarity,
            tags,
            created_at: self.created_at,
            refreshed_at: self.refreshed_at,
            use_count: self.use_count,
            success_rate: self.success_rate,
            challenge_count: self.challenge_count,
            provenance: self.provenance.clone(),
            dependencies,
        }
    }
}

/// A new tile, never used and never challenged, created and refreshed at the time `at`.
pub open spec fn fresh_tile(
    id: Seq<char>,
    question: Seq<char>,
    answer: Seq<char>,
    domain: Seq<char>,
    confidence: Binary64,
    at: u64,
) -> TileView {
    TileView {
        id,
        question,
        answer,
        domain,
        confidence,
        polarity: Polarity::Neutral,
        tags: Seq::empty(),
        created_at: at,
        refreshed_at: at,
        use_count: 0,
        success_rate: crate::binary64::integer(1),
        challenge_count: 0,
        provenance: unknown_provenance(),
        dependencies: Seq::empty(),
    }
}

/// A new tile that was created and refreshed at the time `at`.
pub fn make_tile_at(id: &str, q: &str, a: &str, domain: &str, conf: Binary64, at: u64) -> (r: Tile)
    ensures
        r@ == fresh_tile(id@, q@, a@, domain@, conf, at),
{
    let r = Tile {
        id: id.to_owned(),
        question: q.to_owned(),
        answer: a.to_owned(),
        domain: domain.to_owned(),
        confidence: conf,
        polarity: Polarity::Neutral,
        tags: Vec::new(),
        created_at: at,
        refreshed_at: at,
        use_count: 0,
        success_rate: Binary64::from_u64(1),
        challenge_count: 0,
        provenance: Provenance::default(),
        dependencies: Vec::new(),
    };
    assert(texts(r.tags@) =~= Seq::empty());
    assert(texts(r.dependencies@) =~= Seq::empty());
    r
}

/// A new tile that is created and refreshed now.
pub fn make_tile(id: &str, q: &str, a: &str, domain: &str, conf: Binary64) -> (r: Tile)
    ensures
        r@ == fresh_tile(id@, q@, a@, domain@, conf, r.created_at),
        clock::clock_gives(r.created_at),
{
    make_tile_at(id, q, a, domain, conf, clock::now())
}

/// What a tile says is what its fields hold.
pub proof fn tiles_say_what_they_hold(t: Tile)
    ensures
        t@.id == t.id@,
        t@.question == t.question@,
        t@.answer == t.answer@,
        t@.domain == t.domain@,
        t@.confidence == t.confidence,
        t@.polarity == t.polarity,
        t@.created_at == t.created_at,
        t@.refreshed_at == t.refreshed_at,
        t@.use_count == t.use_count,
        t@.success_rate == t.success_rate,
        t@.challenge_count == t.challenge_count,
        t@.provenance.created_by == t.provenance.created_by@,
        t@.provenance.validation_method == t.provenance.validation_method@,
        t@.provenance.source_room == t.provenance.source_room@,
        t@.tags.len() == t.tags@.len(),
        forall|i: int| 0 <= i < t.tags@.len() ==> #[trigger] t@.tags[i] == t.tags@[i]@,
        t@.dependencies.len() == t.dependencies@.len(),
        forall|i: int|
            0 <= i < t.dependencies@.len() ==> #[trigger] t@.dependencies[i] == t.dependencies@[i]@,
{
}

/// A list of tiles says what each of them says, in their order.
pub proof fn lists_say_what_their_tiles_say(tiles: Seq<Tile>, references: Seq<&Tile>)
    ensures
        tile_views(tiles).len() == tiles.len(),
        forall|i: int| 0 <= i < tiles.len() ==> #[trigger] tile_views(tiles)[i] == tiles[i]@,
        referenced_views(references).len() == references.len(),
        forall|i: int|
            0 <= i < references.len() ==> #[trigger] referenced_views(references)[i]
                == references[i]@,
{
}

/// The texts of a list of strings are theirs, in their order.
pub proof fn texts_are_those_of_the_strings(list: Seq<String>)
    ensures
        texts(list).len() == list.len(),
        forall|i: int| 0 <= i < list.len() ==> #[trigger] texts(list)[i] == list[i]@,
{
}

/// A new tile has the texts and the confidence that it was made with, was created and refreshed at
/// the given time, and was neither used nor challenged.
pub proof fn new_tiles_start_unused(
    id: Seq<char>,
    question: Seq<char>,
    answer: Seq<char>,
    domain: Seq<char>,
    confidence: Binary64,
    at: u64,
)
    ensures
        ({
            let t = fresh_tile(id, question, answer, domain, confidence, at);
            &&& t.id == id && t.question == question && t.answer == answer && t.domain == domain
            &&& t.confidence == confidence
            &&& t.created_at == at && t.refreshed_at == at
            &&& t.use_count == 0 && t.challenge_count == 0
            &&& t.success_rate.value() == crate::float_laws::one()
            &&& t.success_rate.bits == 0x3ff0_0000_0000_0000
            &&& t.polarity == Polarity::Neutral
            &&& t.tags.len() == 0 && t.dependencies.len() == 0
            &&& t.provenance.created_by == "unknown"@
            &&& t.provenance.validation_method == "none"@
            &&& t.provenance.source_room.len() == 0
        }),
{
    crate::float_laws::integer_exact(1);
    crate::float_laws::one_bits();
}

} // verus!
