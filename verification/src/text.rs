//! The words of a text: its longest runs of characters that are not white space.
use vstd::prelude::*;

verus! {

/// The characters with the Unicode property White_Space.
pub open spec fn white_space(c: char) -> bool {
    ||| 0x09 <= c as u32 <= 0x0d
    ||| c as u32 == 0x20
    ||| c as u32 == 0x85
    ||| c as u32 == 0xa0
    ||| c as u32 == 0x1680
    ||| 0x2000 <= c as u32 <= 0x200a
    ||| c as u32 == 0x2028
    ||| c as u32 == 0x2029
    ||| c as u32 == 0x202f
    ||| c as u32 == 0x205f
    ||| c as u32 == 0x3000
}

/// Whether the characters from `i` up to but not including `j` are one word of `s`.
pub open spec fn word_at(s: Seq<char>, i: int, j: int) -> bool {
    &&& 0 <= i < j <= s.len()
    &&& forall|k: int| i <= k < j ==> !white_space(#[trigger] s[k])
    &&& i == 0 || white_space(s[i - 1])
    &&& j == s.len() || white_space(s[j])
}

/// Whether `w` is a word of `s`.
pub open spec fn is_word(s: Seq<char>, w: Seq<char>) -> bool {
    exists|i: int, j: int| #[trigger] word_at(s, i, j) && w == s.subrange(i, j)
}

/// The different words of `s`.
pub open spec fn words_of(s: Seq<char>) -> Set<Seq<char>> {
    Set::new(|w: Seq<char>| is_word(s, w))
}

/// The different words of `s` that end at `end` or before.
spec fn words_until(s: Seq<char>, end: int) -> Set<Seq<char>> {
    Set::new(
        |w: Seq<char>|
            exists|i: int, j: int| #[trigger] word_at(s, i, j) && j <= end && w == s.subrange(i, j),
    )
}

/// Whether `c` has the Unicode property White_Space.
pub fn is_white_space(c: char) -> (r: bool)
    ensures
        r == white_space(c),
{
    let v: u32 = c as u32;
    (0x09 <= v && v <= 0x0d) || v == 0x20 || v == 0x85 || v == 0xa0 || v == 0x1680 || (0x2000 <= v
        && v <= 0x200a) || v == 0x2028 || v == 0x2029 || v == 0x202f || v == 0x205f || v == 0x3000
}

/// The characters of `text`.
fn characters(text: &str) -> (r: Vec<char>)
    ensures
        r@ == text@,
{
    let mut r: Vec<char> = Vec::new();
    for c in it: text.chars()
        invariant
            it.seq() == text@,
            r@ == text@.take(it.index() as int),
    {
        assert(text@.take(it.index() as int).push(c) =~= text@.take(it.index() + 1));
        r.push(c);
    }
    assert(text@.take(text@.len() as int) =~= text@);
    r
}

/// The texts that a list of words holds.
spec fn contents(words: Seq<Vec<char>>) -> Seq<Seq<char>> {
    words.map_values(|w: Vec<char>| w@)
}

/// A set of words.
pub struct WordSet {
    words: Vec<Vec<char>>,
}

impl View for WordSet {
    type V = Set<Seq<char>>;

    closed spec fn view(&self) -> Set<Seq<char>> {
        contents(self.words@).to_set()
    }
}

/// Whether two lists of characters are the same text.
fn same_text(a: &Vec<char>, b: &Vec<char>) -> (r: bool)
    ensures
        r == (a@ == b@),
{
    if a.len() != b.len() {
        return false;
    }
    let mut i: usize = 0;
    while i < a.len()
        invariant
            a.len() == b.len(),
            i <= a.len(),
            forall|k: int| 0 <= k < i ==> a[k] == b[k],
        decreases a.len() - i,
    {
        if a[i] != b[i] {
            return false;
        }
        i = i + 1;
    }
    assert(a@ =~= b@);
    true
}

/// Whether `words` holds `word`.
fn holds(words: &Vec<Vec<char>>, word: &Vec<char>) -> (r: bool)
    ensures
        r == contents(words@).contains(word@),
{
    let mut i: usize = 0;
    while i < words.len()
        invariant
            i <= words.len(),
            forall|k: int| 0 <= k < i ==> words[k]@ != word@,
        decreases words.len() - i,
    {
        if same_text(&words[i], word) {
            assert(contents(words@)[i as int] == word@);
            return true;
        }
        i = i + 1;
    }
    assert forall|k: int| 0 <= k < words.len() implies contents(words@)[k] != word@ by {
        assert(contents(words@)[k] == words[k]@);
    }
    false
}

/// Adds the words of `text` that `words` does not hold yet.
fn add_words(words: &mut Vec<Vec<char>>, text: &str)
    requires
        contents(old(words)@).no_duplicates(),
    ensures
        contents(final(words)@).no_duplicates(),
        contents(final(words)@).to_set() == contents(old(words)@).to_set().union(words_of(text@)),
{
    let chars = characters(text);
    let ghost s = text@;
    let ghost before = contents(words@).to_set();
    let mut i: usize = 0;
    assert(words_until(s, 0) =~= Set::empty());
    assert(before =~= before.union(words_until(s, 0)));
    while i < chars.len()
        invariant
            chars@ == s,
            i <= chars.len(),
            i == 0 || i == s.len() || white_space(s[i - 1]) || white_space(s[i as int]),
            contents(words@).no_duplicates(),
            contents(words@).to_set() == before.union(words_until(s, i as int)),
        decreases chars.len() - i,
    {
        if is_white_space(chars[i]) {
            proof {
                assert(words_until(s, i as int) =~= words_until(s, i + 1)) by {
                    assert forall|a: int, b: int| #[trigger] word_at(s, a, b) && b <= i + 1 implies b
                        <= i by {
                        assert(white_space(s[i as int]));
                    }
                }
            }
            i = i + 1;
        } else {
            let start: usize = i;
            let mut word: Vec<char> = Vec::new();
            while i < chars.len() && !is_white_space(chars[i])
                invariant
                    chars@ == s,
                    start <= i <= chars.len(),
                    word@ == s.subrange(start as int, i as int),
                    forall|k: int| start <= k < i ==> !white_space(#[trigger] s[k]),
                decreases chars.len() - i,
            {
                assert(s.subrange(start as int, i as int).push(s[i as int]) =~= s.subrange(
                    start as int,
                    i + 1,
                ));
                word.push(chars[i]);
                i = i + 1;
            }
            proof {
                lemma_next_word(s, start as int, i as int);
            }
            let ghost w = s.subrange(start as int, i as int);
            let ghost old_words = contents(words@);
            if !holds(words, &word) {
                words.push(word);
                proof {
                    assert(contents(words@) =~= old_words.push(w));
                    assert(contents(words@).to_set() =~= old_words.to_set().insert(w)) by {
                        assert forall|x: Seq<char>| old_words.to_set().insert(w).contains(
                            x,
                        ) implies contents(words@).to_set().contains(x) by {
                            if x == w {
                                assert(old_words.push(w)[old_words.len() as int] == w);
                            } else {
                                let k = choose|k: int|
                                    0 <= k < old_words.len() && old_words[k] == x;
                                assert(old_words.push(w)[k] == x);
                            }
                        }
                    }
                }
            } else {
                assert(old_words.to_set() =~= old_words.to_set().insert(w));
            }
            assert(contents(words@).to_set() =~= before.union(words_until(s, i as int)));
        }
    }
    assert(words_until(s, s.len() as int) =~= words_of(s));
}

/// The first word after a border between words ends the words up to its end.
proof fn lemma_next_word(s: Seq<char>, start: int, end: int)
    requires
        0 <= start < end <= s.len(),
        start == 0 || white_space(s[start - 1]),
        end == s.len() || white_space(s[end]),
        forall|k: int| start <= k < end ==> !white_space(#[trigger] s[k]),
    ensures
        words_until(s, end) == words_until(s, start).insert(s.subrange(start, end)),
{
    let w = s.subrange(start, end);
    assert(word_at(s, start, end));
    assert forall|x: Seq<char>| words_until(s, end).contains(x) implies words_until(
        s,
        start,
    ).insert(w).contains(x) by {
        let (a, b) = choose|a: int, b: int|
            #[trigger] word_at(s, a, b) && b <= end && x == s.subrange(a, b);
        if b > start {
            if b < end {
                assert(!white_space(s[b]));
            }
            if a < start {
                assert(!white_space(s[start - 1]));
            }
            if a > start {
                assert(!white_space(s[a - 1]));
            }
            assert(a == start && b == end);
        }
    }
    assert(words_until(s, end) =~= words_until(s, start).insert(w));
}

/// The words of two texts with white space between them are those of the one and those of the other.
pub proof fn words_of_joined_texts(a: Seq<char>, c: char, b: Seq<char>)
    requires
        white_space(c),
    ensures
        words_of(a.push(c) + b) == words_of(a).union(words_of(b)),
{
    let s = a.push(c) + b;
    let n = a.len() as int;
    assert(s[n] == c);
    assert forall|k: int| 0 <= k < n implies #[trigger] s[k] == a[k] by {}
    assert forall|k: int| 0 <= k < b.len() implies s[k + n + 1] == #[trigger] b[k] by {}
    assert forall|w: Seq<char>| words_of(s).contains(w) implies words_of(a).union(
        words_of(b),
    ).contains(w) by {
        let (i, j) = choose|i: int, j: int| #[trigger] word_at(s, i, j) && w == s.subrange(i, j);
        if i <= n < j {
            assert(!white_space(s[n]));
        }
        if j <= n {
            assert forall|k: int| i <= k < j implies !white_space(#[trigger] a[k]) by {
                assert(!white_space(s[k]));
            }
            assert(word_at(a, i, j));
            assert(w =~= a.subrange(i, j));
        } else {
            let (x, y) = (i - n - 1, j - n - 1);
            assert forall|k: int| x <= k < y implies !white_space(#[trigger] b[k]) by {
                assert(!white_space(s[k + n + 1]));
            }
            assert(x == 0 || b[x - 1] == s[i - 1]);
            assert(y == b.len() || b[y] == s[j]);
            assert(word_at(b, x, y));
            assert(w =~= b.subrange(x, y));
        }
    }
    assert forall|w: Seq<char>| words_of(a).contains(w) implies words_of(s).contains(w) by {
        let (i, j) = choose|i: int, j: int| #[trigger] word_at(a, i, j) && w == a.subrange(i, j);
        assert forall|k: int| i <= k < j implies !white_space(#[trigger] s[k]) by {
            assert(!white_space(a[k]));
        }
        assert(word_at(s, i, j));
        assert(w =~= s.subrange(i, j));
    }
    assert forall|w: Seq<char>| words_of(b).contains(w) implies words_of(s).contains(w) by {
        let (x, y) = choose|x: int, y: int| #[trigger] word_at(b, x, y) && w == b.subrange(x, y);
        let (i, j) = (x + n + 1, y + n + 1);
        assert forall|k: int| i <= k < j implies !white_space(#[trigger] s[k]) by {
            assert(!white_space(b[k - n - 1]));
        }
        assert(x == 0 || b[x - 1] == s[i - 1]);
        assert(y == b.len() || b[y] == s[j]);
        assert(word_at(s, i, j));
        assert(w =~= s.subrange(i, j));
    }
    assert(words_of(s) =~= words_of(a).union(words_of(b)));
}

/// The order of words, their repetition and further white space do not change the words of a text.
pub proof fn arrangement_does_not_matter(a: Seq<char>, c: char, b: Seq<char>)
    requires
        white_space(c),
    ensures
        words_of(a.push(c) + b) == words_of(b.push(c) + a),
        words_of(a.push(c) + a) == words_of(a),
        words_of(a.push(c)) == words_of(a),
        words_of(seq![c] + a) == words_of(a),
{
    let none = Seq::<char>::empty();
    words_of_joined_texts(a, c, b);
    words_of_joined_texts(b, c, a);
    words_of_joined_texts(a, c, a);
    words_of_joined_texts(a, c, none);
    words_of_joined_texts(none, c, a);
    assert(words_of(a).union(words_of(b)) =~= words_of(b).union(words_of(a)));
    assert(words_of(a).union(words_of(a)) =~= words_of(a));
    assert(words_of(none) =~= Set::empty());
    assert(words_of(a).union(words_of(none)) =~= words_of(a));
    assert(words_of(none).union(words_of(a)) =~= words_of(a));
    assert(a.push(c) + none =~= a.push(c));
    assert(none.push(c) =~= seq![c]);
}

/// The words of a text are finitely many: at most as many as its characters.
pub proof fn words_bounded(s: Seq<char>)
    ensures
        words_of(s).finite(),
        words_of(s).len() <= s.len(),
{
    lemma_words_until_bounded(s, s.len() as int);
    assert(words_until(s, s.len() as int) =~= words_of(s));
}

/// At most one word ends at each character.
proof fn lemma_words_until_bounded(s: Seq<char>, end: int)
    requires
        end >= 0,
    ensures
        words_until(s, end).finite(),
        words_until(s, end).len() <= end,
    decreases end,
{
    if end == 0 {
        assert(words_until(s, end) =~= Set::empty());
    } else {
        lemma_words_until_bounded(s, end - 1);
        if exists|i: int| #[trigger] word_at(s, i, end) {
            let i = choose|i: int| #[trigger] word_at(s, i, end);
            lemma_next_word(s, i, end);
            assert(words_until(s, i).subset_of(words_until(s, end - 1)));
            vstd::set_lib::lemma_set_subset_finite(words_until(s, end - 1), words_until(s, i));
            vstd::set_lib::lemma_len_subset(words_until(s, i), words_until(s, end - 1));
        } else {
            assert(words_until(s, end) =~= words_until(s, end - 1)) by {
                assert forall|a: int, b: int| #[trigger] word_at(s, a, b) && b <= end implies b <= end
                    - 1 by {}
            }
        }
    }
}

impl WordSet {
    #[verifier::type_invariant]
    spec fn distinct(self) -> bool {
        contents(self.words@).no_duplicates()
    }

    /// The words of `text`.
    pub fn of(text: &str) -> (r: WordSet)
        ensures
            r@ == words_of(text@),
    {
        let mut words: Vec<Vec<char>> = Vec::new();
        assert(contents(words@).to_set() =~= Set::empty());
        add_words(&mut words, text);
        assert(Set::empty().union(words_of(text@)) =~= words_of(text@));
        WordSet { words }
    }

    /// The words of `first` and those of `second`.
    pub fn of_both(first: &str, second: &str) -> (r: WordSet)
        ensures
            r@ == words_of(first@).union(words_of(second@)),
    {
        let mut words: Vec<Vec<char>> = Vec::new();
        assert(contents(words@).to_set() =~= Set::empty());
        add_words(&mut words, first);
        assert(Set::empty().union(words_of(first@)) =~= words_of(first@));
        add_words(&mut words, second);
        WordSet { words }
    }

    /// How many words there are.
    pub fn len(&self) -> (n: usize)
        ensures
            n == self@.len(),
            self@.finite(),
    {
        proof {
            use_type_invariant(self);
            contents(self.words@).unique_seq_to_set();
            vstd::seq_lib::seq_to_set_is_finite(contents(self.words@));
        }
        self.words.len()
    }

    /// How many words are in both sets.
    pub fn common(&self, other: &WordSet) -> (n: usize)
        ensures
            n == self@.intersect(other@).len(),
    {
        let mut n: usize = 0;
        let mut i: usize = 0;
        let ghost own = contents(self.words@);
        let ghost mut found: Set<Seq<char>> = Set::empty();
        proof {
            use_type_invariant(self);
        }
        while i < self.words.len()
            invariant
                own == contents(self.words@),
                own.no_duplicates(),
                n <= i <= self.words.len(),
                found.finite(),
                n == found.len(),
                forall|w: Seq<char>| #[trigger]
                    found.contains(w) <==> (own.take(i as int).contains(w) && other@.contains(w)),
            decreases self.words.len() - i,
        {
            let ghost w = own[i as int];
            let ghost seen = own.take(i as int);
            let ghost next = own.take(i + 1);
            proof {
                assert(next =~= seen.push(w));
                assert forall|x: Seq<char>| next.contains(x) <==> seen.contains(x) || x == w by {
                    assert(next[i as int] == w);
                    if seen.contains(x) {
                        let k = choose|k: int| 0 <= k < i && seen[k] == x;
                        assert(next[k] == x);
                    }
                    if next.contains(x) {
                        let k = choose|k: int| 0 <= k < next.len() && next[k] == x;
                        if k < i {
                            assert(seen[k] == x);
                        }
                    }
                }
            }
            if holds(&other.words, &self.words[i]) {
                proof {
                    assert(!seen.contains(w)) by {
                        if seen.contains(w) {
                            let k = choose|k: int| 0 <= k < i && seen[k] == w;
                            assert(own[k] == own[i as int]);
                        }
                    }
                    found = found.insert(w);
                }
                n = n + 1;
            }
            i = i + 1;
        }
        proof {
            assert(own.take(own.len() as int) =~= own);
            assert(found =~= self@.intersect(other@));
        }
        n
    }
}

/// The characters that part words, by their code points.
pub proof fn white_space_by_code_point(c: char)
    ensures
        white_space(c) <==> seq![
            0x09u32,
            0x0a,
            0x0b,
            0x0c,
            0x0d,
            0x20,
            0x85,
            0xa0,
            0x1680,
            0x2000,
            0x2001,
            0x2002,
            0x2003,
            0x2004,
            0x2005,
            0x2006,
            0x2007,
            0x2008,
            0x2009,
            0x200a,
            0x2028,
            0x2029,
            0x202f,
            0x205f,
            0x3000,
        ].contains(c as u32),
{
    let list = seq![
        0x09u32, 0x0a, 0x0b, 0x0c, 0x0d, 0x20, 0x85, 0xa0, 0x1680, 0x2000, 0x2001, 0x2002, 0x2003,
        0x2004, 0x2005, 0x2006, 0x2007, 0x2008, 0x2009, 0x200a, 0x2028, 0x2029, 0x202f, 0x205f,
        0x3000,
    ];
    let v = c as u32;
    if 0x09 <= v <= 0x0d {
        assert(list[v - 0x09] == v);
    } else if 0x2000 <= v <= 0x200a {
        assert(list[v - 0x2000 + 9] == v);
    } else {
        assert(list[5] == 0x20 && list[6] == 0x85 && list[7] == 0xa0 && list[8] == 0x1680);
        assert(list[20] == 0x2028 && list[21] == 0x2029 && list[22] == 0x202f && list[23]
            == 0x205f && list[24] == 0x3000);
    }
}

/// A text without white space is one word, or none where it is empty. With the words of joined
/// texts, this says what the words of every text are.
pub proof fn words_of_unbroken_text(s: Seq<char>)
    requires
        forall|k: int| 0 <= k < s.len() ==> !white_space(#[trigger] s[k]),
    ensures
        s.len() > 0 ==> words_of(s) == set![s],
        s.len() == 0 ==> words_of(s) == Set::<Seq<char>>::empty(),
{
    if s.len() > 0 {
        assert(word_at(s, 0, s.len() as int));
        assert(s.subrange(0, s.len() as int) =~= s);
        assert forall|w: Seq<char>| words_of(s).contains(w) implies w == s by {
            let (i, j) = choose|i: int, j: int|
                #[trigger] word_at(s, i, j) && w == s.subrange(i, j);
            if i > 0 {
                assert(!white_space(s[i - 1]));
            }
            if j < s.len() {
                assert(!white_space(s[j]));
            }
        }
        assert(words_of(s) =~= set![s]);
    } else {
        assert(words_of(s) =~= Set::empty());
    }
}

/// A word is a part of its text, holds at least one character, and no white space.
pub proof fn words_are_unbroken_parts(s: Seq<char>, w: Seq<char>)
    requires
        words_of(s).contains(w),
    ensures
        w.len() > 0,
        forall|k: int| 0 <= k < w.len() ==> !white_space(#[trigger] w[k]),
        exists|i: int| 0 <= i <= s.len() - w.len() && w == #[trigger] s.subrange(i, i + w.len()),
{
    let (i, j) = choose|i: int, j: int| #[trigger] word_at(s, i, j) && w == s.subrange(i, j);
    assert forall|k: int| 0 <= k < w.len() implies !white_space(#[trigger] w[k]) by {
        assert(w[k] == s[i + k]);
    }
    assert(w == s.subrange(i, i + w.len()));
}

} // verus!
