//! A helper for a fixed-width word-guessing game: after each guess the game
//! reports, letter by letter, whether the letter is absent from the secret
//! word, present somewhere else, or placed exactly right.  The library keeps a
//! pool of candidate words and narrows it with every round of feedback.

pub mod input;
pub mod simple;

use vstd::prelude::*;

verus! {

/// What a round of feedback says about one letter of a guess.
#[derive(Debug, Clone, Copy, PartialEq, Eq, Structural)]
pub enum Spot {
    /// The letter stands exactly at this position.
    At(usize),
    /// The letter occurs in the word, but not at this position.
    InWithout(usize),
    /// The letter does not occur in the word.
    Nowhere(),
}

/// One letter of a guess together with what the feedback said about it.
#[derive(Debug, Clone, Copy, PartialEq, Eq, Structural)]
pub struct Hint {
    pub letter: char,
    pub spot: Spot,
}

impl Hint {
    pub fn new(letter: char, spot: Spot) -> (h: Hint)
        ensures
            h == (Hint { letter, spot }),
    {
        Hint { letter, spot }
    }

    /// Whether every hint reports an exact placement, i.e. the guess was the
    /// secret word itself.
    pub fn all_at(hints: &[Hint]) -> (r: bool)
        ensures
            r <==> (forall|i: int| 0 <= i < hints@.len() ==> hints@[i].spot is At),
    {
        let mut count: usize = 0;
        let mut i: usize = 0;
        while i < hints.len()
            invariant
                i <= hints@.len(),
                count == count_at(hints@.take(i as int)),
            decreases hints@.len() - i,
        {
            let h = *vstd::slice::slice_index_get(hints, i);
            if matches!(h.spot, Spot::At(_)) {
                proof {
                    lemma_count_at_le(hints@.take(i as int));
                    assert(hints@.take(i as int).len() == i);
                }
                count = count + 1;
            }
            proof {
                assert(hints@.take(i + 1).drop_last() =~= hints@.take(i as int));
                lemma_count_at_le(hints@.take(i + 1));
            }
            i = i + 1;
        }
        proof {
            assert(hints@.take(hints@.len() as int) =~= hints@);
            lemma_count_at_all(hints@);
        }
        count == hints.len()
    }
}

/// How many hints report an exact placement.
pub open spec fn count_at(hints: Seq<Hint>) -> nat
    decreases hints.len(),
{
    if hints.len() == 0 {
        0
    } else {
        count_at(hints.drop_last()) + if hints.last().spot is At {
            1nat
        } else {
            0nat
        }
    }
}

proof fn lemma_count_at_le(hints: Seq<Hint>)
    ensures
        count_at(hints) <= hints.len(),
    decreases hints.len(),
{
    if hints.len() > 0 {
        lemma_count_at_le(hints.drop_last());
    }
}

proof fn lemma_count_at_all(hints: Seq<Hint>)
    ensures
        count_at(hints) == hints.len() <==> (forall|i: int|
            0 <= i < hints.len() ==> hints[i].spot is At),
    decreases hints.len(),
{
    if hints.len() > 0 {
        lemma_count_at_le(hints.drop_last());
        lemma_count_at_all(hints.drop_last());
        assert(forall|i: int|
            0 <= i < hints.len() - 1 ==> hints[i] == hints.drop_last()[i]);
    }
}

/// A narrowing assistant: it holds the candidate words still consistent with
/// the feedback seen so far.
pub trait Helper {
    spec fn width_view(&self) -> nat;

    spec fn pool_view(&self) -> Seq<Seq<char>>;

    /// Every pooled word has exactly the configured width.
    open spec fn inv(&self) -> bool {
        all_width(self.pool_view(), self.width_view())
    }

    /// The candidate words still in play, in their stable pool order.
    fn suggest(&self) -> (r: &Vec<String>)
        ensures
            r.deep_view() == self.pool_view(),
    ;

    /// Record one round of feedback: the guessed word leaves the pool, and
    /// every word inconsistent with the hints is dropped.
    fn add_hint(&mut self, word: &str, hints: &[Hint])
        requires
            old(self).inv(),
            spots_within(hints@, old(self).width_view()),
        ensures
            final(self).inv(),
            final(self).width_view() == old(self).width_view(),
            final(self).pool_view() == pool_after_hints(
                pool_without_word(old(self).pool_view(), word@, old(self).width_view()),
                hints@,
            ),
            final(self).pool_view().len() <= old(self).pool_view().len(),
    ;

    /// How many candidate words are left.
    fn remained_words_length(&self) -> (n: usize)
        ensures
            n == self.pool_view().len(),
    ;
}

/// A source of candidate words of a given length.
pub trait Dictionary {
    fn extract_words(&self, word_length: usize) -> Vec<String>;
}

/// Every word of a pool has exactly the given width.
pub open spec fn all_width(pool: Seq<Seq<char>>, width: nat) -> bool {
    forall|i: int| 0 <= i < pool.len() ==> (#[trigger] pool[i]).len() == width
}

/// Whether a word agrees with a single hint.
pub open spec fn word_allows(w: Seq<char>, h: Hint) -> bool {
    match h.spot {
        Spot::At(p) => w[p as int] == h.letter,
        Spot::InWithout(p) => w.contains(h.letter) && w[p as int] != h.letter,
        Spot::Nowhere() => !w.contains(h.letter),
    }
}

/// Whether a word agrees with every hint of a round.
pub open spec fn word_consistent(w: Seq<char>, hints: Seq<Hint>) -> bool {
    forall|i: int| 0 <= i < hints.len() ==> word_allows(w, #[trigger] hints[i])
}

/// Whether some hint of the round reports the letter as present (either
/// placed or displaced).
pub open spec fn has_positive(hints: Seq<Hint>, letter: char) -> bool {
    exists|i: int|
        0 <= i < hints.len() && (#[trigger] hints[i]).letter == letter && !(hints[i].spot
            is Nowhere)
}

/// An `Absent` report for a letter is discarded when another hint of the same
/// round reports that very letter as present: with repeated letters in a
/// guess, only some occurrences carry the positive signal.
pub open spec fn dropped_by_shrink(h: Hint, hints: Seq<Hint>) -> bool {
    h.spot is Nowhere && has_positive(hints, h.letter)
}

/// The hints of a round that survive shrinking when the overruling positives
/// are drawn from `against`.
pub open spec fn shrunk_against(hints: Seq<Hint>, against: Seq<Hint>) -> Seq<Hint> {
    hints.filter(|h: Hint| !dropped_by_shrink(h, against))
}

/// The feedback round after discarding the overruled `Absent` entries.
pub open spec fn shrunk_hints(hints: Seq<Hint>) -> Seq<Hint> {
    shrunk_against(hints, hints)
}

/// Every positional hint points inside a word of the given width.
pub open spec fn spots_within(hints: Seq<Hint>, width: nat) -> bool {
    forall|i: int|
        0 <= i < hints.len() ==> match (#[trigger] hints[i]).spot {
            Spot::At(p) => p < width,
            Spot::InWithout(p) => p < width,
            Spot::Nowhere() => true,
        }
}

/// The words of exactly the given width, in order: the seed of a pool.
pub open spec fn pool_of_width(words: Seq<Seq<char>>, width: nat) -> Seq<Seq<char>> {
    words.filter(|w: Seq<char>| w.len() == width)
}

/// The pool after one guessed word is taken out: the first occurrence is
/// removed by swapping the last word into its place, and a word of the wrong
/// width is never present, so nothing changes then.
pub open spec fn pool_without_word(pool: Seq<Seq<char>>, w: Seq<char>, width: nat) -> Seq<
    Seq<char>,
> {
    if w.len() != width {
        pool
    } else {
        match pool.index_of_first(w) {
            Some(i) => pool.update(i, pool.last()).drop_last(),
            None => pool,
        }
    }
}

/// The pool after one round of feedback: only the words consistent with the
/// shrunk hints stay, in order.
pub open spec fn pool_after_hints(pool: Seq<Seq<char>>, hints: Seq<Hint>) -> Seq<Seq<char>> {
    pool.filter(|w: Seq<char>| word_consistent(w, shrunk_hints(hints)))
}

/// A pool driven through a whole session: each round removes the guessed
/// word, then keeps only the words consistent with that round's feedback.
pub open spec fn pool_after_rounds(
    pool: Seq<Seq<char>>,
    rounds: Seq<(Seq<char>, Seq<Hint>)>,
    width: nat,
) -> Seq<Seq<char>>
    decreases rounds.len(),
{
    if rounds.len() == 0 {
        pool
    } else {
        pool_after_hints(
            pool_without_word(
                pool_after_rounds(pool, rounds.drop_last(), width),
                rounds.last().0,
                width,
            ),
            rounds.last().1,
        )
    }
}

/// Whatever survives shrinking was one of the round's hints, and was not an
/// overruled `Absent` entry.
pub proof fn lemma_shrunk_elems(hints: Seq<Hint>, against: Seq<Hint>)
    ensures
        forall|x: Hint| #[trigger]
            shrunk_against(hints, against).contains(x) ==> hints.contains(x)
                && !dropped_by_shrink(x, against),
        shrunk_against(hints, against).len() <= hints.len(),
    decreases hints.len(),
{
    reveal(Seq::filter);
    let s = shrunk_against(hints, against);
    if hints.len() > 0 {
        lemma_shrunk_elems(hints.drop_last(), against);
        let sub = shrunk_against(hints.drop_last(), against);
        assert forall|x: Hint| #[trigger]
            s.contains(x) implies hints.contains(x) && !dropped_by_shrink(x, against) by {
            let i = choose|i: int| 0 <= i < s.len() && s[i] == x;
            if i < sub.len() {
                assert(sub.contains(x));
                let j = choose|j: int|
                    0 <= j < hints.drop_last().len() && hints.drop_last()[j] == x;
                assert(hints[j] == x);
            } else {
                assert(x == hints.last());
                assert(hints[hints.len() - 1] == x);
            }
        }
    }
}

/// A hint that the shrink rule does not discard is still there afterwards.
pub proof fn lemma_shrunk_complete(hints: Seq<Hint>, against: Seq<Hint>)
    ensures
        forall|i: int|
            0 <= i < hints.len() && !dropped_by_shrink(#[trigger] hints[i], against)
                ==> shrunk_against(hints, against).contains(hints[i]),
    decreases hints.len(),
{
    reveal(Seq::filter);
    let s = shrunk_against(hints, against);
    if hints.len() > 0 {
        lemma_shrunk_complete(hints.drop_last(), against);
        let sub = shrunk_against(hints.drop_last(), against);
        assert forall|i: int|
            0 <= i < hints.len() && !dropped_by_shrink(hints[i], against) implies s.contains(
            hints[i],
        ) by {
            if i < hints.len() - 1 {
                assert(hints.drop_last()[i] == hints[i]);
                assert(sub.contains(hints[i]));
                let j = choose|j: int| 0 <= j < sub.len() && sub[j] == hints[i];
                assert(s[j] == hints[i]);
            } else {
                assert(hints.last() == hints[i]);
                assert(s.last() == hints[i]);
            }
        }
    }
}

/// Shrinking keeps every positional hint inside the word.
pub proof fn lemma_shrunk_spots_within(hints: Seq<Hint>, width: nat)
    requires
        spots_within(hints, width),
    ensures
        spots_within(shrunk_hints(hints), width),
{
    lemma_shrunk_elems(hints, hints);
    let s = shrunk_hints(hints);
    assert forall|i: int|
        0 <= i < s.len() implies match (#[trigger] s[i]).spot {
        Spot::At(p) => p < width,
        Spot::InWithout(p) => p < width,
        Spot::Nowhere() => true,
    } by {
        assert(s.contains(s[i]));
        let j = choose|j: int| 0 <= j < hints.len() && hints[j] == s[i];
    }
}

/// Filtering a pool by a round of feedback keeps only words it already held
/// that are consistent with the shrunk hints, and never grows the pool.
pub proof fn lemma_pool_after_hints_elems(pool: Seq<Seq<char>>, hints: Seq<Hint>)
    ensures
        pool_after_hints(pool, hints).len() <= pool.len(),
        forall|x: Seq<char>| #[trigger]
            pool_after_hints(pool, hints).contains(x) ==> pool.contains(x) && word_consistent(
                x,
                shrunk_hints(hints),
            ),
    decreases pool.len(),
{
    reveal(Seq::filter);
    let s = pool_after_hints(pool, hints);
    if pool.len() > 0 {
        lemma_pool_after_hints_elems(pool.drop_last(), hints);
        let sub = pool_after_hints(pool.drop_last(), hints);
        assert forall|x: Seq<char>| #[trigger]
            s.contains(x) implies pool.contains(x) && word_consistent(x, shrunk_hints(hints)) by {
            let i = choose|i: int| 0 <= i < s.len() && s[i] == x;
            if i < sub.len() {
                assert(sub.contains(x));
                let j = choose|j: int|
                    0 <= j < pool.drop_last().len() && pool.drop_last()[j] == x;
                assert(pool[j] == x);
            } else {
                assert(x == pool.last());
                assert(pool[pool.len() - 1] == x);
            }
        }
    }
}

/// Taking the guessed word out never grows the pool, and leaves only words
/// that were already there.
pub proof fn lemma_pool_without_word_elems(pool: Seq<Seq<char>>, w: Seq<char>, width: nat)
    ensures
        pool_without_word(pool, w, width).len() <= pool.len(),
        forall|x: Seq<char>| #[trigger]
            pool_without_word(pool, w, width).contains(x) ==> pool.contains(x),
{
    let s = pool_without_word(pool, w, width);
    if w.len() == width {
        pool.index_of_first_ensures(w);
        if pool.index_of_first(w) is Some {
            let i = pool.index_of_first(w)->0;
            assert forall|x: Seq<char>| #[trigger] s.contains(x) implies pool.contains(x) by {
                let k = choose|k: int| 0 <= k < s.len() && s[k] == x;
                if k == i {
                    assert(pool[pool.len() - 1] == x);
                } else {
                    assert(pool[k] == x);
                }
            }
        }
    }
}

/// Monotonic shrink: a submitted round never grows the pool.
pub proof fn lemma_monotonic_shrink(
    pool: Seq<Seq<char>>,
    guess: Seq<char>,
    hints: Seq<Hint>,
    width: nat,
)
    ensures
        pool_after_hints(pool_without_word(pool, guess, width), hints).len() <= pool.len(),
{
    lemma_pool_without_word_elems(pool, guess, width);
    lemma_pool_after_hints_elems(pool_without_word(pool, guess, width), hints);
}

/// Self-exclusion: once a word has been guessed, it is gone from the pool.
/// This needs the pool not to list the guess twice: seeding from a dictionary
/// that repeats a word would leave the second copy behind.
pub proof fn lemma_self_exclusion(
    pool: Seq<Seq<char>>,
    guess: Seq<char>,
    hints: Seq<Hint>,
    width: nat,
)
    requires
        forall|i: int| 0 <= i < pool.len() ==> (#[trigger] pool[i]).len() == width,
        forall|i: int, j: int|
            #![trigger pool[i], pool[j]]
            0 <= i < pool.len() && 0 <= j < pool.len() && pool[i] == guess && pool[j] == guess
                ==> i == j,
    ensures
        !pool_after_hints(pool_without_word(pool, guess, width), hints).contains(guess),
{
    let removed = pool_without_word(pool, guess, width);
    assert(!removed.contains(guess)) by {
        if guess.len() != width {
            if removed.contains(guess) {
                let k = choose|k: int| 0 <= k < pool.len() && pool[k] == guess;
            }
        } else {
            pool.index_of_first_ensures(guess);
            if pool.index_of_first(guess) is Some {
                let i = pool.index_of_first(guess)->0;
                if removed.contains(guess) {
                    let k = choose|k: int| 0 <= k < removed.len() && removed[k] == guess;
                    if k == i {
                        assert(pool[pool.len() - 1] == guess);
                    } else {
                        assert(pool[k] == guess);
                    }
                }
            }
        }
    }
    lemma_pool_after_hints_elems(removed, hints);
}

/// Consistency invariant: every word still in the pool after any sequence of
/// submitted rounds came from the seed pool and satisfies every round of
/// feedback ever submitted, as shrunk.
pub proof fn lemma_consistency(
    pool: Seq<Seq<char>>,
    rounds: Seq<(Seq<char>, Seq<Hint>)>,
    width: nat,
)
    ensures
        forall|x: Seq<char>| #[trigger]
            pool_after_rounds(pool, rounds, width).contains(x) ==> pool.contains(x),
        forall|x: Seq<char>, j: int|
            #[trigger] pool_after_rounds(pool, rounds, width).contains(x) && 0 <= j < rounds.len()
                ==> word_consistent(x, shrunk_hints((#[trigger] rounds[j]).1)),
    decreases rounds.len(),
{
    if rounds.len() > 0 {
        lemma_consistency(pool, rounds.drop_last(), width);
        let prev = pool_after_rounds(pool, rounds.drop_last(), width);
        let removed = pool_without_word(prev, rounds.last().0, width);
        lemma_pool_without_word_elems(prev, rounds.last().0, width);
        lemma_pool_after_hints_elems(removed, rounds.last().1);
        assert forall|x: Seq<char>, j: int|
            #[trigger] pool_after_rounds(pool, rounds, width).contains(x) && 0 <= j
                < rounds.len() implies word_consistent(x, shrunk_hints((#[trigger] rounds[j]).1)) by {
            if j < rounds.len() - 1 {
                assert(rounds.drop_last()[j] == rounds[j]);
                assert(prev.contains(x));
            } else {
                assert(rounds.last() == rounds[j]);
            }
        }
    }
}

/// Shrinking does not change which letters carry a positive signal.
proof fn lemma_shrunk_positives(hints: Seq<Hint>)
    ensures
        forall|c: char| has_positive(shrunk_hints(hints), c) <==> has_positive(hints, c),
{
    lemma_shrunk_elems(hints, hints);
    lemma_shrunk_complete(hints, hints);
    let s = shrunk_hints(hints);
    assert forall|c: char| has_positive(s, c) <==> has_positive(hints, c) by {
        if has_positive(s, c) {
            let i = choose|i: int|
                0 <= i < s.len() && s[i].letter == c && !(s[i].spot is Nowhere);
            assert(s.contains(s[i]));
            let j = choose|j: int| 0 <= j < hints.len() && hints[j] == s[i];
            assert(has_positive(hints, c));
        }
        if has_positive(hints, c) {
            let i = choose|i: int|
                0 <= i < hints.len() && hints[i].letter == c && !(hints[i].spot is Nowhere);
            assert(!dropped_by_shrink(hints[i], hints));
            assert(s.contains(hints[i]));
            let j = choose|j: int| 0 <= j < s.len() && s[j] == hints[i];
            assert(has_positive(s, c));
        }
    }
}

/// Filtering against two rounds that overrule the same hints gives the same
/// survivors.
proof fn lemma_shrunk_congruence(hints: Seq<Hint>, a1: Seq<Hint>, a2: Seq<Hint>)
    requires
        forall|x: Hint| dropped_by_shrink(x, a1) <==> dropped_by_shrink(x, a2),
    ensures
        shrunk_against(hints, a1) == shrunk_against(hints, a2),
    decreases hints.len(),
{
    reveal(Seq::filter);
    if hints.len() > 0 {
        lemma_shrunk_congruence(hints.drop_last(), a1, a2);
    }
}

/// A round none of whose hints the shrink rule discards is left as it is.
proof fn lemma_shrunk_all_kept(hints: Seq<Hint>, against: Seq<Hint>)
    requires
        forall|i: int| 0 <= i < hints.len() ==> !dropped_by_shrink(#[trigger] hints[i], against),
    ensures
        shrunk_against(hints, against) == hints,
    decreases hints.len(),
{
    reveal(Seq::filter);
    if hints.len() > 0 {
        assert forall|i: int|
            0 <= i < hints.drop_last().len() implies !dropped_by_shrink(
            #[trigger] hints.drop_last()[i],
            against,
        ) by {
            assert(hints.drop_last()[i] == hints[i]);
        }
        lemma_shrunk_all_kept(hints.drop_last(), against);
        assert(shrunk_against(hints, against) =~= hints);
    }
}

/// Shrink idempotence: the survivors of a shrink carry no overruled `Absent`
/// entry, so shrinking them again changes nothing.
pub proof fn lemma_shrunk_idempotent(hints: Seq<Hint>)
    ensures
        shrunk_hints(shrunk_hints(hints)) == shrunk_hints(hints),
{
    let s = shrunk_hints(hints);
    lemma_shrunk_positives(hints);
    assert forall|x: Hint| dropped_by_shrink(x, s) <==> dropped_by_shrink(x, hints) by {}
    lemma_shrunk_congruence(s, s, hints);
    lemma_shrunk_elems(hints, hints);
    assert forall|i: int|
        0 <= i < s.len() implies !dropped_by_shrink(#[trigger] s[i], hints) by {
        assert(s.contains(s[i]));
    }
    lemma_shrunk_all_kept(s, hints);
}

/// Two rounds that shrink to the same hints narrow a pool identically.
proof fn lemma_pool_after_hints_congruence(pool: Seq<Seq<char>>, h1: Seq<Hint>, h2: Seq<Hint>)
    requires
        shrunk_hints(h1) == shrunk_hints(h2),
    ensures
        pool_after_hints(pool, h1) == pool_after_hints(pool, h2),
    decreases pool.len(),
{
    reveal(Seq::filter);
    if pool.len() > 0 {
        lemma_pool_after_hints_congruence(pool.drop_last(), h1, h2);
    }
}

/// Shrink idempotence, seen from the pool: submitting a round narrows the
/// pool exactly as submitting its pre-shrunk form would.
pub proof fn lemma_submit_preshrunk(pool: Seq<Seq<char>>, hints: Seq<Hint>)
    ensures
        pool_after_hints(pool, hints) == pool_after_hints(pool, shrunk_hints(hints)),
{
    lemma_shrunk_idempotent(hints);
    lemma_pool_after_hints_congruence(pool, hints, shrunk_hints(hints));
}

} // verus!
