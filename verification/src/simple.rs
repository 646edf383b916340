//! The straightforward narrowing assistant: a width and a vector of
//! candidate words, filtered in place as feedback comes in.

use vstd::prelude::*;

use crate::{Helper, Hint, Spot};

verus! {

/// A candidate pool over words of one fixed width.
#[derive(Debug)]
pub struct SimpleHelper {
    pub width: usize,
    pub dict_words: Vec<String>,
}

impl SimpleHelper {
    /// Seed the pool: words of the wrong length are silently dropped.
    pub fn new(width: usize, dict_words: &[String]) -> (helper: SimpleHelper)
        ensures
            helper.width == width,
            helper.dict_words.deep_view() == crate::pool_of_width(
                dict_words.deep_view(),
                width as nat,
            ),
            helper.inv(),
    {
        let mut kept: Vec<String> = Vec::new();
        let mut i: usize = 0;
        while i < dict_words.len()
            invariant
                i <= dict_words@.len(),
                kept.deep_view() == crate::pool_of_width(
                    dict_words.deep_view().take(i as int),
                    width as nat,
                ),
                crate::all_width(kept.deep_view(), width as nat),
            decreases dict_words@.len() - i,
        {
            let word = vstd::slice::slice_index_get(dict_words, i);
            let ghost prefix = dict_words.deep_view().take(i as int);
            let ghost kept0 = kept.deep_view();
            if word.unicode_len() == width {
                kept.push(word.clone());
                proof {
                    assert(kept.deep_view() =~= kept0.push(word@));
                }
            }
            proof {
                assert(dict_words.deep_view().take(i + 1).drop_last() =~= prefix);
                assert(dict_words.deep_view().take(i + 1).last() == word@);
                reveal(Seq::filter);
            }
            i = i + 1;
        }
        proof {
            assert(dict_words.deep_view().take(dict_words@.len() as int)
                =~= dict_words.deep_view());
        }
        SimpleHelper { width, dict_words: kept }
    }

    /// Drop the `Absent` entries that a positive entry for the same letter
    /// elsewhere in the round overrules.
    pub fn shrink_hints(hints: &[Hint]) -> (results: Vec<Hint>)
        ensures
            results@ == crate::shrunk_hints(hints@),
    {
        let mut results: Vec<Hint> = Vec::new();
        let mut i: usize = 0;
        while i < hints.len()
            invariant
                i <= hints@.len(),
                results@ == crate::shrunk_against(hints@.take(i as int), hints@),
            decreases hints@.len() - i,
        {
            let hint = *vstd::slice::slice_index_get(hints, i);
            let keep = if matches!(hint.spot, Spot::Nowhere()) {
                !has_positive_hint(hints, hint.letter)
            } else {
                true
            };
            if keep {
                results.push(hint);
            }
            proof {
                assert(hints@.take(i + 1).drop_last() =~= hints@.take(i as int));
                assert(hints@.take(i + 1).last() == hint);
                reveal(Seq::filter);
            }
            i = i + 1;
        }
        proof {
            assert(hints@.take(hints@.len() as int) =~= hints@);
        }
        results
    }

    /// Keep only the pooled words that agree with every hint of the round,
    /// after shrinking.
    pub fn update_with_hints(&mut self, hints: &[Hint])
        requires
            old(self).inv(),
            crate::spots_within(hints@, old(self).width as nat),
        ensures
            final(self).inv(),
            final(self).width == old(self).width,
            final(self).dict_words.deep_view() == crate::pool_after_hints(
                old(self).dict_words.deep_view(),
                hints@,
            ),
    {
        let shrunk = Self::shrink_hints(hints);
        proof {
            crate::lemma_shrunk_spots_within(hints@, self.width as nat);
        }
        let mut kept: Vec<String> = Vec::new();
        let mut i: usize = 0;
        let n = self.dict_words.len();
        while i < n
            invariant
                *self == *old(self),
                self.inv(),
                crate::spots_within(shrunk@, self.width as nat),
                shrunk@ == crate::shrunk_hints(hints@),
                n == self.dict_words@.len(),
                i <= n,
                kept.deep_view() == crate::pool_after_hints(
                    self.dict_words.deep_view().take(i as int),
                    hints@,
                ),
                crate::all_width(kept.deep_view(), self.width as nat),
            decreases n - i,
        {
            let word = vstd::slice::slice_index_get(self.dict_words.as_slice(), i);
            let ghost prefix = self.dict_words.deep_view().take(i as int);
            let ghost kept0 = kept.deep_view();
            assert(word@ == self.dict_words.deep_view()[i as int]);
            assert(word@.len() == self.width) by {
                assert(crate::all_width(self.dict_words.deep_view(), self.width as nat));
            }
            if word_matches(word, shrunk.as_slice()) {
                kept.push(word.clone());
                proof {
                    assert(kept.deep_view() =~= kept0.push(word@));
                }
            }
            proof {
                assert(self.dict_words.deep_view().take(i + 1).drop_last() =~= prefix);
                assert(self.dict_words.deep_view().take(i + 1).last() == word@);
                reveal(Seq::filter);
            }
            i = i + 1;
        }
        proof {
            assert(self.dict_words.deep_view().take(n as int) =~= self.dict_words.deep_view());
        }
        self.dict_words = kept;
    }

    /// Take the guessed word itself out of the pool: the first occurrence
    /// leaves, and the last word is swapped into its place.  A word of the
    /// wrong width is never pooled, so nothing happens then.
    pub fn remove_word(&mut self, word: &str)
        requires
            old(self).inv(),
        ensures
            final(self).inv(),
            final(self).width == old(self).width,
            final(self).dict_words.deep_view() == crate::pool_without_word(
                old(self).dict_words.deep_view(),
                word@,
                old(self).width as nat,
            ),
    {
        let ghost pool = self.dict_words.deep_view();
        if word.unicode_len() != self.width {
            return ;
        }
        let n = self.dict_words.len();
        let mut j: usize = 0;
        while j < n
            invariant
                *self == *old(self),
                self.inv(),
                pool == self.dict_words.deep_view(),
                word@.len() == self.width,
                n == self.dict_words@.len(),
                j <= n,
                forall|k: int| 0 <= k < j ==> pool[k] != word@,
            decreases n - j,
        {
            let entry = vstd::slice::slice_index_get(self.dict_words.as_slice(), j);
            assert(entry@ == pool[j as int]);
            if string_eq_str(entry, word) {
                proof {
                    pool.index_of_first_ensures(word@);
                    assert(pool.contains(word@));
                    let idx = pool.index_of_first(word@)->0;
                    if idx < j {
                        assert(pool[idx] == word@);
                    }
                    assert(pool.index_of_first(word@) == Some(j as int));
                }
                let ghost words0 = self.dict_words@;
                self.dict_words.swap_remove(j);
                proof {
                    assert(self.dict_words.deep_view() =~= pool.update(
                        j as int,
                        pool.last(),
                    ).drop_last()) by {
                        assert(self.dict_words@ == words0.update(
                            j as int,
                            words0.last(),
                        ).drop_last());
                        assert(words0.last() == words0[words0.len() - 1]);
                    }
                    assert(crate::all_width(pool, self.width as nat));
                    assert forall|k: int|
                        0 <= k < self.dict_words.deep_view().len() implies (
                    #[trigger] self.dict_words.deep_view()[k]).len() == self.width by {
                        if k != j {
                            assert(self.dict_words.deep_view()[k] == pool[k]);
                        } else {
                            assert(self.dict_words.deep_view()[k] == pool[pool.len() - 1]);
                        }
                    }
                    assert(crate::all_width(self.dict_words.deep_view(), self.width as nat));
                }
                return ;
            }
            j = j + 1;
        }
        proof {
            pool.index_of_first_ensures(word@);
            if pool.index_of_first(word@) is Some {
                let idx = pool.index_of_first(word@)->0;
                assert(pool[idx] == word@);
            }
        }
    }
}

impl Helper for SimpleHelper {
    open spec fn width_view(&self) -> nat {
        self.width as nat
    }

    open spec fn pool_view(&self) -> Seq<Seq<char>> {
        self.dict_words.deep_view()
    }

    fn suggest(&self) -> (r: &Vec<String>) {
        &self.dict_words
    }

    fn add_hint(&mut self, word: &str, hints: &[Hint]) {
        self.remove_word(word);
        self.update_with_hints(hints);
        proof {
            crate::lemma_monotonic_shrink(
                old(self).dict_words.deep_view(),
                word@,
                hints@,
                old(self).width as nat,
            );
        }
    }

    fn remained_words_length(&self) -> (n: usize) {
        self.dict_words.len()
    }
}

/// Whether the word contains the letter anywhere.
fn contains_char(word: &String, c: char) -> (r: bool)
    ensures
        r == word@.contains(c),
{
    let n = word.as_str().unicode_len();
    let mut i: usize = 0;
    while i < n
        invariant
            n == word@.len(),
            i <= n,
            forall|k: int| 0 <= k < i ==> word@[k] != c,
        decreases n - i,
    {
        if word.as_str().get_char(i) == c {
            assert(word@.contains(c));
            return true;
        }
        i = i + 1;
    }
    assert(!word@.contains(c)) by {
        if word@.contains(c) {
            let k = choose|k: int| 0 <= k < word@.len() && word@[k] == c;
        }
    }
    false
}

/// Whether the owned word spells exactly the borrowed one.
fn string_eq_str(a: &String, b: &str) -> (r: bool)
    ensures
        r == (a@ == b@),
{
    let bs = String::from_str(b);
    *a == bs
}

/// Whether some hint of the round reports the letter as present.
fn has_positive_hint(hints: &[Hint], letter: char) -> (r: bool)
    ensures
        r == crate::has_positive(hints@, letter),
{
    let mut i: usize = 0;
    while i < hints.len()
        invariant
            i <= hints@.len(),
            forall|k: int|
                0 <= k < i ==> !((#[trigger] hints@[k]).letter == letter && !(hints@[k].spot
                    is Nowhere)),
        decreases hints@.len() - i,
    {
        let h = *vstd::slice::slice_index_get(hints, i);
        if h.letter == letter && !matches!(h.spot, Spot::Nowhere()) {
            assert(crate::has_positive(hints@, letter));
            return true;
        }
        i = i + 1;
    }
    false
}

/// Whether the word agrees with every hint of the (already shrunk) round.
fn word_matches(word: &String, hints: &[Hint]) -> (r: bool)
    requires
        crate::spots_within(hints@, word@.len() as nat),
    ensures
        r == crate::word_consistent(word@, hints@),
{
    let mut i: usize = 0;
    while i < hints.len()
        invariant
            crate::spots_within(hints@, word@.len() as nat),
            i <= hints@.len(),
            forall|k: int| 0 <= k < i ==> crate::word_allows(word@, #[trigger] hints@[k]),
        decreases hints@.len() - i,
    {
        let hint = *vstd::slice::slice_index_get(hints, i);
        let ok = match hint.spot {
            Spot::Nowhere() => !contains_char(word, hint.letter),
            Spot::InWithout(p) => {
                if !contains_char(word, hint.letter) {
                    assert(!crate::word_allows(word@, hints@[i as int]));
                    return false;
                }
                word.as_str().get_char(p) != hint.letter
            },
            Spot::At(p) => word.as_str().get_char(p) == hint.letter,
        };
        if !ok {
            assert(!crate::word_allows(word@, hints@[i as int]));
            return false;
        }
        i = i + 1;
    }
    true
}

} // verus!
