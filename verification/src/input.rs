//! Rounds of user input, as the interactive front ends collect them: first
//! the guessed word, then the game's reply as a digit string, one digit per
//! letter (`0` = nowhere, `1` = somewhere else, `2` = exactly there), which is
//! parsed into [`Hint`]s.  [`InputStates`] keeps the finished rounds and
//! frames them for display.

use vstd::prelude::*;

use crate::{Hint, Spot};

verus! {

/// Whether a character is one of the three feedback digits.
pub open spec fn is_hint_digit(c: char) -> bool {
    c == '0' || c == '1' || c == '2'
}

/// The hint that a feedback digit stands for, at a given position of the
/// guessed word.
pub open spec fn hint_of_digit(c: char, letter: char, pos: usize) -> Hint {
    if c == '0' {
        Hint { letter, spot: Spot::Nowhere() }
    } else if c == '1' {
        Hint { letter, spot: Spot::InWithout(pos) }
    } else {
        Hint { letter, spot: Spot::At(pos) }
    }
}

/// The hints parsed from the first `n` digits of a feedback string, in order.
pub open spec fn parsed_hints(word: Seq<char>, digits: Seq<char>, n: int) -> Seq<Hint>
    decreases n,
{
    if n <= 0 {
        Seq::empty()
    } else {
        parsed_hints(word, digits, n - 1).push(
            hint_of_digit(digits[n - 1], word[n - 1], (n - 1) as usize),
        )
    }
}

/// How many characters, from the front, are feedback digits: parsing stops at
/// the first character that is none.
pub open spec fn valid_digit_count(digits: Seq<char>) -> int
    decreases digits.len(),
{
    if digits.len() == 0 {
        0
    } else if !is_hint_digit(digits[0]) {
        0
    } else {
        1 + valid_digit_count(digits.drop_first())
    }
}

proof fn lemma_valid_digit_count_is(digits: Seq<char>, m: int)
    requires
        0 <= m <= digits.len(),
        forall|k: int| 0 <= k < m ==> is_hint_digit(#[trigger] digits[k]),
        m < digits.len() ==> !is_hint_digit(digits[m]),
    ensures
        valid_digit_count(digits) == m,
    decreases digits.len(),
{
    if digits.len() > 0 {
        if m > 0 {
            let rest = digits.drop_first();
            assert(forall|k: int| 0 <= k < rest.len() ==> rest[k] == digits[k + 1]);
            lemma_valid_digit_count_is(rest, m - 1);
        }
    }
}

/// The state of one interactive round: the guessed word, once given, and the
/// hints parsed from the feedback digits.
pub struct InputState {
    pub width: usize,
    pub word: Option<String>,
    pub hint: Vec<Hint>,
    pub is_correct: bool,
}

impl InputState {
    /// The guessed word of this round, if one was given.
    pub open spec fn word_view(&self) -> Option<Seq<char>> {
        match self.word {
            Some(w) => Some(w@),
            None => None,
        }
    }

    /// Whether the round was marked as the winning one.
    pub open spec fn marked_correct(&self) -> bool {
        self.is_correct
    }

    /// A stored word always has the configured width.
    pub open spec fn wf(&self) -> bool {
        match self.word_view() {
            Some(w) => w.len() == self.width,
            None => true,
        }
    }

    pub fn new(width: usize) -> (s: InputState)
        ensures
            s.width == width,
            s.word_view() is None,
            s.hint@ == Seq::<Hint>::empty(),
            !s.marked_correct(),
            s.wf(),
    {
        InputState { width, word: None, hint: Vec::new(), is_correct: false }
    }

    /// Accept the guessed word of this round; a word of the wrong width is
    /// rejected.
    pub fn add_word(&mut self, input: &str) -> (r: Result<(), &'static str>)
        ensures
            final(self).width == old(self).width,
            final(self).hint == old(self).hint,
            final(self).marked_correct() == old(self).marked_correct(),
            r is Ok <==> input@.len() == old(self).width,
            r is Ok ==> final(self).word_view() == Some(input@) && final(self).wf(),
            r is Err ==> *final(self) == *old(self) && (r->Err_0)@ == "invalid word length"@,
    {
        if input.unicode_len() != self.width {
            return Err("invalid word length");
        }
        self.word = Some(String::from_str(input));
        Ok(())
    }

    /// Parse the feedback digits against the guessed word, appending one hint
    /// per digit.  Parsing stops at the first character that is no feedback
    /// digit: the hints read up to there stay appended and an error comes
    /// back.
    pub fn add_hint(&mut self, input: &str) -> (r: Result<(), &'static str>)
        requires
            old(self).wf(),
        ensures
            final(self).width == old(self).width,
            final(self).word_view() == old(self).word_view(),
            final(self).marked_correct() == old(self).marked_correct(),
            final(self).wf(),
            r is Ok <==> (old(self).word_view() is Some && input@.len() == old(self).width
                && valid_digit_count(input@) == input@.len()),
            old(self).word_view() is None ==> final(self).hint == old(self).hint && (r->Err_0)@
                == "add word before"@,
            old(self).word_view() is Some && input@.len() != old(self).width ==> final(self).hint
                == old(self).hint && (r->Err_0)@ == "invalid length"@,
            old(self).word_view() is Some && input@.len() == old(self).width ==> final(self).hint@
                == old(self).hint@ + parsed_hints(
                old(self).word_view()->0,
                input@,
                valid_digit_count(input@),
            ) && (r is Err ==> (r->Err_0)@ == "input must be 0,1,2"@),
    {
        if self.word.is_none() {
            return Err("add word before");
        }
        let n = input.unicode_len();
        if n != self.width {
            return Err("invalid length");
        }
        let ghost w = self.word_view()->0;
        let mut i: usize = 0;
        while i < n
            invariant
                self.width == old(self).width,
                self.word == old(self).word,
                self.is_correct == old(self).is_correct,
                old(self).word_view() is Some,
                w == old(self).word_view()->0,
                old(self).wf(),
                w.len() == self.width,
                n == self.width,
                n == input@.len(),
                i <= n,
                self.hint@ == old(self).hint@ + parsed_hints(w, input@, i as int),
                forall|k: int| 0 <= k < i ==> is_hint_digit(#[trigger] input@[k]),
            decreases n - i,
        {
            let hint_c = input.get_char(i);
            let word_ref = self.word.as_ref().unwrap();
            let word_c = word_ref.as_str().get_char(i);
            assert(word_c == w[i as int]);
            let ghost hints0 = self.hint@;
            match hint_c {
                '0' => {
                    self.hint.push(Hint::new(word_c, Spot::Nowhere()));
                },
                '1' => {
                    self.hint.push(Hint::new(word_c, Spot::InWithout(i)));
                },
                '2' => {
                    self.hint.push(Hint::new(word_c, Spot::At(i)));
                },
                _ => {
                    proof {
                        lemma_valid_digit_count_is(input@, i as int);
                    }
                    return Err("input must be 0,1,2");
                },
            }
            proof {
                assert(self.hint@ == hints0.push(hint_of_digit(input@[i as int], w[i as int], i)));
            }
            i = i + 1;
        }
        proof {
            lemma_valid_digit_count_is(input@, n as int);
        }
        Ok(())
    }

    /// The guessed word of this round, if one was given.
    pub fn word(&self) -> (r: Option<&String>)
        ensures
            match r {
                Some(w) => self.word_view() == Some(w@),
                None => self.word_view() is None,
            },
    {
        match &self.word {
            Some(w) => Some(w),
            None => None,
        }
    }

    /// Mark the round as the winning one.
    pub fn correct(&mut self)
        ensures
            final(self).marked_correct(),
            final(self).width == old(self).width,
            final(self).word_view() == old(self).word_view(),
            final(self).hint == old(self).hint,
            final(self).wf() == old(self).wf(),
    {
        self.is_correct = true;
    }

    /// A round that has its word but no feedback yet, and was not won.
    pub fn is_draft(&self) -> (r: bool)
        ensures
            r == (!self.marked_correct() && self.word_view() is Some && self.hint@.len() == 0),
    {
        if self.is_correct {
            return false;
        }
        self.word.is_some() && self.hint.is_empty()
    }

    /// The completed round: its word and its hints, once both are there.
    pub fn get(&self) -> (r: Result<(String, Vec<Hint>), &'static str>)
        ensures
            r is Ok <==> (self.word_view() is Some && self.hint@.len() > 0),
            r matches Ok(p) ==> p.0@ == self.word_view()->0 && p.1@ == self.hint@,
            self.word_view() is None ==> r is Err && (r->Err_0)@ == "word are empty"@,
            self.word_view() is Some && self.hint@.len() == 0 ==> r is Err && (r->Err_0)@
                == "hints are empty"@,
    {
        match &self.word {
            None => Err("word are empty"),
            Some(word) => {
                if self.hint.is_empty() {
                    return Err("hints are empty");
                }
                let mut hints: Vec<Hint> = Vec::new();
                let mut j: usize = 0;
                while j < self.hint.len()
                    invariant
                        j <= self.hint@.len(),
                        hints@ == self.hint@.take(j as int),
                    decreases self.hint@.len() - j,
                {
                    hints.push(*vstd::slice::slice_index_get(self.hint.as_slice(), j));
                    proof {
                        assert(hints@ =~= self.hint@.take(j + 1));
                    }
                    j = j + 1;
                }
                proof {
                    assert(self.hint@.take(self.hint@.len() as int) =~= self.hint@);
                }
                Ok((word.clone(), hints))
            },
        }
    }
}

/// The same character over and over.
pub open spec fn repeat_char(c: char, n: nat) -> Seq<char> {
    Seq::new(n, |i: int| c)
}

/// The top and bottom frame line: `+`, one dash per letter, `+`.
pub open spec fn header_text(width: nat) -> Seq<char> {
    seq!['+'] + repeat_char('-', width) + seq!['+']
}

/// One framed row: the word at this index, or blanks where no round was
/// played yet.
pub open spec fn row_text(words: Seq<Seq<char>>, i: int, width: nat) -> Seq<char> {
    seq!['\n', '|'] + (if i < words.len() {
        words[i]
    } else {
        repeat_char(' ', width)
    }) + seq!['|']
}

/// The first `count` framed rows, one under the other.
pub open spec fn rows_text(words: Seq<Seq<char>>, count: nat, width: nat) -> Seq<char>
    decreases count,
{
    if count == 0 {
        Seq::empty()
    } else {
        rows_text(words, (count - 1) as nat, width) + row_text(words, count - 1 as int, width)
    }
}

/// The whole board: a frame line, one row per allowed guess, a frame line.
pub open spec fn preview_text(words: Seq<Seq<char>>, max: nat, width: nat) -> Seq<char> {
    header_text(width) + rows_text(words, max, width) + seq!['\n'] + header_text(width)
}

/// The finished rounds of a session, and how far along it is.
pub struct InputStates {
    pub word_length: usize,
    pub max_guess_count: usize,
    pub states: Vec<InputState>,
    pub round_count: i32,
}

impl InputStates {
    pub fn new(word_length: usize, max_guess_count: usize) -> (s: InputStates)
        ensures
            s.word_length == word_length,
            s.max_guess_count == max_guess_count,
            s.states@ == Seq::<InputState>::empty(),
            s.round_count == 0,
    {
        InputStates { states: Vec::new(), word_length, max_guess_count, round_count: 0 }
    }

    /// Keep a finished round.
    pub fn add(&mut self, state: InputState)
        ensures
            final(self).states@ == old(self).states@.push(state),
            final(self).word_length == old(self).word_length,
            final(self).max_guess_count == old(self).max_guess_count,
            final(self).round_count == old(self).round_count,
    {
        self.states.push(state)
    }

    /// Lay the given lines out as the game's board: framed, one slot per
    /// allowed guess, empty slots blank.
    pub fn pretty_preview(&self, word_strs: &[String]) -> (r: String)
        ensures
            r@ == preview_text(
                word_strs.deep_view(),
                self.max_guess_count as nat,
                self.word_length as nat,
            ),
    {
        proof {
            reveal_strlit("+");
            reveal_strlit("-");
            reveal_strlit("|");
            reveal_strlit(" ");
            reveal_strlit("\n");
        }
        let width = self.word_length;
        let mut header = String::from_str("+");
        assert(header@ =~= seq!['+'] + repeat_char('-', 0));
        let mut i: usize = 0;
        while i < width
            invariant
                i <= width,
                header@ == seq!['+'] + repeat_char('-', i as nat),
            decreases width - i,
        {
            proof {
                reveal_strlit("-");
            }
            header.append("-");
            proof {
                assert(header@ =~= seq!['+'] + repeat_char('-', (i + 1) as nat));
            }
            i = i + 1;
        }
        header.append("+");
        assert(header@ =~= header_text(width as nat));
        let mut blank = String::new();
        let mut j: usize = 0;
        while j < width
            invariant
                j <= width,
                blank@ == repeat_char(' ', j as nat),
            decreases width - j,
        {
            proof {
                reveal_strlit(" ");
            }
            blank.append(" ");
            proof {
                assert(blank@ =~= repeat_char(' ', (j + 1) as nat));
            }
            j = j + 1;
        }
        let ghost words = word_strs.deep_view();
        let mut out = header.clone();
        let mut k: usize = 0;
        while k < self.max_guess_count
            invariant
                k <= self.max_guess_count,
                words == word_strs.deep_view(),
                header@ == header_text(self.word_length as nat),
                blank@ == repeat_char(' ', self.word_length as nat),
                out@ == header_text(self.word_length as nat) + rows_text(
                    words,
                    k as nat,
                    self.word_length as nat,
                ),
            decreases self.max_guess_count - k,
        {
            proof {
                reveal_strlit("\n");
                reveal_strlit("|");
            }
            let ghost out0 = out@;
            out.append("\n");
            out.append("|");
            if k < word_strs.len() {
                let word = vstd::slice::slice_index_get(word_strs, k);
                assert(word@ == words[k as int]);
                out.append(word.as_str());
            } else {
                out.append(blank.as_str());
            }
            out.append("|");
            proof {
                assert(out@ =~= out0 + row_text(words, k as int, self.word_length as nat));
            }
            k = k + 1;
        }
        proof {
            reveal_strlit("\n");
        }
        out.append("\n");
        out.append(header.as_str());
        proof {
            assert(out@ =~= preview_text(
                words,
                self.max_guess_count as nat,
                self.word_length as nat,
            ));
        }
        out
    }

    /// Move on to the next round.
    pub fn increment_round(&mut self)
        requires
            old(self).round_count < i32::MAX,
        ensures
            final(self).round_count == old(self).round_count + 1,
            final(self).word_length == old(self).word_length,
            final(self).max_guess_count == old(self).max_guess_count,
            final(self).states == old(self).states,
    {
        self.round_count = self.round_count + 1;
    }

    /// Whether the round being played is the last one allowed.
    pub fn is_final_round(&self) -> (r: bool)
        requires
            self.round_count < i32::MAX,
        ensures
            r == (self.round_count + 1 == (self.max_guess_count as i32) as int),
    {
        (self.round_count + 1) == self.max_guess_count as i32
    }
}

} // verus!
