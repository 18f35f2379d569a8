//! Wordle: guess a hidden five-letter word in six tries; each guess is
//! marked letter by letter as correct, present elsewhere, or absent.
use vstd::prelude::*;

use crate::input::Key;
use crate::input::KeyInput;
use crate::input::KeyKind;
use crate::wordlist::Word;
use crate::wordlist::WORD_LEN;
use crate::wordlist::WORD_TEXT;

verus! {

pub const MAX_GUESSES: usize = 6;

#[derive(Clone, Copy, PartialEq, Eq, Debug, Structural)]
pub enum LetterResult {
    /// Correct letter, correct position.
    Correct,
    /// Correct letter, wrong position.
    Present,
    /// Letter not in word.
    Absent,
}

/// A submitted guess and its marks.
#[derive(Clone, Copy, Debug)]
pub struct Guess {
    pub word: Word,
    pub results: [LetterResult; 5],
}

// ── Scoring a guess ──

/// Position `k` holds letter `x` in the target and is not matched exactly.
pub open spec fn spare(g: Seq<char>, t: Seq<char>, x: char, k: int) -> bool {
    t[k] == x && g[k] != t[k]
}

/// How many of the first `n` target positions are spare `x`s: the `x`s of
/// the target left over once exact matches are taken out.
pub open spec fn spare_count(g: Seq<char>, t: Seq<char>, x: char, n: int) -> int
    decreases n,
{
    if n <= 0 {
        0
    } else {
        spare_count(g, t, x, n - 1) + if spare(g, t, x, n - 1) {
            1int
        } else {
            0int
        }
    }
}

/// How many of the first `n` guess positions are `x`s that are not exact
/// matches.
pub open spec fn misplaced_count(g: Seq<char>, t: Seq<char>, x: char, n: int) -> int
    decreases n,
{
    if n <= 0 {
        0
    } else {
        misplaced_count(g, t, x, n - 1) + if g[n - 1] == x && g[n - 1] != t[n - 1] {
            1int
        } else {
            0int
        }
    }
}

/// The mark of guess letter `i`: correct when it matches the target there;
/// otherwise present while the target still has a spare copy of the letter
/// for it (copies go to the guess's occurrences from left to right), else
/// absent.
pub open spec fn mark(g: Seq<char>, t: Seq<char>, i: int) -> LetterResult {
    if g[i] == t[i] {
        LetterResult::Correct
    } else if misplaced_count(g, t, g[i], i) < spare_count(g, t, g[i], 5) {
        LetterResult::Present
    } else {
        LetterResult::Absent
    }
}

pub open spec fn marks(g: Seq<char>, t: Seq<char>) -> Seq<LetterResult> {
    Seq::new(5, |i: int| mark(g, t, i))
}

proof fn lemma_spare_count_nonneg(g: Seq<char>, t: Seq<char>, x: char, n: int)
    ensures
        0 <= spare_count(g, t, x, n),
        n >= 0 ==> spare_count(g, t, x, n) <= n,
    decreases n,
{
    if n > 0 {
        lemma_spare_count_nonneg(g, t, x, n - 1);
    }
}

proof fn lemma_spare_count_mono(g: Seq<char>, t: Seq<char>, x: char, a: int, b: int)
    requires
        a <= b,
    ensures
        spare_count(g, t, x, a) <= spare_count(g, t, x, b),
    decreases b - a,
{
    if a < b {
        lemma_spare_count_mono(g, t, x, a, b - 1);
    }
}

/// Every count below `spare_count(n)` is reached at some spare position
/// before `n`.
proof fn lemma_spare_at(g: Seq<char>, t: Seq<char>, x: char, n: int, m: int)
    requires
        0 <= m < spare_count(g, t, x, n),
    ensures
        exists|k: int| 0 <= k < n && spare(g, t, x, k) && #[trigger] spare_count(g, t, x, k) == m,
    decreases n,
{
    lemma_spare_count_nonneg(g, t, x, n - 1);
    if m < spare_count(g, t, x, n - 1) {
        lemma_spare_at(g, t, x, n - 1, m);
        let k = choose|k: int| 0 <= k < n - 1 && spare(g, t, x, k) && #[trigger] spare_count(g, t, x, k) == m;
        assert(0 <= k < n && spare(g, t, x, k) && spare_count(g, t, x, k) == m);
    } else {
        assert(spare(g, t, x, n - 1));
        assert(spare_count(g, t, x, n - 1) == m);
    }
}

pub open spec fn min(a: int, b: int) -> int {
    if a < b {
        a
    } else {
        b
    }
}

/// Target position `k` has been handed to a guess letter after the first
/// `i` guess letters were marked.
pub open spec fn taken(g: Seq<char>, t: Seq<char>, i: int, k: int) -> bool {
    g[k] == t[k] || spare_count(g, t, t[k], k) < min(
        misplaced_count(g, t, t[k], i),
        spare_count(g, t, t[k], 5),
    )
}

proof fn lemma_misplaced_nonneg(g: Seq<char>, t: Seq<char>, x: char, n: int)
    ensures
        0 <= misplaced_count(g, t, x, n),
    decreases n,
{
    if n > 0 {
        lemma_misplaced_nonneg(g, t, x, n - 1);
    }
}

/// Spare positions of a letter have increasing counts.
proof fn lemma_spare_rank_distinct(g: Seq<char>, t: Seq<char>, x: char, k1: int, k2: int)
    requires
        0 <= k1 < k2,
        spare(g, t, x, k1),
    ensures
        spare_count(g, t, x, k1) < spare_count(g, t, x, k2),
{
    lemma_spare_count_mono(g, t, x, k1 + 1, k2);
}

/// Marking guess letter `i` leaves the target positions of other letters
/// as they were.
proof fn lemma_taken_same(g: Seq<char>, t: Seq<char>, i: int, k: int)
    requires
        0 <= i < 5,
        !(g[i] != t[i] && t[k] == g[i]),
    ensures
        taken(g, t, i + 1, k) == taken(g, t, i, k),
{
    assert(misplaced_count(g, t, t[k], i + 1) == misplaced_count(g, t, t[k], i));
}

/// Once every spare copy of a letter is handed out, marking another
/// occurrence takes nothing more.
proof fn lemma_taken_full(g: Seq<char>, t: Seq<char>, i: int, k: int)
    requires
        0 <= i < 5,
        g[i] != t[i],
        t[k] == g[i],
        misplaced_count(g, t, g[i], i) >= spare_count(g, t, g[i], 5),
    ensures
        taken(g, t, i + 1, k) == taken(g, t, i, k),
{
    assert(misplaced_count(g, t, t[k], i + 1) == misplaced_count(g, t, t[k], i) + 1);
}

/// Marking an occurrence while spare copies remain takes exactly the spare
/// copy of the next rank.
proof fn lemma_taken_grab(g: Seq<char>, t: Seq<char>, i: int, k: int, k0: int)
    requires
        0 <= i < 5,
        0 <= k < 5,
        0 <= k0 < 5,
        g[i] != t[i],
        t[k] == g[i],
        misplaced_count(g, t, g[i], i) < spare_count(g, t, g[i], 5),
        spare(g, t, g[i], k0),
        spare_count(g, t, g[i], k0) == misplaced_count(g, t, g[i], i),
    ensures
        taken(g, t, i + 1, k) == (taken(g, t, i, k) || k == k0),
{
    let x = g[i];
    assert(misplaced_count(g, t, x, i + 1) == misplaced_count(g, t, x, i) + 1);
    if g[k] != t[k] && k != k0 {
        if k < k0 {
            lemma_spare_rank_distinct(g, t, x, k, k0);
        } else {
            lemma_spare_rank_distinct(g, t, x, k0, k);
        }
    }
}

/// Marks each letter of `guess` against `target` (see `mark`).
pub fn evaluate(guess: &Word, target: &Word) -> (results: [LetterResult; 5])
    ensures
        results@ == marks(guess@, target@),
{
    let ghost g = guess@;
    let ghost t = target@;
    let mut results = [LetterResult::Absent;5];
    let mut target_used = [false;5];

    // First pass: mark correct positions
    let mut i: usize = 0;
    while i < WORD_LEN
        invariant
            0 <= i <= 5,
            g == guess@,
            t == target@,
            forall|k: int| 0 <= k < i ==> target_used@[k] == (g[k] == t[k]),
            forall|k: int| i <= k < 5 ==> !target_used@[k],
            forall|k: int|
                0 <= k < i ==> results@[k] == (if g[k] == t[k] {
                    LetterResult::Correct
                } else {
                    LetterResult::Absent
                }),
            forall|k: int| i <= k < 5 ==> results@[k] == LetterResult::Absent,
        decreases 5 - i,
    {
        if guess[i] == target[i] {
            results[i] = LetterResult::Correct;
            target_used[i] = true;
        }
        i = i + 1;
    }

    // Second pass: mark present letters
    proof {
        assert forall|k: int| 0 <= k < 5 implies target_used@[k] == taken(g, t, 0, k) by {
            lemma_spare_count_nonneg(g, t, t[k], k);
            lemma_spare_count_nonneg(g, t, t[k], 5);
        }
    }
    let mut i: usize = 0;
    while i < WORD_LEN
        invariant
            0 <= i <= 5,
            g == guess@,
            t == target@,
            forall|k: int| 0 <= k < 5 ==> target_used@[k] == taken(g, t, i as int, k),
            forall|k: int| 0 <= k < i ==> results@[k] == mark(g, t, k),
            forall|k: int|
                i <= k < 5 ==> results@[k] == (if g[k] == t[k] {
                    LetterResult::Correct
                } else {
                    LetterResult::Absent
                }),
        decreases 5 - i,
    {
        let ghost used0 = target_used@;
        let ghost res0 = results@;
        if guess[i] != target[i] {
            let ghost x = g[i as int];
            let ghost u = min(misplaced_count(g, t, x, i as int), spare_count(g, t, x, 5));
            proof {
                lemma_misplaced_nonneg(g, t, x, i as int);
                lemma_spare_count_nonneg(g, t, x, 5);
            }
            let mut found = false;
            let mut j: usize = 0;
            while j < WORD_LEN && !found
                invariant
                    0 <= j <= 5,
                    0 <= i < 5,
                    g == guess@,
                    t == target@,
                    x == g[i as int],
                    g[i as int] != t[i as int],
                    u == min(misplaced_count(g, t, x, i as int), spare_count(g, t, x, 5)),
                    0 <= u,
                    forall|k: int| 0 <= k < 5 ==> used0[k] == taken(g, t, i as int, k),
                    !found ==> target_used@ == used0,
                    !found ==> results@[i as int] == LetterResult::Absent,
                    !found ==> forall|k: int| 0 <= k < j ==> !(!used0[k] && t[k] == x),
                    found ==> {
                        &&& results@[i as int] == LetterResult::Present
                        &&& u < spare_count(g, t, x, 5)
                        &&& exists|k: int|
                            0 <= k < 5 && spare(g, t, x, k) && #[trigger] spare_count(g, t, x, k)
                                == u && target_used@ == used0.update(k, true) && !used0[k]
                    },
                    forall|k: int| 0 <= k < 5 && k != i ==> results@[k] == res0[k],
                decreases 5 - j + if found {
                    0int
                } else {
                    1int
                },
            {
                if !target_used[j] && guess[i] == target[j] {
                    proof {
                        let jj = j as int;
                        assert(spare(g, t, x, jj));
                        assert(!used0[jj]);
                        assert(!taken(g, t, i as int, jj));
                        assert(spare_count(g, t, x, jj) >= u);
                        lemma_spare_count_nonneg(g, t, x, jj);
                        // every spare x before j is taken, so its rank is below u
                        if spare_count(g, t, x, jj) > 0 {
                            lemma_spare_at(g, t, x, jj, spare_count(g, t, x, jj) - 1);
                            let p = choose|p: int|
                                0 <= p < jj && spare(g, t, x, p) && #[trigger] spare_count(g, t, x, p)
                                    == spare_count(g, t, x, jj) - 1;
                            assert(!(!used0[p] && t[p] == x));
                            assert(used0[p]);
                            assert(taken(g, t, i as int, p));
                        }
                        assert(spare_count(g, t, x, jj) == u);
                        lemma_spare_count_mono(g, t, x, jj + 1, 5);
                        assert(u < spare_count(g, t, x, 5));
                    }
                    results[i] = LetterResult::Present;
                    target_used[j] = true;
                    found = true;
                    proof {
                        let jj = j as int;
                        assert(target_used@ == used0.update(jj, true));
                        assert(spare(g, t, x, jj) && spare_count(g, t, x, jj) == u && !used0[jj]);
                    }
                } else {
                    j = j + 1;
                }
            }
            proof {
                if !found {
                    // no spare x is left untaken: all spare copies are used up
                    if u < spare_count(g, t, x, 5) {
                        lemma_spare_at(g, t, x, 5, u);
                        let k = choose|k: int|
                            0 <= k < 5 && spare(g, t, x, k) && #[trigger] spare_count(g, t, x, k) == u;
                        assert(!used0[k]);
                    }
                }
            }
        }
        proof {
            let ii = i as int;
            assert(misplaced_count(g, t, g[ii], ii + 1) == misplaced_count(g, t, g[ii], ii) + if g[ii]
                != t[ii] {
                1int
            } else {
                0int
            });
            if g[ii] == t[ii] {
                assert forall|k: int| 0 <= k < 5 implies target_used@[k] == taken(g, t, ii + 1, k) by {
                    lemma_taken_same(g, t, ii, k);
                }
            } else if misplaced_count(g, t, g[ii], ii) >= spare_count(g, t, g[ii], 5) {
                assert forall|k: int| 0 <= k < 5 implies target_used@[k] == taken(g, t, ii + 1, k) by {
                    if t[k] == g[ii] {
                        lemma_taken_full(g, t, ii, k);
                    } else {
                        lemma_taken_same(g, t, ii, k);
                    }
                }
            } else {
                let k0 = choose|k: int|
                    0 <= k < 5 && spare(g, t, g[ii], k) && #[trigger] spare_count(g, t, g[ii], k)
                        == min(misplaced_count(g, t, g[ii], ii), spare_count(g, t, g[ii], 5))
                        && target_used@ == used0.update(k, true) && !used0[k];
                assert forall|k: int| 0 <= k < 5 implies target_used@[k] == taken(g, t, ii + 1, k) by {
                    if t[k] == g[ii] {
                        lemma_taken_grab(g, t, ii, k, k0);
                    } else {
                        lemma_taken_same(g, t, ii, k);
                    }
                }
            }
            assert(results@[ii] == mark(g, t, ii));
        }
        i = i + 1;
    }
    assert(results@ =~= marks(g, t));
    results
}

/// All five marks are correct exactly when the guess is the target.
pub proof fn lemma_all_correct_iff_target(g: Seq<char>, t: Seq<char>)
    requires
        g.len() == 5,
        t.len() == 5,
    ensures
        (forall|i: int| 0 <= i < 5 ==> #[trigger] mark(g, t, i) == LetterResult::Correct) <==> g
            == t,
{
    if forall|i: int| 0 <= i < 5 ==> #[trigger] mark(g, t, i) == LetterResult::Correct {
        assert forall|i: int| 0 <= i < 5 implies g[i] == t[i] by {
            assert(mark(g, t, i) == LetterResult::Correct);
        }
        assert(g =~= t);
    }
}

// ── The game ──

pub const NOT_ENOUGH_LETTERS: &'static str = "Not enough letters";

pub const NOT_IN_WORD_LIST: &'static str = "Invalid word (not in word list)";

/// The seed used when the clock cannot be read.
pub const FALLBACK_SEED: u32 = 0xDEAD;

/// The generator seed for a clock reading: its low 32 bits, made odd (a
/// fixed fallback when there is no reading).
pub fn seed_from_millis(ms: Option<u128>) -> (seed: u32)
    ensures
        seed == (match ms {
            Some(m) => (m % 0x1_0000_0000) as u32,
            None => FALLBACK_SEED,
        }) | 1u32,
        seed != 0,
{
    let base: u32 = match ms {
        Some(m) => (m % 0x1_0000_0000) as u32,
        None => FALLBACK_SEED,
    };
    let seed = base | 1u32;
    assert(seed != 0) by (bit_vector)
        requires
            seed == base | 1u32,
    ;
    seed
}

/// The word of the built-in list that generator value `r` picks: the list
/// in alphabetical order, indexed by `r` modulo its length.
pub open spec fn drawn_word(r: u32) -> Seq<char> {
    let words = crate::wordlist::builtin_words();
    words[(r as int) % (words.len() as int)]
}

pub open spec fn lower(c: char) -> char {
    if 'A' <= c <= 'Z' {
        ((c as u32) + 32) as char
    } else {
        c
    }
}

pub open spec fn is_letter(c: char) -> bool {
    ('a' <= c <= 'z') || ('A' <= c <= 'Z')
}

pub open spec fn str_view(m: Option<&'static str>) -> Option<Seq<char>> {
    match m {
        Some(s) => Some(s@),
        None => None,
    }
}

pub struct WordleGame {
    target: Word,
    guesses: Vec<Guess>,
    current_input: Vec<char>,
    won: bool,
    game_over: bool,
    rng: u32,
    message: Option<&'static str>,
}

impl WordleGame {
    pub closed spec fn target_view(&self) -> Seq<char> {
        self.target@
    }

    pub closed spec fn guesses_view(&self) -> Seq<Guess> {
        self.guesses@
    }

    pub closed spec fn input_view(&self) -> Seq<char> {
        self.current_input@
    }

    pub closed spec fn won_view(&self) -> bool {
        self.won
    }

    pub closed spec fn over_view(&self) -> bool {
        self.game_over
    }

    pub closed spec fn rng_view(&self) -> u32 {
        self.rng
    }

    pub closed spec fn message_view(&self) -> Option<Seq<char>> {
        str_view(self.message)
    }

    /// Everything but the generator state is the same in both games.
    pub open spec fn same_but_rng(&self, other: WordleGame) -> bool {
        &&& self.target_view() == other.target_view()
        &&& self.guesses_view() == other.guesses_view()
        &&& self.input_view() == other.input_view()
        &&& self.won_view() == other.won_view()
        &&& self.over_view() == other.over_view()
        &&& self.message_view() == other.message_view()
    }

    /// A new game whose word is drawn with the generator seeded from the
    /// clock.
    pub fn new() -> (g: Self)
        ensures
            g.guesses_view().len() == 0,
            g.input_view().len() == 0,
            !g.won_view(),
            !g.over_view(),
            g.message_view() is None,
            exists|seed: u32| seed != 0 && #[trigger] crate::rng::xorshift_next(seed) == g.rng_view(),
            g.target_view() == drawn_word(g.rng_view()),
    {
        let seed = seed_from_millis(crate::clock::unix_millis());
        Self::with_seed(seed)
    }

    /// A new game whose word is drawn with the generator seeded with `seed`.
    pub fn with_seed(seed: u32) -> (g: Self)
        ensures
            g.guesses_view().len() == 0,
            g.input_view().len() == 0,
            !g.won_view(),
            !g.over_view(),
            g.message_view() is None,
            g.rng_view() == crate::rng::xorshift_next(seed),
            g.target_view() == drawn_word(g.rng_view()),
    {
        let mut game = WordleGame {
            target: ['a';5],
            guesses: Vec::new(),
            current_input: Vec::new(),
            won: false,
            game_over: false,
            rng: seed,
            message: None,
        };
        game.pick_word();
        game
    }

    /// Advances the xorshift generator and returns its new state.
    pub fn rand_u32(&mut self) -> (r: u32)
        ensures
            r == crate::rng::xorshift_next(old(self).rng_view()),
            final(self).rng_view() == r,
            final(self).same_but_rng(*old(self)),
    {
        let s = crate::rng::xorshift32(self.rng);
        self.rng = s;
        s
    }

    /// Draws the target word: the generator's next value, modulo the
    /// number of words, indexes the alphabetical list.
    fn pick_word(&mut self)
        ensures
            final(self).rng == crate::rng::xorshift_next(old(self).rng),
            final(self).target@ == drawn_word(final(self).rng),
            final(self).guesses == old(self).guesses,
            final(self).current_input == old(self).current_input,
            final(self).won == old(self).won,
            final(self).game_over == old(self).game_over,
            final(self).message == old(self).message,
    {
        let words = crate::wordlist::word_list();
        self.rng = crate::rng::xorshift32(self.rng);
        let idx = (self.rng as usize) % words.len();
        assert(crate::wordlist::words_of(words@)[idx as int] == words@[idx as int]@);
        self.target = words[idx];
    }

    /// Marks `guess` against the target word.
    pub fn evaluate_guess(&self, guess: &Word) -> (results: [LetterResult; 5])
        ensures
            results@ == marks(guess@, self.target_view()),
    {
        evaluate(guess, &self.target)
    }

    /// Submits the typed word: it must have five letters and be in the word
    /// list (else a message says why); a valid guess is marked and recorded,
    /// and the game ends when it is right or the sixth guess is used.
    pub fn submit_guess(&mut self)
        ensures
            final(self).target_view() == old(self).target_view(),
            final(self).rng_view() == old(self).rng_view(),
            old(self).input_view().len() != 5 ==> {
                &&& final(self).message_view() == Some(NOT_ENOUGH_LETTERS@)
                &&& final(self).guesses_view() == old(self).guesses_view()
                &&& final(self).input_view() == old(self).input_view()
                &&& final(self).won_view() == old(self).won_view()
                &&& final(self).over_view() == old(self).over_view()
            },
            old(self).input_view().len() == 5 && !crate::wordlist::listed(WORD_TEXT@, old(self).input_view()) ==> {
                &&& final(self).message_view() == Some(NOT_IN_WORD_LIST@)
                &&& final(self).guesses_view() == old(self).guesses_view()
                &&& final(self).input_view() == old(self).input_view()
                &&& final(self).won_view() == old(self).won_view()
                &&& final(self).over_view() == old(self).over_view()
            },
            old(self).input_view().len() == 5 && crate::wordlist::listed(WORD_TEXT@, old(self).input_view()) ==> {
                let w = old(self).input_view();
                let right = w == old(self).target_view();
                let n = old(self).guesses_view().len() + 1;
                &&& final(self).guesses_view().len() == n
                &&& final(self).guesses_view().take(n - 1) == old(self).guesses_view()
                &&& final(self).guesses_view()[n - 1].word@ == w
                &&& final(self).guesses_view()[n - 1].results@ == marks(w, old(self).target_view())
                &&& final(self).input_view().len() == 0
                &&& final(self).message_view() is None
                &&& final(self).won_view() == (old(self).won_view() || right)
                &&& final(self).over_view() == (old(self).over_view() || right || n >= MAX_GUESSES)
            },
    {
        if self.current_input.len() != WORD_LEN {
            self.message = Some(NOT_ENOUGH_LETTERS);
            return;
        }

        let word: Word = [
            self.current_input[0],
            self.current_input[1],
            self.current_input[2],
            self.current_input[3],
            self.current_input[4],
        ];
        assert(word@ =~= self.current_input@);

        if !is_listed_word(&word) {
            self.message = Some(NOT_IN_WORD_LIST);
            return;
        }

        let results = self.evaluate_guess(&word);
        let mut all_correct = true;
        let mut i: usize = 0;
        while i < WORD_LEN
            invariant
                0 <= i <= 5,
                all_correct == forall|k: int| 0 <= k < i ==> results@[k] == LetterResult::Correct,
            decreases 5 - i,
        {
            match results[i] {
                LetterResult::Correct => {},
                _ => {
                    all_correct = false;
                },
            }
            i = i + 1;
        }
        proof {
            lemma_all_correct_iff_target(word@, self.target@);
            assert(all_correct == (word@ == self.target@)) by {
                if all_correct {
                    assert forall|k: int| 0 <= k < 5 implies #[trigger] mark(
                        word@,
                        self.target@,
                        k,
                    ) == LetterResult::Correct by {
                        assert(results@[k] == mark(word@, self.target@, k));
                    }
                } else if word@ == self.target@ {
                    let k = choose|k: int| 0 <= k < 5 && results@[k] != LetterResult::Correct;
                    assert(results@[k] == mark(word@, self.target@, k));
                }
            }
        }

        let ghost before = self.guesses@;
        self.guesses.push(Guess { word, results });
        assert(self.guesses@.take(before.len() as int) =~= before);
        self.current_input.clear();
        self.message = None;

        if all_correct {
            self.won = true;
            self.game_over = true;
        } else if self.guesses.len() >= MAX_GUESSES {
            self.game_over = true;
        }
    }

    /// Starts a new round with a new word.
    pub fn reset(&mut self)
        ensures
            final(self).guesses_view().len() == 0,
            final(self).input_view().len() == 0,
            !final(self).won_view(),
            !final(self).over_view(),
            final(self).message_view() is None,
            final(self).rng_view() == crate::rng::xorshift_next(old(self).rng_view()),
            final(self).target_view() == drawn_word(final(self).rng_view()),
    {
        self.guesses.clear();
        self.current_input.clear();
        self.won = false;
        self.game_over = false;
        self.message = None;
        self.pick_word();
    }

    /// Handles a key: letters are typed (lower-cased, at most five),
    /// Backspace deletes, Enter submits; once the game is over Enter/Space
    /// start a new round. Returns whether the key was used.
    pub fn handle_key_event(&mut self, key: KeyInput) -> (consumed: bool)
        ensures
            key.kind != KeyKind::Press ==> !consumed && *final(self) == *old(self),
            key.kind == KeyKind::Press && old(self).over_view() ==> if crate::input::is_restart_key(
                key.key,
            ) {
                &&& consumed
                &&& final(self).guesses_view().len() == 0
                &&& final(self).input_view().len() == 0
                &&& !final(self).won_view()
                &&& !final(self).over_view()
                &&& final(self).message_view() is None
                &&& final(self).rng_view() == crate::rng::xorshift_next(old(self).rng_view())
                &&& final(self).target_view() == drawn_word(final(self).rng_view())
            } else {
                !consumed && *final(self) == *old(self)
            },
            key.kind == KeyKind::Press && !old(self).over_view() ==> match key.key {
                Key::Char(c) => if is_letter(c) {
                    &&& consumed
                    &&& final(self).target_view() == old(self).target_view()
                    &&& final(self).guesses_view() == old(self).guesses_view()
                    &&& final(self).won_view() == old(self).won_view()
                    &&& final(self).over_view() == old(self).over_view()
                    &&& final(self).rng_view() == old(self).rng_view()
                    &&& if old(self).input_view().len() < 5 {
                        &&& final(self).input_view() == old(self).input_view().push(lower(c))
                        &&& final(self).message_view() is None
                    } else {
                        &&& final(self).input_view() == old(self).input_view()
                        &&& final(self).message_view() == old(self).message_view()
                    }
                } else {
                    !consumed && *final(self) == *old(self)
                },
                Key::Backspace => {
                    &&& consumed
                    &&& final(self).target_view() == old(self).target_view()
                    &&& final(self).guesses_view() == old(self).guesses_view()
                    &&& final(self).won_view() == old(self).won_view()
                    &&& final(self).over_view() == old(self).over_view()
                    &&& final(self).rng_view() == old(self).rng_view()
                    &&& final(self).input_view() == if old(self).input_view().len() > 0 {
                        old(self).input_view().drop_last()
                    } else {
                        old(self).input_view()
                    }
                    &&& final(self).message_view() is None
                },
                Key::Enter => consumed && submitted(*old(self), *final(self)),
                _ => !consumed && *final(self) == *old(self),
            },
    {
        if key.kind != KeyKind::Press {
            return false;
        }

        if self.game_over {
            if crate::input::restart_key(key.key) {
                self.reset();
                return true;
            }
            return false;
        }

        match key.key {
            Key::Char(c) => {
                if ('a' <= c && c <= 'z') || ('A' <= c && c <= 'Z') {
                    if self.current_input.len() < WORD_LEN {
                        self.current_input.push(to_lower(c));
                        self.message = None;
                    }
                    true
                } else {
                    false
                }
            },
            Key::Backspace => {
                self.current_input.pop();
                self.message = None;
                true
            },
            Key::Enter => {
                let ghost pre = *self;
                self.submit_guess();
                assert(submitted(pre, *self));
                true
            },
            _ => false,
        }
    }

    pub fn target(&self) -> (w: Word)
        ensures
            w@ == self.target_view(),
    {
        self.target
    }

    pub fn guesses(&self) -> (g: &Vec<Guess>)
        ensures
            g@ == self.guesses_view(),
    {
        &self.guesses
    }

    pub fn current_input(&self) -> (i: &Vec<char>)
        ensures
            i@ == self.input_view(),
    {
        &self.current_input
    }

    /// Replaces the typed letters.
    pub fn set_current_input(&mut self, input: Vec<char>)
        ensures
            final(self).input_view() == input@,
            final(self).target_view() == old(self).target_view(),
            final(self).guesses_view() == old(self).guesses_view(),
            final(self).won_view() == old(self).won_view(),
            final(self).over_view() == old(self).over_view(),
            final(self).rng_view() == old(self).rng_view(),
            final(self).message_view() == old(self).message_view(),
    {
        self.current_input = input;
    }

    pub fn won(&self) -> (b: bool)
        ensures
            b == self.won_view(),
    {
        self.won
    }

    pub fn is_game_over(&self) -> (b: bool)
        ensures
            b == self.over_view(),
    {
        self.game_over
    }

    pub fn message(&self) -> (m: Option<&'static str>)
        ensures
            str_view(m) == self.message_view(),
    {
        self.message
    }
}

/// `post` is `pre` after the typed word was submitted.
pub open spec fn submitted(pre: WordleGame, post: WordleGame) -> bool {
    &&& post.target_view() == pre.target_view()
    &&& post.rng_view() == pre.rng_view()
    &&& pre.input_view().len() != 5 ==> {
        &&& post.message_view() == Some(NOT_ENOUGH_LETTERS@)
        &&& post.guesses_view() == pre.guesses_view()
        &&& post.input_view() == pre.input_view()
        &&& post.won_view() == pre.won_view()
        &&& post.over_view() == pre.over_view()
    }
    &&& pre.input_view().len() == 5 && !crate::wordlist::listed(WORD_TEXT@, pre.input_view()) ==> {
        &&& post.message_view() == Some(NOT_IN_WORD_LIST@)
        &&& post.guesses_view() == pre.guesses_view()
        &&& post.input_view() == pre.input_view()
        &&& post.won_view() == pre.won_view()
        &&& post.over_view() == pre.over_view()
    }
    &&& pre.input_view().len() == 5 && crate::wordlist::listed(WORD_TEXT@, pre.input_view()) ==> {
        let w = pre.input_view();
        let right = w == pre.target_view();
        let n = pre.guesses_view().len() + 1;
        &&& post.guesses_view().len() == n
        &&& post.guesses_view().take(n - 1) == pre.guesses_view()
        &&& post.guesses_view()[n - 1].word@ == w
        &&& post.guesses_view()[n - 1].results@ == marks(w, pre.target_view())
        &&& post.input_view().len() == 0
        &&& post.message_view() is None
        &&& post.won_view() == (pre.won_view() || right)
        &&& post.over_view() == (pre.over_view() || right || n >= MAX_GUESSES)
    }
}

/// The lower-case form of an ASCII letter.
pub fn to_lower(c: char) -> (l: char)
    ensures
        l == lower(c),
{
    if 'A' <= c && c <= 'Z' {
        ((c as u8) + 32) as char
    } else {
        c
    }
}

/// Whether a word is in the built-in word list.
pub fn is_listed_word(w: &Word) -> (b: bool)
    ensures
        b == crate::wordlist::listed(WORD_TEXT@, w@),
{
    let words = crate::wordlist::word_list();
    crate::wordlist::contains_word(&words, w)
}

/// How many of the first `n` guess letters are `x`s marked present.
pub open spec fn present_count(g: Seq<char>, t: Seq<char>, x: char, n: int) -> int
    decreases n,
{
    if n <= 0 {
        0
    } else {
        present_count(g, t, x, n - 1) + if g[n - 1] == x && mark(g, t, n - 1)
            == LetterResult::Present {
            1int
        } else {
            0int
        }
    }
}

/// A letter is marked present as often as it is misplaced in the guess,
/// but never more often than the target has spare copies of it.
pub proof fn lemma_present_count(g: Seq<char>, t: Seq<char>, x: char, n: int)
    requires
        0 <= n <= 5,
    ensures
        present_count(g, t, x, n) == min(misplaced_count(g, t, x, n), spare_count(g, t, x, 5)),
    decreases n,
{
    lemma_spare_count_nonneg(g, t, x, 5);
    if n > 0 {
        lemma_present_count(g, t, x, n - 1);
        lemma_misplaced_nonneg(g, t, x, n - 1);
    }
}

/// What a letter square of the grid shows.
#[derive(Clone, Copy, PartialEq, Eq, Debug, Structural)]
pub enum Square {
    /// A letter of a submitted guess, with its mark.
    Marked(char, LetterResult),
    /// A letter being typed.
    Typed(char),
    Blank,
}

impl WordleGame {
    /// What square `col` of grid row `row` shows: the submitted guesses fill
    /// the top rows, the letters being typed the row below them.
    pub fn square_at(&self, row: usize, col: usize) -> (sq: Square)
        requires
            col < WORD_LEN,
        ensures
            sq == (if row < self.guesses_view().len() {
                Square::Marked(
                    self.guesses_view()[row as int].word@[col as int],
                    self.guesses_view()[row as int].results@[col as int],
                )
            } else if row == self.guesses_view().len() && col < self.input_view().len() {
                Square::Typed(self.input_view()[col as int])
            } else {
                Square::Blank
            }),
    {
        if row < self.guesses.len() {
            let g = &self.guesses[row];
            Square::Marked(g.word[col], g.results[col])
        } else if row == self.guesses.len() && col < self.current_input.len() {
            Square::Typed(self.current_input[col])
        } else {
            Square::Blank
        }
    }
}

} // verus!
