//! The Wordle word list: parsed from text, one word per line. Lines are
//! trimmed of white space; five-letter lower-case words are kept, sorted
//! and without repeats.
//!
//! The list is a sorted vector rather than a hash set of strings, and it is
//! parsed when asked for rather than cached in a process-wide cell: Verus
//! gives no specification of hash-set membership for string keys to prove
//! the look-up against, and a once-initialised cache lives in a `static`,
//! whose contents Verus does not follow from one call to the next. A game
//! parses the list when it draws a word and when it checks a guess, which
//! it looks up by binary search.
use vstd::prelude::*;

verus! {

pub const WORD_LEN: usize = 5;

/// A five-letter word.
pub type Word = [char; 5];

/// The characters of a string.
pub fn chars_of(s: &str) -> (v: Vec<char>)
    ensures
        v@ == s@,
{
    let mut v: Vec<char> = Vec::new();
    for c in it: s.chars()
        invariant
            v@ == it.seq().take(it.index() as int),
    {
        v.push(c);
    }
    v
}

/// White space as Unicode defines it (the `White_Space` property).
pub open spec fn is_space(c: char) -> bool {
    let x = c as u32;
    ||| 0x09 <= x <= 0x0D
    ||| x == 0x20
    ||| x == 0x85
    ||| x == 0xA0
    ||| x == 0x1680
    ||| 0x2000 <= x <= 0x200A
    ||| x == 0x2028
    ||| x == 0x2029
    ||| x == 0x202F
    ||| x == 0x205F
    ||| x == 0x3000
}

pub fn is_white_space(c: char) -> (b: bool)
    ensures
        b == is_space(c),
{
    let x = c as u32;
    (0x09 <= x && x <= 0x0D) || x == 0x20 || x == 0x85 || x == 0xA0 || x == 0x1680 || (0x2000
        <= x && x <= 0x200A) || x == 0x2028 || x == 0x2029 || x == 0x202F || x == 0x205F || x
        == 0x3000
}

pub open spec fn is_lower(c: char) -> bool {
    'a' <= c <= 'z'
}

/// Five lower-case ASCII letters.
pub open spec fn is_word(w: Seq<char>) -> bool {
    w.len() == 5 && forall|i: int| 0 <= i < 5 ==> is_lower(#[trigger] w[i])
}

/// The first index at or after `k` (and before `hi`) that is not white
/// space, or `hi`.
pub open spec fn skip_space(t: Seq<char>, k: int, hi: int) -> int
    decreases hi - k,
{
    if k < hi && is_space(t[k]) {
        skip_space(t, k + 1, hi)
    } else {
        k
    }
}

/// The end, at or before `k` (and after `lo`), of the text before trailing
/// white space.
pub open spec fn back_space(t: Seq<char>, lo: int, k: int) -> int
    decreases k - lo,
{
    if k > lo && is_space(t[k - 1]) {
        back_space(t, lo, k - 1)
    } else {
        k
    }
}

/// The text between `a` and `b` without leading and trailing white space.
pub open spec fn trimmed(t: Seq<char>, a: int, b: int) -> Seq<char> {
    let s = skip_space(t, a, b);
    t.subrange(s, back_space(t, s, b))
}

/// t[a..b] is a whole line of the text: it starts at the beginning or after
/// a newline, ends at the end or before a newline, and holds no newline.
pub open spec fn is_line(t: Seq<char>, a: int, b: int) -> bool {
    &&& 0 <= a <= b <= t.len()
    &&& (a == 0 || t[a - 1] == '\n')
    &&& (b == t.len() || t[b] == '\n')
    &&& forall|k: int| a <= k < b ==> t[k] != '\n'
}

/// The line t[a..b], trimmed, reads `w`.
pub open spec fn line_reads(t: Seq<char>, a: int, b: int, w: Seq<char>) -> bool {
    is_line(t, a, b) && trimmed(t, a, b) == w
}

/// `w` is a word of the list in text `t`: some line of `t`, trimmed, is the
/// five-letter lower-case word `w`.
pub open spec fn listed(t: Seq<char>, w: Seq<char>) -> bool {
    &&& is_word(w)
    &&& exists|a: int, b: int| #[trigger] line_reads(t, a, b, w)
}

/// `w` is listed on a line that ends before position `i`.
pub open spec fn listed_before(t: Seq<char>, w: Seq<char>, i: int) -> bool {
    &&& is_word(w)
    &&& exists|a: int, b: int| #[trigger] line_reads(t, a, b, w) && b < i
}

/// A line is determined by where it ends.
proof fn lemma_line_unique(t: Seq<char>, a1: int, a2: int, b: int)
    requires
        is_line(t, a1, b),
        is_line(t, a2, b),
    ensures
        a1 == a2,
{
    if a1 < a2 {
        assert(t[a2 - 1] == '\n');
    }
    if a2 < a1 {
        assert(t[a1 - 1] == '\n');
    }
}

/// Alphabetical order of five-letter words, from position `i` on.
pub open spec fn lt_from(a: Seq<char>, b: Seq<char>, i: int) -> bool
    decreases 5 - i,
{
    if i >= 5 || i < 0 {
        false
    } else if (a[i] as int) < (b[i] as int) {
        true
    } else if (a[i] as int) > (b[i] as int) {
        false
    } else {
        lt_from(a, b, i + 1)
    }
}

pub open spec fn word_lt(a: Seq<char>, b: Seq<char>) -> bool {
    lt_from(a, b, 0)
}

pub open spec fn words_of(v: Seq<Word>) -> Seq<Seq<char>> {
    v.map_values(|w: Word| w@)
}

/// Strictly increasing in alphabetical order (so without repeats).
pub open spec fn sorted_words(v: Seq<Word>) -> bool {
    forall|i: int, j: int| 0 <= i < j < v.len() ==> word_lt(v[i]@, v[j]@)
}

proof fn lemma_lt_irreflexive(a: Seq<char>, i: int)
    ensures
        !lt_from(a, a, i),
    decreases 5 - i,
{
    if 0 <= i < 5 {
        lemma_lt_irreflexive(a, i + 1);
    }
}

proof fn lemma_lt_trans(a: Seq<char>, b: Seq<char>, c: Seq<char>, i: int)
    requires
        lt_from(a, b, i),
        lt_from(b, c, i),
    ensures
        lt_from(a, c, i),
    decreases 5 - i,
{
    if 0 <= i < 5 && a[i] == b[i] && b[i] == c[i] {
        lemma_lt_trans(a, b, c, i + 1);
    }
}

proof fn lemma_lt_total(a: Seq<char>, b: Seq<char>, i: int)
    requires
        0 <= i <= 5,
        a.len() == 5,
        b.len() == 5,
        a.subrange(i, 5) != b.subrange(i, 5),
    ensures
        lt_from(a, b, i) || lt_from(b, a, i),
    decreases 5 - i,
{
    if i == 5 {
        assert(a.subrange(5, 5) =~= b.subrange(5, 5));
    } else if a[i] == b[i] {
        assert(a.subrange(i + 1, 5) != b.subrange(i + 1, 5)) by {
            if a.subrange(i + 1, 5) == b.subrange(i + 1, 5) {
                assert(a.subrange(i, 5) =~= b.subrange(i, 5)) by {
                    assert forall|k: int| 0 <= k < 5 - i implies a.subrange(i, 5)[k] == b.subrange(
                        i,
                        5,
                    )[k] by {
                        if k > 0 {
                            assert(a.subrange(i + 1, 5)[k - 1] == b.subrange(i + 1, 5)[k - 1]);
                        }
                    }
                }
            }
        }
        lemma_lt_total(a, b, i + 1);
    }
}

/// Whether `a` comes strictly before `b` alphabetically.
pub fn word_less(a: &Word, b: &Word) -> (lt: bool)
    ensures
        lt == word_lt(a@, b@),
{
    let mut i: usize = 0;
    while i < 5
        invariant
            0 <= i <= 5,
            lt_from(a@, b@, 0) == lt_from(a@, b@, i as int),
        decreases 5 - i,
    {
        let x = a[i];
        let y = b[i];
        if x < y {
            return true;
        }
        if x > y {
            return false;
        }
        i = i + 1;
    }
    false
}

pub fn same_word(a: &Word, b: &Word) -> (eq: bool)
    ensures
        eq == (a@ == b@),
{
    let mut i: usize = 0;
    while i < 5
        invariant
            0 <= i <= 5,
            forall|k: int| 0 <= k < i ==> a@[k] == b@[k],
        decreases 5 - i,
    {
        if a[i] != b[i] {
            return false;
        }
        i = i + 1;
    }
    assert(a@ =~= b@);
    true
}

/// Whether a sorted list holds the word, by binary search.
pub fn contains_word(words: &Vec<Word>, w: &Word) -> (found: bool)
    requires
        sorted_words(words@),
    ensures
        found == words_of(words@).contains(w@),
{
    let mut lo: usize = 0;
    let mut hi: usize = words.len();
    while lo < hi
        invariant
            0 <= lo <= hi <= words@.len(),
            sorted_words(words@),
            forall|k: int| 0 <= k < lo ==> words@[k]@ != w@,
            forall|k: int| hi <= k < words@.len() ==> words@[k]@ != w@,
        decreases hi - lo,
    {
        let mid = lo + (hi - lo) / 2;
        if same_word(&words[mid], w) {
            assert(words_of(words@)[mid as int] == w@);
            return true;
        }
        if word_less(&words[mid], w) {
            proof {
                assert forall|k: int| 0 <= k <= mid implies words@[k]@ != w@ by {
                    if k < mid {
                        assert(word_lt(words@[k]@, words@[mid as int]@));
                        lemma_lt_trans(words@[k]@, words@[mid as int]@, w@, 0);
                    }
                    lemma_lt_irreflexive(w@, 0);
                }
            }
            lo = mid + 1;
        } else {
            proof {
                assert(words@[mid as int]@.subrange(0, 5) =~= words@[mid as int]@);
                assert(w@.subrange(0, 5) =~= w@);
                lemma_lt_total(words@[mid as int]@, w@, 0);
                assert forall|k: int| mid <= k < words@.len() implies words@[k]@ != w@ by {
                    if k > mid {
                        assert(word_lt(words@[mid as int]@, words@[k]@));
                        lemma_lt_trans(w@, words@[mid as int]@, words@[k]@, 0);
                    }
                    lemma_lt_irreflexive(w@, 0);
                }
            }
            hi = mid;
        }
    }
    proof {
        if words_of(words@).contains(w@) {
            let k = choose|k: int| 0 <= k < words_of(words@).len() && words_of(words@)[k] == w@;
            assert(words@[k]@ == w@);
        }
    }
    false
}

/// Inserts a word into a sorted list unless it is already there.
pub fn insert_word(words: &mut Vec<Word>, w: Word)
    requires
        sorted_words(old(words)@),
    ensures
        sorted_words(final(words)@),
        forall|x: Seq<char>|
            #![trigger words_of(final(words)@).contains(x)]
            words_of(final(words)@).contains(x) <==> (words_of(old(words)@).contains(x) || x
                == w@),
{
    let ghost v0 = words@;
    let mut i: usize = 0;
    while i < words.len()
        invariant_except_break
            0 <= i <= words@.len(),
            words@ == v0,
            sorted_words(v0),
            forall|k: int| 0 <= k < i ==> word_lt(#[trigger] v0[k]@, w@),
        ensures
            0 <= i <= words@.len(),
            words@ == v0,
            forall|k: int| 0 <= k < i ==> word_lt(#[trigger] v0[k]@, w@),
            i < words@.len() ==> !word_lt(v0[i as int]@, w@),
        decreases words@.len() - i,
    {
        if !word_less(&words[i], &w) {
            break;
        }
        i = i + 1;
    }
    if i < words.len() && same_word(&words[i], &w) {
        proof {
            assert forall|x: Seq<char>|
                words_of(words@).contains(x) <==> (words_of(v0).contains(x) || x == w@) by {
                if x == w@ {
                    assert(words_of(v0)[i as int] == x);
                }
            }
        }
        return;
    }
    proof {
        if i < v0.len() {
            assert(w@.subrange(0, 5) =~= w@);
            assert(v0[i as int]@.subrange(0, 5) =~= v0[i as int]@);
            lemma_lt_total(w@, v0[i as int]@, 0);
        }
    }
    words.insert(i, w);
    proof {
        let v = words@;
        assert(v == v0.insert(i as int, w));
        assert forall|a: int, b: int| 0 <= a < b < v.len() implies word_lt(v[a]@, v[b]@) by {
            if b == i {
                assert(v[a] == v0[a]);
            } else if a == i {
                assert(v[b] == v0[b - 1]);
                if b - 1 > i {
                    assert(word_lt(v0[i as int]@, v0[b - 1]@));
                    lemma_lt_trans(w@, v0[i as int]@, v0[b - 1]@, 0);
                }
            } else if a < i && b > i {
                assert(v[a] == v0[a]);
                assert(v[b] == v0[b - 1]);
            } else if b < i {
                assert(v[a] == v0[a]);
                assert(v[b] == v0[b]);
            } else {
                assert(v[a] == v0[a - 1]);
                assert(v[b] == v0[b - 1]);
            }
        }
        assert forall|x: Seq<char>|
            words_of(v).contains(x) <==> (words_of(v0).contains(x) || x == w@) by {
            if words_of(v).contains(x) {
                let k = choose|k: int| 0 <= k < v.len() && words_of(v)[k] == x;
                if k < i {
                    assert(words_of(v0)[k] == x);
                } else if k > i {
                    assert(words_of(v0)[k - 1] == x);
                }
            }
            if words_of(v0).contains(x) {
                let k = choose|k: int| 0 <= k < v0.len() && words_of(v0)[k] == x;
                if k < i {
                    assert(words_of(v)[k] == x);
                } else {
                    assert(words_of(v)[k + 1] == x);
                }
            }
            if x == w@ {
                assert(words_of(v)[i as int] == x);
            }
        }
    }
}

/// Adds the trimmed line t[a..b] to the list when it is a word.
fn take_line(t: &Vec<char>, a: usize, b: usize, words: &mut Vec<Word>)
    requires
        a <= b <= t@.len(),
        sorted_words(old(words)@),
    ensures
        sorted_words(final(words)@),
        forall|x: Seq<char>|
            #![trigger words_of(final(words)@).contains(x)]
            words_of(final(words)@).contains(x) <==> (words_of(old(words)@).contains(x) || (x
                == trimmed(t@, a as int, b as int) && is_word(x))),
{
    let mut s: usize = a;
    while s < b && is_white_space(t[s])
        invariant
            a <= s <= b <= t@.len(),
            skip_space(t@, a as int, b as int) == skip_space(t@, s as int, b as int),
        decreases b - s,
    {
        s = s + 1;
    }
    let mut e: usize = b;
    while e > s && is_white_space(t[e - 1])
        invariant
            s <= e <= b <= t@.len(),
            skip_space(t@, a as int, b as int) == s,
            back_space(t@, s as int, b as int) == back_space(t@, s as int, e as int),
        decreases e - s,
    {
        e = e - 1;
    }
    let ghost line = trimmed(t@, a as int, b as int);
    assert(line == t@.subrange(s as int, e as int));
    if e - s != WORD_LEN {
        return;
    }
    let mut k: usize = s;
    #[verifier::loop_isolation(false)]
    while k < e
        invariant
            s <= k <= e <= t@.len(),
            e - s == 5,
            forall|j: int| s <= j < k ==> is_lower(#[trigger] t@[j]),
        decreases e - k,
    {
        let c = t[k];
        if !('a' <= c && c <= 'z') {
            assert(!is_lower(line[k - s]));
            return;
        }
        k = k + 1;
    }
    let w: Word = [t[s], t[s + 1], t[s + 2], t[s + 3], t[s + 4]];
    assert(w@ =~= line);
    assert(is_word(line)) by {
        assert forall|j: int| 0 <= j < 5 implies is_lower(#[trigger] line[j]) by {
            assert(line[j] == t@[s + j]);
        }
    }
    insert_word(words, w);
}

/// Taking the line t[start..i] extends the words listed before `i` to those
/// listed before `i + 1`.
proof fn lemma_line_step(t: Seq<char>, before: Seq<Word>, after: Seq<Word>, start: int, i: int)
    requires
        is_line(t, start, i),
        forall|w: Seq<char>|
            #![trigger words_of(before).contains(w)]
            words_of(before).contains(w) <==> listed_before(t, w, i),
        forall|x: Seq<char>|
            #![trigger words_of(after).contains(x)]
            words_of(after).contains(x) <==> (words_of(before).contains(x) || (x == trimmed(
                t,
                start,
                i,
            ) && is_word(x))),
    ensures
        forall|w: Seq<char>|
            #![trigger words_of(after).contains(w)]
            words_of(after).contains(w) <==> listed_before(t, w, i + 1),
{
    assert forall|w: Seq<char>| words_of(after).contains(w) <==> listed_before(t, w, i + 1) by {
        if listed_before(t, w, i + 1) {
            let (a, b) = choose|a: int, b: int| #[trigger] line_reads(t, a, b, w) && b < i + 1;
            if b == i {
                lemma_line_unique(t, a, start, i);
            } else {
                assert(listed_before(t, w, i));
                assert(words_of(before).contains(w));
            }
        }
        if words_of(after).contains(w) {
            if words_of(before).contains(w) {
                assert(listed_before(t, w, i));
                let (a, b) = choose|a: int, b: int| #[trigger] line_reads(t, a, b, w) && b < i;
                assert(line_reads(t, a, b, w) && b < i + 1);
            } else {
                assert(line_reads(t, start, i, w));
            }
        }
    }
}

/// No line ends at a position that holds no newline.
proof fn lemma_no_line_ends(t: Seq<char>, v: Seq<Word>, i: int)
    requires
        0 <= i < t.len(),
        t[i] != '\n',
        forall|w: Seq<char>|
            #![trigger words_of(v).contains(w)]
            words_of(v).contains(w) <==> listed_before(t, w, i),
    ensures
        forall|w: Seq<char>|
            #![trigger words_of(v).contains(w)]
            words_of(v).contains(w) <==> listed_before(t, w, i + 1),
{
    assert forall|w: Seq<char>| words_of(v).contains(w) <==> listed_before(t, w, i + 1) by {
        if listed_before(t, w, i + 1) {
            let (a, b) = choose|a: int, b: int| #[trigger] line_reads(t, a, b, w) && b < i + 1;
            assert(b != i);
            assert(listed_before(t, w, i));
        }
        if listed_before(t, w, i) {
            let (a, b) = choose|a: int, b: int| #[trigger] line_reads(t, a, b, w) && b < i;
            assert(line_reads(t, a, b, w) && b < i + 1);
        }
    }
}

/// The words of a word-list text: each line trimmed of white space, the
/// five-letter lower-case ones kept, in alphabetical order without repeats.
pub fn parse_word_list(text: &str) -> (words: Vec<Word>)
    ensures
        sorted_words(words@),
        forall|w: Seq<char>|
            #![trigger words_of(words@).contains(w)]
            words_of(words@).contains(w) <==> listed(text@, w),
{
    let t = chars_of(text);
    let n = t.len();
    let mut words: Vec<Word> = Vec::new();
    let mut start: usize = 0;
    let mut i: usize = 0;
    while i < n
        invariant
            n == t@.len(),
            t@ == text@,
            0 <= start <= i <= n,
            start == 0 || t@[start - 1] == '\n',
            forall|k: int| start <= k < i ==> t@[k] != '\n',
            sorted_words(words@),
            forall|w: Seq<char>|
                #![trigger words_of(words@).contains(w)]
                words_of(words@).contains(w) <==> listed_before(t@, w, i as int),
        decreases n - i,
    {
        let ghost before = words@;
        if t[i] == '\n' {
            take_line(&t, start, i, &mut words);
            proof {
                lemma_line_step(t@, before, words@, start as int, i as int);
            }
            start = i + 1;
        } else {
            proof {
                lemma_no_line_ends(t@, words@, i as int);
            }
        }
        i = i + 1;
    }
    // The last line runs to the end of the text.
    let ghost before = words@;
    take_line(&t, start, n, &mut words);
    proof {
        lemma_line_step(t@, before, words@, start as int, n as int);
        assert forall|w: Seq<char>| words_of(words@).contains(w) <==> listed(text@, w) by {
            if listed(text@, w) {
                let (a, b) = choose|a: int, b: int| #[trigger] line_reads(t@, a, b, w);
                assert(line_reads(t@, a, b, w) && b < n + 1);
            }
        }
    }
    words
}

/// Strictly increasing in alphabetical order, as sequences of letters.
pub open spec fn ascending(v: Seq<Seq<char>>) -> bool {
    forall|i: int, j: int| 0 <= i < j < v.len() ==> word_lt(v[i], v[j])
}

/// Two ascending lists of five-letter words with the same words are equal.
pub proof fn lemma_ascending_unique(a: Seq<Seq<char>>, b: Seq<Seq<char>>)
    requires
        ascending(a),
        ascending(b),
        forall|i: int| 0 <= i < a.len() ==> (#[trigger] a[i]).len() == 5,
        forall|i: int| 0 <= i < b.len() ==> (#[trigger] b[i]).len() == 5,
        forall|x: Seq<char>| a.contains(x) <==> b.contains(x),
    ensures
        a == b,
    decreases a.len(),
{
    if a.len() == 0 {
        if b.len() > 0 {
            assert(b.contains(b[0]));
        }
        assert(a =~= b);
    } else {
        assert(a.contains(a[0]));
        let j = choose|j: int| 0 <= j < b.len() && b[j] == a[0];
        assert(b.contains(b[0]));
        let i = choose|i: int| 0 <= i < a.len() && a[i] == b[0];
        if j != 0 {
            assert(word_lt(b[0], b[j]));
            if i == 0 {
                lemma_lt_irreflexive(a[0], 0);
            } else {
                assert(word_lt(a[0], a[i]));
                lemma_lt_trans(a[0], b[0], a[0], 0);
                lemma_lt_irreflexive(a[0], 0);
            }
        }
        assert(a[0] == b[0]);
        let a1 = a.drop_first();
        let b1 = b.drop_first();
        assert forall|x: Seq<char>| a1.contains(x) <==> b1.contains(x) by {
            if a1.contains(x) {
                let k = choose|k: int| 0 <= k < a1.len() && a1[k] == x;
                assert(word_lt(a[0], a[k + 1]));
                lemma_lt_irreflexive(a[0], 0);
                assert(b.contains(x));
                let m = choose|m: int| 0 <= m < b.len() && b[m] == x;
                assert(m != 0);
                assert(b1[m - 1] == x);
            }
            if b1.contains(x) {
                let k = choose|k: int| 0 <= k < b1.len() && b1[k] == x;
                assert(word_lt(b[0], b[k + 1]));
                lemma_lt_irreflexive(b[0], 0);
                assert(a.contains(x));
                let m = choose|m: int| 0 <= m < a.len() && a[m] == x;
                assert(m != 0);
                assert(a1[m - 1] == x);
            }
        }
        lemma_ascending_unique(a1, b1);
        assert(a =~= seq![a[0]] + a1);
        assert(b =~= seq![b[0]] + b1);
    }
}

/// The built-in word list, one word per line.
pub const WORD_TEXT: &'static str = "about\nabove\nabuse\nactor\nacute\nadapt\nadmit\nadopt\nadult\nafter\nagain\nagent\nagree\nahead\nalarm\nalbum\nalert\nalike\nalive\nallow\nalone\nalong\nalter\namong\nangel\nanger\nangle\nangry\napart\napple\napply\narena\nargue\narise\narray\naside\nasset\naudio\naudit\navoid\naward\naware\nbadly\nbaker\nbasic\nbasis\nbeach\nbegin\nbeing\nbelow\nbench\nbirth\nblack\nblade\nblame\nblind\nblock\nblood\nboard\nboost\nbooth\nbound\nbrain\nbrand\nbread\nbreak\nbreed\nbrief\nbring\nbroad\nbrown\nbuild\nbuilt\nbuyer\ncabin\ncable\ncarry\ncatch\ncause\nchain\nchair\nchart\nchase\ncheap\ncheck\nchest\nchief\nchild\nchina\nchose\ncivil\nclaim\nclass\nclean\nclear\nclimb\nclock\nclose\ncloud\ncoach\ncoast\ncould\ncount\ncourt\ncover\ncraft\ncrash\ncream\ncrime\ncross\ncrowd\ncrown\ncurve\ncycle\ndaily\ndance\ndated\ndealt\ndeath\ndebut\ndelay\ndepth\ndoing\ndoubt\ndozen\ndraft\ndrama\ndrawn\ndream\ndress\ndrink\ndrive\neager\nearly\nearth\neight\nelite\nempty\nenemy\nenjoy\nenter\nentry\nequal\nerror\nevent\nevery\nexact\nexist\nextra\nfaith\nfalse\nfault\nfiber\nfield\nfifth\nfifty\nfight\nfinal\nfirst\nflash\nfleet\nfloor\nfluid\nfocus\nforce\nforth\nforty\nforum\nfound\nframe\nfrank\nfraud\nfresh\nfront\nfruit\nfully\nfunny\ngiant\ngiven\nglass\nglobe\ngoing\ngrace\ngrade\ngrand\ngrant\ngrass\ngreat\ngreen\ngross\ngroup\ngrown\nguard\nguess\nguest\nguide\nhappy\nheart\nheavy\nhence\nhorse\nhotel\nhouse\nhuman\nideal\nimage\nindex\ninner\ninput\nissue\njoint\njudge\nknown\nlabel\nlarge\nlaser\nlater\nlaugh\nlayer\nlearn\nlease\nleast\nleave\nlegal\nlevel\nlight\nlimit\nlocal\nlogic\nloose\nlower\nlucky\nlunch\nmajor\nmaker\nmarch\nmatch\nmaybe\nmayor\nmeant\nmedia\nmetal\nmight\nminor\nmixed\nmodel\nmoney\nmonth\nmoral\nmotor\nmount\nmouse\nmouth\nmovie\nmusic\nneeds\nnever\nnewly\nnight\nnoise\nnorth\nnovel\nnurse\nocean\noffer\noften\norder\nother\nought\npaint\npanel\npaper\nparty\npeace\nphase\nphone\nphoto\npiece\npilot\npitch\nplace\nplain\nplane\nplant\nplate\npoint\npound\npower\npress\nprice\npride\nprime\nprint\nprior\nprize\nproof\nproud\nprove\nqueen\nquick\nquiet\nquite\nradio\nraise\nrange\nrapid\nratio\nreach\nready\nrefer\nright\nriver\nrobot\nrough\nround\nroute\nroyal\nrural\nscale\nscene\nscope\nscore\nsense\nserve\nseven\nshall\nshape\nshare\nsharp\nsheet\nshelf\nshell\nshift\nshirt\nshock\nshoot\nshort\nsight\nsince\nsixth\nsixty\nskill\nsleep\nslide\nsmall\nsmart\nsmile\nsmoke\nsolid\nsolve\nsorry\nsound\nsouth\nspace\nspare\nspeak\nspeed\nspend\nspent\nsplit\nsport\nstaff\nstage\nstake\nstand\nstart\nstate\nsteam\nsteel\nstick\nstill\nstock\nstone\nstood\nstore\nstorm\nstory\nstrip\nstuck\nstudy\nstuff\nstyle\nsugar\nsuite\nsuper\nsweet\ntable\ntaken\ntaste\nteach\nteeth\nthank\ntheft\ntheir\ntheme\nthere\nthese\nthick\nthing\nthink\nthird\nthose\nthree\nthrew\nthrow\ntight\ntimer\ntitle\ntoday\ntopic\ntotal\ntouch\ntough\ntower\ntrack\ntrade\ntrain\ntreat\ntrend\ntrial\ntried\ntruck\ntruly\ntrust\ntruth\ntwice\nunder\nunion\nunity\nuntil\nupper\nupset\nurban\nusage\nusual\nvalid\nvalue\nvideo\nvirus\nvisit\nvital\nvoice\nwaste\nwatch\nwater\nwheel\nwhere\nwhich\nwhile\nwhite\nwhole\nwhose\nwoman\nworld\nworry\nworse\nworst\nworth\nwould\nwound\nwrite\nwrong\nwrote\nyouth\n";

/// The words of the built-in list in alphabetical order.
pub open spec fn builtin_words() -> Seq<Seq<char>> {
    choose|v: Seq<Seq<char>>|
        ascending(v) && forall|w: Seq<char>| #[trigger] v.contains(w) <==> listed(WORD_TEXT@, w)
}

/// The built-in word list, parsed: at least one word, sorted, no repeats.
pub fn word_list() -> (words: Vec<Word>)
    ensures
        words@.len() > 0,
        words_of(words@) == builtin_words(),
        sorted_words(words@),
        forall|w: Seq<char>|
            #![trigger words_of(words@).contains(w)]
            words_of(words@).contains(w) <==> listed(WORD_TEXT@, w),
{
    let words = parse_word_list(WORD_TEXT);
    proof {
        reveal_strlit("about\nabove\nabuse\nactor\nacute\nadapt\nadmit\nadopt\nadult\nafter\nagain\nagent\nagree\nahead\nalarm\nalbum\nalert\nalike\nalive\nallow\nalone\nalong\nalter\namong\nangel\nanger\nangle\nangry\napart\napple\napply\narena\nargue\narise\narray\naside\nasset\naudio\naudit\navoid\naward\naware\nbadly\nbaker\nbasic\nbasis\nbeach\nbegin\nbeing\nbelow\nbench\nbirth\nblack\nblade\nblame\nblind\nblock\nblood\nboard\nboost\nbooth\nbound\nbrain\nbrand\nbread\nbreak\nbreed\nbrief\nbring\nbroad\nbrown\nbuild\nbuilt\nbuyer\ncabin\ncable\ncarry\ncatch\ncause\nchain\nchair\nchart\nchase\ncheap\ncheck\nchest\nchief\nchild\nchina\nchose\ncivil\nclaim\nclass\nclean\nclear\nclimb\nclock\nclose\ncloud\ncoach\ncoast\ncould\ncount\ncourt\ncover\ncraft\ncrash\ncream\ncrime\ncross\ncrowd\ncrown\ncurve\ncycle\ndaily\ndance\ndated\ndealt\ndeath\ndebut\ndelay\ndepth\ndoing\ndoubt\ndozen\ndraft\ndrama\ndrawn\ndream\ndress\ndrink\ndrive\neager\nearly\nearth\neight\nelite\nempty\nenemy\nenjoy\nenter\nentry\nequal\nerror\nevent\nevery\nexact\nexist\nextra\nfaith\nfalse\nfault\nfiber\nfield\nfifth\nfifty\nfight\nfinal\nfirst\nflash\nfleet\nfloor\nfluid\nfocus\nforce\nforth\nforty\nforum\nfound\nframe\nfrank\nfraud\nfresh\nfront\nfruit\nfully\nfunny\ngiant\ngiven\nglass\nglobe\ngoing\ngrace\ngrade\ngrand\ngrant\ngrass\ngreat\ngreen\ngross\ngroup\ngrown\nguard\nguess\nguest\nguide\nhappy\nheart\nheavy\nhence\nhorse\nhotel\nhouse\nhuman\nideal\nimage\nindex\ninner\ninput\nissue\njoint\njudge\nknown\nlabel\nlarge\nlaser\nlater\nlaugh\nlayer\nlearn\nlease\nleast\nleave\nlegal\nlevel\nlight\nlimit\nlocal\nlogic\nloose\nlower\nlucky\nlunch\nmajor\nmaker\nmarch\nmatch\nmaybe\nmayor\nmeant\nmedia\nmetal\nmight\nminor\nmixed\nmodel\nmoney\nmonth\nmoral\nmotor\nmount\nmouse\nmouth\nmovie\nmusic\nneeds\nnever\nnewly\nnight\nnoise\nnorth\nnovel\nnurse\nocean\noffer\noften\norder\nother\nought\npaint\npanel\npaper\nparty\npeace\nphase\nphone\nphoto\npiece\npilot\npitch\nplace\nplain\nplane\nplant\nplate\npoint\npound\npower\npress\nprice\npride\nprime\nprint\nprior\nprize\nproof\nproud\nprove\nqueen\nquick\nquiet\nquite\nradio\nraise\nrange\nrapid\nratio\nreach\nready\nrefer\nright\nriver\nrobot\nrough\nround\nroute\nroyal\nrural\nscale\nscene\nscope\nscore\nsense\nserve\nseven\nshall\nshape\nshare\nsharp\nsheet\nshelf\nshell\nshift\nshirt\nshock\nshoot\nshort\nsight\nsince\nsixth\nsixty\nskill\nsleep\nslide\nsmall\nsmart\nsmile\nsmoke\nsolid\nsolve\nsorry\nsound\nsouth\nspace\nspare\nspeak\nspeed\nspend\nspent\nsplit\nsport\nstaff\nstage\nstake\nstand\nstart\nstate\nsteam\nsteel\nstick\nstill\nstock\nstone\nstood\nstore\nstorm\nstory\nstrip\nstuck\nstudy\nstuff\nstyle\nsugar\nsuite\nsuper\nsweet\ntable\ntaken\ntaste\nteach\nteeth\nthank\ntheft\ntheir\ntheme\nthere\nthese\nthick\nthing\nthink\nthird\nthose\nthree\nthrew\nthrow\ntight\ntimer\ntitle\ntoday\ntopic\ntotal\ntouch\ntough\ntower\ntrack\ntrade\ntrain\ntreat\ntrend\ntrial\ntried\ntruck\ntruly\ntrust\ntruth\ntwice\nunder\nunion\nunity\nuntil\nupper\nupset\nurban\nusage\nusual\nvalid\nvalue\nvideo\nvirus\nvisit\nvital\nvoice\nwaste\nwatch\nwater\nwheel\nwhere\nwhich\nwhile\nwhite\nwhole\nwhose\nwoman\nworld\nworry\nworse\nworst\nworth\nwould\nwound\nwrite\nwrong\nwrote\nyouth\n");
        let t = WORD_TEXT@;
        assert(skip_space(t, 0, 5) == 0);
        assert(back_space(t, 0, 5) == 5);
        assert(is_line(t, 0, 5));
        let w = t.subrange(0, 5);
        assert(is_word(w));
        assert(line_reads(t, 0, 5, w));
        assert(listed(t, w));
        assert(words_of(words@).contains(w));
        let v = words_of(words@);
        assert(ascending(v));
        assert(forall|w: Seq<char>| #[trigger] v.contains(w) <==> listed(WORD_TEXT@, w));
        let c = builtin_words();
        assert(ascending(c) && forall|w: Seq<char>| #[trigger] c.contains(w) <==> listed(WORD_TEXT@, w));
        assert forall|i: int| 0 <= i < c.len() implies (#[trigger] c[i]).len() == 5 by {
            assert(c.contains(c[i]));
        }
        lemma_ascending_unique(v, c);
    }
    words
}

} // verus!
