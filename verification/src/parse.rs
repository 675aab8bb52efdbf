//! Reading a talk from one line of text.
//!
//! A line is split on ASCII whitespace. A word containing `>` (the prompt
//! marker) or `lightning` is skipped; a word containing `min` whose other
//! characters are all digits sets the duration to that many minutes (the
//! last such word wins); every other word belongs to the description. A line
//! with no duration token means a five-minute talk. A `min` word whose
//! digits are empty or too large for a `u32` fails the line.

use crate::error::ScheduleError;
use crate::talk::{Talk, TalkView};
use vstd::prelude::*;

verus! {

/// ASCII whitespace: what separates the words of a line.
pub open spec fn is_space(c: char) -> bool {
    c == ' ' || c == '\t' || c == '\n' || c == '\r' || c == '\u{b}' || c == '\u{c}'
}

/// Length of the leading run of non-whitespace characters.
pub open spec fn word_len(s: Seq<char>) -> nat
    decreases s.len(),
{
    if s.len() == 0 || is_space(s[0]) {
        0
    } else {
        1 + word_len(s.drop_first())
    }
}

proof fn lemma_word_len_le(s: Seq<char>)
    ensures
        word_len(s) <= s.len(),
    decreases s.len(),
{
    if s.len() > 0 && !is_space(s[0]) {
        lemma_word_len_le(s.drop_first());
    }
}

/// The whitespace-separated words of a line, in order.
pub open spec fn split_ws(s: Seq<char>) -> Seq<Seq<char>>
    decreases s.len(),
    via split_ws_decreases
{
    if s.len() == 0 {
        Seq::<Seq<char>>::empty()
    } else if is_space(s[0]) {
        split_ws(s.drop_first())
    } else {
        seq![s.take(word_len(s) as int)] + split_ws(s.skip(word_len(s) as int))
    }
}

#[via_fn]
proof fn split_ws_decreases(s: Seq<char>) {
    if s.len() > 0 && !is_space(s[0]) {
        lemma_word_len_le(s);
        assert(word_len(s) >= 1);
    }
}

/// Whether the word holds the character anywhere.
pub open spec fn contains_char(w: Seq<char>, c: char) -> bool {
    exists|i: int| 0 <= i < w.len() && w[i] == c
}

/// Whether the word holds `pat` as a contiguous run anywhere.
pub open spec fn contains_sub(w: Seq<char>, pat: Seq<char>) -> bool {
    exists|i: int|
        0 <= i && i + pat.len() <= w.len() && #[trigger] w.subrange(i, i + pat.len()) == pat
}

/// The word with every occurrence of `min` struck out, scanning left to
/// right without overlap.
pub open spec fn strip_min(w: Seq<char>) -> Seq<char>
    decreases w.len(),
{
    if w.len() >= 3 && w.subrange(0, 3) == seq!['m', 'i', 'n'] {
        strip_min(w.skip(3))
    } else if w.len() == 0 {
        Seq::<char>::empty()
    } else {
        seq![w[0]] + strip_min(w.drop_first())
    }
}

/// An ASCII decimal digit.
pub open spec fn is_digit(c: char) -> bool {
    48 <= c as u32 <= 57
}

/// Every character is an ASCII decimal digit.
pub open spec fn all_digits(s: Seq<char>) -> bool {
    forall|i: int| 0 <= i < s.len() ==> is_digit(#[trigger] s[i])
}

/// Numeric value of a digit string, most significant digit first.
pub open spec fn digits_val(s: Seq<char>) -> int
    decreases s.len(),
{
    if s.len() == 0 {
        0
    } else {
        digits_val(s.drop_last()) * 10 + (s.last() as u32 - 48)
    }
}

/// How one word of a line is read.
pub ghost enum WordReading {
    /// A prompt marker (holds `>`) or a lightning marker: not part of the
    /// description, leaves the duration alone.
    Skipped,
    /// A duration token: this many minutes.
    Minutes(int),
    /// A plain word of the description.
    Description,
    /// A duration token without usable digits: fails the line.
    Malformed,
}

/// Classifies one word the way the parser reads it.
pub open spec fn read_word(w: Seq<char>) -> WordReading {
    if contains_char(w, '>') {
        WordReading::Skipped
    } else if contains_sub(w, seq!['l', 'i', 'g', 'h', 't', 'n', 'i', 'n', 'g']) {
        WordReading::Skipped
    } else if contains_sub(w, seq!['m', 'i', 'n']) && all_digits(strip_min(w)) {
        if strip_min(w).len() == 0 || digits_val(strip_min(w)) > u32::MAX {
            WordReading::Malformed
        } else {
            WordReading::Minutes(digits_val(strip_min(w)))
        }
    } else {
        WordReading::Description
    }
}

/// Folds the words of a line over the running description (each description
/// word followed by one space) and the running duration.
pub open spec fn read_words(words: Seq<Seq<char>>, desc: Seq<char>, minutes: int) -> Result<
    (Seq<char>, int),
    (),
>
    decreases words.len(),
{
    if words.len() == 0 {
        Ok((desc, minutes))
    } else {
        match read_word(words[0]) {
            WordReading::Skipped => read_words(words.drop_first(), desc, minutes),
            WordReading::Minutes(m) => read_words(words.drop_first(), desc, m),
            WordReading::Description => read_words(
                words.drop_first(),
                desc + words[0] + seq![' '],
                minutes,
            ),
            WordReading::Malformed => Err(()),
        }
    }
}

/// What one line of input means: the description words joined by single
/// spaces and the duration, five minutes unless a duration token said
/// otherwise; or a parse failure.
pub open spec fn spec_parse_line(s: Seq<char>) -> Result<TalkView, ()> {
    match read_words(split_ws(s), Seq::<char>::empty(), 5) {
        Ok((d, m)) => Ok(
            TalkView {
                description: if d.len() > 0 {
                    d.drop_last()
                } else {
                    d
                },
                duration: m,
            },
        ),
        Err(e) => Err(e),
    }
}

fn char_is_space(c: char) -> (r: bool)
    ensures
        r == is_space(c),
{
    c == ' ' || c == '\t' || c == '\n' || c == '\r' || c == '\u{b}' || c == '\u{c}'
}

fn str_contains_char(w: &str, c: char) -> (r: bool)
    ensures
        r == contains_char(w@, c),
{
    let n = w.unicode_len();
    let mut i: usize = 0;
    while i < n
        invariant
            n == w@.len(),
            0 <= i <= n,
            forall|k: int| 0 <= k < i ==> w@[k] != c,
        decreases n - i,
    {
        if w.get_char(i) == c {
            return true;
        }
        i = i + 1;
    }
    false
}

fn str_contains_sub(w: &str, pat: &str) -> (r: bool)
    requires
        pat@.len() >= 1,
    ensures
        r == contains_sub(w@, pat@),
{
    let n = w.unicode_len();
    let m = pat.unicode_len();
    if m > n {
        return false;
    }
    let mut off: usize = 0;
    let mut found = false;
    while !found && off <= n - m
        invariant
            n == w@.len(),
            m == pat@.len(),
            1 <= m <= n,
            0 <= off <= n - m + 1,
            !found ==> forall|o: int| 0 <= o < off ==> #[trigger] w@.subrange(o, o + m) != pat@,
            found ==> contains_sub(w@, pat@),
        decreases n - m - off + (if found { 0int } else { 1int }),
    {
        let mut k: usize = 0;
        let mut matched = true;
        while k < m && matched
            invariant
                n == w@.len(),
                m == pat@.len(),
                off <= n - m,
                0 <= k <= m,
                matched ==> forall|t: int| 0 <= t < k ==> w@[off + t] == pat@[t],
                !matched ==> w@.subrange(off as int, off + m) != pat@,
            decreases m - k + (if matched { 1int } else { 0int }),
        {
            if w.get_char(off + k) != pat.get_char(k) {
                proof {
                    assert(w@.subrange(off as int, off + m)[k as int] != pat@[k as int]);
                }
                matched = false;
            } else {
                k = k + 1;
            }
        }
        if matched {
            proof {
                assert(w@.subrange(off as int, off + m) =~= pat@);
            }
            found = true;
        } else {
            off = off + 1;
        }
    }
    proof {
        if !found {
            assert forall|i: int|
                !(0 <= i && i + pat@.len() <= w@.len() && #[trigger] w@.subrange(
                    i,
                    i + pat@.len(),
                ) == pat@) by {
                if 0 <= i && i + pat@.len() <= w@.len() {
                    assert(i < off);
                }
            }
        }
    }
    found
}

fn strip_min_chars(w: &str) -> (r: Vec<char>)
    ensures
        r@ == strip_min(w@),
{
    let n = w.unicode_len();
    let mut out: Vec<char> = Vec::new();
    let mut i: usize = 0;
    proof {
        assert(w@.skip(0) =~= w@);
        assert(out@ + strip_min(w@) =~= strip_min(w@));
    }
    while i < n
        invariant
            n == w@.len(),
            0 <= i <= n,
            strip_min(w@) == out@ + strip_min(w@.skip(i as int)),
        decreases n - i,
    {
        let ghost suffix = w@.skip(i as int);
        proof {
            assert(suffix[0] == w@[i as int]);
        }
        if n - i >= 3 && w.get_char(i) == 'm' && w.get_char(i + 1) == 'i' && w.get_char(i + 2)
            == 'n' {
            proof {
                assert(suffix.subrange(0, 3) =~= seq!['m', 'i', 'n']);
                assert(suffix.skip(3) =~= w@.skip(i as int + 3));
                assert(out@ + strip_min(w@.skip(i as int + 3)) =~= strip_min(w@));
            }
            i = i + 3;
        } else {
            proof {
                if suffix.len() >= 3 {
                    assert(suffix.subrange(0, 3)[0] == w@[i as int]);
                    assert(suffix.subrange(0, 3)[1] == w@[i as int + 1]);
                    assert(suffix.subrange(0, 3)[2] == w@[i as int + 2]);
                    assert(suffix.subrange(0, 3) != seq!['m', 'i', 'n']);
                }
                assert(suffix.drop_first() =~= w@.skip(i as int + 1));
                assert((out@ + seq![w@[i as int]]) + strip_min(w@.skip(i as int + 1))
                    =~= out@ + (seq![w@[i as int]] + strip_min(w@.skip(i as int + 1))));
            }
            let c = w.get_char(i);
            out.push(c);
            proof {
                assert(out@ + strip_min(w@.skip(i as int + 1)) =~= strip_min(w@));
            }
            i = i + 1;
        }
    }
    proof {
        assert(w@.skip(n as int) =~= Seq::<char>::empty());
        assert(out@ + Seq::<char>::empty() =~= out@);
    }
    out
}

fn vec_all_digits(v: &Vec<char>) -> (r: bool)
    ensures
        r == all_digits(v@),
{
    let mut i: usize = 0;
    while i < v.len()
        invariant
            0 <= i <= v.len(),
            forall|k: int| 0 <= k < i ==> is_digit(#[trigger] v@[k]),
        decreases v.len() - i,
    {
        let u = v[i] as u32;
        if u < 48 || u > 57 {
            return false;
        }
        i = i + 1;
    }
    true
}

proof fn lemma_digits_val_nonneg(s: Seq<char>)
    requires
        all_digits(s),
    ensures
        digits_val(s) >= 0,
    decreases s.len(),
{
    if s.len() > 0 {
        assert(all_digits(s.drop_last()));
        lemma_digits_val_nonneg(s.drop_last());
    }
}

proof fn lemma_digits_take_step(s: Seq<char>, i: int)
    requires
        0 <= i < s.len(),
    ensures
        digits_val(s.take(i + 1)) == digits_val(s.take(i)) * 10 + (s[i] as u32 - 48),
{
    assert(s.take(i + 1).drop_last() =~= s.take(i));
    assert(s.take(i + 1).last() == s[i]);
}

proof fn lemma_digits_val_mono(s: Seq<char>, i: int)
    requires
        all_digits(s),
        0 <= i <= s.len(),
    ensures
        digits_val(s) >= digits_val(s.take(i)),
        digits_val(s.take(i)) >= 0,
    decreases s.len() - i,
{
    assert(all_digits(s.take(i)));
    lemma_digits_val_nonneg(s.take(i));
    if i < s.len() {
        lemma_digits_take_step(s, i);
        lemma_digits_val_mono(s, i + 1);
    } else {
        assert(s.take(i) =~= s);
    }
}

/// Reads the digits as a minute count; `None` when the value does not fit a
/// `u32`.
fn digits_to_u32(digits: &Vec<char>) -> (r: Option<u32>)
    requires
        all_digits(digits@),
    ensures
        r matches Some(v) ==> digits_val(digits@) == v as int,
        r is None ==> digits_val(digits@) > u32::MAX,
{
    let ghost all = digits@;
    let mut acc: u64 = 0;
    let mut i: usize = 0;
    proof {
        assert(all.take(0) =~= Seq::<char>::empty());
    }
    while i < digits.len()
        invariant
            all == digits@,
            all_digits(all),
            0 <= i <= digits.len(),
            acc as int == digits_val(all.take(i as int)),
            acc <= u32::MAX as u64,
        decreases digits.len() - i,
    {
        let d = (digits[i] as u32) - 48;
        proof {
            lemma_digits_take_step(all, i as int);
        }
        let next = acc * 10 + (d as u64);
        if next > (u32::MAX as u64) {
            proof {
                lemma_digits_val_mono(all, i as int + 1);
            }
            return None;
        }
        acc = next;
        i = i + 1;
    }
    proof {
        assert(all.take(digits@.len() as int) =~= all);
    }
    Some(acc as u32)
}

/// Skipping one whitespace character leaves the words unchanged.
proof fn lemma_skip_space(s: Seq<char>, i: int)
    requires
        0 <= i < s.len(),
        is_space(s[i]),
    ensures
        split_ws(s.skip(i)) == split_ws(s.skip(i + 1)),
{
    assert(s.skip(i)[0] == s[i]);
    assert(s.skip(i).drop_first() =~= s.skip(i + 1));
}

/// A maximal non-whitespace run `[i, j)` is the first word of the suffix at
/// `i`, and the rest of the words follow from `j`.
proof fn lemma_split_at_word(s: Seq<char>, i: int, j: int)
    requires
        0 <= i < j <= s.len(),
        forall|k: int| i <= k < j ==> !is_space(#[trigger] s[k]),
        j == s.len() || is_space(s[j]),
    ensures
        split_ws(s.skip(i)) == seq![s.subrange(i, j)] + split_ws(s.skip(j)),
{
    let t = s.skip(i);
    lemma_word_len_eq(t, (j - i) as nat);
    assert(!is_space(t[0]));
    assert(t.take(j - i) =~= s.subrange(i, j));
    assert(t.skip(j - i) =~= s.skip(j));
}

proof fn lemma_word_len_eq(t: Seq<char>, m: nat)
    requires
        m <= t.len(),
        forall|k: int| 0 <= k < m ==> !is_space(#[trigger] t[k]),
        m == t.len() || is_space(t[m as int]),
    ensures
        word_len(t) == m,
    decreases m,
{
    if m == 0 {
    } else {
        lemma_word_len_eq(t.drop_first(), (m - 1) as nat);
    }
}

impl Talk {
    /// Reads one line of input as a talk: words holding `>` or `lightning`
    /// are skipped, a word of digits around `min` sets the duration (the
    /// last one wins), everything else is description; without a duration
    /// token the talk runs five minutes. Fails — and the line yields no talk
    /// — exactly when a `min` word carries digits that are empty or too
    /// large for a minute count.
    #[verifier::loop_isolation(false)]
    pub fn from_str(s: &str) -> (r: Result<Talk, ScheduleError>)
        ensures
            spec_parse_line(s@) matches Ok(tv) ==> (r matches Ok(t) && t@ == tv),
            spec_parse_line(s@) is Err ==> r == Err::<Talk, ScheduleError>(
                ScheduleError::ParseFailure,
            ),
    {
        let n = s.unicode_len();
        let mut desc = String::new();
        let mut first: bool = true;
        let mut minutes: u32 = 5;
        let ghost mut acc: Seq<char> = Seq::<char>::empty();
        let mut i: usize = 0;
        proof {
            assert(s@.skip(0) =~= s@);
        }
        while i < n
            invariant
                0 <= i <= n,
                first ==> acc == Seq::<char>::empty() && desc@ == Seq::<char>::empty(),
                !first ==> acc == desc@ + seq![' '] && acc.len() > 0,
                read_words(split_ws(s@), Seq::<char>::empty(), 5) == read_words(
                    split_ws(s@.skip(i as int)),
                    acc,
                    minutes as int,
                ),
            decreases n - i,
        {
            let c = s.get_char(i);
            if char_is_space(c) {
                proof {
                    lemma_skip_space(s@, i as int);
                }
                i = i + 1;
            } else {
                let mut j = i + 1;
                while j < n && !char_is_space(s.get_char(j))
                    invariant
                        i < j <= n,
                        forall|k: int| i <= k < j ==> !is_space(#[trigger] s@[k]),
                    decreases n - j,
                {
                    j = j + 1;
                }
                let word = s.substring_char(i, j);
                let ghost words = split_ws(s@.skip(i as int));
                proof {
                    lemma_split_at_word(s@, i as int, j as int);
                    assert(words[0] == word@);
                    assert(words.drop_first() =~= split_ws(s@.skip(j as int)));
                    reveal_strlit("lightning");
                    assert("lightning"@ =~= seq!['l', 'i', 'g', 'h', 't', 'n', 'i', 'n', 'g']);
                    reveal_strlit("min");
                    assert("min"@ =~= seq!['m', 'i', 'n']);
                }
                let has_prompt = str_contains_char(word, '>');
                let has_lightning = str_contains_sub(word, "lightning");
                let has_min = str_contains_sub(word, "min");
                if has_prompt || has_lightning {
                    proof {
                        assert(read_word(word@) == WordReading::Skipped);
                    }
                } else if has_min {
                    let residue = strip_min_chars(word);
                    if vec_all_digits(&residue) {
                        if residue.len() == 0 {
                            proof {
                                assert(read_word(word@) == WordReading::Malformed);
                                assert(read_words(words, acc, minutes as int) == Err::<
                                    (Seq<char>, int),
                                    (),
                                >(()));
                            }
                            return Err(ScheduleError::ParseFailure);
                        }
                        match digits_to_u32(&residue) {
                            Some(v) => {
                                proof {
                                    assert(read_word(word@) == WordReading::Minutes(v as int));
                                }
                                minutes = v;
                            },
                            None => {
                                proof {
                                    assert(read_word(word@) == WordReading::Malformed);
                                }
                                return Err(ScheduleError::ParseFailure);
                            },
                        }
                    } else {
                        proof {
                            assert(read_word(word@) == WordReading::Description);
                        }
                        if first {
                            desc.append(word);
                            first = false;
                        } else {
                            proof {
                                reveal_strlit(" ");
                            }
                            desc.append(" ");
                            desc.append(word);
                        }
                        proof {
                            acc = acc + word@ + seq![' '];
                            assert(acc =~= desc@ + seq![' ']);
                        }
                    }
                } else {
                    proof {
                        assert(read_word(word@) == WordReading::Description);
                    }
                    if first {
                        desc.append(word);
                        first = false;
                    } else {
                        proof {
                            reveal_strlit(" ");
                        }
                        desc.append(" ");
                        desc.append(word);
                    }
                    proof {
                        acc = acc + word@ + seq![' '];
                        assert(acc =~= desc@ + seq![' ']);
                    }
                }
                i = j;
            }
        }
        proof {
            assert(s@.skip(n as int) =~= Seq::<char>::empty());
            assert(split_ws(Seq::<char>::empty()) =~= Seq::<Seq<char>>::empty());
            assert(read_words(split_ws(s@), Seq::<char>::empty(), 5) == Ok::<(Seq<char>, int), ()>(
                (acc, minutes as int),
            ));
            if !first {
                assert(acc.drop_last() =~= desc@);
            }
        }
        Ok(Talk { description: desc, duration: minutes })
    }
}

} // verus!
