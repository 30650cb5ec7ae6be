//! Text helpers: characters of a string, decimal numerals, and the footer statistics.

use vstd::prelude::*;

verus! {

/// Copies the characters of `s` into a vector, in order.
pub fn chars_of(s: &str) -> (out: Vec<char>)
    ensures
        out@ == s@,
{
    let mut out: Vec<char> = Vec::new();
    for c in it: s.chars()
        invariant
            out@ == it.seq().take(it.index() as int),
            it.seq() == s@,
    {
        out.push(c);
        proof {
            assert(it.seq().take(it.index() + 1) =~= it.seq().take(it.index() as int).push(c));
        }
    }
    out
}


/// The character of a decimal digit.
pub open spec fn digit_char(d: nat) -> char {
    if d == 0 { '0' } else if d == 1 { '1' } else if d == 2 { '2' } else if d == 3 { '3' }
    else if d == 4 { '4' } else if d == 5 { '5' } else if d == 6 { '6' } else if d == 7 { '7' }
    else if d == 8 { '8' } else { '9' }
}

/// The decimal numeral of `n`, without leading zeros.
pub open spec fn decimal(n: nat) -> Seq<char>
    decreases n,
{
    if n < 10 {
        seq![digit_char(n)]
    } else {
        decimal(n / 10).push(digit_char(n % 10))
    }
}

/// The number that a string of decimal digits denotes, read from left to right.
pub open spec fn digits_value(s: Seq<char>) -> nat
    decreases s.len(),
{
    if s.len() == 0 {
        0
    } else {
        10 * digits_value(s.drop_last()) + ((s.last() as nat) - ('0' as nat)) as nat
    }
}

proof fn lemma_digit_char_value(d: nat)
    requires
        d < 10,
    ensures
        ((digit_char(d) as nat) - ('0' as nat)) as nat == d,
        '0' <= digit_char(d) <= '9',
        digit_char(d) == '0' ==> d == 0,
{
    assert('0' as nat == 48);
    assert('1' as nat == 49);
    assert('2' as nat == 50);
    assert('3' as nat == 51);
    assert('4' as nat == 52);
    assert('5' as nat == 53);
    assert('6' as nat == 54);
    assert('7' as nat == 55);
    assert('8' as nat == 56);
    assert('9' as nat == 57);
}

/// The numeral of `n` consists of decimal digits, reads back as `n`, and starts with a
/// zero only when it is the numeral of zero.
pub proof fn lemma_decimal_reads_back(n: nat)
    ensures
        digits_value(decimal(n)) == n,
        forall|i: int| 0 <= i < decimal(n).len() ==> '0' <= #[trigger] decimal(n)[i] <= '9',
        decimal(n).len() > 0,
        decimal(n)[0] == '0' ==> n == 0,
    decreases n,
{
    if n < 10 {
        lemma_digit_char_value(n);
        assert(decimal(n).drop_last() =~= Seq::<char>::empty());
        assert(digits_value(decimal(n).drop_last()) == 0);
        assert(decimal(n).last() == digit_char(n));
        assert(digits_value(decimal(n)) == 10 * digits_value(decimal(n).drop_last())
            + ((decimal(n).last() as nat) - ('0' as nat)) as nat);
    } else {
        lemma_digit_char_value(n % 10);
        lemma_decimal_reads_back(n / 10);
        let s = decimal(n);
        assert(s.drop_last() =~= decimal(n / 10));
        assert(n == 10 * (n / 10) + n % 10);
        assert(s.last() == digit_char(n % 10));
        assert(digits_value(s) == 10 * digits_value(s.drop_last())
            + ((s.last() as nat) - ('0' as nat)) as nat);
        assert(s[0] == decimal(n / 10)[0]);
        assert forall|i: int| 0 <= i < s.len() implies '0' <= #[trigger] s[i] <= '9' by {
            if i < s.len() - 1 {
                assert(s[i] == decimal(n / 10)[i]);
            }
        }
    }
}

fn digit_str(d: usize) -> (s: &'static str)
    requires
        d < 10,
    ensures
        s@ == seq![digit_char(d as nat)],
{
    if d == 0 { proof { reveal_strlit("0"); } "0" }
    else if d == 1 { proof { reveal_strlit("1"); } "1" }
    else if d == 2 { proof { reveal_strlit("2"); } "2" }
    else if d == 3 { proof { reveal_strlit("3"); } "3" }
    else if d == 4 { proof { reveal_strlit("4"); } "4" }
    else if d == 5 { proof { reveal_strlit("5"); } "5" }
    else if d == 6 { proof { reveal_strlit("6"); } "6" }
    else if d == 7 { proof { reveal_strlit("7"); } "7" }
    else if d == 8 { proof { reveal_strlit("8"); } "8" }
    else { proof { reveal_strlit("9"); } "9" }
}

/// Renders `n` in decimal, as `{}` formatting does.
pub fn to_decimal(n: usize) -> (s: String)
    ensures
        s@ == decimal(n as nat),
    decreases n,
{
    if n < 10 {
        digit_str(n).to_owned()
    } else {
        let mut s = to_decimal(n / 10);
        s.append(digit_str(n % 10));
        s
    }
}


/// Whether `c` has the Unicode `White_Space` property, as `char::is_whitespace` tests.
pub open spec fn is_white_space(c: char) -> bool {
    ||| '\u{9}' <= c <= '\u{d}'
    ||| c == ' '
    ||| c == '\u{85}'
    ||| c == '\u{a0}'
    ||| c == '\u{1680}'
    ||| '\u{2000}' <= c <= '\u{200a}'
    ||| c == '\u{2028}'
    ||| c == '\u{2029}'
    ||| c == '\u{202f}'
    ||| c == '\u{205f}'
    ||| c == '\u{3000}'
}

pub fn white_space(c: char) -> (ws: bool)
    ensures
        ws == is_white_space(c),
{
    ('\u{9}' <= c && c <= '\u{d}') || c == ' ' || c == '\u{85}' || c == '\u{a0}' || c == '\u{1680}'
        || ('\u{2000}' <= c && c <= '\u{200a}') || c == '\u{2028}' || c == '\u{2029}'
        || c == '\u{202f}' || c == '\u{205f}' || c == '\u{3000}'
}

/// The number of lines that `str::lines` yields: a line starts at the beginning of a
/// non-empty text and after every line feed that is not the last character.
pub open spec fn line_count(t: Seq<char>) -> nat
    decreases t.len(),
{
    if t.len() == 0 {
        0
    } else {
        line_count(t.drop_last()) + if t.len() == 1 || t[t.len() - 2] == '\n' { 1nat } else { 0nat }
    }
}

/// The number of words that `str::split_whitespace` yields: a word starts at every
/// character that is not white space and does not follow one that is not.
pub open spec fn word_count(t: Seq<char>) -> nat
    decreases t.len(),
{
    if t.len() == 0 {
        0
    } else {
        word_count(t.drop_last()) + if !is_white_space(t.last())
            && (t.len() == 1 || is_white_space(t[t.len() - 2])) { 1nat } else { 0nat }
    }
}

/// The lines of a text are its line feeds, each ending one line, and one more for a last
/// line that no line feed ends.
pub proof fn lemma_line_count_counts_line_feeds(t: Seq<char>)
    ensures
        line_count(t) == t.filter(|c: char| c == '\n').len()
            + if t.len() > 0 && t.last() != '\n' { 1nat } else { 0nat },
    decreases t.len(),
{
    reveal(Seq::filter);
    if t.len() > 0 {
        lemma_line_count_counts_line_feeds(t.drop_last());
        if t.len() > 1 {
            assert(t.drop_last().last() == t[t.len() - 2]);
        }
    }
}

/// A text without white space is one word, however it is punctuated; a text of white
/// space only has none.
pub proof fn lemma_word_count_of_a_run(t: Seq<char>)
    ensures
        (forall|i: int| 0 <= i < t.len() ==> !is_white_space(#[trigger] t[i])) ==> word_count(t) == (if t.len() == 0 { 0nat } else { 1nat }),
        (forall|i: int| 0 <= i < t.len() ==> is_white_space(#[trigger] t[i])) ==> word_count(t) == 0,
    decreases t.len(),
{
    if t.len() > 0 {
        lemma_word_count_of_a_run(t.drop_last());
        if forall|i: int| 0 <= i < t.len() ==> !is_white_space(#[trigger] t[i]) {
            assert forall|i: int| 0 <= i < t.drop_last().len() implies !is_white_space(#[trigger] t.drop_last()[i]) by {
                assert(t.drop_last()[i] == t[i]);
            }
            if t.len() > 1 {
                assert(!is_white_space(t[t.len() - 2]));
            }
        }
        if forall|i: int| 0 <= i < t.len() ==> is_white_space(#[trigger] t[i]) {
            assert forall|i: int| 0 <= i < t.drop_last().len() implies is_white_space(#[trigger] t.drop_last()[i]) by {
                assert(t.drop_last()[i] == t[i]);
            }
            assert(is_white_space(t[t.len() - 1]));
        }
    }
}

/// White space separates words: the words of two texts joined by a white-space
/// character are the words of the first and then those of the second.
pub proof fn lemma_word_count_splits_at_white_space(a: Seq<char>, w: char, b: Seq<char>)
    requires
        is_white_space(w),
    ensures
        word_count(a + seq![w] + b) == word_count(a) + word_count(b),
    decreases b.len(),
{
    let joined = a + seq![w] + b;
    if b.len() == 0 {
        assert(joined.drop_last() =~= a);
        assert(joined.last() == w);
    } else {
        lemma_word_count_splits_at_white_space(a, w, b.drop_last());
        assert(joined.drop_last() =~= a + seq![w] + b.drop_last());
        assert(joined.last() == b.last());
        assert(joined[joined.len() - 2] == if b.len() == 1 { w } else { b[b.len() - 2] });
    }
}

/// Line, word and character counts of a text.
#[derive(Clone, Copy, Debug, PartialEq, Eq, Structural)]
pub struct TextStats {
    pub lines: usize,
    pub words: usize,
    pub characters: usize,
}

/// Counts the lines, words and characters of `text`.
pub fn text_stats(text: &str) -> (stats: TextStats)
    ensures
        stats.lines == line_count(text@),
        stats.words == word_count(text@),
        stats.characters == text@.len(),
{
    let chars = chars_of(text);
    let mut lines: usize = 0;
    let mut words: usize = 0;
    let mut i: usize = 0;
    while i < chars.len()
        invariant
            chars@ == text@,
            i <= chars@.len(),
            lines == line_count(chars@.take(i as int)),
            words == word_count(chars@.take(i as int)),
            lines <= i,
            words <= i,
        decreases chars@.len() - i,
    {
        proof {
            assert(chars@.take(i + 1).drop_last() =~= chars@.take(i as int));
        }
        if i == 0 || chars[i - 1] == '\n' {
            lines += 1;
        }
        if !white_space(chars[i]) && (i == 0 || white_space(chars[i - 1])) {
            words += 1;
        }
        i += 1;
    }
    proof {
        assert(chars@.take(chars@.len() as int) =~= chars@);
    }
    TextStats { lines, words, characters: chars.len() }
}

/// The statistics in the footer: `<lines> lines · <words> words · <characters> characters`,
/// counting at least one line.
pub fn stats_label(text: &str) -> (label: String)
    ensures
        label@ == decimal(if line_count(text@) == 0 { 1 } else { line_count(text@) })
            + " lines \u{b7} "@ + decimal(word_count(text@)) + " words \u{b7} "@
            + decimal(text@.len()) + " characters"@,
{
    let stats = text_stats(text);
    let lines = if stats.lines == 0 { 1 } else { stats.lines };
    let mut label = to_decimal(lines);
    label.append(" lines \u{b7} ");
    label.append(to_decimal(stats.words).as_str());
    label.append(" words \u{b7} ");
    label.append(to_decimal(stats.characters).as_str());
    label.append(" characters");
    label
}

} // verus!
