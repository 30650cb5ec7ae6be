//! Case-insensitive literal search in the raw Markdown of a document, the current
//! match, and the highlighted sections of the source text.

use vstd::prelude::*;
use crate::text::{decimal, to_decimal};
use vstd::string::StringSliceAdditionalSpecFns;

verus! {

/// A character with a meaning in `regex` syntax, as `regex_syntax::is_meta_character` lists them.
pub open spec fn is_meta_character(c: char) -> bool {
    c == '\\' || c == '.' || c == '+' || c == '*' || c == '?' || c == '(' || c == ')' || c == '|'
        || c == '[' || c == ']' || c == '{' || c == '}' || c == '^' || c == '$' || c == '#'
        || c == '&' || c == '-' || c == '~'
}

/// `text` with a backslash before every meta character: a pattern that matches `text`
/// literally.
pub open spec fn escaped(text: Seq<char>) -> Seq<char>
    decreases text.len(),
{
    if text.len() == 0 {
        Seq::empty()
    } else {
        escaped(text.drop_last()) + if is_meta_character(text.last()) {
            seq!['\\', text.last()]
        } else {
            seq![text.last()]
        }
    }
}

/// Calls `regex::escape`, which (by `regex_syntax::escape_into`) copies the text and puts a
/// backslash before each meta character.
#[verifier::external_body]
fn regex_escape(text: &str) -> (pattern: String)
    ensures
        pattern@ == escaped(text@),
{
    regex::escape(text)
}

/// The byte ranges that `Regex::find_iter` yields in `text` for `pattern` built by
/// `RegexBuilder` with `case_insensitive(true)`, or `None` when that pattern does not build.
pub uninterp spec fn case_insensitive_matches(pattern: Seq<char>, text: Seq<char>) -> Option<Seq<(usize, usize)>>;

pub open spec fn found_view(found: Option<Vec<(usize, usize)>>) -> Option<Seq<(usize, usize)>> {
    match found {
        Some(v) => Some(v@),
        None => None,
    }
}

/// The ranges lie on character boundaries of `bytes`, each from its start to its end, one
/// after another without overlapping.
pub open spec fn ordered_ranges(bytes: Seq<u8>, ranges: Seq<(usize, usize)>) -> bool {
    &&& forall|k: int| 0 <= k < ranges.len() ==> (#[trigger] ranges[k]).0 <= ranges[k].1
        && vstd::utf8::is_char_boundary(bytes, ranges[k].0 as int)
        && vstd::utf8::is_char_boundary(bytes, ranges[k].1 as int)
    &&& forall|k: int| 0 <= k < ranges.len() - 1 ==> (#[trigger] ranges[k]).1 <= ranges[k + 1].0
}

/// Builds `pattern` with `regex::RegexBuilder::new(..).case_insensitive(true).build()` and
/// collects `Regex::find_iter` over `text`, each match as its start and end byte offsets; a
/// pattern that fails to build gives `None`. The contract names the result, and states what
/// the documentation of `find_iter` and `Match` promises of it: successive non-overlapping
/// matches, each with `start <= end`, both on UTF-8 boundaries of `text`. Which ranges the
/// search finds is left to `regex`.
#[verifier::external_body]
fn case_insensitive_find(pattern: &str, text: &str) -> (found: Option<Vec<(usize, usize)>>)
    ensures
        found_view(found) == case_insensitive_matches(pattern@, text@),
        found matches Some(v) ==> ordered_ranges(text.spec_bytes(), v@),
{
    match regex::RegexBuilder::new(pattern).case_insensitive(true).build() {
        Ok(regex) => Some(regex.find_iter(text).map(|m| (m.start(), m.end())).collect()),
        Err(_) => None,
    }
}

/// The list of match ranges and the index of the current match, which is always a valid
/// index when there is a match, and 0 otherwise.
pub struct Hits {
    ranges: Vec<(usize, usize)>,
    current: usize,
}

impl Hits {
    #[verifier::type_invariant]
    closed spec fn inv(self) -> bool {
        self.current == 0 || self.current < self.ranges.len()
    }
}

/// How a section of the source is painted.
#[derive(Clone, Copy, Debug, PartialEq, Eq, Structural)]
pub enum Highlight {
    Plain,
    Match,
    Current,
}

/// A byte range of the source text and how it is painted.
#[derive(Clone, Copy, Debug, PartialEq, Eq, Structural)]
pub struct Section {
    pub start: usize,
    pub end: usize,
    pub highlight: Highlight,
}

/// The state of the find bar of one document.
pub struct Find {
    pub open: bool,
    pub query: String,
    pub focus: bool,
    pub scroll_to_match: bool,
    hits: Hits,
}

/// The mathematical content of a [`Find`].
#[verifier::ext_equal]
pub struct FindView {
    pub open: bool,
    pub query: Seq<char>,
    pub focus: bool,
    pub scroll_to_match: bool,
    pub matches: Seq<(usize, usize)>,
    pub current: nat,
}

impl FindView {
    /// The current index is a valid match index, or 0 when there is no match.
    pub open spec fn well_formed(self) -> bool {
        self.current == 0 || self.current < self.matches.len()
    }

    /// The matches that a search gives: none for an empty query or a pattern that does
    /// not build, otherwise what the search finds.
    pub open spec fn searched(query: Seq<char>, text: Seq<char>) -> Seq<(usize, usize)> {
        if query.len() == 0 {
            Seq::empty()
        } else {
            match case_insensitive_matches(escaped(query), text) {
                Some(found) => found,
                None => Seq::empty(),
            }
        }
    }
}

impl View for Find {
    type V = FindView;

    closed spec fn view(&self) -> FindView {
        FindView {
            open: self.open,
            query: self.query@,
            focus: self.focus,
            scroll_to_match: self.scroll_to_match,
            matches: self.hits.ranges@,
            current: self.hits.current as nat,
        }
    }
}

/// The current index after the list of matches became `count` long: kept when it still
/// points at a match, otherwise the last match, or 0 when there is none.
pub open spec fn clamped(current: nat, count: nat) -> nat {
    if count == 0 {
        0
    } else if current < count {
        current
    } else {
        (count - 1) as nat
    }
}

/// The match after (or, `backwards`, before) `current`, wrapping around.
pub open spec fn stepped(current: nat, count: nat, backwards: bool) -> nat
    recommends
        count > 0,
{
    ((current + if backwards { count - 1 } else { 1 }) % (count as int)) as nat
}

/// The match range `(start, end)` can be painted after the section ending at `end_before`:
/// it does not overlap what was painted, and `text.get(start..end)` gives a slice.
pub open spec fn paintable(bytes: Seq<u8>, range: (usize, usize), end_before: int) -> bool {
    &&& end_before <= range.0
    &&& range.0 <= range.1
    &&& vstd::utf8::is_char_boundary(bytes, range.0 as int)
    &&& vstd::utf8::is_char_boundary(bytes, range.1 as int)
}

/// The sections painted for the matches from index `i` on, after the text was painted up
/// to `end_before`: each paintable match is preceded by the plain text before it, and the
/// rest of the text follows the last one. Matches that no longer fit the text (it was
/// edited since the search) are skipped.
pub open spec fn sections_from(
    bytes: Seq<u8>,
    matches: Seq<(usize, usize)>,
    current: nat,
    i: nat,
    end_before: usize,
) -> Seq<Section>
    decreases matches.len() - i,
{
    if i >= matches.len() {
        seq![Section { start: end_before, end: bytes.len() as usize, highlight: Highlight::Plain }]
    } else if paintable(bytes, matches[i as int], end_before as int) {
        let range = matches[i as int];
        seq![
            Section { start: end_before, end: range.0, highlight: Highlight::Plain },
            Section {
                start: range.0,
                end: range.1,
                highlight: if i == current { Highlight::Current } else { Highlight::Match },
            },
        ] + sections_from(bytes, matches, current, i + 1, range.1)
    } else {
        sections_from(bytes, matches, current, i + 1, end_before)
    }
}

/// The sections of the whole text: the matches are painted only while the find bar is open.
pub open spec fn painted(bytes: Seq<u8>, find: FindView) -> Seq<Section> {
    if find.open {
        sections_from(bytes, find.matches, find.current, 0, 0)
    } else {
        seq![Section { start: 0, end: bytes.len() as usize, highlight: Highlight::Plain }]
    }
}

/// The sections tile the text: they start at 0, each starts where the previous one ended,
/// the last ends at the end of the text, and every boundary is a character boundary.
pub open spec fn tiles(bytes: Seq<u8>, sections: Seq<Section>) -> bool {
    &&& sections.len() > 0
    &&& sections[0].start == 0
    &&& sections.last().end == bytes.len()
    &&& forall|k: int| 0 <= k < sections.len() ==> #[trigger] sections[k].start <= sections[k].end
    &&& forall|k: int| 0 <= k < sections.len() - 1 ==> #[trigger] sections[k].end == sections[k + 1].start
    &&& forall|k: int| 0 <= k < sections.len() ==> vstd::utf8::is_char_boundary(bytes, #[trigger] sections[k].start as int)
    &&& forall|k: int| 0 <= k < sections.len() ==> vstd::utf8::is_char_boundary(bytes, #[trigger] sections[k].end as int)
}

/// The summary next to the query: a hint while it is empty, "No matches", or
/// "`current + 1` of `count`".
pub open spec fn summary_of(find: FindView) -> Seq<char> {
    if find.query.len() == 0 {
        "Case-insensitive"@
    } else if find.matches.len() == 0 {
        "No matches"@
    } else {
        decimal(find.current + 1) + " of "@ + decimal(find.matches.len())
    }
}

/// The sections painted after `end_before` tile the rest of the text: contiguous, from
/// `end_before` to the end, every boundary on a character boundary.
pub proof fn lemma_sections_tile(
    bytes: Seq<u8>,
    matches: Seq<(usize, usize)>,
    current: nat,
    i: nat,
    end_before: usize,
)
    requires
        vstd::utf8::valid_utf8(bytes),
        vstd::utf8::is_char_boundary(bytes, end_before as int),
        bytes.len() <= usize::MAX,
    ensures
        ({
            let s = sections_from(bytes, matches, current, i, end_before);
            &&& s.len() > 0
            &&& s[0].start == end_before
            &&& s.last().end == bytes.len()
            &&& forall|k: int| 0 <= k < s.len() ==> #[trigger] s[k].start <= s[k].end
            &&& forall|k: int| 0 <= k < s.len() - 1 ==> #[trigger] s[k].end == s[k + 1].start
            &&& forall|k: int| 0 <= k < s.len() ==> vstd::utf8::is_char_boundary(bytes, #[trigger] s[k].start as int)
            &&& forall|k: int| 0 <= k < s.len() ==> vstd::utf8::is_char_boundary(bytes, #[trigger] s[k].end as int)
        }),
    decreases matches.len() - i,
{
    vstd::utf8::is_char_boundary_start_end_of_seq(bytes);
    if end_before as int > bytes.len() {
        assert(!vstd::utf8::is_char_boundary(bytes, end_before as int));
    }
    if i >= matches.len() {
    } else if paintable(bytes, matches[i as int], end_before as int) {
        let range = matches[i as int];
        if range.1 as int > bytes.len() {
            assert(!vstd::utf8::is_char_boundary(bytes, range.1 as int));
        }
        lemma_sections_tile(bytes, matches, current, i + 1, range.1);
        let rest = sections_from(bytes, matches, current, i + 1, range.1);
        let pair = seq![
            Section { start: end_before, end: range.0, highlight: Highlight::Plain },
            Section {
                start: range.0,
                end: range.1,
                highlight: if i == current { Highlight::Current } else { Highlight::Match },
            },
        ];
        let s = pair + rest;
        assert(s == sections_from(bytes, matches, current, i, end_before));
        assert forall|k: int| 0 <= k < s.len() implies #[trigger] s[k].start <= s[k].end
            && vstd::utf8::is_char_boundary(bytes, s[k].start as int)
            && vstd::utf8::is_char_boundary(bytes, s[k].end as int) by {
            if k >= 2 {
                assert(s[k] == rest[k - 2]);
            }
        }
        assert forall|k: int| 0 <= k < s.len() - 1 implies #[trigger] s[k].end == s[k + 1].start by {
            if k >= 2 {
                assert(s[k] == rest[k - 2]);
                assert(s[k + 1] == rest[k - 1]);
            } else if k == 1 {
                assert(s[k + 1] == rest[0]);
            }
        }
        assert(s.last() == rest.last());
    } else {
        lemma_sections_tile(bytes, matches, current, i + 1, end_before);
    }
}

impl Find {
    /// A closed find bar with an empty query and no match.
    pub fn new() -> (f: Self)
        ensures
            f@ == (FindView {
                open: false,
                query: Seq::empty(),
                focus: false,
                scroll_to_match: false,
                matches: Seq::empty(),
                current: 0,
            }),
    {
        Find {
            open: false,
            query: String::new(),
            focus: false,
            scroll_to_match: false,
            hits: Hits { ranges: Vec::new(), current: 0 },
        }
    }

    /// The byte ranges of the matches, in the order the search found them.
    pub fn matches(&self) -> (m: &Vec<(usize, usize)>)
        ensures
            m@ == self@.matches,
    {
        &self.hits.ranges
    }

    /// The index of the current match (0 when there is none).
    pub fn current(&self) -> (c: usize)
        ensures
            c == self@.current,
            self@.well_formed(),
    {
        proof { use_type_invariant(&self.hits); }
        self.hits.current
    }

    /// Replaces the matches with the outcome of a search (`None`: the pattern did not
    /// build, which counts as no match) and keeps the current index on a match.
    pub fn apply_matches(&mut self, found: Option<Vec<(usize, usize)>>)
        ensures
            final(self)@ == (FindView {
                matches: match found_view(found) {
                    Some(m) => m,
                    None => Seq::empty(),
                },
                current: clamped(old(self)@.current, final(self)@.matches.len()),
                ..old(self)@
            }),
            final(self)@.well_formed(),
    {
        let ranges = match found {
            Some(v) => v,
            None => Vec::new(),
        };
        let count = ranges.len();
        let current = self.hits.current;
        let current = if count == 0 {
            0
        } else if current < count {
            current
        } else {
            count - 1
        };
        self.hits = Hits { ranges, current };
    }

    /// Searches `text` for the query again, keeping the current index on a match.
    pub fn refresh(&mut self, text: &str)
        ensures
            final(self)@ == (FindView {
                matches: FindView::searched(old(self)@.query, text@),
                current: clamped(old(self)@.current, FindView::searched(old(self)@.query, text@).len()),
                ..old(self)@
            }),
            final(self)@.well_formed(),
            ordered_ranges(text.spec_bytes(), final(self)@.matches),
    {
        let found = if self.query.as_str().is_empty() {
            None
        } else {
            let pattern = regex_escape(self.query.as_str());
            case_insensitive_find(pattern.as_str(), text)
        };
        self.apply_matches(found);
    }

    /// Moves to the next match, or the previous one when `backwards`, wrapping around, and
    /// asks for it to be scrolled into view. Without matches nothing changes.
    pub fn advance(&mut self, backwards: bool)
        ensures
            old(self)@.matches.len() == 0 ==> final(self)@ == old(self)@,
            old(self)@.matches.len() > 0 ==> final(self)@ == (FindView {
                current: stepped(old(self)@.current, old(self)@.matches.len(), backwards),
                scroll_to_match: true,
                ..old(self)@
            }),
            final(self)@.well_formed(),
    {
        proof { use_type_invariant(&self.hits); }
        let count = self.hits.ranges.len();
        if count > 0 {
            let current = self.hits.current;
            let next = if backwards {
                if current == 0 { count - 1 } else { current - 1 }
            } else {
                if current + 1 == count { 0 } else { current + 1 }
            };
            proof {
                let c = current as int;
                let n = count as int;
                if backwards {
                    if c == 0 {
                        assert((c + (n - 1)) % n == n - 1) by {
                            vstd::arithmetic::div_mod::lemma_small_mod((n - 1) as nat, n as nat);
                        }
                    } else {
                        assert((c + (n - 1)) % n == c - 1) by {
                            vstd::arithmetic::div_mod::lemma_mod_add_multiples_vanish(c - 1, n);
                            vstd::arithmetic::div_mod::lemma_small_mod((c - 1) as nat, n as nat);
                        }
                    }
                } else {
                    if c + 1 == n {
                        assert((c + 1) % n == 0) by {
                            vstd::arithmetic::div_mod::lemma_mod_self_0(n);
                        }
                    } else {
                        assert((c + 1) % n == c + 1) by {
                            vstd::arithmetic::div_mod::lemma_small_mod((c + 1) as nat, n as nat);
                        }
                    }
                }
            }
            self.hits.current = next;
            self.scroll_to_match = true;
        }
    }

    /// Puts the current match back on the first one.
    pub fn reset_current(&mut self)
        ensures
            final(self)@ == (FindView { current: 0, ..old(self)@ }),
    {
        self.hits.current = 0;
    }

    /// Opens the find bar on `text`: it takes the keyboard focus, searches again and
    /// scrolls to the current match.
    pub fn open_find(&mut self, text: &str)
        ensures
            final(self)@ == (FindView {
                open: true,
                focus: true,
                scroll_to_match: true,
                matches: FindView::searched(old(self)@.query, text@),
                current: clamped(old(self)@.current, FindView::searched(old(self)@.query, text@).len()),
                ..old(self)@
            }),
            final(self)@.well_formed(),
            ordered_ranges(text.spec_bytes(), final(self)@.matches),
    {
        self.open = true;
        self.focus = true;
        self.refresh(text);
        self.scroll_to_match = true;
    }

    /// After the query was edited: searches `text` again from the first match and asks for
    /// it to be scrolled into view.
    pub fn query_edited(&mut self, text: &str)
        ensures
            final(self)@ == (FindView {
                matches: FindView::searched(old(self)@.query, text@),
                current: 0,
                scroll_to_match: true,
                ..old(self)@
            }),
            final(self)@.well_formed(),
            ordered_ranges(text.spec_bytes(), final(self)@.matches),
    {
        self.reset_current();
        self.refresh(text);
        self.scroll_to_match = true;
    }

    /// Whether the raw source must be shown: a match is waiting to be scrolled into view.
    pub fn reveals_source(&self) -> (show: bool)
        ensures
            show == (self@.scroll_to_match && self@.matches.len() > 0),
    {
        self.scroll_to_match && self.hits.ranges.len() > 0
    }

    /// The text next to the query field.
    pub fn summary(&self) -> (s: String)
        ensures
            s@ == summary_of(self@),
    {
        proof { use_type_invariant(&self.hits); }
        if self.query.as_str().is_empty() {
            "Case-insensitive".to_owned()
        } else if self.hits.ranges.len() == 0 {
            "No matches".to_owned()
        } else {
            let mut s = to_decimal(self.hits.current + 1);
            s.append(" of ");
            s.append(to_decimal(self.hits.ranges.len()).as_str());
            s
        }
    }

    /// The sections in which the source `text` is painted: the plain text and the matches,
    /// the current one set apart. Matches that no longer fit an edited text are skipped.
    pub fn layout(&self, text: &str) -> (out: Vec<Section>)
        ensures
            out@ == painted(text.spec_bytes(), self@),
            tiles(text.spec_bytes(), out@),
    {
        proof { use_type_invariant(&self.hits); }
        let ghost bytes = text.spec_bytes();
        proof {
            vstd::utf8::encode_utf8_valid_utf8(text@);
            vstd::utf8::is_char_boundary_start_end_of_seq(bytes);
        }
        let len = text.as_bytes().len();
        let mut out: Vec<Section> = Vec::new();
        if self.open {
            let ghost matches = self.hits.ranges@;
            let ghost current = self.hits.current as nat;
            let mut end: usize = 0;
            let mut i: usize = 0;
            let n = self.hits.ranges.len();
            while i < n
                invariant
                    n == matches.len(),
                    matches == self.hits.ranges@,
                    current == self.hits.current,
                    bytes == text.spec_bytes(),
                    vstd::utf8::valid_utf8(bytes),
                    len == bytes.len(),
                    i <= n,
                    end <= len,
                    vstd::utf8::is_char_boundary(bytes, end as int),
                    out@ + sections_from(bytes, matches, current, i as nat, end)
                        == sections_from(bytes, matches, current, 0, 0),
                decreases n - i,
            {
                let (start, stop) = self.hits.ranges[i];
                let ghost before = out@;
                if end <= start && start <= stop && text.is_char_boundary(start) && text.is_char_boundary(stop) {
                    let highlight = if i == self.hits.current { Highlight::Current } else { Highlight::Match };
                    out.push(Section { start: end, end: start, highlight: Highlight::Plain });
                    out.push(Section { start, end: stop, highlight });
                    proof {
                        let pair = seq![
                            Section { start: end, end: start, highlight: Highlight::Plain },
                            Section { start, end: stop, highlight },
                        ];
                        assert(out@ =~= before + pair);
                        assert(sections_from(bytes, matches, current, i as nat, end)
                            == pair + sections_from(bytes, matches, current, (i + 1) as nat, stop));
                        assert(out@ + sections_from(bytes, matches, current, (i + 1) as nat, stop)
                            =~= before + (pair + sections_from(bytes, matches, current, (i + 1) as nat, stop)));
                        if stop > len {
                            assert(!vstd::utf8::is_char_boundary(bytes, stop as int));
                        }
                    }
                    end = stop;
                }
                i += 1;
            }
            out.push(Section { start: end, end: len, highlight: Highlight::Plain });
            proof {
                lemma_sections_tile(bytes, matches, current, 0, 0);
            }
        } else {
            out.push(Section { start: 0, end: len, highlight: Highlight::Plain });
            proof {
                assert(out@ =~= seq![Section { start: 0, end: len, highlight: Highlight::Plain }]);
            }
        }
        out
    }
}

/// Painting the text that was searched shows every match where the search found it, in
/// order, the current one set apart, each after the plain text before it.
pub proof fn lemma_search_paints_every_match(bytes: Seq<u8>, find: FindView)
    requires
        vstd::utf8::valid_utf8(bytes),
        bytes.len() <= usize::MAX,
        find.open,
        ordered_ranges(bytes, find.matches),
    ensures
        painted(bytes, find).len() == 2 * find.matches.len() + 1,
        forall|k: int| 0 <= k < find.matches.len() ==> #[trigger] painted(bytes, find)[2 * k + 1] == (Section {
            start: find.matches[k].0,
            end: find.matches[k].1,
            highlight: if k == find.current { Highlight::Current } else { Highlight::Match },
        }),
        forall|k: int| 0 <= k <= find.matches.len() ==> (#[trigger] painted(bytes, find)[2 * k]).highlight == Highlight::Plain,
{
    lemma_sections_paint_from(bytes, find.matches, find.current, 0, 0);
}

proof fn lemma_sections_paint_from(
    bytes: Seq<u8>,
    matches: Seq<(usize, usize)>,
    current: nat,
    i: nat,
    end_before: usize,
)
    requires
        vstd::utf8::valid_utf8(bytes),
        ordered_ranges(bytes, matches),
        i <= matches.len(),
        i < matches.len() ==> end_before <= matches[i as int].0,
    ensures
        ({
            let s = sections_from(bytes, matches, current, i, end_before);
            &&& s.len() == 2 * (matches.len() - i) + 1
            &&& forall|j: int| 0 <= j < matches.len() - i ==> #[trigger] s[2 * j + 1] == (Section {
                start: matches[i + j].0,
                end: matches[i + j].1,
                highlight: if i + j == current { Highlight::Current } else { Highlight::Match },
            })
            &&& forall|j: int| 0 <= j <= matches.len() - i ==> (#[trigger] s[2 * j]).highlight == Highlight::Plain
        }),
    decreases matches.len() - i,
{
    if i < matches.len() {
        let range = matches[i as int];
        assert(paintable(bytes, range, end_before as int));
        if i + 1 < matches.len() {
            assert(matches[i as int].1 <= matches[i as int + 1].0);
        }
        lemma_sections_paint_from(bytes, matches, current, i + 1, range.1);
        let s = sections_from(bytes, matches, current, i, end_before);
        let rest = sections_from(bytes, matches, current, i + 1, range.1);
        assert forall|j: int| 0 <= j < matches.len() - i implies #[trigger] s[2 * j + 1] == (Section {
            start: matches[i + j].0,
            end: matches[i + j].1,
            highlight: if i + j == current { Highlight::Current } else { Highlight::Match },
        }) by {
            if j > 0 {
                assert(s[2 * j + 1] == rest[2 * (j - 1) + 1]);
            }
        }
        assert forall|j: int| 0 <= j <= matches.len() - i implies (#[trigger] s[2 * j]).highlight == Highlight::Plain by {
            if j > 0 {
                assert(s[2 * j] == rest[2 * (j - 1)]);
            }
        }
    }
}

/// A refresh keeps the current match when its index still points at a match; otherwise it
/// moves to the last match, or to 0 when there is none. In particular, refreshing on the
/// text that was searched, with the same query, leaves the find bar as it was.
pub proof fn lemma_refresh_keeps_current_match(find: FindView, text: Seq<char>)
    ensures
        forall|current: nat, count: nat| current < count ==> #[trigger] clamped(current, count) == current,
        forall|current: nat, count: nat| 0 < count <= current ==> #[trigger] clamped(current, count) == count - 1,
        forall|current: nat| #[trigger] clamped(current, 0) == 0,
        find.well_formed() && find.matches == FindView::searched(find.query, text) ==> (FindView {
            matches: FindView::searched(find.query, text),
            current: clamped(find.current, FindView::searched(find.query, text).len()),
            ..find
        }) == find,
{
}

/// Moving to the next match and then back to the previous one returns to the same match,
/// and each step stays on a match.
pub proof fn lemma_advance_round_trip(current: nat, count: nat)
    requires
        current < count,
    ensures
        stepped(current, count, false) < count,
        stepped(current, count, true) < count,
        stepped(stepped(current, count, false), count, true) == current,
        stepped(stepped(current, count, true), count, false) == current,
{
    let c = current as int;
    let n = count as int;
    let f = stepped(current, count, false) as int;
    let b = stepped(current, count, true) as int;
    vstd::arithmetic::div_mod::lemma_mod_bound(c + 1, n);
    vstd::arithmetic::div_mod::lemma_mod_bound(c + (n - 1), n);
    if c + 1 == n {
        vstd::arithmetic::div_mod::lemma_mod_self_0(n);
        assert(f == 0);
        vstd::arithmetic::div_mod::lemma_small_mod((n - 1) as nat, n as nat);
    } else {
        vstd::arithmetic::div_mod::lemma_small_mod((c + 1) as nat, n as nat);
        assert(f == c + 1);
        vstd::arithmetic::div_mod::lemma_mod_add_multiples_vanish(c, n);
        vstd::arithmetic::div_mod::lemma_small_mod(c as nat, n as nat);
    }
    if c == 0 {
        vstd::arithmetic::div_mod::lemma_small_mod((n - 1) as nat, n as nat);
        assert(b == n - 1);
        vstd::arithmetic::div_mod::lemma_mod_self_0(n);
    } else {
        vstd::arithmetic::div_mod::lemma_mod_add_multiples_vanish(c - 1, n);
        vstd::arithmetic::div_mod::lemma_small_mod((c - 1) as nat, n as nat);
        assert(b == c - 1);
        vstd::arithmetic::div_mod::lemma_small_mod(c as nat, n as nat);
    }
}

} // verus!
