//! Finding the first occurrence of the pattern in each line of a text.

use vstd::prelude::*;
use vstd::string::*;
use vstd::utf8::*;

use crate::config::Config;
use crate::error::GrepError;
use crate::lines::{split_lines, text_lines};
use crate::text::{
    find_bytes, first_occurrence, fold_case, is_red_rendering, lemma_empty_needle,
    lemma_search_from_found, lemma_search_from_none, lower_of, lowercase, occurs_at, paint_red,
};

verus! {

broadcast use {encode_utf8_valid_utf8, encode_utf8_decode_utf8};

/// Where the pattern stands in one line.
#[derive(Debug, Clone, Copy, PartialEq, Eq, Structural)]
pub enum Located {
    /// The pattern does not occur in the comparison copy of the line.
    Miss,
    /// The first occurrence spans bytes `start..end` of the line.
    At { start: usize, end: usize },
    /// The first occurrence in the comparison copy does not fall on character
    /// boundaries of the original line.
    Misaligned,
}

/// Bytes `s..e` of the UTF-8 text `c` can be cut out of it: `e` is a
/// character boundary of `c`, and `s` one of what comes before `e`.
pub open spec fn aligned(c: Seq<u8>, s: int, e: int) -> bool {
    is_char_boundary(c, e) && is_char_boundary(c.subrange(0, e), s)
}

/// The characters of bytes `s..e` of `c`.
pub open spec fn span_text(c: Seq<u8>, s: int, e: int) -> Seq<char> {
    decode_utf8(c.subrange(s, e))
}

/// The line `c` with bytes `s..e` replaced by `painted`.
pub open spec fn highlight_of(c: Seq<u8>, s: int, e: int, painted: Seq<char>) -> Seq<char> {
    decode_utf8(c.subrange(0, s)) + painted + decode_utf8(c.subrange(e, c.len() as int))
}

/// `h` is the line `c` with bytes `s..e` rendered in red.
pub open spec fn is_highlight(c: Seq<u8>, s: int, e: int, h: Seq<char>) -> bool {
    exists|p: Seq<char>| #[trigger]
        is_red_rendering(span_text(c, s, e), p) && h == highlight_of(c, s, e, p)
}

/// A span that can be cut out lies inside the text.
pub proof fn lemma_aligned_bounds(c: Seq<u8>, s: int, e: int)
    requires
        valid_utf8(c),
        aligned(c, s, e),
    ensures
        0 <= s <= e <= c.len(),
{
    reveal_with_fuel(is_char_boundary, 1);
    assert(0 <= e <= c.len());
    valid_utf8_split(c, e);
    assert(c.subrange(0, e).len() == e);
}

/// Where `pattern` first occurs in `folded`, the comparison copy of `content`,
/// as a byte span of `content`.
pub fn locate_span(content: &str, folded: &str, pattern: &str) -> (r: Located)
    ensures
        ({
            let c = encode_utf8(content@);
            let p = encode_utf8(pattern@);
            let found = first_occurrence(encode_utf8(folded@), p);
            match r {
                Located::Miss => found is None,
                Located::At { start, end } => {
                    &&& found == Some(start as int)
                    &&& end == start + p.len()
                    &&& aligned(c, start as int, end as int)
                },
                Located::Misaligned => found matches Some(s) && !aligned(c, s, s + p.len()),
            }
        }),
{
    let p = pattern.as_bytes();
    let f = folded.as_bytes();
    match find_bytes(f, p) {
        None => Located::Miss,
        Some(start) => {
            proof {
                lemma_search_from_found(f@, p@, 0);
            }
            let folded_len: usize = f.len();
            assert(start + p@.len() <= folded_len);
            let end: usize = start + p.len();
            if !content.is_char_boundary(end) {
                return Located::Misaligned;
            }
            let (upto, _) = content.split_at(end);
            if upto.is_char_boundary(start) {
                Located::At { start, end }
            } else {
                Located::Misaligned
            }
        },
    }
}

/// The line `content` with bytes `start..end` replaced by `painted`.
pub fn highlight_with(content: &str, start: usize, end: usize, painted: &str) -> (r: String)
    requires
        aligned(encode_utf8(content@), start as int, end as int),
    ensures
        r@ == highlight_of(encode_utf8(content@), start as int, end as int, painted@),
{
    let ghost c = encode_utf8(content@);
    let (upto, after) = content.split_at(end);
    let (before, _) = upto.split_at(start);
    proof {
        assert(encode_utf8(before@) =~= c.subrange(0, start as int));
        assert(encode_utf8(after@) =~= c.subrange(end as int, c.len() as int));
    }
    let mut h = String::from_str(before);
    h.append(painted);
    h.append(after);
    h
}

/// The line `content` with bytes `start..end` rendered in red.
fn emphasize(content: &str, start: usize, end: usize) -> (r: String)
    requires
        aligned(encode_utf8(content@), start as int, end as int),
    ensures
        is_highlight(encode_utf8(content@), start as int, end as int, r@),
{
    let ghost c = encode_utf8(content@);
    let (upto, _) = content.split_at(end);
    let (_, span) = upto.split_at(start);
    proof {
        assert(encode_utf8(span@) =~= c.subrange(start as int, end as int));
    }
    let painted = paint_red(span);
    let r = highlight_with(content, start, end, painted.as_str());
    assert(is_red_rendering(span_text(c, start as int, end as int), painted@));
    r
}

/// One matching line: where the pattern was found, and the line itself.
#[derive(Debug)]
pub struct Match {
    /// Byte offset where the match starts in the comparison copy of the line.
    pub start: usize,
    /// Byte offset just past the match.
    pub end: usize,
    /// Zero-based index of the line in the text.
    pub line: usize,
    /// The pattern that was searched for.
    pub pattern: String,
    /// The line as it stands in the text.
    pub content: String,
    /// The line with the matched span rendered in red.
    pub highlight_content: String,
}

/// What a search reports of one matching line.
pub struct Hit {
    pub line: int,
    pub start: int,
    pub end: int,
    pub content: Seq<char>,
}

impl Match {
    /// What this match reports, as a `Hit`.
    pub open spec fn hit(&self) -> Hit {
        Hit {
            line: self.line as int,
            start: self.start as int,
            end: self.end as int,
            content: self.content@,
        }
    }

    /// The span covers the pattern inside the line, and the highlighted
    /// line is the line with that span rendered in red.
    pub open spec fn well_formed(&self) -> bool {
        let c = encode_utf8(self.content@);
        &&& self.end - self.start == encode_utf8(self.pattern@).len()
        &&& self.start <= self.end <= c.len()
        &&& is_highlight(c, self.start as int, self.end as int, self.highlight_content@)
    }
}

/// The byte position of the first occurrence of `pattern` in the
/// comparison copy of line `content`.
pub open spec fn occurrence(content: Seq<char>, pattern: Seq<char>, insensitive: bool) -> Option<
    int,
> {
    first_occurrence(encode_utf8(fold_case(content, insensitive)), encode_utf8(pattern))
}

/// The first occurrence of `pattern` in line `content` can be cut out of it,
/// starting at byte `s`.
pub open spec fn hit_at(content: Seq<char>, pattern: Seq<char>, insensitive: bool, s: int) -> bool {
    occurrence(content, pattern, insensitive) == Some(s) && aligned(
        encode_utf8(content),
        s,
        s + encode_utf8(pattern).len(),
    )
}

/// The hits of a search of `lines` for `pattern`: one for each line whose
/// first occurrence can be cut out of it, in the order of the lines.
pub open spec fn expected_hits(lines: Seq<Seq<char>>, pattern: Seq<char>, insensitive: bool) -> Seq<
    Hit,
>
    decreases lines.len(),
{
    if lines.len() == 0 {
        seq![]
    } else {
        let k = lines.len() - 1;
        let earlier = expected_hits(lines.drop_last(), pattern, insensitive);
        match occurrence(lines[k], pattern, insensitive) {
            Some(s) => if hit_at(lines[k], pattern, insensitive, s) {
                earlier.push(
                    Hit { line: k, start: s, end: s + encode_utf8(pattern).len(), content: lines[k] },
                )
            } else {
                earlier
            },
            None => earlier,
        }
    }
}

/// Line `k` of `lines` has an occurrence that cannot be cut out of it.
pub open spec fn is_misaligned(lines: Seq<Seq<char>>, pattern: Seq<char>, insensitive: bool, k: int) -> bool {
    occurrence(lines[k], pattern, insensitive) matches Some(s) && !hit_at(
        lines[k],
        pattern,
        insensitive,
        s,
    )
}

/// The hits of all lines but the last stay as they are, and the last line
/// adds its own hit, if it has one.
proof fn lemma_hits_step(lines: Seq<Seq<char>>, pattern: Seq<char>, insensitive: bool)
    requires
        lines.len() > 0,
    ensures
        ({
            let k = lines.len() - 1;
            let h = expected_hits(lines, pattern, insensitive);
            let hr = expected_hits(lines.drop_last(), pattern, insensitive);
            let o = occurrence(lines[k], pattern, insensitive);
            &&& h.len() >= hr.len()
            &&& h.subrange(0, hr.len() as int) == hr
            &&& if o is Some && hit_at(lines[k], pattern, insensitive, o->0) {
                &&& h.len() == hr.len() + 1
                &&& h[hr.len() as int] == (Hit {
                    line: k,
                    start: o->0,
                    end: o->0 + encode_utf8(pattern).len(),
                    content: lines[k],
                })
            } else {
                h == hr
            }
        }),
{
    let k = lines.len() - 1;
    let hr = expected_hits(lines.drop_last(), pattern, insensitive);
    let o = occurrence(lines[k], pattern, insensitive);
    if o is Some && hit_at(lines[k], pattern, insensitive, o->0) {
        assert(expected_hits(lines, pattern, insensitive).subrange(0, hr.len() as int) =~= hr);
    } else {
        assert(expected_hits(lines, pattern, insensitive).subrange(0, hr.len() as int) =~= hr);
    }
}

/// The hits of a search come in strictly ascending line order, and each one
/// names a line of the text and holds that line as written.
pub proof fn lemma_hits_ascending(lines: Seq<Seq<char>>, pattern: Seq<char>, insensitive: bool)
    ensures
        forall|j: int|
            0 <= j < expected_hits(lines, pattern, insensitive).len() ==> {
                let h = #[trigger] expected_hits(lines, pattern, insensitive)[j];
                0 <= h.line < lines.len() && h.content == lines[h.line]
            },
        forall|i: int, j: int|
            0 <= i < j < expected_hits(lines, pattern, insensitive).len() ==> expected_hits(
                lines,
                pattern,
                insensitive,
            )[i].line < expected_hits(lines, pattern, insensitive)[j].line,
    decreases lines.len(),
{
    if lines.len() > 0 {
        let rest = lines.drop_last();
        lemma_hits_ascending(rest, pattern, insensitive);
        lemma_hits_step(lines, pattern, insensitive);
        let h = expected_hits(lines, pattern, insensitive);
        let hr = expected_hits(rest, pattern, insensitive);
        assert forall|j: int| 0 <= j < hr.len() implies h[j].content == lines[h[j].line] by {
            assert(h[j] == hr[j]);
            assert(rest[hr[j].line] == lines[hr[j].line]);
        }
        assert forall|i: int, j: int| 0 <= i < j < h.len() implies h[i].line < h[j].line by {
            assert(h[i] == hr[i]);
            if j < hr.len() {
                assert(h[j] == hr[j]);
            }
        }
    }
}

/// Every hit spans exactly the pattern's bytes, inside its line.
pub proof fn lemma_hit_spans(lines: Seq<Seq<char>>, pattern: Seq<char>, insensitive: bool)
    ensures
        forall|j: int|
            0 <= j < expected_hits(lines, pattern, insensitive).len() ==> {
                let h = #[trigger] expected_hits(lines, pattern, insensitive)[j];
                &&& h.end - h.start == encode_utf8(pattern).len()
                &&& 0 <= h.start <= h.end <= encode_utf8(h.content).len()
            },
    decreases lines.len(),
{
    if lines.len() > 0 {
        let rest = lines.drop_last();
        lemma_hit_spans(rest, pattern, insensitive);
        lemma_hits_step(lines, pattern, insensitive);
        let k = lines.len() - 1;
        let h = expected_hits(lines, pattern, insensitive);
        let hr = expected_hits(rest, pattern, insensitive);
        if let Some(s) = occurrence(lines[k], pattern, insensitive) {
            if hit_at(lines[k], pattern, insensitive, s) {
                lemma_aligned_bounds(encode_utf8(lines[k]), s, s + encode_utf8(pattern).len());
            }
        }
        assert forall|j: int| 0 <= j < h.len() implies {
            &&& #[trigger] h[j].end - h[j].start == encode_utf8(pattern).len()
            &&& 0 <= h[j].start <= h[j].end <= encode_utf8(h[j].content).len()
        } by {
            if j < hr.len() {
                assert(h[j] == hr[j]);
            }
        }
    }
}

/// A line gives a hit, at its first occurrence, exactly when that occurrence
/// can be cut out of it.
proof fn lemma_hits_of_line(lines: Seq<Seq<char>>, pattern: Seq<char>, insensitive: bool, k: int)
    requires
        0 <= k < lines.len(),
    ensures
        occurrence(lines[k], pattern, insensitive) matches Some(s) && hit_at(
            lines[k],
            pattern,
            insensitive,
            s,
        ) ==> exists|j: int|
            0 <= j < expected_hits(lines, pattern, insensitive).len() && #[trigger] expected_hits(
                lines,
                pattern,
                insensitive,
            )[j].line == k,
        !(occurrence(lines[k], pattern, insensitive) matches Some(s) && hit_at(
            lines[k],
            pattern,
            insensitive,
            s,
        )) ==> forall|j: int|
            0 <= j < expected_hits(lines, pattern, insensitive).len() ==> #[trigger] expected_hits(
                lines,
                pattern,
                insensitive,
            )[j].line != k,
    decreases lines.len(),
{
    let h = expected_hits(lines, pattern, insensitive);
    let last = lines.len() - 1;
    let rest = lines.drop_last();
    let hr = expected_hits(rest, pattern, insensitive);
    lemma_hits_ascending(rest, pattern, insensitive);
    lemma_hits_step(lines, pattern, insensitive);
    if k < last {
        lemma_hits_of_line(rest, pattern, insensitive, k);
        assert(rest[k] == lines[k]);
        if occurrence(lines[k], pattern, insensitive) matches Some(s) && hit_at(
            lines[k],
            pattern,
            insensitive,
            s,
        ) {
            let j = choose|j: int| 0 <= j < hr.len() && #[trigger] hr[j].line == k;
            assert(h[j] == hr[j]);
        } else {
            assert forall|j: int| 0 <= j < h.len() implies #[trigger] h[j].line != k by {
                if j < hr.len() {
                    assert(h[j] == hr[j]);
                }
            }
        }
    } else {
        if occurrence(lines[k], pattern, insensitive) matches Some(s) && hit_at(
            lines[k],
            pattern,
            insensitive,
            s,
        ) {
            assert(h[hr.len() as int].line == k);
        } else {
            assert forall|j: int| 0 <= j < h.len() implies #[trigger] h[j].line != k by {
                assert(h[j] == hr[j]);
            }
        }
    }
}

/// In case-insensitive mode, a line whose lowercase form holds the (already
/// lowercased) pattern gives exactly one hit, which keeps the line as
/// written, unless that occurrence cannot be cut out of the line.
pub proof fn lemma_insensitive_line_hit_once(lines: Seq<Seq<char>>, pattern: Seq<char>, k: int)
    requires
        0 <= k < lines.len(),
        exists|i: int| occurs_at(encode_utf8(lower_of(lines[k])), encode_utf8(pattern), i),
        !is_misaligned(lines, pattern, true, k),
    ensures
        exists|j: int|
            {
                &&& 0 <= j < expected_hits(lines, pattern, true).len()
                &&& #[trigger] expected_hits(lines, pattern, true)[j].line == k
                &&& expected_hits(lines, pattern, true)[j].content == lines[k]
                &&& forall|i: int|
                    0 <= i < expected_hits(lines, pattern, true).len() && #[trigger] expected_hits(
                        lines,
                        pattern,
                        true,
                    )[i].line == k ==> i == j
            },
{
    let h = expected_hits(lines, pattern, true);
    let i0 = choose|i: int| occurs_at(encode_utf8(lower_of(lines[k])), encode_utf8(pattern), i);
    lemma_search_from_none(encode_utf8(lower_of(lines[k])), encode_utf8(pattern), 0);
    assert(occurs_at(encode_utf8(lower_of(lines[k])), encode_utf8(pattern), i0));
    lemma_hits_of_line(lines, pattern, true, k);
    lemma_hits_ascending(lines, pattern, true);
    let j = choose|j: int| 0 <= j < h.len() && #[trigger] h[j].line == k;
    assert forall|i: int| 0 <= i < h.len() && h[i].line == k implies i == j by {
        if i < j {
            assert(h[i].line < h[j].line);
        } else if j < i {
            assert(h[j].line < h[i].line);
        }
    }
}

/// In case-sensitive mode, a line in which the pattern does not occur byte
/// for byte (for instance one that holds it only in another casing) gives
/// no hit.
pub proof fn lemma_sensitive_absent_no_hit(lines: Seq<Seq<char>>, pattern: Seq<char>, k: int)
    requires
        0 <= k < lines.len(),
        forall|i: int| !occurs_at(encode_utf8(lines[k]), encode_utf8(pattern), i),
    ensures
        forall|j: int|
            0 <= j < expected_hits(lines, pattern, false).len() ==> expected_hits(
                lines,
                pattern,
                false,
            )[j].line != k,
{
    lemma_search_from_none(encode_utf8(lines[k]), encode_utf8(pattern), 0);
    lemma_hits_of_line(lines, pattern, false, k);
}

/// The empty pattern gives one hit for every line, at offsets 0 to 0, and
/// no line is misaligned.
pub proof fn lemma_empty_pattern_hits_every_line(lines: Seq<Seq<char>>, insensitive: bool)
    ensures
        expected_hits(lines, Seq::empty(), insensitive).len() == lines.len(),
        forall|j: int|
            0 <= j < lines.len() ==> {
                let h = #[trigger] expected_hits(lines, Seq::empty(), insensitive)[j];
                h.line == j && h.start == 0 && h.end == 0 && h.content == lines[j]
            },
        forall|k: int| 0 <= k < lines.len() ==> !is_misaligned(lines, Seq::empty(), insensitive, k),
    decreases lines.len(),
{
    let empty = Seq::<char>::empty();
    assert(encode_utf8(empty) =~= Seq::<u8>::empty());
    if lines.len() > 0 {
        let rest = lines.drop_last();
        lemma_empty_pattern_hits_every_line(rest, insensitive);
        assert forall|k: int| 0 <= k < lines.len() implies hit_at(lines[k], empty, insensitive, 0) by {
            lemma_empty_needle(encode_utf8(fold_case(lines[k], insensitive)));
            let c = encode_utf8(lines[k]);
            assert(c.subrange(0, 0) =~= Seq::<u8>::empty());
            reveal_with_fuel(is_char_boundary, 1);
        }
        assert forall|k: int| 0 <= k < rest.len() implies #[trigger] rest[k] == lines[k] by {}
    }
}

/// Searches each line of `text` for the configured pattern, comparing
/// lowercased copies in case-insensitive mode. Each line whose first
/// occurrence can be cut out of it gives one `Match`, in line order; a line
/// where it cannot stops the search with `GrepError::Misaligned`.
pub fn find_match(config: &Config, text: &str) -> (r: Result<Vec<Match>, GrepError>)
    ensures
        match r {
            Ok(ms) => {
                &&& forall|k: int|
                    0 <= k < text_lines(text@).len() ==> !is_misaligned(
                        text_lines(text@),
                        config.pattern@,
                        config.insensitive,
                        k,
                    )
                &&& ms@.map_values(|m: Match| m.hit()) == expected_hits(
                    text_lines(text@),
                    config.pattern@,
                    config.insensitive,
                )
                &&& forall|j: int|
                    0 <= j < ms@.len() ==> #[trigger] ms@[j].well_formed() && ms@[j].pattern@
                        == config.pattern@
                &&& forall|i: int, j: int| 0 <= i < j < ms@.len() ==> ms@[i].line < ms@[j].line
            },
            Err(e) => exists|k: int|
                {
                    &&& 0 <= k < text_lines(text@).len()
                    &&& is_misaligned(text_lines(text@), config.pattern@, config.insensitive, k)
                    &&& forall|j: int|
                        0 <= j < k ==> !is_misaligned(
                            text_lines(text@),
                            config.pattern@,
                            config.insensitive,
                            j,
                        )
                    &&& e == GrepError::Misaligned { line: k as usize }
                },
        },
{
    let lines = split_lines(text);
    let ghost lv = text_lines(text@);
    let ghost pat = config.pattern@;
    let ghost ins = config.insensitive;
    proof {
        assert forall|k: int| 0 <= k < lines@.len() implies lines@[k]@ == lv[k] by {
            assert(lines@.map_values(|l: &str| encode_utf8(l@))[k] == encode_utf8(lines@[k]@));
        }
        assert(lv.len() == lines@.len());
    }
    let n: usize = lines.len();
    let mut out: Vec<Match> = Vec::new();
    let mut k: usize = 0;
    while k < n
        invariant
            n == lines@.len(),
            n == lv.len(),
            k <= n,
            pat == config.pattern@,
            ins == config.insensitive,
            lv == text_lines(text@),
            forall|i: int| 0 <= i < n ==> lines@[i]@ == lv[i],
            forall|j: int| 0 <= j < k ==> !is_misaligned(lv, pat, ins, j),
            out@.map_values(|m: Match| m.hit()) == expected_hits(lv.take(k as int), pat, ins),
            forall|j: int|
                0 <= j < out@.len() ==> #[trigger] out@[j].well_formed() && out@[j].pattern@ == pat,
            forall|i: int, j: int| 0 <= i < j < out@.len() ==> out@[i].line < out@[j].line,
            forall|j: int| 0 <= j < out@.len() ==> out@[j].line < k,
        decreases n - k,
    {
        let content: &str = lines[k];
        let folded: String = if config.insensitive {
            lowercase(content)
        } else {
            content.to_owned()
        };
        let located = locate_span(content, folded.as_str(), config.pattern.as_str());
        let ghost before = out@;
        assert(lv.take(k + 1).drop_last() =~= lv.take(k as int));
        assert(lv.take(k + 1)[k as int] == lv[k as int]);
        match located {
            Located::Miss => {},
            Located::Misaligned => {
                assert(is_misaligned(lv, pat, ins, k as int));
                return Err(GrepError::Misaligned { line: k });
            },
            Located::At { start, end } => {
                proof {
                    lemma_aligned_bounds(encode_utf8(content@), start as int, end as int);
                }
                let highlight_content = emphasize(content, start, end);
                let m = Match {
                    start,
                    end,
                    line: k,
                    pattern: config.pattern.clone(),
                    content: content.to_owned(),
                    highlight_content,
                };
                out.push(m);
                assert(out@.map_values(|m: Match| m.hit()) =~= before.map_values(
                    |m: Match| m.hit(),
                ).push(m.hit()));
            },
        }
        k = k + 1;
    }
    assert(lv.take(n as int) =~= lv);
    Ok(out)
}

} // verus!
