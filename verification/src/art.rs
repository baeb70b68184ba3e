//! The colored-art transcoder.
//!
//! [`AsciiArt::try_from`] turns a raw, human-authored art definition into a
//! renderable artifact: it counts the template's lines, splits the template
//! at its `${c<digits>}` color-switch markers, pairs every marker's palette
//! index with the text chunk that follows it (the preamble chunk before the
//! first marker is discarded by policy), and lower-cases the alias names.

use vstd::prelude::*;
use vstd::string::StrSliceExecFns;
use crossterm::style::Color;
use crate::TranscodeError;
use crate::marker::dec_val;
use crate::marker::scan_chunks;
use crate::marker::scan_digit_seqs;
use crate::marker::scan_template;
use crate::marker::well_marked;

verus! {

/// The number of line-break characters in `s`.
pub open spec fn newline_count(s: Seq<char>) -> nat
    decreases s.len(),
{
    if s.len() == 0 {
        0
    } else {
        newline_count(s.drop_last()) + (if s.last() == '\n' {
            1nat
        } else {
            0nat
        })
    }
}

/// The number of lines of `s`, counted like line terminators: an empty
/// template has no line, and a final line without a trailing terminator
/// still counts.
pub open spec fn line_count(s: Seq<char>) -> nat {
    if s.len() == 0 {
        0
    } else if s.last() == '\n' {
        newline_count(s)
    } else {
        newline_count(s) + 1
    }
}

/// For a non-empty template that does not end with a line terminator, the
/// height is the number of line breaks plus one.
pub proof fn lemma_height_counts_line_breaks(s: Seq<char>)
    requires
        s.len() > 0,
        s.last() != '\n',
    ensures
        line_count(s) == newline_count(s) + 1,
{
}

/// What a `str::to_lowercase` call returns for the given characters.
pub uninterp spec fn lower_of(s: Seq<char>) -> Seq<char>;

/// Relies on `str::to_lowercase`: the returned string is a function of the
/// input characters alone.
#[verifier::external_body]
fn lowercase(s: &str) -> (r: String)
    ensures
        r@ == lower_of(s@),
{
    s.to_lowercase()
}

/// A raw, human-authored colored-art definition: alias names, an ordered
/// palette, a declared rendering width, and a multi-line template with
/// inline color-switch markers.
pub struct AsciiArtUnprocessed {
    pub name: Vec<String>,
    pub colors: Vec<Color>,
    pub width: u16,
    pub art: String,
}

/// A renderable colored-art artifact: lower-cased alias names, the palette
/// unchanged, the declared width, the counted height, and the ordered
/// (palette index, text chunk) segments.
pub struct AsciiArt {
    pub name: Vec<String>,
    pub colors: Vec<Color>,
    pub width: u16,
    pub height: u16,
    pub art: Vec<(u8, String)>,
}

impl AsciiArt {
    /// Transcodes a raw definition.  Fails with `HeightOverflow` when the
    /// template's line count does not fit in `u16`, and otherwise with
    /// `MalformedMarker` when some marker's digits denote a value above 255;
    /// on success the artifact pairs marker `k` with chunk `k + 1`.
    pub fn try_from(val: AsciiArtUnprocessed) -> (r: Result<AsciiArt, TranscodeError>)
        ensures
            r is Ok <==> (line_count(val.art@) <= u16::MAX && well_marked(val.art@)),
            line_count(val.art@) > u16::MAX ==> r == Result::<AsciiArt, TranscodeError>::Err(
                TranscodeError::HeightOverflow,
            ),
            (line_count(val.art@) <= u16::MAX && !well_marked(val.art@)) ==> r == Result::<
                AsciiArt,
                TranscodeError,
            >::Err(TranscodeError::MalformedMarker),
            r is Ok ==> ({
                let a = r->Ok_0;
                &&& a.width == val.width
                &&& a.colors == val.colors
                &&& a.height as nat == line_count(val.art@)
                &&& a.name@.len() == val.name@.len()
                &&& forall|k: int|
                    0 <= k < a.name@.len() ==> (#[trigger] a.name@[k])@ == lower_of(val.name@[k]@)
                &&& a.art@.len() == scan_digit_seqs(val.art@).len()
                &&& forall|k: int|
                    0 <= k < a.art@.len() ==> (#[trigger] a.art@[k]).0 as nat == dec_val(
                        scan_digit_seqs(val.art@)[k],
                    ) && a.art@[k].1@ == scan_chunks(val.art@)[k + 1]
            }),
    {
        let height = match count_lines(val.art.as_str()) {
            Some(h) => h,
            None => {
                return Err(TranscodeError::HeightOverflow);
            },
        };
        let (idx, chunks) = match scan_template(val.art.as_str()) {
            Ok(p) => p,
            Err(e) => {
                return Err(e);
            },
        };
        proof {
            crate::marker::lemma_template_round_trip(val.art@);
        }
        let m = idx.len();
        let mut segs: Vec<(u8, String)> = Vec::new();
        let mut k: usize = 0;
        while k < m
            invariant
                k <= m,
                m == idx@.len(),
                chunks@.len() == m + 1,
                segs@.len() == k,
                forall|t: int|
                    0 <= t < idx@.len() ==> idx@[t] as nat == dec_val(
                        #[trigger] scan_digit_seqs(val.art@)[t],
                    ),
                idx@.len() == scan_digit_seqs(val.art@).len(),
                forall|t: int| 0 <= t < chunks@.len() ==> (#[trigger] chunks@[t])@ == scan_chunks(
                    val.art@,
                )[t],
                forall|t: int|
                    0 <= t < k ==> (#[trigger] segs@[t]).0 == idx@[t] && segs@[t].1@ == chunks@[t
                        + 1]@,
            decreases m - k,
        {
            let ci = idx[k];
            let chunk = chunks[k + 1].clone();
            segs.push((ci, chunk));
            k = k + 1;
        }
        let mut names: Vec<String> = Vec::new();
        let mut k2: usize = 0;
        let nn = val.name.len();
        while k2 < nn
            invariant
                k2 <= nn,
                nn == val.name@.len(),
                names@.len() == k2,
                forall|t: int|
                    0 <= t < k2 ==> (#[trigger] names@[t])@ == lower_of(val.name@[t]@),
            decreases nn - k2,
        {
            let lowered = lowercase(val.name[k2].as_str());
            names.push(lowered);
            k2 = k2 + 1;
        }
        Ok(
            AsciiArt {
                name: names,
                colors: val.colors,
                width: val.width,
                height,
                art: segs,
            },
        )
    }
}

proof fn lemma_newline_count_le(s: Seq<char>)
    ensures
        newline_count(s) <= s.len(),
    decreases s.len(),
{
    if s.len() == 0 {
    } else {
        lemma_newline_count_le(s.drop_last());
    }
}

/// Counts the lines of a template, reporting a count that does not fit the
/// height field.
fn count_lines(s: &str) -> (r: Option<u16>)
    ensures
        r is Some <==> line_count(s@) <= u16::MAX,
        r is Some ==> r->0 as nat == line_count(s@),
{
    let n: usize = s.unicode_len();
    if n == 0 {
        return Some(0);
    }
    let mut cnt: usize = 0;
    let mut i: usize = 0;
    proof {
        assert(s@.take(0) =~= Seq::<char>::empty());
    }
    while i < n
        invariant
            i <= n,
            n == s@.len(),
            cnt <= i,
            cnt as nat == newline_count(s@.take(i as int)),
        decreases n - i,
    {
        let c = s.get_char(i);
        proof {
            assert(s@.take(i as int + 1).drop_last() =~= s@.take(i as int));
            assert(s@.take(i as int + 1).last() == s@[i as int]);
        }
        if c == '\n' {
            cnt = cnt + 1;
        }
        i = i + 1;
    }
    proof {
        assert(s@.take(n as int) =~= s@);
    }
    let last = s.get_char(n - 1);
    let lines: usize = if last == '\n' {
        cnt
    } else {
        proof {
            lemma_newline_count_le(s@.drop_last());
            assert(newline_count(s@) == newline_count(s@.drop_last()));
        }
        cnt + 1
    };
    if lines > 65535 {
        return None;
    }
    Some(lines as u16)
}

} // verus!
