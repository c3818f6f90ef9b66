//! Boundary locator: reports line-ending boundaries of a byte span as the
//! byte offset immediately following an occurrence, searching in the decoded
//! text rather than in the raw bytes, so that multi-byte code units cannot
//! yield false matches. One entry point finds the rightmost boundary (to trim
//! a freshly read buffer), the other the first boundary at or past a minimum
//! offset (to place a cut).

use vstd::prelude::*;

use crate::config::TextEncoding;

verus! {

/// Longest byte span the locator will decode in one call. Scans are refused
/// above it only so that the decoder's internal size calculations, and the
/// re-encoding of a decoded prefix, provably stay within `usize`.
pub const MAX_SCAN: usize = usize::MAX / 32;

/// The text that decoding a byte sequence under the encoding tagged `enc`
/// yields, with malformed sequences replaced; what it is on given bytes only
/// the decoder knows.
pub uninterp spec fn decoded_text(bytes: Seq<u8>, enc: int) -> Seq<char>;

/// The bytes that encoding a character sequence under the encoding tagged
/// `enc` yields, with unmappable characters replaced; what they are for given
/// text only the encoder knows.
pub uninterp spec fn encoded_bytes(text: Seq<char>, enc: int) -> Seq<u8>;

/// Whether decoding a byte sequence under the encoding tagged `enc` meets
/// malformed input and substitutes for it; which inputs do only the decoder
/// knows.
pub uninterp spec fn decode_reported_errors(bytes: Seq<u8>, enc: int) -> bool;

/// Relies on `encoding_rs::Encoding::decode` on the statics `UTF_8` and
/// `GBK`: the decoded text (BOM sniffed away, malformed sequences replaced
/// with the replacement character) and the flag that reports whether any
/// sequence was malformed are both functions of the input bytes and the
/// encoding alone. The length bound keeps the decoder's buffer size
/// calculation, which panics on `usize` overflow, far from that limit.
#[verifier::external_body]
fn decode_chars(bytes: &[u8], enc: TextEncoding) -> (r: (Vec<char>, bool))
    requires
        bytes@.len() <= MAX_SCAN,
    ensures
        r.0@ == decoded_text(bytes@, enc.code()),
        r.1 == decode_reported_errors(bytes@, enc.code()),
{
    let e = match enc {
        TextEncoding::Utf8 => encoding_rs::UTF_8,
        TextEncoding::Gbk => encoding_rs::GBK,
    };
    let (cow, _, had_errors) = e.decode(bytes);
    (cow.chars().collect(), had_errors)
}

/// Relies on `encoding_rs::Encoding::encode` on the statics `UTF_8` and
/// `GBK`: the encoded bytes (unmappable characters replaced with numeric
/// character references) are a function of the input text and the encoding
/// alone. The length bound keeps the encoder's buffer size calculation, which
/// panics on `usize` overflow, far from that limit.
#[verifier::external_body]
fn encode_chars(text: &Vec<char>, enc: TextEncoding) -> (r: Vec<u8>)
    requires
        text@.len() <= MAX_SCAN,
    ensures
        r@ == encoded_bytes(text@, enc.code()),
{
    let s: String = text.iter().collect();
    let e = match enc {
        TextEncoding::Utf8 => encoding_rs::UTF_8,
        TextEncoding::Gbk => encoding_rs::GBK,
    };
    let (cow, _, _) = e.encode(&s);
    (cow.into_owned())
}

/// Whether `pat` occurs in `text` starting at position `i`.
pub open spec fn is_occurrence_at(text: Seq<char>, pat: Seq<char>, i: int) -> bool {
    0 <= i && i + pat.len() <= text.len() && text.subrange(i, i + pat.len()) == pat
}

/// The rightmost occurrence of `pat` in `text` at a position `<= i`.
pub open spec fn rightmost_from(text: Seq<char>, pat: Seq<char>, i: int) -> Option<int>
    decreases i + 1,
{
    if i < 0 {
        None
    } else if is_occurrence_at(text, pat, i) {
        Some(i)
    } else {
        rightmost_from(text, pat, i - 1)
    }
}

/// The starting position of the rightmost occurrence of `pat` in `text`.
pub open spec fn rightmost_occurrence(text: Seq<char>, pat: Seq<char>) -> Option<int> {
    rightmost_from(text, pat, text.len() - pat.len())
}

/// A found rightmost occurrence is an occurrence, and nothing matches to its
/// right.
pub proof fn lemma_rightmost_from(text: Seq<char>, pat: Seq<char>, i: int)
    ensures
        rightmost_from(text, pat, i) matches Some(p) ==> is_occurrence_at(text, pat, p) && p <= i
            && forall|j: int| p < j <= i ==> !is_occurrence_at(text, pat, j),
        rightmost_from(text, pat, i) is None ==> forall|j: int|
            j <= i ==> !is_occurrence_at(text, pat, j),
    decreases i + 1,
{
    if i >= 0 && !is_occurrence_at(text, pat, i) {
        lemma_rightmost_from(text, pat, i - 1);
    }
}

fn occurs_at(text: &Vec<char>, pat: &Vec<char>, i: usize) -> (r: bool)
    requires
        i + pat@.len() <= text@.len(),
    ensures
        r == is_occurrence_at(text@, pat@, i as int),
{
    let n = text.len();
    let mut j: usize = 0;
    while j < pat.len()
        invariant
            j <= pat@.len(),
            i + pat@.len() <= text@.len(),
            n == text@.len(),
            forall|k: int| 0 <= k < j ==> text@[i + k] == pat@[k],
        decreases pat@.len() - j,
    {
        if text[i + j] != pat[j] {
            proof {
                assert(text@.subrange(i as int, i + pat@.len())[j as int] != pat@[j as int]);
            }
            return false;
        }
        j = j + 1;
    }
    proof {
        assert(text@.subrange(i as int, i + pat@.len()) =~= pat@);
    }
    true
}

/// The starting position of the rightmost occurrence of `pat` in `text`.
fn rfind_chars(text: &Vec<char>, pat: &Vec<char>) -> (r: Option<usize>)
    ensures
        ({
            match r {
                Some(p) => rightmost_occurrence(text@, pat@) == Some(p as int),
                None => rightmost_occurrence(text@, pat@) is None,
            }
        }),
{
    if pat.len() > text.len() {
        return None;
    }
    let mut i: usize = text.len() - pat.len();
    loop
        invariant
            i + pat@.len() <= text@.len(),
            rightmost_occurrence(text@, pat@) == rightmost_from(text@, pat@, i as int),
        decreases i,
    {
        if occurs_at(text, pat, i) {
            return Some(i);
        }
        if i == 0 {
            proof {
                assert(rightmost_from(text@, pat@, -1) is None);
                assert(rightmost_from(text@, pat@, 0) is None);
            }
            return None;
        }
        i = i - 1;
    }
}

/// The boundary the locator reports for a byte span: the byte offset
/// immediately following the rightmost line-ending occurrence, measured as
/// the byte length of the re-encoded decoded text through the end of that
/// occurrence; nothing when the span is empty or holds no occurrence.
pub open spec fn last_boundary(data: Seq<u8>, le: Seq<char>, enc: int) -> Option<int> {
    if data.len() == 0 {
        None
    } else {
        match rightmost_occurrence(decoded_text(data, enc), le) {
            Some(p) => Some(
                encoded_bytes(decoded_text(data, enc).subrange(0, p + le.len()), enc).len() as int,
            ),
            None => None,
        }
    }
}

/// What a scan of a byte span returns: the located boundary, except that
/// spans too long for the decoder or the re-encoder are not scanned at all.
pub open spec fn scan_result(data: Seq<u8>, le: Seq<char>, enc: int) -> Option<int> {
    if data.len() <= MAX_SCAN && decoded_text(data, enc).len() <= MAX_SCAN {
        last_boundary(data, le, enc)
    } else {
        None
    }
}

pub open spec fn opt_usize(r: Option<usize>) -> Option<int> {
    match r {
        Some(p) => Some(p as int),
        None => None,
    }
}

/// Whether a scan of a byte span reports malformed input: empty spans are
/// not decoded at all.
pub open spec fn scan_warning(data: Seq<u8>, enc: int) -> bool {
    if data.len() == 0 {
        false
    } else {
        decode_reported_errors(data, enc)
    }
}

/// Finds the byte offset immediately following the rightmost complete
/// occurrence of the line ending within `data`, searching the decoded text
/// and measuring the offset by re-encoding the decoded text through the end
/// of the occurrence. The flag reports whether the decoder met malformed
/// input; the search itself proceeds over the best-effort substituted text
/// either way.
pub fn find_last_line_ending(data: &[u8], line_ending: &Vec<char>, enc: TextEncoding) -> (r: (
    Option<usize>,
    bool,
))
    requires
        data@.len() <= MAX_SCAN,
    ensures
        opt_usize(r.0) == scan_result(data@, line_ending@, enc.code()),
        r.1 == scan_warning(data@, enc.code()),
{
    if data.len() == 0 {
        return (None, false);
    }
    let (decoded, had_errors) = decode_chars(data, enc);
    if decoded.len() > MAX_SCAN {
        return (None, had_errors);
    }
    match rfind_chars(&decoded, line_ending) {
        Some(p) => {
            proof {
                lemma_rightmost_from(
                    decoded@,
                    line_ending@,
                    decoded@.len() - line_ending@.len(),
                );
            }
            let through = p + line_ending.len();
            let prefix = vstd::slice::slice_to_vec(
                vstd::slice::slice_subrange(decoded.as_slice(), 0, through),
            );
            let encoded = encode_chars(&prefix, enc);
            (Some(encoded.len()), had_errors)
        },
        None => (None, had_errors),
    }
}

/// The leftmost occurrence of `pat` in `text` at a position `>= i` (and
/// `>= 0`).
pub open spec fn leftmost_from(text: Seq<char>, pat: Seq<char>, i: int) -> Option<int>
    decreases text.len() - i + 1,
{
    if i < 0 {
        leftmost_from(text, pat, 0)
    } else if i + pat.len() > text.len() {
        None
    } else if is_occurrence_at(text, pat, i) {
        Some(i)
    } else {
        leftmost_from(text, pat, i + 1)
    }
}

/// A found leftmost occurrence is an occurrence, and nothing matches between
/// `i` and it.
pub proof fn lemma_leftmost_from(text: Seq<char>, pat: Seq<char>, i: int)
    ensures
        leftmost_from(text, pat, i) matches Some(p) ==> is_occurrence_at(text, pat, p) && i <= p
            && forall|j: int| i <= j < p ==> !is_occurrence_at(text, pat, j),
        leftmost_from(text, pat, i) is None ==> forall|j: int|
            j >= i ==> !is_occurrence_at(text, pat, j),
    decreases text.len() - i + 1,
{
    if i < 0 {
        lemma_leftmost_from(text, pat, 0);
    } else if i + pat.len() <= text.len() && !is_occurrence_at(text, pat, i) {
        lemma_leftmost_from(text, pat, i + 1);
    }
}

/// The byte offset immediately following the occurrence of `le` at position
/// `o` in the decoded text of `data`: the byte length of the re-encoded
/// decoded text through the end of that occurrence.
pub open spec fn boundary_offset(data: Seq<u8>, le: Seq<char>, enc: int, o: int) -> int {
    encoded_bytes(decoded_text(data, enc).subrange(0, o + le.len()), enc).len() as int
}

/// Whether a boundary byte offset can serve as a cut of `data` at or past
/// `min_off`: it reaches `min_off`, leaves the cut non-empty, and lies
/// within the span.
pub open spec fn admissible_cut(data: Seq<u8>, min_off: int, b: int) -> bool {
    min_off <= b && 1 <= b && b <= data.len()
}

/// No line-ending occurrence of the decoded text at a position in
/// `[lo, hi)` has an admissible boundary offset.
pub open spec fn no_admissible_between(
    data: Seq<u8>,
    le: Seq<char>,
    enc: int,
    min_off: int,
    lo: int,
    hi: int,
) -> bool {
    forall|j: int|
        lo <= j < hi && #[trigger] is_occurrence_at(decoded_text(data, enc), le, j)
            ==> !admissible_cut(data, min_off, boundary_offset(data, le, enc, j))
}

/// `b` is the boundary offset of a line-ending occurrence at or past `from`,
/// and no earlier occurrence (from `from` on) has an admissible offset.
pub open spec fn is_earliest_cut(
    data: Seq<u8>,
    le: Seq<char>,
    enc: int,
    min_off: int,
    from: int,
    b: int,
) -> bool {
    exists|o: int|
        {
            &&& #[trigger] is_occurrence_at(decoded_text(data, enc), le, o)
            &&& from <= o
            &&& boundary_offset(data, le, enc, o) == b
            &&& no_admissible_between(data, le, enc, min_off, from, o)
        }
}

/// The first admissible cut of `data`, walking the line-ending occurrences
/// of the decoded text left to right from position `i`.
pub open spec fn earliest_cut_from(
    data: Seq<u8>,
    le: Seq<char>,
    enc: int,
    min_off: int,
    i: int,
) -> Option<int>
    decreases decoded_text(data, enc).len() - i + 1,
{
    match leftmost_from(decoded_text(data, enc), le, i) {
        None => None,
        Some(o) => {
            if admissible_cut(data, min_off, boundary_offset(data, le, enc, o)) {
                Some(boundary_offset(data, le, enc, o))
            } else if i <= o && o <= decoded_text(data, enc).len() {
                earliest_cut_from(data, le, enc, min_off, o + 1)
            } else {
                None
            }
        },
    }
}

/// A found earliest cut is admissible and earliest; none found means no
/// occurrence from `i` on has an admissible offset.
pub proof fn lemma_earliest_cut_from(data: Seq<u8>, le: Seq<char>, enc: int, min_off: int, i: int)
    ensures
        earliest_cut_from(data, le, enc, min_off, i) matches Some(b) ==> admissible_cut(
            data,
            min_off,
            b,
        ) && is_earliest_cut(data, le, enc, min_off, i, b),
        earliest_cut_from(data, le, enc, min_off, i) is None ==> no_admissible_between(
            data,
            le,
            enc,
            min_off,
            i,
            decoded_text(data, enc).len() + 1 as int,
        ),
    decreases decoded_text(data, enc).len() - i + 1,
{
    let d = decoded_text(data, enc);
    lemma_leftmost_from(d, le, i);
    match leftmost_from(d, le, i) {
        None => {},
        Some(o) => {
            let b0 = boundary_offset(data, le, enc, o);
            if admissible_cut(data, min_off, b0) {
                assert(no_admissible_between(data, le, enc, min_off, i, o));
                assert(is_earliest_cut(data, le, enc, min_off, i, b0));
            } else {
                assert(i <= o && o <= d.len());
                lemma_earliest_cut_from(data, le, enc, min_off, o + 1);
                match earliest_cut_from(data, le, enc, min_off, o + 1) {
                    Some(b) => {
                        let o2 = choose|o2: int|
                            {
                                &&& #[trigger] is_occurrence_at(d, le, o2)
                                &&& o + 1 <= o2
                                &&& boundary_offset(data, le, enc, o2) == b
                                &&& no_admissible_between(data, le, enc, min_off, o + 1, o2)
                            };
                        assert(no_admissible_between(data, le, enc, min_off, i, o2)) by {
                            assert forall|j: int|
                                i <= j < o2 && #[trigger] is_occurrence_at(
                                    d,
                                    le,
                                    j,
                                ) implies !admissible_cut(
                                data,
                                min_off,
                                boundary_offset(data, le, enc, j),
                            ) by {
                                if j < o {
                                    assert(!is_occurrence_at(d, le, j));
                                } else if j == o {
                                } else {
                                    assert(o + 1 <= j < o2);
                                }
                            }
                        }
                        assert(is_earliest_cut(data, le, enc, min_off, i, b));
                    },
                    None => {
                        assert(no_admissible_between(
                            data,
                            le,
                            enc,
                            min_off,
                            i,
                            d.len() + 1 as int,
                        )) by {
                            assert forall|j: int|
                                i <= j < d.len() + 1 && #[trigger] is_occurrence_at(
                                    d,
                                    le,
                                    j,
                                ) implies !admissible_cut(
                                data,
                                min_off,
                                boundary_offset(data, le, enc, j),
                            ) by {
                                if j < o {
                                    assert(!is_occurrence_at(d, le, j));
                                } else if j == o {
                                } else {
                                    assert(j >= o + 1);
                                }
                            }
                        }
                    },
                }
            }
        },
    }
}

/// What a cut scan of a byte span returns: the first admissible boundary at
/// or past `min_off`, except that empty spans, and spans too long for the
/// decoder or the re-encoder, are not scanned at all.
pub open spec fn cut_scan_result(data: Seq<u8>, le: Seq<char>, enc: int, min_off: int) -> Option<
    int,
> {
    if data.len() != 0 && data.len() <= MAX_SCAN && decoded_text(data, enc).len() <= MAX_SCAN {
        earliest_cut_from(data, le, enc, min_off, 0)
    } else {
        None
    }
}

/// The leftmost occurrence of `pat` in `text` at a position `>= from`.
fn find_occurrence_from(text: &Vec<char>, pat: &Vec<char>, from: usize) -> (r: Option<usize>)
    requires
        text@.len() <= MAX_SCAN,
    ensures
        ({
            match r {
                Some(p) => leftmost_from(text@, pat@, from as int) == Some(p as int),
                None => leftmost_from(text@, pat@, from as int) is None,
            }
        }),
{
    if pat.len() > text.len() {
        return None;
    }
    let last = text.len() - pat.len();
    let mut i: usize = from;
    while i <= last
        invariant
            from <= i,
            text@.len() <= MAX_SCAN,
            pat@.len() <= text@.len(),
            last == text@.len() - pat@.len(),
            leftmost_from(text@, pat@, from as int) == leftmost_from(text@, pat@, i as int),
        decreases last + 1 - i,
    {
        if occurs_at(text, pat, i) {
            return Some(i);
        }
        i = i + 1;
    }
    None
}

/// Finds the byte offset of the first line-ending boundary at or past
/// `min_off` within `data` that can serve as a cut: the decoded text's
/// occurrences are walked left to right and each boundary is measured by
/// re-encoding the decoded text through the end of the occurrence. The flag
/// reports whether the decoder met malformed input.
pub fn find_cut_boundary(
    data: &[u8],
    line_ending: &Vec<char>,
    enc: TextEncoding,
    min_off: usize,
) -> (r: (Option<usize>, bool))
    requires
        data@.len() <= MAX_SCAN,
    ensures
        opt_usize(r.0) == cut_scan_result(data@, line_ending@, enc.code(), min_off as int),
        r.1 == scan_warning(data@, enc.code()),
{
    if data.len() == 0 {
        return (None, false);
    }
    let (decoded, had_errors) = decode_chars(data, enc);
    if decoded.len() > MAX_SCAN {
        return (None, had_errors);
    }
    let n = data.len();
    let mut i: usize = 0;
    loop
        invariant
            decoded@ == decoded_text(data@, enc.code()),
            decoded@.len() <= MAX_SCAN,
            n == data@.len(),
            0 < n <= MAX_SCAN,
            i <= decoded@.len() + 1,
            had_errors == decode_reported_errors(data@, enc.code()),
            earliest_cut_from(data@, line_ending@, enc.code(), min_off as int, 0)
                == earliest_cut_from(data@, line_ending@, enc.code(), min_off as int, i as int),
        decreases decoded@.len() + 1 - i,
    {
        match find_occurrence_from(&decoded, line_ending, i) {
            None => {
                return (None, had_errors);
            },
            Some(o) => {
                proof {
                    lemma_leftmost_from(decoded@, line_ending@, i as int);
                }
                let through = o + line_ending.len();
                let prefix = vstd::slice::slice_to_vec(
                    vstd::slice::slice_subrange(decoded.as_slice(), 0, through),
                );
                let encoded = encode_chars(&prefix, enc);
                let b = encoded.len();
                if b >= min_off && b >= 1 && b <= n {
                    return (Some(b), had_errors);
                }
                i = o + 1;
            },
        }
    }
}

} // verus!
