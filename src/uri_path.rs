//! The path component of a URI (RFC 3986, section 3.3): a sequence of percent-encoded segments,
//! absolute when it starts with `/`.
use vstd::prelude::*;
use vstd::string::StringSliceAdditionalSpecFns;

use crate::utility::{
    at, escape_matches, get_percent_encoded_value, hex_digit, is_unreserved, normalize_string, normalized_form,
    percent_encoded_equality, percent_eq, percent_value, upper, well_encoded,
};

verus! {

pub const SLASH: u8 = 0x2f;

pub const PERCENT: u8 = 0x25;

pub const DOT: u8 = 0x2e;

pub const COLON: u8 = 0x3a;

/// The largest number of segments a path can hold.
pub const MAX_SEGMENTS: usize = 65535;

/// The bytes that may stand in a path segment: unreserved characters, sub-delimiters, `:`, `@`,
/// and the `%` of an escape.
pub open spec fn is_path_char(b: u8) -> bool {
    is_unreserved(b) || b == 0x21 || b == 0x24 || b == 0x25 || b == 0x26 || b == 0x27 || b == 0x28
        || b == 0x29 || b == 0x2a || b == 0x2b || b == 0x2c || b == 0x3b || b == 0x3d || b == 0x3a
        || b == 0x40
}

pub fn is_path_byte(b: u8) -> (r: bool)
    ensures
        r == is_path_char(b),
{
    crate::utility::is_unreserved_byte(b) || b == 0x21 || b == 0x24 || b == 0x25 || b == 0x26 || b
        == 0x27 || b == 0x28 || b == 0x29 || b == 0x2a || b == 0x2b || b == 0x2c || b == 0x3b || b
        == 0x3d || b == 0x3a || b == 0x40
}

/// An error representing an invalid path.
#[derive(Clone, Copy, Debug, PartialEq, Eq, Hash, Structural)]
pub enum PathError {
    /// The path has more than 65535 segments.
    ExceededMaximumLength,
    /// The path contained an invalid character.
    InvalidCharacter,
    /// The path contained an invalid percent encoding (e.g. `"%ZZ"`).
    InvalidPercentEncoding,
}

/// Checks a segment from the left: `Ok` holds whether it is normalized (every escape has
/// upper-case digits and stands for a byte outside the unreserved set), `Err` the first fault.
pub open spec fn scan_segment(v: Seq<u8>) -> Result<bool, PathError>
    decreases v.len(),
{
    if v.len() == 0 {
        Ok(true)
    } else if !is_path_char(v[0]) {
        Err(PathError::InvalidCharacter)
    } else if v[0] == PERCENT {
        if v.len() >= 3 && percent_value(at(v, 1), at(v, 2)) is Ok {
            let (h, up) = percent_value(at(v, 1), at(v, 2))->Ok_0;
            match scan_segment(v.subrange(3, v.len() as int)) {
                Ok(n) => Ok(n && up && !is_unreserved(h)),
                Err(e) => Err(e),
            }
        } else {
            Err(PathError::InvalidPercentEncoding)
        }
    } else {
        scan_segment(v.drop_first())
    }
}

pub open spec fn valid_segment(v: Seq<u8>) -> bool {
    scan_segment(v) is Ok
}

pub open spec fn segment_normalized(v: Seq<u8>) -> bool {
    scan_segment(v) == Ok::<bool, PathError>(true)
}

pub open spec fn is_single_dot(v: Seq<u8>) -> bool {
    percent_eq(v, seq![DOT], true)
}

pub open spec fn is_double_dot(v: Seq<u8>) -> bool {
    percent_eq(v, seq![DOT, DOT], true)
}

pub open spec fn ascii_text(v: Seq<u8>) -> Seq<char> {
    v.map_values(|b: u8| b as char)
}

pub open spec fn is_ascii_bytes(v: Seq<u8>) -> bool {
    forall|i: int| 0 <= i < v.len() ==> v[i] < 128
}

proof fn lemma_hex_digit_upper(d: u8)
    requires
        hex_digit(d) is Some,
    ensures
        hex_digit(upper(d)) == Some((hex_digit(d)->Some_0.0, true)),
{
}

proof fn lemma_valid_well_encoded(v: Seq<u8>)
    requires
        valid_segment(v),
    ensures
        well_encoded(v),
        is_ascii_bytes(v),
    decreases v.len(),
{
    if v.len() > 0 {
        if v[0] == PERCENT {
            let r = v.subrange(3, v.len() as int);
            lemma_valid_well_encoded(r);
            assert forall|i: int| 0 <= i < v.len() implies v[i] < 128 by {
                if i >= 3 {
                    assert(v[i] == r[i - 3]);
                }
            }
        } else {
            let r = v.drop_first();
            lemma_valid_well_encoded(r);
            assert forall|i: int| 0 <= i < v.len() implies v[i] < 128 by {
                if i >= 1 {
                    assert(v[i] == r[i - 1]);
                }
            }
        }
    }
}

/// Normalizing a valid segment gives a valid, normalized segment.
proof fn lemma_normalize_segment(v: Seq<u8>)
    requires
        valid_segment(v),
    ensures
        segment_normalized(normalized_form(v, true)),
    decreases v.len(),
{
    if v.len() > 0 {
        if v[0] == PERCENT {
            let r = v.subrange(3, v.len() as int);
            lemma_normalize_segment(r);
            let nr = normalized_form(r, true);
            let h = percent_value(at(v, 1), at(v, 2))->Ok_0.0;
            if is_unreserved(h) {
                let out = seq![h] + nr;
                assert(out.drop_first() =~= nr);
            } else {
                lemma_hex_digit_upper(v[1]);
                lemma_hex_digit_upper(v[2]);
                let out = seq![PERCENT, upper(v[1]), upper(v[2])] + nr;
                assert(out.subrange(3, out.len() as int) =~= nr);
                assert(at(out, 1) == Some(upper(v[1])));
                assert(at(out, 2) == Some(upper(v[2])));
            }
        } else {
            let r = v.drop_first();
            lemma_normalize_segment(r);
            let out = seq![v[0]] + normalized_form(r, true);
            assert(out.drop_first() =~= normalized_form(r, true));
        }
    }
}

/// A segment of a path. Segments are separated from each other by `/`.
#[derive(Debug)]
pub struct Segment {
    normalized: bool,
    segment: Vec<u8>,
}

impl View for Segment {
    type V = Seq<u8>;

    closed spec fn view(&self) -> Seq<u8> {
        self.segment@
    }
}

/// Relies on `std::str::from_utf8`: ASCII bytes are valid UTF-8, so the call succeeds and each
/// byte becomes the character of the same code.
#[verifier::external_body]
fn ascii_str(bytes: &[u8]) -> (r: &str)
    requires
        is_ascii_bytes(bytes@),
    ensures
        r@ == ascii_text(bytes@),
{
    std::str::from_utf8(bytes).unwrap()
}

/// Relies on `String::from_utf8`: ASCII bytes are valid UTF-8, so the call succeeds and each
/// byte becomes the character of the same code.
#[verifier::external_body]
pub(crate) fn ascii_string(bytes: Vec<u8>) -> (r: String)
    requires
        is_ascii_bytes(bytes@),
    ensures
        r@ == ascii_text(bytes@),
{
    String::from_utf8(bytes).unwrap()
}

impl Segment {
    pub closed spec fn wf(&self) -> bool {
        &&& valid_segment(self@)
        &&& self.normalized == segment_normalized(self@)
    }

    /// Checks `value` as a segment and, when it is valid, returns it.
    pub fn try_from_bytes(value: &[u8]) -> (r: Result<Segment, PathError>)
        ensures
            r is Ok <==> valid_segment(value@),
            r is Err ==> scan_segment(value@) == Err::<bool, PathError>(r->Err_0),
            r is Ok ==> r->Ok_0@ == value@ && r->Ok_0.wf(),
    {
        let mut i: usize = 0;
        let mut normalized = true;
        assert(value@.subrange(0, value.len() as int) =~= value@);
        while i < value.len()
            invariant
                i <= value.len(),
                scan_segment(value@) == match scan_segment(
                    value@.subrange(i as int, value.len() as int),
                ) {
                    Ok(n) => Ok(n && normalized),
                    Err(e) => Err(e),
                },
            decreases value.len() - i,
        {
            let ghost v = value@.subrange(i as int, value.len() as int);
            let byte = value[i];
            if !is_path_byte(byte) {
                return Err(PathError::InvalidCharacter);
            }
            if byte == PERCENT {
                if value.len() - i < 3 {
                    return Err(PathError::InvalidPercentEncoding);
                }
                assert(at(v, 1) == Some(value[i + 1] as u8) && at(v, 2) == Some(
                    value[i + 2] as u8,
                ));
                match get_percent_encoded_value(Some(value[i + 1]), Some(value[i + 2])) {
                    Ok((hex_value, uppercase)) => {
                        if !uppercase || crate::utility::is_unreserved_byte(hex_value) {
                            normalized = false;
                        }
                    },
                    Err(_) => {
                        return Err(PathError::InvalidPercentEncoding);
                    },
                }
                assert(v.subrange(3, v.len() as int) =~= value@.subrange(
                    i + 3,
                    value.len() as int,
                ));
                i = i + 3;
            } else {
                assert(v.drop_first() =~= value@.subrange(i + 1, value.len() as int));
                i = i + 1;
            }
        }
        assert(value@.subrange(i as int, value.len() as int).len() == 0);
        let mut segment: Vec<u8> = Vec::new();
        let mut k: usize = 0;
        while k < value.len()
            invariant
                k <= value.len(),
                segment@ == value@.subrange(0, k as int),
            decreases value.len() - k,
        {
            segment.push(value[k]);
            assert(segment@ =~= value@.subrange(0, k + 1));
            k = k + 1;
        }
        assert(segment@ =~= value@);
        Ok(Segment { normalized, segment })
    }

    /// Checks `value` as a segment and, when it is valid, returns it.
    pub fn try_from(value: &str) -> (r: Result<Segment, PathError>)
        ensures
            r is Ok <==> valid_segment(value.spec_bytes()),
            r is Err ==> scan_segment(value.spec_bytes()) == Err::<bool, PathError>(r->Err_0),
            r is Ok ==> r->Ok_0@ == value.spec_bytes() && r->Ok_0.wf(),
    {
        Segment::try_from_bytes(value.as_bytes())
    }

    /// Returns a new segment with the same bytes.
    pub fn as_borrowed(&self) -> (r: Segment)
        requires
            self.wf(),
        ensures
            r@ == self@,
            r.wf(),
    {
        Segment { normalized: self.normalized, segment: self.segment.clone() }
    }

    /// The segment as text.
    pub fn as_str(&self) -> (r: &str)
        requires
            self.wf(),
        ensures
            r@ == ascii_text(self@),
    {
        proof {
            lemma_valid_well_encoded(self@);
        }
        ascii_str(self.segment.as_slice())
    }

    /// The raw bytes of the segment.
    pub fn as_bytes(&self) -> (r: &[u8])
        ensures
            r@ == self@,
    {
        self.segment.as_slice()
    }

    /// The empty segment.
    pub fn empty() -> (r: Segment)
        ensures
            r@ == Seq::<u8>::empty(),
            r.wf(),
    {
        Segment { normalized: true, segment: Vec::new() }
    }

    /// Converts the segment into an owned copy.
    pub fn into_owned(self) -> (r: Segment)
        ensures
            r == self,
    {
        self
    }

    /// Whether the segment is `"."` or `".."` (escapes of `.` count as `.`).
    pub fn is_dot_segment(&self) -> (r: bool)
        ensures
            r == (is_single_dot(self@) || is_double_dot(self@)),
    {
        self.is_single_dot_segment() || self.is_double_dot_segment()
    }

    /// Whether the segment is `".."`.
    pub fn is_double_dot_segment(&self) -> (r: bool)
        ensures
            r == is_double_dot(self@),
    {
        let dots: Vec<u8> = vec![DOT, DOT];
        assert(dots@ =~= seq![DOT, DOT]);
        percent_encoded_equality(self.segment.as_slice(), dots.as_slice(), true)
    }

    /// Whether the segment is `"."`.
    pub fn is_single_dot_segment(&self) -> (r: bool)
        ensures
            r == is_single_dot(self@),
    {
        let dot: Vec<u8> = vec![DOT];
        assert(dot@ =~= seq![DOT]);
        percent_encoded_equality(self.segment.as_slice(), dot.as_slice(), true)
    }

    /// Whether no escape of the segment stands for an unreserved byte and every escape has
    /// upper-case digits.
    pub fn is_normalized(&self) -> (r: bool)
        requires
            self.wf(),
        ensures
            r == segment_normalized(self@),
    {
        self.normalized
    }

    /// Whether the segment holds a `:`.
    pub fn contains_colon(&self) -> (r: bool)
        ensures
            r == self@.contains(COLON),
    {
        let mut i: usize = 0;
        while i < self.segment.len()
            invariant
                i <= self.segment.len(),
                forall|k: int| 0 <= k < i ==> self.segment@[k] != COLON,
            decreases self.segment.len() - i,
        {
            if self.segment[i] == COLON {
                return true;
            }
            i = i + 1;
        }
        false
    }

    /// Decodes escapes of unreserved bytes and writes the digits of other escapes in upper
    /// case.
    pub fn normalize(&mut self)
        requires
            old(self).wf(),
        ensures
            final(self).wf(),
            final(self)@ == if segment_normalized(old(self)@) {
                old(self)@
            } else {
                normalized_form(old(self)@, true)
            },
            segment_normalized(final(self)@),
    {
        if !self.normalized {
            proof {
                lemma_valid_well_encoded(self@);
                lemma_normalize_segment(self@);
            }
            self.segment = normalize_string(self.segment.as_slice(), true);
            self.normalized = true;
        }
    }
}

impl PartialEq for Segment {
    fn eq(&self, other: &Segment) -> (r: bool) {
        percent_encoded_equality(self.segment.as_slice(), other.segment.as_slice(), true)
    }
}

impl vstd::std_specs::cmp::PartialEqSpecImpl for Segment {
    open spec fn obeys_eq_spec() -> bool {
        true
    }

    open spec fn eq_spec(&self, other: &Segment) -> bool {
        percent_eq(self@, other@, true)
    }
}

impl Eq for Segment {

}

impl<'a> PartialEq<&'a str> for Segment {
    fn eq(&self, other: &&'a str) -> (r: bool) {
        percent_encoded_equality(self.segment.as_slice(), other.as_bytes(), true)
    }
}

impl<'a> vstd::std_specs::cmp::PartialEqSpecImpl<&'a str> for Segment {
    open spec fn obeys_eq_spec() -> bool {
        true
    }

    open spec fn eq_spec(&self, other: &&'a str) -> bool {
        percent_eq(self@, (*other).spec_bytes(), true)
    }
}


/// The body of a path: what follows its leading `/`, if any.
pub open spec fn path_body(b: Seq<u8>) -> Seq<u8> {
    if b.len() > 0 && b[0] == SLASH {
        b.drop_first()
    } else {
        b
    }
}

/// Checks the body of a path from the left, given the number of `/` already seen: `None` when it
/// is valid, else the first fault.
pub open spec fn scan_path(v: Seq<u8>, slashes: int) -> Option<PathError>
    decreases v.len(),
{
    if v.len() == 0 {
        None
    } else if v[0] == SLASH {
        if slashes + 1 >= MAX_SEGMENTS {
            Some(PathError::ExceededMaximumLength)
        } else {
            scan_path(v.drop_first(), slashes + 1)
        }
    } else if !is_path_char(v[0]) {
        Some(PathError::InvalidCharacter)
    } else if v[0] == PERCENT {
        if v.len() >= 3 && percent_value(at(v, 1), at(v, 2)) is Ok {
            scan_path(v.subrange(3, v.len() as int), slashes)
        } else {
            Some(PathError::InvalidPercentEncoding)
        }
    } else {
        scan_path(v.drop_first(), slashes)
    }
}

/// The pieces of `v` between its `/` bytes.
pub open spec fn split_segments(v: Seq<u8>) -> Seq<Seq<u8>>
    decreases v.len(),
{
    if v.len() == 0 {
        seq![Seq::empty()]
    } else if v[0] == SLASH {
        seq![Seq::empty()] + split_segments(v.drop_first())
    } else {
        let r = split_segments(v.drop_first());
        r.update(0, seq![v[0]] + r[0])
    }
}

pub open spec fn prepend(cur: Seq<u8>, s: Seq<Seq<u8>>) -> Seq<Seq<u8>> {
    s.update(0, cur + s[0])
}

pub open spec fn count_single(s: Seq<Seq<u8>>) -> nat
    decreases s.len(),
{
    if s.len() == 0 {
        0
    } else {
        count_single(s.drop_last()) + if is_single_dot(s.last()) {
            1nat
        } else {
            0nat
        }
    }
}

pub open spec fn count_double(s: Seq<Seq<u8>>) -> nat
    decreases s.len(),
{
    if s.len() == 0 {
        0
    } else {
        count_double(s.drop_last()) + if is_double_dot(s.last()) {
            1nat
        } else {
            0nat
        }
    }
}

pub open spec fn count_unnormalized(s: Seq<Seq<u8>>) -> nat
    decreases s.len(),
{
    if s.len() == 0 {
        0
    } else {
        count_unnormalized(s.drop_last()) + if segment_normalized(s.last()) {
            0nat
        } else {
            1nat
        }
    }
}

/// The number of `".."` segments at the start of `s`.
pub open spec fn leading_double(s: Seq<Seq<u8>>) -> nat
    decreases s.len(),
{
    if s.len() > 0 && is_double_dot(s[0]) {
        1 + leading_double(s.drop_first())
    } else {
        0
    }
}

/// Whether a path is normalized, as a reference or not (see `Path::normalize`).
pub open spec fn path_normalized(absolute: bool, s: Seq<Seq<u8>>, as_reference: bool) -> bool {
    &&& count_unnormalized(s) == 0
    &&& if absolute || !as_reference {
        count_single(s) == 0 && count_double(s) == 0
    } else {
        (count_single(s) == 0 || (count_single(s) == 1 && is_single_dot(s[0]) && s.len() > 1
            && s[1].contains(COLON))) && count_double(s) == leading_double(s)
    }
}

/// A segment as it is after `Segment::normalize`.
pub open spec fn norm_seg(v: Seq<u8>) -> Seq<u8> {
    if segment_normalized(v) {
        v
    } else {
        normalized_form(v, true)
    }
}

pub open spec fn kept(v: Seq<u8>, normalize: bool) -> Seq<u8> {
    if normalize {
        norm_seg(v)
    } else {
        v
    }
}

/// The state of dot-segment removal (RFC 3986, section 5.2.4) after a prefix of the segments:
/// whether a `/` is pending before the next segment, the output so far, whether the output is
/// absolute, and whether the last segment was kept.
pub struct DotState {
    pub pending: bool,
    pub out: Seq<Seq<u8>>,
    pub absolute: bool,
    pub kept_last: bool,
}

pub open spec fn dot_step(st: DotState, seg: Seq<u8>, normalize: bool) -> DotState {
    if st.pending && is_single_dot(seg) {
        DotState { pending: st.pending, out: st.out, absolute: st.absolute, kept_last: false }
    } else if st.pending && is_double_dot(seg) {
        if st.out.len() > 0 {
            DotState {
                pending: st.pending,
                out: st.out.drop_last(),
                absolute: st.absolute,
                kept_last: false,
            }
        } else {
            DotState { pending: st.pending, out: st.out, absolute: false, kept_last: false }
        }
    } else if !st.pending && (is_single_dot(seg) || is_double_dot(seg)) {
        DotState { pending: st.pending, out: st.out, absolute: st.absolute, kept_last: false }
    } else {
        DotState {
            pending: true,
            out: st.out.push(kept(seg, normalize)),
            absolute: if st.pending && st.out.len() == 0 {
                true
            } else {
                st.absolute
            },
            kept_last: true,
        }
    }
}

pub open spec fn dot_fold(segs: Seq<Seq<u8>>, absolute: bool, normalize: bool) -> DotState
    decreases segs.len(),
{
    if segs.len() == 0 {
        DotState { pending: absolute, out: Seq::empty(), absolute, kept_last: false }
    } else {
        dot_step(dot_fold(segs.drop_last(), absolute, normalize), segs.last(), normalize)
    }
}

/// The path left after removing every dot segment, as `(absolute, segments)`; kept segments are
/// normalized when `normalize` holds.
pub open spec fn dots_removed(absolute: bool, segs: Seq<Seq<u8>>, normalize: bool) -> (bool, Seq<
    Seq<u8>,
>) {
    let st = dot_fold(segs, absolute, normalize);
    let (abs, out) = if st.pending && !st.kept_last {
        if st.out.len() == 0 {
            (true, st.out)
        } else {
            (st.absolute, st.out.push(Seq::empty()))
        }
    } else {
        (st.absolute, st.out)
    };
    if out.len() == 0 {
        (abs, seq![Seq::empty()])
    } else {
        (abs, out)
    }
}

/// The state of normalizing a relative path as a reference, after a prefix of its segments: the
/// output so far and the output index of the last `".."` kept.
pub struct RefState {
    pub out: Seq<Seq<u8>>,
    pub last_dot: Option<int>,
}

/// Whether the segment after index `i` holds a `:`.
pub open spec fn colon_follows(segs: Seq<Seq<u8>>, i: int) -> bool {
    i + 1 < segs.len() && segs[i + 1].contains(COLON)
}

pub open spec fn ref_step(st: RefState, segs: Seq<Seq<u8>>, i: int) -> RefState {
    let seg = segs[i];
    let n = st.out.len() as int;
    if is_single_dot(seg) && (n > 0 || !colon_follows(segs, i)) {
        st
    } else if is_double_dot(seg) && !((st.last_dot is None && n == 0) || (n > 0 && st.last_dot
        == Some(n - 1))) {
        let k: int = if n == 2 && is_single_dot(st.out[0]) && !colon_follows(segs, i) {
            2
        } else {
            1
        };
        RefState {
            out: st.out.take(
                if n >= k {
                    n - k
                } else {
                    0
                },
            ),
            last_dot: st.last_dot,
        }
    } else if is_double_dot(seg) {
        RefState { out: st.out.push(norm_seg(seg)), last_dot: Some(n) }
    } else {
        RefState { out: st.out.push(norm_seg(seg)), last_dot: st.last_dot }
    }
}

pub open spec fn ref_fold(segs: Seq<Seq<u8>>, i: nat) -> RefState
    decreases i,
{
    if i == 0 {
        RefState { out: Seq::empty(), last_dot: None }
    } else {
        ref_step(ref_fold(segs, (i - 1) as nat), segs, i - 1)
    }
}

/// The segments of a relative path normalized as a reference: `"."` goes unless it starts the
/// path before a segment with a `:`, and `".."` goes unless it leads the path.
pub open spec fn ref_normalized(segs: Seq<Seq<u8>>) -> Seq<Seq<u8>> {
    let out = ref_fold(segs, segs.len()).out;
    if out.len() == 0 {
        seq![Seq::empty()]
    } else {
        out
    }
}

/// What `Path::normalize` makes of a path, as `(absolute, segments)`.
pub open spec fn normalized_path(absolute: bool, segs: Seq<Seq<u8>>, as_reference: bool) -> (
    bool,
    Seq<Seq<u8>>,
) {
    if path_normalized(absolute, segs, as_reference) {
        (absolute, segs)
    } else if absolute || !as_reference {
        dots_removed(absolute, segs, true)
    } else {
        (absolute, ref_normalized(segs))
    }
}

/// The segments joined by `/`.
pub open spec fn join_segments(s: Seq<Seq<u8>>) -> Seq<u8>
    decreases s.len(),
{
    if s.len() == 0 {
        Seq::empty()
    } else if s.len() == 1 {
        s[0]
    } else {
        join_segments(s.drop_last()) + seq![SLASH] + s.last()
    }
}

/// The text of a path: a `/` when it is absolute, then its segments joined by `/`.
pub open spec fn path_text(absolute: bool, s: Seq<Seq<u8>>) -> Seq<u8> {
    (if absolute {
        seq![SLASH]
    } else {
        Seq::empty()
    }) + join_segments(s)
}

pub open spec fn views(v: Seq<Segment>) -> Seq<Seq<u8>> {
    v.map_values(|s: Segment| s@)
}

pub open spec fn all_wf(v: Seq<Segment>) -> bool {
    forall|i: int| 0 <= i < v.len() ==> #[trigger] v[i].wf()
}

pub open spec fn all_unreserved(u: Seq<u8>) -> bool {
    forall|k: int| 0 <= k < u.len() ==> is_unreserved(#[trigger] u[k])
}

/// A well-encoded string whose normal form is a run of unreserved bytes equals that run.
proof fn lemma_normal_form_equal(v: Seq<u8>, u: Seq<u8>)
    requires
        well_encoded(v),
        normalized_form(v, true) == u,
        all_unreserved(u),
    ensures
        percent_eq(v, u, true),
    decreases v.len(),
{
    if v.len() > 0 {
        if v[0] == PERCENT {
            let rest = v.subrange(3, v.len() as int);
            let h = percent_value(at(v, 1), at(v, 2))->Ok_0.0;
            if !is_unreserved(h) {
                assert(u[0] == PERCENT);
                assert(is_unreserved(u[0]));
            }
            assert(u.drop_first() =~= normalized_form(rest, true));
            assert(all_unreserved(u.drop_first())) by {
                assert forall|k: int| 0 <= k < u.drop_first().len() implies is_unreserved(
                    #[trigger] u.drop_first()[k],
                ) by {
                    assert(u.drop_first()[k] == u[k + 1]);
                }
            }
            lemma_normal_form_equal(rest, u.drop_first());
            assert(u[0] == h);
        } else {
            let rest = v.drop_first();
            assert(u.drop_first() =~= normalized_form(rest, true));
            assert(all_unreserved(u.drop_first())) by {
                assert forall|k: int| 0 <= k < u.drop_first().len() implies is_unreserved(
                    #[trigger] u.drop_first()[k],
                ) by {
                    assert(u.drop_first()[k] == u[k + 1]);
                }
            }
            lemma_normal_form_equal(rest, u.drop_first());
            assert(u[0] == v[0]);
            assert(is_unreserved(u[0]));
        }
    } else {
        assert(u.len() == 0);
    }
}

/// A normalized segment equal to a run of unreserved bytes is that run: it cannot hold an
/// escape of an unreserved byte.
proof fn lemma_normalized_equal(w: Seq<u8>, u: Seq<u8>)
    requires
        segment_normalized(w),
        percent_eq(w, u, true),
        all_unreserved(u),
    ensures
        w == u,
    decreases w.len() + u.len(),
{
    if w.len() == 0 {
        assert(u.len() == 0);
        assert(w =~= u);
    } else {
        assert(u.len() > 0);
        assert(is_unreserved(u[0]));
        if w[0] == PERCENT {
            assert(u[0] != PERCENT);
            assert(escape_matches(u[0], at(w, 1), at(w, 2), true));
            assert(false);
        } else {
            let wr = w.drop_first();
            let ur = u.drop_first();
            assert(all_unreserved(ur)) by {
                assert forall|k: int| 0 <= k < ur.len() implies is_unreserved(#[trigger] ur[k]) by {
                    assert(ur[k] == u[k + 1]);
                }
            }
            lemma_normalized_equal(wr, ur);
            assert(w =~= seq![w[0]] + wr);
            assert(u =~= seq![u[0]] + ur);
        }
    }
}

/// Normalizing a valid segment keeps it valid, makes it normalized, and makes a dot segment of
/// no segment that was not one.
proof fn lemma_norm_seg(v: Seq<u8>)
    requires
        valid_segment(v),
    ensures
        valid_segment(norm_seg(v)),
        segment_normalized(norm_seg(v)),
        is_single_dot(norm_seg(v)) ==> is_single_dot(v),
        is_double_dot(norm_seg(v)) ==> is_double_dot(v),
{
    if !segment_normalized(v) {
        let w = normalized_form(v, true);
        lemma_valid_well_encoded(v);
        lemma_normalize_segment(v);
        let one = seq![DOT];
        let two = seq![DOT, DOT];
        assert(all_unreserved(one));
        assert(all_unreserved(two));
        if is_single_dot(w) {
            lemma_normalized_equal(w, one);
            lemma_normal_form_equal(v, one);
        }
        if is_double_dot(w) {
            lemma_normalized_equal(w, two);
            lemma_normal_form_equal(v, two);
        }
    }
}

/// Segments that are normalized and no dot segments.
pub open spec fn clean(s: Seq<Seq<u8>>) -> bool {
    forall|k: int|
        0 <= k < s.len() ==> segment_normalized(#[trigger] s[k]) && !is_single_dot(s[k])
            && !is_double_dot(s[k])
}

proof fn lemma_clean_counts(s: Seq<Seq<u8>>)
    requires
        clean(s),
    ensures
        count_single(s) == 0,
        count_double(s) == 0,
        count_unnormalized(s) == 0,
        leading_double(s) == 0,
    decreases s.len(),
{
    if s.len() > 0 {
        assert(clean(s.drop_last())) by {
            assert forall|k: int| 0 <= k < s.drop_last().len() implies segment_normalized(
                #[trigger] s.drop_last()[k],
            ) && !is_single_dot(s.drop_last()[k]) && !is_double_dot(s.drop_last()[k]) by {
                assert(s.drop_last()[k] == s[k]);
            }
        }
        lemma_clean_counts(s.drop_last());
        assert(s.last() == s[s.len() - 1]);
        assert(s[0] == s[0]);
    }
}

proof fn lemma_dot_fold_clean(segs: Seq<Seq<u8>>, absolute: bool)
    requires
        forall|k: int| 0 <= k < segs.len() ==> valid_segment(#[trigger] segs[k]),
    ensures
        clean(dot_fold(segs, absolute, true).out),
    decreases segs.len(),
{
    if segs.len() > 0 {
        let prev = segs.drop_last();
        assert forall|k: int| 0 <= k < prev.len() implies valid_segment(#[trigger] prev[k]) by {
            assert(prev[k] == segs[k]);
        }
        lemma_dot_fold_clean(prev, absolute);
        let st = dot_fold(prev, absolute, true);
        let seg = segs.last();
        assert(valid_segment(seg)) by {
            assert(seg == segs[segs.len() - 1]);
        }
        lemma_norm_seg(seg);
        let out = dot_fold(segs, absolute, true).out;
        assert forall|k: int| 0 <= k < out.len() implies segment_normalized(#[trigger] out[k])
            && !is_single_dot(out[k]) && !is_double_dot(out[k]) by {
            if k < st.out.len() {
                assert(out[k] == st.out[k]);
            }
        }
    }
}

/// Removing the dot segments and normalizing what is kept gives a normalized path.
proof fn lemma_dots_removed_normalized(absolute: bool, segs: Seq<Seq<u8>>, as_reference: bool)
    requires
        forall|k: int| 0 <= k < segs.len() ==> valid_segment(#[trigger] segs[k]),
    ensures
        path_normalized(
            dots_removed(absolute, segs, true).0,
            dots_removed(absolute, segs, true).1,
            as_reference,
        ),
{
    lemma_dot_fold_clean(segs, absolute);
    let st = dot_fold(segs, absolute, true);
    let e = Seq::<u8>::empty();
    assert(segment_normalized(e));
    assert(!is_single_dot(e) && !is_double_dot(e));
    let out = dots_removed(absolute, segs, true).1;
    assert(clean(out)) by {
        assert forall|k: int| 0 <= k < out.len() implies segment_normalized(#[trigger] out[k])
            && !is_single_dot(out[k]) && !is_double_dot(out[k]) by {
            if k < st.out.len() && out.len() > 0 && !(st.pending && !st.kept_last && st.out.len()
                == 0) {
                assert(out[k] == st.out[k]);
            } else {
                assert(out[k] == e);
            }
        }
    }
    lemma_clean_counts(out);
}

/// The normal form of a well-encoded string equal to a run of unreserved bytes is that run.
proof fn lemma_equal_normal_form(v: Seq<u8>, u: Seq<u8>)
    requires
        well_encoded(v),
        percent_eq(v, u, true),
        all_unreserved(u),
    ensures
        normalized_form(v, true) == u,
    decreases v.len() + u.len(),
{
    if v.len() == 0 {
        assert(u.len() == 0);
        assert(u =~= Seq::<u8>::empty());
    } else {
        assert(u.len() > 0 && is_unreserved(u[0]));
        let ur = u.drop_first();
        assert(all_unreserved(ur)) by {
            assert forall|k: int| 0 <= k < ur.len() implies is_unreserved(#[trigger] ur[k]) by {
                assert(ur[k] == u[k + 1]);
            }
        }
        if v[0] == PERCENT {
            let rest = v.subrange(3, v.len() as int);
            assert(escape_matches(u[0], at(v, 1), at(v, 2), true));
            lemma_equal_normal_form(rest, ur);
        } else {
            lemma_equal_normal_form(v.drop_first(), ur);
        }
        assert(u =~= seq![u[0]] + ur);
    }
}

/// Normalizing a `".."` segment gives `".."`.
proof fn lemma_norm_double(v: Seq<u8>)
    requires
        valid_segment(v),
        is_double_dot(v),
    ensures
        norm_seg(v) == seq![DOT, DOT],
        is_double_dot(norm_seg(v)),
        !is_single_dot(norm_seg(v)),
{
    let two = seq![DOT, DOT];
    assert(all_unreserved(two));
    lemma_valid_well_encoded(v);
    if segment_normalized(v) {
        lemma_normalized_equal(v, two);
    } else {
        lemma_equal_normal_form(v, two);
    }
    let w = norm_seg(v);
    assert(w.drop_first() =~= seq![DOT]);
    assert(w.drop_first().drop_first() =~= Seq::<u8>::empty());
    assert(seq![DOT].drop_first() =~= Seq::<u8>::empty());
    assert(percent_eq(w.drop_first().drop_first(), Seq::<u8>::empty(), true));
    assert(percent_eq(w.drop_first(), seq![DOT], true));
    assert(is_double_dot(w));
    assert(!percent_eq(w.drop_first(), Seq::<u8>::empty(), true));
}

/// A segment equal to a run of unreserved bytes holds no `:`.
proof fn lemma_plain_equal_no_colon(v: Seq<u8>, u: Seq<u8>)
    requires
        percent_eq(v, u, true),
        all_unreserved(u),
    ensures
        !v.contains(COLON),
    decreases v.len() + u.len(),
{
    if v.len() > 0 {
        assert(u.len() > 0 && is_unreserved(u[0]));
        let ur = u.drop_first();
        assert(all_unreserved(ur)) by {
            assert forall|k: int| 0 <= k < ur.len() implies is_unreserved(#[trigger] ur[k]) by {
                assert(ur[k] == u[k + 1]);
            }
        }
        if v[0] == PERCENT {
            let rest = v.subrange(3, v.len() as int);
            assert(escape_matches(u[0], at(v, 1), at(v, 2), true));
            assert(hex_digit(v[1]) is Some && hex_digit(v[2]) is Some);
            lemma_plain_equal_no_colon(rest, ur);
            assert forall|k: int| 0 <= k < v.len() implies v[k] != COLON by {
                if k >= 3 {
                    assert(v[k] == rest[k - 3]);
                }
            }
        } else {
            let rest = v.drop_first();
            lemma_plain_equal_no_colon(rest, ur);
            assert forall|k: int| 0 <= k < v.len() implies v[k] != COLON by {
                if k >= 1 {
                    assert(v[k] == rest[k - 1]);
                }
            }
        }
    }
}

/// A segment holding a `:` is no dot segment.
proof fn lemma_colon_not_dot(v: Seq<u8>)
    requires
        v.contains(COLON),
    ensures
        !is_single_dot(v),
        !is_double_dot(v),
{
    let one = seq![DOT];
    let two = seq![DOT, DOT];
    assert(all_unreserved(one));
    assert(all_unreserved(two));
    if is_single_dot(v) {
        lemma_plain_equal_no_colon(v, one);
    }
    if is_double_dot(v) {
        lemma_plain_equal_no_colon(v, two);
    }
}

/// Normalizing keeps every `:`.
proof fn lemma_normal_form_colon(v: Seq<u8>)
    requires
        well_encoded(v),
        v.contains(COLON),
    ensures
        normalized_form(v, true).contains(COLON),
    decreases v.len(),
{
    let k0 = choose|k: int| 0 <= k < v.len() && v[k] == COLON;
    if v[0] == PERCENT {
        let rest = v.subrange(3, v.len() as int);
        assert(hex_digit(v[1]) is Some && hex_digit(v[2]) is Some);
        assert(k0 >= 3);
        assert(rest[k0 - 3] == COLON);
        lemma_normal_form_colon(rest);
        let nr = normalized_form(rest, true);
        let j = choose|j: int| 0 <= j < nr.len() && nr[j] == COLON;
        let h = percent_value(at(v, 1), at(v, 2))->Ok_0.0;
        if is_unreserved(h) {
            assert((seq![h] + nr)[j + 1] == COLON);
        } else {
            assert((seq![PERCENT, upper(v[1]), upper(v[2])] + nr)[j + 3] == COLON);
        }
    } else if v[0] == COLON {
        assert(normalized_form(v, true)[0] == COLON);
    } else {
        let rest = v.drop_first();
        assert(rest[k0 - 1] == COLON);
        lemma_normal_form_colon(rest);
        let nr = normalized_form(rest, true);
        let j = choose|j: int| 0 <= j < nr.len() && nr[j] == COLON;
        assert((seq![v[0]] + nr)[j + 1] == COLON);
    }
}

/// What normalizing a relative path as a reference keeps true of its output: every segment is
/// normalized, the `".."` segments lead it, `last_dot` marks the last of them, and a `"."` can
/// only start it, before a segment holding a `:` (one still to come when it stands alone).
pub open spec fn ref_inv(st: RefState, segs: Seq<Seq<u8>>, i: int) -> bool {
    let out = st.out;
    let n = out.len() as int;
    &&& forall|k: int| 0 <= k < n ==> segment_normalized(#[trigger] out[k])
    &&& forall|j: int, k: int|
        0 <= j < k < n && is_double_dot(#[trigger] out[k]) ==> is_double_dot(#[trigger] out[j])
    &&& forall|k: int| 1 <= k < n ==> !is_single_dot(#[trigger] out[k])
    &&& match st.last_dot {
        Some(m) => 0 <= m < n && is_double_dot(out[m]) && (m + 1 == n || !is_double_dot(
            out[m + 1],
        )),
        None => forall|k: int| 0 <= k < n ==> !is_double_dot(#[trigger] out[k]),
    }
    &&& (n == 1 && is_single_dot(out[0])) ==> colon_follows(segs, i - 1)
    &&& (n >= 2 && is_single_dot(out[0])) ==> out[1].contains(COLON)
}

proof fn lemma_normalized_single_not_double(v: Seq<u8>)
    requires
        segment_normalized(v),
        is_single_dot(v),
    ensures
        !is_double_dot(v),
{
    let one = seq![DOT];
    let two = seq![DOT, DOT];
    assert(all_unreserved(one));
    assert(all_unreserved(two));
    lemma_normalized_equal(v, one);
    if is_double_dot(v) {
        lemma_normalized_equal(v, two);
        assert(one.len() != two.len());
    }
}

proof fn lemma_ref_inv(segs: Seq<Seq<u8>>, i: nat)
    requires
        i <= segs.len(),
        forall|k: int| 0 <= k < segs.len() ==> valid_segment(#[trigger] segs[k]),
    ensures
        ref_inv(ref_fold(segs, i), segs, i as int),
    decreases i,
{
    if i > 0 {
        let p = (i - 1) as int;
        lemma_ref_inv(segs, (i - 1) as nat);
        let st = ref_fold(segs, (i - 1) as nat);
        let out = st.out;
        let n = out.len() as int;
        let seg = segs[p];
        lemma_norm_seg(seg);
        let ns = norm_seg(seg);
        let next = ref_fold(segs, i);
        assert(next == ref_step(st, segs, p));
        let keeps = (st.last_dot is None && n == 0) || (n > 0 && st.last_dot == Some(n - 1));
        if n >= 1 && is_single_dot(out[0]) {
            lemma_normalized_single_not_double(out[0]);
        }
        if colon_follows(segs, p) {
            lemma_colon_not_dot(segs[p + 1]);
        }
        if n == 1 && is_single_dot(out[0]) && p >= 0 {
            assert(colon_follows(segs, p - 1));
            lemma_colon_not_dot(seg);
            lemma_valid_well_encoded(seg);
            if !segment_normalized(seg) {
                lemma_normal_form_colon(seg);
            }
        }
        if is_single_dot(seg) && (n > 0 || !colon_follows(segs, p)) {
            assert(next == st);
            if n == 1 && is_single_dot(out[0]) {
                assert(false);
            }
        } else if is_double_dot(seg) && !keeps {
            let k: int = if n == 2 && is_single_dot(out[0]) && !colon_follows(segs, p) {
                2
            } else {
                1
            };
            let m = if n >= k {
                n - k
            } else {
                0
            };
            let o2 = next.out;
            assert(o2 == out.take(m));
            assert forall|x: int| 0 <= x < o2.len() implies o2[x] == out[x] by {}
            assert(ref_inv(next, segs, i as int));
        } else if is_double_dot(seg) {
            let o2 = next.out;
            assert(o2 == out.push(ns));
            lemma_norm_double(seg);
            assert forall|x: int| 0 <= x < n implies o2[x] == out[x] by {}
            assert(ref_inv(next, segs, i as int));
        } else {
            let o2 = next.out;
            assert(o2 == out.push(ns));
            assert(!is_double_dot(ns));
            assert forall|x: int| 0 <= x < n implies o2[x] == out[x] by {}
            assert(ref_inv(next, segs, i as int));
        }
    } else {
        assert(ref_fold(segs, 0).out.len() == 0);
    }
}

proof fn lemma_count_unnormalized_zero(s: Seq<Seq<u8>>)
    requires
        forall|k: int| 0 <= k < s.len() ==> segment_normalized(#[trigger] s[k]),
    ensures
        count_unnormalized(s) == 0,
    decreases s.len(),
{
    if s.len() > 0 {
        assert forall|k: int| 0 <= k < s.drop_last().len() implies segment_normalized(
            #[trigger] s.drop_last()[k],
        ) by {
            assert(s.drop_last()[k] == s[k]);
        }
        lemma_count_unnormalized_zero(s.drop_last());
        assert(s.last() == s[s.len() - 1]);
    }
}

proof fn lemma_count_single_first(s: Seq<Seq<u8>>)
    requires
        forall|k: int| 1 <= k < s.len() ==> !is_single_dot(#[trigger] s[k]),
    ensures
        count_single(s) == if s.len() > 0 && is_single_dot(s[0]) {
            1nat
        } else {
            0nat
        },
    decreases s.len(),
{
    if s.len() > 0 {
        let p = s.drop_last();
        assert forall|k: int| 1 <= k < p.len() implies !is_single_dot(#[trigger] p[k]) by {
            assert(p[k] == s[k]);
        }
        lemma_count_single_first(p);
        assert(s.last() == s[s.len() - 1]);
        if s.len() > 1 {
            assert(p[0] == s[0]);
        }
    }
}

proof fn lemma_count_double_prefix(s: Seq<Seq<u8>>, l: int)
    requires
        0 <= l <= s.len(),
        forall|k: int| 0 <= k < l ==> is_double_dot(#[trigger] s[k]),
        forall|k: int| l <= k < s.len() ==> !is_double_dot(#[trigger] s[k]),
    ensures
        count_double(s) == l,
        leading_double(s) == l,
    decreases s.len(),
{
    if s.len() > 0 {
        let p = s.drop_last();
        let ml = if l == s.len() {
            l - 1
        } else {
            l
        };
        assert forall|k: int| 0 <= k < ml implies is_double_dot(#[trigger] p[k]) by {
            assert(p[k] == s[k]);
        }
        assert forall|k: int| ml <= k < p.len() implies !is_double_dot(#[trigger] p[k]) by {
            assert(p[k] == s[k]);
        }
        lemma_count_double_prefix(p, ml);
        assert(s.last() == s[s.len() - 1]);
        let f = s.drop_first();
        let fl = if l > 0 {
            l - 1
        } else {
            0
        };
        if l > 0 {
            assert forall|k: int| 0 <= k < fl implies is_double_dot(#[trigger] f[k]) by {
                assert(f[k] == s[k + 1]);
            }
            assert forall|k: int| fl <= k < f.len() implies !is_double_dot(#[trigger] f[k]) by {
                assert(f[k] == s[k + 1]);
            }
            lemma_count_double_prefix(f, fl);
        }
    }
}

/// Normalizing a relative path as a reference gives a path normalized as a reference.
proof fn lemma_ref_normalized(segs: Seq<Seq<u8>>)
    requires
        forall|k: int| 0 <= k < segs.len() ==> valid_segment(#[trigger] segs[k]),
    ensures
        path_normalized(false, ref_normalized(segs), true),
{
    lemma_ref_inv(segs, segs.len());
    let st = ref_fold(segs, segs.len());
    let out = st.out;
    let n = out.len() as int;
    if n == 0 {
        let e = Seq::<u8>::empty();
        assert(segment_normalized(e));
        assert(!is_single_dot(e) && !is_double_dot(e));
        let s = ref_normalized(segs);
        assert(s == seq![e]);
        assert(clean(s));
        lemma_clean_counts(s);
    } else {
        assert(ref_normalized(segs) == out);
        lemma_count_unnormalized_zero(out);
        lemma_count_single_first(out);
        let l: int = match st.last_dot {
            Some(m) => m + 1,
            None => 0,
        };
        assert forall|k: int| 0 <= k < l implies is_double_dot(#[trigger] out[k]) by {
            let m = st.last_dot->Some_0;
            if k < m {
                assert(is_double_dot(out[m]));
            }
        }
        assert forall|k: int| l <= k < n implies !is_double_dot(#[trigger] out[k]) by {
            if st.last_dot is Some {
                let m = st.last_dot->Some_0;
                if k > m + 1 && is_double_dot(out[k]) {
                    assert(is_double_dot(out[m + 1]));
                }
            }
        }
        lemma_count_double_prefix(out, l);
        if is_single_dot(out[0]) {
            assert(!colon_follows(segs, segs.len() - 1));
            assert(n >= 2);
        }
    }
}

proof fn lemma_split_len(v: Seq<u8>)
    ensures
        split_segments(v).len() >= 1,
    decreases v.len(),
{
    if v.len() > 0 {
        lemma_split_len(v.drop_first());
    }
}

proof fn lemma_split_escape(v: Seq<u8>)
    requires
        v.len() >= 3,
        v[0] != SLASH,
        v[1] != SLASH,
        v[2] != SLASH,
    ensures
        split_segments(v) == split_segments(v.subrange(3, v.len() as int)).update(
            0,
            seq![v[0], v[1], v[2]] + split_segments(v.subrange(3, v.len() as int))[0],
        ),
{
    let w1 = v.drop_first();
    let w2 = w1.drop_first();
    let w3 = v.subrange(3, v.len() as int);
    assert(w2.drop_first() =~= w3);
    lemma_split_len(w3);
    lemma_split_len(w2);
    lemma_split_len(w1);
    let r3 = split_segments(w3);
    assert(w1.len() > 0 && w1[0] == v[1] && w2.len() > 0 && w2[0] == v[2]);
    assert(split_segments(w2) == r3.update(0, seq![v[2]] + r3[0]));
    assert(seq![v[1]] + (seq![v[2]] + r3[0]) =~= seq![v[1], v[2]] + r3[0]);
    assert(split_segments(w1) =~= r3.update(0, seq![v[1], v[2]] + r3[0]));
    assert(seq![v[0]] + (seq![v[1], v[2]] + r3[0]) =~= seq![v[0], v[1], v[2]] + r3[0]);
    assert(split_segments(v) =~= r3.update(0, seq![v[0], v[1], v[2]] + r3[0]));
}

/// A valid body splits into valid segments, no more than the path can hold.
proof fn lemma_split_valid(v: Seq<u8>, n: int)
    requires
        0 <= n < MAX_SEGMENTS,
        scan_path(v, n) is None,
    ensures
        forall|k: int| 0 <= k < split_segments(v).len() ==> valid_segment(#[trigger] split_segments(v)[k]),
        n + split_segments(v).len() <= MAX_SEGMENTS,
    decreases v.len(),
{
    if v.len() > 0 {
        if v[0] == SLASH {
            lemma_split_valid(v.drop_first(), n + 1);
            let r = split_segments(v.drop_first());
            assert forall|k: int| 0 <= k < split_segments(v).len() implies valid_segment(
                #[trigger] split_segments(v)[k],
            ) by {
                if k > 0 {
                    assert(split_segments(v)[k] == r[k - 1]);
                } else {
                    assert(split_segments(v)[0] =~= Seq::<u8>::empty());
                }
            }
        } else if v[0] == PERCENT {
            let w1 = v.drop_first();
            let w2 = w1.drop_first();
            let w3 = v.subrange(3, v.len() as int);
            assert(w2.drop_first() =~= w3);
            lemma_split_valid(w3, n);
            lemma_split_len(w3);
            let r3 = split_segments(w3);
            let head = seq![v[0], v[1], v[2]] + r3[0];
            assert(hex_digit(v[1]) is Some && hex_digit(v[2]) is Some);
            lemma_split_escape(v);
            assert(head.subrange(3, head.len() as int) =~= r3[0]);
            assert(at(head, 1) == at(v, 1) && at(head, 2) == at(v, 2));
            assert forall|k: int| 0 <= k < split_segments(v).len() implies valid_segment(
                #[trigger] split_segments(v)[k],
            ) by {
                if k > 0 {
                    assert(split_segments(v)[k] == r3[k]);
                }
            }
        } else {
            let w = v.drop_first();
            lemma_split_valid(w, n);
            lemma_split_len(w);
            let r = split_segments(w);
            let head = seq![v[0]] + r[0];
            assert(head.drop_first() =~= r[0]);
            assert forall|k: int| 0 <= k < split_segments(v).len() implies valid_segment(
                #[trigger] split_segments(v)[k],
            ) by {
                if k > 0 {
                    assert(split_segments(v)[k] == r[k]);
                }
            }
        }
    }
}

fn append_bytes(out: &mut Vec<u8>, bytes: &[u8])
    ensures
        final(out)@ == old(out)@ + bytes@,
{
    let mut i: usize = 0;
    while i < bytes.len()
        invariant
            i <= bytes.len(),
            out@ == old(out)@ + bytes@.subrange(0, i as int),
        decreases bytes.len() - i,
    {
        out.push(bytes[i]);
        assert(out@ =~= old(out)@ + bytes@.subrange(0, i + 1));
        i = i + 1;
    }
    assert(bytes@.subrange(0, i as int) =~= bytes@);
}

/// The path component of a URI: a sequence of segments, absolute when it starts with `/`.
///
/// Segments compare with percent-encoding taken into account for unreserved bytes, so that
/// `"segment"` and `"s%65gment"` are equal.
#[derive(Debug)]
pub struct Path {
    absolute: bool,
    double_dot_segment_count: u16,
    leading_double_dot_segment_count: u16,
    segments: Vec<Segment>,
    single_dot_segment_count: u16,
    unnormalized_count: u16,
}

impl View for Path {
    type V = (bool, Seq<Seq<u8>>);

    closed spec fn view(&self) -> (bool, Seq<Seq<u8>>) {
        (self.absolute, views(self.segments@))
    }
}

impl Path {
    pub closed spec fn wf(&self) -> bool {
        &&& 1 <= self.segments@.len() <= MAX_SEGMENTS
        &&& all_wf(self.segments@)
        &&& self.single_dot_segment_count == count_single(self@.1)
        &&& self.double_dot_segment_count == count_double(self@.1)
        &&& self.leading_double_dot_segment_count == leading_double(self@.1)
        &&& self.unnormalized_count == count_unnormalized(self@.1)
    }

    proof fn lemma_wf_segments(&self)
        requires
            self.wf(),
        ensures
            forall|i: int| 0 <= i < self@.1.len() ==> valid_segment(#[trigger] self@.1[i]),
            self@.1.len() == self.segments@.len(),
            1 <= self@.1.len() <= MAX_SEGMENTS,
    {
        assert forall|i: int| 0 <= i < self@.1.len() implies valid_segment(
            #[trigger] self@.1[i],
        ) by {
            assert(self.segments@[i].wf());
        }
    }

    /// Builds a path from its segments, counting its dot and unnormalized segments.
    fn from_parts(absolute: bool, segments: Vec<Segment>) -> (r: Path)
        requires
            1 <= segments@.len() <= MAX_SEGMENTS,
            all_wf(segments@),
        ensures
            r.wf(),
            r@ == (absolute, views(segments@)),
    {
        let ghost s = views(segments@);
        let mut single: u16 = 0;
        let mut double: u16 = 0;
        let mut unnormalized: u16 = 0;
        let mut i: usize = 0;
        while i < segments.len()
            invariant
                i <= segments@.len() <= MAX_SEGMENTS,
                s == views(segments@),
                all_wf(segments@),
                single as nat == count_single(s.take(i as int)),
                double as nat == count_double(s.take(i as int)),
                unnormalized as nat == count_unnormalized(s.take(i as int)),
                single <= i && double <= i && unnormalized <= i,
            decreases segments@.len() - i,
        {
            assert(s.take(i + 1).drop_last() =~= s.take(i as int));
            assert(s.take(i + 1).last() == segments@[i as int]@);
            if segments[i].is_single_dot_segment() {
                single = single + 1;
            }
            if segments[i].is_double_dot_segment() {
                double = double + 1;
            }
            assert(segments@[i as int].wf());
            if !segments[i].is_normalized() {
                unnormalized = unnormalized + 1;
            }
            i = i + 1;
        }
        assert(s.take(segments@.len() as int) =~= s);
        let mut j: usize = 0;
        assert(s.skip(0) =~= s);
        while j < segments.len() && segments[j].is_double_dot_segment()
            invariant
                j <= segments@.len() <= MAX_SEGMENTS,
                s == views(segments@),
                leading_double(s) == j + leading_double(s.skip(j as int)),
            decreases segments@.len() - j,
        {
            assert(s.skip(j as int).drop_first() =~= s.skip(j + 1));
            j = j + 1;
        }
        proof {
            if j < segments@.len() {
                assert(s.skip(j as int)[0] == s[j as int]);
            }
        }
        Path {
            absolute,
            double_dot_segment_count: double,
            leading_double_dot_segment_count: j as u16,
            segments,
            single_dot_segment_count: single,
            unnormalized_count: unnormalized,
        }
    }

    /// Parses a path. It fails on a byte that cannot stand in a path, on a `%` that does not
    /// start two hex digits, and on more than 65535 segments, whichever comes first.
    pub fn try_from(value: &str) -> (r: Result<Path, PathError>)
        ensures
            r is Ok <==> scan_path(path_body(value.spec_bytes()), 0) is None,
            r is Err ==> scan_path(path_body(value.spec_bytes()), 0) == Some(r->Err_0),
            r is Ok ==> r->Ok_0.wf() && r->Ok_0@ == (
                value.spec_bytes().len() > 0 && value.spec_bytes()[0] == SLASH,
                split_segments(path_body(value.spec_bytes())),
            ),
    {
        let b = value.as_bytes();
        let absolute = b.len() > 0 && b[0] == SLASH;
        let start: usize = if absolute {
            1
        } else {
            0
        };
        let ghost body = path_body(b@);
        assert(body =~= b@.subrange(start as int, b@.len() as int));
        let mut done: Vec<Vec<u8>> = Vec::new();
        let mut cur: Vec<u8> = Vec::new();
        let mut i: usize = start;
        proof {
            lemma_split_len(body);
            assert(prepend(cur@, split_segments(body)) =~= split_segments(body));
        }
        while i < b.len()
            invariant
                start <= i <= b@.len(),
                b@ == value.spec_bytes(),
                body == path_body(b@),
                body == b@.subrange(start as int, b@.len() as int),
                done@.len() < MAX_SEGMENTS,
                scan_path(body, 0) == scan_path(
                    b@.subrange(i as int, b@.len() as int),
                    done@.len() as int,
                ),
                split_segments(body) == done@.map_values(|x: Vec<u8>| x@) + prepend(
                    cur@,
                    split_segments(b@.subrange(i as int, b@.len() as int)),
                ),
            decreases b@.len() - i,
        {
            let ghost w = b@.subrange(i as int, b@.len() as int);
            let ghost dv = done@.map_values(|x: Vec<u8>| x@);
            let byte = b[i];
            assert(w[0] == byte);
            if byte == SLASH {
                if done.len() + 1 >= MAX_SEGMENTS {
                    assert(w.len() > 0 && w[0] == SLASH);
                    assert(scan_path(w, done@.len() as int) == Some(
                        PathError::ExceededMaximumLength,
                    ));
                    return Err(PathError::ExceededMaximumLength);
                }
                let ghost w1 = b@.subrange(i + 1, b@.len() as int);
                assert(w.drop_first() =~= w1);
                proof {
                    lemma_split_len(w1);
                }
                let finished = cur;
                cur = Vec::new();
                done.push(finished);
                assert(done@.map_values(|x: Vec<u8>| x@) =~= dv.push(finished@));
                assert(prepend(finished@, split_segments(w)) =~= seq![finished@] + split_segments(
                    w1,
                ));
                assert(prepend(cur@, split_segments(w1)) =~= split_segments(w1));
                assert(dv + (seq![finished@] + split_segments(w1)) =~= dv.push(finished@)
                    + split_segments(w1));
                i = i + 1;
            } else if !is_path_byte(byte) {
                return Err(PathError::InvalidCharacter);
            } else if byte == PERCENT {
                if b.len() - i < 3 {
                    return Err(PathError::InvalidPercentEncoding);
                }
                assert(at(w, 1) == Some(b[i + 1] as u8) && at(w, 2) == Some(b[i + 2] as u8));
                if get_percent_encoded_value(Some(b[i + 1]), Some(b[i + 2])).is_err() {
                    return Err(PathError::InvalidPercentEncoding);
                }
                let ghost w3 = b@.subrange(i + 3, b@.len() as int);
                let ghost old_cur = cur@;
                assert(w.subrange(3, w.len() as int) =~= w3);
                assert(w.drop_first().drop_first().drop_first() =~= w3);
                proof {
                    lemma_split_len(w3);
                    assert(hex_digit(w[1]) is Some && hex_digit(w[2]) is Some);
                    lemma_split_escape(w);
                }
                cur.push(b[i]);
                cur.push(b[i + 1]);
                cur.push(b[i + 2]);
                assert(cur@ =~= old_cur + seq![w[0], w[1], w[2]]);
                assert(old_cur + (seq![w[0], w[1], w[2]] + split_segments(w3)[0]) =~= cur@
                    + split_segments(w3)[0]);
                assert(prepend(old_cur, split_segments(w)) =~= prepend(cur@, split_segments(w3)));
                i = i + 3;
            } else {
                let ghost w1 = b@.subrange(i + 1, b@.len() as int);
                let ghost old_cur = cur@;
                assert(w.drop_first() =~= w1);
                proof {
                    lemma_split_len(w1);
                }
                cur.push(byte);
                assert(cur@ =~= old_cur + seq![byte]);
                assert(split_segments(w) == split_segments(w1).update(
                    0,
                    seq![byte] + split_segments(w1)[0],
                ));
                assert(old_cur + (seq![byte] + split_segments(w1)[0]) =~= cur@ + split_segments(
                    w1,
                )[0]);
                assert(prepend(old_cur, split_segments(w)) =~= prepend(cur@, split_segments(w1)));
                i = i + 1;
            }
        }
        let ghost dv = done@.map_values(|x: Vec<u8>| x@);
        assert(b@.subrange(i as int, b@.len() as int) =~= Seq::<u8>::empty());
        let last = cur;
        done.push(last);
        assert(split_segments(body) =~= done@.map_values(|x: Vec<u8>| x@));
        proof {
            lemma_split_valid(body, 0);
        }
        let ghost all = done@.map_values(|x: Vec<u8>| x@);
        let mut segments: Vec<Segment> = Vec::new();
        let mut k: usize = 0;
        while k < done.len()
            invariant
                k <= done@.len(),
                all == done@.map_values(|x: Vec<u8>| x@),
                all == split_segments(body),
                forall|m: int| 0 <= m < all.len() ==> valid_segment(#[trigger] all[m]),
                views(segments@) == all.take(k as int),
                all_wf(segments@),
            decreases done@.len() - k,
        {
            assert(all[k as int] == done@[k as int]@);
            let ghost before = segments@;
            match Segment::try_from_bytes(done[k].as_slice()) {
                Ok(seg) => {
                    assert(seg@ == all[k as int]);
                    segments.push(seg);
                    assert(segments@ == before.push(seg));
                    assert(views(segments@) =~= views(before).push(all[k as int]));
                    assert(all.take(k + 1) =~= all.take(k as int).push(all[k as int]));
                },
                Err(e) => {
                    return Err(e);
                },
            }
            assert(views(segments@) =~= all.take(k + 1));
            k = k + 1;
        }
        assert(all.take(done@.len() as int) =~= all);
        Ok(Path::from_parts(absolute, segments))
    }

    /// Leaves a single empty segment; whether the path is absolute does not change.
    pub fn clear(&mut self)
        requires
            old(self).wf(),
        ensures
            final(self).wf(),
            final(self)@ == (old(self)@.0, seq![Seq::<u8>::empty()]),
    {
        let mut segments: Vec<Segment> = Vec::new();
        segments.push(Segment::empty());
        assert(views(segments@) =~= seq![Seq::<u8>::empty()]);
        *self = Path::from_parts(self.absolute, segments);
    }

    /// Converts the path into an owned copy.
    pub fn into_owned(self) -> (r: Path)
        ensures
            r == self,
    {
        self
    }

    /// Whether the path starts with a `/`.
    pub fn is_absolute(&self) -> (r: bool)
        ensures
            r == self@.0,
    {
        self.absolute
    }

    /// Whether the path does not start with a `/`.
    pub fn is_relative(&self) -> (r: bool)
        ensures
            r == !self@.0,
    {
        !self.absolute
    }

    /// Whether `normalize(as_reference)` would leave the path as it is.
    pub fn is_normalized(&self, as_reference: bool) -> (r: bool)
        requires
            self.wf(),
        ensures
            r == path_normalized(self@.0, self@.1, as_reference),
    {
        if self.unnormalized_count != 0 {
            return false;
        }
        if self.absolute || !as_reference {
            self.single_dot_segment_count == 0 && self.double_dot_segment_count == 0
        } else {
            (self.single_dot_segment_count == 0 || (self.single_dot_segment_count == 1
                && self.segments[0].is_single_dot_segment() && self.segments.len() > 1
                && self.segments[1].contains_colon())) && self.double_dot_segment_count
                == self.leading_double_dot_segment_count
        }
    }

    /// The number of `"."` segments.
    pub fn single_dot_segment_count(&self) -> (r: u16)
        requires
            self.wf(),
        ensures
            r == count_single(self@.1),
    {
        self.single_dot_segment_count
    }

    /// The number of `".."` segments.
    pub fn double_dot_segment_count(&self) -> (r: u16)
        requires
            self.wf(),
        ensures
            r == count_double(self@.1),
    {
        self.double_dot_segment_count
    }

    /// The number of `".."` segments at the start of the path.
    pub fn leading_double_dot_segment_count(&self) -> (r: u16)
        requires
            self.wf(),
        ensures
            r == leading_double(self@.1),
    {
        self.leading_double_dot_segment_count
    }

    /// The segments with every dot segment removed, as RFC 3986 (section 5.2.4) does it.
    fn remove_dots(&self, normalize_segments: bool) -> (r: (bool, Vec<Segment>))
        requires
            self.wf(),
        ensures
            (r.0, views(r.1@)) == dots_removed(self@.0, self@.1, normalize_segments),
            1 <= r.1@.len() <= MAX_SEGMENTS,
            all_wf(r.1@),
    {
        let ghost segs = self@.1;
        let mut pending = self.absolute;
        let mut absolute = self.absolute;
        let mut kept_last = false;
        let mut out: Vec<Segment> = Vec::new();
        let mut i: usize = 0;
        let n = self.segments.len();
        assert(segs.take(0) =~= Seq::<Seq<u8>>::empty());
        assert(views(out@) =~= Seq::<Seq<u8>>::empty());
        while i < n
            invariant
                n == self.segments@.len(),
                self.wf(),
                segs == self@.1,
                i <= n,
                (DotState { pending, out: views(out@), absolute, kept_last }) == dot_fold(
                    segs.take(i as int),
                    self@.0,
                    normalize_segments,
                ),
                all_wf(out@),
                out@.len() <= i,
                i > 0 && !kept_last ==> out@.len() < i,
            decreases n - i,
        {
            assert(segs.take(i + 1).drop_last() =~= segs.take(i as int));
            assert(segs.take(i + 1).last() == self.segments@[i as int]@);
            let seg = &self.segments[i];
            let ghost before = views(out@);
            if pending && seg.is_single_dot_segment() {
                kept_last = false;
            } else if pending && seg.is_double_dot_segment() {
                if out.len() > 0 {
                    out.pop();
                    assert(views(out@) =~= before.drop_last());
                } else {
                    absolute = false;
                }
                kept_last = false;
            } else if !pending && seg.is_dot_segment() {
                kept_last = false;
            } else {
                assert(self.segments@[i as int].wf());
                let mut s = seg.as_borrowed();
                if normalize_segments {
                    s.normalize();
                }
                if pending && out.len() == 0 {
                    absolute = true;
                }
                out.push(s);
                assert(views(out@) =~= before.push(kept(segs[i as int], normalize_segments)));
                pending = true;
                kept_last = true;
            }
            i = i + 1;
        }
        assert(segs.take(n as int) =~= segs);
        if pending && !kept_last {
            if out.len() == 0 {
                absolute = true;
            } else {
                let ghost before = views(out@);
                out.push(Segment::empty());
                assert(views(out@) =~= before.push(Seq::empty()));
            }
        }
        if out.len() == 0 {
            out.push(Segment::empty());
            assert(views(out@) =~= seq![Seq::<u8>::empty()]);
        }
        (absolute, out)
    }

    /// The segments normalized as a reference (see `normalize`).
    fn reference_normalized(&self) -> (r: Vec<Segment>)
        requires
            self.wf(),
        ensures
            views(r@) == ref_normalized(self@.1),
            1 <= r@.len() <= MAX_SEGMENTS,
            all_wf(r@),
    {
        let ghost segs = self@.1;
        let n = self.segments.len();
        let mut out: Vec<Segment> = Vec::new();
        let mut last_dot: Option<usize> = None;
        let mut i: usize = 0;
        assert(views(out@) =~= Seq::<Seq<u8>>::empty());
        while i < n
            invariant
                n == self.segments@.len(),
                self.wf(),
                segs == self@.1,
                i <= n,
                (RefState {
                    out: views(out@),
                    last_dot: match last_dot {
                        Some(k) => Some(k as int),
                        None => None,
                    },
                }) == ref_fold(segs, i as nat),
                all_wf(out@),
                out@.len() <= i,
            decreases n - i,
        {
            let ghost before = views(out@);
            let seg = &self.segments[i];
            assert(segs[i as int] == self.segments@[i as int]@);
            let m = out.len();
            let colon = i + 1 < n && self.segments[i + 1].contains_colon();
            proof {
                if i + 1 < n {
                    assert(segs[i + 1] == self.segments@[i + 1]@);
                }
            }
            let keeps_dots = match last_dot {
                Some(k) => m > 0 && k == m - 1,
                None => m == 0,
            };
            if seg.is_single_dot_segment() && (m > 0 || !colon) {
            } else if seg.is_double_dot_segment() && !keeps_dots {
                let k: usize = if m == 2 && out[0].is_single_dot_segment() && !colon {
                    2
                } else {
                    1
                };
                assert(m == 2 ==> before[0] == out@[0]@);
                let new_len: usize = if m >= k {
                    m - k
                } else {
                    0
                };
                out.truncate(new_len);
                assert(views(out@) =~= before.take(new_len as int));
            } else {
                assert(self.segments@[i as int].wf());
                let is_double = seg.is_double_dot_segment();
                let mut s = seg.as_borrowed();
                s.normalize();
                out.push(s);
                assert(views(out@) =~= before.push(norm_seg(segs[i as int])));
                if is_double {
                    last_dot = Some(m);
                }
            }
            i = i + 1;
        }
        if out.len() == 0 {
            out.push(Segment::empty());
            assert(views(out@) =~= seq![Seq::<u8>::empty()]);
        }
        out
    }

    /// Normalizes the path and all of its segments.
    ///
    /// An absolute path, or any path when `as_reference` is false, loses every dot segment as
    /// `remove_dot_segments` does. A relative path normalized as a reference keeps a leading
    /// `"."` that comes before a segment holding a `:` (`"./a:b"`), and the `".."` segments that
    /// lead it (`"a/../.."` becomes `".."`). Whether the path is absolute is kept in the second
    /// case. Each kept segment is normalized as `Segment::normalize` does.
    pub fn normalize(&mut self, as_reference: bool)
        requires
            old(self).wf(),
        ensures
            final(self).wf(),
            final(self)@ == normalized_path(old(self)@.0, old(self)@.1, as_reference),
            path_normalized(final(self)@.0, final(self)@.1, as_reference),
    {
        if self.is_normalized(as_reference) {
            return;
        }
        if self.absolute || !as_reference {
            proof {
                self.lemma_wf_segments();
                lemma_dots_removed_normalized(self@.0, self@.1, as_reference);
            }
            let (absolute, segments) = self.remove_dots(true);
            *self = Path::from_parts(absolute, segments);
        } else {
            proof {
                self.lemma_wf_segments();
                lemma_ref_normalized(self@.1);
            }
            let segments = self.reference_normalized();
            *self = Path::from_parts(self.absolute, segments);
        }
    }

    /// Removes every dot segment, as RFC 3986 (section 5.2.4) does it; a path without dot
    /// segments is left as it is.
    pub fn remove_dot_segments(&mut self)
        requires
            old(self).wf(),
        ensures
            final(self).wf(),
            final(self)@ == if count_single(old(self)@.1) == 0 && count_double(old(self)@.1) == 0 {
                old(self)@
            } else {
                dots_removed(old(self)@.0, old(self)@.1, false)
            },
    {
        if self.single_dot_segment_count == 0 && self.double_dot_segment_count == 0 {
            return;
        }
        let (absolute, segments) = self.remove_dots(false);
        *self = Path::from_parts(absolute, segments);
    }

    /// Removes the last segment; a path of one segment is left with one empty segment.
    pub fn pop(&mut self)
        requires
            old(self).wf(),
        ensures
            final(self).wf(),
            final(self)@ == (
                old(self)@.0,
                if old(self)@.1.len() == 1 {
                    seq![Seq::<u8>::empty()]
                } else {
                    old(self)@.1.drop_last()
                },
            ),
    {
        let ghost before = views(self.segments@);
        let absolute = self.absolute;
        let mut segments = self.copied_segments();
        segments.pop();
        assert(views(segments@) =~= before.drop_last());
        if segments.len() == 0 {
            segments.push(Segment::empty());
            assert(views(segments@) =~= seq![Seq::<u8>::empty()]);
        }
        *self = Path::from_parts(absolute, segments);
    }

    /// Appends a segment given as text. A path that is one empty segment has it replaced by a
    /// non-empty segment. Fails, leaving the path as it is, when the path already has 65535
    /// segments, or else when the text is no valid segment.
    pub fn push(&mut self, segment: &str) -> (r: Result<(), PathError>)
        requires
            old(self).wf(),
        ensures
            final(self).wf(),
            old(self)@.1.len() == MAX_SEGMENTS ==> r == Err::<(), PathError>(
                PathError::ExceededMaximumLength,
            ) && final(self)@ == old(self)@,
            old(self)@.1.len() < MAX_SEGMENTS && !valid_segment(segment.spec_bytes()) ==> r == Err::<
                (),
                PathError,
            >(scan_segment(segment.spec_bytes())->Err_0) && final(self)@ == old(self)@,
            old(self)@.1.len() < MAX_SEGMENTS && valid_segment(segment.spec_bytes()) ==> r is Ok
                && final(self)@ == (
                old(self)@.0,
                if segment.spec_bytes().len() > 0 && old(self)@.1 == seq![Seq::<u8>::empty()] {
                    seq![segment.spec_bytes()]
                } else {
                    old(self)@.1.push(segment.spec_bytes())
                },
            ),
    {
        if self.segments.len() == MAX_SEGMENTS {
            return Err(PathError::ExceededMaximumLength);
        }
        let segment = match Segment::try_from(segment) {
            Ok(s) => s,
            Err(e) => {
                return Err(e);
            },
        };
        let ghost before = self@.1;
        let mut segments = self.copied_segments();
        let replaces = segment.as_bytes().len() > 0 && segments.len() == 1
            && segments[0].as_bytes().len() == 0;
        proof {
            if segments@.len() == 1 {
                assert(before[0] == segments@[0]@);
                if before == seq![Seq::<u8>::empty()] {
                    assert(before[0].len() == 0);
                }
                if segments@[0]@.len() == 0 {
                    assert(before.len() == 1);
                    assert(before[0] =~= Seq::<u8>::empty());
                    assert(before =~= seq![Seq::<u8>::empty()]);
                }
            }
        }
        if replaces {
            segments = Vec::new();
            segments.push(segment);
            assert(views(segments@) =~= seq![segment@]);
        } else {
            let ghost old_segments = segments@;
            segments.push(segment);
            assert(views(segments@) =~= views(old_segments).push(segment@));
        }
        *self = Path::from_parts(self.absolute, segments);
        Ok(())
    }

    /// The segments of the path.
    pub fn segments(&self) -> (r: &[Segment])
        ensures
            views(r@) == self@.1,
            self.wf() ==> 1 <= r@.len() <= MAX_SEGMENTS,
    {
        self.segments.as_slice()
    }

    /// Sets whether the path starts with a `/`.
    pub fn set_absolute(&mut self, absolute: bool)
        requires
            old(self).wf(),
        ensures
            final(self).wf(),
            final(self)@ == (absolute, old(self)@.1),
    {
        self.absolute = absolute;
    }

    fn copied_segments(&self) -> (r: Vec<Segment>)
        requires
            self.wf(),
        ensures
            views(r@) == self@.1,
            all_wf(r@),
            r@.len() == self@.1.len(),
    {
        let mut segments: Vec<Segment> = Vec::new();
        let mut i: usize = 0;
        while i < self.segments.len()
            invariant
                self.wf(),
                i <= self.segments@.len(),
                views(segments@) == self@.1.take(i as int),
                all_wf(segments@),
            decreases self.segments@.len() - i,
        {
            assert(self.segments@[i as int].wf());
            assert(self@.1[i as int] == self.segments@[i as int]@);
            let ghost before = segments@;
            let copy = self.segments[i].as_borrowed();
            segments.push(copy);
            assert(views(segments@) =~= views(before).push(self@.1[i as int]));
            assert(self@.1.take(i + 1) =~= self@.1.take(i as int).push(self@.1[i as int]));
            assert(views(segments@) =~= self@.1.take(i + 1));
            i = i + 1;
        }
        assert(self@.1.take(self.segments@.len() as int) =~= self@.1);
        segments
    }

    /// Returns a copy of the path.
    pub fn to_borrowed(&self) -> (r: Path)
        requires
            self.wf(),
        ensures
            r.wf(),
            r@ == self@,
    {
        Path::from_parts(self.absolute, self.copied_segments())
    }

    /// The bytes of the path: a `/` when it is absolute, then its segments joined by `/`.
    pub fn to_bytes(&self) -> (r: Vec<u8>)
        ensures
            r@ == path_text(self@.0, self@.1),
            self.wf() ==> is_ascii_bytes(r@),
    {
        let ghost segs = self@.1;
        proof {
            if self.wf() {
                self.lemma_wf_segments();
            }
        }
        let mut out: Vec<u8> = Vec::new();
        if self.absolute {
            out.push(SLASH);
        }
        let ghost prefix = out@;
        assert(prefix =~= path_text(self@.0, Seq::empty()));
        let mut i: usize = 0;
        while i < self.segments.len()
            invariant
                segs == self@.1,
                segs.len() == self.segments@.len(),
                i <= segs.len(),
                self.wf() ==> forall|k: int| 0 <= k < segs.len() ==> valid_segment(#[trigger] segs[k]),
                out@ == prefix + join_segments(segs.take(i as int)),
                self.wf() ==> is_ascii_bytes(out@),
            decreases segs.len() - i,
        {
            let ghost before = out@;
            assert(segs.take(i + 1).drop_last() =~= segs.take(i as int));
            assert(segs[i as int] == self.segments@[i as int]@);
            if i > 0 {
                out.push(SLASH);
            }
            proof {
                if self.wf() {
                    lemma_valid_well_encoded(segs[i as int]);
                }
            }
            append_bytes(&mut out, self.segments[i].as_bytes());
            assert(out@ =~= prefix + join_segments(segs.take(i + 1)));
            i = i + 1;
        }
        assert(segs.take(segs.len() as int) =~= segs);
        out
    }

    /// The text of the path: a `/` when it is absolute, then its segments joined by `/`.
    pub fn to_string(&self) -> (r: String)
        requires
            self.wf(),
        ensures
            r@ == ascii_text(path_text(self@.0, self@.1)),
    {
        ascii_string(self.to_bytes())
    }
}


/// Two paths are equal when both or neither are absolute and their segments are equal one by
/// one, as `Segment` compares them.
pub open spec fn paths_equal(a: (bool, Seq<Seq<u8>>), b: (bool, Seq<Seq<u8>>)) -> bool {
    &&& a.0 == b.0
    &&& a.1.len() == b.1.len()
    &&& forall|k: int| 0 <= k < a.1.len() ==> percent_eq(#[trigger] a.1[k], b.1[k], true)
}

impl PartialEq for Path {
    fn eq(&self, other: &Path) -> (r: bool) {
        if self.absolute != other.absolute || self.segments.len() != other.segments.len() {
            return false;
        }
        let mut i: usize = 0;
        while i < self.segments.len()
            invariant
                i <= self.segments@.len() == other.segments@.len(),
                self@.1.len() == self.segments@.len(),
                other@.1.len() == other.segments@.len(),
                forall|k: int| 0 <= k < i ==> percent_eq(#[trigger] self@.1[k], other@.1[k], true),
            decreases self.segments@.len() - i,
        {
            assert(self@.1[i as int] == self.segments@[i as int]@);
            assert(other@.1[i as int] == other.segments@[i as int]@);
            if !percent_encoded_equality(
                self.segments[i].as_bytes(),
                other.segments[i].as_bytes(),
                true,
            ) {
                return false;
            }
            i = i + 1;
        }
        true
    }
}

impl vstd::std_specs::cmp::PartialEqSpecImpl for Path {
    open spec fn obeys_eq_spec() -> bool {
        true
    }

    open spec fn eq_spec(&self, other: &Path) -> bool {
        paths_equal(self@, other@)
    }
}

impl Eq for Path {

}

impl<'a> PartialEq<&'a str> for Path {
    fn eq(&self, other: &&'a str) -> (r: bool) {
        let text = self.to_bytes();
        percent_encoded_equality(text.as_slice(), other.as_bytes(), true)
    }
}

impl<'a> vstd::std_specs::cmp::PartialEqSpecImpl<&'a str> for Path {
    open spec fn obeys_eq_spec() -> bool {
        true
    }

    open spec fn eq_spec(&self, other: &&'a str) -> bool {
        percent_eq(path_text(self@.0, self@.1), (*other).spec_bytes(), true)
    }
}

} // verus!
