//! The line index: a sorted table of line boundaries built from a byte
//! buffer and a fixed line-separator pattern, with binary-search span
//! resolution on top of it.
//!
//! Every boundary records the extent of one physical line twice: as a byte
//! range into the buffer, and as a range in the chosen addressing unit
//! (bytes, or Unicode scalar-value counts).

use core::ops::Range;
use vstd::prelude::*;

use crate::span_like::SpanLike;
use crate::text::{char_count, count_chars, count_chars_range, lemma_char_count_ascii,
    lemma_char_count_concat, lemma_char_count_le_len};

verus! {

/// True when `p` occurs in `s` at byte position `i`.
pub open spec fn is_match_at(s: Seq<u8>, p: Seq<u8>, i: int) -> bool {
    &&& 0 <= i
    &&& i + p.len() <= s.len()
    &&& forall|k: int| 0 <= k < p.len() ==> s[i + k] == p[k]
}

/// The byte positions of the leftmost non-overlapping occurrences of `p` in
/// `s` at or after position `i`, in increasing order.
pub open spec fn occurrences_from(s: Seq<u8>, p: Seq<u8>, i: int) -> Seq<int>
    decreases s.len() - i,
        when 0 <= i && 0 < p.len()
{
    if i + p.len() > s.len() {
        Seq::empty()
    } else if is_match_at(s, p, i) {
        seq![i] + occurrences_from(s, p, i + p.len())
    } else {
        occurrences_from(s, p, i + 1)
    }
}

/// The byte positions of all leftmost non-overlapping occurrences of `p` in `s`.
pub open spec fn occurrences(s: Seq<u8>, p: Seq<u8>) -> Seq<int> {
    occurrences_from(s, p, 0)
}

/// Translates byte position `b` of buffer `s` into the chosen addressing
/// unit: the byte position itself, or the number of scalar values encoded
/// before it.
pub open spec fn unit_of(s: Seq<u8>, is_bytes: bool, b: int) -> int {
    if is_bytes {
        b
    } else {
        char_count(s.take(b)) as int
    }
}

/// One physical line: its extent as a byte range and as a range in the
/// chosen addressing unit, both excluding the separator.
pub struct LineBoundary {
    pub bytes: Range<usize>,
    pub indics: Range<usize>,
}

impl LineBoundary {
    pub fn new(bytes: Range<usize>, indics: Range<usize>) -> (r: Self)
        ensures
            r.bytes.start == bytes.start,
            r.bytes.end == bytes.end,
            r.indics.start == indics.start,
            r.indics.end == indics.end,
    {
        Self { bytes, indics }
    }
}

/// The start of line `k`'s byte range.
pub open spec fn by0(bs: Seq<LineBoundary>, k: int) -> int {
    bs[k].bytes.start as int
}

/// The end of line `k`'s byte range.
pub open spec fn by1(bs: Seq<LineBoundary>, k: int) -> int {
    bs[k].bytes.end as int
}

/// The start of line `k`'s range in the chosen addressing unit.
pub open spec fn ind0(bs: Seq<LineBoundary>, k: int) -> int {
    bs[k].indics.start as int
}

/// The end of line `k`'s range in the chosen addressing unit.
pub open spec fn ind1(bs: Seq<LineBoundary>, k: int) -> int {
    bs[k].indics.end as int
}

/// Well-formedness of a boundary table: at least one line, the first line
/// starting at offset zero in both units, every range running forwards, and
/// consecutive lines parted by a non-empty gap in both units.
pub open spec fn wf_boundaries(bs: Seq<LineBoundary>) -> bool {
    &&& bs.len() >= 1
    &&& by0(bs, 0) == 0
    &&& ind0(bs, 0) == 0
    &&& forall|k: int| 0 <= k < bs.len() ==> #[trigger] by0(bs, k) <= by1(bs, k)
    &&& forall|k: int| 0 <= k < bs.len() ==> #[trigger] ind0(bs, k) <= ind1(bs, k)
    &&& forall|k: int|
        #![trigger by1(bs, k), by0(bs, k + 1)]
        0 <= k < bs.len() - 1 ==> by1(bs, k) < by0(bs, k + 1)
    &&& forall|k: int|
        #![trigger ind1(bs, k), ind0(bs, k + 1)]
        0 <= k < bs.len() - 1 ==> ind1(bs, k) < ind0(bs, k + 1)
}

/// The byte position where line `k` starts, by the occurrence list.
pub open spec fn line_start_byte(s: Seq<u8>, p: Seq<u8>, k: int) -> int {
    if k == 0 {
        0
    } else {
        occurrences(s, p)[k - 1] + p.len()
    }
}

/// The byte position where line `k` ends, by the occurrence list.
pub open spec fn line_end_byte(s: Seq<u8>, p: Seq<u8>, k: int) -> int {
    if k == occurrences(s, p).len() {
        s.len() as int
    } else {
        occurrences(s, p)[k]
    }
}

/// The boundary table that building an index over buffer `s` with separator
/// `p` must produce: one line per separator occurrence plus the tail line,
/// each byte range delimited by the occurrences, and each unit range the
/// translation of the byte range.
pub open spec fn built_from(bs: Seq<LineBoundary>, s: Seq<u8>, p: Seq<u8>, is_bytes: bool) -> bool {
    &&& bs.len() == occurrences(s, p).len() + 1
    &&& forall|k: int| 0 <= k < bs.len() ==> #[trigger] by0(bs, k) == line_start_byte(s, p, k)
    &&& forall|k: int| 0 <= k < bs.len() ==> #[trigger] by1(bs, k) == line_end_byte(s, p, k)
    &&& forall|k: int| 0 <= k < bs.len() ==> #[trigger] ind0(bs, k) == unit_of(s, is_bytes, by0(bs, k))
    &&& forall|k: int| 0 <= k < bs.len() ==> #[trigger] ind1(bs, k) == unit_of(s, is_bytes, by1(bs, k))
}

/// The length of the separator in the chosen addressing unit.
pub open spec fn sep_units_of(p: Seq<u8>, is_bytes: bool) -> int {
    if is_bytes {
        p.len() as int
    } else {
        char_count(p) as int
    }
}

/// Positions translate monotonically into the chosen unit, and never grow.
pub proof fn lemma_unit_of_mono(s: Seq<u8>, is_bytes: bool, a: int, b: int)
    requires
        0 <= a <= b <= s.len(),
    ensures
        unit_of(s, is_bytes, a) <= unit_of(s, is_bytes, b),
        unit_of(s, is_bytes, b) - unit_of(s, is_bytes, a) <= b - a,
        0 <= unit_of(s, is_bytes, a),
{
    if !is_bytes {
        assert(s.take(b) =~= s.take(a) + s.subrange(a, b));
        lemma_char_count_concat(s.take(a), s.subrange(a, b));
        lemma_char_count_le_len(s.subrange(a, b));
    }
}

/// Crossing one separator occurrence advances the unit translation by
/// exactly the separator's length in that unit.
pub proof fn lemma_unit_of_after_sep(s: Seq<u8>, p: Seq<u8>, is_bytes: bool, o: int)
    requires
        is_match_at(s, p, o),
    ensures
        unit_of(s, is_bytes, o + p.len()) == unit_of(s, is_bytes, o) + sep_units_of(p, is_bytes),
{
    if !is_bytes {
        assert(s.subrange(o, o + p.len()) =~= p);
        assert(s.take(o + p.len()) =~= s.take(o) + s.subrange(o, o + p.len()));
        lemma_char_count_concat(s.take(o), s.subrange(o, o + p.len()));
    }
}

/// What holds of every occurrence list produced at or after position `i`:
/// each entry is a real match lying at or after `i` that fits in the buffer,
/// and consecutive entries are at least a separator's length apart.
pub open spec fn occ_list_ok(s: Seq<u8>, p: Seq<u8>, i: int, os: Seq<int>) -> bool {
    &&& forall|t: int| 0 <= t < os.len() ==> i <= #[trigger] os[t]
    &&& forall|t: int| 0 <= t < os.len() ==> #[trigger] os[t] + p.len() <= s.len()
    &&& forall|t1: int, t2: int|
        #![trigger os[t1], os[t2]]
        0 <= t1 < t2 < os.len() ==> os[t1] + p.len() <= os[t2]
}

/// Every listed occurrence is a real match.
pub proof fn lemma_occurrence_is_match(s: Seq<u8>, p: Seq<u8>, i: int, t: int)
    requires
        0 <= i,
        0 < p.len(),
        0 <= t < occurrences_from(s, p, i).len(),
    ensures
        is_match_at(s, p, occurrences_from(s, p, i)[t]),
    decreases s.len() - i,
{
    if i + p.len() > s.len() {
        assert(occurrences_from(s, p, i) =~= Seq::<int>::empty());
    } else if is_match_at(s, p, i) {
        let rest = occurrences_from(s, p, i + p.len());
        assert(occurrences_from(s, p, i) == seq![i] + rest);
        if t == 0 {
            assert(occurrences_from(s, p, i)[0] == i);
        } else {
            lemma_occurrence_is_match(s, p, i + p.len(), t - 1);
            assert(occurrences_from(s, p, i)[t] == rest[t - 1]);
        }
    } else {
        assert(occurrences_from(s, p, i) == occurrences_from(s, p, i + 1));
        lemma_occurrence_is_match(s, p, i + 1, t);
    }
}

proof fn lemma_occ_cons(s: Seq<u8>, p: Seq<u8>, i: int, rest: Seq<int>)
    requires
        is_match_at(s, p, i),
        occ_list_ok(s, p, i + p.len(), rest),
    ensures
        occ_list_ok(s, p, i, seq![i] + rest),
{
    let full = seq![i] + rest;
    assert forall|t: int| 0 <= t < full.len() implies i <= #[trigger] full[t] && full[t] + p.len()
        <= s.len() by {
        if t == 0 {
            assert(full[0] == i);
        } else {
            assert(full[t] == rest[t - 1]);
        }
    }
    assert forall|t1: int, t2: int|
        #![trigger full[t1], full[t2]]
        0 <= t1 < t2 < full.len() implies full[t1] + p.len() <= full[t2] by {
        assert(full[t2] == rest[t2 - 1]);
        if t1 == 0 {
            assert(full[0] == i);
        } else {
            assert(full[t1] == rest[t1 - 1]);
        }
    }
}

/// Every listed occurrence is a real match, lies at or after `i`, fits in
/// the buffer, and leaves at least a separator's length before the next one.
pub proof fn lemma_occurrences_from_props(s: Seq<u8>, p: Seq<u8>, i: int)
    requires
        0 <= i,
        0 < p.len(),
    ensures
        occ_list_ok(s, p, i, occurrences_from(s, p, i)),
    decreases s.len() - i,
{
    if i + p.len() > s.len() {
        assert(occurrences_from(s, p, i) =~= Seq::<int>::empty());
    } else if is_match_at(s, p, i) {
        lemma_occurrences_from_props(s, p, i + p.len());
        lemma_occ_cons(s, p, i, occurrences_from(s, p, i + p.len()));
        assert(occurrences_from(s, p, i) == seq![i] + occurrences_from(s, p, i + p.len()));
    } else {
        lemma_occurrences_from_props(s, p, i + 1);
        assert(occurrences_from(s, p, i) == occurrences_from(s, p, i + 1));
    }
}

/// A table whose byte ranges follow the occurrence list, and whose unit
/// ranges are the translations of its byte ranges, is well-formed.
#[verifier::rlimit(100)]
#[verifier::spinoff_prover]
proof fn lemma_init_table_ok(s: Seq<u8>, p: Seq<u8>, is_bytes: bool, bs: Seq<LineBoundary>)
    requires
        0 < p.len(),
        sep_units_of(p, is_bytes) >= 1,
        bs.len() == occurrences(s, p).len() + 1,
        forall|k: int| 0 <= k < bs.len() ==> (#[trigger] bs[k]).bytes.start as int
            == line_start_byte(s, p, k),
        forall|k: int| 0 <= k < bs.len() ==> (#[trigger] bs[k]).bytes.end as int
            == line_end_byte(s, p, k),
        forall|k: int| 0 <= k < bs.len() ==> (#[trigger] bs[k]).indics.start as int
            == unit_of(s, is_bytes, bs[k].bytes.start as int),
        forall|k: int| 0 <= k < bs.len() ==> (#[trigger] bs[k]).indics.end as int
            == unit_of(s, is_bytes, bs[k].bytes.end as int),
    ensures
        wf_boundaries(bs),
        built_from(bs, s, p, is_bytes),
{
    lemma_occurrences_from_props(s, p, 0);
    let occs = occurrences(s, p);
    let m = occs.len() as int;
    assert forall|k: int|
        0 <= k < bs.len() implies 0 <= #[trigger] line_start_byte(s, p, k) <= line_end_byte(s, p, k)
        <= s.len() by {
        if k == 0 {
            if m > 0 {
                assert(0 <= occs[0] && occs[0] + p.len() <= s.len());
            }
        } else if k < m {
            assert(occs[k - 1] + p.len() <= occs[k]);
            assert(occs[k] + p.len() <= s.len());
        } else {
            assert(occs[k - 1] + p.len() <= s.len());
        }
    }
    assert forall|k: int| 0 <= k < bs.len() implies #[trigger] by0(bs, k) <= by1(bs, k) by {
        lemma_unit_of_mono(s, is_bytes, line_start_byte(s, p, k), line_end_byte(s, p, k));
    }
    assert forall|k: int| 0 <= k < bs.len() implies #[trigger] ind0(bs, k) <= ind1(bs, k) by {
        lemma_unit_of_mono(s, is_bytes, line_start_byte(s, p, k), line_end_byte(s, p, k));
    }
    assert forall|k: int|
        #![trigger by1(bs, k), by0(bs, k + 1)]
        0 <= k < bs.len() - 1 implies by1(bs, k) < by0(bs, k + 1) by {
        assert(by0(bs, k + 1) == occs[k] + p.len());
    }
    assert forall|k: int|
        #![trigger ind1(bs, k), ind0(bs, k + 1)]
        0 <= k < bs.len() - 1 implies ind1(bs, k) < ind0(bs, k + 1) by {
        lemma_occurrence_is_match(s, p, 0, k);
        lemma_unit_of_after_sep(s, p, is_bytes, occs[k]);
        assert(by0(bs, k + 1) == occs[k] + p.len());
        assert(by1(bs, k) == occs[k]);
        assert(ind0(bs, k + 1) == unit_of(s, is_bytes, occs[k] + p.len()));
        assert(ind1(bs, k) == unit_of(s, is_bytes, occs[k]));
    }
    assert(s.take(0) =~= Seq::<u8>::empty());
    assert(by0(bs, 0) == 0 && ind0(bs, 0) == 0);
}


/// The end of the last line: the whole buffer's extent in the chosen unit.
pub open spec fn extent_of(bs: Seq<LineBoundary>) -> int {
    ind1(bs, bs.len() - 1)
}

/// `a` is the line whose unit range starts last among those starting at or
/// before position `sp`: the line that contains a span's start.
pub open spec fn is_start_line(bs: Seq<LineBoundary>, sp: int, a: int) -> bool {
    &&& 0 <= a < bs.len()
    &&& ind0(bs, a) <= sp
    &&& forall|j: int| a < j < bs.len() ==> sp < #[trigger] ind0(bs, j)
}

/// `b` is the line whose unit range ends first among those ending at or
/// after position `ep`: the line that contains a span's end.
pub open spec fn is_end_line(bs: Seq<LineBoundary>, ep: int, b: int) -> bool {
    &&& 0 <= b < bs.len()
    &&& ep <= ind1(bs, b)
    &&& forall|j: int| 0 <= j < b ==> #[trigger] ind1(bs, j) < ep
}

/// The index of the line containing a span start at `sp`.
pub open spec fn start_line_of(bs: Seq<LineBoundary>, sp: int) -> int {
    choose|a: int| is_start_line(bs, sp, a)
}

/// The index of the line containing a span end at `ep`.
pub open spec fn end_line_of(bs: Seq<LineBoundary>, ep: int) -> int {
    choose|b: int| is_end_line(bs, ep, b)
}

proof fn lemma_gap_pair(bs: Seq<LineBoundary>, i: int, j: int)
    requires
        wf_boundaries(bs),
        0 <= i < j < bs.len(),
    ensures
        ind1(bs, i) < ind0(bs, j),
        by1(bs, i) < by0(bs, j),
    decreases j - i,
{
    if j == i + 1 {
        assert(ind1(bs, i) < ind0(bs, i + 1));
        assert(by1(bs, i) < by0(bs, i + 1));
    } else {
        lemma_gap_pair(bs, i, j - 1);
        let jm = j - 1;
        assert(ind1(bs, jm) < ind0(bs, jm + 1));
        assert(by1(bs, jm) < by0(bs, jm + 1));
        assert(ind0(bs, jm) <= ind1(bs, jm));
        assert(by0(bs, jm) <= by1(bs, jm));
    }
}

/// In a well-formed table both unit endpoints are strictly sorted, and any
/// earlier line ends before any later line starts.
pub proof fn lemma_wf_sorted(bs: Seq<LineBoundary>)
    requires
        wf_boundaries(bs),
    ensures
        forall|i: int, j: int|
            #![trigger ind0(bs, i), ind0(bs, j)]
            0 <= i < j < bs.len() ==> ind0(bs, i) < ind0(bs, j),
        forall|i: int, j: int|
            #![trigger ind1(bs, i), ind1(bs, j)]
            0 <= i < j < bs.len() ==> ind1(bs, i) < ind1(bs, j),
        forall|i: int, j: int|
            #![trigger ind1(bs, i), ind0(bs, j)]
            0 <= i < j < bs.len() ==> ind1(bs, i) < ind0(bs, j),
        forall|i: int, j: int|
            #![trigger by1(bs, i), by0(bs, j)]
            0 <= i < j < bs.len() ==> by1(bs, i) < by0(bs, j),
{
    assert forall|i: int, j: int|
        #![trigger ind1(bs, i), ind0(bs, j)]
        0 <= i < j < bs.len() implies ind1(bs, i) < ind0(bs, j) && by1(bs, i) < by0(bs, j) by {
        lemma_gap_pair(bs, i, j);
    }
    assert forall|i: int, j: int|
        #![trigger ind0(bs, i), ind0(bs, j)]
        0 <= i < j < bs.len() implies ind0(bs, i) < ind0(bs, j) by {
        lemma_gap_pair(bs, i, j);
        assert(ind0(bs, i) <= ind1(bs, i));
    }
    assert forall|i: int, j: int|
        #![trigger ind1(bs, i), ind1(bs, j)]
        0 <= i < j < bs.len() implies ind1(bs, i) < ind1(bs, j) by {
        lemma_gap_pair(bs, i, j);
        assert(ind0(bs, j) <= ind1(bs, j));
    }
    assert forall|i: int, j: int|
        #![trigger by1(bs, i), by0(bs, j)]
        0 <= i < j < bs.len() implies by1(bs, i) < by0(bs, j) by {
        lemma_gap_pair(bs, i, j);
    }
}

/// At most one line contains a given span start.
pub proof fn lemma_start_line_unique(bs: Seq<LineBoundary>, sp: int, a1: int, a2: int)
    requires
        is_start_line(bs, sp, a1),
        is_start_line(bs, sp, a2),
    ensures
        a1 == a2,
{
    if a1 < a2 {
        assert(sp < ind0(bs, a2));
    }
    if a2 < a1 {
        assert(sp < ind0(bs, a1));
    }
}

/// At most one line contains a given span end.
pub proof fn lemma_end_line_unique(bs: Seq<LineBoundary>, ep: int, b1: int, b2: int)
    requires
        is_end_line(bs, ep, b1),
        is_end_line(bs, ep, b2),
    ensures
        b1 == b2,
{
    if b1 < b2 {
        assert(ind1(bs, b1) < ep);
    }
    if b2 < b1 {
        assert(ind1(bs, b2) < ep);
    }
}

/// The start line never lies after the end line of the same span.
pub proof fn lemma_start_before_end(bs: Seq<LineBoundary>, sp: int, ep: int, a: int, b: int)
    requires
        wf_boundaries(bs),
        sp <= ep,
        is_start_line(bs, sp, a),
        is_end_line(bs, ep, b),
    ensures
        a <= b,
        by0(bs, a) <= by1(bs, b),
{
    if b < a {
        lemma_gap_pair(bs, b, a);
    }
    if a < b {
        lemma_gap_pair(bs, a, b);
        assert(by0(bs, a) <= by1(bs, a));
        assert(by0(bs, b) <= by1(bs, b));
    }
}

/// An ordered, immutable table of line boundaries over one buffer.
pub struct LineIndex(pub Vec<LineBoundary>);

/// Compares `s[i..i + p.len()]` with `p`.
fn matches_at(s: &[u8], p: &[u8], i: usize) -> (r: bool)
    requires
        i + p@.len() <= s@.len(),
    ensures
        r == is_match_at(s@, p@, i as int),
{
    let n = s.len();
    let mut j: usize = 0;
    while j < p.len()
        invariant
            n == s@.len(),
            i + p@.len() <= s@.len(),
            0 <= j <= p@.len(),
            forall|k: int| 0 <= k < j ==> s@[i + k] == p@[k],
        decreases p@.len() - j,
    {
        if s[i + j] != p[j] {
            assert(s@[i + j as int] != p@[j as int]);
            return false;
        }
        j = j + 1;
    }
    true
}

impl LineIndex {
    /// Builds the boundary table for `source`, splitting at every leftmost
    /// non-overlapping occurrence of `line_feed`. With `is_bytes` the unit
    /// ranges equal the byte ranges; otherwise they count scalar values.
    #[verifier::rlimit(80)]
    #[verifier::spinoff_prover]
    pub fn init(source: &[u8], line_feed: &[u8], is_bytes: bool) -> (r: Self)
        requires
            line_feed@.len() > 0,
            !is_bytes ==> char_count(line_feed@) > 0,
        ensures
            wf_boundaries(r.0@),
            built_from(r.0@, source@, line_feed@, is_bytes),
    {
        let ghost s = source@;
        let ghost p = line_feed@;
        let n = source.len();
        let plen = line_feed.len();
        let sep_units = if is_bytes {
            plen
        } else {
            count_chars(line_feed)
        };

        let mut bounds: Vec<LineBoundary> = Vec::new();
        let ghost mut occs: Seq<int> = Seq::empty();
        let mut start_byte: usize = 0;
        let mut start_index: usize = 0;
        let mut i: usize = 0;

        proof {
            assert(s.take(0) =~= Seq::<u8>::empty());
            assert(Seq::<int>::empty() + occurrences_from(s, p, 0) =~= occurrences_from(s, p, 0));
            lemma_char_count_le_len(p);
        }

        while plen <= n - i && i < n
            invariant
                s == source@,
                p == line_feed@,
                n == s.len(),
                plen == p.len(),
                plen > 0,
                sep_units as int == sep_units_of(p, is_bytes),
                1 <= sep_units <= plen,
                start_byte <= i <= n,
                occurrences(s, p) == occs + occurrences_from(s, p, i as int),
                bounds@.len() == occs.len(),
                start_byte as int == (if occs.len() == 0 {
                    0int
                } else {
                    occs.last() + plen
                }),
                start_index as int == unit_of(s, is_bytes, start_byte as int),
                start_index <= start_byte,
                forall|k: int|
                    #![trigger bounds@[k]]
                    0 <= k < occs.len() ==> {
                        let b = bounds@[k];
                        &&& b.bytes.end as int == occs[k]
                        &&& b.bytes.start as int == (if k == 0 {
                            0int
                        } else {
                            occs[k - 1] + plen
                        })
                        &&& b.indics.start as int == unit_of(s, is_bytes, b.bytes.start as int)
                        &&& b.indics.end as int == unit_of(s, is_bytes, b.bytes.end as int)
                    },
            decreases n - i,
        {
            if matches_at(source, line_feed, i) {
                let end_index = if is_bytes {
                    i
                } else {
                    let cnt = count_chars_range(source, start_byte, i);
                    proof {
                        assert(s.take(i as int) =~= s.take(start_byte as int) + s.subrange(
                            start_byte as int,
                            i as int,
                        ));
                        lemma_char_count_concat(
                            s.take(start_byte as int),
                            s.subrange(start_byte as int, i as int),
                        );
                    }
                    start_index + cnt
                };
                assert(end_index as int == unit_of(s, is_bytes, i as int));
                assert(end_index <= i);
                let b = LineBoundary::new(
                    Range { start: start_byte, end: i },
                    Range { start: start_index, end: end_index },
                );
                bounds.push(b);
                proof {
                    let iv = i as int;
                    assert(occurrences_from(s, p, iv) == seq![iv] + occurrences_from(
                        s,
                        p,
                        iv + plen,
                    ));
                    let occs0 = occs;
                    occs = occs.push(iv);
                    assert(occs0 + (seq![iv] + occurrences_from(s, p, iv + plen)) =~= occs
                        + occurrences_from(s, p, iv + plen));
                    lemma_unit_of_after_sep(s, p, is_bytes, iv);
                }
                start_byte = i + plen;
                start_index = end_index + sep_units;
                i = i + plen;
            } else {
                proof {
                    assert(occurrences_from(s, p, i as int) == occurrences_from(s, p, i + 1));
                }
                i = i + 1;
            }
        }

        proof {
            assert(occurrences_from(s, p, i as int) =~= Seq::<int>::empty());
            assert(occs + occurrences_from(s, p, i as int) =~= occs);
            assert(occurrences(s, p) == occs);
        }

        let end_index = if is_bytes {
            n
        } else {
            let cnt = count_chars_range(source, start_byte, n);
            proof {
                assert(s.take(n as int) =~= s.take(start_byte as int) + s.subrange(
                    start_byte as int,
                    n as int,
                ));
                lemma_char_count_concat(
                    s.take(start_byte as int),
                    s.subrange(start_byte as int, n as int),
                );
            }
            start_index + cnt
        };
        assert(end_index as int == unit_of(s, is_bytes, n as int));
        let b = LineBoundary::new(
            Range { start: start_byte, end: n },
            Range { start: start_index, end: end_index },
        );
        let ghost prev = bounds@;
        bounds.push(b);

        proof {
            let bs = bounds@;
            let m = occs.len() as int;
            assert(bs.len() == m + 1);
            assert forall|k: int|
                0 <= k < bs.len() implies (#[trigger] bs[k]).bytes.start as int == line_start_byte(
                s,
                p,
                k,
            ) && bs[k].bytes.end as int == line_end_byte(s, p, k) && bs[k].indics.start as int
                == unit_of(s, is_bytes, bs[k].bytes.start as int) && bs[k].indics.end as int
                == unit_of(s, is_bytes, bs[k].bytes.end as int) by {
                if k < m {
                    assert(bs[k] == prev[k]);
                } else {
                    assert(bs[k] == b);
                }
            }
            lemma_init_table_ok(s, p, is_bytes, bs);
        }
        LineIndex(bounds)
    }

    /// Builds the index with the line-feed separator.
    pub fn init_lf(source: &[u8], byte_index: bool) -> (r: Self)
        ensures
            wf_boundaries(r.0@),
            built_from(r.0@, source@, seq![10u8], byte_index),
    {
        let mut lf: Vec<u8> = Vec::new();
        lf.push(10);
        proof {
            assert(lf@ =~= seq![10u8]);
            assert(char_count(Seq::<u8>::empty()) == 0);
            assert(seq![10u8].drop_last() =~= Seq::<u8>::empty());
            assert(char_count(seq![10u8]) == 1);
        }
        Self::init(source, lf.as_slice(), byte_index)
    }

    /// Builds the index with the carriage-return line-feed separator.
    pub fn init_crlf(source: &[u8], byte_index: bool) -> (r: Self)
        ensures
            wf_boundaries(r.0@),
            built_from(r.0@, source@, seq![13u8, 10u8], byte_index),
    {
        let mut crlf: Vec<u8> = Vec::new();
        crlf.push(13);
        crlf.push(10);
        proof {
            assert(crlf@ =~= seq![13u8, 10u8]);
            assert(char_count(Seq::<u8>::empty()) == 0);
            assert(seq![13u8].drop_last() =~= Seq::<u8>::empty());
            assert(char_count(seq![13u8]) == 1);
            assert(seq![13u8, 10u8].drop_last() =~= seq![13u8]);
            assert(char_count(seq![13u8, 10u8]) == 2);
        }
        Self::init(source, crlf.as_slice(), byte_index)
    }

    /// Binary search for the line containing a span start at `sp`: the last
    /// line whose unit range starts at or before `sp`.
    fn find_start_line(&self, sp: usize) -> (a: usize)
        requires
            wf_boundaries(self.0@),
        ensures
            is_start_line(self.0@, sp as int, a as int),
    {
        let ghost bs = self.0@;
        let len = self.0.len();
        let mut lo: usize = 0;
        let mut hi: usize = len - 1;
        while lo < hi
            invariant
                bs == self.0@,
                wf_boundaries(bs),
                len == bs.len(),
                0 <= lo <= hi < len,
                ind0(bs, lo as int) <= sp,
                forall|j: int| hi < j < len ==> sp < #[trigger] ind0(bs, j),
            decreases hi - lo,
        {
            let mid = lo + (hi - lo + 1) / 2;
            if self.0[mid].indics.start <= sp {
                lo = mid;
            } else {
                proof {
                    lemma_wf_sorted(bs);
                    assert forall|j: int| mid <= j < len implies sp < #[trigger] ind0(bs, j) by {
                        if mid < j {
                            assert(ind0(bs, mid as int) < ind0(bs, j));
                        }
                    }
                }
                hi = mid - 1;
            }
        }
        lo
    }

    /// Binary search for the line containing a span end at `ep`: the first
    /// line whose unit range ends at or after `ep`.
    fn find_end_line(&self, ep: usize) -> (b: usize)
        requires
            wf_boundaries(self.0@),
            ep as int <= extent_of(self.0@),
        ensures
            is_end_line(self.0@, ep as int, b as int),
    {
        let ghost bs = self.0@;
        let len = self.0.len();
        let mut lo: usize = 0;
        let mut hi: usize = len - 1;
        while lo < hi
            invariant
                bs == self.0@,
                wf_boundaries(bs),
                len == bs.len(),
                0 <= lo <= hi < len,
                ep <= ind1(bs, hi as int),
                forall|j: int| 0 <= j < lo ==> #[trigger] ind1(bs, j) < ep,
            decreases hi - lo,
        {
            let mid = lo + (hi - lo) / 2;
            if self.0[mid].indics.end >= ep {
                hi = mid;
            } else {
                proof {
                    lemma_wf_sorted(bs);
                    assert forall|j: int| 0 <= j < mid + 1 implies #[trigger] ind1(bs, j) < ep by {
                        if j < mid {
                            assert(ind1(bs, j) < ind1(bs, mid as int));
                        }
                    }
                }
                lo = mid + 1;
            }
        }
        lo
    }

    /// Resolves a span to the pair of boundaries of the first and the last
    /// line it touches: the line containing its start, found by rounding
    /// down among line starts, and the line containing its end, found by
    /// rounding up among line ends.
    pub fn resolve_boundary<T: SpanLike>(&self, span: T) -> (r: (&LineBoundary, &LineBoundary))
        requires
            wf_boundaries(self.0@),
            span.spec_start() <= span.spec_end(),
            span.spec_end() as int <= extent_of(self.0@),
        ensures
            is_start_line(self.0@, span.spec_start() as int, start_line_of(self.0@, span.spec_start() as int)),
            is_end_line(self.0@, span.spec_end() as int, end_line_of(self.0@, span.spec_end() as int)),
            *r.0 == self.0@[start_line_of(self.0@, span.spec_start() as int)],
            *r.1 == self.0@[end_line_of(self.0@, span.spec_end() as int)],
    {
        let sp = span.start();
        let ep = span.end();
        let a = self.find_start_line(sp);
        let b = self.find_end_line(ep);
        proof {
            let bs = self.0@;
            assert(is_start_line(bs, sp as int, a as int));
            assert(exists|x: int| is_start_line(bs, sp as int, x));
            lemma_start_line_unique(bs, sp as int, a as int, start_line_of(bs, sp as int));
            assert(is_end_line(bs, ep as int, b as int));
            assert(exists|x: int| is_end_line(bs, ep as int, x));
            lemma_end_line_unique(bs, ep as int, b as int, end_line_of(bs, ep as int));
        }
        (&self.0[a], &self.0[b])
    }

    /// Resolves a span to the byte range covering every line it touches:
    /// from the start of the line containing `span.start()` to the end of
    /// the line containing `span.end()`, always a forward range.
    pub fn resolve_span<T: SpanLike>(&self, span: T) -> (r: Range<usize>)
        requires
            wf_boundaries(self.0@),
            span.spec_start() <= span.spec_end(),
            span.spec_end() as int <= extent_of(self.0@),
        ensures
            is_start_line(self.0@, span.spec_start() as int, start_line_of(self.0@, span.spec_start() as int)),
            is_end_line(self.0@, span.spec_end() as int, end_line_of(self.0@, span.spec_end() as int)),
            r.start as int == by0(self.0@, start_line_of(self.0@, span.spec_start() as int)),
            r.end as int == by1(self.0@, end_line_of(self.0@, span.spec_end() as int)),
            r.start <= r.end,
    {
        let ghost sp = span.spec_start() as int;
        let ghost ep = span.spec_end() as int;
        let (a, b) = self.resolve_boundary(span);
        proof {
            lemma_start_before_end(
                self.0@,
                sp,
                ep,
                start_line_of(self.0@, sp),
                end_line_of(self.0@, ep),
            );
        }
        Range { start: a.bytes.start, end: b.bytes.end }
    }
}

/// A line index identifies `a` as the start line for `sp` exactly when `a`
/// satisfies `is_start_line`.
pub proof fn lemma_start_line_is(bs: Seq<LineBoundary>, sp: int, a: int)
    requires
        is_start_line(bs, sp, a),
    ensures
        start_line_of(bs, sp) == a,
{
    assert(exists|x: int| is_start_line(bs, sp, x));
    lemma_start_line_unique(bs, sp, a, start_line_of(bs, sp));
}

/// A line index identifies `b` as the end line for `ep` exactly when `b`
/// satisfies `is_end_line`.
pub proof fn lemma_end_line_is(bs: Seq<LineBoundary>, ep: int, b: int)
    requires
        is_end_line(bs, ep, b),
    ensures
        end_line_of(bs, ep) == b,
{
    assert(exists|x: int| is_end_line(bs, ep, x));
    lemma_end_line_unique(bs, ep, b, end_line_of(bs, ep));
}

/// A built table holds exactly one line boundary per separator occurrence,
/// plus the final line after the last occurrence.
pub proof fn lemma_line_count(bs: Seq<LineBoundary>, s: Seq<u8>, p: Seq<u8>, is_bytes: bool)
    requires
        built_from(bs, s, p, is_bytes),
    ensures
        bs.len() == occurrences(s, p).len() + 1,
{
}

/// The separators are exactly the gaps between consecutive lines: each line
/// ends a separator's length before the next begins, in bytes and in the
/// chosen unit alike.
pub proof fn lemma_separator_gaps(bs: Seq<LineBoundary>, s: Seq<u8>, p: Seq<u8>, is_bytes: bool)
    requires
        0 < p.len(),
        built_from(bs, s, p, is_bytes),
    ensures
        forall|i: int|
            #![trigger by1(bs, i), by0(bs, i + 1)]
            0 <= i < bs.len() - 1 ==> by1(bs, i) + p.len() == by0(bs, i + 1),
        forall|i: int|
            #![trigger ind1(bs, i), ind0(bs, i + 1)]
            0 <= i < bs.len() - 1 ==> ind1(bs, i) + sep_units_of(p, is_bytes) == ind0(bs, i + 1),
{
    let occs = occurrences(s, p);
    assert forall|i: int|
        #![trigger by1(bs, i), by0(bs, i + 1)]
        0 <= i < bs.len() - 1 implies by1(bs, i) + p.len() == by0(bs, i + 1) by {
        assert(by1(bs, i) == occs[i]);
        assert(by0(bs, i + 1) == occs[i] + p.len());
    }
    assert forall|i: int|
        #![trigger ind1(bs, i), ind0(bs, i + 1)]
        0 <= i < bs.len() - 1 implies ind1(bs, i) + sep_units_of(p, is_bytes) == ind0(
        bs,
        i + 1,
    ) by {
        lemma_occurrence_is_match(s, p, 0, i);
        lemma_unit_of_after_sep(s, p, is_bytes, occs[i]);
        assert(by1(bs, i) == occs[i]);
        assert(by0(bs, i + 1) == occs[i] + p.len());
        assert(ind1(bs, i) == unit_of(s, is_bytes, occs[i]));
        assert(ind0(bs, i + 1) == unit_of(s, is_bytes, occs[i] + p.len()));
    }
}

/// A span with `start == end == 0` always resolves to the first line, so
/// the resolved byte range is the first line's full byte range.
pub proof fn lemma_zero_span_first_line(bs: Seq<LineBoundary>)
    requires
        wf_boundaries(bs),
    ensures
        start_line_of(bs, 0) == 0,
        end_line_of(bs, 0) == 0,
{
    lemma_wf_sorted(bs);
    assert(is_start_line(bs, 0, 0)) by {
        assert forall|j: int| 0 < j < bs.len() implies 0 < #[trigger] ind0(bs, j) by {
            assert(ind0(bs, 0) < ind0(bs, j));
        }
    }
    assert(is_end_line(bs, 0, 0)) by {
        assert(ind0(bs, 0) <= ind1(bs, 0));
    }
    lemma_start_line_is(bs, 0, 0);
    lemma_end_line_is(bs, 0, 0);
}

/// A span lying strictly inside one separator resolves to the two lines
/// around that separator, and the resolved byte range is never empty.
pub proof fn lemma_span_inside_separator(bs: Seq<LineBoundary>, k: int, sp: int, ep: int)
    requires
        wf_boundaries(bs),
        0 <= k < bs.len() - 1,
        ind1(bs, k) < sp,
        sp <= ep,
        ep < ind0(bs, k + 1),
    ensures
        start_line_of(bs, sp) == k,
        end_line_of(bs, ep) == k + 1,
        by0(bs, k) < by1(bs, k + 1),
{
    lemma_wf_sorted(bs);
    assert(is_start_line(bs, sp, k)) by {
        assert(ind0(bs, k) <= ind1(bs, k));
        assert forall|j: int| k < j < bs.len() implies sp < #[trigger] ind0(bs, j) by {
            if k + 1 < j {
                assert(ind0(bs, k + 1) < ind0(bs, j));
            }
        }
    }
    assert(is_end_line(bs, ep, k + 1)) by {
        assert(ind0(bs, k + 1) <= ind1(bs, k + 1));
        assert forall|j: int| 0 <= j < k + 1 implies #[trigger] ind1(bs, j) < ep by {
            if j < k {
                assert(ind1(bs, j) < ind1(bs, k));
            }
        }
    }
    lemma_start_line_is(bs, sp, k);
    lemma_end_line_is(bs, ep, k + 1);
    assert(by1(bs, k) < by0(bs, k + 1));
    assert(by0(bs, k) <= by1(bs, k));
    assert(by0(bs, k + 1) <= by1(bs, k + 1));
}

/// Over a buffer of single-byte characters, the byte-mode table and the
/// character-mode table agree entirely: scalar values coincide with bytes,
/// so resolution in either unit yields the same byte output.
pub proof fn lemma_ascii_modes_agree(
    bs_b: Seq<LineBoundary>,
    bs_c: Seq<LineBoundary>,
    s: Seq<u8>,
    p: Seq<u8>,
)
    requires
        0 < p.len(),
        forall|i: int| 0 <= i < s.len() ==> s[i] < 0x80,
        built_from(bs_b, s, p, true),
        built_from(bs_c, s, p, false),
    ensures
        bs_b.len() == bs_c.len(),
        forall|k: int|
            #![trigger bs_b[k], bs_c[k]]
            0 <= k < bs_b.len() ==> by0(bs_b, k) == by0(bs_c, k) && by1(bs_b, k) == by1(bs_c, k)
                && ind0(bs_b, k) == ind0(bs_c, k) && ind1(bs_b, k) == ind1(bs_c, k),
{
    lemma_occurrences_from_props(s, p, 0);
    let occs = occurrences(s, p);
    assert forall|b: int| 0 <= b <= s.len() implies #[trigger] unit_of(s, false, b) == b by {
        assert(s.take(b) =~= s.subrange(0, b));
        assert(forall|i: int| 0 <= i < s.take(b).len() ==> s.take(b)[i] < 0x80);
        lemma_char_count_ascii(s.take(b));
    }
    assert forall|k: int|
        #![trigger bs_b[k], bs_c[k]]
        0 <= k < bs_b.len() implies by0(bs_b, k) == by0(bs_c, k) && by1(bs_b, k) == by1(bs_c, k)
        && ind0(bs_b, k) == ind0(bs_c, k) && ind1(bs_b, k) == ind1(bs_c, k) by {
        assert(by0(bs_b, k) == line_start_byte(s, p, k));
        assert(by0(bs_c, k) == line_start_byte(s, p, k));
        assert(by1(bs_b, k) == line_end_byte(s, p, k));
        assert(by1(bs_c, k) == line_end_byte(s, p, k));
        assert(0 <= line_start_byte(s, p, k) <= s.len()) by {
            if k > 0 {
                assert(occs[k - 1] + p.len() <= s.len());
            }
        }
        assert(0 <= line_end_byte(s, p, k) <= s.len()) by {
            if k < occs.len() {
                assert(occs[k] + p.len() <= s.len());
            }
        }
        assert(unit_of(s, false, line_start_byte(s, p, k)) == line_start_byte(s, p, k));
        assert(unit_of(s, false, line_end_byte(s, p, k)) == line_end_byte(s, p, k));
    }
}

} // verus!
