//! Resolves offset spans inside a text buffer to the physical lines that
//! contain them, and renders each span as a highlighted sub-string — an aid
//! for checking that reported token spans line up with source text.
//!
//! The buffer is handled as raw bytes; character positions count Unicode
//! scalar values, which for well-formed UTF-8 text is the number of bytes
//! that begin a scalar-value encoding.

use core::ops::Range;
use vstd::prelude::*;

pub mod input;
pub mod line_index;
pub mod span_like;
pub mod term;
pub mod text;

use crate::line_index::{by0, by1, built_from, end_line_of, extent_of, ind0, ind1, sep_units_of,
    start_line_of, wf_boundaries, LineBoundary, LineIndex, lemma_wf_sorted};
use crate::span_like::SpanLike;
use crate::term::{bytes_to_string, decoded_of, emit_line, highlight_post, highlight_pre,
    render_table, style_row_text, table_of};
use crate::text::{char_count, dec_digits, expand, is_scalar_start, kth_scalar_start,
    lemma_char_count_concat, lemma_kth_at_most, advance_chars, expand_range, push_decimal};

verus! {

/// Anything that can give a display name for a token.
pub trait ToTokenName {
    /// The name, as seen by specifications. Implementations outside
    /// verified code may leave this default in place; the contract of
    /// `to_token_name` is then checked only for verified implementations.
    open spec fn token_name_spec(&self) -> Seq<char> {
        Seq::<char>::empty()
    }

    fn to_token_name(&self) -> (r: String)
        ensures
            r@ == self.token_name_spec(),
    ;
}

impl ToTokenName for String {
    open spec fn token_name_spec(&self) -> Seq<char> {
        self@
    }

    fn to_token_name(&self) -> String {
        self.clone()
    }
}

/// One rendering record: the token's display name, its original span, and
/// the assembled highlighted line text.
pub struct HighlightRow {
    pub token: String,
    pub range: Range<usize>,
    pub span: String,
}

/// Line byte positions that begin a scalar value (or end the buffer): what
/// holds of every boundary table over well-formed UTF-8 text split at a
/// well-formed UTF-8 separator.
pub open spec fn aligned_boundaries(s: Seq<u8>, bs: Seq<LineBoundary>) -> bool {
    forall|k: int|
        #![trigger bs[k]]
        0 <= k < bs.len() ==> (by0(bs, k) == s.len() || is_scalar_start(s[by0(bs, k)])) && (by1(
            bs,
            k,
        ) == s.len() || is_scalar_start(s[by1(bs, k)]))
}

/// The byte offset of a span start given in the chosen unit: the position
/// itself in byte mode, else the byte position of the matching scalar
/// value, counted from the start of the line that contains it.
pub open spec fn span_start_byte(s: Seq<u8>, bs: Seq<LineBoundary>, is_bytes: bool, sp: int) -> int {
    if is_bytes {
        sp
    } else {
        kth_scalar_start(
            s,
            by0(bs, start_line_of(bs, sp)),
            sp - ind0(bs, start_line_of(bs, sp)),
        )
    }
}

/// The byte offset of a span end given in the chosen unit: the position
/// itself in byte mode, else the byte position reached by counting the
/// span's scalar values forward from the span's start byte.
pub open spec fn span_end_byte(s: Seq<u8>, bs: Seq<LineBoundary>, is_bytes: bool, sp: int, ep: int) -> int {
    if is_bytes {
        ep
    } else {
        kth_scalar_start(s, span_start_byte(s, bs, is_bytes, sp), ep - sp)
    }
}

/// The display text of one row: the expanded line prefix, the highlight
/// codes around the expanded spanned slice, and the expanded line suffix.
pub open spec fn rendered_span(
    s: Seq<u8>,
    tw: nat,
    line_start: int,
    sb: int,
    eb: int,
    line_end: int,
) -> Seq<char> {
    decoded_of(expand(s.subrange(line_start, sb), tw)) + highlight_pre() + decoded_of(
        expand(s.subrange(sb, eb), tw),
    ) + highlight_post() + decoded_of(expand(s.subrange(eb, line_end), tw))
}

/// The text of a row's numeric span column.
pub open spec fn range_label(start: nat, end: nat) -> Seq<char> {
    decoded_of(dec_digits(start) + seq![46u8, 46u8] + dec_digits(end))
}

/// The cell strings that the rendered table holds: a header row, then one
/// row per token in submission order.
pub open spec fn table_cells(rows: Seq<HighlightRow>) -> Seq<Seq<Seq<char>>> {
    seq![seq!["token"@, "range"@, "span"@]] + rows.map_values(
        |r: HighlightRow|
            seq![r.token@, range_label(r.range.start as nat, r.range.end as nat), r.span@],
    )
}

/// Accumulates one rendering row per submitted token over an immutable
/// buffer and the line index built for it.
pub struct Highlighter {
    pub source: Vec<u8>,
    pub line_index: LineIndex,
    pub tab_width: usize,
    pub table: Vec<HighlightRow>,
    pub is_bytes: bool,
    pub sep: Ghost<Seq<u8>>,
}

impl Highlighter {
    /// The state invariant: the index is the well-formed boundary table
    /// built from the owned buffer and the separator.
    pub open spec fn wf(&self) -> bool {
        &&& self.sep@.len() > 0
        &&& sep_units_of(self.sep@, self.is_bytes) >= 1
        &&& wf_boundaries(self.line_index.0@)
        &&& built_from(self.line_index.0@, self.source@, self.sep@, self.is_bytes)
    }

    /// Builds a highlighter over `source` with the given separator, span
    /// addressing unit and tab width.
    pub fn new(source: &[u8], line_feed: &[u8], is_bytes: bool, tab_width: usize) -> (r: Self)
        requires
            line_feed@.len() > 0,
            !is_bytes ==> char_count(line_feed@) > 0,
        ensures
            r.wf(),
            r.source@ == source@,
            r.sep@ == line_feed@,
            r.is_bytes == is_bytes,
            r.tab_width == tab_width,
            r.table@.len() == 0,
    {
        Highlighter {
            source: vstd::slice::slice_to_vec(source),
            line_index: LineIndex::init(source, line_feed, is_bytes),
            tab_width,
            table: Vec::new(),
            is_bytes,
            sep: Ghost(line_feed@),
        }
    }

    /// Builds a highlighter splitting at line feeds.
    pub fn new_lf(source: &[u8], is_bytes: bool, tab_width: usize) -> (r: Self)
        ensures
            r.wf(),
            r.source@ == source@,
            r.sep@ == seq![10u8],
            r.is_bytes == is_bytes,
            r.tab_width == tab_width,
            r.table@.len() == 0,
    {
        let mut lf: Vec<u8> = Vec::new();
        lf.push(10);
        proof {
            assert(lf@ =~= seq![10u8]);
            assert(char_count(Seq::<u8>::empty()) == 0);
            assert(seq![10u8].drop_last() =~= Seq::<u8>::empty());
            assert(char_count(seq![10u8]) == 1);
        }
        Self::new(source, lf.as_slice(), is_bytes, tab_width)
    }

    /// Builds a highlighter splitting at carriage-return line-feed pairs.
    pub fn new_crlf(source: &[u8], is_bytes: bool, tab_width: usize) -> (r: Self)
        ensures
            r.wf(),
            r.source@ == source@,
            r.sep@ == seq![13u8, 10u8],
            r.is_bytes == is_bytes,
            r.tab_width == tab_width,
            r.table@.len() == 0,
    {
        let mut crlf: Vec<u8> = Vec::new();
        crlf.push(13);
        crlf.push(10);
        proof {
            assert(crlf@ =~= seq![13u8, 10u8]);
            assert(char_count(Seq::<u8>::empty()) == 0);
            assert(seq![13u8].drop_last() =~= Seq::<u8>::empty());
            assert(char_count(seq![13u8]) == 1);
            assert(seq![13u8, 10u8].drop_last() =~= seq![13u8]);
            assert(char_count(seq![13u8, 10u8]) == 2);
        }
        Self::new(source, crlf.as_slice(), is_bytes, tab_width)
    }

    /// Translates one character position into a byte offset: the byte
    /// position of the `k`-th scalar value counted forward from `from`,
    /// where `from` has `cs` scalar values before it. The result never
    /// passes `limit`, a scalar-value boundary with `cl` scalar values
    /// before it that the position stays within.
    #[verifier::rlimit(60)]
    #[verifier::spinoff_prover]
    fn char_pos_to_byte(s: &[u8], from: usize, limit: usize, cs: usize, cl: usize, k: usize) -> (r:
        usize)
        requires
            from <= limit <= s@.len(),
            cs as int == char_count(s@.take(from as int)),
            cl as int == char_count(s@.take(limit as int)),
            limit == s@.len() || is_scalar_start(s@[limit as int]),
            cs <= cl,
            k as int <= cl - cs,
        ensures
            r as int == kth_scalar_start(s@, from as int, k as int),
            from <= r <= limit,
            char_count(s@.take(r as int)) == cs + k,
            r == s@.len() || is_scalar_start(s@[r as int]),
    {
        let ghost sv = s@;
        let n = s.len();
        proof {
            assert(sv.take(n as int) =~= sv);
            assert(sv.take(limit as int) =~= sv.take(from as int) + sv.subrange(
                from as int,
                limit as int,
            ));
            lemma_char_count_concat(sv.take(from as int), sv.subrange(from as int, limit as int));
            assert(sv.take(n as int) =~= sv.take(from as int) + sv.subrange(from as int, n as int));
            lemma_char_count_concat(sv.take(from as int), sv.subrange(from as int, n as int));
            assert(sv.take(n as int) =~= sv.take(limit as int) + sv.subrange(limit as int, n as int));
            lemma_char_count_concat(sv.take(limit as int), sv.subrange(limit as int, n as int));
            assert(char_count(sv.subrange(from as int, n as int)) >= k);
        }
        let r = advance_chars(s, from, k);
        proof {
            assert(sv.take(r as int) =~= sv.take(from as int) + sv.subrange(from as int, r as int));
            lemma_char_count_concat(sv.take(from as int), sv.subrange(from as int, r as int));
            assert(char_count(sv.subrange(from as int, limit as int)) as int == cl - cs);
            lemma_kth_at_most(sv, from as int, k as int, limit as int);
        }
        r
    }

    /// Resolves the token's span, translates it to byte offsets when spans
    /// are character indices, slices the touched lines into prefix, spanned
    /// text and suffix, renders them with tabs and line feeds made visible
    /// and the spanned slice highlighted, and appends one row. Earlier rows
    /// are never changed: rows stay in submission order.
    #[verifier::rlimit(100)]
    #[verifier::spinoff_prover]
    pub fn next_token<Tok: ToTokenName, S: SpanLike>(&mut self, token: Tok, span: S)
        requires
            old(self).wf(),
            span.spec_start() <= span.spec_end(),
            span.spec_end() as int <= extent_of(old(self).line_index.0@),
            !old(self).is_bytes ==> aligned_boundaries(old(self).source@, old(self).line_index.0@),
            old(self).is_bytes ==> (span.spec_start() as int == old(self).source@.len()
                || is_scalar_start(old(self).source@[span.spec_start() as int])),
            old(self).is_bytes ==> (span.spec_end() as int == old(self).source@.len()
                || is_scalar_start(old(self).source@[span.spec_end() as int])),
        ensures
            final(self).wf(),
            final(self).source@ == old(self).source@,
            final(self).line_index.0@ == old(self).line_index.0@,
            final(self).sep@ == old(self).sep@,
            final(self).is_bytes == old(self).is_bytes,
            final(self).tab_width == old(self).tab_width,
            final(self).table@.len() == old(self).table@.len() + 1,
            forall|i: int| 0 <= i < old(self).table@.len() ==> final(self).table@[i] == old(
                self,
            ).table@[i],
            ({
                let s = old(self).source@;
                let bs = old(self).line_index.0@;
                let sp = span.spec_start() as int;
                let ep = span.spec_end() as int;
                let row = final(self).table@.last();
                &&& row.token@ == token.token_name_spec()
                &&& row.range.start == span.spec_start()
                &&& row.range.end == span.spec_end()
                &&& row.span@ == rendered_span(
                    s,
                    old(self).tab_width as nat,
                    by0(bs, start_line_of(bs, sp)),
                    span_start_byte(s, bs, old(self).is_bytes, sp),
                    span_end_byte(s, bs, old(self).is_bytes, sp, ep),
                    by1(bs, end_line_of(bs, ep)),
                )
            }),
    {
        let ghost s = self.source@;
        let ghost bs = self.line_index.0@;
        let sp = span.start();
        let ep = span.end();
        let ghost spv = sp as int;
        let ghost epv = ep as int;
        let name = token.to_token_name();
        let n = self.source.len();

        let (ab, bb) = self.line_index.resolve_boundary(span);
        let line_start = ab.bytes.start;
        let a_ind0 = ab.indics.start;
        let line_end = bb.bytes.end;
        let ghost a = start_line_of(bs, spv);
        let ghost b = end_line_of(bs, epv);

        proof {
            lemma_wf_sorted(bs);
            line_index::lemma_start_before_end(bs, spv, epv, a, b);
            let last = bs.len() - 1;
            assert(by1(bs, last) == line_index::line_end_byte(s, self.sep@, last));
            assert(by1(bs, last) == n);
            assert(ind1(bs, last) == line_index::unit_of(s, self.is_bytes, n as int));
            if b < last {
                assert(by1(bs, b) < by0(bs, last));
                assert(by0(bs, last) <= by1(bs, last));
            }
            assert(line_end <= n);
            assert(line_start as int == by0(bs, a));
            assert(line_start <= line_end);
        }

        let (sbyte, ebyte) = if self.is_bytes {
            proof {
                assert(a_ind0 as int == ind0(bs, a));
                assert(ind0(bs, a) == by0(bs, a));
                assert(ind1(bs, b) == by1(bs, b));
            }
            (sp, ep)
        } else {
            let b_ind1 = bb.indics.end;
            proof {
                assert(by1(bs, b) == n as int || is_scalar_start(s[by1(bs, b)]));
                assert(a_ind0 as int == ind0(bs, a));
                assert(ind0(bs, a) == char_count(s.take(line_start as int)) as int);
                assert(b_ind1 as int == ind1(bs, b));
                assert(ind1(bs, b) == char_count(s.take(line_end as int)) as int);
                assert(ind0(bs, a) <= spv);
                assert(epv <= ind1(bs, b));
            }
            let sb = Self::char_pos_to_byte(
                self.source.as_slice(),
                line_start,
                line_end,
                a_ind0,
                b_ind1,
                sp - a_ind0,
            );
            let eb = Self::char_pos_to_byte(
                self.source.as_slice(),
                sb,
                line_end,
                sp,
                b_ind1,
                ep - sp,
            );
            (sb, eb)
        };

        proof {
            assert(sbyte as int == span_start_byte(s, bs, self.is_bytes, spv));
            assert(ebyte as int == span_end_byte(s, bs, self.is_bytes, spv, epv));
            assert(line_start <= sbyte <= ebyte <= line_end <= n);
        }

        let mut pre_bytes: Vec<u8> = Vec::new();
        expand_range(self.source.as_slice(), line_start, sbyte, self.tab_width, &mut pre_bytes);
        let mut mid_bytes: Vec<u8> = Vec::new();
        expand_range(self.source.as_slice(), sbyte, ebyte, self.tab_width, &mut mid_bytes);
        let mut suf_bytes: Vec<u8> = Vec::new();
        expand_range(self.source.as_slice(), ebyte, line_end, self.tab_width, &mut suf_bytes);
        proof {
            assert(pre_bytes@ =~= expand(s.subrange(line_start as int, sbyte as int), self.tab_width as nat));
            assert(mid_bytes@ =~= expand(s.subrange(sbyte as int, ebyte as int), self.tab_width as nat));
            assert(suf_bytes@ =~= expand(s.subrange(ebyte as int, line_end as int), self.tab_width as nat));
        }
        let pre_text = bytes_to_string(&pre_bytes);
        let mid_text = bytes_to_string(&mid_bytes);
        let suf_text = bytes_to_string(&suf_bytes);
        let disp = style_row_text(&pre_text, &mid_text, &suf_text);
        let row = HighlightRow { token: name, range: Range { start: sp, end: ep }, span: disp };
        let ghost prev = self.table@;
        self.table.push(row);
        proof {
            assert(self.table@.len() == prev.len() + 1);
            assert forall|i: int| 0 <= i < prev.len() implies self.table@[i] == prev[i] by {
            }
            assert(self.table@.last().span@ == rendered_span(
                s,
                self.tab_width as nat,
                by0(bs, a),
                sbyte as int,
                ebyte as int,
                by1(bs, b),
            ));
        }
    }

    /// Renders the accumulated rows as a table: a header row, then one row
    /// per token, in submission order. Reading the same state twice gives
    /// the identical text.
    pub fn into_table(&self) -> (r: String)
        ensures
            r@ == table_of(table_cells(self.table@)),
    {
        let ghost goal = table_cells(self.table@);
        let mut records: Vec<Vec<String>> = Vec::new();
        let mut header: Vec<String> = Vec::new();
        header.push("token".to_owned());
        header.push("range".to_owned());
        header.push("span".to_owned());
        records.push(header);
        proof {
            assert(records.deep_view() =~~= goal.take(1));
        }
        let mut idx: usize = 0;
        while idx < self.table.len()
            invariant
                0 <= idx <= self.table@.len(),
                goal == table_cells(self.table@),
                goal.len() == self.table@.len() + 1,
                records.deep_view() == goal.take(idx + 1),
            decreases self.table@.len() - idx,
        {
            let row = &self.table[idx];
            let mut cells: Vec<String> = Vec::new();
            cells.push(row.token.clone());
            let mut rbytes: Vec<u8> = Vec::new();
            push_decimal(row.range.start, &mut rbytes);
            rbytes.push(46);
            rbytes.push(46);
            push_decimal(row.range.end, &mut rbytes);
            proof {
                assert(rbytes@ =~= dec_digits(row.range.start as nat) + seq![46u8, 46u8]
                    + dec_digits(row.range.end as nat));
            }
            cells.push(bytes_to_string(&rbytes));
            cells.push(row.span.clone());
            proof {
                assert(cells.deep_view() =~~= goal[idx + 1]);
            }
            let ghost cells_dv = cells.deep_view();
            let ghost prev_dv = records.deep_view();
            let ghost prev_rs = records@;
            records.push(cells);
            proof {
                let dvnew = records.deep_view();
                assert(prev_dv.len() == prev_rs.len());
                assert(prev_dv.len() == idx + 1);
                assert(records@.len() == prev_rs.len() + 1);
                assert(dvnew.len() == records@.len());
                assert forall|i: int| 0 <= i < dvnew.len() implies #[trigger] dvnew[i] =~~= goal.take(
                    idx + 2,
                )[i] by {
                    assert(dvnew[i] == records@[i].deep_view());
                    if i <= idx as int {
                        assert(records@[i] == prev_rs[i]);
                        assert(prev_dv[i] == prev_rs[i].deep_view());
                        assert(prev_dv[i] == goal.take(idx + 1)[i]);
                    } else {
                        assert(records@[i].deep_view() == cells_dv);
                    }
                }
                assert(records.deep_view() =~~= goal.take(idx + 2));
            }
            idx = idx + 1;
        }
        proof {
            assert(goal.take(idx + 1) =~= goal);
        }
        render_table(records)
    }

    /// Renders the accumulated rows and writes the table to standard
    /// output.
    pub fn print_table(self) {
        let text = self.into_table();
        emit_line(&text);
    }
}

/// Rendering reads the accumulated rows and nothing else: any two
/// renderings of the same highlighter state are the identical text. Since
/// `next_token` only appends a row and never touches earlier ones, the rows
/// rendered are exactly the submitted tokens in submission order.
pub proof fn lemma_render_deterministic(h: &Highlighter, r1: Seq<char>, r2: Seq<char>)
    requires
        r1 == table_of(table_cells(h.table@)),
        r2 == table_of(table_cells(h.table@)),
    ensures
        r1 == r2,
{
}

/// True of a line made of ten or more equals signs and nothing else: the
/// marker that ends inline source input.
pub fn is_delimiter(line: &[u8]) -> (r: bool)
    ensures
        r == (line@.len() >= 10 && (forall|i: int| 0 <= i < line@.len() ==> line@[i] == 0x3D)),
{
    if line.len() < 10 {
        return false;
    }
    let mut i: usize = 0;
    while i < line.len()
        invariant
            0 <= i <= line@.len(),
            forall|j: int| 0 <= j < i ==> line@[j] == 0x3D,
        decreases line@.len() - i,
    {
        if line[i] != 0x3D {
            return false;
        }
        i = i + 1;
    }
    true
}

} // verus!
