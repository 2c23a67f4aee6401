//! Byte-level text measurement: counting Unicode scalar values in a byte
//! buffer. In well-formed UTF-8, every scalar value is encoded as one lead
//! byte followed by continuation bytes in `0x80..0xC0`, so the number of
//! scalar values in a slice equals the number of non-continuation bytes.

use vstd::prelude::*;

verus! {

/// A byte that begins the encoding of a Unicode scalar value, i.e. anything
/// but a UTF-8 continuation byte.
pub open spec fn is_scalar_start(b: u8) -> bool {
    b < 0x80 || b >= 0xC0
}

/// The number of scalar-start bytes in `s`: the character length of `s` when
/// `s` is well-formed UTF-8.
pub open spec fn char_count(s: Seq<u8>) -> nat
    decreases s.len(),
{
    if s.len() == 0 {
        0
    } else {
        char_count(s.drop_last()) + (if is_scalar_start(s.last()) {
            1nat
        } else {
            0nat
        })
    }
}

pub proof fn lemma_char_count_le_len(s: Seq<u8>)
    ensures
        char_count(s) <= s.len(),
    decreases s.len(),
{
    if s.len() > 0 {
        lemma_char_count_le_len(s.drop_last());
    }
}

pub proof fn lemma_char_count_push(s: Seq<u8>, b: u8)
    ensures
        char_count(s.push(b)) == char_count(s) + (if is_scalar_start(b) {
            1nat
        } else {
            0nat
        }),
{
    assert(s.push(b).drop_last() =~= s);
    assert(s.push(b).last() == b);
}

pub proof fn lemma_char_count_concat(a: Seq<u8>, b: Seq<u8>)
    ensures
        char_count(a + b) == char_count(a) + char_count(b),
    decreases b.len(),
{
    if b.len() == 0 {
        assert(a + b =~= a);
    } else {
        lemma_char_count_concat(a, b.drop_last());
        assert((a + b).drop_last() =~= a + b.drop_last());
        assert((a + b).last() == b.last());
    }
}

pub proof fn lemma_char_count_ascii(s: Seq<u8>)
    requires
        forall|i: int| 0 <= i < s.len() ==> s[i] < 0x80,
    ensures
        char_count(s) == s.len(),
    decreases s.len(),
{
    if s.len() > 0 {
        lemma_char_count_ascii(s.drop_last());
    }
}

/// Counts the scalar values in `s[from..to]`.
pub fn count_chars_range(s: &[u8], from: usize, to: usize) -> (r: usize)
    requires
        from <= to <= s@.len(),
    ensures
        r == char_count(s@.subrange(from as int, to as int)),
        r <= to - from,
{
    let mut cnt: usize = 0;
    let mut j: usize = from;
    proof {
        assert(s@.subrange(from as int, from as int) =~= Seq::<u8>::empty());
    }
    while j < to
        invariant
            from <= j <= to <= s@.len(),
            cnt == char_count(s@.subrange(from as int, j as int)),
            cnt <= j - from,
        decreases to - j,
    {
        let b = s[j];
        proof {
            assert(s@.subrange(from as int, j + 1) =~= s@.subrange(
                from as int,
                j as int,
            ).push(s@[j as int]));
            lemma_char_count_push(s@.subrange(from as int, j as int), s@[j as int]);
        }
        if b < 0x80 || b >= 0xC0 {
            cnt = cnt + 1;
        }
        j = j + 1;
    }
    cnt
}

/// Counts the scalar values in the whole of `s`.
pub fn count_chars(s: &[u8]) -> (r: usize)
    ensures
        r == char_count(s@),
        r <= s@.len(),
{
    let r = count_chars_range(s, 0, s.len());
    proof {
        assert(s@.subrange(0, s@.len() as int) =~= s@);
    }
    r
}

/// The position of the `k`-th scalar-start byte at or after position `x`
/// (counting from zero), or the buffer's length when there is none.
pub open spec fn kth_scalar_start(s: Seq<u8>, x: int, k: int) -> int
    decreases s.len() - x,
        when 0 <= x
{
    if x >= s.len() {
        s.len() as int
    } else if is_scalar_start(s[x]) {
        if k == 0 {
            x
        } else {
            kth_scalar_start(s, x + 1, k - 1)
        }
    } else {
        kth_scalar_start(s, x + 1, k)
    }
}

/// The `k`-th scalar-start position never lies beyond a scalar-start (or
/// end-of-buffer) position `q` that already has `k` or more scalar values
/// before it.
pub proof fn lemma_kth_at_most(s: Seq<u8>, x: int, k: int, q: int)
    requires
        0 <= x <= q <= s.len(),
        0 <= k,
        char_count(s.subrange(x, q)) > k || (char_count(s.subrange(x, q)) == k && (q == s.len()
            || is_scalar_start(s[q]))),
    ensures
        kth_scalar_start(s, x, k) <= q,
    decreases s.len() - x,
{
    assert(s.subrange(x, x) =~= Seq::<u8>::empty());
    if x == q {
    } else {
        assert(s.subrange(x, q) =~= s.subrange(x, x + 1) + s.subrange(x + 1, q));
        lemma_char_count_concat(s.subrange(x, x + 1), s.subrange(x + 1, q));
        assert(s.subrange(x, x + 1) =~= Seq::<u8>::empty().push(s[x]));
        lemma_char_count_push(Seq::<u8>::empty(), s[x]);
        if is_scalar_start(s[x]) {
            if k == 0 {
            } else {
                lemma_kth_at_most(s, x + 1, k - 1, q);
            }
        } else {
            lemma_kth_at_most(s, x + 1, k, q);
        }
    }
}

/// Finds the byte position of the `k`-th scalar value at or after `from`,
/// or the end of the buffer when exactly `k` scalar values remain there.
pub fn advance_chars(s: &[u8], from: usize, k: usize) -> (r: usize)
    requires
        from <= s@.len(),
        (k as int) <= char_count(s@.subrange(from as int, s@.len() as int)),
    ensures
        r as int == kth_scalar_start(s@, from as int, k as int),
        from <= r <= s@.len(),
        char_count(s@.subrange(from as int, r as int)) == k,
        r < s@.len() ==> is_scalar_start(s@[r as int]),
{
    let n = s.len();
    let mut i: usize = from;
    let mut c: usize = 0;
    proof {
        assert(s@.subrange(from as int, from as int) =~= Seq::<u8>::empty());
    }
    while i < n
        invariant
            from <= i <= n,
            n == s@.len(),
            c <= k,
            (k as int) <= char_count(s@.subrange(from as int, n as int)),
            kth_scalar_start(s@, from as int, k as int) == kth_scalar_start(
                s@,
                i as int,
                k - c,
            ),
            char_count(s@.subrange(from as int, i as int)) == c,
        decreases n - i,
    {
        proof {
            assert(s@.subrange(from as int, i + 1) =~= s@.subrange(from as int, i as int).push(
                s@[i as int],
            ));
            lemma_char_count_push(s@.subrange(from as int, i as int), s@[i as int]);
        }
        let b = s[i];
        if b < 0x80 || b >= 0xC0 {
            if c == k {
                return i;
            }
            c = c + 1;
        }
        i = i + 1;
    }
    proof {
        assert(s@.subrange(from as int, n as int) == s@.subrange(from as int, i as int));
        assert(c == k);
        assert(kth_scalar_start(s@, i as int, k - c) == s@.len() as int);
    }
    n
}

/// A run of `n` spaces.
pub open spec fn spaces(n: nat) -> Seq<u8> {
    Seq::new(n, |i: int| 32u8)
}

/// The visible end-of-line marker, followed by an actual line feed.
pub open spec fn newline_marker() -> Seq<u8> {
    seq![0xE2u8, 0x8Fu8, 0x8Eu8, 0x0Au8]
}

/// How one byte renders: a tab becomes `tw` spaces, a line feed becomes the
/// visible marker plus a line feed, anything else stays itself.
pub open spec fn expand_byte(b: u8, tw: nat) -> Seq<u8> {
    if b == 9 {
        spaces(tw)
    } else if b == 10 {
        newline_marker()
    } else {
        seq![b]
    }
}

/// How a byte sequence renders: every byte expanded in place.
pub open spec fn expand(s: Seq<u8>, tw: nat) -> Seq<u8>
    decreases s.len(),
{
    if s.len() == 0 {
        Seq::empty()
    } else {
        expand(s.drop_last(), tw) + expand_byte(s.last(), tw)
    }
}

/// Renders `s[from..to]` into `out`, expanding tabs and line feeds.
pub fn expand_range(s: &[u8], from: usize, to: usize, tab_width: usize, out: &mut Vec<u8>)
    requires
        from <= to <= s@.len(),
    ensures
        final(out)@ == old(out)@ + expand(s@.subrange(from as int, to as int), tab_width as nat),
{
    let ghost base = out@;
    let mut i: usize = from;
    proof {
        assert(s@.subrange(from as int, from as int) =~= Seq::<u8>::empty());
        assert(base + expand(s@.subrange(from as int, from as int), tab_width as nat) =~= base);
    }
    while i < to
        invariant
            from <= i <= to <= s@.len(),
            out@ == base + expand(s@.subrange(from as int, i as int), tab_width as nat),
        decreases to - i,
    {
        proof {
            assert(s@.subrange(from as int, i + 1) =~= s@.subrange(from as int, i as int).push(
                s@[i as int],
            ));
            assert(s@.subrange(from as int, i + 1).drop_last() =~= s@.subrange(
                from as int,
                i as int,
            ));
        }
        let b = s[i];
        if b == 9 {
            let ghost mid = out@;
            let mut j: usize = 0;
            proof {
                assert(spaces(0) =~= Seq::<u8>::empty());
                assert(mid + spaces(0) =~= mid);
            }
            while j < tab_width
                invariant
                    j <= tab_width,
                    out@ == mid + spaces(j as nat),
                decreases tab_width - j,
            {
                out.push(32);
                proof {
                    assert(spaces((j + 1) as nat) =~= spaces(j as nat).push(32u8));
                }
                j = j + 1;
            }
            proof {
                assert(out@ =~= base + expand(s@.subrange(from as int, i + 1), tab_width as nat));
            }
        } else if b == 10 {
            out.push(0xE2);
            out.push(0x8F);
            out.push(0x8E);
            out.push(0x0A);
            proof {
                assert(out@ =~= base + expand(s@.subrange(from as int, i + 1), tab_width as nat));
            }
        } else {
            out.push(b);
            proof {
                assert(out@ =~= base + expand(s@.subrange(from as int, i + 1), tab_width as nat));
            }
        }
        i = i + 1;
    }
}

/// The decimal digits of `n`, most significant first.
pub open spec fn dec_digits(n: nat) -> Seq<u8>
    decreases n,
{
    if n < 10 {
        seq![(48 + n) as u8]
    } else {
        dec_digits(n / 10).push((48 + n % 10) as u8)
    }
}

/// Appends the decimal rendering of `n` to `out`.
pub fn push_decimal(n: usize, out: &mut Vec<u8>)
    ensures
        final(out)@ == old(out)@ + dec_digits(n as nat),
    decreases n,
{
    if n < 10 {
        out.push(48 + n as u8);
        proof {
            assert(out@ =~= old(out)@ + dec_digits(n as nat));
        }
    } else {
        push_decimal(n / 10, out);
        out.push(48 + (n % 10) as u8);
        proof {
            assert(out@ =~= old(out)@ + dec_digits(n as nat));
        }
    }
}

} // verus!
