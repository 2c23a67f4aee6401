//! Reading the span producer's input lines: each line names a span and a
//! token as `<start> <end> <token_name>`, space-separated, with the indices
//! in decimal.

use vstd::prelude::*;

use crate::term::{bytes_to_string, decoded_of};

verus! {

/// A decimal digit.
pub open spec fn is_digit(b: u8) -> bool {
    48 <= b <= 57
}

/// Every byte of `s` is a decimal digit.
pub open spec fn all_digits(s: Seq<u8>) -> bool {
    forall|i: int| 0 <= i < s.len() ==> is_digit(#[trigger] s[i])
}

/// The number that a digit sequence denotes, most significant digit first.
pub open spec fn dec_val(s: Seq<u8>) -> nat
    decreases s.len(),
{
    if s.len() == 0 {
        0
    } else {
        (dec_val(s.drop_last()) * 10 + (s.last() - 48)) as nat
    }
}

/// The index of the first space at or after position `i`, or the length of
/// `s` when there is none.
pub open spec fn first_space(s: Seq<u8>, i: int) -> int
    decreases s.len() - i,
        when 0 <= i
{
    if i >= s.len() {
        s.len() as int
    } else if s[i] == 32 {
        i
    } else {
        first_space(s, i + 1)
    }
}

/// A digit string's prefixes never denote more than the whole string.
proof fn lemma_dec_val_prefix_le(s: Seq<u8>, i: int)
    requires
        0 <= i <= s.len(),
        all_digits(s),
    ensures
        dec_val(s.take(i)) <= dec_val(s),
    decreases s.len() - i,
{
    if i == s.len() {
        assert(s.take(i) =~= s);
    } else {
        lemma_dec_val_prefix_le(s, i + 1);
        assert(s.take(i + 1).drop_last() =~= s.take(i));
        assert(s.take(i + 1).last() == s[i]);
        assert(dec_val(s.take(i + 1)) == dec_val(s.take(i)) * 10 + (s[i] - 48));
    }
}

/// Finds the first space at or after `from`.
fn find_space(s: &[u8], from: usize) -> (r: usize)
    requires
        from <= s@.len(),
    ensures
        r as int == first_space(s@, from as int),
        from <= r <= s@.len(),
{
    let n = s.len();
    let mut i: usize = from;
    while i < n
        invariant
            from <= i <= n,
            n == s@.len(),
            first_space(s@, from as int) == first_space(s@, i as int),
        decreases n - i,
    {
        if s[i] == 32 {
            return i;
        }
        i = i + 1;
    }
    n
}

/// Parses `s[from..to]` as a decimal number. Returns the denoted value
/// exactly when the range is a non-empty run of digits whose value fits;
/// returns nothing otherwise.
fn parse_usize(s: &[u8], from: usize, to: usize) -> (r: Option<usize>)
    requires
        from <= to <= s@.len(),
    ensures
        ({
            let d = s@.subrange(from as int, to as int);
            match r {
                Some(v) => from < to && all_digits(d) && v as nat == dec_val(d),
                None => !(from < to && all_digits(d) && dec_val(d) <= usize::MAX),
            }
        }),
{
    let ghost d = s@.subrange(from as int, to as int);
    if from == to {
        return None;
    }
    let mut acc: usize = 0;
    let mut i: usize = from;
    proof {
        assert(d.take(0) =~= Seq::<u8>::empty());
    }
    while i < to
        invariant
            from <= i <= to <= s@.len(),
            d == s@.subrange(from as int, to as int),
            acc as nat == dec_val(d.take(i - from)),
            all_digits(d.take(i - from)),
        decreases to - i,
    {
        let b = s[i];
        proof {
            assert(d[i - from] == s@[i as int]);
            assert(d.take(i - from + 1).drop_last() =~= d.take(i - from));
            assert(d.take(i - from + 1).last() == d[i - from]);
        }
        if b < 48 || b > 57 {
            proof {
                assert(!is_digit(d[i - from]));
            }
            return None;
        }
        let digit = (b - 48) as usize;
        let next = match acc.checked_mul(10) {
            Some(x) => x.checked_add(digit),
            None => None,
        };
        match next {
            Some(x) => {
                acc = x;
            },
            None => {
                proof {
                    // the value read so far already exceeds the largest usize
                    assert(dec_val(d.take(i - from + 1)) > usize::MAX);
                    if all_digits(d) && dec_val(d) <= usize::MAX {
                        lemma_dec_val_prefix_le(d, i - from + 1);
                    }
                }
                return None;
            },
        }
        i = i + 1;
    }
    proof {
        assert(d.take(to - from) =~= d);
    }
    Some(acc)
}

/// Splits one producer line into its span and its token name: the first two
/// space-separated fields must be decimal numbers, and everything after the
/// second space is the name. Returns nothing exactly when the line does not
/// have that shape or a number does not fit.
pub fn parse_span_line(line: &[u8]) -> (r: Option<(usize, usize, String)>)
    ensures
        ({
            let s = line@;
            let n = s.len() as int;
            let i1 = first_space(s, 0);
            let i2 = first_space(s, i1 + 1);
            let a = s.subrange(0, i1);
            let b = s.subrange(i1 + 1, if i2 > n { n } else { i2 });
            let ok = i1 < n && i2 < n && 0 < i1 && all_digits(a) && dec_val(a) <= usize::MAX
                && i1 + 1 < i2 && all_digits(b) && dec_val(b) <= usize::MAX;
            match r {
                Some(t) => ok && t.0 as nat == dec_val(a) && t.1 as nat == dec_val(b) && t.2@
                    == decoded_of(s.subrange(i2 + 1, n)),
                None => !ok,
            }
        }),
{
    let n = line.len();
    let i1 = find_space(line, 0);
    if i1 == n {
        return None;
    }
    let i2 = find_space(line, i1 + 1);
    if i2 == n {
        return None;
    }
    let a = match parse_usize(line, 0, i1) {
        Some(v) => v,
        None => {
            return None;
        },
    };
    let b = match parse_usize(line, i1 + 1, i2) {
        Some(v) => v,
        None => {
            return None;
        },
    };
    let mut rest: Vec<u8> = Vec::new();
    let mut j: usize = i2 + 1;
    proof {
        assert(line@.subrange(i2 + 1, i2 + 1) =~= Seq::<u8>::empty());
        assert(rest@ =~= line@.subrange(i2 + 1, i2 + 1));
    }
    while j < n
        invariant
            i2 + 1 <= j <= n,
            n == line@.len(),
            rest@ == line@.subrange(i2 + 1, j as int),
        decreases n - j,
    {
        rest.push(line[j]);
        proof {
            assert(line@.subrange(i2 + 1, j + 1) =~= line@.subrange(i2 + 1, j as int).push(
                line@[j as int],
            ));
        }
        j = j + 1;
    }
    let name = bytes_to_string(&rest);
    Some((a, b, name))
}

} // verus!
