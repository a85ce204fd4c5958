//! The size of a CPU cache as the operating system writes it: decimal digits,
//! an optional leading `+`, and an optional `K` or `M` suffix.
use vstd::prelude::*;
use vstd::string::StringSliceAdditionalSpecFns;

verus! {

/// The value of the decimal digits `s`.
pub open spec fn decimal_value(s: Seq<u8>) -> int
    decreases s.len(),
{
    if s.len() == 0 {
        0
    } else {
        decimal_value(s.drop_last()) * 10 + (s.last() - 48)
    }
}

/// `s` is a non-empty run of decimal digits.
pub open spec fn is_digits(s: Seq<u8>) -> bool {
    &&& s.len() > 0
    &&& forall|i: int| 0 <= i < s.len() ==> 48 <= #[trigger] s[i] <= 57
}

/// The cache size that `text` gives in bytes, or `None` when it is no
/// unsigned decimal number with an optional `K` (kibibytes) or `M`
/// (mebibytes) suffix, or when the size is zero or does not fit in a `usize`.
pub open spec fn parse_cache_size_spec(text: Seq<u8>) -> Option<usize> {
    let (body, scale) = if text.len() > 0 && text.last() == 75u8 {
        (text.drop_last(), 1024int)
    } else if text.len() > 0 && text.last() == 77u8 {
        (text.drop_last(), 1048576int)
    } else {
        (text, 1int)
    };
    let digits = if body.len() > 0 && body[0] == 43u8 {
        body.drop_first()
    } else {
        body
    };
    if is_digits(digits) && 0 < decimal_value(digits) * scale <= usize::MAX {
        Some((decimal_value(digits) * scale) as usize)
    } else {
        None
    }
}

/// A prefix of a run of digits has no greater value.
proof fn lemma_decimal_prefix(s: Seq<u8>, j: int)
    requires
        forall|i: int| 0 <= i < s.len() ==> 48 <= #[trigger] s[i] <= 57,
        0 <= j <= s.len(),
    ensures
        0 <= decimal_value(s.take(j)) <= decimal_value(s),
    decreases s.len(),
{
    if j == s.len() {
        assert(s.take(j) =~= s);
        if s.len() > 0 {
            lemma_decimal_prefix(s.drop_last(), j - 1);
            assert(s.drop_last().take(j - 1) =~= s.drop_last());
        }
    } else {
        lemma_decimal_prefix(s.drop_last(), j);
        assert(s.drop_last().take(j) =~= s.take(j));
        lemma_decimal_prefix(s.drop_last(), s.len() - 1);
        assert(s.drop_last().take(s.len() - 1) =~= s.drop_last());
    }
}

/// Parses a cache size such as `1024K`; see `parse_cache_size_spec`.
pub fn parse_cache_size(text: &str) -> (r: Option<usize>)
    ensures
        r == parse_cache_size_spec(text.spec_bytes()),
{
    let b = text.as_bytes();
    let ghost t = b@;
    let n = b.len();
    let mut end = n;
    let mut scale: usize = 1;
    if n > 0 && b[n - 1] == 75u8 {
        end = n - 1;
        scale = 1024;
    } else if n > 0 && b[n - 1] == 77u8 {
        end = n - 1;
        scale = 1048576;
    }
    let ghost body = t.subrange(0, end as int);
    let mut start: usize = 0;
    if end > 0 && b[0] == 43u8 {
        start = 1;
    }
    let ghost digits = t.subrange(start as int, end as int);
    proof {
        if n > 0 && (t.last() == 75u8 || t.last() == 77u8) {
            assert(body =~= t.drop_last());
        } else {
            assert(body =~= t);
        }
        if end > 0 && body[0] == 43u8 {
            assert(digits =~= body.drop_first());
        } else {
            assert(digits =~= body);
        }
    }
    if start >= end {
        return None;
    }
    proof {
        assert(parse_cache_size_spec(t) == if is_digits(digits) && 0 < decimal_value(digits) * (scale as int) <= usize::MAX {
            Some((decimal_value(digits) * scale) as usize)
        } else {
            None::<usize>
        });
    }
    let mut acc: usize = 0;
    let mut i: usize = start;
    while i < end
        invariant
            b@ == t,
            t == text.spec_bytes(),
            scale >= 1,
            parse_cache_size_spec(t) == if is_digits(digits) && 0 < decimal_value(digits) * (scale as int) <= usize::MAX {
                Some((decimal_value(digits) * scale) as usize)
            } else {
                None::<usize>
            },
            start < end,
            start <= i <= end <= t.len(),
            digits == t.subrange(start as int, end as int),
            forall|l: int| 0 <= l < i - start ==> 48 <= #[trigger] digits[l] <= 57,
            acc == decimal_value(digits.take(i - start)),
        decreases end - i,
    {
        let c = b[i];
        if c < 48 || c > 57 {
            proof {
                assert(digits[i - start] == c);
            }
            return None;
        }
        let d = (c - 48) as usize;
        proof {
            assert(digits[i - start] == c);
            assert(digits.take(i - start + 1).drop_last() =~= digits.take(i - start));
        }
        if acc > (usize::MAX - d) / 10 {
            proof {
                assert(acc * 10 + d > usize::MAX) by (nonlinear_arith)
                    requires
                        acc > (usize::MAX - d) / 10,
                        d <= 9,
                ;
                if is_digits(digits) {
                    lemma_decimal_prefix(digits, i - start + 1);
                    assert(decimal_value(digits) * (scale as int) >= decimal_value(digits)) by (nonlinear_arith)
                        requires
                            scale >= 1,
                            decimal_value(digits) >= 0,
                    ;
                }
            }
            return None;
        }
        proof {
            assert(acc * 10 + d <= usize::MAX) by (nonlinear_arith)
                requires
                    acc <= (usize::MAX - d) / 10,
                    d <= 9,
            ;
        }
        acc = acc * 10 + d;
        i = i + 1;
    }
    proof {
        assert(digits.take(end - start) =~= digits);
    }
    match acc.checked_mul(scale) {
        Some(v) => {
            if v > 0 {
                Some(v)
            } else {
                None
            }
        },
        None => None,
    }
}

} // verus!
