//! Decimal text: rendering a CPU index as decimal characters and reading
//! decimal digit bytes back as a number.

use vstd::prelude::*;

verus! {

/// The character for one decimal digit value.
pub open spec fn digit_char_spec(d: int) -> char {
    if d == 0 {
        '0'
    } else if d == 1 {
        '1'
    } else if d == 2 {
        '2'
    } else if d == 3 {
        '3'
    } else if d == 4 {
        '4'
    } else if d == 5 {
        '5'
    } else if d == 6 {
        '6'
    } else if d == 7 {
        '7'
    } else if d == 8 {
        '8'
    } else {
        '9'
    }
}

/// The canonical decimal rendering of a non-negative integer: no sign, no
/// leading zeros (except for the number zero itself).
pub open spec fn dec_seq(n: int) -> Seq<char>
    recommends
        n >= 0,
    decreases n,
{
    if n < 10 {
        seq![digit_char_spec(n)]
    } else {
        dec_seq(n / 10).push(digit_char_spec(n % 10))
    }
}

/// Relies on String::push: appends exactly one character at the end.
#[verifier::external_body]
fn push_char(s: &mut String, c: char)
    ensures
        final(s)@ == old(s)@.push(c),
{
    s.push(c);
}

fn digit_char(d: u8) -> (c: char)
    requires
        d < 10,
    ensures
        c == digit_char_spec(d as int),
{
    if d == 0 {
        '0'
    } else if d == 1 {
        '1'
    } else if d == 2 {
        '2'
    } else if d == 3 {
        '3'
    } else if d == 4 {
        '4'
    } else if d == 5 {
        '5'
    } else if d == 6 {
        '6'
    } else if d == 7 {
        '7'
    } else if d == 8 {
        '8'
    } else {
        '9'
    }
}

/// Appends the decimal rendering of `n` to `s`.
pub fn push_dec(s: &mut String, n: usize)
    ensures
        final(s)@ == old(s)@ + dec_seq(n as int),
    decreases n,
{
    if n >= 10 {
        push_dec(s, n / 10);
        let d = digit_char((n % 10) as u8);
        push_char(s, d);
        proof {
            assert(old(s)@ + dec_seq(n as int) =~= (old(s)@ + dec_seq(n as int / 10)).push(
                digit_char_spec(n as int % 10),
            ));
        }
    } else {
        let d = digit_char((n % 10) as u8);
        push_char(s, d);
        proof {
            assert(old(s)@ + dec_seq(n as int) =~= old(s)@.push(digit_char_spec(n as int)));
        }
    }
}

/// The decimal rendering of `n` as a fresh string.
pub fn usize_to_string(n: usize) -> (s: String)
    ensures
        s@ == dec_seq(n as int),
{
    let mut s = String::new();
    push_dec(&mut s, n);
    proof {
        assert(Seq::<char>::empty() + dec_seq(n as int) =~= dec_seq(n as int));
    }
    s
}

/// Whether a byte is an ASCII decimal digit.
pub open spec fn is_digit_byte(b: u8) -> bool {
    48 <= b <= 57
}

/// Whether every byte of a token is an ASCII decimal digit.
pub open spec fn all_digits(s: Seq<u8>) -> bool {
    forall|i: int| 0 <= i < s.len() ==> is_digit_byte(s[i])
}

/// The value of a sequence of decimal digit bytes, most significant first.
pub open spec fn digits_val(s: Seq<u8>) -> int
    decreases s.len(),
{
    if s.len() == 0 {
        0
    } else {
        digits_val(s.drop_last()) * 10 + (s.last() - 48)
    }
}

pub proof fn lemma_digits_val_nonneg(s: Seq<u8>)
    requires
        all_digits(s),
    ensures
        digits_val(s) >= 0,
    decreases s.len(),
{
    if s.len() > 0 {
        assert(all_digits(s.drop_last())) by {
            assert(forall|i: int|
                0 <= i < s.len() - 1 ==> s.drop_last()[i] == s[i] && is_digit_byte(s[i]));
        }
        lemma_digits_val_nonneg(s.drop_last());
    }
}

/// Appending further digits never makes the value smaller.
pub proof fn lemma_digits_val_prefix_le(s: Seq<u8>, j: int)
    requires
        all_digits(s),
        0 <= j <= s.len(),
    ensures
        digits_val(s.subrange(0, j)) <= digits_val(s),
    decreases s.len() - j,
{
    if j < s.len() {
        lemma_digits_val_prefix_le(s, j + 1);
        let p = s.subrange(0, j);
        let q = s.subrange(0, j + 1);
        assert(q.drop_last() =~= p);
        assert(all_digits(p)) by {
            assert(forall|i: int| 0 <= i < j ==> p[i] == s[i] && is_digit_byte(s[i]));
        }
        lemma_digits_val_nonneg(p);
        assert(digits_val(q) == digits_val(p) * 10 + (q.last() - 48));
        assert(digits_val(p) * 10 >= digits_val(p)) by (nonlinear_arith)
            requires
                digits_val(p) >= 0,
        ;
    } else {
        assert(s.subrange(0, j) =~= s);
    }
}

/// Reads the decimal token `s[start..end]` as a `usize`.
///
/// Returns the value exactly when the token is non-empty, all digits, and its
/// value fits; otherwise returns nothing.
pub fn parse_usize_token(s: &[u8], start: usize, end: usize) -> (r: Option<usize>)
    requires
        start <= end <= s@.len(),
    ensures
        ({
            let t = s@.subrange(start as int, end as int);
            match r {
                Some(v) => t.len() > 0 && all_digits(t) && digits_val(t) == v as int,
                None => !(t.len() > 0 && all_digits(t) && digits_val(t) <= usize::MAX),
            }
        }),
{
    let ghost t = s@.subrange(start as int, end as int);
    if start == end {
        return None;
    }
    let mut acc: usize = 0;
    let mut i: usize = start;
    while i < end
        invariant
            start <= i <= end <= s@.len(),
            t == s@.subrange(start as int, end as int),
            all_digits(t.subrange(0, i - start)),
            acc as int == digits_val(t.subrange(0, i - start)),
        decreases end - i,
    {
        let b = s[i];
        if b < 48 || b > 57 {
            proof {
                assert(t[i - start] == b);
                assert(!is_digit_byte(t[i - start]));
            }
            return None;
        }
        let d = (b - 48) as usize;
        proof {
            let p = t.subrange(0, i - start);
            let q = t.subrange(0, i + 1 - start);
            assert(q.drop_last() =~= p);
            assert(q.last() == b);
            assert(digits_val(q) == acc as int * 10 + d);
            assert(all_digits(q)) by {
                assert(forall|k: int|
                    0 <= k < q.len() - 1 ==> q[k] == p[k] && is_digit_byte(p[k]));
            }
        }
        if acc > (usize::MAX - d) / 10 {
            proof {
                let q = t.subrange(0, i + 1 - start);
                assert(acc as int * 10 + d > usize::MAX) by (nonlinear_arith)
                    requires
                        acc as int > (usize::MAX as int - d) / 10,
                        0 <= d <= 9,
                ;
                assert(digits_val(q) > usize::MAX);
                if all_digits(t) && digits_val(t) <= usize::MAX {
                    lemma_digits_val_prefix_le(t, i + 1 - start);
                    assert(false);
                }
            }
            return None;
        }
        proof {
            assert(acc as int * 10 + d <= usize::MAX) by (nonlinear_arith)
                requires
                    acc as int <= (usize::MAX as int - d) / 10,
                    0 <= d <= 9,
                    acc as int >= 0,
            ;
        }
        acc = acc * 10 + d;
        i = i + 1;
    }
    proof {
        assert(t.subrange(0, end - start) =~= t);
    }
    Some(acc)
}

} // verus!
