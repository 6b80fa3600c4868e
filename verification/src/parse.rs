//! The CPU-list grammar: a comma-separated list of elements, each a single
//! decimal index or an inclusive range `first-last`, with ASCII whitespace
//! around each `-`-delimited token ignored.

use vstd::prelude::*;
use crate::cpulist::CpuList;
use crate::cpulist::interval;
use crate::errors::ChCpuError;
use crate::textnum::all_digits;
use crate::textnum::digits_val;
use crate::textnum::parse_usize_token;

verus! {

/// ASCII whitespace, as trimmed around tokens.
pub open spec fn is_ws(b: u8) -> bool {
    b == 32 || b == 9 || b == 10 || b == 12 || b == 13
}

/// The position of the first occurrence of `c`, or the length if absent.
pub open spec fn first_occ(s: Seq<u8>, c: u8) -> int
    decreases s.len(),
{
    if s.len() == 0 {
        0
    } else if s[0] == c {
        0
    } else {
        1 + first_occ(s.drop_first(), c)
    }
}

pub proof fn lemma_first_occ_bounds(s: Seq<u8>, c: u8)
    ensures
        0 <= first_occ(s, c) <= s.len(),
        first_occ(s, c) < s.len() ==> s[first_occ(s, c)] == c,
        forall|i: int| 0 <= i < first_occ(s, c) ==> s[i] != c,
    decreases s.len(),
{
    if s.len() > 0 && s[0] != c {
        lemma_first_occ_bounds(s.drop_first(), c);
        assert forall|i: int| 0 <= i < first_occ(s, c) implies s[i] != c by {
            if i > 0 {
                assert(s.drop_first()[i - 1] == s[i]);
            }
        }
    }
}

/// A scan that stops at the first hit computes `first_occ`.
pub proof fn lemma_first_occ_is(s: Seq<u8>, c: u8, k: int)
    requires
        0 <= k <= s.len(),
        forall|i: int| 0 <= i < k ==> s[i] != c,
        k == s.len() || s[k] == c,
    ensures
        first_occ(s, c) == k,
    decreases s.len(),
{
    if s.len() > 0 && k > 0 {
        let t = s.drop_first();
        assert(forall|i: int| 0 <= i < t.len() ==> t[i] == s[i + 1]);
        lemma_first_occ_is(t, c, k - 1);
    }
}

/// The sequence with its leading whitespace dropped.
pub open spec fn trim_start(s: Seq<u8>) -> Seq<u8>
    decreases s.len(),
{
    if s.len() > 0 && is_ws(s[0]) {
        trim_start(s.drop_first())
    } else {
        s
    }
}

/// The sequence with its trailing whitespace dropped.
pub open spec fn trim_end(s: Seq<u8>) -> Seq<u8>
    decreases s.len(),
{
    if s.len() > 0 && is_ws(s.last()) {
        trim_end(s.drop_last())
    } else {
        s
    }
}

/// The sequence with whitespace dropped on both sides.
pub open spec fn trimmed(s: Seq<u8>) -> Seq<u8> {
    trim_end(trim_start(s))
}

proof fn lemma_trim_start_is(s: Seq<u8>, k: int)
    requires
        0 <= k <= s.len(),
        forall|i: int| 0 <= i < k ==> is_ws(s[i]),
        k == s.len() || !is_ws(s[k]),
    ensures
        trim_start(s) == s.subrange(k, s.len() as int),
    decreases s.len(),
{
    if k == 0 {
        assert(s.subrange(0, s.len() as int) =~= s);
    } else {
        let t = s.drop_first();
        assert(forall|i: int| 0 <= i < t.len() ==> t[i] == s[i + 1]);
        lemma_trim_start_is(t, k - 1);
        assert(t.subrange(k - 1, t.len() as int) =~= s.subrange(k, s.len() as int));
    }
}

proof fn lemma_trim_end_is(s: Seq<u8>, k: int)
    requires
        0 <= k <= s.len(),
        forall|i: int| k <= i < s.len() ==> is_ws(s[i]),
        k == 0 || !is_ws(s[k - 1]),
    ensures
        trim_end(s) == s.subrange(0, k),
    decreases s.len(),
{
    if k == s.len() {
        assert(s.subrange(0, s.len() as int) =~= s);
    } else {
        let t = s.drop_last();
        assert(forall|i: int| 0 <= i < t.len() ==> t[i] == s[i]);
        lemma_trim_end_is(t, k);
        assert(t.subrange(0, k) =~= s.subrange(0, k));
    }
}

/// One decimal token: its value, if it is non-empty, all digits, and fits.
pub open spec fn token_spec(t: Seq<u8>) -> Option<int> {
    if t.len() > 0 && all_digits(t) && digits_val(t) <= usize::MAX {
        Some(digits_val(t))
    } else {
        None
    }
}

/// One list element. An empty element is the empty-list error; a lone token
/// names one index; two tokens around the first `-` name an inclusive range,
/// rejected when the first index is after the last.
pub open spec fn elem_spec(e: Seq<u8>) -> Result<(int, int), ChCpuError> {
    if e.len() == 0 {
        Err(ChCpuError::EmptyCpuList)
    } else {
        let d = first_occ(e, 45);
        if d == e.len() {
            match token_spec(trimmed(e)) {
                None => Err(ChCpuError::CpuSpecNotPositiveInteger),
                Some(v) => Ok((v, v)),
            }
        } else {
            match token_spec(trimmed(e.subrange(0, d))) {
                None => Err(ChCpuError::CpuSpecNotPositiveInteger),
                Some(a) => match token_spec(trimmed(e.subrange(d + 1, e.len() as int))) {
                    None => Err(ChCpuError::CpuSpecNotPositiveInteger),
                    Some(b) => if a <= b {
                        Ok((a, b))
                    } else {
                        Err(ChCpuError::CpuSpecFirstAfterLast)
                    },
                },
            }
        }
    }
}

/// The whole list: elements split on commas, left to right, the first failing
/// element deciding the error, the indices of all elements united otherwise.
pub open spec fn list_spec(s: Seq<u8>) -> Result<Set<int>, ChCpuError>
    decreases s.len(),
{
    let c = {
        proof {
            lemma_first_occ_bounds(s, 44);
        }
        first_occ(s, 44)
    };
    match elem_spec(s.subrange(0, c)) {
        Err(err) => Err(err),
        Ok(ab) => if c == s.len() {
            Ok(interval(ab.0, ab.1))
        } else {
            match list_spec(s.subrange(c + 1, s.len() as int)) {
                Err(err) => Err(err),
                Ok(rest) => Ok(interval(ab.0, ab.1).union(rest)),
            }
        },
    }
}

fn is_ws_byte(b: u8) -> (r: bool)
    ensures
        r == is_ws(b),
{
    b == 32 || b == 9 || b == 10 || b == 12 || b == 13
}

/// The bounds of `s[start..end]` with whitespace dropped on both sides.
fn trim_bounds(s: &[u8], start: usize, end: usize) -> (r: (usize, usize))
    requires
        start <= end <= s@.len(),
    ensures
        start <= r.0 <= r.1 <= end,
        s@.subrange(r.0 as int, r.1 as int) == trimmed(s@.subrange(start as int, end as int)),
{
    let ghost e = s@.subrange(start as int, end as int);
    let mut ts = start;
    while ts < end && is_ws_byte(s[ts])
        invariant
            start <= ts <= end <= s@.len(),
            e == s@.subrange(start as int, end as int),
            forall|i: int| start <= i < ts ==> is_ws(s@[i]),
        decreases end - ts,
    {
        ts = ts + 1;
    }
    proof {
        assert(forall|i: int| 0 <= i < ts - start ==> e[i] == s@[i + start] && is_ws(e[i]));
        lemma_trim_start_is(e, ts - start);
        assert(trim_start(e) =~= s@.subrange(ts as int, end as int));
    }
    let ghost t1 = s@.subrange(ts as int, end as int);
    let mut te = end;
    while te > ts && is_ws_byte(s[te - 1])
        invariant
            ts <= te <= end <= s@.len(),
            t1 == s@.subrange(ts as int, end as int),
            forall|i: int| te <= i < end ==> is_ws(s@[i]),
        decreases te,
    {
        te = te - 1;
    }
    proof {
        assert(forall|i: int| 0 <= i < t1.len() ==> t1[i] == s@[i + ts]);
        lemma_trim_end_is(t1, te - ts);
        assert(trim_end(t1) =~= s@.subrange(te as int, te as int) + s@.subrange(
            ts as int,
            te as int,
        ).subrange(0, te - ts));
        assert(t1.subrange(0, te - ts) =~= s@.subrange(ts as int, te as int));
    }
    (ts, te)
}

/// One element `s[start..end]`, parsed as `elem_spec` states.
fn parse_element(s: &[u8], start: usize, end: usize) -> (r: Result<(usize, usize), ChCpuError>)
    requires
        start <= end <= s@.len(),
    ensures
        ({
            let e = s@.subrange(start as int, end as int);
            match r {
                Ok(ab) => ab.0 <= ab.1 && elem_spec(e) == Ok::<(int, int), ChCpuError>(
                    (ab.0 as int, ab.1 as int),
                ),
                Err(err) => elem_spec(e) matches Err(err2) && err == err2,
            }
        }),
{
    let ghost e = s@.subrange(start as int, end as int);
    if start == end {
        return Err(ChCpuError::EmptyCpuList);
    }
    let mut j = start;
    while j < end && s[j] != 45
        invariant
            start <= j <= end <= s@.len(),
            forall|i: int| start <= i < j ==> s@[i] != 45,
        decreases end - j,
    {
        j = j + 1;
    }
    proof {
        assert(forall|i: int| 0 <= i < e.len() ==> e[i] == s@[i + start]);
        lemma_first_occ_is(e, 45, j - start);
    }
    if j == end {
        let (ts, te) = trim_bounds(s, start, end);
        match parse_usize_token(s, ts, te) {
            None => Err(ChCpuError::CpuSpecNotPositiveInteger),
            Some(v) => Ok((v, v)),
        }
    } else {
        proof {
            assert(e.subrange(0, j - start) =~= s@.subrange(start as int, j as int));
            assert(e.subrange(j - start + 1, e.len() as int) =~= s@.subrange(
                j + 1,
                end as int,
            ));
        }
        let (ts1, te1) = trim_bounds(s, start, j);
        let (ts2, te2) = trim_bounds(s, j + 1, end);
        match parse_usize_token(s, ts1, te1) {
            None => Err(ChCpuError::CpuSpecNotPositiveInteger),
            Some(a) => match parse_usize_token(s, ts2, te2) {
                None => Err(ChCpuError::CpuSpecNotPositiveInteger),
                Some(b) => if a <= b {
                    Ok((a, b))
                } else {
                    Err(ChCpuError::CpuSpecFirstAfterLast)
                },
            },
        }
    }
}

/// Whether every byte is plain ASCII.
pub open spec fn all_ascii(b: Seq<u8>) -> bool {
    forall|i: int| 0 <= i < b.len() ==> b[i] < 128
}

/// The characters ASCII bytes stand for, one each.
pub open spec fn ascii_view(b: Seq<u8>) -> Seq<char> {
    Seq::new(b.len(), |i: int| b[i] as char)
}

/// Relies on String::from_utf8_lossy: bytes that are all ASCII decode to
/// exactly those characters.
#[verifier::external_body]
fn bytes_to_string_lossy(b: &[u8], start: usize, end: usize) -> (r: String)
    requires
        start <= end <= b@.len(),
    ensures
        all_ascii(b@.subrange(start as int, end as int)) ==> r@ == ascii_view(
            b@.subrange(start as int, end as int),
        ),
{
    String::from_utf8_lossy(&b[start..end]).into_owned()
}

/// The value of a scalar attribute line: trimmed, an optional sign, then
/// decimal digits, within the 32-bit signed range.
pub open spec fn attr_i32_spec(b: Seq<u8>) -> Option<int> {
    let t = trimmed(b);
    if t.len() == 0 {
        None
    } else if t[0] == 43 || t[0] == 45 {
        let d = t.subrange(1, t.len() as int);
        if d.len() > 0 && all_digits(d) {
            let v = if t[0] == 45 {
                -digits_val(d)
            } else {
                digits_val(d)
            };
            if i32::MIN <= v <= i32::MAX {
                Some(v)
            } else {
                None
            }
        } else {
            None
        }
    } else if all_digits(t) && digits_val(t) <= i32::MAX {
        Some(digits_val(t))
    } else {
        None
    }
}

/// Reads a scalar attribute line as a signed value, as `attr_i32_spec`
/// states; any other content is the not-an-integer error carrying the
/// trimmed text.
pub fn parse_attr_i32(line: &[u8]) -> (r: Result<i32, ChCpuError>)
    ensures
        match r {
            Ok(v) => attr_i32_spec(line@) == Some(v as int),
            Err(e) => attr_i32_spec(line@) is None && (e matches ChCpuError::NotInteger(d) && (
            all_ascii(trimmed(line@)) ==> d@ == ascii_view(trimmed(line@)))),
        },
{
    let n = line.len();
    let (ts, te) = trim_bounds(line, 0, n);
    let ghost t = trimmed(line@);
    proof {
        assert(line@.subrange(0, n as int) =~= line@);
        assert(line@.subrange(ts as int, te as int) == t);
    }
    if ts == te {
        return Err(ChCpuError::NotInteger(bytes_to_string_lossy(line, ts, te)));
    }
    let first = line[ts];
    let negative = first == 45;
    let ds = if first == 43 || first == 45 {
        ts + 1
    } else {
        ts
    };
    proof {
        if ds > ts {
            assert(t.subrange(1, t.len() as int) =~= line@.subrange(ds as int, te as int));
        }
    }
    match parse_usize_token(line, ds, te) {
        None => Err(ChCpuError::NotInteger(bytes_to_string_lossy(line, ts, te))),
        Some(mag) => {
            if negative {
                if mag <= 2147483647 {
                    Ok(-(mag as i32))
                } else if mag == 2147483648 {
                    Ok(i32::MIN)
                } else {
                    Err(ChCpuError::NotInteger(bytes_to_string_lossy(line, ts, te)))
                }
            } else {
                if mag <= 2147483647 {
                    Ok(mag as i32)
                } else {
                    Err(ChCpuError::NotInteger(bytes_to_string_lossy(line, ts, te)))
                }
            }
        },
    }
}

/// Parses a CPU-list expression into its normalized range set.
///
/// Exactly the inputs `list_spec` accepts come back as a non-empty,
/// well-formed list covering the indices the expression names; every other
/// input comes back as the error `list_spec` assigns to it.
pub fn parse_cpu_list(s: &[u8]) -> (r: Result<CpuList, ChCpuError>)
    ensures
        match r {
            Ok(list) => list.wf() && list@.len() >= 1 && (list_spec(s@) matches Ok(c)
                && list.cov() == c),
            Err(e) => list_spec(s@) matches Err(e2) && e == e2,
        },
{
    let n = s.len();
    let mut list = CpuList::new();
    let mut pos: usize = 0;
    proof {
        assert(s@.subrange(0, n as int) =~= s@);
        match list_spec(s@) {
            Ok(c) => {
                assert(list.cov().union(c) =~= c);
            },
            Err(_) => {},
        }
    }
    loop
        invariant
            pos <= n,
            n == s@.len(),
            list.wf(),
            match list_spec(s@.subrange(pos as int, n as int)) {
                Ok(c) => list_spec(s@) matches Ok(whole) && whole =~= list.cov().union(c),
                Err(e) => list_spec(s@) == Err::<Set<int>, ChCpuError>(e),
            },
        decreases n - pos,
    {
        let ghost rem = s@.subrange(pos as int, n as int);
        let mut j = pos;
        while j < n && s[j] != 44
            invariant
                pos <= j <= n,
                n == s@.len(),
                forall|i: int| pos <= i < j ==> s@[i] != 44,
            decreases n - j,
        {
            j = j + 1;
        }
        proof {
            assert(forall|i: int| 0 <= i < rem.len() ==> rem[i] == s@[i + pos]);
            lemma_first_occ_is(rem, 44, j - pos);
            assert(rem.subrange(0, j - pos) =~= s@.subrange(pos as int, j as int));
        }
        match parse_element(s, pos, j) {
            Err(err) => {
                return Err(err);
            },
            Ok((a, b)) => {
                let ghost acc0 = list.cov();
                list.insert_range(a, b);
                if j == n {
                    proof {
                        assert(list_spec(rem) == Ok::<Set<int>, ChCpuError>(
                            interval(a as int, b as int),
                        ));
                        assert(list.cov() =~= acc0.union(interval(a as int, b as int)));
                    }
                    return Ok(list);
                }
                proof {
                    let rem2 = s@.subrange(j + 1, n as int);
                    assert(rem.subrange(j - pos + 1, rem.len() as int) =~= rem2);
                    match list_spec(rem2) {
                        Ok(c2) => {
                            assert(list_spec(rem) == Ok::<Set<int>, ChCpuError>(
                                interval(a as int, b as int).union(c2),
                            ));
                            assert(acc0.union(interval(a as int, b as int).union(c2))
                                =~= list.cov().union(c2));
                        },
                        Err(e2) => {
                            assert(list_spec(rem) == Err::<Set<int>, ChCpuError>(e2));
                        },
                    }
                }
                pos = j + 1;
            },
        }
    }
}

} // verus!
