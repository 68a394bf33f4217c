//! A text encoding for conformance reports, so a report can be cached as a
//! string and read back without loss.
//!
//! The format is length-prefixed: a number is written in decimal; a string is
//! its character count, a colon, then its characters; a result is its
//! repository's organization and name, a `y`/`n` conformance flag, and either
//! `-` (no reason) or `s` followed by the reason string; a report is its
//! timestamp, a newline, the result count, a newline, then the results.
//! Parsing a serialized report reproduces it exactly (`lemma_report_round_trip`).

use vstd::prelude::*;

use crate::checker::ConformanceReport;
use crate::checker::ConformanceResult;
use crate::checker::RepoRefModel;
use crate::checker::ReportModel;
use crate::checker::RepositoryRef;
use crate::checker::ResultModel;

verus! {

// ---------------------------------------------------------------------------
// Trusted conversions between strings and character vectors.
// ---------------------------------------------------------------------------
/// Relies on str::chars: it yields exactly the string's characters, in order.
#[verifier::external_body]
fn string_to_chars(s: &str) -> (r: Vec<char>)
    ensures
        r@ == s@,
{
    s.chars().collect()
}

/// Relies on String's FromIterator over char: the collected string holds
/// exactly the given characters, in order.
#[verifier::external_body]
fn chars_to_string(v: &Vec<char>) -> (r: String)
    ensures
        r@ == v@,
{
    v.iter().collect()
}

// ---------------------------------------------------------------------------
// Decimal numbers.
// ---------------------------------------------------------------------------
pub open spec fn is_digit(c: char) -> bool {
    c == '0' || c == '1' || c == '2' || c == '3' || c == '4' || c == '5' || c == '6' || c == '7'
        || c == '8' || c == '9'
}

pub open spec fn digit_char(d: nat) -> char {
    if d == 0 {
        '0'
    } else if d == 1 {
        '1'
    } else if d == 2 {
        '2'
    } else if d == 3 {
        '3'
    } else if d == 4 {
        '4'
    } else if d == 5 {
        '5'
    } else if d == 6 {
        '6'
    } else if d == 7 {
        '7'
    } else if d == 8 {
        '8'
    } else {
        '9'
    }
}

pub open spec fn digit_val(c: char) -> nat {
    if c == '0' {
        0
    } else if c == '1' {
        1
    } else if c == '2' {
        2
    } else if c == '3' {
        3
    } else if c == '4' {
        4
    } else if c == '5' {
        5
    } else if c == '6' {
        6
    } else if c == '7' {
        7
    } else if c == '8' {
        8
    } else {
        9
    }
}

/// The decimal digits of `n`, most significant first, no leading zeros
/// (except for `n == 0` itself).
pub open spec fn dec_digits(n: nat) -> Seq<char>
    decreases n,
{
    if n < 10 {
        seq![digit_char(n)]
    } else {
        dec_digits(n / 10).push(digit_char(n % 10))
    }
}

/// The value of a sequence of decimal digits, most significant first.
pub open spec fn digits_val(s: Seq<char>) -> nat
    decreases s.len(),
{
    if s.len() == 0 {
        0
    } else {
        digits_val(s.drop_last()) * 10 + digit_val(s.last())
    }
}

// ---------------------------------------------------------------------------
// Serialization, at the specification level.
// ---------------------------------------------------------------------------
pub open spec fn ser_string(t: Seq<char>) -> Seq<char> {
    dec_digits(t.len()) + seq![':'] + t
}

pub open spec fn ser_reason(r: Option<Seq<char>>) -> Seq<char> {
    match r {
        None => seq!['-'],
        Some(t) => seq!['s'] + ser_string(t),
    }
}

pub open spec fn ser_result(m: ResultModel) -> Seq<char> {
    ser_string(m.repository.organization) + ser_string(m.repository.name) + seq![
        if m.conforms {
            'y'
        } else {
            'n'
        },
    ] + ser_reason(m.reason)
}

pub open spec fn ser_results(s: Seq<ResultModel>) -> Seq<char>
    decreases s.len(),
{
    if s.len() == 0 {
        Seq::empty()
    } else {
        ser_results(s.drop_last()) + ser_result(s.last())
    }
}

pub open spec fn ser_report(m: ReportModel) -> Seq<char> {
    dec_digits(m.generated_at as nat) + seq!['\n'] + dec_digits(m.results.len()) + seq!['\n']
        + ser_results(m.results)
}

// ---------------------------------------------------------------------------
// Parsing, at the specification level. Each parser returns the parsed value
// and the unconsumed remainder, or nothing when the input does not start with
// a well-formed item (or an item too large for the machine).
// ---------------------------------------------------------------------------
/// Splits off the maximal leading run of decimal digits.
pub open spec fn take_digits(s: Seq<char>) -> (Seq<char>, Seq<char>)
    decreases s.len(),
{
    if s.len() == 0 || !is_digit(s[0]) {
        (Seq::empty(), s)
    } else {
        let (d, r) = take_digits(s.drop_first());
        (seq![s[0]] + d, r)
    }
}

pub open spec fn sp_u64(s: Seq<char>) -> Option<(nat, Seq<char>)> {
    let (d, r) = take_digits(s);
    if d.len() == 0 || digits_val(d) > u64::MAX {
        None
    } else {
        Some((digits_val(d), r))
    }
}

pub open spec fn sp_string(s: Seq<char>) -> Option<(Seq<char>, Seq<char>)> {
    match sp_u64(s) {
        None => None,
        Some((n, r)) => if n <= usize::MAX && n + 1 <= r.len() && r[0] == ':' {
            Some((r.subrange(1, n as int + 1), r.skip(n as int + 1)))
        } else {
            None
        },
    }
}

pub open spec fn sp_flag(s: Seq<char>) -> Option<(bool, Seq<char>)> {
    if s.len() >= 1 && s[0] == 'y' {
        Some((true, s.drop_first()))
    } else if s.len() >= 1 && s[0] == 'n' {
        Some((false, s.drop_first()))
    } else {
        None
    }
}

pub open spec fn sp_reason(s: Seq<char>) -> Option<(Option<Seq<char>>, Seq<char>)> {
    if s.len() >= 1 && s[0] == '-' {
        Some((None, s.drop_first()))
    } else if s.len() >= 1 && s[0] == 's' {
        match sp_string(s.drop_first()) {
            None => None,
            Some((t, r)) => Some((Some(t), r)),
        }
    } else {
        None
    }
}

pub open spec fn sp_result(s: Seq<char>) -> Option<(ResultModel, Seq<char>)> {
    match sp_string(s) {
        None => None,
        Some((org, r1)) => match sp_string(r1) {
            None => None,
            Some((name, r2)) => match sp_flag(r2) {
                None => None,
                Some((conforms, r3)) => match sp_reason(r3) {
                    None => None,
                    Some((reason, r4)) => Some(
                        (
                            ResultModel {
                                repository: RepoRefModel { organization: org, name: name },
                                conforms: conforms,
                                reason: reason,
                            },
                            r4,
                        ),
                    ),
                },
            },
        },
    }
}

pub open spec fn sp_results(s: Seq<char>, count: nat) -> Option<(Seq<ResultModel>, Seq<char>)>
    decreases count,
{
    if count == 0 {
        Some((Seq::empty(), s))
    } else {
        match sp_result(s) {
            None => None,
            Some((m, r)) => match sp_results(r, (count - 1) as nat) {
                None => None,
                Some((ms, r2)) => Some((seq![m] + ms, r2)),
            },
        }
    }
}

pub open spec fn sp_report(s: Seq<char>) -> Option<ReportModel> {
    match sp_u64(s) {
        None => None,
        Some((gen, r1)) => if r1.len() >= 1 && r1[0] == '\n' {
            match sp_u64(r1.drop_first()) {
                None => None,
                Some((count, r2)) => if count <= usize::MAX && r2.len() >= 1 && r2[0] == '\n' {
                    match sp_results(r2.drop_first(), count) {
                        None => None,
                        Some((ms, r3)) => if r3.len() == 0 {
                            Some(ReportModel { results: ms, generated_at: gen as u64 })
                        } else {
                            None
                        },
                    }
                } else {
                    None
                },
            }
        } else {
            None
        },
    }
}

// ---------------------------------------------------------------------------
// Executable serialization.
// ---------------------------------------------------------------------------
fn digit_to_char(d: u64) -> (c: char)
    requires
        d < 10,
    ensures
        c == digit_char(d as nat),
{
    if d == 0 {
        '0'
    } else if d == 1 {
        '1'
    } else if d == 2 {
        '2'
    } else if d == 3 {
        '3'
    } else if d == 4 {
        '4'
    } else if d == 5 {
        '5'
    } else if d == 6 {
        '6'
    } else if d == 7 {
        '7'
    } else if d == 8 {
        '8'
    } else {
        '9'
    }
}

fn push_u64(out: &mut Vec<char>, n: u64)
    ensures
        final(out)@ == old(out)@ + dec_digits(n as nat),
    decreases n,
{
    if n >= 10 {
        push_u64(out, n / 10);
        out.push(digit_to_char(n % 10));
        proof {
            assert(out@ =~= old(out)@ + dec_digits(n as nat));
        }
    } else {
        out.push(digit_to_char(n));
        proof {
            assert(out@ =~= old(out)@ + dec_digits(n as nat));
        }
    }
}

fn push_string(out: &mut Vec<char>, t: &str)
    ensures
        final(out)@ == old(out)@ + ser_string(t@),
{
    let cs = string_to_chars(t);
    push_u64(out, cs.len() as u64);
    out.push(':');
    out.extend_from_slice(cs.as_slice());
    proof {
        assert(out@ =~= old(out)@ + ser_string(t@));
    }
}

fn push_result(out: &mut Vec<char>, r: &ConformanceResult)
    ensures
        final(out)@ == old(out)@ + ser_result(r@),
{
    push_string(out, r.repository.organization.as_str());
    push_string(out, r.repository.name.as_str());
    if r.conforms {
        out.push('y');
    } else {
        out.push('n');
    }
    match &r.reason {
        None => {
            out.push('-');
        },
        Some(t) => {
            out.push('s');
            push_string(out, t.as_str());
        },
    }
    proof {
        assert(out@ =~= old(out)@ + ser_result(r@));
    }
}

/// Writes the report in the codec's text format; `parse_report` reads it
/// back exactly.
pub fn serialize_report(r: &ConformanceReport) -> (out: String)
    ensures
        out@ == ser_report(r@),
{
    let mut buf: Vec<char> = Vec::new();
    push_u64(&mut buf, r.generated_at);
    buf.push('\n');
    push_u64(&mut buf, r.results.len() as u64);
    buf.push('\n');
    let ghost header = buf@;
    let n = r.results.len();
    for i in 0..n
        invariant
            n == r.results@.len(),
            buf@ == header + ser_results(r@.results.take(i as int)),
    {
        push_result(&mut buf, &r.results[i]);
        proof {
            assert(r@.results.take(i + 1).drop_last() =~= r@.results.take(i as int));
            assert(r@.results.take(i + 1).last() == r@.results[i as int]);
            assert(buf@ =~= header + ser_results(r@.results.take(i + 1)));
        }
    }
    proof {
        assert(r@.results.take(n as int) =~= r@.results);
        assert(buf@ =~= ser_report(r@));
    }
    chars_to_string(&buf)
}

// ---------------------------------------------------------------------------
// Executable parsing.
// ---------------------------------------------------------------------------
fn is_digit_char(c: char) -> (r: bool)
    ensures
        r == is_digit(c),
{
    c == '0' || c == '1' || c == '2' || c == '3' || c == '4' || c == '5' || c == '6' || c == '7'
        || c == '8' || c == '9'
}

fn digit_value(c: char) -> (r: u64)
    requires
        is_digit(c),
    ensures
        r == digit_val(c),
        r < 10,
{
    if c == '0' {
        0
    } else if c == '1' {
        1
    } else if c == '2' {
        2
    } else if c == '3' {
        3
    } else if c == '4' {
        4
    } else if c == '5' {
        5
    } else if c == '6' {
        6
    } else if c == '7' {
        7
    } else if c == '8' {
        8
    } else {
        9
    }
}

proof fn lemma_take_digits_split(t: Seq<char>, k: int)
    requires
        0 <= k <= t.len(),
        forall|j: int| 0 <= j < k ==> is_digit(t[j]),
        k == t.len() || !is_digit(t[k]),
    ensures
        take_digits(t).0 == t.take(k),
        take_digits(t).1 == t.skip(k),
    decreases k,
{
    if k == 0 {
        assert(t.take(0) =~= Seq::<char>::empty());
        assert(t.skip(0) =~= t);
    } else {
        lemma_take_digits_split(t.drop_first(), k - 1);
        assert(t.drop_first().take(k - 1) =~= t.take(k).drop_first());
        assert(seq![t[0]] + t.take(k).drop_first() =~= t.take(k));
        assert(t.drop_first().skip(k - 1) =~= t.skip(k));
    }
}

proof fn lemma_digits_val_take_step(d: Seq<char>, k: int)
    requires
        0 <= k < d.len(),
    ensures
        digits_val(d.take(k + 1)) == digits_val(d.take(k)) * 10 + digit_val(d[k]),
{
    assert(d.take(k + 1).drop_last() =~= d.take(k));
    assert(d.take(k + 1).last() == d[k]);
}

proof fn lemma_digits_val_mono(d: Seq<char>, p: int, q: int)
    requires
        0 <= p <= q <= d.len(),
    ensures
        digits_val(d.take(p)) <= digits_val(d.take(q)),
    decreases q - p,
{
    if p < q {
        lemma_digits_val_mono(d, p, q - 1);
        lemma_digits_val_take_step(d, q - 1);
    }
}

#[verifier::loop_isolation(false)]
fn parse_u64(s: &Vec<char>, from: usize) -> (r: Option<(u64, usize)>)
    requires
        from <= s@.len(),
    ensures
        match r {
            Some(v) => from <= v.1 <= s@.len() && sp_u64(s@.skip(from as int)) == Some(
                (v.0 as nat, s@.skip(v.1 as int)),
            ),
            None => sp_u64(s@.skip(from as int)) is None,
        },
{
    let len = s.len();
    let mut end = from;
    while end < len && is_digit_char(s[end])
        invariant
            from <= end <= len,
            forall|j: int| from <= j < end ==> is_digit(s@[j]),
        decreases len - end,
    {
        end += 1;
    }
    let ghost t = s@.skip(from as int);
    proof {
        lemma_take_digits_split(t, end - from);
    }
    if end == from {
        return None;
    }
    let ghost d = t.take(end - from);
    let mut acc: u64 = 0;
    let mut k = from;
    while k < end
        invariant
            from <= k <= end <= s@.len(),
            t == s@.skip(from as int),
            d == t.take(end - from),
            forall|j: int| from <= j < end ==> is_digit(s@[j]),
            acc == digits_val(d.take(k - from)),
        decreases end - k,
    {
        let dv = digit_value(s[k]);
        proof {
            assert(d[k - from] == s@[k as int]);
            lemma_digits_val_take_step(d, k - from);
        }
        let scaled = match acc.checked_mul(10) {
            Some(x) => x.checked_add(dv),
            None => None,
        };
        match scaled {
            None => {
                proof {
                    lemma_digits_val_mono(d, k - from + 1, d.len() as int);
                    assert(d.take(d.len() as int) =~= d);
                }
                return None;
            },
            Some(v) => {
                acc = v;
                k += 1;
            },
        }
    }
    proof {
        assert(d.take(end - from) =~= d);
        assert(t.skip(end - from) =~= s@.skip(end as int));
    }
    Some((acc, end))
}

#[verifier::loop_isolation(false)]
fn parse_string(s: &Vec<char>, from: usize) -> (r: Option<(String, usize)>)
    requires
        from <= s@.len(),
    ensures
        match r {
            Some(v) => from <= v.1 <= s@.len() && sp_string(s@.skip(from as int)) == Some(
                (v.0@, s@.skip(v.1 as int)),
            ),
            None => sp_string(s@.skip(from as int)) is None,
        },
{
    let (n, p) = match parse_u64(s, from) {
        None => {
            return None;
        },
        Some(v) => v,
    };
    if n > usize::MAX as u64 {
        return None;
    }
    let n_us = n as usize;
    if p == s.len() {
        return None;
    }
    if s[p] != ':' {
        return None;
    }
    let rem = s.len() - p - 1;
    if n_us > rem {
        return None;
    }
    let start = p + 1;
    let mut content: Vec<char> = Vec::new();
    for k in 0..n_us
        invariant
            start + n_us <= s@.len(),
            content@ == s@.subrange(start as int, start + k),
    {
        content.push(s[start + k]);
        proof {
            assert(content@ =~= s@.subrange(start as int, start + k + 1));
        }
    }
    let end = start + n_us;
    proof {
        let r = s@.skip(p as int);
        assert(r.subrange(1, n as int + 1) =~= s@.subrange(start as int, end as int));
        assert(r.skip(n as int + 1) =~= s@.skip(end as int));
    }
    Some((chars_to_string(&content), end))
}

fn parse_result(s: &Vec<char>, from: usize) -> (r: Option<(ConformanceResult, usize)>)
    requires
        from <= s@.len(),
    ensures
        match r {
            Some(v) => from <= v.1 <= s@.len() && sp_result(s@.skip(from as int)) == Some(
                (v.0@, s@.skip(v.1 as int)),
            ),
            None => sp_result(s@.skip(from as int)) is None,
        },
{
    let (org, p1) = match parse_string(s, from) {
        None => {
            return None;
        },
        Some(v) => v,
    };
    let (name, p2) = match parse_string(s, p1) {
        None => {
            return None;
        },
        Some(v) => v,
    };
    if p2 == s.len() {
        return None;
    }
    let flag = s[p2];
    if flag != 'y' && flag != 'n' {
        return None;
    }
    let conforms = flag == 'y';
    let p3 = p2 + 1;
    proof {
        assert(s@.skip(p2 as int).drop_first() =~= s@.skip(p3 as int));
    }
    if p3 == s.len() {
        return None;
    }
    let tag = s[p3];
    if tag == '-' {
        proof {
            assert(s@.skip(p3 as int).drop_first() =~= s@.skip(p3 + 1));
        }
        let res = ConformanceResult {
            repository: RepositoryRef { organization: org, name: name },
            conforms: conforms,
            reason: None,
        };
        Some((res, p3 + 1))
    } else if tag == 's' {
        proof {
            assert(s@.skip(p3 as int).drop_first() =~= s@.skip(p3 + 1));
        }
        match parse_string(s, p3 + 1) {
            None => None,
            Some((reason, p4)) => {
                let res = ConformanceResult {
                    repository: RepositoryRef { organization: org, name: name },
                    conforms: conforms,
                    reason: Some(reason),
                };
                Some((res, p4))
            },
        }
    } else {
        None
    }
}

/// The views of a vector of results, in order.
spec fn results_views(v: Seq<ConformanceResult>) -> Seq<ResultModel> {
    Seq::new(v.len(), |i: int| v[i]@)
}

/// Reads a report back from the codec's text format. Returns nothing exactly
/// when the text is not the encoding of any report.
#[verifier::loop_isolation(false)]
pub fn parse_report(s: &str) -> (r: Option<ConformanceReport>)
    ensures
        match r {
            Some(rep) => sp_report(s@) == Some(rep@),
            None => sp_report(s@) is None,
        },
{
    let cs = string_to_chars(s);
    proof {
        assert(cs@.skip(0) =~= s@);
    }
    let (gen, p1) = match parse_u64(&cs, 0) {
        None => {
            return None;
        },
        Some(v) => v,
    };
    if p1 == cs.len() {
        return None;
    }
    if cs[p1] != '\n' {
        return None;
    }
    proof {
        assert(cs@.skip(p1 as int).drop_first() =~= cs@.skip(p1 + 1));
    }
    let (count, p2) = match parse_u64(&cs, p1 + 1) {
        None => {
            return None;
        },
        Some(v) => v,
    };
    if count > usize::MAX as u64 {
        return None;
    }
    let count_us = count as usize;
    if p2 == cs.len() {
        return None;
    }
    if cs[p2] != '\n' {
        return None;
    }
    proof {
        assert(cs@.skip(p2 as int).drop_first() =~= cs@.skip(p2 + 1));
    }
    let start = p2 + 1;
    let mut results: Vec<ConformanceResult> = Vec::new();
    let mut pos = start;
    for k in 0..count_us
        invariant
            start <= pos <= cs@.len(),
            results@.len() == k,
            count_us == count as nat,
            start == p2 + 1,
            ({
                let full = sp_results(cs@.skip(start as int), count as nat);
                let rest = sp_results(cs@.skip(pos as int), (count_us - k) as nat);
                match rest {
                    None => full is None,
                    Some(v) => full == Some((results_views(results@) + v.0, v.1)),
                }
            }),
    {
        match parse_result(&cs, pos) {
            None => {
                return None;
            },
            Some((res, end)) => {
                let ghost before = results@;
                results.push(res);
                pos = end;
                proof {
                    assert(results_views(before.push(res)) =~= results_views(before).push(res@));
                    let rest = sp_results(cs@.skip(pos as int), (count_us - k - 1) as nat);
                    if rest is Some {
                        let tail = (rest->0).0;
                        assert(results_views(before).push(res@) + tail =~= results_views(before) + (
                        seq![res@] + tail));
                    }
                }
            },
        }
    }
    if pos != cs.len() {
        return None;
    }
    let rep = ConformanceReport { results, generated_at: gen };
    proof {
        assert(cs@.skip(pos as int).len() == 0);
        assert(sp_results(cs@.skip(pos as int), 0) == Some::<(Seq<ResultModel>, Seq<char>)>(
            (Seq::empty(), cs@.skip(pos as int)),
        ));
        assert(results_views(results@) + Seq::<ResultModel>::empty() =~= results_views(results@));
        assert(rep@.results =~= results_views(results@));
    }
    Some(rep)
}

// ---------------------------------------------------------------------------
// The round trip: parsing a serialized report reproduces it exactly.
// ---------------------------------------------------------------------------
proof fn lemma_dec_digits_are_digits(n: nat)
    ensures
        dec_digits(n).len() >= 1,
        forall|i: int| 0 <= i < dec_digits(n).len() ==> is_digit(#[trigger] dec_digits(n)[i]),
    decreases n,
{
    if n >= 10 {
        lemma_dec_digits_are_digits(n / 10);
    }
}

proof fn lemma_digits_val_dec(n: nat)
    ensures
        digits_val(dec_digits(n)) == n,
    decreases n,
{
    if n < 10 {
        let s = dec_digits(n);
        assert(s == seq![digit_char(n)]);
        assert(s.drop_last() =~= Seq::<char>::empty());
        assert(s.last() == digit_char(n));
        assert(digits_val(s) == digits_val(Seq::<char>::empty()) * 10 + digit_val(digit_char(n)));
        assert(digit_val(digit_char(n)) == n);
    } else {
        lemma_digits_val_dec(n / 10);
        assert(dec_digits(n).drop_last() =~= dec_digits(n / 10));
        assert(dec_digits(n).last() == digit_char(n % 10));
        assert(digit_val(digit_char(n % 10)) == n % 10);
        vstd::arithmetic::div_mod::lemma_fundamental_div_mod(n as int, 10);
    }
}

proof fn lemma_take_digits_all(d: Seq<char>, rest: Seq<char>)
    requires
        forall|i: int| 0 <= i < d.len() ==> is_digit(#[trigger] d[i]),
        rest.len() == 0 || !is_digit(rest[0]),
    ensures
        take_digits(d + rest).0 == d,
        take_digits(d + rest).1 == rest,
    decreases d.len(),
{
    if d.len() == 0 {
        assert(d + rest =~= rest);
    } else {
        assert((d + rest)[0] == d[0]);
        assert((d + rest).drop_first() =~= d.drop_first() + rest);
        lemma_take_digits_all(d.drop_first(), rest);
        assert(seq![d[0]] + d.drop_first() =~= d);
    }
}

proof fn lemma_u64_rt(n: nat, rest: Seq<char>)
    requires
        n <= u64::MAX,
        rest.len() == 0 || !is_digit(rest[0]),
    ensures
        sp_u64(dec_digits(n) + rest) == Some((n, rest)),
{
    lemma_dec_digits_are_digits(n);
    lemma_digits_val_dec(n);
    lemma_take_digits_all(dec_digits(n), rest);
}

proof fn lemma_string_rt(t: Seq<char>, rest: Seq<char>)
    requires
        t.len() <= usize::MAX,
    ensures
        sp_string(ser_string(t) + rest) == Some((t, rest)),
{
    let after = seq![':'] + t + rest;
    assert(ser_string(t) + rest =~= dec_digits(t.len()) + after);
    assert(!is_digit(after[0]));
    assert(usize::MAX <= u64::MAX);
    lemma_u64_rt(t.len(), after);
    assert(after.subrange(1, t.len() as int + 1) =~= t);
    assert(after.skip(t.len() as int + 1) =~= rest);
}

/// Whether each string of the result fits the machine's size type: true of
/// the view of any result a program holds.
pub open spec fn valid_result_model(m: ResultModel) -> bool {
    &&& m.repository.organization.len() <= usize::MAX
    &&& m.repository.name.len() <= usize::MAX
    &&& match m.reason {
        Some(t) => t.len() <= usize::MAX,
        None => true,
    }
}

/// Whether the report's sequences fit the machine's size type: true of the
/// view of any report a program holds.
pub open spec fn valid_report_model(m: ReportModel) -> bool {
    &&& m.results.len() <= usize::MAX
    &&& forall|i: int| 0 <= i < m.results.len() ==> valid_result_model(#[trigger] m.results[i])
}

proof fn lemma_result_rt(m: ResultModel, rest: Seq<char>)
    requires
        valid_result_model(m),
    ensures
        sp_result(ser_result(m) + rest) == Some((m, rest)),
{
    let flag = seq![
        if m.conforms {
            'y'
        } else {
            'n'
        },
    ];
    let after_name = flag + ser_reason(m.reason) + rest;
    let after_org = ser_string(m.repository.name) + after_name;
    assert(ser_result(m) + rest =~= ser_string(m.repository.organization) + after_org);
    lemma_string_rt(m.repository.organization, after_org);
    assert(after_org =~= ser_string(m.repository.name) + after_name);
    lemma_string_rt(m.repository.name, after_name);
    assert(after_name[0] == flag[0]);
    assert(after_name.drop_first() =~= ser_reason(m.reason) + rest);
    match m.reason {
        None => {
            assert((ser_reason(m.reason) + rest)[0] == '-');
            assert((ser_reason(m.reason) + rest).drop_first() =~= rest);
        },
        Some(t) => {
            assert((ser_reason(m.reason) + rest)[0] == 's');
            assert((ser_reason(m.reason) + rest).drop_first() =~= ser_string(t) + rest);
            lemma_string_rt(t, rest);
        },
    }
}

proof fn lemma_ser_results_first(s: Seq<ResultModel>)
    requires
        s.len() > 0,
    ensures
        ser_results(s) == ser_result(s[0]) + ser_results(s.drop_first()),
    decreases s.len(),
{
    if s.len() == 1 {
        assert(s.drop_last() =~= Seq::<ResultModel>::empty());
        assert(s.drop_first() =~= Seq::<ResultModel>::empty());
        assert(ser_results(s) =~= ser_result(s[0]) + ser_results(s.drop_first()));
    } else {
        lemma_ser_results_first(s.drop_last());
        assert(s.drop_last()[0] == s[0]);
        assert(s.drop_last().drop_first() =~= s.drop_first().drop_last());
        assert(s.drop_first().last() == s.last());
        assert(ser_results(s) =~= ser_result(s[0]) + (ser_results(s.drop_first().drop_last())
            + ser_result(s.drop_first().last())));
    }
}

proof fn lemma_results_rt(s: Seq<ResultModel>, rest: Seq<char>)
    requires
        forall|i: int| 0 <= i < s.len() ==> valid_result_model(#[trigger] s[i]),
    ensures
        sp_results(ser_results(s) + rest, s.len()) == Some((s, rest)),
    decreases s.len(),
{
    if s.len() == 0 {
        assert(ser_results(s) + rest =~= rest);
        assert(s =~= Seq::<ResultModel>::empty());
    } else {
        lemma_ser_results_first(s);
        assert(ser_results(s) + rest =~= ser_result(s[0]) + (ser_results(s.drop_first()) + rest));
        lemma_result_rt(s[0], ser_results(s.drop_first()) + rest);
        lemma_results_rt(s.drop_first(), rest);
        assert(seq![s[0]] + s.drop_first() =~= s);
    }
}

/// Law: a serialized report parses back to exactly the report it came from,
/// field for field — the encoding is lossless.
pub proof fn lemma_report_round_trip(m: ReportModel)
    requires
        valid_report_model(m),
    ensures
        sp_report(ser_report(m)) == Some(m),
{
    let count = m.results.len();
    let rest1 = seq!['\n'] + dec_digits(count) + seq!['\n'] + ser_results(m.results);
    assert(ser_report(m) =~= dec_digits(m.generated_at as nat) + rest1);
    lemma_u64_rt(m.generated_at as nat, rest1);
    assert(rest1[0] == '\n');
    let rest2 = dec_digits(count) + (seq!['\n'] + ser_results(m.results));
    assert(rest1.drop_first() =~= rest2);
    assert(usize::MAX <= u64::MAX);
    lemma_u64_rt(count, seq!['\n'] + ser_results(m.results));
    assert((seq!['\n'] + ser_results(m.results))[0] == '\n');
    assert((seq!['\n'] + ser_results(m.results)).drop_first() =~= ser_results(m.results)
        + Seq::<char>::empty());
    lemma_results_rt(m.results, Seq::empty());
    assert(Some(ReportModel { results: m.results, generated_at: m.generated_at as nat as u64 })
        == Some(m));
}

} // verus!
