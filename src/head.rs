//! Request-head parsing: the status line with its method and version, and the
//! declared body length taken from the header fields.
use vstd::prelude::*;
use crate::scanner::{CR, LF};

verus! {

pub const SPACE: u8 = 32;

pub const COLON: u8 = 58;

pub const PLUS: u8 = 43;

#[derive(Debug, Clone, Copy, PartialEq, Eq, Structural)]
pub enum Method {
    Get,
    Post,
    Put,
}

#[derive(Debug, Clone, Copy, PartialEq, Eq, Structural)]
pub enum Version {
    Http09,
    Http10,
    Http11,
}

/// Why a request head was refused. Each ends the connection's session.
#[derive(Debug, Clone, Copy, PartialEq, Eq, Structural)]
pub enum HeadError {
    /// The first line is not `<METHOD> <target> HTTP/<digit>.<digit>`.
    MalformedStatusLine,
    /// The method is none of GET, POST, PUT.
    UnsupportedMethod,
    /// The version is none of 0.9, 1.0, 1.1.
    UnsupportedVersion,
}

#[derive(Debug, Clone, Copy, PartialEq, Eq, Structural)]
pub struct RequestHead {
    pub method: Method,
    pub version: Version,
    /// The body length that the header fields declare, if any.
    pub declared_body_length: Option<usize>,
}

pub open spec fn is_upper(b: u8) -> bool {
    65 <= b <= 90
}

/// ASCII whitespace: space, tab, line feed, vertical tab, form feed, carriage return.
pub open spec fn is_space(b: u8) -> bool {
    b == 32 || (9 <= b <= 13)
}

pub open spec fn is_digit(b: u8) -> bool {
    48 <= b <= 57
}

pub open spec fn ascii_lower(b: u8) -> u8 {
    if is_upper(b) {
        (b + 32) as u8
    } else {
        b
    }
}

/// The index of the first CR LF pair at or after `i`, or the length of `s`
/// when there is none: the end of the line that starts at `i`.
pub open spec fn line_end(s: Seq<u8>, i: int) -> int
    decreases s.len() - i,
{
    if i < 0 || i + 1 >= s.len() {
        s.len() as int
    } else if s[i] == CR && s[i + 1] == LF {
        i
    } else {
        line_end(s, i + 1)
    }
}

pub proof fn lemma_line_end(s: Seq<u8>, i: int)
    requires
        0 <= i <= s.len(),
    ensures
        i <= line_end(s, i) <= s.len(),
        line_end(s, i) < s.len() ==> line_end(s, i) + 1 < s.len() && s[line_end(s, i)] == CR && s[line_end(s, i)
            + 1] == LF,
    decreases s.len() - i,
{
    if i + 1 < s.len() && !(s[i] == CR && s[i + 1] == LF) {
        lemma_line_end(s, i + 1);
    }
}

/// The end of the run of uppercase letters that starts at `i`.
pub open spec fn upper_run(l: Seq<u8>, i: int) -> int
    decreases l.len() - i,
{
    if 0 <= i < l.len() && is_upper(l[i]) {
        upper_run(l, i + 1)
    } else {
        i
    }
}

/// `l` is `<METHOD> <target> HTTP/<digit>.<digit>`: one or more uppercase
/// letters, a space, one or more bytes that are not whitespace, a space, and
/// the protocol name with its version.
pub open spec fn status_line_matches(l: Seq<u8>) -> bool {
    let n = l.len() as int;
    let m = upper_run(l, 0);
    1 <= m && m + 1 < n - 9 && l[m] == SPACE && (forall|k: int| m < k < n - 9 ==> !is_space(#[trigger] l[k]))
        && l[n - 9] == SPACE && l[n - 8] == 72 && l[n - 7] == 84 && l[n - 6] == 84 && l[n - 5] == 80 && l[n
        - 4] == 47 && is_digit(l[n - 3]) && l[n - 2] == 46 && is_digit(l[n - 1])
}

pub open spec fn method_of(tok: Seq<u8>) -> Option<Method> {
    if tok == seq![71u8, 69, 84] {
        Some(Method::Get)
    } else if tok == seq![80u8, 79, 83, 84] {
        Some(Method::Post)
    } else if tok == seq![80u8, 85, 84] {
        Some(Method::Put)
    } else {
        None
    }
}

/// The version `<major>.<minor>`, written as two digit bytes.
pub open spec fn version_of(major: u8, minor: u8) -> Option<Version> {
    if major == 48 && minor == 57 {
        Some(Version::Http09)
    } else if major == 49 && minor == 48 {
        Some(Version::Http10)
    } else if major == 49 && minor == 49 {
        Some(Version::Http11)
    } else {
        None
    }
}

/// What the status line `l` (without its CR LF) yields: its method and version,
/// or why it is refused. The method is judged before the version.
pub open spec fn status_line_spec(l: Seq<u8>) -> Result<(Method, Version), HeadError> {
    let n = l.len() as int;
    if !status_line_matches(l) {
        Err(HeadError::MalformedStatusLine)
    } else {
        match method_of(l.take(upper_run(l, 0))) {
            None => Err(HeadError::UnsupportedMethod),
            Some(m) => match version_of(l[n - 3], l[n - 1]) {
                None => Err(HeadError::UnsupportedVersion),
                Some(v) => Ok((m, v)),
            },
        }
    }
}

/// The lowercase name of the field that declares the body length:
/// `content-length`, as HTTP defines it. `Content-Type` says nothing of the
/// body's size and is not consulted.
pub open spec fn length_field_name() -> Seq<u8> {
    seq![99u8, 111, 110, 116, 101, 110, 116, 45, 108, 101, 110, 103, 116, 104]
}

/// The bytes of `s` from `a` to `c` spell the body-length field name, in any
/// mix of upper and lower case.
pub open spec fn names_length_field(s: Seq<u8>, a: int, c: int) -> bool {
    c - a == length_field_name().len() && forall|j: int|
        0 <= j < c - a ==> ascii_lower(#[trigger] s[a + j]) == length_field_name()[j]
}

/// The index of the first colon in `s` from `i` up to `e`, or `e`.
pub open spec fn colon_from(s: Seq<u8>, i: int, e: int) -> int
    decreases e - i,
{
    if i < 0 || i >= e {
        e
    } else if s[i] == COLON {
        i
    } else {
        colon_from(s, i + 1, e)
    }
}

/// The first index from `i` up to `e` that holds no whitespace, or `e`.
pub open spec fn skip_space(s: Seq<u8>, i: int, e: int) -> int
    decreases e - i,
{
    if i < 0 || i >= e {
        e
    } else if is_space(s[i]) {
        skip_space(s, i + 1, e)
    } else {
        i
    }
}

/// The end of the bytes from `i` to `e` once trailing whitespace is cut off.
pub open spec fn cut_space(s: Seq<u8>, i: int, e: int) -> int
    decreases e - i,
{
    if e <= i {
        i
    } else if is_space(s[e - 1]) {
        cut_space(s, i, e - 1)
    } else {
        e
    }
}

/// The number that the decimal digits `d` write.
pub open spec fn decimal_value(d: Seq<u8>) -> nat
    decreases d.len(),
{
    if d.len() == 0 {
        0
    } else {
        decimal_value(d.drop_last()) * 10 + (d.last() - 48) as nat
    }
}

pub open spec fn all_digits(d: Seq<u8>) -> bool {
    forall|k: int| 0 <= k < d.len() ==> is_digit(#[trigger] d[k])
}

/// `d` read as an unsigned integer: an optional `+`, then one or more decimal
/// digits whose value fits in `usize`.
pub open spec fn parse_decimal(d: Seq<u8>) -> Option<usize> {
    let digits = if d.len() > 0 && d[0] == PLUS {
        d.drop_first()
    } else {
        d
    };
    if digits.len() > 0 && all_digits(digits) && decimal_value(digits) <= usize::MAX {
        Some(decimal_value(digits) as usize)
    } else {
        None
    }
}

/// The value of the field line from `i` to `e`, whitespace trimmed, when the
/// line has a colon and names the body-length field before it.
pub open spec fn field_value(s: Seq<u8>, i: int, e: int) -> Option<Seq<u8>> {
    let c = colon_from(s, i, e);
    if c < e && names_length_field(s, i, c) {
        let a = skip_space(s, c + 1, e);
        Some(s.subrange(a, cut_space(s, a, e)))
    } else {
        None
    }
}

/// The declared body length found in the header lines of `s` from `i` on: the
/// first line that names the field decides, and its value either parses or
/// gives no length.
pub open spec fn field_search(s: Seq<u8>, i: int) -> Option<usize>
    decreases s.len() - i,
    via field_search_decreases
{
    if i < 0 || i > s.len() {
        None
    } else {
        let e = line_end(s, i);
        match field_value(s, i, e) {
            Some(v) => parse_decimal(v),
            None => if e >= s.len() {
                None
            } else {
                field_search(s, e + 2)
            },
        }
    }
}

#[via_fn]
proof fn field_search_decreases(s: Seq<u8>, i: int) {
    if 0 <= i <= s.len() {
        lemma_line_end(s, i);
    }
}

/// What the header block `block` yields: the status line on its first line,
/// and the declared body length from the lines after it.
pub open spec fn head_spec(block: Seq<u8>) -> Result<RequestHead, HeadError> {
    let e = line_end(block, 0);
    match status_line_spec(block.take(e)) {
        Err(x) => Err(x),
        Ok((m, v)) => Ok(
            RequestHead {
                method: m,
                version: v,
                declared_body_length: if e < block.len() {
                    field_search(block, e + 2)
                } else {
                    None
                },
            },
        ),
    }
}

pub fn is_upper_byte(b: u8) -> (r: bool)
    ensures
        r == is_upper(b),
{
    65 <= b && b <= 90
}

pub fn is_space_byte(b: u8) -> (r: bool)
    ensures
        r == is_space(b),
{
    b == 32 || (9 <= b && b <= 13)
}

pub fn is_digit_byte(b: u8) -> (r: bool)
    ensures
        r == is_digit(b),
{
    48 <= b && b <= 57
}

/// Finds the end of the line that starts at `i`: the first CR LF at or after `i`,
/// or the end of `s`.
pub fn find_line_end(s: &[u8], i: usize) -> (r: usize)
    requires
        i <= s@.len(),
    ensures
        r == line_end(s@, i as int),
{
    let mut j = i;
    while j < s.len() && j + 1 < s.len() && !(s[j] == CR && s[j + 1] == LF)
        invariant
            i <= j <= s@.len(),
            line_end(s@, i as int) == line_end(s@, j as int),
        decreases s@.len() - j,
    {
        j = j + 1;
    }
    if j >= s.len() || j + 1 >= s.len() {
        s.len()
    } else {
        j
    }
}

/// Parses a status line given without its CR LF. The grammar is
/// `<METHOD> <target> HTTP/<digit>.<digit>`; the method must then be GET, POST
/// or PUT and the version 0.9, 1.0 or 1.1.
pub fn parse_status_line(l: &[u8]) -> (r: Result<(Method, Version), HeadError>)
    ensures
        r == status_line_spec(l@),
{
    let n = l.len();
    let mut m: usize = 0;
    while m < n && is_upper_byte(l[m])
        invariant
            m <= n,
            n == l@.len(),
            upper_run(l@, 0) == upper_run(l@, m as int),
        decreases n - m,
    {
        m = m + 1;
    }
    assert(upper_run(l@, m as int) == m);
    if m < 1 || n < 10 || m >= n - 10 || l[m] != SPACE {
        return Err(HeadError::MalformedStatusLine);
    }
    let mut k: usize = m + 1;
    while k < n - 9
        invariant
            m < k <= n - 9,
            n == l@.len(),
            upper_run(l@, 0) == m as int,
            n >= 10,
            forall|j: int| m < j < k ==> !is_space(#[trigger] l@[j]),
        decreases n - 9 - k,
    {
        if is_space_byte(l[k]) {
            assert(is_space(l@[k as int]));
            return Err(HeadError::MalformedStatusLine);
        }
        k = k + 1;
    }
    if !(l[n - 9] == SPACE && l[n - 8] == 72 && l[n - 7] == 84 && l[n - 6] == 84 && l[n - 5] == 80 && l[n - 4]
        == 47 && is_digit_byte(l[n - 3]) && l[n - 2] == 46 && is_digit_byte(l[n - 1])) {
        return Err(HeadError::MalformedStatusLine);
    }
    assert(status_line_matches(l@));
    let ghost tok = l@.take(m as int);
    let method = if m == 3 && l[0] == 71 && l[1] == 69 && l[2] == 84 {
        assert(tok =~= seq![71u8, 69, 84]);
        Method::Get
    } else if m == 4 && l[0] == 80 && l[1] == 79 && l[2] == 83 && l[3] == 84 {
        assert(tok =~= seq![80u8, 79, 83, 84]);
        Method::Post
    } else if m == 3 && l[0] == 80 && l[1] == 85 && l[2] == 84 {
        assert(tok =~= seq![80u8, 85, 84]);
        Method::Put
    } else {
        assert(tok != seq![71u8, 69, 84] ==> tok.len() != 3 || tok[0] != 71 || tok[1] != 69 || tok[2] != 84);
        assert(method_of(tok) is None) by {
            if tok == seq![71u8, 69, 84] {
                assert(tok[0] == 71 && tok[1] == 69 && tok[2] == 84);
            }
            if tok == seq![80u8, 79, 83, 84] {
                assert(tok[0] == 80 && tok[1] == 79 && tok[2] == 83 && tok[3] == 84);
            }
            if tok == seq![80u8, 85, 84] {
                assert(tok[0] == 80 && tok[1] == 85 && tok[2] == 84);
            }
        }
        return Err(HeadError::UnsupportedMethod);
    };
    let major = l[n - 3];
    let minor = l[n - 1];
    let version = if major == 48 && minor == 57 {
        Version::Http09
    } else if major == 49 && minor == 48 {
        Version::Http10
    } else if major == 49 && minor == 49 {
        Version::Http11
    } else {
        return Err(HeadError::UnsupportedVersion);
    };
    Ok((method, version))
}

/// The digits of a prefix never write more than the whole.
pub proof fn lemma_decimal_prefix(d: Seq<u8>, k: int)
    requires
        0 <= k <= d.len(),
        all_digits(d),
    ensures
        decimal_value(d.take(k)) <= decimal_value(d),
    decreases d.len(),
{
    if k < d.len() {
        let p = d.drop_last();
        assert(all_digits(p)) by {
            assert forall|j: int| 0 <= j < p.len() implies is_digit(#[trigger] p[j]) by {
                assert(p[j] == d[j]);
            }
        }
        lemma_decimal_prefix(p, k);
        assert(p.take(k) =~= d.take(k));
        assert(is_digit(d[d.len() - 1]));
        assert(decimal_value(d) == decimal_value(p) * 10 + (d.last() - 48) as nat);
    } else {
        assert(d.take(k) =~= d);
    }
}

/// Reads `d` as an unsigned integer: an optional `+`, then decimal digits, with
/// no overflow.
pub fn parse_decimal_bytes(d: &[u8]) -> (r: Option<usize>)
    ensures
        r == parse_decimal(d@),
{
    let ghost digits = if d@.len() > 0 && d@[0] == PLUS {
        d@.drop_first()
    } else {
        d@
    };
    let start: usize = if d.len() > 0 && d[0] == PLUS {
        1
    } else {
        0
    };
    assert(digits =~= d@.subrange(start as int, d@.len() as int));
    assert(parse_decimal(d@) == if digits.len() > 0 && all_digits(digits) && decimal_value(digits) <= usize::MAX {
        Some(decimal_value(digits) as usize)
    } else {
        None
    });
    if start >= d.len() {
        return None;
    }
    let mut v: usize = 0;
    let mut j: usize = start;
    while j < d.len()
        invariant
            start <= j <= d@.len(),
            digits =~= d@.subrange(start as int, d@.len() as int),
            parse_decimal(d@) == if digits.len() > 0 && all_digits(digits) && decimal_value(digits)
                <= usize::MAX {
                Some(decimal_value(digits) as usize)
            } else {
                None
            },
            all_digits(d@.subrange(start as int, j as int)),
            v as nat == decimal_value(d@.subrange(start as int, j as int)),
        decreases d@.len() - j,
    {
        let b = d[j];
        let ghost before = d@.subrange(start as int, j as int);
        let ghost after = d@.subrange(start as int, j + 1);
        assert(after.drop_last() =~= before);
        assert(after[j - start] == b);
        if !is_digit_byte(b) {
            assert(digits[j - start] == b);
            assert(!all_digits(digits));
            return None;
        }
        let dig = (b - 48) as usize;
        assert(all_digits(after)) by {
            assert forall|k: int| 0 <= k < after.len() implies is_digit(#[trigger] after[k]) by {
                if k < before.len() {
                    assert(after[k] == before[k]);
                }
            }
        }
        assert(decimal_value(after) == decimal_value(before) * 10 + dig);
        if v > (usize::MAX - dig) / 10 {
            assert(v * 10 + dig > usize::MAX) by (nonlinear_arith)
                requires
                    v > (usize::MAX - dig) / 10,
                    dig <= 9,
            ;
            proof {
                if all_digits(digits) {
                    lemma_decimal_prefix(digits, j + 1 - start);
                    assert(digits.take(j + 1 - start) =~= after);
                    assert(decimal_value(after) > usize::MAX);
                }
                assert(parse_decimal(d@) is None);
            }
            return None;
        }
        assert(v * 10 + dig <= usize::MAX) by (nonlinear_arith)
            requires
                v <= (usize::MAX - dig) / 10,
                dig <= 9,
        ;
        v = v * 10 + dig;
        j = j + 1;
    }
    assert(d@.subrange(start as int, j as int) =~= digits);
    Some(v)
}

/// Finds the first colon in `s` from `i` up to `e`, or `e`.
pub fn find_colon(s: &[u8], i: usize, e: usize) -> (r: usize)
    requires
        i <= e <= s@.len(),
    ensures
        r == colon_from(s@, i as int, e as int),
{
    let mut j = i;
    while j < e && s[j] != COLON
        invariant
            i <= j <= e,
            e <= s@.len(),
            colon_from(s@, i as int, e as int) == colon_from(s@, j as int, e as int),
        decreases e - j,
    {
        j = j + 1;
    }
    j
}

pub fn skip_space_bytes(s: &[u8], i: usize, e: usize) -> (r: usize)
    requires
        i <= e <= s@.len(),
    ensures
        r == skip_space(s@, i as int, e as int),
        i <= r <= e,
{
    let mut j = i;
    while j < e && is_space_byte(s[j])
        invariant
            i <= j <= e,
            e <= s@.len(),
            skip_space(s@, i as int, e as int) == skip_space(s@, j as int, e as int),
        decreases e - j,
    {
        j = j + 1;
    }
    j
}

pub fn cut_space_bytes(s: &[u8], i: usize, e: usize) -> (r: usize)
    requires
        i <= e <= s@.len(),
    ensures
        r == cut_space(s@, i as int, e as int),
        i <= r <= e,
{
    let mut j = e;
    while j > i && is_space_byte(s[j - 1])
        invariant
            i <= j <= e,
            e <= s@.len(),
            cut_space(s@, i as int, e as int) == cut_space(s@, i as int, j as int),
        decreases j,
    {
        j = j - 1;
    }
    j
}

/// Tells whether the bytes of `s` from `a` to `c` name the body-length field,
/// ignoring ASCII case.
pub fn names_length_field_bytes(s: &[u8], a: usize, c: usize) -> (r: bool)
    requires
        a <= c <= s@.len(),
    ensures
        r == names_length_field(s@, a as int, c as int),
{
    let name: Vec<u8> = vec![99u8, 111, 110, 116, 101, 110, 116, 45, 108, 101, 110, 103, 116, 104];
    assert(name@ =~= length_field_name());
    if c - a != name.len() {
        return false;
    }
    let mut j: usize = 0;
    while j < name.len()
        invariant
            j <= name@.len(),
            c - a == name@.len(),
            c <= s@.len(),
            name@ == length_field_name(),
            forall|k: int| 0 <= k < j ==> ascii_lower(#[trigger] s@[a + k]) == length_field_name()[k],
        decreases name@.len() - j,
    {
        let b = s[a + j];
        let lower = if is_upper_byte(b) {
            b + 32
        } else {
            b
        };
        if lower != name[j] {
            assert(ascii_lower(s@[a + j]) != length_field_name()[j as int]);
            return false;
        }
        j = j + 1;
    }
    true
}

/// Looks through the header lines of `s` from `i` on for the field that
/// declares the body length, and parses its value.
pub fn find_declared_length(s: &[u8], i: usize) -> (r: Option<usize>)
    requires
        i <= s@.len(),
    ensures
        r == field_search(s@, i as int),
{
    let mut a = i;
    loop
        invariant
            a <= s@.len(),
            field_search(s@, i as int) == field_search(s@, a as int),
        decreases s@.len() - a,
    {
        let e = find_line_end(s, a);
        proof {
            lemma_line_end(s@, a as int);
        }
        let c = find_colon(s, a, e);
        proof {
            lemma_colon_from(s@, a as int, e as int);
        }
        if c < e && names_length_field_bytes(s, a, c) {
            let v0 = skip_space_bytes(s, c + 1, e);
            let v1 = cut_space_bytes(s, v0, e);
            let value = vstd::slice::slice_subrange(s, v0, v1);
            return parse_decimal_bytes(value);
        }
        if e >= s.len() {
            return None;
        }
        a = e + 2;
    }
}

pub proof fn lemma_colon_from(s: Seq<u8>, i: int, e: int)
    requires
        0 <= i <= e,
    ensures
        i <= colon_from(s, i, e) <= e,
    decreases e - i,
{
    if i < e && s[i] != COLON {
        lemma_colon_from(s, i + 1, e);
    }
}

/// Parses a header block: its status line, then its header fields for the
/// declared body length.
pub fn parse_request_head(block: &[u8]) -> (r: Result<RequestHead, HeadError>)
    ensures
        r == head_spec(block@),
{
    let e = find_line_end(block, 0);
    proof {
        lemma_line_end(block@, 0);
    }
    let line = vstd::slice::slice_subrange(block, 0, e);
    assert(line@ =~= block@.take(e as int));
    match parse_status_line(line) {
        Err(x) => Err(x),
        Ok((method, version)) => {
            let declared_body_length = if e < block.len() {
                find_declared_length(block, e + 2)
            } else {
                None
            };
            Ok(RequestHead { method, version, declared_body_length })
        },
    }
}

} // verus!
