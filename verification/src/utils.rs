use vstd::prelude::*;

verus! {

/// Largest coordinate magnitude the library accepts, in fixed-point units
/// of one thousandth. Keeping coordinates in this range lets every squared
/// distance fit in a `u64` and every edge length stay below `EDGE_BOUND`.
pub const COORD_LIMIT: i64 = 1_000_000_000;

/// Strict upper bound on the length of a single tour edge between two
/// well-formed cities: `EDGE_BOUND * EDGE_BOUND` exceeds the largest
/// possible squared distance `2 * (2 * COORD_LIMIT)^2`.
pub const EDGE_BOUND: u64 = 3_000_000_000;

/// A city: an identifier plus plane coordinates in fixed-point units of one
/// thousandth. The identifier is metadata only; the algorithm addresses
/// cities by their position in the city list.
#[derive(Clone, Debug, PartialEq, Eq, Structural)]
pub struct City {
    pub id: usize,
    pub x: i64,
    pub y: i64,
}

/// Coordinates small enough that squared distances fit comfortably in 64 bits.
pub open spec fn city_wf(c: City) -> bool {
    &&& -COORD_LIMIT <= c.x <= COORD_LIMIT
    &&& -COORD_LIMIT <= c.y <= COORD_LIMIT
}

pub open spec fn sq(v: int) -> int {
    v * v
}

/// Squared Euclidean distance between two cities.
pub open spec fn dist2(a: City, b: City) -> int {
    sq(a.x - b.x) + sq(a.y - b.y)
}

/// Integer square root, rounded down: the largest `r` with `r * r <= n`.
pub open spec fn isqrt(n: int) -> int
    decreases n,
{
    if n <= 0 {
        0
    } else {
        let r = isqrt(n - 1);
        if sq(r + 1) <= n {
            r + 1
        } else {
            r
        }
    }
}

/// The distance between two cities: the integer square root of the squared
/// Euclidean distance, in the same fixed-point units as the coordinates.
pub open spec fn city_dist(a: City, b: City) -> int {
    isqrt(dist2(a, b))
}

pub proof fn lemma_sq_monotonic(a: int, b: int)
    requires
        0 <= a <= b,
    ensures
        sq(a) <= sq(b),
{
    assert(a * a <= b * b) by (nonlinear_arith)
        requires
            0 <= a <= b,
    ;
}

/// `isqrt(n)` is the floor of the square root: it squares to at most `n`,
/// and the next integer squares to more than `n`.
pub proof fn lemma_isqrt_bounds(n: int)
    requires
        n >= 0,
    ensures
        0 <= isqrt(n),
        sq(isqrt(n)) <= n,
        n < sq(isqrt(n) + 1),
    decreases n,
{
    if n == 0 {
        assert(isqrt(0) == 0);
    } else {
        lemma_isqrt_bounds(n - 1);
        let r = isqrt(n - 1);
        if sq(r + 1) <= n {
            assert(isqrt(n) == r + 1);
            assert(n - 1 < sq(r + 1));
            assert(n < sq(r + 1) + 1);
            assert(sq(r + 1) + 1 <= sq(r + 2)) by (nonlinear_arith)
                requires
                    r >= 0,
            ;
        } else {
            assert(isqrt(n) == r);
        }
    }
}

/// Any `r` in the floor-square-root bracket of `n` equals `isqrt(n)`.
pub proof fn lemma_isqrt_unique(n: int, r: int)
    requires
        n >= 0,
        r >= 0,
        sq(r) <= n,
        n < sq(r + 1),
    ensures
        r == isqrt(n),
{
    lemma_isqrt_bounds(n);
    let s = isqrt(n);
    if r < s {
        lemma_sq_monotonic(r + 1, s);
        assert(sq(s) <= n);
        assert(n < sq(r + 1));
    }
    if s < r {
        lemma_sq_monotonic(s + 1, r);
        assert(sq(r) <= n);
        assert(n < sq(s + 1));
    }
}

/// Integer square root of a 64-bit value by binary search.
fn isqrt_u64(n: u64) -> (r: u64)
    requires
        n <= 8_000_000_000_000_000_000,
    ensures
        r as int == isqrt(n as int),
        r < EDGE_BOUND,
{
    let mut lo: u64 = 0;
    let mut hi: u64 = EDGE_BOUND;
    assert(n < (hi as int) * (hi as int)) by (nonlinear_arith)
        requires
            hi == 3_000_000_000u64 && n <= 8_000_000_000_000_000_000,
    ;
    while lo + 1 < hi
        invariant
            lo < hi <= EDGE_BOUND,
            sq(lo as int) <= n as int,
            (n as int) < sq(hi as int),
        decreases hi - lo,
    {
        let mid = lo + (hi - lo) / 2;
        assert((mid as int) * (mid as int) <= 9_000_000_000_000_000_000) by (nonlinear_arith)
            requires
                mid <= 3_000_000_000u64,
        ;
        if mid * mid <= n {
            lo = mid;
        } else {
            hi = mid;
        }
    }
    proof {
        assert(hi == lo + 1);
        lemma_isqrt_unique(n as int, lo as int);
    }
    lo
}

/// Distance between two cities, rounded down to whole fixed-point units.
pub fn distance(a: &City, b: &City) -> (d: u64)
    requires
        city_wf(*a),
        city_wf(*b),
    ensures
        d as int == city_dist(*a, *b),
        d < EDGE_BOUND,
{
    let dx = a.x - b.x;
    let dy = a.y - b.y;
    proof {
        assert(dx * dx <= 4_000_000_000_000_000_000 && dx * dx >= 0) by (nonlinear_arith)
            requires
                -2_000_000_000 <= dx <= 2_000_000_000,
        ;
        assert(dy * dy <= 4_000_000_000_000_000_000 && dy * dy >= 0) by (nonlinear_arith)
            requires
                -2_000_000_000 <= dy <= 2_000_000_000,
        ;
    }
    let d2 = dx * dx + dy * dy;
    isqrt_u64(d2 as u64)
}

/// The distance is symmetric, and the distance from a city to itself is zero.
pub proof fn lemma_distance_symmetric(a: City, b: City)
    ensures
        city_dist(a, b) == city_dist(b, a),
        city_dist(a, a) == 0,
{
    assert(sq(a.x - b.x) == sq(b.x - a.x)) by (nonlinear_arith);
    assert(sq(a.y - b.y) == sq(b.y - a.y)) by (nonlinear_arith);
    assert(dist2(a, b) == dist2(b, a));
    assert(sq(0) == 0);
    assert(dist2(a, a) == 0);
    assert(isqrt(0) == 0);
}

/// Distances between well-formed cities are non-negative and below `EDGE_BOUND`.
pub proof fn lemma_distance_bounds(a: City, b: City)
    requires
        city_wf(a),
        city_wf(b),
    ensures
        0 <= city_dist(a, b),
        city_dist(a, b) < EDGE_BOUND,
{
    let dx = a.x - b.x;
    let dy = a.y - b.y;
    assert(0 <= sq(dx) <= 4_000_000_000_000_000_000) by (nonlinear_arith)
        requires
            -2_000_000_000 <= dx <= 2_000_000_000,
    ;
    assert(0 <= sq(dy) <= 4_000_000_000_000_000_000) by (nonlinear_arith)
        requires
            -2_000_000_000 <= dy <= 2_000_000_000,
    ;
    lemma_isqrt_bounds(dist2(a, b));
    let r = isqrt(dist2(a, b));
    if r >= EDGE_BOUND {
        lemma_sq_monotonic(3_000_000_000, r);
        assert(sq(3_000_000_000) == 9_000_000_000_000_000_000) by (nonlinear_arith);
    }
}

/// Why a city list was rejected: the line (counted from zero) whose field
/// could not be read. An identifier must be a plain decimal number; a
/// coordinate must be a decimal numeral with an optional sign and fraction,
/// no larger in magnitude than `COORD_LIMIT` thousandths.
#[derive(Debug, PartialEq, Eq, Structural, Clone, Copy)]
pub enum ParseError {
    BadId { line: usize },
    BadCoordinate { line: usize },
}

pub open spec fn is_ws(b: u8) -> bool {
    b == 32 || b == 9 || b == 13
}

pub open spec fn is_digit(b: u8) -> bool {
    48 <= b <= 57
}

pub open spec fn all_digits(s: Seq<u8>) -> bool {
    forall|i: int| 0 <= i < s.len() ==> is_digit(#[trigger] s[i])
}

/// Value of a string of decimal digits.
pub open spec fn digits_val(s: Seq<u8>) -> int
    decreases s.len(),
{
    if s.len() == 0 {
        0
    } else {
        digits_val(s.drop_last()) * 10 + (s.last() - 48)
    }
}

/// The whitespace-separated fields of a line, accumulated byte by byte.
pub open spec fn fields_from(line: Seq<u8>, pos: int, cur: Seq<u8>) -> Seq<Seq<u8>>
    decreases line.len() - pos,
{
    if pos < 0 || pos >= line.len() {
        if cur.len() > 0 {
            seq![cur]
        } else {
            Seq::empty()
        }
    } else if is_ws(line[pos]) {
        if cur.len() > 0 {
            seq![cur] + fields_from(line, pos + 1, Seq::empty())
        } else {
            fields_from(line, pos + 1, Seq::empty())
        }
    } else {
        fields_from(line, pos + 1, cur.push(line[pos]))
    }
}

pub open spec fn fields_of(line: Seq<u8>) -> Seq<Seq<u8>> {
    fields_from(line, 0, Seq::empty())
}

/// Index of the first decimal point in `s` at or after `pos`, or `s.len()`.
pub open spec fn first_dot(s: Seq<u8>, pos: int) -> int
    decreases s.len() - pos,
{
    if pos < 0 || pos >= s.len() {
        s.len() as int
    } else if s[pos] == 46 {
        pos
    } else {
        first_dot(s, pos + 1)
    }
}

/// An identifier field: one or more decimal digits, fitting in a `usize`.
pub open spec fn id_ok(f: Seq<u8>) -> bool {
    f.len() >= 1 && all_digits(f) && digits_val(f) <= usize::MAX
}

/// The digits of a coordinate field, after any leading minus sign.
pub open spec fn coord_body(f: Seq<u8>) -> Seq<u8> {
    if f.len() >= 1 && f[0] == 45 {
        f.drop_first()
    } else {
        f
    }
}

pub open spec fn coord_int_part(f: Seq<u8>) -> Seq<u8> {
    let body = coord_body(f);
    body.subrange(0, first_dot(body, 0))
}

pub open spec fn coord_frac_part(f: Seq<u8>) -> Seq<u8> {
    let body = coord_body(f);
    let d = first_dot(body, 0);
    if d < body.len() {
        body.subrange(d + 1, body.len() as int)
    } else {
        Seq::empty()
    }
}

/// The fraction digits, truncated past the thousandths, as a count of
/// thousandths.
pub open spec fn frac_mils(fp: Seq<u8>) -> int {
    if fp.len() == 0 {
        0
    } else if fp.len() == 1 {
        digits_val(fp) * 100
    } else if fp.len() == 2 {
        digits_val(fp) * 10
    } else {
        digits_val(fp.subrange(0, 3))
    }
}

/// Magnitude of a coordinate field in thousandths.
pub open spec fn coord_mag(f: Seq<u8>) -> int {
    digits_val(coord_int_part(f)) * 1000 + frac_mils(coord_frac_part(f))
}

/// A coordinate field: an optional minus sign, one or more integer digits,
/// then optionally a decimal point and fraction digits; its magnitude, read
/// in thousandths and truncated past the thousandths, is at most
/// `COORD_LIMIT`.
pub open spec fn coord_ok(f: Seq<u8>) -> bool {
    &&& coord_int_part(f).len() >= 1
    &&& all_digits(coord_int_part(f))
    &&& all_digits(coord_frac_part(f))
    &&& coord_mag(f) <= COORD_LIMIT
}

/// Signed value of a coordinate field, in thousandths.
pub open spec fn coord_val(f: Seq<u8>) -> int {
    if f.len() >= 1 && f[0] == 45 {
        -coord_mag(f)
    } else {
        coord_mag(f)
    }
}

/// What one input line yields: too few fields are skipped, a bad first
/// field is an identifier error, a bad second or third field a coordinate
/// error, and otherwise the line describes a city. Fields past the third
/// are ignored.
pub enum LineVerdict {
    SkipLine,
    Keep(City),
    BadIdField,
    BadCoordField,
}

pub open spec fn line_verdict(line: Seq<u8>) -> LineVerdict {
    let fs = fields_of(line);
    if fs.len() < 3 {
        LineVerdict::SkipLine
    } else if !id_ok(fs[0]) {
        LineVerdict::BadIdField
    } else if !coord_ok(fs[1]) || !coord_ok(fs[2]) {
        LineVerdict::BadCoordField
    } else {
        LineVerdict::Keep(
            City {
                id: digits_val(fs[0]) as usize,
                x: coord_val(fs[1]) as i64,
                y: coord_val(fs[2]) as i64,
            },
        )
    }
}

proof fn lemma_digits_val_nonneg(s: Seq<u8>)
    requires
        all_digits(s),
    ensures
        digits_val(s) >= 0,
    decreases s.len(),
{
    if s.len() > 0 {
        assert(forall|i: int|
            0 <= i < s.drop_last().len() ==> is_digit(#[trigger] s.drop_last()[i]));
        lemma_digits_val_nonneg(s.drop_last());
    }
}

/// Reading further digits can only increase the value.
proof fn lemma_digits_val_mono(s: Seq<u8>, i: int, j: int)
    requires
        all_digits(s),
        0 <= i <= j <= s.len(),
    ensures
        digits_val(s.subrange(0, i)) <= digits_val(s.subrange(0, j)),
    decreases j - i,
{
    if i < j {
        lemma_digits_val_mono(s, i, j - 1);
        let pre = s.subrange(0, j - 1);
        let cur = s.subrange(0, j);
        assert(cur.drop_last() =~= pre);
        assert(forall|t: int| 0 <= t < pre.len() ==> is_digit(#[trigger] pre[t]));
        lemma_digits_val_nonneg(pre);
        assert(digits_val(cur) == digits_val(pre) * 10 + (s[j - 1] - 48));
        assert(digits_val(pre) * 10 >= digits_val(pre)) by (nonlinear_arith)
            requires
                digits_val(pre) >= 0,
        ;
    }
}

proof fn lemma_digits_val_small(s: Seq<u8>)
    ensures
        s.len() == 1 ==> digits_val(s) == s[0] - 48,
        s.len() == 2 ==> digits_val(s) == (s[0] - 48) * 10 + (s[1] - 48),
        s.len() == 3 ==> digits_val(s) == (s[0] - 48) * 100 + (s[1] - 48) * 10 + (s[2] - 48),
{
    if s.len() == 1 {
        let e = s.drop_last();
        assert(e =~= Seq::<u8>::empty());
        assert(digits_val(e) == 0);
        assert(digits_val(s) == digits_val(e) * 10 + (s[0] - 48));
    }
    if s.len() == 2 {
        let d1 = s.drop_last();
        let e = d1.drop_last();
        assert(e =~= Seq::<u8>::empty());
        assert(digits_val(e) == 0);
        assert(d1.last() == s[0]);
        assert(digits_val(d1) == digits_val(e) * 10 + (s[0] - 48));
        assert(digits_val(s) == digits_val(d1) * 10 + (s[1] - 48));
    }
    if s.len() == 3 {
        let d1 = s.drop_last();
        let d2 = d1.drop_last();
        let e = d2.drop_last();
        assert(e =~= Seq::<u8>::empty());
        assert(digits_val(e) == 0);
        assert(d2.last() == s[0]);
        assert(d1.last() == s[1]);
        assert(digits_val(d2) == digits_val(e) * 10 + (s[0] - 48));
        assert(digits_val(d1) == digits_val(d2) * 10 + (s[1] - 48));
        assert(digits_val(s) == digits_val(d1) * 10 + (s[2] - 48));
    }
}

/// If no decimal point stands before position `k` and `k` is the end or a
/// decimal point, then `k` is where the first decimal point is reported.
proof fn lemma_first_dot_run(s: Seq<u8>, pos: int, k: int)
    requires
        0 <= pos <= k <= s.len(),
        forall|t: int| pos <= t < k ==> s[t] != 46,
        k == s.len() || s[k] == 46,
    ensures
        first_dot(s, pos) == k,
    decreases k - pos,
{
    if pos < k {
        lemma_first_dot_run(s, pos + 1, k);
    }
}

/// Reads an unsigned decimal numeral of at most `max`.
fn parse_unsigned(field: &Vec<u8>, max: u64) -> (r: Option<u64>)
    ensures
        match r {
            Option::Some(v) => field@.len() >= 1 && all_digits(field@) && v == digits_val(field@)
                && v <= max,
            Option::None => field@.len() == 0 || !all_digits(field@) || digits_val(field@) > max,
        },
{
    let n = field.len();
    if n == 0 {
        return Option::None;
    }
    let mut acc: u64 = 0;
    let mut i: usize = 0;
    proof {
        assert(field@.subrange(0, 0) =~= Seq::<u8>::empty());
    }
    while i < n
        invariant
            n == field@.len(),
            i <= n,
            forall|t: int| 0 <= t < i ==> is_digit(#[trigger] field@[t]),
            acc == digits_val(field@.subrange(0, i as int)),
            acc <= max,
        decreases n - i,
    {
        let b = field[i];
        if b < 48 || b > 57 {
            proof {
                assert(!is_digit(field@[i as int]));
            }
            return Option::None;
        }
        let d = (b - 48) as u64;
        proof {
            let pre = field@.subrange(0, i as int);
            let cur = field@.subrange(0, i as int + 1);
            assert(cur.drop_last() =~= pre);
            assert(digits_val(cur) == acc * 10 + d);
        }
        if d > max || acc > (max - d) / 10 {
            proof {
                let q = ((max - d) / 10) as int;
                assert((max - d) as int == 10 * q + ((max - d) as int % 10));
                assert(acc * 10 + d > max);
                if all_digits(field@) {
                    lemma_digits_val_mono(field@, i as int + 1, n as int);
                    assert(field@.subrange(0, n as int) =~= field@);
                }
            }
            return Option::None;
        }
        proof {
            let q = ((max - d) / 10) as int;
            assert((max - d) as int == 10 * q + ((max - d) as int % 10));
            assert(acc * 10 + d <= max);
        }
        acc = acc * 10 + d;
        i = i + 1;
    }
    proof {
        assert(field@.subrange(0, n as int) =~= field@);
    }
    Option::Some(acc)
}

/// Reads a signed fixed-point coordinate, in thousandths, rejecting any
/// field that is not a decimal numeral or whose magnitude is too large.
fn parse_coord(field: &Vec<u8>) -> (r: Option<i64>)
    ensures
        match r {
            Option::Some(v) => coord_ok(field@) && v == coord_val(field@),
            Option::None => !coord_ok(field@),
        },
{
    let n = field.len();
    let neg = n >= 1 && field[0] == 45;
    let bstart: usize = if neg {
        1
    } else {
        0
    };
    let ghost body = coord_body(field@);
    proof {
        assert(body =~= field@.subrange(bstart as int, n as int));
    }
    // locate the first decimal point after the sign
    let mut dot: usize = n;
    let mut p: usize = bstart;
    while p < n
        invariant
            bstart <= p <= n,
            n == field@.len(),
            bstart <= n,
            dot == n || (bstart <= dot < p && field@[dot as int] == 46 && forall|t: int|
                bstart <= t < dot ==> field@[t] != 46),
            dot == n ==> forall|t: int| bstart <= t < p ==> field@[t] != 46,
        decreases n - p,
    {
        if field[p] == 46 && dot == n {
            dot = p;
        }
        p = p + 1;
    }
    let ghost d = first_dot(body, 0);
    proof {
        assert(forall|t: int| 0 <= t < body.len() ==> body[t] == field@[t + bstart]);
        if dot == n {
            lemma_first_dot_run(body, 0, body.len() as int);
            assert(d == body.len());
        } else {
            lemma_first_dot_run(body, 0, dot - bstart);
            assert(d == dot - bstart);
        }
    }
    // copy out the integer and fraction digits
    let ip_end: usize = if dot == n {
        n
    } else {
        dot
    };
    let mut ip_vec: Vec<u8> = Vec::new();
    let mut t: usize = bstart;
    while t < ip_end
        invariant
            bstart <= t <= ip_end <= n,
            n == field@.len(),
            ip_vec@.len() == t - bstart,
            forall|u: int| 0 <= u < ip_vec@.len() ==> ip_vec@[u] == field@[u + bstart],
        decreases ip_end - t,
    {
        ip_vec.push(field[t]);
        t = t + 1;
    }
    let mut fp_vec: Vec<u8> = Vec::new();
    let fstart: usize = if dot == n {
        n
    } else {
        dot + 1
    };
    let mut t2: usize = fstart;
    while t2 < n
        invariant
            fstart <= t2 <= n,
            n == field@.len(),
            fstart >= 1 || fstart == n,
            fp_vec@.len() == t2 - fstart,
            forall|u: int| 0 <= u < fp_vec@.len() ==> fp_vec@[u] == field@[u + fstart],
        decreases n - t2,
    {
        fp_vec.push(field[t2]);
        t2 = t2 + 1;
    }
    proof {
        assert(ip_vec@ =~= coord_int_part(field@));
        assert(fp_vec@ =~= coord_frac_part(field@));
    }
    // integer part: at most COORD_LIMIT thousandths means at most a million
    // whole units
    let ip_opt = parse_unsigned(&ip_vec, 1_000_000);
    let ipv: u64 = match ip_opt {
        Option::Some(v) => v,
        Option::None => {
            proof {
                if ip_vec@.len() >= 1 && all_digits(ip_vec@) {
                    // the integer part alone already exceeds the limit
                    if all_digits(fp_vec@) {
                        lemma_frac_mils_bounds(fp_vec@);
                        assert(digits_val(ip_vec@) * 1000 > 1_000_000_000) by (nonlinear_arith)
                            requires
                                digits_val(ip_vec@) > 1_000_000,
                        ;
                    }
                }
            }
            return Option::None;
        },
    };
    // fraction part: all digits, first three give the thousandths
    let fl = fp_vec.len();
    let mut t3: usize = 0;
    while t3 < fl
        invariant
            t3 <= fl,
            fl == fp_vec@.len(),
            fp_vec@ == coord_frac_part(field@),
            forall|u: int| 0 <= u < t3 ==> is_digit(#[trigger] fp_vec@[u]),
        decreases fl - t3,
    {
        let b = fp_vec[t3];
        if b < 48 || b > 57 {
            proof {
                assert(!is_digit(fp_vec@[t3 as int]));
            }
            return Option::None;
        }
        t3 = t3 + 1;
    }
    let m: u64 = if fl == 0 {
        0
    } else if fl == 1 {
        ((fp_vec[0] - 48) as u64) * 100
    } else if fl == 2 {
        ((fp_vec[0] - 48) as u64) * 10 * 10 + ((fp_vec[1] - 48) as u64) * 10
    } else {
        ((fp_vec[0] - 48) as u64) * 100 + ((fp_vec[1] - 48) as u64) * 10 + ((fp_vec[2]
            - 48) as u64)
    };
    proof {
        if fl <= 2 {
            lemma_digits_val_small(fp_vec@);
        } else {
            lemma_digits_val_small(fp_vec@.subrange(0, 3));
        }
        assert(m == frac_mils(fp_vec@));
    }
    let mag: u64 = ipv * 1000 + m;
    proof {
        assert(mag == coord_mag(field@));
    }
    if mag > 1_000_000_000 {
        return Option::None;
    }
    let v = mag as i64;
    if neg {
        Option::Some(-v)
    } else {
        Option::Some(v)
    }
}

/// The first three fraction digits stand for fewer than a thousand
/// thousandths.
proof fn lemma_frac_mils_bounds(fp: Seq<u8>)
    requires
        all_digits(fp),
    ensures
        0 <= frac_mils(fp) < 1000,
{
    lemma_digits_val_small(fp);
    if fp.len() >= 3 {
        let s3 = fp.subrange(0, 3);
        lemma_digits_val_small(s3);
    }
}

/// The cities described by the lines from index `i` on; the first bad
/// field, if any, decides the error.
pub open spec fn parse_lines_from(lines: Seq<Seq<u8>>, i: int) -> Result<Seq<City>, ParseError>
    decreases lines.len() - i,
{
    if i < 0 || i >= lines.len() {
        Result::Ok(Seq::empty())
    } else {
        match line_verdict(lines[i]) {
            LineVerdict::SkipLine => parse_lines_from(lines, i + 1),
            LineVerdict::Keep(c) => match parse_lines_from(lines, i + 1) {
                Result::Ok(rest) => Result::Ok(seq![c] + rest),
                Result::Err(e) => Result::Err(e),
            },
            LineVerdict::BadIdField => Result::Err(ParseError::BadId { line: i as usize }),
            LineVerdict::BadCoordField => Result::Err(
                ParseError::BadCoordinate { line: i as usize },
            ),
        }
    }
}

/// Splits a line into its whitespace-separated fields.
fn split_fields(line: &Vec<u8>) -> (fs: Vec<Vec<u8>>)
    ensures
        fs.deep_view() == fields_of(line@),
        forall|j: int| 0 <= j < fs@.len() ==> #[trigger] fs@[j]@ == fields_of(line@)[j],
{
    let n = line.len();
    let mut fs: Vec<Vec<u8>> = Vec::new();
    let mut cur: Vec<u8> = Vec::new();
    let mut pos: usize = 0;
    proof {
        assert(fs.deep_view() =~~= Seq::<Seq<u8>>::empty());
        assert(cur@ =~= Seq::<u8>::empty());
        assert(fields_of(line@) =~~= fs.deep_view() + fields_from(line@, 0, cur@));
    }
    while pos < n
        invariant
            pos <= n,
            n == line@.len(),
            fields_of(line@) == fs.deep_view() + fields_from(line@, pos as int, cur@),
        decreases n - pos,
    {
        let b = line[pos];
        let ghost old_fs = fs.deep_view();
        let ghost old_cur = cur@;
        if b == 32 || b == 9 || b == 13 {
            if cur.len() > 0 {
                fs.push(cur);
                cur = Vec::new();
                proof {
                    assert(cur@ =~= Seq::<u8>::empty());
                    assert(fs.deep_view() =~~= old_fs.push(old_cur));
                    assert(fields_from(line@, pos as int, old_cur) == seq![old_cur]
                        + fields_from(line@, pos as int + 1, cur@));
                    assert(old_fs + (seq![old_cur] + fields_from(line@, pos as int + 1, cur@))
                        =~~= fs.deep_view() + fields_from(line@, pos as int + 1, cur@));
                }
            } else {
                proof {
                    assert(cur@ =~= Seq::<u8>::empty());
                }
            }
        } else {
            cur.push(b);
            proof {
                assert(cur@ == old_cur.push(line@[pos as int]));
            }
        }
        pos = pos + 1;
    }
    if cur.len() > 0 {
        let ghost old_fs = fs.deep_view();
        let ghost old_cur = cur@;
        fs.push(cur);
        proof {
            assert(fs.deep_view() =~~= old_fs.push(old_cur));
            assert(fields_from(line@, n as int, old_cur) == seq![old_cur]);
            assert(old_fs + seq![old_cur] =~~= fs.deep_view());
            assert(fs.deep_view() + Seq::<Seq<u8>>::empty() =~~= fs.deep_view());
            assert(fields_of(line@) == fs.deep_view());
        }
    } else {
        proof {
            assert(cur@ =~= Seq::<u8>::empty());
            assert(fields_from(line@, n as int, cur@) =~~= Seq::<Seq<u8>>::empty());
            assert(fs.deep_view() + Seq::<Seq<u8>>::empty() =~~= fs.deep_view());
        }
    }
    proof {
        assert forall|j: int| 0 <= j < fs@.len() implies #[trigger] fs@[j]@ == fields_of(
            line@,
        )[j] by {
            assert(fs.deep_view()[j] == fs@[j].deep_view());
            assert(fs@[j].deep_view() =~= fs@[j]@);
        }
    }
    fs
}

/// Reads a city list. Each line with at least three whitespace-separated
/// fields must hold an identifier and two coordinates; lines with fewer
/// fields are skipped, and the first malformed field is reported with its
/// line. Every accepted city has coordinates within `COORD_LIMIT`.
pub fn parse_cities(lines: &Vec<Vec<u8>>) -> (r: Result<Vec<City>, ParseError>)
    ensures
        match r {
            Result::Ok(cities) => parse_lines_from(lines.deep_view(), 0) == Result::<
                Seq<City>,
                ParseError,
            >::Ok(cities@) && forall|i: int|
                0 <= i < cities@.len() ==> city_wf(#[trigger] cities@[i]),
            Result::Err(e) => parse_lines_from(lines.deep_view(), 0) == Result::<
                Seq<City>,
                ParseError,
            >::Err(e),
        },
{
    let n = lines.len();
    let ghost lv = lines.deep_view();
    proof {
        assert(lv.len() == n) by {
            assert(lines.deep_view().len() == lines@.len());
        }
    }
    let mut cities: Vec<City> = Vec::new();
    let mut i: usize = 0;
    while i < n
        invariant
            i <= n,
            n == lines@.len(),
            lv == lines.deep_view(),
            lv.len() == n,
            forall|k: int| 0 <= k < cities@.len() ==> city_wf(#[trigger] cities@[k]),
            parse_lines_from(lv, 0) == (match parse_lines_from(lv, i as int) {
                Result::Ok(rest) => Result::<Seq<City>, ParseError>::Ok(cities@ + rest),
                Result::Err(e) => Result::<Seq<City>, ParseError>::Err(e),
            }),
        decreases n - i,
    {
        let fs = split_fields(&lines[i]);
        proof {
            assert(lines.deep_view()[i as int] == lines@[i as int].deep_view());
            assert(lines@[i as int].deep_view() =~= lines@[i as int]@);
            assert(fs.deep_view() == fields_of(lv[i as int]));
        }
        let ghost specfs = fields_of(lv[i as int]);
        if fs.len() >= 3 {
            let id_opt = parse_unsigned(&fs[0], usize::MAX as u64);
            let id: usize = match id_opt {
                Option::Some(v) => v as usize,
                Option::None => {
                    proof {
                        assert(!id_ok(specfs[0]));
                        assert(line_verdict(lv[i as int]) == LineVerdict::BadIdField);
                    }
                    return Result::Err(ParseError::BadId { line: i });
                },
            };
            let x: i64 = match parse_coord(&fs[1]) {
                Option::Some(v) => v,
                Option::None => {
                    proof {
                        assert(!coord_ok(specfs[1]));
                        assert(line_verdict(lv[i as int]) == LineVerdict::BadCoordField);
                    }
                    return Result::Err(ParseError::BadCoordinate { line: i });
                },
            };
            let y: i64 = match parse_coord(&fs[2]) {
                Option::Some(v) => v,
                Option::None => {
                    proof {
                        assert(!coord_ok(specfs[2]));
                        assert(line_verdict(lv[i as int]) == LineVerdict::BadCoordField);
                    }
                    return Result::Err(ParseError::BadCoordinate { line: i });
                },
            };
            let city = City { id, x, y };
            let ghost old_cities = cities@;
            cities.push(city);
            proof {
                assert(line_verdict(lv[i as int]) == LineVerdict::Keep(city));
                assert(city_wf(city)) by {
                    lemma_frac_mils_bounds(coord_frac_part(specfs[1]));
                    lemma_digits_val_nonneg(coord_int_part(specfs[1]));
                    lemma_frac_mils_bounds(coord_frac_part(specfs[2]));
                    lemma_digits_val_nonneg(coord_int_part(specfs[2]));
                }
                assert forall|rest: Seq<City>| true implies old_cities + (seq![city] + rest)
                    =~= cities@ + rest by {}
            }
        } else {
            proof {
                assert(line_verdict(lv[i as int]) == LineVerdict::SkipLine);
            }
        }
        i = i + 1;
    }
    proof {
        assert(parse_lines_from(lv, n as int) == Result::<Seq<City>, ParseError>::Ok(
            Seq::empty(),
        ));
        assert(cities@ + Seq::<City>::empty() =~= cities@);
    }
    Result::Ok(cities)
}

} // verus!
