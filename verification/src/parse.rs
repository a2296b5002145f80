use vstd::prelude::*;

use crate::record::{Point, Triangle};

verus! {

/// Why a piece of record text was refused.
#[derive(Clone, Copy, Debug, PartialEq, Eq, Structural)]
pub enum ParseError {
    /// Not an integer, or not two integers, or not three points.
    BadShape,
    /// A coordinate that does not fit a 32-bit integer.
    OutOfRange,
}

pub open spec fn is_digit(c: u8) -> bool {
    48 <= c <= 57
}

pub open spec fn all_digits(s: Seq<u8>) -> bool {
    forall|i: int| 0 <= i < s.len() ==> is_digit(#[trigger] s[i])
}

/// The number a string of decimal digits spells.
pub open spec fn digits_val(s: Seq<u8>) -> int
    decreases s.len(),
{
    if s.len() == 0 {
        0
    } else {
        digits_val(s.drop_last()) * 10 + (s.last() - 48)
    }
}

/// Integer text: an optional sign, then at least one digit.
pub open spec fn int_text_ok(s: Seq<u8>) -> bool {
    if s.len() == 0 {
        false
    } else if s[0] == 43 || s[0] == 45 {
        s.len() >= 2 && all_digits(s.skip(1))
    } else {
        all_digits(s)
    }
}

/// The value integer text spells.
pub open spec fn int_text_val(s: Seq<u8>) -> int {
    if s.len() > 0 && s[0] == 45 {
        -digits_val(s.skip(1))
    } else if s.len() > 0 && s[0] == 43 {
        digits_val(s.skip(1))
    } else {
        digits_val(s)
    }
}

pub proof fn lemma_digits_val_nonneg(s: Seq<u8>)
    requires
        all_digits(s),
    ensures
        digits_val(s) >= 0,
    decreases s.len(),
{
    if s.len() > 0 {
        assert(all_digits(s.drop_last())) by {
            assert(forall|i: int| 0 <= i < s.len() - 1 ==> s.drop_last()[i] == s[i]);
        }
        lemma_digits_val_nonneg(s.drop_last());
    }
}

/// Parses decimal integer text into a 32-bit integer. Succeeds exactly on
/// well-shaped text whose value fits.
pub fn parse_i32(s: &[u8]) -> (r: Result<i32, ParseError>)
    ensures
        r is Ok <==> int_text_ok(s@) && -0x80000000 <= int_text_val(s@) < 0x80000000,
        r is Ok ==> r->Ok_0 as int == int_text_val(s@),
        !(r is Ok) && int_text_ok(s@) ==> r == Err::<i32, ParseError>(ParseError::OutOfRange),
        !int_text_ok(s@) ==> r == Err::<i32, ParseError>(ParseError::BadShape),
{
    if s.len() == 0 {
        return Err(ParseError::BadShape);
    }
    let (neg, start): (bool, usize) = if s[0] == 45 {
        (true, 1)
    } else if s[0] == 43 {
        (false, 1)
    } else {
        (false, 0)
    };
    if s.len() == start {
        return Err(ParseError::BadShape);
    }
    proof {
        assert(start == 0 ==> s@[0] != 45 && s@[0] != 43);
        assert(start == 1 ==> s@[0] == 45 || s@[0] == 43);
    }
    let ghost digits = s@.skip(start as int);
    let mut acc: i64 = 0;
    let mut i: usize = start;
    proof {
        assert(digits.take(0) =~= Seq::<u8>::empty());
    }
    while i < s.len()
        invariant
            start <= i <= s@.len(),
            start <= 1,
            start < s@.len(),
            start == 0 ==> s@[0] != 45 && s@[0] != 43,
            start == 1 ==> s@[0] == 45 || s@[0] == 43,
            digits == s@.skip(start as int),
            all_digits(digits.take(i - start)),
            digits_val(digits.take(i - start)) <= 0x80000000 ==> acc as int == digits_val(
                digits.take(i - start),
            ),
            digits_val(digits.take(i - start)) > 0x80000000 ==> acc as int == 0x80000001,
            0 <= acc as int <= 0x80000001,
        decreases s@.len() - i,
    {
        let c = s[i];
        if c < 48 || c > 57 {
            proof {
                assert(digits[i - start] == s@[i as int]);
                assert(!is_digit(digits[i - start]));
                assert(!all_digits(digits));
                if start == 0 {
                    assert(digits =~= s@);
                } else {
                    assert(digits =~= s@.skip(1));
                }
            }
            return Err(ParseError::BadShape);
        }
        let d = (c - 48) as i64;
        proof {
            assert(digits.take(i - start + 1).drop_last() =~= digits.take(i - start));
            assert(digits.take(i - start + 1).last() == s@[i as int]);
            lemma_digits_val_nonneg(digits.take(i - start));
        }
        if acc <= 0x80000000 {
            acc = acc * 10 + d;
            if acc > 0x80000000 {
                acc = 0x80000001;
            }
        }
        i += 1;
    }
    proof {
        assert(digits.take(i - start) =~= digits);
        if start == 0 {
            assert(digits =~= s@);
            assert(int_text_val(s@) == digits_val(digits));
            assert(int_text_ok(s@));
        } else {
            assert(digits =~= s@.skip(1));
            assert(int_text_ok(s@));
            if s@[0] == 45 {
                assert(int_text_val(s@) == -digits_val(digits));
            } else {
                assert(int_text_val(s@) == digits_val(digits));
            }
        }
        lemma_digits_val_nonneg(digits);
    }
    if neg {
        if acc <= 0x80000000 {
            Ok((-acc) as i32)
        } else {
            Err(ParseError::OutOfRange)
        }
    } else {
        if acc <= 0x7FFFFFFF {
            Ok(acc as i32)
        } else {
            Err(ParseError::OutOfRange)
        }
    }
}


pub open spec fn is_paren(c: u8) -> bool {
    c == 40 || c == 41
}

/// How many leading bracket characters the trim drops.
pub open spec fn lead_trim(s: Seq<u8>) -> int
    decreases s.len(),
{
    if s.len() > 0 && is_paren(s[0]) {
        1 + lead_trim(s.skip(1))
    } else {
        0
    }
}

/// How many trailing bracket characters the trim drops.
pub open spec fn tail_trim(s: Seq<u8>) -> int
    decreases s.len(),
{
    if s.len() > 0 && is_paren(s.last()) {
        1 + tail_trim(s.drop_last())
    } else {
        0
    }
}

/// The text with brackets stripped from both ends: first the leading ones,
/// then the trailing ones of what is left.
pub open spec fn trimmed(s: Seq<u8>) -> Seq<u8> {
    let t = s.skip(lead_trim(s));
    t.take(t.len() - tail_trim(t))
}

pub open spec fn comma_count(s: Seq<u8>) -> int
    decreases s.len(),
{
    if s.len() == 0 {
        0
    } else {
        comma_count(s.drop_last()) + if s.last() == 44 {
            1int
        } else {
            0int
        }
    }
}

/// The position of the first comma; the length when there is none.
pub open spec fn first_comma(s: Seq<u8>) -> int
    decreases s.len(),
{
    if s.len() == 0 {
        0
    } else if s[0] == 44 {
        0
    } else {
        1 + first_comma(s.skip(1))
    }
}

/// Point text: brackets trimmed, exactly one comma, integer text on both
/// sides of it.
pub open spec fn point_shape_ok(s: Seq<u8>) -> bool {
    let t = trimmed(s);
    let p = first_comma(t);
    &&& comma_count(t) == 1
    &&& int_text_ok(t.take(p))
    &&& int_text_ok(t.skip(p + 1))
}

pub open spec fn point_range_ok(s: Seq<u8>) -> bool {
    let t = trimmed(s);
    let p = first_comma(t);
    &&& -0x80000000 <= int_text_val(t.take(p)) < 0x80000000
    &&& -0x80000000 <= int_text_val(t.skip(p + 1)) < 0x80000000
}

/// The point the text spells.
pub open spec fn point_of(s: Seq<u8>) -> Point {
    let t = trimmed(s);
    let p = first_comma(t);
    Point { x: int_text_val(t.take(p)) as i32, y: int_text_val(t.skip(p + 1)) as i32 }
}

/// Copies a window of a byte string.
fn sub_bytes(s: &[u8], from: usize, to: usize) -> (v: Vec<u8>)
    requires
        from <= to <= s@.len(),
    ensures
        v@ == s@.subrange(from as int, to as int),
{
    let mut v: Vec<u8> = Vec::new();
    let mut i = from;
    proof {
        assert(v@ =~= s@.subrange(from as int, from as int));
    }
    while i < to
        invariant
            from <= i <= to <= s@.len(),
            v@ == s@.subrange(from as int, i as int),
        decreases to - i,
    {
        v.push(s[i]);
        proof {
            assert(v@.drop_last() == s@.subrange(from as int, i as int));
            assert(v@ =~= s@.subrange(from as int, i as int + 1));
        }
        i += 1;
    }
    v
}

impl Point {
    /// Parses point text of the shape `(x,y)`: brackets are trimmed from
    /// both ends, the two coordinates sit on either side of one comma.
    pub fn parse(s: &[u8]) -> (r: Result<Point, ParseError>)
        ensures
            r is Ok <==> point_shape_ok(s@) && point_range_ok(s@),
            r is Ok ==> r->Ok_0 == point_of(s@),
            !point_shape_ok(s@) ==> r == Err::<Point, ParseError>(ParseError::BadShape),
            point_shape_ok(s@) && !point_range_ok(s@) ==> r == Err::<Point, ParseError>(
                ParseError::OutOfRange,
            ),
    {
        let n = s.len();
        let mut a: usize = 0;
        proof {
            assert(s@.skip(0) =~= s@);
        }
        while a < n && (s[a] == 40 || s[a] == 41)
            invariant
                n == s@.len(),
                a <= n,
                lead_trim(s@) == a + lead_trim(s@.skip(a as int)),
            decreases n - a,
        {
            proof {
                assert(s@.skip(a as int)[0] == s@[a as int]);
                assert(s@.skip(a as int).skip(1) =~= s@.skip(a as int + 1));
            }
            a += 1;
        }
        proof {
            if a < n {
                assert(s@.skip(a as int)[0] == s@[a as int]);
            }
            assert(lead_trim(s@.skip(a as int)) == 0);
            assert(lead_trim(s@) == a as int);
        }
        let ghost t_full = s@.skip(a as int);
        let mut b: usize = n;
        proof {
            assert(t_full.take(n - a) =~= t_full);
        }
        while b > a && (s[b - 1] == 40 || s[b - 1] == 41)
            invariant
                n == s@.len(),
                a <= b <= n,
                t_full == s@.skip(a as int),
                tail_trim(t_full) == (n - b) + tail_trim(t_full.take(b - a)),
            decreases b,
        {
            proof {
                assert(t_full.take(b - a).last() == s@[b - 1]);
                assert(t_full.take(b - a).drop_last() =~= t_full.take(b - 1 - a));
            }
            b -= 1;
        }
        proof {
            if b > a {
                assert(t_full.take(b - a).last() == s@[b - 1]);
            } else {
                assert(t_full.take(0) =~= Seq::<u8>::empty());
            }
            assert(tail_trim(t_full.take(b - a)) == 0);
            assert(tail_trim(t_full) == n - b);
            assert(trimmed(s@) =~= s@.subrange(a as int, b as int));
        }
        let ghost t = trimmed(s@);
        // find the single comma
        let mut commas: usize = 0;
        let mut p: usize = b;
        let mut j: usize = a;
        proof {
            assert(t.take(0) =~= Seq::<u8>::empty());
        }
        while j < b
            invariant
                a <= j <= b <= n,
                n == s@.len(),
                t == s@.subrange(a as int, b as int),
                t == trimmed(s@),
                commas as int == comma_count(t.take(j - a)),
                commas as int <= j - a,
                commas == 0 ==> p == b && first_comma(t.take(j - a)) == j - a,
                commas > 0 ==> a <= p < j && s@[p as int] == 44 && first_comma(t) == p - a,
            decreases b - j,
        {
            proof {
                assert(t.take(j - a + 1).drop_last() =~= t.take(j - a));
                assert(t.take(j - a + 1).last() == s@[j as int]);
            }
            if s[j] == 44 {
                if commas == 0 {
                    p = j;
                    proof {
                        lemma_first_comma_found(t, j - a);
                    }
                }
                commas += 1;
            } else {
                proof {
                    if commas == 0 {
                        lemma_first_comma_extend(t, j - a);
                    }
                }
            }
            j += 1;
        }
        proof {
            assert(t.take(j - a) =~= t);
        }
        if commas != 1 {
            return Err(ParseError::BadShape);
        }
        let left = sub_bytes(s, a, p);
        let right = sub_bytes(s, p + 1, b);
        proof {
            assert(left@ =~= t.take(first_comma(t)));
            assert(right@ =~= t.skip(first_comma(t) + 1));
        }
        let x = Point::parse_side(left.as_slice());
        let y = Point::parse_side(right.as_slice());
        match (x, y) {
            (Ok(x), Ok(y)) => Ok(Point { x, y }),
            (Err(ParseError::BadShape), _) => Err(ParseError::BadShape),
            (_, Err(ParseError::BadShape)) => Err(ParseError::BadShape),
            _ => Err(ParseError::OutOfRange),
        }
    }

    /// One coordinate of the point text.
    fn parse_side(s: &[u8]) -> (r: Result<i32, ParseError>)
        ensures
            r is Ok <==> int_text_ok(s@) && -0x80000000 <= int_text_val(s@) < 0x80000000,
            r is Ok ==> r->Ok_0 as int == int_text_val(s@),
            !(r is Ok) && int_text_ok(s@) ==> r == Err::<i32, ParseError>(ParseError::OutOfRange),
            !int_text_ok(s@) ==> r == Err::<i32, ParseError>(ParseError::BadShape),
    {
        parse_i32(s)
    }
}

/// Once the first comma is found, it stays the first.
proof fn lemma_first_comma_found(t: Seq<u8>, j: int)
    requires
        0 <= j < t.len(),
        t[j] == 44,
        first_comma(t.take(j)) == j,
        comma_count(t.take(j)) == 0,
    ensures
        first_comma(t) == j,
    decreases j,
{
    if j == 0 {
    } else {
        assert(t.take(j)[0] == t[0]);
        assert(t[0] != 44) by {
            if t[0] == 44 {
                assert(first_comma(t.take(j)) == 0);
            }
        }
        assert(t.skip(1).take(j - 1) =~= t.take(j).skip(1));
        assert(first_comma(t.take(j)) == 1 + first_comma(t.take(j).skip(1)));
        assert(comma_count(t.take(j).drop_last()) >= 0) by {
            lemma_comma_count_nonneg(t.take(j).drop_last());
        }
        assert(comma_count(t.take(j).skip(1)) == 0) by {
            lemma_comma_count_split(t.take(j));
        }
        assert(t.skip(1)[j - 1] == t[j]);
        lemma_first_comma_found(t.skip(1), j - 1);
    }
}

/// Before any comma, the first-comma mark moves with the scan.
proof fn lemma_first_comma_extend(t: Seq<u8>, j: int)
    requires
        0 <= j < t.len(),
        t[j] != 44,
        first_comma(t.take(j)) == j,
    ensures
        first_comma(t.take(j + 1)) == j + 1,
    decreases j,
{
    if j == 0 {
        assert(t.take(1)[0] == t[0]);
        assert(first_comma(t.take(1)) == 1 + first_comma(t.take(1).skip(1)));
        assert(t.take(1).skip(1) =~= Seq::<u8>::empty());
    } else {
        assert(t.take(j)[0] == t[0]);
        assert(t[0] != 44) by {
            if t[0] == 44 {
                assert(first_comma(t.take(j)) == 0);
            }
        }
        assert(t.skip(1).take(j - 1) =~= t.take(j).skip(1));
        assert(t.skip(1).take(j) =~= t.take(j + 1).skip(1));
        assert(t.skip(1)[j - 1] == t[j]);
        lemma_first_comma_extend(t.skip(1), j - 1);
        assert(t.take(j + 1)[0] == t[0]);
    }
}

proof fn lemma_comma_count_nonneg(t: Seq<u8>)
    ensures
        comma_count(t) >= 0,
    decreases t.len(),
{
    if t.len() > 0 {
        lemma_comma_count_nonneg(t.drop_last());
    }
}

/// The comma count splits around the first character.
proof fn lemma_comma_count_split(t: Seq<u8>)
    requires
        t.len() > 0,
    ensures
        comma_count(t) == (if t[0] == 44 {
            1int
        } else {
            0int
        }) + comma_count(t.skip(1)),
    decreases t.len(),
{
    if t.len() == 1 {
        assert(t.drop_last() =~= Seq::<u8>::empty());
        assert(t.skip(1) =~= Seq::<u8>::empty());
    } else {
        lemma_comma_count_split(t.drop_last());
        assert(t.drop_last()[0] == t[0]);
        assert(t.skip(1).drop_last() =~= t.drop_last().skip(1));
        assert(t.skip(1).last() == t.last());
    }
}


/// The bracket scan of triangle text: characters between `(` and `)` are
/// collected into up to three point texts (brackets included); a closing
/// bracket moves to the next; anything outside brackets is ignored. A
/// fourth group refuses the text.
pub open spec fn scan3(s: Seq<u8>, idx: int, inside: bool, gs: Seq<Seq<u8>>) -> Option<
    Seq<Seq<u8>>,
>
    decreases s.len(),
{
    if s.len() == 0 {
        Some(gs)
    } else {
        let c = s[0];
        if c == 40 {
            if idx >= 3 {
                None
            } else {
                scan3(s.skip(1), idx, true, gs.update(idx, gs[idx].push(c)))
            }
        } else if c == 41 {
            if idx >= 3 {
                None
            } else {
                scan3(s.skip(1), idx + 1, false, gs.update(idx, gs[idx].push(c)))
            }
        } else if inside {
            if idx >= 3 {
                None
            } else {
                scan3(s.skip(1), idx, inside, gs.update(idx, gs[idx].push(c)))
            }
        } else {
            scan3(s.skip(1), idx, inside, gs)
        }
    }
}

pub open spec fn empty_groups() -> Seq<Seq<u8>> {
    seq![Seq::<u8>::empty(), Seq::<u8>::empty(), Seq::<u8>::empty()]
}

/// Triangle text: three bracketed points.
pub open spec fn triangle_groups(s: Seq<u8>) -> Option<Seq<Seq<u8>>> {
    scan3(s, 0, false, empty_groups())
}

impl Triangle {
    /// Parses triangle text of the shape `{(x,y),(x,y),(x,y)}`: the three
    /// bracketed groups become the corners, whatever stands between them.
    pub fn parse(s: &[u8]) -> (r: Result<Triangle, ParseError>)
        ensures
            r is Ok <==> ({
                &&& triangle_groups(s@) is Some
                &&& ({
                    let gs = triangle_groups(s@)->Some_0;
                    &&& point_shape_ok(gs[0]) && point_range_ok(gs[0])
                    &&& point_shape_ok(gs[1]) && point_range_ok(gs[1])
                    &&& point_shape_ok(gs[2]) && point_range_ok(gs[2])
                })
            }),
            r is Ok ==> ({
                let gs = triangle_groups(s@)->Some_0;
                r->Ok_0 == Triangle { a: point_of(gs[0]), b: point_of(gs[1]), c: point_of(gs[2]) }
            }),
            triangle_groups(s@) is None ==> r == Err::<Triangle, ParseError>(ParseError::BadShape),
    {
        let mut g0: Vec<u8> = Vec::new();
        let mut g1: Vec<u8> = Vec::new();
        let mut g2: Vec<u8> = Vec::new();
        let mut idx: usize = 0;
        let mut inside = false;
        let mut i: usize = 0;
        proof {
            assert(s@.skip(0) =~= s@);
            assert(seq![g0@, g1@, g2@] =~= empty_groups());
        }
        while i < s.len()
            invariant
                i <= s@.len(),
                idx <= 3,
                triangle_groups(s@) == scan3(
                    s@.skip(i as int),
                    idx as int,
                    inside,
                    seq![g0@, g1@, g2@],
                ),
            decreases s@.len() - i,
        {
            let c = s[i];
            proof {
                assert(s@.skip(i as int)[0] == s@[i as int]);
                assert(s@.skip(i as int).skip(1) =~= s@.skip(i as int + 1));
            }
            if c == 40 || c == 41 || inside {
                if idx >= 3 {
                    proof {
                        assert(triangle_groups(s@) is None);
                    }
                    return Err(ParseError::BadShape);
                }
                let ghost pre = seq![g0@, g1@, g2@];
                if idx == 0 {
                    g0.push(c);
                } else if idx == 1 {
                    g1.push(c);
                } else {
                    g2.push(c);
                }
                proof {
                    assert(seq![g0@, g1@, g2@] =~= pre.update(idx as int, pre[idx as int].push(
                        c,
                    )));
                }
                if c == 40 {
                    inside = true;
                } else if c == 41 {
                    inside = false;
                    idx += 1;
                }
            }
            i += 1;
        }
        proof {
            assert(s@.skip(i as int) =~= Seq::<u8>::empty());
            assert(triangle_groups(s@) == Some(seq![g0@, g1@, g2@]));
        }
        let pa = Point::parse(g0.as_slice());
        let pb = Point::parse(g1.as_slice());
        let pc = Point::parse(g2.as_slice());
        match (pa, pb, pc) {
            (Ok(a), Ok(b), Ok(c)) => Ok(Triangle { a, b, c }),
            (Err(ParseError::BadShape), _, _) => Err(ParseError::BadShape),
            (_, Err(ParseError::BadShape), _) => Err(ParseError::BadShape),
            (_, _, Err(ParseError::BadShape)) => Err(ParseError::BadShape),
            _ => Err(ParseError::OutOfRange),
        }
    }
}

} // verus!
