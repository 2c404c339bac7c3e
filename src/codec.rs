//! The text protocol: decimal integers, `x:y` positions, comma-separated
//! position lists and the framing bytes around them, all over raw bytes.
use vstd::prelude::*;
use vstd::string::StringSliceAdditionalSpecFns;

verus! {

/// A grid position: column and row.
pub type Point = (i32, i32);

/// `0`
pub const ZERO: u8 = 48;
/// `-`
pub const MINUS: u8 = 45;
/// `+`
pub const PLUS: u8 = 43;
/// `:` separates the two coordinates of a position.
pub const COLON: u8 = 58;
/// `,` separates the positions of a list.
pub const COMMA: u8 = 44;
/// `;` ends a message from the server.
pub const SEMICOLON: u8 = 59;
/// `\n` ends a record sent by a peer.
pub const NEWLINE: u8 = 10;

/// A position text that does not spell a pair of 32-bit integers.
#[derive(Debug, Clone, Copy, PartialEq, Eq, Structural)]
pub struct ParseError;

pub open spec fn is_digit(b: u8) -> bool {
    ZERO <= b <= ZERO + 9
}

pub open spec fn all_digits(s: Seq<u8>) -> bool {
    forall|i: int| 0 <= i < s.len() ==> is_digit(#[trigger] s[i])
}

/// The value of a string of decimal digits.
pub open spec fn digits_value(s: Seq<u8>) -> int
    decreases s.len(),
{
    if s.len() == 0 {
        0
    } else {
        digits_value(s.drop_last()) * 10 + (s.last() - ZERO)
    }
}

/// The integer that `s` spells: one or more decimal digits, after an
/// optional sign.
pub open spec fn int_of(s: Seq<u8>) -> Option<int> {
    if s.len() > 0 && (s[0] == MINUS || s[0] == PLUS) {
        let d = s.drop_first();
        if d.len() > 0 && all_digits(d) {
            Some(if s[0] == MINUS { -digits_value(d) } else { digits_value(d) })
        } else {
            None
        }
    } else if s.len() > 0 && all_digits(s) {
        Some(digits_value(s))
    } else {
        None
    }
}

/// The 32-bit integer that `s` spells, if it spells one in range.
pub open spec fn i32_of(s: Seq<u8>) -> Option<i32> {
    match int_of(s) {
        Some(v) => if i32::MIN <= v <= i32::MAX {
            Some(v as i32)
        } else {
            None
        },
        None => None,
    }
}

/// Two to the power 31: the magnitude of `i32::MIN`.
const MAGNITUDE_LIMIT: u64 = 2147483648;

/// Parses a signed decimal integer that fits in 32 bits.
pub fn parse_i32(t: &[u8]) -> (r: Option<i32>)
    ensures
        r == i32_of(t@),
{
    let n = t.len();
    if n == 0 {
        return None;
    }
    let negative = t[0] == MINUS;
    let start: usize = if t[0] == MINUS || t[0] == PLUS { 1 } else { 0 };
    if start == n {
        return None;
    }
    let ghost d = t@.subrange(start as int, n as int);
    proof {
        if start == 1 {
            assert(d =~= t@.drop_first());
        } else {
            assert(d =~= t@);
        }
        assert(d.len() > 0);
    }
    let mut value: u64 = 0;
    let mut big = false;
    let mut i: usize = start;
    while i < n
        invariant
            start <= i <= n,
            n == t@.len(),
            start < n,
            d == t@.subrange(start as int, n as int),
            int_of(t@) == (if all_digits(d) {
                Some(if negative { -digits_value(d) } else { digits_value(d) })
            } else {
                None::<int>
            }),
            all_digits(t@.subrange(start as int, i as int)),
            !big ==> value == digits_value(t@.subrange(start as int, i as int)) && value
                <= MAGNITUDE_LIMIT,
            big ==> digits_value(t@.subrange(start as int, i as int)) > MAGNITUDE_LIMIT,
        decreases n - i,
    {
        let b = t[i];
        if !(ZERO <= b && b <= ZERO + 9) {
            proof {
                assert(d[i - start] == b);
                assert(!all_digits(d));
            }
            return None;
        }
        let ghost prev = t@.subrange(start as int, i as int);
        let ghost next = t@.subrange(start as int, i + 1);
        proof {
            assert(next.drop_last() =~= prev);
            assert(next.last() == b);
            assert(all_digits(next)) by {
                assert forall|j: int| 0 <= j < next.len() implies is_digit(#[trigger] next[j]) by {
                    if j < prev.len() {
                        assert(next[j] == prev[j]);
                    }
                }
            }
        }
        if !big {
            let step = value * 10 + (b - ZERO) as u64;
            if step > MAGNITUDE_LIMIT {
                big = true;
            } else {
                value = step;
            }
        } else {
            proof {
                let pv = digits_value(prev);
                assert(pv * 10 >= pv) by (nonlinear_arith)
                    requires
                        pv > MAGNITUDE_LIMIT,
                ;
            }
        }
        i += 1;
    }
    proof {
        assert(t@.subrange(start as int, n as int) == d);
    }
    if big {
        return None;
    }
    if negative {
        Some((-(value as i64)) as i32)
    } else if value <= 2147483647 {
        Some(value as i32)
    } else {
        None
    }
}


/// The index of the first colon in `s`, or its length where it has none.
pub open spec fn first_colon(s: Seq<u8>) -> int
    decreases s.len(),
{
    if s.len() == 0 {
        0
    } else if s[0] == COLON {
        0
    } else {
        1 + first_colon(s.drop_first())
    }
}

/// `s` with every colon taken out.
pub open spec fn without_colons(s: Seq<u8>) -> Seq<u8>
    decreases s.len(),
{
    if s.len() == 0 {
        s
    } else if s.last() == COLON {
        without_colons(s.drop_last())
    } else {
        without_colons(s.drop_last()).push(s.last())
    }
}

/// The position that `s` spells: the column is the text before the first
/// colon, the row the text after it with any further colons dropped.
pub open spec fn point_of(s: Seq<u8>) -> Option<Point> {
    let k = first_colon(s);
    if k < s.len() {
        match (i32_of(s.take(k)), i32_of(without_colons(s.skip(k + 1)))) {
            (Some(x), Some(y)) => Some((x, y)),
            _ => None,
        }
    } else {
        None
    }
}

proof fn lemma_first_colon_at(s: Seq<u8>, k: int)
    requires
        0 <= k < s.len(),
        s[k] == COLON,
        forall|j: int| 0 <= j < k ==> s[j] != COLON,
    ensures
        first_colon(s) == k,
    decreases k,
{
    if k > 0 {
        lemma_first_colon_at(s.drop_first(), k - 1);
    }
}

proof fn lemma_first_colon_none(s: Seq<u8>)
    requires
        forall|j: int| 0 <= j < s.len() ==> s[j] != COLON,
    ensures
        first_colon(s) == s.len(),
    decreases s.len(),
{
    if s.len() > 0 {
        lemma_first_colon_none(s.drop_first());
    }
}

/// Decodes one `x:y` position.
pub fn decode_point(t: &[u8]) -> (r: Result<Point, ParseError>)
    ensures
        match r {
            Ok(p) => point_of(t@) == Some(p),
            Err(_) => point_of(t@) is None,
        },
{
    let n = t.len();
    let mut head: Vec<u8> = Vec::new();
    let mut tail: Vec<u8> = Vec::new();
    let mut seen = false;
    let ghost mut k: int = 0;
    let mut i: usize = 0;
    while i < n
        invariant
            i <= n,
            n == t@.len(),
            !seen ==> (forall|j: int| 0 <= j < i ==> t@[j] != COLON) && head@ == t@.take(i as int)
                && tail@.len() == 0,
            seen ==> 0 <= k < i && t@[k] == COLON && (forall|j: int| 0 <= j < k ==> t@[j] != COLON)
                && head@ == t@.take(k) && tail@ == without_colons(t@.subrange(k + 1, i as int)),
        decreases n - i,
    {
        let b = t[i];
        let ghost before = t@.subrange(k + 1, i as int);
        if b == COLON {
            if !seen {
                seen = true;
                proof {
                    k = i as int;
                    assert(t@.subrange(k + 1, i + 1) =~= Seq::<u8>::empty());
                }
            } else {
                proof {
                    assert(t@.subrange(k + 1, i + 1).drop_last() =~= before);
                }
            }
        } else if seen {
            tail.push(b);
            proof {
                assert(t@.subrange(k + 1, i + 1).drop_last() =~= before);
            }
        } else {
            head.push(b);
            proof {
                assert(t@.take(i + 1) =~= t@.take(i as int).push(b));
            }
        }
        i += 1;
    }
    if !seen {
        proof {
            lemma_first_colon_none(t@);
        }
        return Err(ParseError);
    }
    proof {
        lemma_first_colon_at(t@, k);
        assert(t@.subrange(k + 1, n as int) =~= t@.skip(k + 1));
    }
    match (parse_i32(head.as_slice()), parse_i32(tail.as_slice())) {
        (Some(x), Some(y)) => Ok((x, y)),
        _ => Err(ParseError),
    }
}


/// The decimal digits of `n`, most significant first, with no leading zero.
pub open spec fn digits_of(n: nat) -> Seq<u8>
    decreases n,
{
    if n < 10 {
        seq![(ZERO + n) as u8]
    } else {
        digits_of(n / 10).push((ZERO + n % 10) as u8)
    }
}

/// The decimal text of `v`, with a minus sign where it is negative.
pub open spec fn int_text(v: int) -> Seq<u8> {
    if v < 0 {
        seq![MINUS] + digits_of((-v) as nat)
    } else {
        digits_of(v as nat)
    }
}

/// The text of one position: `x:y`.
pub open spec fn point_text(p: Point) -> Seq<u8> {
    int_text(p.0 as int) + seq![COLON] + int_text(p.1 as int)
}

/// The text of a position list: each position followed by a comma.
pub open spec fn list_text(ps: Seq<Point>) -> Seq<u8>
    decreases ps.len(),
{
    if ps.len() == 0 {
        Seq::empty()
    } else {
        list_text(ps.drop_last()) + point_text(ps.last()) + seq![COMMA]
    }
}

/// The message that the server writes for a snapshot: the list, then `;`.
pub open spec fn message_text(ps: Seq<Point>) -> Seq<u8> {
    list_text(ps) + seq![SEMICOLON]
}

/// The record that a peer sends for its own position: `x:y` and a newline.
pub open spec fn record_text(p: Point) -> Seq<u8> {
    point_text(p) + seq![NEWLINE]
}

fn push_digits(out: &mut Vec<u8>, n: u32)
    ensures
        final(out)@ == old(out)@ + digits_of(n as nat),
    decreases n,
{
    if n >= 10 {
        push_digits(out, n / 10);
    }
    out.push(ZERO + (n % 10) as u8);
    proof {
        assert(final(out)@ =~= old(out)@ + digits_of(n as nat));
    }
}

fn push_int(out: &mut Vec<u8>, v: i32)
    ensures
        final(out)@ == old(out)@ + int_text(v as int),
{
    if v < 0 {
        out.push(MINUS);
        push_digits(out, (-(v as i64)) as u32);
        proof {
            assert(final(out)@ =~= old(out)@ + int_text(v as int));
        }
    } else {
        push_digits(out, v as u32);
    }
}

fn push_point(out: &mut Vec<u8>, p: Point)
    ensures
        final(out)@ == old(out)@ + point_text(p),
{
    push_int(out, p.0);
    out.push(COLON);
    push_int(out, p.1);
    proof {
        assert(final(out)@ =~= old(out)@ + point_text(p));
    }
}

/// Encodes a snapshot as the message written to a peer: every position
/// followed by a comma, then a semicolon. An empty snapshot gives `;`.
pub fn encode_message(ps: &[Point]) -> (r: Vec<u8>)
    ensures
        r@ == message_text(ps@),
{
    let mut out: Vec<u8> = Vec::new();
    let mut i: usize = 0;
    while i < ps.len()
        invariant
            i <= ps@.len(),
            out@ == list_text(ps@.take(i as int)),
        decreases ps@.len() - i,
    {
        push_point(&mut out, ps[i]);
        out.push(COMMA);
        proof {
            assert(ps@.take(i + 1).drop_last() =~= ps@.take(i as int));
            assert(out@ =~= list_text(ps@.take(i + 1)));
        }
        i += 1;
    }
    out.push(SEMICOLON);
    proof {
        assert(ps@.take(ps@.len() as int) =~= ps@);
    }
    out
}

/// Encodes the record that a peer sends for its own position.
pub fn encode_record(p: Point) -> (r: Vec<u8>)
    ensures
        r@ == record_text(p),
{
    let mut out: Vec<u8> = Vec::new();
    push_point(&mut out, p);
    out.push(NEWLINE);
    proof {
        assert(out@ =~= record_text(p));
    }
    out
}

/// The pieces of `s` between occurrences of `d`: one more than there are
/// `d`s, empty pieces included.
pub open spec fn split_on(s: Seq<u8>, d: u8) -> Seq<Seq<u8>>
    decreases s.len(),
{
    if s.len() == 0 {
        seq![Seq::empty()]
    } else {
        let p = split_on(s.drop_last(), d);
        if s.last() == d {
            p.push(Seq::empty())
        } else {
            p.update(p.len() - 1, p.last().push(s.last()))
        }
    }
}

pub proof fn lemma_split_on_nonempty(s: Seq<u8>, d: u8)
    ensures
        split_on(s, d).len() >= 1,
    decreases s.len(),
{
    if s.len() > 0 {
        lemma_split_on_nonempty(s.drop_last(), d);
    }
}

/// The contents of a sequence of byte vectors.
pub open spec fn pieces(v: Seq<Vec<u8>>) -> Seq<Seq<u8>> {
    v.map_values(|x: Vec<u8>| x@)
}

/// Splits `s` at every occurrence of `d`.
pub fn split_bytes(s: &[u8], d: u8) -> (r: Vec<Vec<u8>>)
    ensures
        pieces(r@) == split_on(s@, d),
{
    let mut out: Vec<Vec<u8>> = Vec::new();
    let mut cur: Vec<u8> = Vec::new();
    let mut i: usize = 0;
    proof {
        assert(pieces(out@).push(cur@) =~= split_on(s@.take(0), d));
    }
    while i < s.len()
        invariant
            i <= s@.len(),
            pieces(out@).push(cur@) == split_on(s@.take(i as int), d),
        decreases s@.len() - i,
    {
        let b = s[i];
        let ghost p = pieces(out@).push(cur@);
        proof {
            assert(s@.take(i + 1).drop_last() =~= s@.take(i as int));
        }
        if b == d {
            out.push(cur);
            cur = Vec::new();
            proof {
                assert(pieces(out@).push(cur@) =~= p.push(Seq::empty()));
            }
        } else {
            cur.push(b);
            proof {
                assert(pieces(out@).push(cur@) =~= p.update(p.len() - 1, p.last().push(b)));
            }
        }
        i += 1;
    }
    out.push(cur);
    proof {
        assert(s@.take(s@.len() as int) =~= s@);
    }
    out
}

/// The fields of a position list: the pieces between commas, where a last
/// piece that is empty (a trailing comma, or no text at all) is no field.
pub open spec fn fields_of(s: Seq<u8>) -> Seq<Seq<u8>> {
    let p = split_on(s, COMMA);
    if p.last().len() == 0 {
        p.drop_last()
    } else {
        p
    }
}

/// The positions that the fields spell, if every one of them spells one.
pub open spec fn points_of(fs: Seq<Seq<u8>>) -> Option<Seq<Point>>
    decreases fs.len(),
{
    if fs.len() == 0 {
        Some(Seq::empty())
    } else {
        match (points_of(fs.drop_last()), point_of(fs.last())) {
            (Some(ps), Some(p)) => Some(ps.push(p)),
            _ => None,
        }
    }
}

/// The position list that `s` spells.
pub open spec fn list_of(s: Seq<u8>) -> Option<Seq<Point>> {
    points_of(fields_of(s))
}

proof fn lemma_points_of_prefix(fs: Seq<Seq<u8>>, m: int)
    requires
        0 <= m <= fs.len(),
        points_of(fs.take(m)) is None,
    ensures
        points_of(fs) is None,
    decreases fs.len(),
{
    if m == fs.len() {
        assert(fs.take(m) =~= fs);
    } else {
        assert(fs.drop_last().take(m) =~= fs.take(m));
        lemma_points_of_prefix(fs.drop_last(), m);
    }
}

/// Decodes a comma-separated position list; a trailing comma is allowed.
pub fn decode_points(t: &[u8]) -> (r: Result<Vec<Point>, ParseError>)
    ensures
        match r {
            Ok(v) => list_of(t@) == Some(v@),
            Err(_) => list_of(t@) is None,
        },
{
    let parts = split_bytes(t, COMMA);
    let ghost fs = fields_of(t@);
    proof {
        lemma_split_on_nonempty(t@, COMMA);
    }
    let last = parts.len() - 1;
    let count = if parts[last].len() == 0 { last } else { parts.len() };
    proof {
        assert(pieces(parts@)[last as int] == parts@[last as int]@);
        assert(fs.len() == count);
        assert(forall|j: int| 0 <= j < count ==> fs[j] == #[trigger] parts@[j]@);
    }
    let mut out: Vec<Point> = Vec::new();
    let mut j: usize = 0;
    while j < count
        invariant
            j <= count,
            count <= parts@.len(),
            fs == fields_of(t@),
            fs.len() == count,
            forall|m: int| 0 <= m < count ==> fs[m] == #[trigger] parts@[m]@,
            points_of(fs.take(j as int)) == Some(out@),
        decreases count - j,
    {
        proof {
            assert(fs.take(j + 1).drop_last() =~= fs.take(j as int));
            assert(fs.take(j + 1).last() == parts@[j as int]@);
        }
        match decode_point(parts[j].as_slice()) {
            Ok(p) => {
                out.push(p);
            },
            Err(e) => {
                proof {
                    assert(points_of(fs.take(j + 1)) is None);
                    lemma_points_of_prefix(fs, j + 1);
                }
                return Err(e);
            },
        }
        j += 1;
    }
    proof {
        assert(fs.take(count as int) =~= fs);
    }
    Ok(out)
}


/// Decodes one `x:y` position from text.
pub fn deserialize_point(s: &str) -> (r: Result<Point, ParseError>)
    ensures
        match r {
            Ok(p) => point_of(s.spec_bytes()) == Some(p),
            Err(_) => point_of(s.spec_bytes()) is None,
        },
{
    decode_point(s.as_bytes())
}

/// Decodes a comma-separated position list from text.
pub fn deserialize_points(s: &str) -> (r: Result<Vec<Point>, ParseError>)
    ensures
        match r {
            Ok(v) => list_of(s.spec_bytes()) == Some(v@),
            Err(_) => list_of(s.spec_bytes()) is None,
        },
{
    decode_points(s.as_bytes())
}

/// The list to draw for a received stream of messages: of the pieces
/// between semicolons, the first that is not empty and decodes.
pub open spec fn first_frame(segs: Seq<Seq<u8>>) -> Option<Seq<Point>>
    decreases segs.len(),
{
    if segs.len() == 0 {
        None
    } else if segs[0].len() > 0 && list_of(segs[0]) is Some {
        list_of(segs[0])
    } else {
        first_frame(segs.drop_first())
    }
}

/// Picks the position list to draw from the bytes received since the last
/// frame: empty pieces are skipped, and a piece that fails to decode gives
/// way to the next one.
pub fn pick_frame(received: &[u8]) -> (r: Option<Vec<Point>>)
    ensures
        match r {
            Some(v) => first_frame(split_on(received@, SEMICOLON)) == Some(v@),
            None => first_frame(split_on(received@, SEMICOLON)) is None,
        },
{
    let segs = split_bytes(received, SEMICOLON);
    let ghost all = split_on(received@, SEMICOLON);
    let mut j: usize = 0;
    proof {
        assert(all.skip(0) =~= all);
    }
    while j < segs.len()
        invariant
            j <= segs@.len(),
            all == split_on(received@, SEMICOLON),
            all == pieces(segs@),
            first_frame(all) == first_frame(all.skip(j as int)),
        decreases segs@.len() - j,
    {
        proof {
            assert(all[j as int] == segs@[j as int]@);
            assert(all.skip(j as int)[0] == segs@[j as int]@);
            assert(all.skip(j as int).drop_first() =~= all.skip(j + 1));
        }
        if segs[j].len() > 0 {
            if let Ok(v) = decode_points(segs[j].as_slice()) {
                proof {
                    let rest = all.skip(j as int);
                    assert(rest.len() > 0);
                    assert(rest[0] == segs@[j as int]@);
                    assert(rest[0].len() > 0);
                }
                return Some(v);
            }
        }
        j += 1;
    }
    None
}


proof fn lemma_digits_of(n: nat)
    ensures
        digits_of(n).len() > 0,
        all_digits(digits_of(n)),
        digits_value(digits_of(n)) == n,
    decreases n,
{
    if n >= 10 {
        lemma_digits_of(n / 10);
        let d = digits_of(n);
        assert(d.drop_last() =~= digits_of(n / 10));
        assert(d.last() == (ZERO + n % 10) as u8);
        assert(d.last() - ZERO == n % 10);
        assert((n / 10) * 10 + n % 10 == n);
        assert(digits_value(d) == digits_value(d.drop_last()) * 10 + (d.last() - ZERO));
        assert(digits_value(d.drop_last()) == n / 10);
        assert forall|i: int| 0 <= i < d.len() implies is_digit(#[trigger] d[i]) by {
            if i < d.len() - 1 {
                assert(d[i] == digits_of(n / 10)[i]);
            }
        }
    } else {
        let d = digits_of(n);
        assert(d.drop_last() =~= Seq::<u8>::empty());
        assert(d.last() - ZERO == n);
        assert(digits_value(d) == digits_value(d.drop_last()) * 10 + (d.last() - ZERO));
        assert(digits_value(d.drop_last()) == 0);
    }
}

proof fn lemma_int_text(v: int)
    ensures
        int_of(int_text(v)) == Some(v),
        forall|i: int| 0 <= i < int_text(v).len() ==> #[trigger] int_text(v)[i] != COLON
            && int_text(v)[i] != COMMA,
{
    if v < 0 {
        let d = digits_of((-v) as nat);
        lemma_digits_of((-v) as nat);
        assert(int_text(v).drop_first() =~= d);
        assert forall|i: int| 0 <= i < int_text(v).len() implies #[trigger] int_text(v)[i]
            != COLON && int_text(v)[i] != COMMA by {
            if i > 0 {
                assert(int_text(v)[i] == d[i - 1]);
                assert(is_digit(d[i - 1]));
            }
        }
    } else {
        let d = digits_of(v as nat);
        lemma_digits_of(v as nat);
        assert(is_digit(d[0]));
        assert forall|i: int| 0 <= i < int_text(v).len() implies #[trigger] int_text(v)[i]
            != COLON && int_text(v)[i] != COMMA by {
            assert(is_digit(d[i]));
        }
    }
}

proof fn lemma_without_colons_free(s: Seq<u8>)
    requires
        forall|i: int| 0 <= i < s.len() ==> s[i] != COLON,
    ensures
        without_colons(s) == s,
    decreases s.len(),
{
    if s.len() > 0 {
        lemma_without_colons_free(s.drop_last());
        assert(s.drop_last().push(s.last()) =~= s);
    }
}

proof fn lemma_point_text(p: Point)
    ensures
        point_of(point_text(p)) == Some(p),
        forall|i: int| 0 <= i < point_text(p).len() ==> #[trigger] point_text(p)[i] != COMMA,
{
    let a = int_text(p.0 as int);
    let b = int_text(p.1 as int);
    let t = point_text(p);
    lemma_int_text(p.0 as int);
    lemma_int_text(p.1 as int);
    assert(t[a.len() as int] == COLON);
    assert forall|j: int| 0 <= j < a.len() implies t[j] != COLON by {
        assert(t[j] == a[j]);
    }
    lemma_first_colon_at(t, a.len() as int);
    assert(t.take(a.len() as int) =~= a);
    assert(t.skip(a.len() as int + 1) =~= b);
    assert forall|i: int| 0 <= i < b.len() implies b[i] != COLON by {
        assert(b[i] == int_text(p.1 as int)[i]);
    }
    lemma_without_colons_free(b);
    assert forall|i: int| 0 <= i < t.len() implies #[trigger] t[i] != COMMA by {
        if i < a.len() {
            assert(t[i] == a[i]);
        } else if i > a.len() {
            assert(t[i] == b[i - a.len() - 1]);
        }
    }
}

proof fn lemma_split_on_append_free(a: Seq<u8>, b: Seq<u8>, d: u8)
    requires
        forall|i: int| 0 <= i < b.len() ==> b[i] != d,
    ensures
        split_on(a + b, d) == split_on(a, d).update(
            split_on(a, d).len() - 1,
            split_on(a, d).last() + b,
        ),
    decreases b.len(),
{
    lemma_split_on_nonempty(a, d);
    let sa = split_on(a, d);
    if b.len() == 0 {
        assert(a + b =~= a);
        assert(sa.update(sa.len() - 1, sa.last() + b) =~= sa);
    } else {
        let b0 = b.drop_last();
        lemma_split_on_append_free(a, b0, d);
        assert((a + b).drop_last() =~= a + b0);
        assert((a + b).last() == b.last());
        assert(b.last() != d);
        let p = split_on(a + b0, d);
        assert(p.last() == sa.last() + b0);
        assert(p.last().push(b.last()) =~= sa.last() + b);
        assert(p.update(p.len() - 1, p.last().push(b.last())) =~= sa.update(
            sa.len() - 1,
            sa.last() + b,
        ));
    }
}

proof fn lemma_split_on_push_delim(a: Seq<u8>, d: u8)
    ensures
        split_on(a.push(d), d) == split_on(a, d).push(Seq::empty()),
{
    assert(a.push(d).drop_last() =~= a);
}

/// The texts of the positions of a list, one per position.
pub open spec fn point_texts(ps: Seq<Point>) -> Seq<Seq<u8>> {
    ps.map_values(|p: Point| point_text(p))
}

proof fn lemma_split_list_text(ps: Seq<Point>)
    ensures
        split_on(list_text(ps), COMMA) == point_texts(ps).push(Seq::empty()),
    decreases ps.len(),
{
    if ps.len() == 0 {
        assert(point_texts(ps).push(Seq::empty()) =~= seq![Seq::<u8>::empty()]);
    } else {
        let q = ps.drop_last();
        let t = point_text(ps.last());
        lemma_split_list_text(q);
        lemma_point_text(ps.last());
        lemma_split_on_append_free(list_text(q), t, COMMA);
        let sq = split_on(list_text(q), COMMA);
        assert(sq.last() + t =~= t);
        assert(sq.update(sq.len() - 1, t) =~= point_texts(ps));
        lemma_split_on_push_delim(list_text(q) + t, COMMA);
        assert(list_text(ps) == (list_text(q) + t).push(COMMA));
    }
}

proof fn lemma_points_of_texts(ps: Seq<Point>)
    ensures
        points_of(point_texts(ps)) == Some(ps),
    decreases ps.len(),
{
    if ps.len() > 0 {
        lemma_points_of_texts(ps.drop_last());
        assert(point_texts(ps).drop_last() =~= point_texts(ps.drop_last()));
        lemma_point_text(ps.last());
        assert(ps.drop_last().push(ps.last()) =~= ps);
    }
}

/// Encoding a position list and decoding the text gives the list back.
pub proof fn lemma_list_round_trip(ps: Seq<Point>)
    ensures
        list_of(list_text(ps)) == Some(ps),
{
    lemma_split_list_text(ps);
    assert(fields_of(list_text(ps)) =~= point_texts(ps));
    lemma_points_of_texts(ps);
}

/// A comma after the last field of a list changes nothing it decodes to.
pub proof fn lemma_trailing_comma(s: Seq<u8>)
    requires
        s.len() > 0,
        s.last() != COMMA,
    ensures
        list_of(s.push(COMMA)) == list_of(s),
{
    lemma_split_on_push_delim(s, COMMA);
    lemma_split_on_nonempty(s.drop_last(), COMMA);
    let p = split_on(s, COMMA);
    assert(p.last().len() > 0);
    assert(split_on(s.push(COMMA), COMMA).drop_last() =~= p);
}

} // verus!
