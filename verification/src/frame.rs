//! Decoded frames and the P6 PPM format that carries them.
use vstd::prelude::*;

verus! {

/// A decoded P6 PPM frame (24-bit RGB, row-major).
#[derive(Debug, Clone)]
pub struct PpmFrame {
    pub width: u32,
    pub height: u32,
    pub pixels: Vec<[u8; 3]>,
}

impl PpmFrame {
    /// Every pixel of the `width` by `height` grid is there.
    pub open spec fn wf(self) -> bool {
        self.pixels@.len() >= self.width * self.height
    }

    /// The pixel in column `x` of row `y`.
    pub open spec fn at(self, x: int, y: int) -> [u8; 3] {
        self.pixels@[y * self.width + x]
    }
}

/// Why a run of bytes is not a decimal `u32`.
#[derive(Debug, Clone, Copy, PartialEq, Eq, Structural)]
pub enum NumberError {
    Empty,
    InvalidDigit,
    Overflow,
}

/// Why a byte string is not a P6 frame.
#[derive(Debug, Clone)]
pub enum PpmError {
    /// The first token, which should have been `P6`.
    BadMagic(Vec<u8>),
    BadNumber(NumberError),
    UnsupportedMaxval(u32),
    Truncated,
}

/// `PpmError` over mathematical values.
pub enum PpmFault {
    BadMagic(Seq<u8>),
    BadNumber(NumberError),
    UnsupportedMaxval(u32),
    Truncated,
}

impl View for PpmError {
    type V = PpmFault;

    open spec fn view(&self) -> PpmFault {
        match *self {
            PpmError::BadMagic(t) => PpmFault::BadMagic(t@),
            PpmError::BadNumber(e) => PpmFault::BadNumber(e),
            PpmError::UnsupportedMaxval(m) => PpmFault::UnsupportedMaxval(m),
            PpmError::Truncated => PpmFault::Truncated,
        }
    }
}

/// The byte, read as a Latin-1 character, is white space.
pub open spec fn is_blank(c: u8) -> bool {
    9 <= c <= 13 || c == 32 || c == 0x85 || c == 0xa0
}

/// The first position from `i` on that holds no white space.
pub open spec fn skip_blanks(b: Seq<u8>, i: int) -> int
    decreases b.len() - i,
{
    if 0 <= i < b.len() && is_blank(b[i]) {
        skip_blanks(b, i + 1)
    } else {
        i
    }
}

/// The first position from `i` on that holds a line feed, or the end.
pub open spec fn skip_line(b: Seq<u8>, i: int) -> int
    decreases b.len() - i,
{
    if 0 <= i < b.len() && b[i] != 10 {
        skip_line(b, i + 1)
    } else {
        i
    }
}

pub proof fn lemma_skips_advance(b: Seq<u8>, i: int)
    requires
        0 <= i <= b.len(),
    ensures
        i <= skip_blanks(b, i) <= b.len(),
        i <= skip_line(b, i) <= b.len(),
        i <= word_end(b, i) <= b.len(),
    decreases b.len() - i,
{
    if i < b.len() {
        lemma_skips_advance(b, i + 1);
    }
}

/// The first position from `i` on that holds neither white space nor part of a
/// comment, which runs from `#` to the end of its line.
pub open spec fn token_start(b: Seq<u8>, i: int) -> int
    decreases b.len() - i,
{
    if 0 <= i <= b.len() {
        proof {
            lemma_skips_advance(b, i);
            if 0 <= skip_blanks(b, i) < b.len() {
                lemma_skips_advance(b, skip_blanks(b, i) + 1);
            }
        }
        let j = skip_blanks(b, i);
        if j < b.len() && b[j] == 35 {
            token_start(b, skip_line(b, j))
        } else {
            j
        }
    } else {
        i
    }
}

/// The first position from `i` on that holds white space, or the end.
pub open spec fn word_end(b: Seq<u8>, i: int) -> int
    decreases b.len() - i,
{
    if 0 <= i < b.len() && !is_blank(b[i]) {
        word_end(b, i + 1)
    } else {
        i
    }
}

/// Where the token that begins at or after `i` ends.
pub open spec fn token_end(b: Seq<u8>, i: int) -> int {
    word_end(b, token_start(b, i))
}

/// The token that begins at or after `i`.
pub open spec fn token(b: Seq<u8>, i: int) -> Seq<u8> {
    b.subrange(token_start(b, i), token_end(b, i))
}

pub proof fn lemma_token_bounds(b: Seq<u8>, i: int)
    requires
        0 <= i <= b.len(),
    ensures
        i <= token_start(b, i) <= token_end(b, i) <= b.len(),
    decreases b.len() - i,
{
    lemma_skips_advance(b, i);
    let j = skip_blanks(b, i);
    if j < b.len() && b[j] == 35 {
        lemma_skips_advance(b, j + 1);
        lemma_token_bounds(b, skip_line(b, j));
    } else {
        lemma_skips_advance(b, j);
    }
}

pub open spec fn is_digit_byte(c: u8) -> bool {
    48 <= c <= 57
}

/// Decimal digits continued from the value `acc`, read from the left: the first
/// byte that is no digit, or that takes the value out of range, decides the error.
pub open spec fn digits_from(t: Seq<u8>, acc: int) -> Result<u32, NumberError>
    decreases t.len(),
{
    if t.len() == 0 {
        Ok(acc as u32)
    } else if !is_digit_byte(t[0]) {
        Err(NumberError::InvalidDigit)
    } else if acc * 10 + (t[0] - 48) > u32::MAX {
        Err(NumberError::Overflow)
    } else {
        digits_from(t.drop_first(), acc * 10 + (t[0] - 48))
    }
}

/// A decimal `u32` with an optional leading `+`.
pub open spec fn number(t: Seq<u8>) -> Result<u32, NumberError> {
    if t.len() == 0 {
        Err(NumberError::Empty)
    } else if t.len() > 1 && t[0] == 43 {
        digits_from(t.drop_first(), 0)
    } else {
        digits_from(t, 0)
    }
}

/// What a P6 header says: the frame's size and where its pixels begin.
pub struct PpmHeader {
    pub width: u32,
    pub height: u32,
    pub data: int,
}

/// The header of a P6 file with all of its pixel data, or the first thing that is
/// wrong with it. Exactly one byte stands between the header and the pixels.
pub open spec fn header(b: Seq<u8>) -> Result<PpmHeader, PpmFault> {
    let p1 = token_end(b, 0);
    let p2 = token_end(b, p1);
    let p3 = token_end(b, p2);
    let p4 = token_end(b, p3);
    if token(b, 0) != seq![80u8, 54u8] {
        Err(PpmFault::BadMagic(token(b, 0)))
    } else if number(token(b, p1)) is Err {
        Err(PpmFault::BadNumber(number(token(b, p1))->Err_0))
    } else if number(token(b, p2)) is Err {
        Err(PpmFault::BadNumber(number(token(b, p2))->Err_0))
    } else if number(token(b, p3)) is Err {
        Err(PpmFault::BadNumber(number(token(b, p3))->Err_0))
    } else if number(token(b, p3))->Ok_0 != 255 {
        Err(PpmFault::UnsupportedMaxval(number(token(b, p3))->Ok_0))
    } else {
        let width = number(token(b, p1))->Ok_0;
        let height = number(token(b, p2))->Ok_0;
        if b.len() < p4 + 1 + width * height * 3 {
            Err(PpmFault::Truncated)
        } else {
            Ok(PpmHeader { width, height, data: p4 + 1 })
        }
    }
}

fn blank(c: u8) -> (r: bool)
    ensures
        r == is_blank(c),
{
    (9 <= c && c <= 13) || c == 32 || c == 0x85 || c == 0xa0
}

/// The bounds of the token that begins at or after `i`.
fn next_token(b: &[u8], i: usize) -> (r: (usize, usize))
    requires
        i <= b@.len(),
    ensures
        r.0 == token_start(b@, i as int),
        r.1 == token_end(b@, i as int),
        i <= r.0 <= r.1 <= b@.len(),
{
    proof {
        lemma_token_bounds(b@, i as int);
    }
    let mut p: usize = i;
    loop
        invariant
            i <= p <= b@.len(),
            token_start(b@, p as int) == token_start(b@, i as int),
        ensures
            i <= p <= b@.len(),
            p == token_start(b@, i as int),
        decreases b@.len() - p,
    {
        let ghost p0 = p;
        while p < b.len() && blank(b[p])
            invariant
                p0 <= p <= b@.len(),
                skip_blanks(b@, p as int) == skip_blanks(b@, p0 as int),
            ensures
                p == skip_blanks(b@, p0 as int),
            decreases b@.len() - p,
        {
            p = p + 1;
        }
        if p < b.len() && b[p] == 35 {
            let ghost p1 = p;
            while p < b.len() && b[p] != 10
                invariant
                    p1 <= p <= b@.len(),
                    p1 < b@.len(),
                    b@[p1 as int] == 35,
                    skip_line(b@, p as int) == skip_line(b@, p1 as int),
                ensures
                    p1 < p <= b@.len(),
                    p == skip_line(b@, p1 as int),
                decreases b@.len() - p,
            {
                p = p + 1;
            }
        } else {
            break;
        }
    }
    let start: usize = p;
    while p < b.len() && !blank(b[p])
        invariant
            start <= p <= b@.len(),
            word_end(b@, p as int) == word_end(b@, start as int),
        ensures
            start <= p <= b@.len(),
            p == word_end(b@, start as int),
        decreases b@.len() - p,
    {
        p = p + 1;
    }
    (start, p)
}

/// The decimal number that `b[from..to]` spells.
fn parse_number(b: &[u8], from: usize, to: usize) -> (r: Result<u32, NumberError>)
    requires
        from <= to <= b@.len(),
    ensures
        r == number(b@.subrange(from as int, to as int)),
{
    let ghost t = b@.subrange(from as int, to as int);
    if from == to {
        return Err(NumberError::Empty);
    }
    let mut p: usize = from;
    if to - from > 1 && b[from] == 43 {
        p = from + 1;
        assert(b@.subrange(p as int, to as int) =~= t.drop_first());
    }
    let mut acc: u64 = 0;
    while p < to
        invariant
            from <= p <= to <= b@.len(),
            acc <= u32::MAX,
            t == b@.subrange(from as int, to as int),
            number(t) == digits_from(b@.subrange(p as int, to as int), acc as int),
        decreases to - p,
    {
        let c = b[p];
        let ghost rest = b@.subrange(p as int, to as int);
        assert(rest[0] == c);
        assert(rest.drop_first() =~= b@.subrange(p + 1, to as int));
        if c < 48 || c > 57 {
            return Err(NumberError::InvalidDigit);
        }
        let next: u64 = acc * 10 + (c - 48) as u64;
        if next > u32::MAX as u64 {
            return Err(NumberError::Overflow);
        }
        acc = next;
        p = p + 1;
    }
    assert(b@.subrange(p as int, to as int).len() == 0);
    Ok(acc as u32)
}

/// Parse a P6 PPM file. Comments and any white space between the header's tokens
/// are allowed; bytes after the last pixel are ignored.
pub fn read_ppm(b: &[u8]) -> (r: Result<PpmFrame, PpmError>)
    ensures
        r is Ok <==> header(b@) is Ok,
        r matches Err(e) ==> header(b@) == Err::<PpmHeader, PpmFault>(e@),
        r matches Ok(f) ==> {
            let h = header(b@)->Ok_0;
            &&& f.width == h.width
            &&& f.height == h.height
            &&& f.pixels@.len() == h.width * h.height
            &&& f.wf()
            &&& forall|k: int|
                0 <= k < f.pixels@.len() ==> (#[trigger] f.pixels@[k])@ == b@.subrange(
                    h.data + 3 * k,
                    h.data + 3 * k + 3,
                )
        },
{
    let (s1, p1) = next_token(b, 0);
    if !(p1 - s1 == 2 && b[s1] == 80 && b[s1 + 1] == 54) {
        let mut magic: Vec<u8> = Vec::new();
        let mut k: usize = s1;
        while k < p1
            invariant
                s1 <= k <= p1 <= b@.len(),
                magic@ == b@.subrange(s1 as int, k as int),
            decreases p1 - k,
        {
            magic.push(b[k]);
            k = k + 1;
        }
        assert(token(b@, 0) != seq![80u8, 54u8]) by {
            if token(b@, 0) == seq![80u8, 54u8] {
                assert(token(b@, 0)[0] == b@[s1 as int]);
                assert(token(b@, 0)[1] == b@[s1 + 1]);
            }
        }
        return Err(PpmError::BadMagic(magic));
    }
    assert(token(b@, 0) =~= seq![80u8, 54u8]);
    let (s2, p2) = next_token(b, p1);
    let width = match parse_number(b, s2, p2) {
        Ok(n) => n,
        Err(e) => {
            return Err(PpmError::BadNumber(e));
        },
    };
    let (s3, p3) = next_token(b, p2);
    let height = match parse_number(b, s3, p3) {
        Ok(n) => n,
        Err(e) => {
            return Err(PpmError::BadNumber(e));
        },
    };
    let (s4, p4) = next_token(b, p3);
    let maxval = match parse_number(b, s4, p4) {
        Ok(n) => n,
        Err(e) => {
            return Err(PpmError::BadNumber(e));
        },
    };
    if maxval != 255 {
        return Err(PpmError::UnsupportedMaxval(maxval));
    }
    assert(0 <= width * height <= 0xffff_ffff * 0xffff_ffff) by (nonlinear_arith)
        requires
            0 <= width <= 0xffff_ffff,
            0 <= height <= 0xffff_ffff,
    ;
    let count: u64 = width as u64 * height as u64;
    let end: u128 = p4 as u128 + 1 + count as u128 * 3;
    let total: usize = b.len();
    if (total as u128) < end {
        return Err(PpmError::Truncated);
    }
    let data: usize = p4 + 1;
    let n: usize = count as usize;
    let mut pixels: Vec<[u8; 3]> = Vec::with_capacity(n);
    let mut k: usize = 0;
    while k < n
        invariant
            k <= n,
            data + 3 * n <= total,
            total == b@.len(),
            pixels@.len() == k,
            forall|j: int|
                0 <= j < k ==> (#[trigger] pixels@[j])@ == b@.subrange(
                    data + 3 * j,
                    data + 3 * j + 3,
                ),
        decreases n - k,
    {
        let at: usize = data + 3 * k;
        let px = [b[at], b[at + 1], b[at + 2]];
        assert(px@ =~= b@.subrange(data + 3 * k, data + 3 * k + 3));
        pixels.push(px);
        k = k + 1;
    }
    Ok(PpmFrame { width, height, pixels })
}

proof fn lemma_skip_blanks(b: Seq<u8>, i: int, s: int)
    requires
        0 <= i <= s <= b.len(),
        forall|k: int| i <= k < s ==> is_blank(#[trigger] b[k]),
        s < b.len() ==> !is_blank(b[s]),
    ensures
        skip_blanks(b, i) == s,
    decreases s - i,
{
    if i < s {
        lemma_skip_blanks(b, i + 1, s);
    }
}

proof fn lemma_word_end(b: Seq<u8>, s: int, e: int)
    requires
        0 <= s <= e <= b.len(),
        forall|k: int| s <= k < e ==> !is_blank(#[trigger] b[k]),
        e < b.len() ==> is_blank(b[e]),
    ensures
        word_end(b, s) == e,
    decreases e - s,
{
    if s < e {
        lemma_word_end(b, s + 1, e);
    }
}

/// A word without white space that does not begin a comment.
pub open spec fn is_word(t: Seq<u8>) -> bool {
    &&& t.len() > 0
    &&& t[0] != 35
    &&& forall|k: int| 0 <= k < t.len() ==> !is_blank(#[trigger] t[k])
}

/// The word `t` stands at `s`, with white space before it from `i` on and behind it.
proof fn lemma_word(b: Seq<u8>, i: int, s: int, t: Seq<u8>)
    requires
        is_word(t),
        0 <= i <= s,
        s + t.len() < b.len(),
        forall|k: int| i <= k < s ==> is_blank(#[trigger] b[k]),
        b.subrange(s, s + t.len()) == t,
        is_blank(b[s + t.len()]),
    ensures
        token(b, i) == t,
        token_end(b, i) == s + t.len(),
{
    let e = s + t.len();
    assert forall|k: int| s <= k < e implies !is_blank(#[trigger] b[k]) by {
        assert(b.subrange(s, e)[k - s] == b[k]);
    }
    assert(b.subrange(s, e)[0] == b[s]);
    lemma_skip_blanks(b, i, s);
    lemma_word_end(b, s, e);
    assert(token_start(b, i) == s);
}

/// A P6 file: the header on three lines, then the pixel data.
pub open spec fn ppm_file(width: Seq<u8>, height: Seq<u8>, data: Seq<u8>) -> Seq<u8> {
    seq![80u8, 54u8, 10u8] + width + seq![32u8] + height + seq![10u8, 50u8, 53u8, 53u8, 10u8] + data
}

/// A P6 file with a well-formed size and at least that much pixel data is read with that
/// size, and its pixels begin directly behind the header.
pub proof fn law_header_is_read_back(
    width: Seq<u8>,
    height: Seq<u8>,
    data: Seq<u8>,
    w: u32,
    h: u32,
)
    requires
        is_word(width),
        is_word(height),
        number(width) == Ok::<u32, NumberError>(w),
        number(height) == Ok::<u32, NumberError>(h),
        data.len() >= w * h * 3,
    ensures
        ({
            let b = ppm_file(width, height, data);
            let at = width.len() + height.len() + 9;
            &&& header(b) == Ok::<PpmHeader, PpmFault>(
                PpmHeader { width: w, height: h, data: at as int },
            )
            &&& b.subrange(at as int, b.len() as int) == data
        }),
{
    let b = ppm_file(width, height, data);
    let p2 = 3 + width.len() as int;
    let p3 = p2 + 1 + height.len() as int;
    let (magic, max) = (seq![80u8, 54u8], seq![50u8, 53u8, 53u8]);
    assert(b.subrange(0, 2) =~= magic);
    assert(b[2] == 10);
    lemma_word(b, 0, 0, magic);
    assert(b.subrange(3, p2) =~= width);
    assert(b[p2] == 32);
    lemma_word(b, 2, 3, width);
    assert(b.subrange(p2 + 1, p3) =~= height);
    assert(b[p3] == 10);
    lemma_word(b, p2, p2 + 1, height);
    assert(b.subrange(p3 + 1, p3 + 4) =~= max);
    assert(b[p3 + 4] == 10);
    lemma_word(b, p3, p3 + 1, max);
    assert(number(max) == Ok::<u32, NumberError>(255)) by {
        reveal_with_fuel(digits_from, 4);
        assert(max.drop_first() =~= seq![53u8, 53u8]);
        assert(seq![53u8, 53u8].drop_first() =~= seq![53u8]);
        assert(seq![53u8].drop_first() =~= Seq::<u8>::empty());
    }
    assert(b.subrange(p3 + 5, b.len() as int) =~= data);
}

/// The decimal digits of a number, as bytes.
pub open spec fn decimal_bytes(n: int) -> Seq<u8>
    decreases n,
{
    if n < 10 {
        seq![(48 + n) as u8]
    } else {
        decimal_bytes(n / 10).push((48 + n % 10) as u8)
    }
}

proof fn lemma_digits_push(t: Seq<u8>, c: u8, acc: int, v: u32)
    requires
        acc >= 0,
        digits_from(t, acc) == Ok::<u32, NumberError>(v),
        acc <= u32::MAX,
        is_digit_byte(c),
        v * 10 + (c - 48) <= u32::MAX,
    ensures
        digits_from(t.push(c), acc) == Ok::<u32, NumberError>((v * 10 + (c - 48)) as u32),
    decreases t.len(),
{
    let u = t.push(c);
    if t.len() == 0 {
        assert(u.drop_first() =~= Seq::<u8>::empty());
        assert(digits_from(u.drop_first(), acc * 10 + (c - 48)) == Ok::<u32, NumberError>(
            (acc * 10 + (c - 48)) as u32,
        ));
    } else {
        assert(u[0] == t[0]);
        assert(u.drop_first() =~= t.drop_first().push(c));
        lemma_digits_push(t.drop_first(), c, acc * 10 + (t[0] - 48), v);
    }
}

/// The decimal digits of a `u32` are a word that is read as that number.
pub proof fn law_decimal_bytes_are_read_back(n: u32)
    ensures
        is_word(decimal_bytes(n as int)),
        number(decimal_bytes(n as int)) == Ok::<u32, NumberError>(n),
        is_digit_byte(decimal_bytes(n as int)[0]),
    decreases n,
{
    let d = decimal_bytes(n as int);
    if n < 10 {
        reveal_with_fuel(digits_from, 2);
        assert(d.drop_first() =~= Seq::<u8>::empty());
        assert(number(d) == digits_from(d, 0));
    } else {
        let m = n / 10;
        let t = decimal_bytes(m as int);
        law_decimal_bytes_are_read_back(m);
        assert(d[0] == t[0]);
        assert(number(t) == digits_from(t, 0));
        assert(number(d) == digits_from(d, 0));
        lemma_digits_push(t, (48 + n % 10) as u8, 0, m);
        assert forall|k: int| 0 <= k < d.len() implies !is_blank(#[trigger] d[k]) by {
            if k < t.len() {
                assert(d[k] == t[k]);
            }
        }
    }
}

/// White space of a header: the six ASCII characters and the two of Latin-1.
pub proof fn law_blank_bytes(c: u8)
    ensures
        is_blank(c) <==> c == 9 || c == 10 || c == 11 || c == 12 || c == 13 || c == 32 || c == 0x85
            || c == 0xa0,
{
}

/// A comment counts as white space: behind it the same token is found as from the end of its
/// line on.
pub proof fn law_comments_are_skipped(b: Seq<u8>, i: int, j: int, e: int)
    requires
        0 <= i <= j < e < b.len(),
        forall|k: int| i <= k < j ==> is_blank(#[trigger] b[k]),
        b[j] == 35,
        forall|k: int| j <= k < e ==> #[trigger] b[k] != 10,
        b[e] == 10,
    ensures
        token(b, i) == token(b, e),
        token_end(b, i) == token_end(b, e),
{
    lemma_skip_blanks(b, i, j);
    lemma_skip_line(b, j, e);
}

proof fn lemma_skip_line(b: Seq<u8>, i: int, e: int)
    requires
        0 <= i <= e < b.len(),
        forall|k: int| i <= k < e ==> #[trigger] b[k] != 10,
        b[e] == 10,
    ensures
        skip_line(b, i) == e,
    decreases e - i,
{
    if i < e {
        lemma_skip_line(b, i + 1, e);
    }
}

/// What is wrong with a header is the first thing that is: the word `P6`, then the width, the
/// height and the highest value, which has to be 255, then the length of the data.
pub proof fn law_header_faults(b: Seq<u8>)
    ensures
        ({
            let p1 = token_end(b, 0);
            let p2 = token_end(b, p1);
            let p3 = token_end(b, p2);
            let p4 = token_end(b, p3);
            let (w, h, m) = (number(token(b, p1)), number(token(b, p2)), number(token(b, p3)));
            &&& token(b, 0) != seq![80u8, 54u8] ==> header(b) == Err::<PpmHeader, PpmFault>(
                PpmFault::BadMagic(token(b, 0)),
            )
            &&& header(b) matches Ok(r) ==> {
                &&& token(b, 0) == seq![80u8, 54u8]
                &&& w == Ok::<u32, NumberError>(r.width)
                &&& h == Ok::<u32, NumberError>(r.height)
                &&& m == Ok::<u32, NumberError>(255)
                &&& r.data == p4 + 1
                &&& r.data + 3 * (r.width * r.height) <= b.len()
            }
            &&& token(b, 0) == seq![80u8, 54u8] && w is Ok && h is Ok && m is Ok ==> {
                &&& m->Ok_0 != 255 ==> header(b) == Err::<PpmHeader, PpmFault>(
                    PpmFault::UnsupportedMaxval(m->Ok_0),
                )
                &&& m->Ok_0 == 255 && p4 + 1 + 3 * (w->Ok_0 * h->Ok_0) > b.len() ==> header(b)
                    == Err::<PpmHeader, PpmFault>(PpmFault::Truncated)
                &&& m->Ok_0 == 255 && p4 + 1 + 3 * (w->Ok_0 * h->Ok_0) <= b.len() ==> header(b) is Ok
            }
        }),
{
}

/// The number that some decimal digits stand for.
pub open spec fn value_of(t: Seq<u8>) -> int
    decreases t.len(),
{
    if t.len() == 0 {
        0
    } else {
        10 * value_of(t.drop_last()) + (t.last() - 48)
    }
}

proof fn lemma_digits_value(t: Seq<u8>)
    requires
        forall|k: int| 0 <= k < t.len() ==> 48 <= #[trigger] t[k] <= 57,
        value_of(t) <= u32::MAX,
    ensures
        0 <= value_of(t),
        digits_from(t, 0) == Ok::<u32, NumberError>(value_of(t) as u32),
    decreases t.len(),
{
    if t.len() > 0 {
        let u = t.drop_last();
        assert forall|k: int| 0 <= k < u.len() implies 48 <= #[trigger] u[k] <= 57 by {
            assert(u[k] == t[k]);
        }
        lemma_value_grows(u);
        assert(t[t.len() - 1] == t.last());
        lemma_digits_value(u);
        lemma_digits_push(u, t.last(), 0, value_of(u) as u32);
        assert(u.push(t.last()) =~= t);
    }
}

proof fn lemma_value_grows(t: Seq<u8>)
    requires
        forall|k: int| 0 <= k < t.len() ==> 48 <= #[trigger] t[k] <= 57,
    ensures
        0 <= value_of(t),
    decreases t.len(),
{
    if t.len() > 0 {
        let u = t.drop_last();
        assert forall|k: int| 0 <= k < u.len() implies 48 <= #[trigger] u[k] <= 57 by {
            assert(u[k] == t[k]);
        }
        lemma_value_grows(u);
        assert(t[t.len() - 1] == t.last());
    }
}

/// Digits that stand for a number which fits are read as it, leading zeros or not, and with a
/// plus sign before them too. Something else among them is no number, and neither is nothing.
pub proof fn law_number_is_its_value(t: Seq<u8>)
    requires
        t.len() > 0,
    ensures
        number(Seq::empty()) is Err,
        (forall|k: int| 0 <= k < t.len() ==> 48 <= #[trigger] t[k] <= 57) && value_of(t) <= u32::MAX
            ==> number(t) == Ok::<u32, NumberError>(value_of(t) as u32) && number(seq![43u8] + t)
            == Ok::<u32, NumberError>(value_of(t) as u32),
        number(t) is Ok && t[0] != 43 ==> forall|k: int|
            0 <= k < t.len() ==> 48 <= #[trigger] t[k] <= 57,
{
    if (forall|k: int| 0 <= k < t.len() ==> 48 <= #[trigger] t[k] <= 57) && value_of(t)
        <= u32::MAX {
        lemma_digits_value(t);
        assert((seq![43u8] + t).drop_first() =~= t);
        assert((seq![43u8] + t)[0] == 43);
    }
    if number(t) is Ok && t[0] != 43 {
        lemma_all_digits(t, 0);
    }
}

proof fn lemma_all_digits(t: Seq<u8>, acc: int)
    requires
        digits_from(t, acc) is Ok,
    ensures
        forall|k: int| 0 <= k < t.len() ==> 48 <= #[trigger] t[k] <= 57,
    decreases t.len(),
{
    if t.len() > 0 {
        let u = t.drop_first();
        lemma_all_digits(u, acc * 10 + (t[0] - 48));
        assert forall|k: int| 0 <= k < t.len() implies 48 <= #[trigger] t[k] <= 57 by {
            if k > 0 {
                assert(t[k] == u[k - 1]);
            }
        }
    }
}

} // verus!
