//! The wire framing: one frame is the ASCII header `Content-Length: <n>\r\n\r\n`
//! followed by exactly `n` bytes of payload. `spec_parse` is the mathematical
//! model of carving one frame out of a byte buffer; `parse_message` is the
//! executable incremental parser proved against it, and `frame` is the writer.

use vstd::prelude::*;

verus! {

// ---------------------------------------------------------------------------
// Wire literals
// ---------------------------------------------------------------------------

/// The bytes of `"Content-Length: "`.
pub open spec fn lit_content_length() -> Seq<u8> {
    seq![67u8, 111, 110, 116, 101, 110, 116, 45, 76, 101, 110, 103, 116, 104, 58, 32]
}

/// The bytes of the header terminator `"\r\n\r\n"`.
pub open spec fn lit_terminator() -> Seq<u8> {
    seq![13u8, 10, 13, 10]
}

/// The literal `"Content-Length: "` as a vector.
fn content_length_lit() -> (r: Vec<u8>)
    ensures
        r@ == lit_content_length(),
{
    let mut v: Vec<u8> = Vec::new();
    v.push(67);
    v.push(111);
    v.push(110);
    v.push(116);
    v.push(101);
    v.push(110);
    v.push(116);
    v.push(45);
    v.push(76);
    v.push(101);
    v.push(110);
    v.push(103);
    v.push(116);
    v.push(104);
    v.push(58);
    v.push(32);
    proof {
        assert(v@ =~= lit_content_length());
    }
    v
}

/// The header terminator `"\r\n\r\n"` as a vector.
fn terminator_lit() -> (r: Vec<u8>)
    ensures
        r@ == lit_terminator(),
{
    let mut v: Vec<u8> = Vec::new();
    v.push(13);
    v.push(10);
    v.push(13);
    v.push(10);
    proof {
        assert(v@ =~= lit_terminator());
    }
    v
}

// ---------------------------------------------------------------------------
// Substring occurrence
// ---------------------------------------------------------------------------

/// `pat` occurs in `d` starting at offset `i`.
pub open spec fn occurs_at(d: Seq<u8>, pat: Seq<u8>, i: int) -> bool {
    &&& 0 <= i
    &&& i + pat.len() <= d.len()
    &&& d.subrange(i, i + pat.len() as int) == pat
}

/// `pat` occurs somewhere in `d`.
pub open spec fn contains_pat(d: Seq<u8>, pat: Seq<u8>) -> bool {
    exists|i: int| occurs_at(d, pat, i)
}

/// Relies on `memchr::memmem::find`: the index of the first occurrence of
/// `needle` inside `haystack`, or `None` when `needle` does not occur at all.
#[verifier::external_body]
fn find_subsequence(haystack: &[u8], needle: &[u8]) -> (r: Option<usize>)
    ensures
        (match r {
            Some(i) => occurs_at(haystack@, needle@, i as int) && (forall|j: int|
                0 <= j < i ==> !occurs_at(haystack@, needle@, j)),
            None => !contains_pat(haystack@, needle@),
        }),
{
    memchr::memmem::find(haystack, needle)
}

// ---------------------------------------------------------------------------
// Decimal digits
// ---------------------------------------------------------------------------

/// An ASCII decimal digit `'0'..='9'`.
pub open spec fn is_ascii_digit(b: u8) -> bool {
    48 <= b <= 57
}

/// The first offset at or after `i` holding a non-digit byte (or the end of `d`).
pub open spec fn digit_run_end(d: Seq<u8>, i: int) -> int
    decreases d.len() - i,
{
    if i < 0 || i >= d.len() {
        d.len() as int
    } else if !is_ascii_digit(d[i]) {
        i
    } else {
        digit_run_end(d, i + 1)
    }
}

/// The value of a sequence of ASCII digits read as a decimal number.
pub open spec fn dec_value(s: Seq<u8>) -> int
    decreases s.len(),
{
    if s.len() == 0 {
        0
    } else {
        dec_value(s.drop_last()) * 10 + (s.last() - 48)
    }
}

/// The canonical decimal rendering of `n`, without leading zeros.
pub open spec fn dec_repr(n: nat) -> Seq<u8>
    decreases n,
{
    if n < 10 {
        seq![(48 + n) as u8]
    } else {
        dec_repr(n / 10).push((48 + n % 10) as u8)
    }
}

// ---------------------------------------------------------------------------
// The frame model
// ---------------------------------------------------------------------------

/// The header announcing a payload of `n` bytes.
pub open spec fn header_of(n: nat) -> Seq<u8> {
    lit_content_length() + dec_repr(n) + lit_terminator()
}

/// A whole frame carrying payload `p`.
pub open spec fn frame_of(p: Seq<u8>) -> Seq<u8> {
    header_of(p.len()) + p
}

/// The outcome of trying to carve one frame out of the front of a buffer.
pub enum SpecParse {
    /// The buffer does not yet hold a whole frame; consume nothing and read more.
    NeedMore,
    /// The bytes at offset `at` are not the expected literal `lit`: desync.
    BadLit { at: int, lit: Seq<u8> },
    /// The declared length is empty or does not fit in `usize`.
    BadNumber,
    /// A whole frame: its payload is `d[start .. consumed]`.
    Frame { start: int, consumed: int },
}

/// What carving one frame from `d` yields, in the order the parser decides it:
/// without a complete header terminator nothing is parsed at all; then the
/// `Content-Length: ` literal, the digit run, the terminator, and finally the
/// payload length check.
pub open spec fn spec_parse(d: Seq<u8>) -> SpecParse {
    if !contains_pat(d, lit_terminator()) {
        SpecParse::NeedMore
    } else if !occurs_at(d, lit_content_length(), 0) {
        SpecParse::BadLit { at: 0, lit: lit_content_length() }
    } else {
        let e = digit_run_end(d, 16);
        let run = d.subrange(16, e);
        if run.len() == 0 || dec_value(run) > usize::MAX as int {
            SpecParse::BadNumber
        } else if !occurs_at(d, lit_terminator(), e) {
            SpecParse::BadLit { at: e, lit: lit_terminator() }
        } else if d.len() < e + 4 + dec_value(run) {
            SpecParse::NeedMore
        } else {
            SpecParse::Frame { start: e + 4, consumed: e + 4 + dec_value(run) }
        }
    }
}

// ---------------------------------------------------------------------------
// Errors
// ---------------------------------------------------------------------------

/// Why a frame could not be carved from the buffer.
#[derive(Debug)]
pub enum ParseError {
    /// Retryable: the buffer holds only a prefix of a frame.
    NeedMoreData,
    /// Fatal desync: `expected` was not found; `found` holds the bytes seen.
    UnexpectedToken { expected: Vec<u8>, found: Vec<u8> },
    /// Fatal: the declared payload length is absent or does not fit in `usize`.
    InvalidInt,
}

// ---------------------------------------------------------------------------
// The executable parser
// ---------------------------------------------------------------------------

/// A cursor over a byte buffer; `bytes_read` is the offset consumed so far.
pub struct Parser {
    pub bytes_read: usize,
}

impl Parser {
    /// Consume `count` bytes; the consumed range starts at the returned offset.
    pub fn advance(&mut self, count: usize) -> (start: usize)
        requires
            old(self).bytes_read + count <= usize::MAX,
        ensures
            start == old(self).bytes_read,
            final(self).bytes_read == old(self).bytes_read + count,
    {
        let start = self.bytes_read;
        self.bytes_read = self.bytes_read + count;
        start
    }

    /// Consume the exact literal `lit`, or report a desync with the bytes found.
    pub fn consume_lit(&mut self, data: &[u8], lit: &[u8]) -> (r: Result<(), ParseError>)
        requires
            old(self).bytes_read <= data@.len(),
        ensures
            (match r {
                Ok(()) => {
                    &&& occurs_at(data@, lit@, old(self).bytes_read as int)
                    &&& final(self).bytes_read == old(self).bytes_read + lit@.len()
                },
                Err(e) => {
                    &&& !occurs_at(data@, lit@, old(self).bytes_read as int)
                    &&& *final(self) == *old(self)
                    &&& e matches ParseError::UnexpectedToken { expected, found }
                    &&& expected@ == lit@
                    &&& found@ == data@.skip(old(self).bytes_read as int)
                },
            }),
    {
        let pos = self.bytes_read;
        let dlen: usize = data.len();
        let ghost d = data@;
        let ghost l = lit@;
        proof {
            assert(d.skip(pos as int) =~= d.subrange(pos as int, d.len() as int));
        }
        if dlen - pos < lit.len() {
            return Err(ParseError::UnexpectedToken {
                expected: vstd::slice::slice_to_vec(lit),
                found: vstd::slice::slice_to_vec(vstd::slice::slice_subrange(data, pos, dlen)),
            });
        }
        let mut k: usize = 0;
        while k < lit.len()
            invariant
                0 <= k <= l.len(),
                pos + l.len() <= d.len(),
                d.len() <= usize::MAX,
                d == data@,
                l == lit@,
                pos == old(self).bytes_read,
                self.bytes_read == pos,
                dlen as int == d.len(),
                forall|t: int| 0 <= t < k ==> d[pos + t] == l[t],
            decreases l.len() - k,
        {
            let db = *vstd::slice::slice_index_get(data, pos + k);
            let lb = *vstd::slice::slice_index_get(lit, k);
            if db != lb {
                proof {
                    assert(d.skip(pos as int) =~= d.subrange(pos as int, d.len() as int));
                    assert(!occurs_at(d, l, pos as int)) by {
                        if occurs_at(d, l, pos as int) {
                            assert(d.subrange(pos as int, pos + l.len() as int)[k as int] == l[k as int]);
                        }
                    };
                }
                return Err(ParseError::UnexpectedToken {
                    expected: vstd::slice::slice_to_vec(lit),
                    found: vstd::slice::slice_to_vec(
                        vstd::slice::slice_subrange(data, pos, dlen),
                    ),
                });
            }
            k = k + 1;
        }
        proof {
            assert(d.subrange(pos as int, pos + l.len() as int) =~= l);
        }
        self.bytes_read = pos + lit.len();
        Ok(())
    }

    /// Consume the maximal run of ASCII digits and read it as a decimal
    /// number; empty runs and values over `usize::MAX` are rejected.
    pub fn consume_number(&mut self, data: &[u8]) -> (r: Result<usize, ParseError>)
        requires
            old(self).bytes_read <= data@.len(),
        ensures
            ({
                let e = digit_run_end(data@, old(self).bytes_read as int);
                let run = data@.subrange(old(self).bytes_read as int, e);
                match r {
                    Ok(n) => {
                        &&& run.len() > 0
                        &&& dec_value(run) == n
                        &&& final(self).bytes_read == e
                        &&& old(self).bytes_read <= e <= data@.len()
                    },
                    Err(err) => {
                        &&& (run.len() == 0 || dec_value(run) > usize::MAX as int)
                        &&& *final(self) == *old(self)
                        &&& err is InvalidInt
                    },
                }
            }),
    {
        let pos = self.bytes_read;
        let ghost d = data@;
        let mut j: usize = pos;
        while j < data.len() && byte_is_digit(*vstd::slice::slice_index_get(data, j))
            invariant
                pos <= j <= d.len(),
                d == data@,
                forall|t: int| pos <= t < j ==> is_ascii_digit(d[t]),
            decreases d.len() - j,
        {
            j = j + 1;
        }
        proof {
            lemma_digit_run_end_is(d, pos as int, j as int);
        }
        let ghost run = d.subrange(pos as int, j as int);
        if j == pos {
            proof {
                assert(run.len() == 0);
            }
            return Err(ParseError::InvalidInt);
        }
        let mut acc: usize = 0;
        let mut k: usize = pos;
        while k < j
            invariant
                pos <= k <= j <= d.len(),
                d == data@,
                run == d.subrange(pos as int, j as int),
                pos == old(self).bytes_read,
                self.bytes_read == pos,
                digit_run_end(d, pos as int) == j,
                forall|t: int| pos <= t < j ==> is_ascii_digit(d[t]),
                acc == dec_value(d.subrange(pos as int, k as int)),
            decreases j - k,
        {
            let b = *vstd::slice::slice_index_get(data, k);
            let ghost pre = d.subrange(pos as int, k as int);
            let ghost ext = d.subrange(pos as int, k + 1int);
            proof {
                assert(is_ascii_digit(d[k as int]));
                assert(ext.drop_last() =~= pre);
                assert(ext.last() == d[k as int]);
            }
            let digit = (b - 48) as usize;
            if acc > (usize::MAX - digit) / 10 {
                proof {
                    assert(acc * 10 + digit > usize::MAX) by (nonlinear_arith)
                        requires
                            acc > (usize::MAX - digit) / 10,
                            digit <= usize::MAX,
                    ;
                    assert(dec_value(ext) == acc * 10 + digit);
                    lemma_dec_value_extend(d, pos as int, k + 1, j as int);
                    assert(dec_value(run) > usize::MAX as int);
                }
                return Err(ParseError::InvalidInt);
            }
            proof {
                assert(acc * 10 + digit <= usize::MAX) by (nonlinear_arith)
                    requires
                        acc <= (usize::MAX - digit) / 10,
                        digit <= usize::MAX,
                ;
            }
            acc = acc * 10 + digit;
            k = k + 1;
        }
        proof {
            assert(d.subrange(pos as int, k as int) == run);
        }
        self.bytes_read = j;
        Ok(acc)
    }
}

/// `digit_run_end` lands exactly where the digits stop.
proof fn lemma_digit_run_end_is(d: Seq<u8>, i: int, j: int)
    requires
        0 <= i <= j <= d.len(),
        forall|k: int| i <= k < j ==> is_ascii_digit(d[k]),
        j == d.len() || !is_ascii_digit(d[j]),
    ensures
        digit_run_end(d, i) == j,
    decreases j - i,
{
    if i < j {
        lemma_digit_run_end_is(d, i + 1, j);
    }
}

/// A decimal number read from a digit run is at least zero.
proof fn lemma_dec_value_nonneg(s: Seq<u8>)
    requires
        forall|t: int| 0 <= t < s.len() ==> is_ascii_digit(s[t]),
    ensures
        dec_value(s) >= 0,
    decreases s.len(),
{
    if s.len() > 0 {
        lemma_dec_value_nonneg(s.drop_last());
    }
}

/// Extending a digit run to the right never shrinks its decimal value.
proof fn lemma_dec_value_extend(d: Seq<u8>, i: int, k: int, j: int)
    requires
        0 <= i <= k <= j <= d.len(),
        forall|t: int| i <= t < j ==> is_ascii_digit(d[t]),
    ensures
        dec_value(d.subrange(i, j)) >= dec_value(d.subrange(i, k)),
    decreases j - k,
{
    if k < j {
        let a = d.subrange(i, j - 1);
        let b = d.subrange(i, j);
        assert(b.drop_last() =~= a);
        assert(forall|t: int| 0 <= t < a.len() ==> is_ascii_digit(a[t]));
        lemma_dec_value_nonneg(a);
        assert(dec_value(b) == dec_value(a) * 10 + (b.last() - 48));
        lemma_dec_value_extend(d, i, k, j - 1);
    }
}

/// Whether a byte is an ASCII decimal digit.
pub fn byte_is_digit(b: u8) -> (r: bool)
    ensures
        r == is_ascii_digit(b),
{
    48 <= b && b <= 57
}

/// Carve one frame from the front of `data`. On success the result is the
/// payload bytes copied out and the total number of bytes consumed (header
/// plus payload); every outcome is exactly what `spec_parse` says of `data`.
pub fn parse_message(data: &[u8]) -> (r: Result<(Vec<u8>, usize), ParseError>)
    ensures
        (match r {
            Ok(p) => {
                &&& spec_parse(data@) matches SpecParse::Frame { start, consumed }
                &&& p.1 == consumed
                &&& start + p.0@.len() == consumed
                &&& 0 < start
                &&& p.0@ == data@.subrange(start, consumed)
            },
            Err(ParseError::NeedMoreData) => spec_parse(data@) is NeedMore,
            Err(ParseError::UnexpectedToken { expected, found }) => {
                &&& spec_parse(data@) matches SpecParse::BadLit { at, lit }
                &&& expected@ == lit
                &&& found@ == data@.skip(at)
            },
            Err(ParseError::InvalidInt) => spec_parse(data@) is BadNumber,
        }),
{
    let ghost d = data@;
    let term = terminator_lit();
    if find_subsequence(data, term.as_slice()).is_none() {
        return Err(ParseError::NeedMoreData);
    }
    let mut parser = Parser { bytes_read: 0 };
    let clen = content_length_lit();
    match parser.consume_lit(data, clen.as_slice()) {
        Ok(()) => {},
        Err(e) => {
            proof {
                assert(d.skip(0) =~= d);
            }
            return Err(e);
        },
    }
    proof {
        assert(lit_content_length().len() == 16);
        assert(parser.bytes_read == 16);
    }
    let n = match parser.consume_number(data) {
        Ok(n) => n,
        Err(e) => {
            return Err(e);
        },
    };
    let ghost e_run = digit_run_end(d, 16);
    match parser.consume_lit(data, term.as_slice()) {
        Ok(()) => {},
        Err(e) => {
            return Err(e);
        },
    }
    proof {
        assert(lit_terminator().len() == 4);
        assert(parser.bytes_read == e_run + 4);
    }
    if data.len() - parser.bytes_read < n {
        return Err(ParseError::NeedMoreData);
    }
    let start = parser.advance(n);
    let payload = vstd::slice::slice_to_vec(vstd::slice::slice_subrange(data, start, start + n));
    Ok((payload, parser.bytes_read))
}

} // verus!

verus! {

// ---------------------------------------------------------------------------
// The frame writer
// ---------------------------------------------------------------------------

/// The canonical decimal digits of `n`.
pub fn u64_decimal(n: u64) -> (r: Vec<u8>)
    ensures
        r@ == dec_repr(n as nat),
    decreases n,
{
    if n < 10 {
        let mut v: Vec<u8> = Vec::new();
        v.push(48 + n as u8);
        proof {
            assert(v@ =~= dec_repr(n as nat));
        }
        v
    } else {
        let mut v = u64_decimal(n / 10);
        v.push(48 + (n % 10) as u8);
        proof {
            assert(v@ =~= dec_repr(n as nat));
        }
        v
    }
}

/// Wrap `payload` in one frame: the header announcing its exact byte length,
/// then the payload itself.
pub fn frame(payload: &[u8]) -> (r: Vec<u8>)
    ensures
        r@ == frame_of(payload@),
{
    let mut out = content_length_lit();
    let mut digits = u64_decimal(payload.len() as u64);
    out.append(&mut digits);
    let mut term = terminator_lit();
    out.append(&mut term);
    let mut body = vstd::slice::slice_to_vec(payload);
    out.append(&mut body);
    proof {
        assert(out@ =~= frame_of(payload@));
    }
    out
}

// ---------------------------------------------------------------------------
// Round-trip laws
// ---------------------------------------------------------------------------

/// Every byte of a canonical decimal rendering is a digit.
proof fn lemma_dec_repr_digits(n: nat)
    ensures
        dec_repr(n).len() >= 1,
        forall|t: int| 0 <= t < dec_repr(n).len() ==> is_ascii_digit(#[trigger] dec_repr(n)[t]),
    decreases n,
{
    if n >= 10 {
        lemma_dec_repr_digits(n / 10);
    }
}

/// Reading a canonical decimal rendering back gives the number itself.
proof fn lemma_dec_value_of_repr(n: nat)
    ensures
        dec_value(dec_repr(n)) == n,
    decreases n,
{
    if n < 10 {
        let s = dec_repr(n);
        assert(s == seq![(48 + n) as u8]);
        assert(s.len() == 1);
        assert(s.last() == (48 + n) as u8);
        assert(s.drop_last() =~= Seq::<u8>::empty());
        assert(dec_value(s.drop_last()) == 0);
        assert(dec_value(s) == 0 * 10 + (s.last() - 48));
        assert((48 + n) as u8 == 48 + n);
    } else {
        lemma_dec_value_of_repr(n / 10);
        let s = dec_repr(n);
        assert(s == dec_repr(n / 10).push((48 + n % 10) as u8));
        assert(s.drop_last() =~= dec_repr(n / 10));
        assert(s.last() == (48 + n % 10) as u8);
        assert((48 + n % 10) as u8 == 48 + n % 10);
        assert(dec_value(s) == dec_value(dec_repr(n / 10)) * 10 + (s.last() - 48));
        assert(dec_value(s) == (n / 10) * 10 + n % 10);
        vstd::arithmetic::div_mod::lemma_fundamental_div_mod(n as int, 10);
        assert(n == 10 * (n as int / 10) + n as int % 10);
    }
}

/// A buffer beginning with a whole frame parses to exactly that frame: the
/// payload comes back unchanged and exactly the frame's bytes are consumed,
/// whatever bytes follow it.
pub proof fn lemma_parse_frame(p: Seq<u8>, rest: Seq<u8>)
    requires
        p.len() <= usize::MAX,
    ensures
        ({
            let d = frame_of(p) + rest;
            &&& spec_parse(d) matches SpecParse::Frame { start, consumed }
            &&& start == header_of(p.len()).len()
            &&& consumed == frame_of(p).len()
            &&& d.subrange(start, consumed) == p
        }),
{
    let dr = dec_repr(p.len());
    let k = dr.len() as int;
    let d = frame_of(p) + rest;
    lemma_dec_repr_digits(p.len());
    lemma_dec_value_of_repr(p.len());
    assert(d.len() == 16 + k + 4 + p.len() + rest.len());
    assert forall|i: int| 0 <= i < 16 implies d[i] == lit_content_length()[i] by {}
    assert forall|i: int| 0 <= i < k implies d[16 + i] == dr[i] by {}
    assert forall|i: int| 0 <= i < 4 implies d[16 + k + i] == lit_terminator()[i] by {}
    assert forall|i: int| 0 <= i < p.len() implies d[16 + k + 4 + i] == p[i] by {}
    assert(d.subrange(16 + k, 16 + k + 4) =~= lit_terminator());
    assert(occurs_at(d, lit_terminator(), 16 + k));
    assert(d.subrange(0, 16) =~= lit_content_length());
    assert(occurs_at(d, lit_content_length(), 0));
    assert(d[16 + k] == 13) by {
        assert(lit_terminator()[0] == 13);
    }
    assert forall|t: int| 16 <= t < 16 + k implies is_ascii_digit(d[t]) by {
        assert(d[t] == dr[t - 16]);
    }
    lemma_digit_run_end_is(d, 16, 16 + k);
    assert(d.subrange(16, 16 + k) =~= dr);
    assert(dec_value(d.subrange(16, 16 + k)) == p.len());
    assert(d.subrange(16 + k + 4, 16 + k + 4 + p.len() as int) =~= p);
}

/// Any strict prefix of a frame is incomplete: parsing consumes nothing and
/// asks for more data.
pub proof fn lemma_parse_frame_prefix(p: Seq<u8>, m: int)
    requires
        p.len() <= usize::MAX,
        0 <= m < frame_of(p).len(),
    ensures
        spec_parse(frame_of(p).take(m)) is NeedMore,
{
    let f = frame_of(p);
    let dr = dec_repr(p.len());
    let k = dr.len() as int;
    let d = f.take(m);
    lemma_dec_repr_digits(p.len());
    lemma_dec_value_of_repr(p.len());
    assert(f.len() == 16 + k + 4 + p.len());
    assert forall|i: int| 0 <= i < 16 implies f[i] == lit_content_length()[i] by {}
    assert forall|i: int| 0 <= i < k implies f[16 + i] == dr[i] by {}
    assert forall|i: int| 0 <= i < 4 implies f[16 + k + i] == lit_terminator()[i] by {}
    if m < 16 + k + 4 {
        assert forall|i: int| !occurs_at(d, lit_terminator(), i) by {
            if occurs_at(d, lit_terminator(), i) {
                assert(d.subrange(i, i + 4)[0] == lit_terminator()[0]);
                assert(d[i] == 13);
                assert(i + 4 <= m);
                assert(d[i] == f[i]);
                if i < 16 {
                    assert(f[i] == lit_content_length()[i]);
                    assert(lit_content_length()[i] != 13);
                } else {
                    assert(16 <= i < 16 + k);
                    assert(is_ascii_digit(f[i]));
                }
            }
        }
        assert(!contains_pat(d, lit_terminator()));
    } else {
        assert(d.subrange(16 + k, 16 + k + 4) =~= lit_terminator());
        assert(occurs_at(d, lit_terminator(), 16 + k));
        assert(d.subrange(0, 16) =~= lit_content_length());
        assert(occurs_at(d, lit_content_length(), 0));
        assert(d[16 + k] == 13) by {
            assert(lit_terminator()[0] == 13);
        }
        assert forall|t: int| 16 <= t < 16 + k implies is_ascii_digit(d[t]) by {
            assert(d[t] == dr[t - 16]);
        }
        lemma_digit_run_end_is(d, 16, 16 + k);
        assert(d.subrange(16, 16 + k) =~= dr);
        assert(dec_value(d.subrange(16, 16 + k)) == p.len());
        assert(d.len() == m < 16 + k + 4 + p.len());
    }
}

/// Frame round-trip: framing a payload and parsing the result reproduces the
/// payload exactly, consuming the whole frame; and every strict prefix of the
/// framed bytes only asks for more data.
pub proof fn lemma_frame_round_trip(p: Seq<u8>)
    requires
        p.len() <= usize::MAX,
    ensures
        ({
            let f = frame_of(p);
            &&& spec_parse(f) matches SpecParse::Frame { start, consumed }
            &&& consumed == f.len()
            &&& f.subrange(start, consumed) == p
            &&& forall|m: int| 0 <= m < f.len() ==> spec_parse(#[trigger] f.take(m)) is NeedMore
        }),
{
    lemma_parse_frame(p, Seq::<u8>::empty());
    assert(frame_of(p) + Seq::<u8>::empty() =~= frame_of(p));
    assert forall|m: int| 0 <= m < frame_of(p).len() implies spec_parse(
        #[trigger] frame_of(p).take(m),
    ) is NeedMore by {
        lemma_parse_frame_prefix(p, m);
    }
}

/// Incremental delivery: cutting a frame's bytes at any offset leaves a first
/// piece that parses to "need more data" and a pair of pieces whose
/// concatenation is the whole frame, so feeding them across separate reads
/// decodes to the same payload as one read.
pub proof fn lemma_incremental_delivery(p: Seq<u8>, cut: int)
    requires
        p.len() <= usize::MAX,
        0 <= cut < frame_of(p).len(),
    ensures
        spec_parse(frame_of(p).take(cut)) is NeedMore,
        frame_of(p).take(cut) + frame_of(p).skip(cut) == frame_of(p),
        ({
            let f = frame_of(p);
            &&& spec_parse(f) matches SpecParse::Frame { start, consumed }
            &&& consumed == f.len()
            &&& f.subrange(start, consumed) == p
        }),
{
    lemma_parse_frame_prefix(p, cut);
    assert(frame_of(p).take(cut) + frame_of(p).skip(cut) =~= frame_of(p));
    lemma_frame_round_trip(p);
}

/// Multi-frame drain: two frames arriving concatenated in one read parse one
/// at a time, in order; after the first frame's bytes are consumed, exactly
/// the second frame remains, which parses without any further read.
pub proof fn lemma_multi_frame_drain(first: Seq<u8>, second: Seq<u8>)
    requires
        first.len() <= usize::MAX,
        second.len() <= usize::MAX,
    ensures
        ({
            let d = frame_of(first) + frame_of(second);
            &&& spec_parse(d) matches SpecParse::Frame { start, consumed }
            &&& consumed == frame_of(first).len()
            &&& d.subrange(start, consumed) == first
            &&& d.skip(consumed) == frame_of(second)
            &&& spec_parse(d.skip(consumed)) matches SpecParse::Frame {
                start: start2,
                consumed: consumed2,
            }
            &&& consumed2 == frame_of(second).len()
            &&& d.skip(consumed).subrange(start2, consumed2) == second
        }),
{
    let d = frame_of(first) + frame_of(second);
    lemma_parse_frame(first, frame_of(second));
    assert(d.skip(frame_of(first).len() as int) =~= frame_of(second));
    lemma_parse_frame(second, Seq::<u8>::empty());
    assert(frame_of(second) + Seq::<u8>::empty() =~= frame_of(second));
}

} // verus!
