//! Wire-format codec: length fields, bulk strings, request frames and replies.
//!
//! A request frame is `*<argc>\r\n` followed by `argc` bulk strings, each
//! `$<len>\r\n<len bytes>\r\n`. Replies are simple strings (`+...\r\n`),
//! null bulk strings (`$-1\r\n`), arrays of bulk strings, or errors
//! (`-ERR <msg>\r\n`).
use vstd::prelude::*;

verus! {

/// The array marker byte, `*`.
pub const ARRAY_MARKER: u8 = 42;
/// The bulk-string marker byte, `$`.
pub const BULK_MARKER: u8 = 36;
/// Carriage return.
pub const CR: u8 = 13;
/// Line feed.
pub const LF: u8 = 10;

/// A malformed frame: bad marker byte, non-digit length field, or a
/// truncated frame.
#[derive(Clone, Copy, PartialEq, Eq, Structural, Debug)]
pub struct ProtocolError;

/// An ASCII decimal digit.
pub open spec fn is_digit(b: u8) -> bool {
    48 <= b <= 57
}

/// The number denoted by a sequence of ASCII digits, most significant first.
pub open spec fn digits_val(s: Seq<u8>) -> nat
    decreases s.len(),
{
    if s.len() == 0 {
        0
    } else {
        digits_val(s.drop_last()) * 10 + (s.last() - 48) as nat
    }
}

/// The index of the first non-digit byte at or after `i` (`s.len()` if none).
pub open spec fn digit_run_end(s: Seq<u8>, i: int) -> int
    decreases s.len() - i,
{
    if i < 0 || i >= s.len() {
        i
    } else if is_digit(s[i]) {
        digit_run_end(s, i + 1)
    } else {
        i
    }
}

pub proof fn lemma_digit_run_end_bounds(s: Seq<u8>, i: int)
    requires
        0 <= i <= s.len(),
    ensures
        i <= digit_run_end(s, i) <= s.len(),
        forall|j: int| i <= j < digit_run_end(s, i) ==> #[trigger] is_digit(s[j]),
    decreases s.len() - i,
{
    if i < s.len() && is_digit(s[i]) {
        lemma_digit_run_end_bounds(s, i + 1);
    }
}

/// A run of digits reaching a non-digit (or the end) pins `digit_run_end`.
pub proof fn lemma_digit_run_end_of_run(s: Seq<u8>, i: int, e: int)
    requires
        0 <= i <= e <= s.len(),
        forall|j: int| i <= j < e ==> #[trigger] is_digit(s[j]),
        e == s.len() || !is_digit(s[e]),
    ensures
        digit_run_end(s, i) == e,
    decreases e - i,
{
    if i < e {
        lemma_digit_run_end_of_run(s, i + 1, e);
    }
}

/// Appending digits to a digit string never decreases its value.
pub proof fn lemma_digits_val_extend(s: Seq<u8>, a: int, b: int, c: int)
    requires
        0 <= a <= b <= c <= s.len(),
        forall|j: int| b <= j < c ==> #[trigger] is_digit(s[j]),
    ensures
        digits_val(s.subrange(a, b)) <= digits_val(s.subrange(a, c)),
    decreases c - b,
{
    if b < c {
        lemma_digits_val_extend(s, a, b, c - 1);
        assert(s.subrange(a, c).drop_last() =~= s.subrange(a, c - 1));
    }
}

/// There is a well-formed length field at `pos`: zero or more digits,
/// then CR LF.
pub open spec fn length_field_ok(s: Seq<u8>, pos: int) -> bool {
    let e = digit_run_end(s, pos);
    &&& 0 <= pos
    &&& e + 1 < s.len()
    &&& s[e] == CR
    &&& s[e + 1] == LF
}

/// The value of the length field at `pos`.
pub open spec fn length_field_val(s: Seq<u8>, pos: int) -> nat {
    digits_val(s.subrange(pos, digit_run_end(s, pos)))
}

/// The index just past the length field at `pos` (past its CR LF).
pub open spec fn length_field_end(s: Seq<u8>, pos: int) -> int {
    digit_run_end(s, pos) + 2
}

/// Decodes the length field starting at `pos`: ASCII digits up to a CR LF
/// terminator. Returns the value and the byte count consumed, terminator
/// included; fails on a non-digit before the CR, a missing terminator, or a
/// value that does not fit in `usize`.
pub fn decode_length_at(buf: &[u8], pos: usize) -> (r: Result<(usize, usize), ProtocolError>)
    requires
        pos <= buf@.len(),
    ensures
        match r {
            Ok(vc) => {
                &&& length_field_ok(buf@, pos as int)
                &&& length_field_val(buf@, pos as int) <= usize::MAX
                &&& vc.0 == length_field_val(buf@, pos as int)
                &&& pos + vc.1 == length_field_end(buf@, pos as int)
                &&& pos + vc.1 <= buf@.len()
            },
            Err(_) => !(length_field_ok(buf@, pos as int) && length_field_val(
                buf@,
                pos as int,
            ) <= usize::MAX),
        },
{
    let ghost s = buf@;
    let mut i = pos;
    let mut val: u128 = 0;
    loop
        invariant
            s == buf@,
            pos <= i <= s.len(),
            forall|j: int| pos <= j < i ==> #[trigger] is_digit(s[j]),
            digit_run_end(s, pos as int) == digit_run_end(s, i as int),
            val == digits_val(s.subrange(pos as int, i as int)),
            val <= usize::MAX,
        ensures
            s == buf@,
            pos <= i < s.len(),
            !is_digit(s[i as int]),
            digit_run_end(s, pos as int) == i,
            val == digits_val(s.subrange(pos as int, i as int)),
            val <= usize::MAX,
        decreases s.len() - i,
    {
        if i == buf.len() {
            // The buffer ended before the CR: no terminator.
            return Err(ProtocolError);
        }
        let b = buf[i];
        if 48 <= b && b <= 57 {
            let next: u128 = val * 10 + ((b - 48) as u128);
            proof {
                assert(s.subrange(pos as int, i + 1) =~= s.subrange(pos as int, i as int).push(
                    s[i as int],
                ));
                assert(s.subrange(pos as int, i + 1).drop_last() =~= s.subrange(
                    pos as int,
                    i as int,
                ));
            }
            if next > usize::MAX as u128 {
                // Every longer digit run denotes at least this value, so the
                // field cannot fit in usize.
                proof {
                    let e = digit_run_end(s, pos as int);
                    lemma_digit_run_end_bounds(s, i + 1);
                    lemma_digits_val_extend(s, pos as int, i + 1, e);
                }
                return Err(ProtocolError);
            }
            val = next;
            i = i + 1;
        } else {
            break;
        }
    }
    if buf[i] != CR {
        return Err(ProtocolError);
    }
    if i + 1 == buf.len() {
        return Err(ProtocolError);
    }
    if buf[i + 1] != LF {
        return Err(ProtocolError);
    }
    Ok((val as usize, i + 2 - pos))
}

/// Start of the payload of the bulk string at `pos` (past `$<len>\r\n`).
pub open spec fn bulk_body(s: Seq<u8>, pos: int) -> int {
    length_field_end(s, pos + 1)
}

/// Declared payload length of the bulk string at `pos`.
pub open spec fn bulk_len(s: Seq<u8>, pos: int) -> nat {
    length_field_val(s, pos + 1)
}

/// There is a well-formed bulk string at `pos`: the marker byte, a length
/// field, that many payload bytes, and a CR LF terminator.
pub open spec fn bulk_ok(s: Seq<u8>, pos: int) -> bool {
    &&& 0 <= pos < s.len()
    &&& s[pos] == BULK_MARKER
    &&& length_field_ok(s, pos + 1)
    &&& bulk_body(s, pos) + bulk_len(s, pos) + 2 <= s.len()
    &&& s[bulk_body(s, pos) + bulk_len(s, pos)] == CR
    &&& s[bulk_body(s, pos) + bulk_len(s, pos) + 1] == LF
}

/// The payload of the bulk string at `pos`.
pub open spec fn bulk_content(s: Seq<u8>, pos: int) -> Seq<u8> {
    s.subrange(bulk_body(s, pos), bulk_body(s, pos) + bulk_len(s, pos))
}

/// The index just past the bulk string at `pos`.
pub open spec fn bulk_end(s: Seq<u8>, pos: int) -> int {
    bulk_body(s, pos) + bulk_len(s, pos) + 2
}

/// Decodes the bulk string starting at `pos`: returns the payload and the
/// byte count consumed, terminator included. Fails if the marker byte is
/// absent or the framing is malformed or truncated.
pub fn decode_bulk_string_at(buf: &[u8], pos: usize) -> (r: Result<
    (Vec<u8>, usize),
    ProtocolError,
>)
    requires
        pos <= buf@.len(),
    ensures
        match r {
            Ok(tc) => {
                &&& bulk_ok(buf@, pos as int)
                &&& tc.0@ == bulk_content(buf@, pos as int)
                &&& pos + tc.1 == bulk_end(buf@, pos as int)
                &&& pos + tc.1 <= buf@.len()
            },
            Err(_) => !bulk_ok(buf@, pos as int),
        },
{
    let ghost s = buf@;
    if pos == buf.len() || buf[pos] != BULK_MARKER {
        return Err(ProtocolError);
    }
    let (n, c1) = match decode_length_at(buf, pos + 1) {
        Ok(vc) => vc,
        Err(e) => {
            // Either the length field is malformed, or its value exceeds
            // usize::MAX and then also the buffer length.
            proof {
                lemma_digit_run_end_bounds(s, pos + 1);
            }
            return Err(e);
        },
    };
    let body = pos + 1 + c1;
    if n > buf.len() - body {
        return Err(ProtocolError);
    }
    if buf.len() - (body + n) < 2 {
        return Err(ProtocolError);
    }
    if buf[body + n] != CR || buf[body + n + 1] != LF {
        return Err(ProtocolError);
    }
    let content = vstd::slice::slice_to_vec(vstd::slice::slice_subrange(buf, body, body + n));
    Ok((content, body + n + 2 - pos))
}

/// Decodes the bulk string at the start of `buf`; see `decode_bulk_string_at`.
pub fn decode_bulk_string(buf: &[u8]) -> (r: Result<(Vec<u8>, usize), ProtocolError>)
    ensures
        match r {
            Ok(tc) => {
                &&& bulk_ok(buf@, 0)
                &&& tc.0@ == bulk_content(buf@, 0)
                &&& tc.1 == bulk_end(buf@, 0)
                &&& tc.1 <= buf@.len()
            },
            Err(_) => !bulk_ok(buf@, 0),
        },
{
    decode_bulk_string_at(buf, 0)
}

/// There are `n` consecutive well-formed bulk strings starting at `pos`.
pub open spec fn bulks_ok(s: Seq<u8>, pos: int, n: nat) -> bool
    decreases n,
{
    n == 0 || (bulk_ok(s, pos) && bulks_ok(s, bulk_end(s, pos), (n - 1) as nat))
}

/// The index just past `n` consecutive bulk strings starting at `pos`.
pub open spec fn bulks_end(s: Seq<u8>, pos: int, n: nat) -> int
    decreases n,
{
    if n == 0 {
        pos
    } else {
        bulks_end(s, bulk_end(s, pos), (n - 1) as nat)
    }
}

/// The payloads of `n` consecutive bulk strings starting at `pos`, in order.
pub open spec fn bulks_tokens(s: Seq<u8>, pos: int, n: nat) -> Seq<Seq<u8>>
    decreases n,
{
    if n == 0 {
        Seq::empty()
    } else {
        seq![bulk_content(s, pos)] + bulks_tokens(s, bulk_end(s, pos), (n - 1) as nat)
    }
}

/// A well-formed bulk string right after a well-formed run extends the run.
pub proof fn lemma_bulks_append(s: Seq<u8>, pos: int, n: nat)
    requires
        bulks_ok(s, pos, n),
        bulk_ok(s, bulks_end(s, pos, n)),
    ensures
        bulks_ok(s, pos, n + 1),
        bulks_end(s, pos, n + 1) == bulk_end(s, bulks_end(s, pos, n)),
        bulks_tokens(s, pos, n + 1) == bulks_tokens(s, pos, n).push(
            bulk_content(s, bulks_end(s, pos, n)),
        ),
    decreases n,
{
    if n == 0 {
        let e1 = bulk_end(s, pos);
        assert(bulks_ok(s, e1, 0));
        assert(bulks_end(s, e1, 0) == e1);
        assert(bulks_tokens(s, e1, 0) =~= Seq::<Seq<u8>>::empty());
        assert(bulks_ok(s, pos, 1));
        assert(bulks_end(s, pos, 1) == e1);
    } else {
        lemma_bulks_append(s, bulk_end(s, pos), (n - 1) as nat);
        assert(((n - 1) as nat) + 1 == n);
        assert(bulks_ok(s, bulk_end(s, pos), n));
        assert(bulks_ok(s, pos, n + 1));
    }
    assert(bulks_tokens(s, pos, n + 1) =~= bulks_tokens(s, pos, n).push(
        bulk_content(s, bulks_end(s, pos, n)),
    ));
}

/// Every prefix of a well-formed run is well-formed, and the next bulk
/// string after the prefix is too.
pub proof fn lemma_bulks_prefix(s: Seq<u8>, pos: int, n: nat, i: nat)
    requires
        i < n,
        bulks_ok(s, pos, n),
    ensures
        bulks_ok(s, pos, i),
        bulk_ok(s, bulks_end(s, pos, i)),
    decreases i,
{
    if i > 0 {
        lemma_bulks_prefix(s, bulk_end(s, pos), (n - 1) as nat, (i - 1) as nat);
    }
}

/// Each bulk string takes at least five bytes.
pub proof fn lemma_bulks_min_len(s: Seq<u8>, pos: int, n: nat)
    requires
        0 <= pos,
        bulks_ok(s, pos, n),
    ensures
        n > 0 ==> pos + 5 * n <= s.len(),
    decreases n,
{
    if n > 0 {
        lemma_digit_run_end_bounds(s, pos + 1);
        assert(bulk_end(s, pos) >= pos + 5);
        assert(bulk_end(s, pos) <= s.len());
        lemma_bulks_min_len(s, bulk_end(s, pos), (n - 1) as nat);
        assert(5 * n == 5 + 5 * ((n - 1) as nat));
    }
}

/// The buffer holds one well-formed request frame: the array marker, a
/// length field, and that many bulk strings.
pub open spec fn request_ok(s: Seq<u8>) -> bool {
    &&& s.len() > 0
    &&& s[0] == ARRAY_MARKER
    &&& length_field_ok(s, 1)
    &&& bulks_ok(s, length_field_end(s, 1), length_field_val(s, 1))
}

/// The token sequence carried by the request frame in the buffer.
pub open spec fn request_tokens(s: Seq<u8>) -> Seq<Seq<u8>> {
    bulks_tokens(s, length_field_end(s, 1), length_field_val(s, 1))
}

/// Decodes one request frame into its ordered token sequence. Fails if the
/// buffer does not start with the array marker, any element is not a
/// well-formed bulk string, or a declared length reads past the end.
pub fn decode_request(buf: &[u8]) -> (r: Result<Vec<Vec<u8>>, ProtocolError>)
    ensures
        match r {
            Ok(tokens) => request_ok(buf@) && tokens.deep_view() == request_tokens(buf@),
            Err(_) => !request_ok(buf@),
        },
{
    let ghost s = buf@;
    if buf.len() == 0 || buf[0] != ARRAY_MARKER {
        return Err(ProtocolError);
    }
    let (n, c1) = match decode_length_at(buf, 1) {
        Ok(vc) => vc,
        Err(e) => {
            proof {
                lemma_digit_run_end_bounds(s, 1);
                if request_ok(s) {
                    // A run of that many bulk strings cannot fit in the
                    // buffer, so the length value must fit in usize.
                    lemma_bulks_min_len(s, length_field_end(s, 1), length_field_val(s, 1));
                }
            }
            return Err(e);
        },
    };
    let ghost e0 = length_field_end(s, 1);
    let mut tokens: Vec<Vec<u8>> = Vec::new();
    let mut p = 1 + c1;
    let mut k: usize = 0;
    while k < n
        invariant
            s == buf@,
            s.len() > 0,
            s[0] == ARRAY_MARKER,
            length_field_ok(s, 1),
            n == length_field_val(s, 1),
            e0 == length_field_end(s, 1),
            s.len() <= usize::MAX,
            k <= n,
            bulks_ok(s, e0, k as nat),
            p == bulks_end(s, e0, k as nat),
            p <= s.len(),
            tokens.deep_view() == bulks_tokens(s, e0, k as nat),
        decreases n - k,
    {
        let ghost prev = tokens.deep_view();
        match decode_bulk_string_at(buf, p) {
            Ok((t, c)) => {
                proof {
                    lemma_bulks_append(s, e0, k as nat);
                }
                let ghost tv = t@;
                tokens.push(t);
                proof {
                    assert(tokens.deep_view() =~~= prev.push(tv));
                }
                p = p + c;
                k = k + 1;
            },
            Err(_) => {
                proof {
                    if request_ok(s) {
                        lemma_bulks_prefix(s, e0, n as nat, k as nat);
                    }
                }
                return Err(ProtocolError);
            },
        }
    }
    Ok(tokens)
}

/// Appends the shortest decimal digit string for `n`.
pub fn push_decimal(out: &mut Vec<u8>, n: usize)
    ensures
        final(out)@ == old(out)@ + dec_repr(n as nat),
    decreases n,
{
    if n < 10 {
        out.push(48 + n as u8);
        assert(out@ =~= old(out)@ + dec_repr(n as nat));
    } else {
        push_decimal(out, n / 10);
        out.push(48 + (n % 10) as u8);
        assert(out@ =~= old(out)@ + dec_repr(n as nat));
    }
}

/// The shortest decimal digit string for `n`, most significant digit first.
pub open spec fn dec_repr(n: nat) -> Seq<u8>
    decreases n,
{
    if n < 10 {
        seq![(48 + n) as u8]
    } else {
        dec_repr(n / 10).push((48 + n % 10) as u8)
    }
}

pub proof fn lemma_dec_repr_digits(n: nat)
    ensures
        dec_repr(n).len() >= 1,
        forall|i: int| 0 <= i < dec_repr(n).len() ==> #[trigger] is_digit(dec_repr(n)[i]),
    decreases n,
{
    if n >= 10 {
        lemma_dec_repr_digits(n / 10);
    }
}

/// Decimal rendering and digit-string decoding are mutually inverse.
pub proof fn lemma_dec_repr_val(n: nat)
    ensures
        digits_val(dec_repr(n)) == n,
    decreases n,
{
    assert(digits_val(Seq::<u8>::empty()) == 0);
    if n < 10 {
        let d = (48 + n) as u8;
        assert(d == 48 + n);
        assert(dec_repr(n) == seq![d]);
        assert(seq![d].drop_last() =~= Seq::<u8>::empty());
        assert(seq![d].last() == d);
        assert(digits_val(seq![d]) == digits_val(Seq::<u8>::empty()) * 10 + (d - 48) as nat);
    } else {
        lemma_dec_repr_val(n / 10);
        let d = (48 + n % 10) as u8;
        assert(dec_repr(n) == dec_repr(n / 10).push(d));
        assert(dec_repr(n).drop_last() =~= dec_repr(n / 10));
        assert(dec_repr(n).last() == d);
        assert((d - 48) as nat == n % 10);
        vstd::arithmetic::div_mod::lemma_fundamental_div_mod(n as int, 10);
    }
}

/// Appends all of `s`.
pub fn push_bytes(out: &mut Vec<u8>, s: &Vec<u8>)
    ensures
        final(out)@ == old(out)@ + s@,
{
    let mut j: usize = 0;
    while j < s.len()
        invariant
            j <= s@.len(),
            out@ == old(out)@ + s@.subrange(0, j as int),
        decreases s@.len() - j,
    {
        out.push(s[j]);
        assert(out@ =~= old(out)@ + s@.subrange(0, j + 1));
        j = j + 1;
    }
    assert(out@ =~= old(out)@ + s@);
}

/// Copies a byte string.
pub(crate) fn copy_bytes(v: &Vec<u8>) -> (r: Vec<u8>)
    ensures
        r@ == v@,
{
    let mut out: Vec<u8> = Vec::new();
    push_bytes(&mut out, v);
    proof {
        assert(out@ =~= v@);
    }
    out
}

/// Exact byte-string equality.
pub(crate) fn bytes_eq(a: &Vec<u8>, b: &Vec<u8>) -> (r: bool)
    ensures
        r == (a@ == b@),
{
    if a.len() != b.len() {
        return false;
    }
    let mut i: usize = 0;
    while i < a.len()
        invariant
            i <= a@.len(),
            a@.len() == b@.len(),
            forall|j: int| 0 <= j < i ==> a@[j] == b@[j],
        decreases a@.len() - i,
    {
        if a[i] != b[i] {
            return false;
        }
        i = i + 1;
    }
    proof {
        assert(a@ =~= b@);
    }
    true
}

/// The wire encoding of a payload as a bulk string.
pub open spec fn encoded_bulk(s: Seq<u8>) -> Seq<u8> {
    seq![BULK_MARKER] + dec_repr(s.len()) + seq![CR, LF] + s + seq![CR, LF]
}

/// Encodes a payload as a bulk string: `$<len>\r\n<bytes>\r\n`.
pub fn encode_bulk_string(s: &Vec<u8>) -> (r: Vec<u8>)
    ensures
        r@ == encoded_bulk(s@),
{
    let mut out: Vec<u8> = Vec::new();
    out.push(BULK_MARKER);
    push_decimal(&mut out, s.len());
    out.push(CR);
    out.push(LF);
    push_bytes(&mut out, s);
    out.push(CR);
    out.push(LF);
    proof {
        assert(out@ =~= encoded_bulk(s@));
    }
    out
}

/// Round trip: a bulk-string encoding always decodes back to its payload,
/// consuming exactly the encoded bytes.
pub proof fn lemma_bulk_string_round_trip(s: Seq<u8>)
    requires
        s.len() <= usize::MAX,
    ensures
        bulk_ok(encoded_bulk(s), 0),
        bulk_content(encoded_bulk(s), 0) == s,
        bulk_end(encoded_bulk(s), 0) == encoded_bulk(s).len(),
        bulk_len(encoded_bulk(s), 0) == s.len(),
{
    let e = encoded_bulk(s);
    let d = dec_repr(s.len()).len() as int;
    lemma_dec_repr_digits(s.len());
    lemma_dec_repr_val(s.len());
    assert(forall|j: int| 1 <= j < 1 + d ==> #[trigger] is_digit(e[j]));
    assert(!is_digit(e[1 + d]));
    lemma_digit_run_end_of_run(e, 1, 1 + d);
    assert(e.subrange(1, 1 + d) =~= dec_repr(s.len()));
    assert(bulk_content(e, 0) =~= s);
}

/// A reply value, rendered to the wire by `encode_reply`: a simple string,
/// the null bulk string (key absent or expired), an array of bulk strings,
/// or an error line.
pub enum Reply {
    Simple(Vec<u8>),
    NullBulk,
    Array(Vec<Vec<u8>>),
    Error(Vec<u8>),
}

/// The mathematical model of a `Reply`.
pub enum ReplyView {
    Simple(Seq<u8>),
    NullBulk,
    Array(Seq<Seq<u8>>),
    Error(Seq<u8>),
}

impl View for Reply {
    type V = ReplyView;

    open spec fn view(&self) -> ReplyView {
        match self {
            Reply::Simple(s) => ReplyView::Simple(s@),
            Reply::NullBulk => ReplyView::NullBulk,
            Reply::Array(items) => ReplyView::Array(items.deep_view()),
            Reply::Error(m) => ReplyView::Error(m@),
        }
    }
}

/// The concatenated bulk-string encodings of `items`, in order.
pub open spec fn encoded_bulks(items: Seq<Seq<u8>>) -> Seq<u8>
    decreases items.len(),
{
    if items.len() == 0 {
        Seq::empty()
    } else {
        encoded_bulks(items.drop_last()) + encoded_bulk(items.last())
    }
}

/// The wire encoding of a reply: `+<text>\r\n`, `$-1\r\n`,
/// `*<n>\r\n` followed by `n` bulk strings, or `-ERR <msg>\r\n`.
pub open spec fn encoded_reply(r: ReplyView) -> Seq<u8> {
    match r {
        ReplyView::Simple(s) => seq![43u8] + s + seq![CR, LF],
        ReplyView::NullBulk => seq![BULK_MARKER, 45u8, 49u8, CR, LF],
        ReplyView::Array(items) => seq![ARRAY_MARKER] + dec_repr(items.len()) + seq![CR, LF]
            + encoded_bulks(items),
        ReplyView::Error(m) => seq![45u8, 69u8, 82u8, 82u8, 32u8] + m + seq![CR, LF],
    }
}

/// Renders a reply into its wire form.
pub fn encode_reply(r: &Reply) -> (out: Vec<u8>)
    ensures
        out@ == encoded_reply(r@),
{
    let mut out: Vec<u8> = Vec::new();
    match r {
        Reply::Simple(s) => {
            out.push(43);
            push_bytes(&mut out, s);
            out.push(CR);
            out.push(LF);
            proof {
                assert(out@ =~= encoded_reply(r@));
            }
        },
        Reply::NullBulk => {
            out.push(BULK_MARKER);
            out.push(45);
            out.push(49);
            out.push(CR);
            out.push(LF);
            proof {
                assert(out@ =~= encoded_reply(r@));
            }
        },
        Reply::Array(items) => {
            let ghost dv = items.deep_view();
            proof {
                assert(dv.len() == items@.len());
            }
            out.push(ARRAY_MARKER);
            push_decimal(&mut out, items.len());
            out.push(CR);
            out.push(LF);
            let ghost header = out@;
            let mut j: usize = 0;
            while j < items.len()
                invariant
                    j <= items@.len(),
                    dv == items.deep_view(),
                    dv.len() == items@.len(),
                    out@ == header + encoded_bulks(dv.take(j as int)),
                decreases items@.len() - j,
            {
                let enc = encode_bulk_string(&items[j]);
                push_bytes(&mut out, &enc);
                proof {
                    assert(dv.take(j + 1).drop_last() =~= dv.take(j as int));
                    assert(items@[j as int].deep_view() =~= items@[j as int]@);
                    assert(dv.take(j + 1).last() == items@[j as int]@);
                    assert(out@ =~= header + encoded_bulks(dv.take(j + 1)));
                }
                j = j + 1;
            }
            proof {
                assert(dv.take(dv.len() as int) =~= dv);
                assert(out@ =~= encoded_reply(r@));
            }
        },
        Reply::Error(m) => {
            out.push(45);
            out.push(69);
            out.push(82);
            out.push(82);
            out.push(32);
            push_bytes(&mut out, m);
            out.push(CR);
            out.push(LF);
            proof {
                assert(out@ =~= encoded_reply(r@));
            }
        },
    }
    out
}

/// Decodes the length field at the start of `buf`; see `decode_length_at`.
pub fn decode_length(buf: &[u8]) -> (r: Result<(usize, usize), ProtocolError>)
    ensures
        match r {
            Ok(vc) => {
                &&& length_field_ok(buf@, 0)
                &&& length_field_val(buf@, 0) <= usize::MAX
                &&& vc.0 == length_field_val(buf@, 0)
                &&& vc.1 == length_field_end(buf@, 0)
                &&& vc.1 <= buf@.len()
            },
            Err(_) => !(length_field_ok(buf@, 0) && length_field_val(buf@, 0) <= usize::MAX),
        },
{
    decode_length_at(buf, 0)
}

} // verus!
