use vstd::prelude::*;
use vstd::slice::{slice_index_get, slice_subrange};

use crate::error::Error;

verus! {

broadcast use vstd::std_specs::vec::group_vec_axioms, vstd::seq::group_seq_axioms;

// ---------------------------------------------------------------------------
// The wire grammar, as a mathematical parser over byte sequences.
//
//   value      = integer | bytestring | list | dict
//   integer    = "i" ["-"] 1*DIGIT "e"
//   bytestring = 1*DIGIT ":" <exactly that many raw bytes>
//   list       = "l" *value "e"
//   dict       = "d" *(bytestring value) "e"
//
// Each spec parser returns the outcome together with the suffix of the
// input that remains, exactly as the executable cursor leaves it — on
// failure as well as on success.  The executable parsers' contracts state
// that they return precisely these outcomes.
// ---------------------------------------------------------------------------

/// ASCII `0`, the least digit byte.
pub const BYTE_0: u8 = 48;

/// ASCII `9`, the greatest digit byte.
pub const BYTE_9: u8 = 57;

/// ASCII `-`, the sign of a negative integer literal.
pub const BYTE_MINUS: u8 = 45;

/// ASCII `:`, between a byte-string length and its bytes.
pub const BYTE_COLON: u8 = 58;

/// ASCII `i`, opening an integer token.
pub const BYTE_I: u8 = 105;

/// ASCII `e`, closing an integer, list or dictionary.
pub const BYTE_E: u8 = 101;

/// ASCII `l`, opening a list.
pub const BYTE_L: u8 = 108;

/// ASCII `d`, opening a dictionary.
pub const BYTE_D: u8 = 100;

/// `b` is an ASCII decimal digit.
pub open spec fn is_digit(b: u8) -> bool {
    BYTE_0 <= b <= BYTE_9
}

/// Numeric value of one digit byte.
pub open spec fn digit_val(b: u8) -> nat {
    (b - BYTE_0) as nat
}

/// Length of the maximal run of digits at the front of `s`.
pub open spec fn digit_run_len(s: Seq<u8>) -> nat
    decreases s.len(),
{
    if s.len() == 0 || !is_digit(s[0]) {
        0
    } else {
        1 + digit_run_len(s.skip(1))
    }
}

/// Decimal value of a sequence of digit bytes, most significant first.
pub open spec fn dec_value(ds: Seq<u8>) -> nat
    decreases ds.len(),
{
    if ds.len() == 0 {
        0
    } else {
        dec_value(ds.drop_last()) * 10 + digit_val(ds.last())
    }
}

/// Outcome of reading an unsigned decimal literal: a maximal digit run,
/// rejected when it is absent or its value exceeds `u64::MAX`.
pub open spec fn spec_parse_unsigned(s: Seq<u8>) -> (Result<u64, Error>, Seq<u8>) {
    if s.len() == 0 {
        (Err(Error::Eof), s)
    } else if !is_digit(s[0]) {
        (Err(Error::ExpectedInteger), s.skip(1))
    } else {
        let n = digit_run_len(s) as int;
        let v = dec_value(s.take(n));
        if v > u64::MAX {
            (Err(Error::IntegerOverflow), s.skip(n))
        } else {
            (Ok(v as u64), s.skip(n))
        }
    }
}

/// Outcome of reading an optional `-` sign followed by an unsigned
/// literal; the signed value must fit in `i64`.
pub open spec fn spec_parse_signed(s: Seq<u8>) -> (Result<i64, Error>, Seq<u8>) {
    if s.len() == 0 {
        (Err(Error::Eof), s)
    } else {
        let neg = s[0] == BYTE_MINUS;
        let body = if neg { s.skip(1) } else { s };
        let (r, rest) = spec_parse_unsigned(body);
        match r {
            Err(e) => (Err(e), rest),
            Ok(m) => {
                let v: int = if neg { -(m as int) } else { m as int };
                if i64::MIN <= v <= i64::MAX {
                    (Ok(v as i64), rest)
                } else {
                    (Err(Error::IntegerOverflow), rest)
                }
            },
        }
    }
}

/// Outcome of reading a delimited integer token `i ... e`.  As in the
/// reference behaviour, a failure inside the signed literal is reported
/// only when the token is otherwise properly closed by `e`; a wrong
/// closing byte wins with `ExpectedE`.
pub open spec fn spec_parse_num(s: Seq<u8>) -> (Result<i64, Error>, Seq<u8>) {
    if s.len() == 0 {
        (Err(Error::Eof), s)
    } else if s[0] != BYTE_I {
        (Err(Error::ExpectedI), s.skip(1))
    } else {
        let (r, rest) = spec_parse_signed(s.skip(1));
        if rest.len() == 0 {
            (Err(Error::Eof), rest)
        } else if rest[0] == BYTE_E {
            (r, rest.skip(1))
        } else {
            (Err(Error::ExpectedE), rest.skip(1))
        }
    }
}

/// Outcome of reading a length-prefixed byte string `<len> : <bytes>`.
/// A length that runs past the end of the input is a typed error.
pub open spec fn spec_parse_byte_array(s: Seq<u8>) -> (Result<Seq<u8>, Error>, Seq<u8>) {
    let (r, rest) = spec_parse_unsigned(s);
    match r {
        Err(e) => (Err(e), rest),
        Ok(len) => {
            if rest.len() == 0 {
                (Err(Error::Eof), rest)
            } else if rest[0] != BYTE_COLON {
                (Err(Error::ExpectedColon), rest.skip(1))
            } else {
                let body = rest.skip(1);
                if len > body.len() {
                    (Err(Error::LengthOutOfBounds), body)
                } else {
                    (Ok(body.take(len as int)), body.skip(len as int))
                }
            }
        },
    }
}

// ---------------------------------------------------------------------------
// Decoded nodes, as mathematical values.
// ---------------------------------------------------------------------------

/// A decoded Bencode node, as a mathematical value: an integer, a byte
/// string, an ordered list of nodes, or an ordered sequence of key/value
/// pairs whose keys are byte strings.
pub enum SpecValue {
    Int(i64),
    Bytes(Seq<u8>),
    List(Seq<SpecValue>),
    Dict(Seq<(Seq<u8>, SpecValue)>),
}

// ---------------------------------------------------------------------------
// The decoding engine, as a mathematical parser: dispatch by the leading
// byte, with pull-based element and pair iteration.  The guards comparing
// the lengths of successive suffixes only justify termination; the
// progress lemmas below show they always hold.
// ---------------------------------------------------------------------------

/// Outcome of decoding one value: dispatch on the next wire byte.
pub open spec fn spec_parse_value(s: Seq<u8>) -> (Result<SpecValue, Error>, Seq<u8>)
    decreases s.len(), 1int,
{
    if s.len() == 0 {
        (Err(Error::Eof), s)
    } else if s[0] == BYTE_I {
        let (r, rest) = spec_parse_num(s);
        match r {
            Ok(n) => (Ok(SpecValue::Int(n)), rest),
            Err(e) => (Err(e), rest),
        }
    } else if is_digit(s[0]) {
        let (r, rest) = spec_parse_byte_array(s);
        match r {
            Ok(b) => (Ok(SpecValue::Bytes(b)), rest),
            Err(e) => (Err(e), rest),
        }
    } else if s[0] == BYTE_L {
        let (r, rest) = spec_parse_list(s);
        match r {
            Ok(items) => (Ok(SpecValue::List(items)), rest),
            Err(e) => (Err(e), rest),
        }
    } else if s[0] == BYTE_D {
        let (r, rest) = spec_parse_dict(s);
        match r {
            Ok(pairs) => (Ok(SpecValue::Dict(pairs)), rest),
            Err(e) => (Err(e), rest),
        }
    } else {
        (Err(Error::Syntax), s)
    }
}

/// Outcome of decoding a whole list: `l`, the elements, `e`.
pub open spec fn spec_parse_list(s: Seq<u8>) -> (Result<Seq<SpecValue>, Error>, Seq<u8>)
    decreases s.len(), 0int,
{
    if s.len() == 0 {
        (Err(Error::Eof), s)
    } else if s[0] != BYTE_L {
        (Err(Error::ExpectedList), s.skip(1))
    } else {
        let (r, rest) = spec_parse_items(s.skip(1));
        match r {
            Err(e) => (Err(e), rest),
            Ok(items) => {
                if rest.len() == 0 {
                    (Err(Error::Eof), rest)
                } else if rest[0] == BYTE_E {
                    (Ok(items), rest.skip(1))
                } else {
                    (Err(Error::ExpectedListEnd), rest.skip(1))
                }
            },
        }
    }
}

/// Outcome of decoding a whole dictionary: `d`, the pairs, `e`.
pub open spec fn spec_parse_dict(s: Seq<u8>) -> (Result<Seq<(Seq<u8>, SpecValue)>, Error>, Seq<u8>)
    decreases s.len(), 0int,
{
    if s.len() == 0 {
        (Err(Error::Eof), s)
    } else if s[0] != BYTE_D {
        (Err(Error::ExpectedDict), s.skip(1))
    } else {
        let (r, rest) = spec_parse_pairs(s.skip(1));
        match r {
            Err(e) => (Err(e), rest),
            Ok(pairs) => {
                if rest.len() == 0 {
                    (Err(Error::Eof), rest)
                } else if rest[0] == BYTE_E {
                    (Ok(pairs), rest.skip(1))
                } else {
                    (Err(Error::ExpectedDictEnd), rest.skip(1))
                }
            },
        }
    }
}

/// Outcome of pulling list elements until the closing `e` comes into
/// view; the `e` itself is left unconsumed.
pub open spec fn spec_parse_items(s: Seq<u8>) -> (Result<Seq<SpecValue>, Error>, Seq<u8>)
    decreases s.len(), 2int,
{
    if s.len() == 0 {
        (Err(Error::Eof), s)
    } else if s[0] == BYTE_E {
        (Ok(Seq::<SpecValue>::empty()), s)
    } else {
        let (r, rest) = spec_parse_value(s);
        match r {
            Err(e) => (Err(e), rest),
            Ok(v) => {
                if rest.len() < s.len() {
                    let (r2, rest2) = spec_parse_items(rest);
                    match r2 {
                        Ok(vs) => (Ok(seq![v] + vs), rest2),
                        Err(e) => (Err(e), rest2),
                    }
                } else {
                    (Err(Error::Syntax), rest)
                }
            },
        }
    }
}

/// Outcome of pulling key/value pairs until the closing `e` comes into
/// view; each key is a byte string, each value one recursive node.
pub open spec fn spec_parse_pairs(s: Seq<u8>) -> (Result<Seq<(Seq<u8>, SpecValue)>, Error>, Seq<
    u8,
>)
    decreases s.len(), 2int,
{
    if s.len() == 0 {
        (Err(Error::Eof), s)
    } else if s[0] == BYTE_E {
        (Ok(Seq::<(Seq<u8>, SpecValue)>::empty()), s)
    } else {
        let (rk, rest1) = spec_parse_byte_array(s);
        match rk {
            Err(e) => (Err(e), rest1),
            Ok(key) => {
                if rest1.len() <= s.len() {
                    let (rv, rest2) = spec_parse_value(rest1);
                    match rv {
                        Err(e) => (Err(e), rest2),
                        Ok(val) => {
                            if rest2.len() < s.len() {
                                let (rp, rest3) = spec_parse_pairs(rest2);
                                match rp {
                                    Ok(ps) => (Ok(seq![(key, val)] + ps), rest3),
                                    Err(e) => (Err(e), rest3),
                                }
                            } else {
                                (Err(Error::Syntax), rest2)
                            }
                        },
                    }
                } else {
                    (Err(Error::Syntax), rest1)
                }
            },
        }
    }
}

/// Outcome of a whole decode: exactly one value, consuming the entire
/// buffer; remaining bytes are `TrailingCharacters`.
pub open spec fn spec_from_bytes(s: Seq<u8>) -> Result<SpecValue, Error> {
    let (r, rest) = spec_parse_value(s);
    match r {
        Err(e) => Err(e),
        Ok(v) => {
            if rest.len() == 0 {
                Ok(v)
            } else {
                Err(Error::TrailingCharacters)
            }
        },
    }
}

// ---------------------------------------------------------------------------
// Laws of the decoder.
// ---------------------------------------------------------------------------

/// The byte encoding `i<digits>e` of an integer literal, with an optional
/// leading minus sign.
pub open spec fn int_literal(digits: Seq<u8>, neg: bool) -> Seq<u8> {
    seq![BYTE_I] + (if neg {
        seq![BYTE_MINUS]
    } else {
        Seq::<u8>::empty()
    }) + digits + seq![BYTE_E]
}

/// A run of digits followed by anything that is not a digit parses as
/// exactly that run.
proof fn lemma_digit_run_of_digits(t: Seq<u8>, u: Seq<u8>)
    requires
        forall|j: int| 0 <= j < t.len() ==> is_digit(t[j]),
        u.len() > 0 ==> !is_digit(u[0]),
    ensures
        digit_run_len(t + u) == t.len(),
        (t + u).take(t.len() as int) == t,
        (t + u).skip(t.len() as int) == u,
    decreases t.len(),
{
    if t.len() == 0 {
        assert(t + u =~= u);
        assert((t + u).take(0) =~= t);
        assert((t + u).skip(0) =~= u);
    } else {
        lemma_digit_run_of_digits(t.skip(1), u);
        assert((t + u).skip(1) =~= t.skip(1) + u);
        assert((t + u).take(t.len() as int) =~= t);
        assert((t + u).skip(t.len() as int) =~= u);
    }
}

/// Law: every well-formed integer literal decodes to exactly its value,
/// negative ones included.  For any nonempty digit run whose decimal
/// value fits in `i64` (after negation when the sign is present),
/// `i<digits>e` parses to that value and consumes the whole literal, and
/// a whole-buffer decode returns exactly that integer node.
pub proof fn lemma_int_literal_value(digits: Seq<u8>, neg: bool)
    requires
        digits.len() > 0,
        forall|j: int| 0 <= j < digits.len() ==> is_digit(digits[j]),
        neg ==> dec_value(digits) <= i64::MAX as nat + 1,
        !neg ==> dec_value(digits) <= i64::MAX as nat,
    ensures
        spec_parse_num(int_literal(digits, neg)).0 == Ok::<i64, Error>(
            (if neg {
                -(dec_value(digits) as int)
            } else {
                dec_value(digits) as int
            }) as i64,
        ),
        spec_parse_num(int_literal(digits, neg)).1 == Seq::<u8>::empty(),
        spec_from_bytes(int_literal(digits, neg)) == Ok::<SpecValue, Error>(
            SpecValue::Int(
                (if neg {
                    -(dec_value(digits) as int)
                } else {
                    dec_value(digits) as int
                }) as i64,
            ),
        ),
{
    let s = int_literal(digits, neg);
    let tail = seq![BYTE_E];
    lemma_digit_run_of_digits(digits, tail);
    assert(s[0] == BYTE_I);
    if neg {
        assert(s.skip(1) =~= seq![BYTE_MINUS] + (digits + tail));
        assert(s.skip(1)[0] == BYTE_MINUS);
        assert(s.skip(1).skip(1) =~= digits + tail);
    } else {
        assert(s.skip(1) =~= digits + tail);
        assert(s.skip(1)[0] == digits[0]);
    }
    let body = digits + tail;
    assert(body[0] == digits[0]);
    assert(spec_parse_unsigned(body).0 == Ok::<u64, Error>(dec_value(digits) as u64));
    assert(spec_parse_unsigned(body).1 == tail);
    assert(tail.skip(1) =~= Seq::<u8>::empty());
}

/// Law: every well-formed byte-string literal decodes to exactly its
/// payload, the empty payload included.  For any nonempty digit run whose
/// decimal value is the payload's length, `<digits>:<payload>` parses to
/// the payload and consumes the whole literal, and a whole-buffer decode
/// returns exactly that byte-string node.
pub proof fn lemma_byte_string_literal(digits: Seq<u8>, payload: Seq<u8>)
    requires
        digits.len() > 0,
        forall|j: int| 0 <= j < digits.len() ==> is_digit(digits[j]),
        dec_value(digits) == payload.len(),
        payload.len() <= u64::MAX,
    ensures
        spec_parse_byte_array(digits + seq![BYTE_COLON] + payload).0 == Ok::<Seq<u8>, Error>(
            payload,
        ),
        spec_parse_byte_array(digits + seq![BYTE_COLON] + payload).1 == Seq::<u8>::empty(),
        spec_from_bytes(digits + seq![BYTE_COLON] + payload) == Ok::<SpecValue, Error>(
            SpecValue::Bytes(payload),
        ),
{
    let s = digits + seq![BYTE_COLON] + payload;
    let tail = seq![BYTE_COLON] + payload;
    assert(s =~= digits + tail);
    lemma_digit_run_of_digits(digits, tail);
    assert(s[0] == digits[0]);
    assert(spec_parse_unsigned(s).0 == Ok::<u64, Error>(payload.len() as u64));
    assert(spec_parse_unsigned(s).1 == tail);
    assert(tail[0] == BYTE_COLON);
    assert(tail.skip(1) =~= payload);
    assert(payload.take(payload.len() as int) =~= payload);
    assert(payload.skip(payload.len() as int) =~= Seq::<u8>::empty());
}

/// Law: decoding is a pure function of the buffer's bytes.  Two decodes
/// of buffers holding the same bytes — in particular two decodes of one
/// buffer on independent cursors — give identical outcomes; and the
/// decoder only ever reads the buffer it is given.
pub proof fn lemma_decode_deterministic(s1: Seq<u8>, s2: Seq<u8>)
    requires
        s1 == s2,
    ensures
        spec_from_bytes(s1) == spec_from_bytes(s2),
{
}

// ---------------------------------------------------------------------------
// How much input each token parser consumes: never more than there is, and
// at least one byte whenever it succeeds.
// ---------------------------------------------------------------------------

pub proof fn lemma_digit_run_len_le(s: Seq<u8>)
    ensures
        digit_run_len(s) <= s.len(),
    decreases s.len(),
{
    if s.len() > 0 && is_digit(s[0]) {
        lemma_digit_run_len_le(s.skip(1));
    }
}

pub proof fn lemma_parse_unsigned_rest(s: Seq<u8>)
    ensures
        spec_parse_unsigned(s).1.len() <= s.len(),
        spec_parse_unsigned(s).0 is Ok ==> spec_parse_unsigned(s).1.len() < s.len(),
{
    lemma_digit_run_len_le(s);
}

pub proof fn lemma_parse_signed_rest(s: Seq<u8>)
    ensures
        spec_parse_signed(s).1.len() <= s.len(),
        spec_parse_signed(s).0 is Ok ==> spec_parse_signed(s).1.len() < s.len(),
{
    if s.len() > 0 {
        if s[0] == BYTE_MINUS {
            lemma_parse_unsigned_rest(s.skip(1));
        } else {
            lemma_parse_unsigned_rest(s);
        }
    }
}

pub proof fn lemma_parse_num_rest(s: Seq<u8>)
    ensures
        spec_parse_num(s).1.len() <= s.len(),
        spec_parse_num(s).0 is Ok ==> spec_parse_num(s).1.len() < s.len(),
{
    if s.len() > 0 && s[0] == BYTE_I {
        lemma_parse_signed_rest(s.skip(1));
    }
}

pub proof fn lemma_parse_byte_array_rest(s: Seq<u8>)
    ensures
        spec_parse_byte_array(s).1.len() <= s.len(),
        spec_parse_byte_array(s).0 is Ok ==> spec_parse_byte_array(s).1.len() < s.len(),
{
    lemma_parse_unsigned_rest(s);
}

pub proof fn lemma_parse_value_progress(s: Seq<u8>)
    ensures
        spec_parse_value(s).1.len() <= s.len(),
        spec_parse_value(s).0 is Ok ==> spec_parse_value(s).1.len() < s.len(),
    decreases s.len(), 1int,
{
    if s.len() > 0 {
        if s[0] == BYTE_I {
            lemma_parse_num_rest(s);
        } else if is_digit(s[0]) {
            lemma_parse_byte_array_rest(s);
        } else if s[0] == BYTE_L {
            lemma_parse_list_progress(s);
        } else if s[0] == BYTE_D {
            lemma_parse_dict_progress(s);
        }
    }
}

pub proof fn lemma_parse_list_progress(s: Seq<u8>)
    ensures
        spec_parse_list(s).1.len() <= s.len(),
        spec_parse_list(s).0 is Ok ==> spec_parse_list(s).1.len() < s.len(),
    decreases s.len(), 0int,
{
    if s.len() > 0 && s[0] == BYTE_L {
        lemma_parse_items_progress(s.skip(1));
    }
}

pub proof fn lemma_parse_dict_progress(s: Seq<u8>)
    ensures
        spec_parse_dict(s).1.len() <= s.len(),
        spec_parse_dict(s).0 is Ok ==> spec_parse_dict(s).1.len() < s.len(),
    decreases s.len(), 0int,
{
    if s.len() > 0 && s[0] == BYTE_D {
        lemma_parse_pairs_progress(s.skip(1));
    }
}

pub proof fn lemma_parse_items_progress(s: Seq<u8>)
    ensures
        spec_parse_items(s).1.len() <= s.len(),
    decreases s.len(), 2int,
{
    if s.len() > 0 && s[0] != BYTE_E {
        lemma_parse_value_progress(s);
        let (r, rest) = spec_parse_value(s);
        if r is Ok && rest.len() < s.len() {
            lemma_parse_items_progress(rest);
        }
    }
}

pub proof fn lemma_parse_pairs_progress(s: Seq<u8>)
    ensures
        spec_parse_pairs(s).1.len() <= s.len(),
    decreases s.len(), 2int,
{
    if s.len() > 0 && s[0] != BYTE_E {
        lemma_parse_byte_array_rest(s);
        let (rk, rest1) = spec_parse_byte_array(s);
        if rk is Ok && rest1.len() <= s.len() {
            lemma_parse_value_progress(rest1);
            let (rv, rest2) = spec_parse_value(rest1);
            if rv is Ok && rest2.len() < s.len() {
                lemma_parse_pairs_progress(rest2);
            }
        }
    }
}

// ---------------------------------------------------------------------------
// The cursor: a view over the remaining undecoded suffix of the input.
// ---------------------------------------------------------------------------

/// The decoder state: a shrinking window over the caller's buffer.  The
/// underlying bytes are never copied and never written.
pub struct Deserializer<'de> {
    input: &'de [u8],
}

impl<'de> Deserializer<'de> {
    /// The bytes not yet consumed.
    pub closed spec fn view(&self) -> Seq<u8> {
        self.input@
    }

    /// Wraps a buffer; every byte of it is still to be decoded.
    pub fn from_bytes(input: &'de [u8]) -> (r: Self)
        ensures
            r@ == input@,
    {
        Deserializer { input }
    }

    /// The remaining undecoded suffix, borrowed from the original buffer.
    pub fn remaining(&self) -> (r: &'de [u8])
        ensures
            r@ == self@,
    {
        self.input
    }

    /// Reads the next byte without consuming it.
    pub fn peek_byte(&self) -> (r: Result<u8, Error>)
        ensures
            self@.len() == 0 ==> r == Err::<u8, Error>(Error::Eof),
            self@.len() > 0 ==> r == Ok::<u8, Error>(self@[0]),
    {
        if self.input.len() == 0 {
            Err(Error::Eof)
        } else {
            Ok(*slice_index_get(self.input, 0))
        }
    }

    /// Consumes and returns the next byte.
    pub fn next_byte(&mut self) -> (r: Result<u8, Error>)
        ensures
            old(self)@.len() == 0 ==> r == Err::<u8, Error>(Error::Eof) && final (self)@ == old(
                self,
            )@,
            old(self)@.len() > 0 ==> r == Ok::<u8, Error>(old(self)@[0]) && final (self)@ == old(
                self,
            )@.skip(1),
    {
        match self.peek_byte() {
            Err(e) => Err(e),
            Ok(b) => {
                self.input = slice_subrange(self.input, 1, self.input.len());
                proof {
                    assert(self@ =~= old(self)@.skip(1));
                }
                Ok(b)
            },
        }
    }

    /// The next byte exists and is a digit.
    fn digit_next(&self) -> (r: bool)
        ensures
            r == (self@.len() > 0 && is_digit(self@[0])),
    {
        match self.peek_byte() {
            Ok(b) => BYTE_0 <= b && b <= BYTE_9,
            Err(_) => false,
        }
    }

    /// Reads a maximal run of digits as an unsigned decimal number.  The
    /// first byte must be a digit; a value beyond `u64::MAX` is a typed
    /// error rather than a silent wraparound.
    pub fn parse_unsigned(&mut self) -> (r: Result<u64, Error>)
        ensures
            r == spec_parse_unsigned(old(self)@).0,
            final(self)@ == spec_parse_unsigned(old(self)@).1,
    {
        let ghost s0 = self@;
        let first = match self.next_byte() {
            Err(e) => { return Err(e) },
            Ok(b) => b,
        };
        if !(BYTE_0 <= first && first <= BYTE_9) {
            return Err(Error::ExpectedInteger);
        }
        let mut val: u64 = (first - BYTE_0) as u64;
        let mut overflow = false;
        let ghost mut i: int = 1;
        proof {
            assert(s0.take(1).drop_last() =~= Seq::<u8>::empty());
            assert(s0.take(1).last() == s0[0]);
            assert(dec_value(s0.take(1)) == dec_value(Seq::<u8>::empty()) * 10 + digit_val(s0[0]));
            lemma_digit_run_len_le(s0);
        }
        while self.digit_next()
            invariant
                1 <= i <= s0.len(),
                s0.len() > 0 && is_digit(s0[0]),
                self@ == s0.skip(i),
                digit_run_len(s0) == i + digit_run_len(s0.skip(i)),
                !overflow ==> val == dec_value(s0.take(i)),
                overflow ==> dec_value(s0.take(i)) > u64::MAX,
            decreases s0.len() - i,
        {
            let b = match self.next_byte() {
                Err(e) => { return Err(e) },
                Ok(b) => b,
            };
            proof {
                assert(s0.skip(i)[0] == s0[i]);
                assert(s0.skip(i).skip(1) =~= s0.skip(i + 1));
                assert(s0.take(i + 1).drop_last() =~= s0.take(i));
                assert(s0.take(i + 1).last() == s0[i]);
            }
            let d = (b - BYTE_0) as u64;
            if !overflow {
                match val.checked_mul(10) {
                    None => {
                        overflow = true;
                    },
                    Some(v10) => {
                        match v10.checked_add(d) {
                            None => {
                                overflow = true;
                            },
                            Some(v) => {
                                val = v;
                            },
                        }
                    },
                }
            } else {
                proof {
                    assert(dec_value(s0.take(i)) * 10 >= dec_value(s0.take(i)))
                        by (nonlinear_arith)
                        requires dec_value(s0.take(i)) >= 0;
                }
            }
            proof {
                i = i + 1;
            }
        }
        proof {
            assert(digit_run_len(s0.skip(i)) == 0);
            assert(digit_run_len(s0) == i);
        }
        if overflow {
            Err(Error::IntegerOverflow)
        } else {
            Ok(val)
        }
    }

    /// Reads an optional leading `-`, then an unsigned literal, and
    /// negates the result when the sign was present.  A value outside the
    /// range of `i64` is a typed error.
    pub fn parse_signed(&mut self) -> (r: Result<i64, Error>)
        ensures
            r == spec_parse_signed(old(self)@).0,
            final(self)@ == spec_parse_signed(old(self)@).1,
    {
        let neg = match self.peek_byte() {
            Err(e) => { return Err(e) },
            Ok(b) => b == BYTE_MINUS,
        };
        if neg {
            let _ = self.next_byte();
        }
        let m = match self.parse_unsigned() {
            Err(e) => { return Err(e) },
            Ok(m) => m,
        };
        if neg {
            if m <= i64::MAX as u64 {
                Ok(-(m as i64))
            } else if m == (i64::MAX as u64) + 1 {
                Ok(i64::MIN)
            } else {
                Err(Error::IntegerOverflow)
            }
        } else {
            if m <= i64::MAX as u64 {
                Ok(m as i64)
            } else {
                Err(Error::IntegerOverflow)
            }
        }
    }

    /// Reads a delimited integer token: `i`, a signed literal, `e`.
    pub fn parse_num(&mut self) -> (r: Result<i64, Error>)
        ensures
            r == spec_parse_num(old(self)@).0,
            final(self)@ == spec_parse_num(old(self)@).1,
    {
        match self.next_byte() {
            Err(e) => { return Err(e) },
            Ok(b) => {
                if b != BYTE_I {
                    return Err(Error::ExpectedI);
                }
            },
        }
        let n = self.parse_signed();
        match self.next_byte() {
            Err(e) => Err(e),
            Ok(b) => if b == BYTE_E {
                n
            } else {
                Err(Error::ExpectedE)
            },
        }
    }

    /// Reads a length-prefixed byte string and returns its bytes as a
    /// window into the original buffer, without copying.  A length
    /// running past the end of the input is a typed error.
    pub fn parse_byte_array(&mut self) -> (r: Result<&'de [u8], Error>)
        ensures
            final(self)@ == spec_parse_byte_array(old(self)@).1,
            (match r {
                Ok(b) => spec_parse_byte_array(old(self)@).0 == Ok::<Seq<u8>, Error>(b@),
                Err(e) => spec_parse_byte_array(old(self)@).0 == Err::<Seq<u8>, Error>(e),
            }),
    {
        let length = match self.parse_unsigned() {
            Err(e) => { return Err(e) },
            Ok(l) => l,
        };
        match self.next_byte() {
            Err(e) => { return Err(e) },
            Ok(b) => {
                if b != BYTE_COLON {
                    return Err(Error::ExpectedColon);
                }
            },
        }
        let inp: &'de [u8] = self.input;
        if length > inp.len() as u64 {
            return Err(Error::LengthOutOfBounds);
        }
        let len: usize = length as usize;
        let head = slice_subrange(inp, 0, len);
        self.input = slice_subrange(inp, len, inp.len());
        proof {
            assert(head@ =~= inp@.take(len as int));
            assert(self@ =~= inp@.skip(len as int));
        }
        Ok(head)
    }
}

// ---------------------------------------------------------------------------
// Decoded nodes, as executable values.  Byte strings are windows into the
// original buffer, never copies of it.
// ---------------------------------------------------------------------------

/// A decoded Bencode node.  Byte strings borrow from the buffer handed to
/// the decoder and stay valid for as long as the caller holds it.
#[derive(Debug, PartialEq, Eq)]
pub enum Value<'de> {
    Int(i64),
    Bytes(&'de [u8]),
    List(Vec<Value<'de>>),
    Dict(Vec<(&'de [u8], Value<'de>)>),
}

impl<'de> Value<'de> {
    /// The mathematical value this node stands for.
    pub open spec fn deep_view(self) -> SpecValue
        decreases self, 1int,
    {
        if self is Int {
            SpecValue::Int(self->Int_0)
        } else if self is Bytes {
            SpecValue::Bytes(self->Bytes_0@)
        } else if self is List {
            proof {
                assert(decreases_to!(self => self->List_0));
                assert(decreases_to!(self->List_0 => self->List_0@));
            }
            SpecValue::List(seq_to_spec(self->List_0@))
        } else {
            proof {
                assert(decreases_to!(self => self->Dict_0));
                assert(decreases_to!(self->Dict_0 => self->Dict_0@));
            }
            SpecValue::Dict(pairs_to_spec(self->Dict_0@))
        }
    }
}

/// The mathematical values of a sequence of nodes, element by element.
pub open spec fn seq_to_spec<'de>(vs: Seq<Value<'de>>) -> Seq<SpecValue>
    decreases vs, 0int,
{
    if vs.len() == 0 {
        Seq::<SpecValue>::empty()
    } else {
        proof {
            assert(decreases_to!(vs => vs[0]));
            assert(decreases_to!(vs => vs.subrange(1, vs.len() as int)));
        }
        seq![vs[0].deep_view()] + seq_to_spec(vs.subrange(1, vs.len() as int))
    }
}

/// The mathematical values of a sequence of key/value pairs.
pub open spec fn pairs_to_spec<'de>(ps: Seq<(&'de [u8], Value<'de>)>) -> Seq<(Seq<u8>, SpecValue)>
    decreases ps, 0int,
{
    if ps.len() == 0 {
        Seq::<(Seq<u8>, SpecValue)>::empty()
    } else {
        proof {
            assert(decreases_to!(ps => ps[0]));
            assert(decreases_to!(ps[0] => ps[0].1));
            assert(decreases_to!(ps => ps.subrange(1, ps.len() as int)));
        }
        seq![(ps[0].0@, ps[0].1.deep_view())] + pairs_to_spec(ps.subrange(1, ps.len() as int))
    }
}

proof fn lemma_seq_to_spec_cons<'de>(v: Value<'de>, vs: Seq<Value<'de>>)
    ensures
        seq_to_spec(seq![v] + vs) == seq![v.deep_view()] + seq_to_spec(vs),
{
    let s = seq![v] + vs;
    assert(s.len() > 0);
    assert(s[0] == v);
    assert(s.subrange(1, s.len() as int) =~= vs);
}

proof fn lemma_pairs_to_spec_cons<'de>(k: &'de [u8], v: Value<'de>, ps: Seq<(&'de [u8], Value<'de>)>)
    ensures
        pairs_to_spec(seq![(k, v)] + ps) == seq![(k@, v.deep_view())] + pairs_to_spec(ps),
{
    let s = seq![(k, v)] + ps;
    assert(s.len() > 0);
    assert(s[0] == (k, v));
    assert(s.subrange(1, s.len() as int) =~= ps);
}

// ---------------------------------------------------------------------------
// The decoding engine: dispatch by leading byte, mutually recursive with
// the pull-based element and pair drivers.
// ---------------------------------------------------------------------------

impl<'de> Deserializer<'de> {
    /// Decodes exactly one value, whatever kind the next wire byte
    /// announces: `i` an integer, a digit a byte string, `l` a list, `d`
    /// a dictionary, anything else a syntax error.
    pub fn decode_value(&mut self) -> (r: Result<Value<'de>, Error>)
        ensures
            final(self)@ == spec_parse_value(old(self)@).1,
            (match r {
                Ok(v) => spec_parse_value(old(self)@).0 == Ok::<SpecValue, Error>(v.deep_view()),
                Err(e) => spec_parse_value(old(self)@).0 == Err::<SpecValue, Error>(e),
            }),
        decreases self@.len(), 1int,
    {
        let b = match self.peek_byte() {
            Err(e) => { return Err(e) },
            Ok(b) => b,
        };
        if b == BYTE_I {
            match self.parse_num() {
                Ok(n) => Ok(Value::Int(n)),
                Err(e) => Err(e),
            }
        } else if BYTE_0 <= b && b <= BYTE_9 {
            match self.parse_byte_array() {
                Ok(s) => Ok(Value::Bytes(s)),
                Err(e) => Err(e),
            }
        } else if b == BYTE_L {
            match self.decode_list() {
                Ok(vs) => Ok(Value::List(vs)),
                Err(e) => Err(e),
            }
        } else if b == BYTE_D {
            match self.decode_dict() {
                Ok(ps) => Ok(Value::Dict(ps)),
                Err(e) => Err(e),
            }
        } else {
            Err(Error::Syntax)
        }
    }

    /// Decodes a whole list: `l`, the elements in order, `e`.
    pub fn decode_list(&mut self) -> (r: Result<Vec<Value<'de>>, Error>)
        ensures
            final(self)@ == spec_parse_list(old(self)@).1,
            (match r {
                Ok(vs) => spec_parse_list(old(self)@).0 == Ok::<Seq<SpecValue>, Error>(
                    seq_to_spec(vs@),
                ),
                Err(e) => spec_parse_list(old(self)@).0 == Err::<Seq<SpecValue>, Error>(e),
            }),
        decreases self@.len(), 0int,
    {
        match self.next_byte() {
            Err(e) => { return Err(e) },
            Ok(b) => {
                if b != BYTE_L {
                    return Err(Error::ExpectedList);
                }
            },
        }
        let items = match self.decode_items() {
            Err(e) => { return Err(e) },
            Ok(vs) => vs,
        };
        match self.next_byte() {
            Err(e) => Err(e),
            Ok(b) => if b == BYTE_E {
                Ok(items)
            } else {
                Err(Error::ExpectedListEnd)
            },
        }
    }

    /// Decodes a whole dictionary: `d`, the key/value pairs in order, `e`.
    pub fn decode_dict(&mut self) -> (r: Result<Vec<(&'de [u8], Value<'de>)>, Error>)
        ensures
            final(self)@ == spec_parse_dict(old(self)@).1,
            (match r {
                Ok(ps) => spec_parse_dict(old(self)@).0 == Ok::<
                    Seq<(Seq<u8>, SpecValue)>,
                    Error,
                >(pairs_to_spec(ps@)),
                Err(e) => spec_parse_dict(old(self)@).0 == Err::<
                    Seq<(Seq<u8>, SpecValue)>,
                    Error,
                >(e),
            }),
        decreases self@.len(), 0int,
    {
        match self.next_byte() {
            Err(e) => { return Err(e) },
            Ok(b) => {
                if b != BYTE_D {
                    return Err(Error::ExpectedDict);
                }
            },
        }
        let pairs = match self.decode_pairs() {
            Err(e) => { return Err(e) },
            Ok(ps) => ps,
        };
        match self.next_byte() {
            Err(e) => Err(e),
            Ok(b) => if b == BYTE_E {
                Ok(pairs)
            } else {
                Err(Error::ExpectedDictEnd)
            },
        }
    }

    /// The sequence driver: pulls one element after another until the
    /// closing `e` comes into view, re-entering `decode_value` for each.
    /// The `e` is left for `decode_list` to consume.
    fn decode_items(&mut self) -> (r: Result<Vec<Value<'de>>, Error>)
        ensures
            final(self)@ == spec_parse_items(old(self)@).1,
            (match r {
                Ok(vs) => spec_parse_items(old(self)@).0 == Ok::<Seq<SpecValue>, Error>(
                    seq_to_spec(vs@),
                ),
                Err(e) => spec_parse_items(old(self)@).0 == Err::<Seq<SpecValue>, Error>(e),
            }),
        decreases self@.len(), 2int,
    {
        let b = match self.peek_byte() {
            Err(e) => { return Err(e) },
            Ok(b) => b,
        };
        if b == BYTE_E {
            let out: Vec<Value<'de>> = Vec::new();
            proof {
                assert(seq_to_spec(out@) =~= Seq::<SpecValue>::empty());
            }
            return Ok(out);
        }
        let ghost s0 = self@;
        let v = match self.decode_value() {
            Err(e) => { return Err(e) },
            Ok(v) => v,
        };
        proof {
            lemma_parse_value_progress(s0);
        }
        let mut rest = match self.decode_items() {
            Err(e) => { return Err(e) },
            Ok(vs) => vs,
        };
        let ghost rest0 = rest@;
        let ghost v0 = v;
        let mut out: Vec<Value<'de>> = Vec::new();
        out.push(v);
        out.append(&mut rest);
        proof {
            assert(out@ =~= seq![v0] + rest0);
            lemma_seq_to_spec_cons(v0, rest0);
        }
        Ok(out)
    }

    /// The map driver: pulls one key/value pair after another until the
    /// closing `e` comes into view; each key is a byte string, each value
    /// re-enters `decode_value`.  The `e` is left for `decode_dict`.
    fn decode_pairs(&mut self) -> (r: Result<Vec<(&'de [u8], Value<'de>)>, Error>)
        ensures
            final(self)@ == spec_parse_pairs(old(self)@).1,
            (match r {
                Ok(ps) => spec_parse_pairs(old(self)@).0 == Ok::<
                    Seq<(Seq<u8>, SpecValue)>,
                    Error,
                >(pairs_to_spec(ps@)),
                Err(e) => spec_parse_pairs(old(self)@).0 == Err::<
                    Seq<(Seq<u8>, SpecValue)>,
                    Error,
                >(e),
            }),
        decreases self@.len(), 2int,
    {
        let b = match self.peek_byte() {
            Err(e) => { return Err(e) },
            Ok(b) => b,
        };
        if b == BYTE_E {
            let out: Vec<(&'de [u8], Value<'de>)> = Vec::new();
            proof {
                assert(pairs_to_spec(out@) =~= Seq::<(Seq<u8>, SpecValue)>::empty());
            }
            return Ok(out);
        }
        let ghost s0 = self@;
        let key = match self.parse_byte_array() {
            Err(e) => { return Err(e) },
            Ok(k) => k,
        };
        proof {
            lemma_parse_byte_array_rest(s0);
        }
        let ghost s1 = self@;
        let val = match self.decode_value() {
            Err(e) => { return Err(e) },
            Ok(v) => v,
        };
        proof {
            lemma_parse_value_progress(s1);
        }
        let mut rest = match self.decode_pairs() {
            Err(e) => { return Err(e) },
            Ok(ps) => ps,
        };
        let ghost rest0 = rest@;
        let ghost k0 = key;
        let ghost v0 = val;
        let mut out: Vec<(&'de [u8], Value<'de>)> = Vec::new();
        out.push((key, val));
        out.append(&mut rest);
        proof {
            assert(out@ =~= seq![(k0, v0)] + rest0);
            lemma_pairs_to_spec_cons(k0, v0, rest0);
        }
        Ok(out)
    }
}

/// Decodes the buffer as exactly one value.  The whole buffer must be
/// consumed; remaining bytes are `TrailingCharacters`.  The buffer is
/// only read, never changed, and byte strings in the result borrow from
/// it.
pub fn from_bytes(b: &[u8]) -> (r: Result<Value<'_>, Error>)
    ensures
        (match r {
            Ok(v) => spec_from_bytes(b@) == Ok::<SpecValue, Error>(v.deep_view()),
            Err(e) => spec_from_bytes(b@) == Err::<SpecValue, Error>(e),
        }),
{
    let mut de = Deserializer::from_bytes(b);
    let v = match de.decode_value() {
        Err(e) => { return Err(e) },
        Ok(v) => v,
    };
    if de.remaining().len() == 0 {
        Ok(v)
    } else {
        Err(Error::TrailingCharacters)
    }
}

} // verus!
