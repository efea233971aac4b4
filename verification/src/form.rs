//! Parsing of `application/x-www-form-urlencoded` request bodies.
//!
//! A body is a `&`-separated list of segments; each segment splits at its
//! first `=` into a key and a value (a segment without `=` has an empty
//! value). In keys and values, `+` decodes to a space and `%` followed by
//! two hexadecimal digits decodes to the byte they name; any other byte,
//! including a `%` not followed by two hexadecimal digits, stands for
//! itself. The routes need one field each: `text`, whose decoded value
//! must be valid UTF-8, and `id`, whose decoded value must be a decimal
//! number that fits in a `u32`.
use vstd::prelude::*;

verus! {

/// The byte `&`, separating form segments.
pub const AMPERSAND: u8 = 38;

/// The byte `=`, separating a key from a value.
pub const EQUALS_SIGN: u8 = 61;

/// The byte `+`, decoding to a space.
pub const PLUS_SIGN: u8 = 43;

/// The byte `%`, opening a two-digit hexadecimal escape.
pub const PERCENT_SIGN: u8 = 37;

/// The space byte.
pub const SPACE: u8 = 32;

/// True for the ASCII digits and letters that may stand in a hexadecimal
/// escape.
pub open spec fn is_hex_digit(b: u8) -> bool {
    (48 <= b <= 57) || (65 <= b <= 70) || (97 <= b <= 102)
}

/// The numeric value of a hexadecimal digit byte.
pub open spec fn hex_value(b: u8) -> u8
    recommends
        is_hex_digit(b),
{
    if 48 <= b <= 57 {
        (b - 48) as u8
    } else if 65 <= b <= 70 {
        (b - 55) as u8
    } else {
        (b - 87) as u8
    }
}

/// The decoded bytes of one form token: `+` becomes a space, `%` with two
/// hexadecimal digits becomes the byte they name, and every other byte
/// stands for itself.
pub open spec fn decoded(s: Seq<u8>) -> Seq<u8>
    decreases s.len(),
{
    if s.len() == 0 {
        Seq::empty()
    } else if s[0] == PLUS_SIGN {
        seq![SPACE] + decoded(s.skip(1))
    } else if s[0] == PERCENT_SIGN && s.len() >= 3 && is_hex_digit(s[1]) && is_hex_digit(s[2]) {
        seq![(16 * hex_value(s[1]) + hex_value(s[2])) as u8] + decoded(s.skip(3))
    } else {
        seq![s[0]] + decoded(s.skip(1))
    }
}

/// The position of the first `sep` byte in `s`, or `s.len()` if there is
/// none.
pub open spec fn split_index(s: Seq<u8>, sep: u8) -> nat
    decreases s.len(),
{
    if s.len() == 0 {
        0
    } else if s[0] == sep {
        0
    } else {
        (1 + split_index(s.skip(1), sep)) as nat
    }
}

/// The decoded key of one segment: what stands before its first `=`.
pub open spec fn segment_key(seg: Seq<u8>) -> Seq<u8> {
    decoded(seg.take(split_index(seg, EQUALS_SIGN) as int))
}

/// The decoded value of one segment: what stands after its first `=`, or
/// empty if the segment has no `=`.
pub open spec fn segment_value(seg: Seq<u8>) -> Seq<u8> {
    let i = split_index(seg, EQUALS_SIGN) as int;
    if i < seg.len() {
        decoded(seg.skip(i + 1))
    } else {
        Seq::empty()
    }
}

/// The decoded values of the segments of `body` whose decoded key equals
/// `key`, in body order.
pub open spec fn field_values(body: Seq<u8>, key: Seq<u8>) -> Seq<Seq<u8>>
    decreases body.len(),
{
    let i = split_index(body, AMPERSAND) as int;
    let seg = body.take(i);
    let head: Seq<Seq<u8>> = if segment_key(seg) == key {
        seq![segment_value(seg)]
    } else {
        Seq::empty()
    };
    if i < body.len() {
        head + field_values(body.skip(i + 1), key)
    } else {
        head
    }
}

/// The bytes of the form field name `text`.
pub open spec fn text_key() -> Seq<u8> {
    seq![116u8, 101u8, 120u8, 116u8]
}

/// The bytes of the form field name `id`.
pub open spec fn id_key() -> Seq<u8> {
    seq![105u8, 100u8]
}

/// True when `s` is one or more ASCII decimal digits.
pub open spec fn is_dec_digits(s: Seq<u8>) -> bool {
    s.len() > 0 && forall|i: int| 0 <= i < s.len() ==> 48 <= #[trigger] s[i] <= 57
}

/// The number the decimal digit bytes `s` write out.
pub open spec fn dec_value(s: Seq<u8>) -> nat
    recommends
        is_dec_digits(s),
    decreases s.len(),
{
    if s.len() == 0 {
        0
    } else {
        (10 * dec_value(s.drop_last()) + (s.last() - 48)) as nat
    }
}

/// True when `b` is an ASCII hexadecimal digit; its value if so.
fn hex_digit(b: u8) -> (r: Option<u8>)
    ensures
        r is Some <==> is_hex_digit(b),
        r is Some ==> r.unwrap() == hex_value(b) && r.unwrap() < 16,
{
    if 48 <= b && b <= 57 {
        Some(b - 48)
    } else if 65 <= b && b <= 70 {
        Some(b - 55)
    } else if 97 <= b && b <= 102 {
        Some(b - 87)
    } else {
        None
    }
}

/// Decodes the token standing in `s[from..to]`.
fn decode_range(s: &[u8], from: usize, to: usize) -> (r: Vec<u8>)
    requires
        from <= to <= s@.len(),
    ensures
        r@ == decoded(s@.subrange(from as int, to as int)),
{
    let mut r: Vec<u8> = Vec::new();
    let mut i: usize = from;
    while i < to
        invariant
            from <= i <= to <= s@.len(),
            decoded(s@.subrange(from as int, to as int)) == r@ + decoded(
                s@.subrange(i as int, to as int),
            ),
        decreases to - i,
    {
        let ghost rem = s@.subrange(i as int, to as int);
        let ghost prev = r@;
        let b = s[i];
        if b == PLUS_SIGN {
            r.push(SPACE);
            i = i + 1;
            proof {
                assert(rem.skip(1) =~= s@.subrange(i as int, to as int));
                assert(decoded(rem) == seq![SPACE] + decoded(rem.skip(1)));
                assert(prev + decoded(rem) =~= r@ + decoded(s@.subrange(i as int, to as int)));
            }
        } else if b == PERCENT_SIGN && to - i > 2 {
            let h1 = hex_digit(s[i + 1]);
            let h2 = hex_digit(s[i + 2]);
            match (h1, h2) {
                (Some(v1), Some(v2)) => {
                    r.push(16 * v1 + v2);
                    i = i + 3;
                    proof {
                        assert(rem.skip(3) =~= s@.subrange(i as int, to as int));
                        assert(rem.len() >= 3 && rem[1] == s@[i - 2] && rem[2] == s@[i - 1]);
                        assert(decoded(rem) == seq![(16 * hex_value(rem[1]) + hex_value(rem[2])) as u8]
                            + decoded(rem.skip(3)));
                        assert(prev + decoded(rem) =~= r@ + decoded(
                            s@.subrange(i as int, to as int),
                        ));
                    }
                },
                _ => {
                    r.push(b);
                    i = i + 1;
                    proof {
                        assert(rem.skip(1) =~= s@.subrange(i as int, to as int));
                        assert(decoded(rem) == seq![rem[0]] + decoded(rem.skip(1)));
                        assert(prev + decoded(rem) =~= r@ + decoded(
                            s@.subrange(i as int, to as int),
                        ));
                    }
                },
            }
        } else {
            r.push(b);
            i = i + 1;
            proof {
                assert(rem.skip(1) =~= s@.subrange(i as int, to as int));
                assert(!(rem[0] == PERCENT_SIGN && rem.len() >= 3 && is_hex_digit(rem[1])
                    && is_hex_digit(rem[2])));
                assert(decoded(rem) == seq![rem[0]] + decoded(rem.skip(1)));
                assert(prev + decoded(rem) =~= r@ + decoded(s@.subrange(i as int, to as int)));
            }
        }
    }
    proof {
        assert(decoded(s@.subrange(to as int, to as int)) == Seq::<u8>::empty());
        assert(r@ =~= r@ + decoded(s@.subrange(to as int, to as int)));
    }
    r
}

/// Why a form body was rejected.
#[derive(Clone, Copy, Debug, PartialEq, Eq, Structural)]
pub enum DecodeError {
    /// The required field does not occur in the body.
    MissingField,
    /// The required field occurs more than once.
    RepeatedField,
    /// The `text` value is not valid UTF-8.
    InvalidText,
    /// The `id` value is not a decimal number that fits in a `u32`.
    InvalidNumber,
}

/// The parsed body of a `POST /add` request.
#[derive(Debug)]
pub struct AddParams {
    pub text: String,
}

/// The parsed body of a `POST /delete` request.
#[derive(Debug)]
pub struct DeleteParams {
    pub id: u32,
}

/// A digit prefix never writes out more than a longer digit prefix.
proof fn lemma_dec_value_monotonic(s: Seq<u8>, i: int, j: int)
    requires
        forall|k: int| 0 <= k < s.len() ==> 48 <= #[trigger] s[k] <= 57,
        0 <= i <= j <= s.len(),
    ensures
        dec_value(s.take(i)) <= dec_value(s.take(j)),
    decreases j - i,
{
    if i < j {
        lemma_dec_value_monotonic(s, i, j - 1);
        assert(s.take(j).drop_last() =~= s.take(j - 1));
        assert(s.take(j).last() == s[j - 1]);
    }
}

/// Reads `s` as an unsigned decimal number. `None` when `s` is empty,
/// holds a byte that is no digit, or names a number above `u32::MAX`.
fn parse_u32_digits(s: &[u8]) -> (r: Option<u32>)
    ensures
        match r {
            Some(v) => is_dec_digits(s@) && dec_value(s@) == v as nat,
            None => !is_dec_digits(s@) || dec_value(s@) > u32::MAX,
        },
{
    if s.len() == 0 {
        return None;
    }
    let mut i: usize = 0;
    while i < s.len()
        invariant
            i <= s@.len(),
            forall|k: int| 0 <= k < i ==> 48 <= #[trigger] s@[k] <= 57,
        decreases s@.len() - i,
    {
        let b = s[i];
        if b < 48 || b > 57 {
            return None;
        }
        i = i + 1;
    }
    let mut acc: u32 = 0;
    let mut j: usize = 0;
    while j < s.len()
        invariant
            is_dec_digits(s@),
            j <= s@.len(),
            acc as nat == dec_value(s@.take(j as int)),
        decreases s@.len() - j,
    {
        let d = s[j] - 48;
        proof {
            assert(s@.take(j + 1).drop_last() =~= s@.take(j as int));
            assert(s@.take(j + 1).last() == s@[j as int]);
        }
        if acc > (u32::MAX - d as u32) / 10 {
            proof {
                assert(dec_value(s@.take(j + 1)) > u32::MAX);
                lemma_dec_value_monotonic(s@, j + 1, s@.len() as int);
                assert(s@.take(s@.len() as int) =~= s@);
            }
            return None;
        }
        acc = acc * 10 + d as u32;
        j = j + 1;
    }
    proof {
        assert(s@.take(s@.len() as int) =~= s@);
    }
    Some(acc)
}

/// Relies on `String::from_utf8`: it succeeds exactly on the byte
/// sequences that are valid UTF-8, and then returns the string that the
/// bytes encode.
#[verifier::external_body]
fn bytes_to_string(b: Vec<u8>) -> (r: Option<String>)
    ensures
        r is Some <==> vstd::utf8::valid_utf8(b@),
        r is Some ==> r.unwrap()@ == vstd::utf8::decode_utf8(b@),
{
    String::from_utf8(b).ok()
}

/// Parses a `POST /add` body: the one `text` field, decoded as UTF-8.
pub fn parse_add_params(body: &[u8]) -> (r: Result<AddParams, DecodeError>)
    ensures
        ({
            let vals = field_values(body@, text_key());
            match r {
                Ok(p) => vals.len() == 1 && vstd::utf8::valid_utf8(vals[0]) && p.text@
                    == vstd::utf8::decode_utf8(vals[0]),
                Err(DecodeError::MissingField) => vals.len() == 0,
                Err(DecodeError::RepeatedField) => vals.len() > 1,
                Err(DecodeError::InvalidText) => vals.len() == 1 && !vstd::utf8::valid_utf8(
                    vals[0],
                ),
                Err(DecodeError::InvalidNumber) => false,
            }
        }),
{
    let key: Vec<u8> = vec![116u8, 101u8, 120u8, 116u8];
    proof {
        assert(key@ =~= text_key());
    }
    let mut vals = form_field_values(body, key.as_slice());
    if vals.len() == 0 {
        return Err(DecodeError::MissingField);
    }
    if vals.len() > 1 {
        return Err(DecodeError::RepeatedField);
    }
    let v = match vals.pop() {
        Some(v) => v,
        None => {
            return Err(DecodeError::MissingField);
        },
    };
    proof {
        assert(v@ == field_values(body@, text_key())[0]);
    }
    match bytes_to_string(v) {
        Some(text) => Ok(AddParams { text }),
        None => Err(DecodeError::InvalidText),
    }
}

/// Parses a `POST /delete` body: the one `id` field, read as a decimal
/// `u32`.
pub fn parse_delete_params(body: &[u8]) -> (r: Result<DeleteParams, DecodeError>)
    ensures
        ({
            let vals = field_values(body@, id_key());
            match r {
                Ok(p) => vals.len() == 1 && is_dec_digits(vals[0]) && dec_value(vals[0]) == p.id
                    as nat,
                Err(DecodeError::MissingField) => vals.len() == 0,
                Err(DecodeError::RepeatedField) => vals.len() > 1,
                Err(DecodeError::InvalidNumber) => vals.len() == 1 && (!is_dec_digits(vals[0])
                    || dec_value(vals[0]) > u32::MAX),
                Err(DecodeError::InvalidText) => false,
            }
        }),
{
    let key: Vec<u8> = vec![105u8, 100u8];
    proof {
        assert(key@ =~= id_key());
    }
    let mut vals = form_field_values(body, key.as_slice());
    if vals.len() == 0 {
        return Err(DecodeError::MissingField);
    }
    if vals.len() > 1 {
        return Err(DecodeError::RepeatedField);
    }
    let v = match vals.pop() {
        Some(v) => v,
        None => {
            return Err(DecodeError::MissingField);
        },
    };
    proof {
        assert(v@ == field_values(body@, id_key())[0]);
    }
    match parse_u32_digits(v.as_slice()) {
        Some(id) => Ok(DeleteParams { id }),
        None => Err(DecodeError::InvalidNumber),
    }
}

/// `split_index` is the one position whose left neighbourhood is free of
/// `sep` and which holds `sep` or the end.
proof fn lemma_split_index_at(s: Seq<u8>, sep: u8, i: int)
    requires
        0 <= i <= s.len(),
        forall|k: int| 0 <= k < i ==> s[k] != sep,
        i < s.len() ==> s[i] == sep,
    ensures
        split_index(s, sep) == i,
    decreases s.len(),
{
    if i > 0 {
        let rest = s.skip(1);
        assert(forall|k: int| 0 <= k < i - 1 ==> #[trigger] rest[k] == s[k + 1]);
        assert(i - 1 < rest.len() ==> rest[i - 1] == s[i]);
        lemma_split_index_at(rest, sep, i - 1);
    }
}

/// The position of the first `sep` byte in `s[from..to]`, or `to` if
/// there is none.
fn scan(s: &[u8], from: usize, to: usize, sep: u8) -> (r: usize)
    requires
        from <= to <= s@.len(),
    ensures
        from <= r <= to,
        forall|k: int| from <= k < r ==> s@[k] != sep,
        r < to ==> s@[r as int] == sep,
{
    let mut i: usize = from;
    while i < to
        invariant
            from <= i <= to <= s@.len(),
            forall|k: int| from <= k < i ==> s@[k] != sep,
        decreases to - i,
    {
        if s[i] == sep {
            return i;
        }
        i = i + 1;
    }
    to
}

/// True when the two byte slices hold the same bytes.
fn bytes_eq(a: &[u8], b: &[u8]) -> (r: bool)
    ensures
        r <==> a@ == b@,
{
    if a.len() != b.len() {
        proof {
            assert(a@ != b@);
        }
        return false;
    }
    let mut i: usize = 0;
    while i < a.len()
        invariant
            i <= a@.len(),
            a@.len() == b@.len(),
            forall|k: int| 0 <= k < i ==> a@[k] == b@[k],
        decreases a@.len() - i,
    {
        if a[i] != b[i] {
            proof {
                assert(a@[i as int] != b@[i as int]);
            }
            return false;
        }
        i = i + 1;
    }
    proof {
        assert(a@ =~= b@);
    }
    true
}

/// The decoded values of the `key` fields of `body`, in body order.
fn form_field_values(body: &[u8], key: &[u8]) -> (r: Vec<Vec<u8>>)
    ensures
        r@.map_values(|v: Vec<u8>| v@) == field_values(body@, key@),
{
    let len = body.len();
    let mut out: Vec<Vec<u8>> = Vec::new();
    let mut pos: usize = 0;
    proof {
        assert(body@.subrange(0, len as int) =~= body@);
        assert(out@.map_values(|v: Vec<u8>| v@) + field_values(body@, key@) =~= field_values(
            body@,
            key@,
        ));
    }
    loop
        invariant_except_break
            field_values(body@, key@) == out@.map_values(|v: Vec<u8>| v@) + field_values(
                body@.subrange(pos as int, len as int),
                key@,
            ),
        invariant
            pos <= len == body@.len(),
        ensures
            field_values(body@, key@) == out@.map_values(|v: Vec<u8>| v@),
        decreases len - pos,
    {
        let ghost rem = body@.subrange(pos as int, len as int);
        let ghost prev = out@.map_values(|v: Vec<u8>| v@);
        let amp = scan(body, pos, len, AMPERSAND);
        proof {
            assert(forall|k: int| 0 <= k < amp - pos ==> #[trigger] rem[k] == body@[pos + k]);
            lemma_split_index_at(rem, AMPERSAND, amp - pos);
        }
        let eq = scan(body, pos, amp, EQUALS_SIGN);
        let ghost seg = rem.take(amp - pos);
        proof {
            assert(seg =~= body@.subrange(pos as int, amp as int));
            assert(forall|k: int| 0 <= k < eq - pos ==> #[trigger] seg[k] == body@[pos + k]);
            lemma_split_index_at(seg, EQUALS_SIGN, eq - pos);
        }
        let keyb = decode_range(body, pos, eq);
        proof {
            assert(seg.take(eq - pos) =~= body@.subrange(pos as int, eq as int));
            assert(keyb@ == segment_key(seg));
        }
        let ghost head: Seq<Seq<u8>> = if segment_key(seg) == key@ {
            seq![segment_value(seg)]
        } else {
            Seq::<Seq<u8>>::empty()
        };
        if bytes_eq(keyb.as_slice(), key) {
            let value = if eq < amp {
                decode_range(body, eq + 1, amp)
            } else {
                Vec::new()
            };
            proof {
                if eq < amp {
                    assert(seg.skip(eq - pos + 1) =~= body@.subrange(eq + 1, amp as int));
                }
                assert(value@ == segment_value(seg));
            }
            out.push(value);
            proof {
                assert(out@.map_values(|v: Vec<u8>| v@) =~= prev + head);
            }
        } else {
            proof {
                assert(out@.map_values(|v: Vec<u8>| v@) =~= prev + head);
            }
        }
        if amp == len {
            proof {
                assert(field_values(rem, key@) == head);
                assert(prev + head =~= out@.map_values(|v: Vec<u8>| v@));
                assert(field_values(body@, key@) == prev + field_values(rem, key@));
                assert(field_values(body@, key@) == out@.map_values(|v: Vec<u8>| v@));
            }
            break ;
        }
        let ghost pos0 = pos as int;
        pos = amp + 1;
        proof {
            let tail = field_values(body@.subrange(pos as int, len as int), key@);
            assert(rem.skip(amp - pos0 + 1) =~= body@.subrange(pos as int, len as int));
            assert(field_values(rem, key@) == head + tail);
            assert(prev + (head + tail) =~= (prev + head) + tail);
            assert(field_values(body@, key@) == out@.map_values(|v: Vec<u8>| v@) + tail);
        }
    }
    out
}

} // verus!
