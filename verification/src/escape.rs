//! Percent-escaping of byte strings, as used in the on-the-wire form of an
//! instance: every byte that is not alphanumeric and not one of `*`, `-`, `.`,
//! `_` is written as `%` followed by two uppercase hexadecimal digits.
//!
//! Unescaping is total: a `%` that is not followed by two hexadecimal digits
//! passes through unchanged. [`well_escaped`] names the inputs on which no
//! such fallback occurs.
use vstd::prelude::*;
use vstd::utf8::*;

verus! {

/// Bytes that are written as themselves: ASCII alphanumerics and `*-._`.
pub open spec fn is_unreserved(b: u8) -> bool {
    ||| ('0' as u8) <= b <= ('9' as u8)
    ||| ('a' as u8) <= b <= ('z' as u8)
    ||| ('A' as u8) <= b <= ('Z' as u8)
    ||| b == ('*' as u8)
    ||| b == ('-' as u8)
    ||| b == ('.' as u8)
    ||| b == ('_' as u8)
}

/// The uppercase hexadecimal digit for a value below sixteen.
pub open spec fn hex_upper(n: u8) -> u8
    recommends
        n < 16,
{
    if n < 10 {
        (('0' as u8) + n) as u8
    } else {
        (('A' as u8) + (n - 10)) as u8
    }
}

/// Escaped form of one byte: itself when unreserved, else `%XX`.
pub open spec fn escape_byte(b: u8) -> Seq<u8> {
    if is_unreserved(b) {
        seq![b]
    } else {
        seq![('%' as u8), hex_upper(b / 16), hex_upper((b % 16) as u8)]
    }
}

/// Escaped form of a byte string.
pub open spec fn escape_bytes(s: Seq<u8>) -> Seq<u8>
    decreases s.len(),
{
    if s.len() == 0 {
        seq![]
    } else {
        escape_byte(s[0]) + escape_bytes(s.drop_first())
    }
}

/// Escaped form of a character string: its UTF-8 bytes, escaped.
pub open spec fn escape_str(s: Seq<char>) -> Seq<u8> {
    escape_bytes(encode_utf8(s))
}

/// Hexadecimal digits of either case, as accepted when unescaping.
pub open spec fn is_hex_digit(b: u8) -> bool {
    ||| ('0' as u8) <= b <= ('9' as u8)
    ||| ('a' as u8) <= b <= ('f' as u8)
    ||| ('A' as u8) <= b <= ('F' as u8)
}

/// Numeric value of a hexadecimal digit.
pub open spec fn hex_val(b: u8) -> u8
    recommends
        is_hex_digit(b),
{
    if ('0' as u8) <= b <= ('9' as u8) {
        (b - ('0' as u8)) as u8
    } else if ('a' as u8) <= b <= ('f' as u8) {
        (b - ('a' as u8) + 10) as u8
    } else {
        (b - ('A' as u8) + 10) as u8
    }
}

/// Total unescaping: `%` followed by two hexadecimal digits becomes one byte;
/// every other byte, a stray `%` included, passes through.
pub open spec fn unescape_bytes(s: Seq<u8>) -> Seq<u8>
    decreases s.len(),
{
    if s.len() == 0 {
        seq![]
    } else if s[0] == ('%' as u8) && s.len() >= 3 && is_hex_digit(s[1]) && is_hex_digit(s[2]) {
        seq![((hex_val(s[1]) * 16 + hex_val(s[2])) as u8)] + unescape_bytes(s.skip(3))
    } else {
        seq![s[0]] + unescape_bytes(s.drop_first())
    }
}

/// True when every `%` in the string is followed by two hexadecimal digits.
pub open spec fn well_escaped(s: Seq<u8>) -> bool {
    forall|i: int|
        0 <= i < s.len() && #[trigger] s[i] == ('%' as u8) ==> i + 3 <= s.len() && is_hex_digit(
            s[i + 1],
        ) && is_hex_digit(s[i + 2])
}

/// Every byte of the escaped form is ASCII and is neither `&`, `=`, nor `/`;
/// a `%` can only open a full `%XX` group; and the whole is well escaped.
pub proof fn lemma_escape_byte_shape(b: u8)
    ensures
        escape_byte(b).len() == if is_unreserved(b) { 1int } else { 3int },
        forall|i: int| 0 <= i < escape_byte(b).len() ==> #[trigger] escape_byte(b)[i] < 0x80,
        forall|i: int|
            0 <= i < escape_byte(b).len() ==> #[trigger] escape_byte(b)[i] != ('&' as u8)
                && escape_byte(b)[i] != ('=' as u8) && escape_byte(b)[i] != ('/' as u8),
        forall|i: int|
            1 <= i < escape_byte(b).len() ==> #[trigger] escape_byte(b)[i] != ('%' as u8),
        escape_byte(b)[0] == ('%' as u8) <==> !is_unreserved(b),
        !is_unreserved(b) ==> is_hex_digit(escape_byte(b)[1]) && is_hex_digit(escape_byte(b)[2]),
{
    if !is_unreserved(b) {
        lemma_hex_upper_val(b);
    }
}

/// Escaping distributes over concatenation.
pub proof fn lemma_escape_bytes_concat(a: Seq<u8>, b: Seq<u8>)
    ensures
        escape_bytes(a + b) == escape_bytes(a) + escape_bytes(b),
    decreases a.len(),
{
    if a.len() == 0 {
        assert(a + b =~= b);
        assert(escape_bytes(a) + escape_bytes(b) =~= escape_bytes(b));
    } else {
        lemma_escape_bytes_concat(a.drop_first(), b);
        assert((a + b).drop_first() =~= a.drop_first() + b);
        assert(escape_bytes(a + b) =~= escape_bytes(a) + escape_bytes(b));
    }
}

/// The whole escaped string inherits the byte-level shape facts.
pub proof fn lemma_escape_bytes_shape(s: Seq<u8>)
    ensures
        forall|i: int| 0 <= i < escape_bytes(s).len() ==> #[trigger] escape_bytes(s)[i] < 0x80,
        forall|i: int|
            0 <= i < escape_bytes(s).len() ==> #[trigger] escape_bytes(s)[i] != ('&' as u8)
                && escape_bytes(s)[i] != ('=' as u8) && escape_bytes(s)[i] != ('/' as u8),
        well_escaped(escape_bytes(s)),
    decreases s.len(),
{
    if s.len() == 0 {
    } else {
        lemma_escape_byte_shape(s[0]);
        lemma_escape_bytes_shape(s.drop_first());
        let e = escape_byte(s[0]);
        let r = escape_bytes(s.drop_first());
        assert(escape_bytes(s) == e + r);
        assert forall|i: int|
            0 <= i < escape_bytes(s).len() && #[trigger] escape_bytes(s)[i] == (
            '%' as u8) implies i + 3 <= escape_bytes(s).len() && is_hex_digit(
            escape_bytes(s)[i + 1],
        ) && is_hex_digit(escape_bytes(s)[i + 2]) by {
            if i < e.len() {
                assert(i == 0);
                assert(e[0] == ('%' as u8) ==> e.len() == 3);
            } else {
                assert(escape_bytes(s)[i] == r[i - e.len()]);
            }
        }
    }
}

/// A hexadecimal digit written for a value below sixteen reads back as it.
proof fn lemma_hex_upper_roundtrip(n: u8)
    requires
        n < 16,
    ensures
        is_hex_digit(hex_upper(n)),
        hex_val(hex_upper(n)) == n,
{
}

/// A value below 256 is recovered from its two uppercase hexadecimal digits.
proof fn lemma_hex_upper_val(b: u8)
    ensures
        is_hex_digit(hex_upper(b / 16)),
        is_hex_digit(hex_upper((b % 16) as u8)),
        hex_val(hex_upper(b / 16)) == b / 16,
        hex_val(hex_upper((b % 16) as u8)) == b % 16,
        (b / 16) * 16 + b % 16 == b,
{
    assert(b / 16 < 16 && b % 16 < 16 && (b / 16) * 16 + b % 16 == b) by (bit_vector);
    lemma_hex_upper_roundtrip(b / 16);
    lemma_hex_upper_roundtrip((b % 16) as u8);
}

/// Unescaping inverts escaping.
pub proof fn lemma_unescape_escape(s: Seq<u8>)
    ensures
        unescape_bytes(escape_bytes(s)) == s,
    decreases s.len(),
{
    if s.len() == 0 {
        assert(unescape_bytes(escape_bytes(s)) =~= s);
    } else {
        let b = s[0];
        let e = escape_byte(b);
        let r = escape_bytes(s.drop_first());
        lemma_unescape_escape(s.drop_first());
        lemma_escape_byte_shape(b);
        if is_unreserved(b) {
            assert(b != ('%' as u8));
            assert((e + r).drop_first() =~= r);
            assert(unescape_bytes(e + r) == seq![b] + unescape_bytes(r));
        } else {
            lemma_hex_upper_val(b);
            assert((e + r)[0] == ('%' as u8));
            assert((e + r).len() >= 3);
            assert((e + r)[1] == hex_upper(b / 16) && (e + r)[2] == hex_upper((b % 16) as u8));
            assert((e + r).skip(3) =~= r);
            assert(hex_val((e + r)[1]) * 16 + hex_val((e + r)[2]) == b);
            assert(unescape_bytes(e + r) == seq![b] + unescape_bytes(r));
        }
        assert(seq![b] + s.drop_first() =~= s);
    }
}

/// Well-escapedness is preserved by concatenation.
pub proof fn lemma_well_escaped_concat(a: Seq<u8>, b: Seq<u8>)
    requires
        well_escaped(a),
        well_escaped(b),
    ensures
        well_escaped(a + b),
{
    assert forall|i: int|
        0 <= i < (a + b).len() && #[trigger] (a + b)[i] == ('%' as u8) implies i + 3 <= (
    a + b).len() && is_hex_digit((a + b)[i + 1]) && is_hex_digit((a + b)[i + 2]) by {
        if i < a.len() {
            assert(a[i] == ('%' as u8));
            assert((a + b)[i + 1] == a[i + 1] && (a + b)[i + 2] == a[i + 2]);
        } else {
            assert(b[i - a.len()] == ('%' as u8));
            assert((a + b)[i + 1] == b[i + 1 - a.len()] && (a + b)[i + 2] == b[i + 2 - a.len()]);
        }
    }
}

/// True when every byte is ASCII.
pub open spec fn ascii_bytes(s: Seq<u8>) -> bool {
    forall|i: int| 0 <= i < s.len() ==> #[trigger] s[i] < 0x80
}

/// An all-ASCII byte string is valid UTF-8 and decodes byte by byte.
pub proof fn lemma_ascii_bytes_utf8(s: Seq<u8>)
    requires
        ascii_bytes(s),
    ensures
        valid_utf8(s),
        decode_utf8(s) == Seq::new(s.len(), |i: int| s[i] as char),
        encode_utf8(Seq::new(s.len(), |i: int| s[i] as char)) == s,
    decreases s.len(),
{
    if s.len() == 0 {
        assert(decode_utf8(s) =~= Seq::new(s.len(), |i: int| s[i] as char));
        assert(encode_utf8(Seq::new(s.len(), |i: int| s[i] as char)) =~= s);
    } else {
        let b = s[0];
        assert(is_leading_byte_width_1(b));
        assert(not_overlong_encoding(codepoint_width_1(b), 1));
        assert(codepoint_width_1(b) == b as u32) by (bit_vector)
            requires
                b < 0x80,
        ;
        assert(not_surrogate(codepoint_width_1(b)));
        assert(valid_first_scalar(s));
        assert(length_of_first_scalar(s) == 1);
        let t = s.drop_first();
        assert(pop_first_scalar(s) =~= t);
        lemma_ascii_bytes_utf8(t);
        assert(decode_first_scalar(s) == b as u32);
        assert((b as u32) as char == b as char);
        assert(decode_utf8(s) =~= Seq::new(s.len(), |i: int| s[i] as char)) by {
            assert(decode_utf8(s) == seq![b as char] + decode_utf8(t));
            assert(decode_utf8(t) == Seq::new(t.len(), |i: int| t[i] as char));
        }
        let cs = Seq::new(s.len(), |i: int| s[i] as char);
        assert(encode_utf8(cs) =~= s) by {
            assert(cs[0] == b as char);
            assert((b as char) as u32 == b as u32);
            assert(encode_scalar(cs[0] as u32) =~= seq![b]) by {
                assert(has_width_1_encoding(b as u32));
                assert(leading_byte_width_1(b as u32) == b) by (bit_vector)
                    requires
                        b < 0x80,
                ;
            }
            assert(cs.drop_first() =~= Seq::new(t.len(), |i: int| t[i] as char));
        }
    }
}

/// Unescaping the escaped form of a character string yields its UTF-8 bytes,
/// which decode to the original characters.
pub proof fn lemma_unescape_escape_str(s: Seq<char>)
    ensures
        unescape_bytes(escape_str(s)) == encode_utf8(s),
        valid_utf8(unescape_bytes(escape_str(s))),
        decode_utf8(unescape_bytes(escape_str(s))) == s,
{
    lemma_unescape_escape(encode_utf8(s));
    broadcast use vstd::utf8::encode_utf8_valid_utf8, vstd::utf8::encode_utf8_decode_utf8;

}

/// One more byte extends the escaped form of a prefix by one escaped byte.
pub proof fn lemma_escape_bytes_step(s: Seq<u8>, i: int)
    requires
        0 <= i < s.len(),
    ensures
        escape_bytes(s.take(i + 1)) == escape_bytes(s.take(i)) + escape_byte(s[i]),
{
    assert(s.take(i + 1) =~= s.take(i) + seq![s[i]]);
    lemma_escape_bytes_concat(s.take(i), seq![s[i]]);
    let single = seq![s[i]];
    assert(single.drop_first() =~= Seq::<u8>::empty());
    assert(escape_bytes(single) == escape_byte(single[0]) + escape_bytes(single.drop_first()));
    assert(escape_bytes(Seq::<u8>::empty()) =~= Seq::<u8>::empty());
    assert(escape_bytes(single) =~= escape_byte(s[i]));
}

/// Executable form of [`is_unreserved`].
pub fn is_unreserved_exec(b: u8) -> (r: bool)
    ensures
        r == is_unreserved(b),
{
    (b >= ('0' as u8) && b <= ('9' as u8)) || (b >= ('a' as u8) && b <= ('z' as u8)) || (b >= (
    'A' as u8) && b <= ('Z' as u8)) || b == ('*' as u8) || b == ('-' as u8) || b == ('.' as u8)
        || b == ('_' as u8)
}

/// Executable form of [`is_hex_digit`].
pub fn is_hex_digit_exec(b: u8) -> (r: bool)
    ensures
        r == is_hex_digit(b),
{
    (b >= ('0' as u8) && b <= ('9' as u8)) || (b >= ('a' as u8) && b <= ('f' as u8)) || (b >= (
    'A' as u8) && b <= ('F' as u8))
}

/// Relies on percent_encoding::percent_encode_byte: the `%XX` form of a byte,
/// with uppercase hexadecimal digits.
#[verifier::external_body]
fn pct_byte_form(b: u8) -> (r: Vec<u8>)
    ensures
        r@ == seq![('%' as u8), hex_upper(b / 16), hex_upper((b % 16) as u8)],
{
    percent_encoding::percent_encode_byte(b).as_bytes().to_vec()
}

/// Appends the escaped form of a string to a byte buffer.
pub fn escape_into(out: &mut Vec<u8>, s: &str)
    ensures
        final(out)@ == old(out)@ + escape_str(s@),
{
    let bytes: &[u8] = s.as_bytes();
    let n = bytes.len();
    let ghost bs = bytes@;
    let mut i: usize = 0;
    while i < n
        invariant
            n == bs.len(),
            bytes@ == bs,
            i <= n,
            out@ == old(out)@ + escape_bytes(bs.take(i as int)),
        decreases n - i,
    {
        let b = bytes[i];
        proof {
            lemma_escape_bytes_step(bs, i as int);
        }
        if is_unreserved_exec(b) {
            out.push(b);
            assert(escape_byte(b) =~= seq![b]);
            assert(out@ =~= old(out)@ + escape_bytes(bs.take(i + 1)));
        } else {
            let mut form = pct_byte_form(b);
            out.push(form[0]);
            out.push(form[1]);
            out.push(form[2]);
            assert(out@ =~= old(out)@ + escape_bytes(bs.take(i + 1)));
        }
        i = i + 1;
    }
    assert(bs.take(n as int) =~= bs);
}

/// Relies on percent_encoding::percent_decode: `%` followed by two
/// hexadecimal digits of either case becomes the byte they spell; every other
/// byte, a stray `%` included, passes through unchanged.
#[verifier::external_body]
pub fn unescape_range(data: &[u8], lo: usize, hi: usize) -> (r: Vec<u8>)
    requires
        lo <= hi <= data@.len(),
    ensures
        r@ == unescape_bytes(data@.subrange(lo as int, hi as int)),
{
    percent_encoding::percent_decode(&data[lo..hi]).collect()
}

/// Relies on std's str::from_utf8: it succeeds exactly on valid UTF-8.
#[verifier::external_body]
pub fn utf8_check(data: &[u8]) -> (r: bool)
    ensures
        r == valid_utf8(data@),
{
    std::str::from_utf8(data).is_ok()
}

/// String equality, decided on the UTF-8 bytes: two strings are equal exactly
/// when their bytes are.
pub fn str_eq(a: &str, b: &str) -> (r: bool)
    ensures
        r == (a@ == b@),
{
    let ab = a.as_bytes();
    let bb = b.as_bytes();
    proof {
        broadcast use vstd::utf8::encode_utf8_decode_utf8;

    }
    if ab.len() != bb.len() {
        return false;
    }
    let n = ab.len();
    let mut i: usize = 0;
    while i < n
        invariant
            i <= n,
            n == ab@.len() == bb@.len(),
            ab@ == encode_utf8(a@),
            bb@ == encode_utf8(b@),
            forall|t: int| 0 <= t < i ==> ab@[t] == #[trigger] bb@[t],
        decreases n - i,
    {
        if ab[i] != bb[i] {
            return false;
        }
        i = i + 1;
    }
    proof {
        assert(ab@ =~= bb@);
        broadcast use vstd::utf8::encode_utf8_decode_utf8;

        assert(decode_utf8(encode_utf8(a@)) == a@);
        assert(decode_utf8(encode_utf8(b@)) == b@);
    }
    true
}

/// Relies on std's String::from_utf8: it succeeds exactly on valid UTF-8 and
/// returns the characters the bytes encode.
#[verifier::external_body]
pub fn string_from_utf8(data: Vec<u8>) -> (r: Option<String>)
    ensures
        match r {
            Some(s) => valid_utf8(data@) && s@ == decode_utf8(data@),
            None => !valid_utf8(data@),
        },
{
    String::from_utf8(data).ok()
}

} // verus!
