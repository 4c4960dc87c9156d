//! A string held as fixed-width code points: every character takes four
//! bytes, its UTF-8 encoding padded with zero bytes on the left, so that a
//! character index and a byte index differ by a constant factor.

use vstd::prelude::*;
use vstd::utf8::*;
use std::sync::Arc;

verus! {

/// Number of bytes that every character takes in the fixed-width form.
pub const BYTES_PER_CHAR: usize = 4;

/// The fixed-width form of one character: its UTF-8 encoding, padded with
/// zero bytes on the left to four bytes.
pub open spec fn four_bytes_of(c: char) -> Seq<u8> {
    let e = encode_scalar(c as u32);
    Seq::new((4 - e.len()) as nat, |i: int| 0u8) + e
}

/// The fixed-width form of a sequence of characters.
pub open spec fn four_byte_content(chars: Seq<char>) -> Seq<u8> {
    Seq::new(4 * chars.len(), |i: int| four_bytes_of(chars[i / 4])[i % 4])
}

/// The four bytes of a character, by the width of its UTF-8 encoding.
pub proof fn lemma_four_bytes_of(c: char)
    ensures
        four_bytes_of(c).len() == 4,
        has_width_1_encoding(c as u32) ==> four_bytes_of(c) == seq![
            0u8,
            0u8,
            0u8,
            leading_byte_width_1(c as u32),
        ],
        has_width_2_encoding(c as u32) ==> four_bytes_of(c) == seq![
            0u8,
            0u8,
            leading_byte_width_2(c as u32),
            last_continuation_byte(c as u32),
        ],
        has_width_3_encoding(c as u32) ==> four_bytes_of(c) == seq![
            0u8,
            leading_byte_width_3(c as u32),
            second_last_continuation_byte(c as u32),
            last_continuation_byte(c as u32),
        ],
        has_width_4_encoding(c as u32) ==> four_bytes_of(c) == seq![
            leading_byte_width_4(c as u32),
            third_last_continuation_byte(c as u32),
            second_last_continuation_byte(c as u32),
            last_continuation_byte(c as u32),
        ],
{
    let v = c as u32;
    let e = encode_scalar(v);
    let pad = Seq::new((4 - e.len()) as nat, |i: int| 0u8);
    if has_width_1_encoding(v) {
        assert(pad + e =~= seq![0u8, 0u8, 0u8, leading_byte_width_1(v)]);
    } else if has_width_2_encoding(v) {
        assert(pad + e =~= seq![
            0u8,
            0u8,
            leading_byte_width_2(v),
            last_continuation_byte(v),
        ]);
    } else if has_width_3_encoding(v) {
        assert(pad + e =~= seq![
            0u8,
            leading_byte_width_3(v),
            second_last_continuation_byte(v),
            last_continuation_byte(v),
        ]);
    } else {
        assert(pad + e =~= seq![
            leading_byte_width_4(v),
            third_last_continuation_byte(v),
            second_last_continuation_byte(v),
            last_continuation_byte(v),
        ]);
    }
}

/// Appends the fixed-width form of `c` to `out`.
fn push_four_bytes(out: &mut Vec<u8>, c: char)
    ensures
        final(out)@ == old(out)@ + four_bytes_of(c),
{
    let v: u32 = c as u32;
    proof {
        lemma_four_bytes_of(c);
    }
    let b3: u8 = if v < 0x80 {
        (v & 0x7F) as u8
    } else {
        0x80u8 | ((v & 0x3F) as u8)
    };
    let b2: u8 = if v < 0x80 {
        0
    } else if v < 0x800 {
        0xC0u8 | (((v >> 6) & 0x1F) as u8)
    } else {
        0x80u8 | (((v >> 6) & 0x3F) as u8)
    };
    let b1: u8 = if v < 0x800 {
        0
    } else if v < 0x10000 {
        0xE0u8 | (((v >> 12) & 0x0F) as u8)
    } else {
        0x80u8 | (((v >> 12) & 0x3F) as u8)
    };
    let b0: u8 = if v < 0x10000 {
        0
    } else {
        0xF0u8 | (((v >> 18) & 0x7) as u8)
    };
    out.push(b0);
    out.push(b1);
    out.push(b2);
    out.push(b3);
    assert(out@ =~= old(out)@ + seq![b0, b1, b2, b3]);
}

/// What is wrong with a run of bytes that should hold fixed-width characters.
#[derive(Debug, Clone)]
pub enum InvalidCustomStringErrorType {
    /// The number of bytes, which is not a multiple of four.
    InvalidLength(usize),
    /// The bytes are not one character in the fixed-width form.
    InvalidFormat,
}

/// The error of a conversion out of the fixed-width form.
#[derive(Debug, Clone)]
pub struct InvalidCustomStringByteError {
    /// What is wrong.
    pub error_type: InvalidCustomStringErrorType,
    /// The bytes that have no accepted shape, where that is what is wrong.
    pub invalid_sequence: Option<Vec<u8>>,
}

impl InvalidCustomStringByteError {
    /// The error for `invalid_data`, whose length is no multiple of four.
    pub fn new_invalid_length(invalid_data: &[u8]) -> (e: Self)
        ensures
            e.error_type == InvalidCustomStringErrorType::InvalidLength(invalid_data@.len() as usize),
            e.invalid_sequence is None,
    {
        Self {
            error_type: InvalidCustomStringErrorType::InvalidLength(invalid_data.len()),
            invalid_sequence: None,
        }
    }

    /// The error for `invalid_data`, which has no accepted shape.
    pub fn new_invalid_format(invalid_data: &[u8]) -> (e: Self)
        ensures
            e.error_type == InvalidCustomStringErrorType::InvalidFormat,
            e.invalid_sequence is Some,
            e.invalid_sequence->0@ == invalid_data@,
    {
        Self {
            error_type: InvalidCustomStringErrorType::InvalidFormat,
            invalid_sequence: Some(vstd::slice::slice_to_vec(invalid_data)),
        }
    }
}

/// A UTF-8 continuation byte.
pub open spec fn is_tail_byte(b: u8) -> bool {
    0x80 <= b <= 0xBF
}

/// The bytes of one fixed-width character without their padding, one
/// `Option` for each of the four places, or `None` where the four bytes
/// have none of the four accepted shapes.
pub open spec fn prepared_bytes(b: Seq<u8>) -> Option<(Option<u8>, Option<u8>, Option<u8>, Option<u8>)> {
    if b.len() != 4 {
        None
    } else if b[0] == 0 && b[1] == 0 && b[2] == 0 && b[3] <= 0x7F {
        Some((None, None, None, Some(b[3])))
    } else if b[0] == 0 && b[1] == 0 && 0xC0 <= b[2] <= 0xDF && is_tail_byte(b[3]) {
        Some((None, None, Some(b[2]), Some(b[3])))
    } else if b[0] == 0 && 0xE0 <= b[1] <= 0xF7 && is_tail_byte(b[2]) && is_tail_byte(b[3]) {
        Some((None, Some(b[1]), Some(b[2]), Some(b[3])))
    } else if 0xF0 <= b[0] <= 0xF7 && is_tail_byte(b[1]) && is_tail_byte(b[2]) && is_tail_byte(
        b[3],
    ) {
        Some((Some(b[0]), Some(b[1]), Some(b[2]), Some(b[3])))
    } else {
        None
    }
}

/// The bytes of one fixed-width character without their padding.
pub open spec fn unpadded(b: Seq<u8>) -> Seq<u8> {
    match prepared_bytes(b) {
        Some((None, None, None, Some(d))) => seq![d],
        Some((None, None, Some(c), Some(d))) => seq![c, d],
        Some((None, Some(b1), Some(c), Some(d))) => seq![b1, c, d],
        Some((Some(a), Some(b1), Some(c), Some(d))) => seq![a, b1, c, d],
        _ => Seq::empty(),
    }
}

/// The `i`-th group of four bytes.
pub open spec fn char_bytes_at(bytes: Seq<u8>, i: int) -> Seq<u8> {
    bytes.subrange(4 * i, 4 * i + 4)
}

/// Every group of four bytes has one of the four accepted shapes.
pub open spec fn valid_custom_bytes(bytes: Seq<u8>) -> bool {
    &&& bytes.len() % 4 == 0
    &&& forall|i: int| 0 <= i < bytes.len() / 4 ==> prepared_bytes(#[trigger] char_bytes_at(bytes, i)) is Some
}

/// The first `n` groups of `bytes`, each without its padding, one after another.
pub open spec fn unpadded_prefix(bytes: Seq<u8>, n: nat) -> Seq<u8>
    decreases n,
{
    if n == 0 {
        Seq::empty()
    } else {
        unpadded_prefix(bytes, (n - 1) as nat) + unpadded(char_bytes_at(bytes, n - 1))
    }
}

/// What is left of the fixed-width `bytes` when the padding is taken out:
/// plain UTF-8.
pub open spec fn utf8_of_custom_bytes(bytes: Seq<u8>) -> Seq<u8> {
    unpadded_prefix(bytes, (bytes.len() / 4) as nat)
}

/// A run of bytes read as fixed-width characters, indexed by character.
pub trait FixedCharsLengthByteSlice: Sized {
    /// The bytes that `self` stands for.
    spec fn bytes(&self) -> Seq<u8>;

    /// The bytes of the characters from `start` up to `end`.
    fn slice_by_char_indice(&self, start: usize, end: usize) -> (r: Self)
        requires
            start <= end,
            4 * end <= self.bytes().len(),
        ensures
            r.bytes() == self.bytes().subrange(4 * start, 4 * end),
    ;

    /// The number of whole characters.
    fn chars_len(&self) -> (n: usize)
        ensures
            n == self.bytes().len() / 4,
    ;

    /// Whether every group of four bytes has an accepted shape.
    fn is_valid_custom_str_bytes(&self) -> (ok: bool)
        ensures
            ok == valid_custom_bytes(self.bytes()),
    ;
}

impl<'a> FixedCharsLengthByteSlice for &'a [u8] {
    open spec fn bytes(&self) -> Seq<u8> {
        self@
    }

    fn slice_by_char_indice(&self, start: usize, end: usize) -> (r: Self) {
        let total: usize = self.len();
        assert(4 * end <= total);
        vstd::slice::slice_subrange(*self, start * BYTES_PER_CHAR, end * BYTES_PER_CHAR)
    }

    fn chars_len(&self) -> (n: usize) {
        self.len() / BYTES_PER_CHAR
    }

    fn is_valid_custom_str_bytes(&self) -> (ok: bool) {
        if self.len() % 4 != 0 {
            return false;
        }
        let count: usize = self.len() / BYTES_PER_CHAR;
        let mut index: usize = 0;
        while index < count
            invariant
                count == self@.len() / 4,
                self@.len() % 4 == 0,
                self@.len() <= usize::MAX,
                index <= count,
                forall|i: int| 0 <= i < index ==> prepared_bytes(#[trigger] char_bytes_at(self@, i)) is Some,
            decreases count - index,
        {
            let group = vstd::slice::slice_subrange(*self, index * BYTES_PER_CHAR, index * BYTES_PER_CHAR + BYTES_PER_CHAR);
            assert(group@ == char_bytes_at(self@, index as int));
            if trim_to_std_utf8(group).is_err() {
                return false;
            }
            index += 1;
        }
        true
    }
}

/// Takes the padding off one fixed-width character.
///
/// Fails with `InvalidLength` when the number of bytes is no multiple of
/// four, and with `InvalidFormat` when the bytes are not four bytes of an
/// accepted shape.
pub fn trim_to_std_utf8(input: &[u8]) -> (r: Result<
    (Option<u8>, Option<u8>, Option<u8>, Option<u8>),
    InvalidCustomStringByteError,
>)
    ensures
        input@.len() % 4 != 0 ==> r is Err && r->Err_0.error_type
            == InvalidCustomStringErrorType::InvalidLength(input@.len() as usize)
            && r->Err_0.invalid_sequence is None,
        input@.len() % 4 == 0 ==> match prepared_bytes(input@) {
            Some(p) => r is Ok && r->Ok_0 == p,
            None => r is Err && r->Err_0.error_type == InvalidCustomStringErrorType::InvalidFormat
                && r->Err_0.invalid_sequence is Some && r->Err_0.invalid_sequence->0@ == input@,
        },
{
    if input.len() % 4 != 0 {
        return Err(InvalidCustomStringByteError::new_invalid_length(input));
    }
    if input.len() != 4 {
        return Err(InvalidCustomStringByteError::new_invalid_format(input));
    }
    let b0: u8 = input[0];
    let b1: u8 = input[1];
    let b2: u8 = input[2];
    let b3: u8 = input[3];
    if b0 == 0 && b1 == 0 && b2 == 0 && b3 <= 0x7F {
        Ok((None, None, None, Some(b3)))
    } else if b0 == 0 && b1 == 0 && is_in_range(b2, (0xC0, 0xDF)) && is_in_range(b3, (0x80, 0xBF)) {
        Ok((None, None, Some(b2), Some(b3)))
    } else if b0 == 0 && is_in_range(b1, (0xE0, 0xF7)) && is_in_range(b2, (0x80, 0xBF))
        && is_in_range(b3, (0x80, 0xBF)) {
        Ok((None, Some(b1), Some(b2), Some(b3)))
    } else if is_in_range(b0, (0xF0, 0xF7)) && is_in_range(b1, (0x80, 0xBF)) && is_in_range(
        b2,
        (0x80, 0xBF),
    ) && is_in_range(b3, (0x80, 0xBF)) {
        Ok((Some(b0), Some(b1), Some(b2), Some(b3)))
    } else {
        Err(InvalidCustomStringByteError::new_invalid_format(input))
    }
}

/// Whether `value` lies between the two ends of `range`, both included.
pub fn is_in_range(value: u8, range: (u8, u8)) -> (r: bool)
    ensures
        r == (range.0 <= value <= range.1),
{
    value >= range.0 && value <= range.1
}

/// The four bytes of a space.
pub open spec fn space_bytes() -> Seq<u8> {
    seq![0u8, 0u8, 0u8, 32u8]
}

/// The index of the last space among the fixed-width characters of
/// `custom_text`, counted in characters.
pub fn rfind_space_char_index(custom_text: &[u8]) -> (r: Option<usize>)
    requires
        custom_text@.len() % 4 == 0,
    ensures
        match r {
            Some(i) => i < custom_text@.len() / 4 && char_bytes_at(custom_text@, i as int)
                == space_bytes() && forall|j: int|
                i < j < custom_text@.len() / 4 ==> #[trigger] char_bytes_at(custom_text@, j)
                    != space_bytes(),
            None => forall|j: int|
                0 <= j < custom_text@.len() / 4 ==> #[trigger] char_bytes_at(custom_text@, j)
                    != space_bytes(),
        },
{
    let mut index: usize = custom_text.len() / BYTES_PER_CHAR;
    while index > 0
        invariant
            custom_text@.len() % 4 == 0,
            custom_text@.len() <= usize::MAX,
            index <= custom_text@.len() / 4,
            forall|j: int|
                index <= j < custom_text@.len() / 4 ==> #[trigger] char_bytes_at(custom_text@, j)
                    != space_bytes(),
        decreases index,
    {
        index -= 1;
        let at: usize = index * BYTES_PER_CHAR;
        let is_space = custom_text[at] == 0 && custom_text[at + 1] == 0 && custom_text[at + 2] == 0
            && custom_text[at + 3] == 32;
        proof {
            let g = char_bytes_at(custom_text@, index as int);
            assert(g[0] == custom_text@[at as int]);
            assert(g[1] == custom_text@[at + 1]);
            assert(g[2] == custom_text@[at + 2]);
            assert(g[3] == custom_text@[at + 3]);
            if is_space {
                assert(g =~= space_bytes());
            }
        }
        if is_space {
            return Some(index);
        }
    }
    None
}

/// Whether `c` is white space: the ASCII white space, the Unicode spaces
/// and line separators, the zero-width marks and the direction marks.
pub open spec fn is_whitespace_char(c: char) -> bool {
    let v = c as u32;
    ||| 0x09 <= v <= 0x0D
    ||| v == 0x20
    ||| v == 0x85
    ||| v == 0xA0
    ||| v == 0x1680
    ||| v == 0x180E
    ||| 0x2000 <= v <= 0x200F
    ||| v == 0x2028
    ||| v == 0x2029
    ||| v == 0x202F
    ||| v == 0x205F
    ||| v == 0x2060
    ||| v == 0x3000
    ||| v == 0xFEFF
}

/// Whether `c` is white space.
pub fn is_whitespace(c: char) -> (r: bool)
    ensures
        r == is_whitespace_char(c),
{
    let v: u32 = c as u32;
    (0x09 <= v && v <= 0x0D) || v == 0x20 || v == 0x85 || v == 0xA0 || v == 0x1680 || v == 0x180E
        || (0x2000 <= v && v <= 0x200F) || v == 0x2028 || v == 0x2029 || v == 0x202F || v == 0x205F
        || v == 0x2060 || v == 0x3000 || v == 0xFEFF
}

/// `s` without the white space at its start.
pub open spec fn trimmed_start(s: Seq<char>) -> Seq<char>
    decreases s.len(),
{
    if s.len() > 0 && is_whitespace_char(s[0]) {
        trimmed_start(s.drop_first())
    } else {
        s
    }
}

/// `s` without the white space at its end.
pub open spec fn trimmed_end(s: Seq<char>) -> Seq<char>
    decreases s.len(),
{
    if s.len() > 0 && is_whitespace_char(s.last()) {
        trimmed_end(s.drop_last())
    } else {
        s
    }
}

/// `s` without the white space at its start and at its end.
pub open spec fn trimmed(s: Seq<char>) -> Seq<char> {
    trimmed_end(trimmed_start(s))
}

/// The fixed-width form grows by four bytes with each character.
pub proof fn lemma_four_byte_content_push(s: Seq<char>, c: char)
    ensures
        four_byte_content(s.push(c)) == four_byte_content(s) + four_bytes_of(c),
{
    lemma_four_bytes_of(c);
    let l = four_byte_content(s.push(c));
    let r = four_byte_content(s) + four_bytes_of(c);
    assert(l.len() == r.len());
    assert forall|i: int| 0 <= i < l.len() implies l[i] == r[i] by {
        if i < 4 * s.len() {
            assert(s.push(c)[i / 4] == s[i / 4]);
        } else {
            assert(i / 4 == s.len());
            assert(i % 4 == i - 4 * s.len());
        }
    }
    assert(l =~= r);
}

/// The bytes of a range of characters are the range's own fixed-width form.
pub proof fn lemma_four_byte_content_subrange(s: Seq<char>, a: int, b: int)
    requires
        0 <= a <= b <= s.len(),
    ensures
        four_byte_content(s).subrange(4 * a, 4 * b) == four_byte_content(s.subrange(a, b)),
{
    let l = four_byte_content(s).subrange(4 * a, 4 * b);
    let r = four_byte_content(s.subrange(a, b));
    assert(l.len() == r.len());
    assert forall|i: int| 0 <= i < l.len() implies l[i] == r[i] by {
        assert((4 * a + i) / 4 == a + i / 4);
        assert((4 * a + i) % 4 == i % 4);
        assert(s.subrange(a, b)[i / 4] == s[a + i / 4]);
    }
    assert(l =~= r);
}

/// The `i`-th group of four bytes of a fixed-width form is the `i`-th character's.
pub proof fn lemma_four_byte_content_group(s: Seq<char>, i: int)
    requires
        0 <= i < s.len(),
    ensures
        char_bytes_at(four_byte_content(s), i) == four_bytes_of(s[i]),
{
    lemma_four_bytes_of(s[i]);
    let g = char_bytes_at(four_byte_content(s), i);
    assert forall|k: int| 0 <= k < 4 implies g[k] == four_bytes_of(s[i])[k] by {
        assert((4 * i + k) / 4 == i);
        assert((4 * i + k) % 4 == k);
    }
    assert(g =~= four_bytes_of(s[i]));
}

/// The UTF-8 encoding of a text grows by the encoding of each character.
pub proof fn lemma_encode_utf8_push(s: Seq<char>, c: char)
    ensures
        encode_utf8(s.push(c)) == encode_utf8(s) + encode_scalar(c as u32),
    decreases s.len(),
{
    if s.len() == 0 {
        assert(s.push(c).drop_first() =~= Seq::<char>::empty());
        assert(encode_utf8(s.push(c)) =~= encode_scalar(c as u32) + encode_utf8(Seq::<char>::empty()));
        assert(encode_utf8(s) + encode_scalar(c as u32) =~= encode_scalar(c as u32));
    } else {
        lemma_encode_utf8_push(s.drop_first(), c);
        assert(s.push(c).drop_first() =~= s.drop_first().push(c));
        assert(encode_scalar(s[0] as u32) + (encode_utf8(s.drop_first()) + encode_scalar(c as u32))
            =~= (encode_scalar(s[0] as u32) + encode_utf8(s.drop_first())) + encode_scalar(c as u32));
    }
}

/// The four bytes of a character have an accepted shape, and without the
/// padding they are the UTF-8 encoding of the character.
pub proof fn lemma_four_bytes_unpadded(c: char)
    ensures
        prepared_bytes(four_bytes_of(c)) is Some,
        unpadded(four_bytes_of(c)) == encode_scalar(c as u32),
{
    lemma_four_bytes_of(c);
    let v = c as u32;
    assert((v & 0x7F) as u8 <= 0x7Fu8) by (bit_vector);
    assert(0xC0u8 <= (0xC0u8 | (((v >> 6) & 0x1F) as u8)) <= 0xDFu8) by (bit_vector);
    assert(0xE0u8 <= (0xE0u8 | (((v >> 12) & 0x0F) as u8)) <= 0xEFu8) by (bit_vector);
    assert(0xF0u8 <= (0xF0u8 | (((v >> 18) & 0x7) as u8)) <= 0xF7u8) by (bit_vector);
    assert(0x80u8 <= (0x80u8 | ((v & 0x3F) as u8)) <= 0xBFu8) by (bit_vector);
    assert(0x80u8 <= (0x80u8 | (((v >> 6) & 0x3F) as u8)) <= 0xBFu8) by (bit_vector);
    assert(0x80u8 <= (0x80u8 | (((v >> 12) & 0x3F) as u8)) <= 0xBFu8) by (bit_vector);
    let b = four_bytes_of(c);
    assert(unpadded(b) =~= encode_scalar(v));
}

/// The fixed-width form of a text has an accepted shape throughout, and
/// without the padding it is the UTF-8 encoding of the text.
pub proof fn lemma_four_byte_content_is_utf8(chars: Seq<char>)
    ensures
        valid_custom_bytes(four_byte_content(chars)),
        utf8_of_custom_bytes(four_byte_content(chars)) == encode_utf8(chars),
{
    let bytes = four_byte_content(chars);
    assert forall|i: int| 0 <= i < bytes.len() / 4 implies prepared_bytes(
        #[trigger] char_bytes_at(bytes, i),
    ) is Some by {
        lemma_four_byte_content_group(chars, i);
        lemma_four_bytes_unpadded(chars[i]);
    }
    lemma_unpadded_prefix(chars, chars.len());
    assert(chars.take(chars.len() as int) =~= chars);
}

/// The first groups of the fixed-width form of a text are, without the
/// padding, the UTF-8 encoding of its first characters.
proof fn lemma_unpadded_prefix(chars: Seq<char>, n: nat)
    requires
        n <= chars.len(),
    ensures
        unpadded_prefix(four_byte_content(chars), n) == encode_utf8(chars.take(n as int)),
    decreases n,
{
    if n == 0 {
        assert(chars.take(0) =~= Seq::<char>::empty());
    } else {
        lemma_unpadded_prefix(chars, (n - 1) as nat);
        lemma_four_byte_content_group(chars, n - 1);
        lemma_four_bytes_unpadded(chars[n - 1]);
        lemma_encode_utf8_push(chars.take(n - 1), chars[n - 1]);
        assert(chars.take(n as int) =~= chars.take(n - 1).push(chars[n - 1]));
    }
}

/// `bytecount::num_chars` on the bytes of a string: the bytes of
/// well-formed UTF-8 that are no continuation bytes, one for each character.
#[verifier::external_body]
fn count_chars(text: &str) -> (n: usize)
    ensures
        n == text@.len(),
{
    bytecount::num_chars(text.as_bytes())
}

/// `Arc::clone`: a second handle on the same value.
#[verifier::external_body]
fn share<T>(value: &Arc<T>) -> (r: Arc<T>)
    ensures
        r == *value,
{
    Arc::clone(value)
}

/// `String::push`: `c` is appended to `s`.
#[verifier::external_body]
pub(crate) fn push_char(s: &mut String, c: char)
    ensures
        final(s)@ == old(s)@.push(c),
{
    s.push(c)
}

/// A range of the characters of a string, which it shares with the strings
/// it was cut from. The characters are held twice: as Unicode scalar values
/// and in the fixed-width form of four bytes each.
///
/// For example, the string "กข " is `[224, 184, 129, 224, 184, 130, 32]`
/// in UTF-8 and `[0, 224, 184, 129, 0, 224, 184, 130, 0, 0, 0, 32]` here.
#[derive(Debug)]
pub struct CustomString {
    /// The whole string in the fixed-width form.
    content: Arc<Vec<u8>>,
    /// The characters of the whole string.
    chars_content: Arc<Vec<char>>,
    /// Where the range starts, counted in characters.
    start: usize,
    /// Where the range ends, counted in characters.
    end: usize,
}

impl Clone for CustomString {
    /// A second handle on the same range of the same string.
    fn clone(&self) -> (r: Self)
        ensures
            r@ == self@,
            r.full_view() == self.full_view(),
            r.offset() == self.offset(),
    {
        proof {
            use_type_invariant(self);
        }
        Self {
            content: share(&self.content),
            chars_content: share(&self.chars_content),
            start: self.start,
            end: self.end,
        }
    }
}

impl View for CustomString {
    type V = Seq<char>;

    /// The characters of the range.
    closed spec fn view(&self) -> Seq<char> {
        self.chars_content@.subrange(self.start as int, self.end as int)
    }
}

impl CustomString {
    #[verifier::type_invariant]
    spec fn well_formed(&self) -> bool {
        &&& self.start <= self.end <= self.chars_content@.len()
        &&& self.content@ == four_byte_content(self.chars_content@)
    }

    /// The characters of the whole string that the range was cut from.
    pub closed spec fn full_view(&self) -> Seq<char> {
        self.chars_content@
    }

    /// Where the range starts in the whole string.
    pub closed spec fn offset(&self) -> nat {
        self.start as nat
    }

    /// The string of the characters of `base_string`.
    pub fn new(base_string: &str) -> (r: Self)
        ensures
            r@ == base_string@,
            r.full_view() == base_string@,
            r.offset() == 0,
    {
        let count: usize = count_chars(base_string);
        let mut chars: Vec<char> = Vec::with_capacity(count);
        let mut content: Vec<u8> = Vec::new();
        for c in it: base_string.chars()
            invariant
                it.seq() == base_string@,
                chars@ =~= it.seq().take(it.index() as int),
                content@ == four_byte_content(chars@),
        {
            proof {
                lemma_four_byte_content_push(chars@, c);
            }
            chars.push(c);
            push_four_bytes(&mut content, c);
        }
        assert(chars@ =~= base_string@);
        assert(chars@.subrange(0, count as int) =~= chars@);
        Self { content: Arc::new(content), chars_content: Arc::new(chars), start: 0, end: count }
    }

    /// The string of the characters `chars`.
    pub fn from(chars: Vec<char>) -> (r: Self)
        ensures
            r@ == chars@,
            r.full_view() == chars@,
            r.offset() == 0,
    {
        let mut content: Vec<u8> = Vec::new();
        let mut index: usize = 0;
        while index < chars.len()
            invariant
                index <= chars@.len(),
                content@ == four_byte_content(chars@.take(index as int)),
            decreases chars@.len() - index,
        {
            proof {
                lemma_four_byte_content_push(chars@.take(index as int), chars@[index as int]);
                assert(chars@.take(index + 1) =~= chars@.take(index as int).push(chars@[index as int]));
            }
            push_four_bytes(&mut content, chars[index]);
            index += 1;
        }
        let length: usize = chars.len();
        assert(chars@.take(length as int) =~= chars@);
        assert(chars@.subrange(0, length as int) =~= chars@);
        Self { content: Arc::new(content), chars_content: Arc::new(chars), start: 0, end: length }
    }

    /// The range in the fixed-width form.
    pub fn raw_content(&self) -> (r: &[u8])
        ensures
            r@ == four_byte_content(self@),
    {
        proof {
            use_type_invariant(self);
            lemma_four_byte_content_subrange(
                self.chars_content@,
                self.start as int,
                self.end as int,
            );
        }
        let total: usize = self.content.len();
        vstd::slice::slice_subrange(
            self.content.as_slice(),
            self.start * BYTES_PER_CHAR,
            self.end * BYTES_PER_CHAR,
        )
    }

    /// Whether the range is the whole string.
    pub fn is_full_string(&self) -> (r: bool)
        ensures
            r == (self.offset() == 0 && self@.len() == self.full_view().len()),
    {
        proof {
            use_type_invariant(self);
        }
        self.start == 0 && self.end == self.content.len() / BYTES_PER_CHAR
    }

    /// The number of characters in the range.
    pub fn chars_len(&self) -> (n: usize)
        ensures
            n == self@.len(),
            self.offset() + n <= self.full_view().len(),
            self@ == self.full_view().subrange(self.offset() as int, self.offset() + n),
    {
        proof {
            use_type_invariant(self);
        }
        self.end - self.start
    }

    /// The number of bytes that the whole string takes in the fixed-width form.
    pub fn full_string_bytes_len(&self) -> (n: usize)
        ensures
            n == 4 * self.full_view().len(),
    {
        proof {
            use_type_invariant(self);
        }
        self.content.len()
    }

    /// The number of bytes that the range takes in the fixed-width form.
    pub fn len(&self) -> (n: usize)
        ensures
            n == 4 * self@.len(),
    {
        proof {
            use_type_invariant(self);
        }
        let total: usize = self.content.len();
        (self.end - self.start) * BYTES_PER_CHAR
    }

    /// Whether the range holds no character.
    pub fn is_empty(&self) -> (r: bool)
        ensures
            r == (self@.len() == 0),
    {
        self.chars_len() == 0
    }

    /// The characters of the range.
    pub fn get_chars_content(&self) -> (r: &[char])
        ensures
            r@ == self@,
    {
        proof {
            use_type_invariant(self);
        }
        vstd::slice::slice_subrange(self.chars_content.as_slice(), self.start, self.end)
    }

    /// The character at `index` of the range.
    pub fn get_char_at(&self, index: usize) -> (c: char)
        requires
            index < self@.len(),
        ensures
            c == self@[index as int],
    {
        proof {
            use_type_invariant(self);
        }
        self.chars_content[index + self.start]
    }

    /// The characters from `start` up to `end` of the range, as a string
    /// that shares the whole string with `self`.
    pub fn substring(&self, start: usize, end: usize) -> (r: Self)
        requires
            start <= end <= self@.len(),
        ensures
            r@ == self@.subrange(start as int, end as int),
            r.full_view() == self.full_view(),
            r.offset() == self.offset() + start,
    {
        proof {
            use_type_invariant(self);
        }
        let new_start: usize = self.start + start;
        let new_end: usize = self.start + end;
        assert(self.chars_content@.subrange(new_start as int, new_end as int)
            =~= self.chars_content@.subrange(self.start as int, self.end as int).subrange(
            start as int,
            end as int,
        ));
        Self {
            content: share(&self.content),
            chars_content: share(&self.chars_content),
            start: new_start,
            end: new_end,
        }
    }

    /// The characters from `char_start` up to `char_end` of the range, in the
    /// fixed-width form.
    pub fn substring_as_bytes(&self, char_start: usize, char_end: usize) -> (r: &[u8])
        requires
            char_start <= char_end <= self@.len(),
        ensures
            r@ == four_byte_content(self@.subrange(char_start as int, char_end as int)),
    {
        proof {
            use_type_invariant(self);
            lemma_four_byte_content_subrange(
                self.chars_content@,
                self.start + char_start,
                self.start + char_end,
            );
            assert(self.chars_content@.subrange(self.start + char_start, self.start + char_end)
                =~= self@.subrange(char_start as int, char_end as int));
        }
        let total: usize = self.content.len();
        vstd::slice::slice_subrange(
            self.content.as_slice(),
            (self.start + char_start) * BYTES_PER_CHAR,
            (self.start + char_end) * BYTES_PER_CHAR,
        )
    }

    /// The same as `substring_as_bytes`.
    pub fn substring_as_custom_bytes(&self, char_start: usize, char_end: usize) -> (r: &[u8])
        requires
            char_start <= char_end <= self@.len(),
        ensures
            r@ == four_byte_content(self@.subrange(char_start as int, char_end as int)),
    {
        self.substring_as_bytes(char_start, char_end)
    }

    /// A string of its own that holds the range without the white space at
    /// its start and at its end.
    pub fn trim(&self) -> (r: Self)
        ensures
            r@ == trimmed(self@),
            r.full_view() == r@,
            r.offset() == 0,
    {
        proof {
            use_type_invariant(self);
        }
        let mut from: usize = self.start;
        while from < self.end && is_whitespace(self.chars_content[from])
            invariant
                self.start <= from <= self.end <= self.chars_content@.len(),
                trimmed_start(self@) == trimmed_start(
                    self.chars_content@.subrange(from as int, self.end as int),
                ),
            decreases self.end - from,
        {
            assert(self.chars_content@.subrange(from as int, self.end as int).drop_first()
                =~= self.chars_content@.subrange(from + 1, self.end as int));
            from += 1;
        }
        let mut to: usize = self.end;
        while from < to && is_whitespace(self.chars_content[to - 1])
            invariant
                from <= to <= self.end <= self.chars_content@.len(),
                trimmed(self@) == trimmed_end(
                    self.chars_content@.subrange(from as int, to as int),
                ),
            decreases to - from,
        {
            assert(self.chars_content@.subrange(from as int, to as int).drop_last()
                =~= self.chars_content@.subrange(from as int, to - 1));
            to -= 1;
        }
        let mut chars: Vec<char> = Vec::with_capacity(to - from);
        let mut content: Vec<u8> = Vec::new();
        let mut index: usize = from;
        while index < to
            invariant
                from <= index <= to <= self.chars_content@.len(),
                chars@ == self.chars_content@.subrange(from as int, index as int),
                content@ == four_byte_content(chars@),
            decreases to - index,
        {
            let c: char = self.chars_content[index];
            proof {
                lemma_four_byte_content_push(chars@, c);
            }
            chars.push(c);
            push_four_bytes(&mut content, c);
            index += 1;
            assert(chars@ =~= self.chars_content@.subrange(from as int, index as int));
        }
        let length: usize = chars.len();
        assert(chars@.subrange(0, length as int) =~= chars@);
        Self { content: Arc::new(content), chars_content: Arc::new(chars), start: 0, end: length }
    }

    /// Turns fixed-width characters into plain UTF-8 by taking the padding out.
    pub fn convert_raw_bytes_to_utf8_bytes(input: &[u8]) -> (out: Vec<u8>)
        requires
            valid_custom_bytes(input@),
        ensures
            out@ == utf8_of_custom_bytes(input@),
    {
        let count: usize = input.len() / BYTES_PER_CHAR;
        let mut out: Vec<u8> = Vec::with_capacity(input.len() / 2);
        let mut index: usize = 0;
        while index < count
            invariant
                valid_custom_bytes(input@),
                input@.len() <= usize::MAX,
                count == input@.len() / 4,
                index <= count,
                out@ == unpadded_prefix(input@, index as nat),
            decreases count - index,
        {
            let group = vstd::slice::slice_subrange(input, index * BYTES_PER_CHAR, index * BYTES_PER_CHAR + BYTES_PER_CHAR);
            assert(group@ == char_bytes_at(input@, index as int));
            let ghost before = out@;
            match trim_to_std_utf8(group) {
                Ok((None, None, None, Some(d))) => {
                    out.push(d);
                    assert(out@ =~= before + seq![d]);
                },
                Ok((None, None, Some(c), Some(d))) => {
                    out.push(c);
                    out.push(d);
                    assert(out@ =~= before + seq![c, d]);
                },
                Ok((None, Some(b), Some(c), Some(d))) => {
                    out.push(b);
                    out.push(c);
                    out.push(d);
                    assert(out@ =~= before + seq![b, c, d]);
                },
                Ok((Some(a), Some(b), Some(c), Some(d))) => {
                    out.push(a);
                    out.push(b);
                    out.push(c);
                    out.push(d);
                    assert(out@ =~= before + seq![a, b, c, d]);
                },
                _ => {
                    assert(false);
                },
            }
            index += 1;
        }
        out
    }

    /// The range as a `String`.
    pub fn to_std_string(&self) -> (r: String)
        ensures
            r@ == self@,
    {
        proof {
            use_type_invariant(self);
        }
        let mut out: String = String::new();
        let mut index: usize = self.start;
        while index < self.end
            invariant
                self.start <= index <= self.end <= self.chars_content@.len(),
                out@ == self.chars_content@.subrange(self.start as int, index as int),
            decreases self.end - index,
        {
            push_char(&mut out, self.chars_content[index]);
            index += 1;
            assert(out@ =~= self.chars_content@.subrange(self.start as int, index as int));
        }
        out
    }
}


/// A string of fixed-width characters from which ranges can be cut.
pub trait FixedLengthCustomString<T: Sized> {
    /// The characters of the string.
    spec fn characters(&self) -> Seq<char>;

    /// The characters of a range that was cut.
    spec fn cut_characters(cut: &T) -> Seq<char>;

    /// The characters of the whole string that this one was cut from.
    spec fn whole(&self) -> Seq<char>;

    /// The characters from `start` up to `end`.
    fn substring(&self, start: usize, end: usize) -> (r: T)
        requires
            start <= end <= self.characters().len(),
        ensures
            Self::cut_characters(&r) == self.characters().subrange(start as int, end as int),
    ;

    /// The whole string in the fixed-width form.
    fn get_original_string(&self) -> (r: &[u8])
        ensures
            r@ == four_byte_content(self.whole()),
    ;
}

impl FixedLengthCustomString<CustomString> for CustomString {
    open spec fn characters(&self) -> Seq<char> {
        self@
    }

    open spec fn cut_characters(cut: &CustomString) -> Seq<char> {
        cut@
    }

    open spec fn whole(&self) -> Seq<char> {
        self.full_view()
    }

    fn substring(&self, start: usize, end: usize) -> (r: CustomString) {
        CustomString::substring(self, start, end)
    }

    fn get_original_string(&self) -> (r: &[u8]) {
        proof {
            use_type_invariant(self);
        }
        self.content.as_slice()
    }
}

} // verus!
