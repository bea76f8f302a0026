use vstd::prelude::*;
use vstd::string::StrSliceExecFns;
use vstd::string::StringExecFns;
use vstd::utf8::{valid_utf8, decode_utf8};
use std::hash::{DefaultHasher, Hash, Hasher};

verus! {

/// Relies on `String::push`: appends exactly the one character.
#[verifier::external_body]
pub fn push_char(s: &mut String, c: char)
    ensures
        final(s)@ == old(s)@.push(c),
{
    s.push(c);
}

/// Relies on `String::from_utf8`: succeeds exactly on valid UTF-8 input and
/// decodes it to the characters those bytes encode.
#[verifier::external_body]
pub fn string_from_utf8(bytes: Vec<u8>) -> (r: Option<String>)
    ensures
        r matches Some(s) ==> valid_utf8(bytes@) && s@ == decode_utf8(bytes@),
        r is None ==> !valid_utf8(bytes@),
{
    match String::from_utf8(bytes) {
        Ok(s) => Some(s),
        Err(_) => None,
    }
}

/// The stable 64-bit hash of a string of characters.
pub uninterp spec fn spec_name_hash(s: Seq<char>) -> u64;

/// Relies on `DefaultHasher` (`new`, `Hash::hash`, `finish`): hashers made
/// by `new` use fixed keys, so the result depends on the hashed characters
/// alone and is the same in every process.
#[verifier::external_body]
pub fn hash_of_str(s: &str) -> (r: u64)
    ensures
        r == spec_name_hash(s@),
{
    let mut hasher = DefaultHasher::new();
    s.hash(&mut hasher);
    hasher.finish()
}

/// The character of a single decimal digit.
pub open spec fn spec_digit_char(d: int) -> char {
    if d == 0 {
        '0'
    } else if d == 1 {
        '1'
    } else if d == 2 {
        '2'
    } else if d == 3 {
        '3'
    } else if d == 4 {
        '4'
    } else if d == 5 {
        '5'
    } else if d == 6 {
        '6'
    } else if d == 7 {
        '7'
    } else if d == 8 {
        '8'
    } else {
        '9'
    }
}

/// The decimal digits of a non-negative integer, most significant first.
pub open spec fn spec_dec_digits(v: int) -> Seq<char>
    decreases v,
{
    if v < 10 {
        seq![spec_digit_char(v)]
    } else {
        spec_dec_digits(v / 10).push(spec_digit_char(v % 10))
    }
}

/// The decimal digits of a value, left-padded with zeros to a width.
pub open spec fn spec_dec_pad(v: int, w: int) -> Seq<char> {
    if spec_dec_digits(v).len() >= w {
        spec_dec_digits(v)
    } else {
        Seq::new((w - spec_dec_digits(v).len()) as nat, |i: int| '0') + spec_dec_digits(v)
    }
}

/// The character of a single decimal digit.
fn digit_char(d: u64) -> (c: char)
    requires
        d < 10,
    ensures
        c == spec_digit_char(d as int),
{
    let digits: &str = "0123456789";
    proof {
        reveal_strlit("0123456789");
    }
    digits.get_char(d as usize)
}

/// Appends the decimal digits of a value.
pub fn append_u64_dec(out: &mut String, v: u64)
    ensures
        final(out)@ == old(out)@ + spec_dec_digits(v as int),
    decreases v,
{
    if v < 10 {
        push_char(out, digit_char(v));
        proof {
            assert(final(out)@ =~= old(out)@ + spec_dec_digits(v as int));
        }
    } else {
        append_u64_dec(out, v / 10);
        push_char(out, digit_char(v % 10));
        proof {
            assert(final(out)@ =~= old(out)@ + spec_dec_digits(v as int));
        }
    }
}

/// Appends the decimal digits of a value, left-padded with zeros to the
/// given width.
pub fn append_u64_pad(out: &mut String, v: u64, width: usize)
    ensures
        final(out)@ == old(out)@ + spec_dec_pad(v as int, width as int),
{
    let mut ds: String = String::new();
    append_u64_dec(&mut ds, v);
    proof {
        assert(ds@ =~= spec_dec_digits(v as int));
    }
    let n: usize = ds.as_str().unicode_len();
    let mut i: usize = n;
    while i < width
        invariant
            n <= i,
            n == spec_dec_digits(v as int).len(),
            i <= width || i == n,
            ds@ == spec_dec_digits(v as int),
            out@ =~= old(out)@ + Seq::new((i - n) as nat, |k: int| '0'),
        decreases width - i,
    {
        push_char(out, '0');
        proof {
            assert(out@ =~= old(out)@ + Seq::new((i + 1 - n) as nat, |k: int| '0'));
        }
        i += 1;
    }
    out.append(ds.as_str());
    proof {
        assert(out@ =~= old(out)@ + spec_dec_pad(v as int, width as int));
    }
}

/// The character of a single lowercase hexadecimal digit.
pub open spec fn spec_hex_char(d: int) -> char {
    if d < 10 {
        spec_digit_char(d)
    } else if d == 10 {
        'a'
    } else if d == 11 {
        'b'
    } else if d == 12 {
        'c'
    } else if d == 13 {
        'd'
    } else if d == 14 {
        'e'
    } else {
        'f'
    }
}

/// The sixteen lowercase hexadecimal digits of a 64-bit value.
pub open spec fn spec_hex16(v: u64) -> Seq<char> {
    Seq::new(16, |i: int| spec_hex_char(((v >> (((15 - i) * 4) as u64)) & 0xF) as int))
}

/// A masked nibble is smaller than sixteen.
proof fn lemma_mask_nibble(x: u64)
    ensures
        x & 0xF < 16,
{
    assert(x & 0xF < 16) by (bit_vector);
}

/// The character of a single lowercase hexadecimal digit.
fn hex_char(d: u64) -> (c: char)
    requires
        d < 16,
    ensures
        c == spec_hex_char(d as int),
{
    let digits: &str = "0123456789abcdef";
    proof {
        reveal_strlit("0123456789abcdef");
        reveal_strlit("0123456789");
    }
    digits.get_char(d as usize)
}

/// Appends the sixteen lowercase hexadecimal digits of a 64-bit value.
pub fn append_hex16(out: &mut String, v: u64)
    ensures
        final(out)@ == old(out)@ + spec_hex16(v),
{
    let mut i: usize = 0;
    while i < 16
        invariant
            i <= 16,
            out@ =~= old(out)@ + spec_hex16(v).take(i as int),
        decreases 16 - i,
    {
        let shift: u64 = (15 - i as u64) * 4;
        let d: u64 = (v >> shift) & 0xF;
        proof {
            lemma_mask_nibble(v >> shift);
        }
        push_char(out, hex_char(d));
        proof {
            assert(out@ =~= old(out)@ + spec_hex16(v).take(i + 1int));
        }
        i += 1;
    }
    proof {
        assert(spec_hex16(v).take(16int) =~= spec_hex16(v));
    }
}

/// Whether a character is a decimal digit.
pub open spec fn spec_is_digit(c: char) -> bool {
    48 <= c as u32 <= 57
}

/// The value of a decimal digit character.
pub open spec fn spec_digit_val(c: char) -> int {
    c as u32 - 48
}

/// Whether every character of the sequence is a decimal digit.
pub open spec fn spec_all_digits(s: Seq<char>) -> bool {
    forall|i: int| 0 <= i < s.len() ==> spec_is_digit(#[trigger] s[i])
}

/// The non-negative integer that a sequence of decimal digits denotes.
pub open spec fn spec_digits_val(s: Seq<char>) -> int
    decreases s.len(),
{
    if s.len() == 0 {
        0int
    } else {
        spec_digits_val(s.drop_last()) * 10 + spec_digit_val(s.last())
    }
}

/// A digit string denotes a non-negative value.
pub proof fn lemma_digits_val_nonneg(s: Seq<char>)
    requires
        spec_all_digits(s),
    ensures
        spec_digits_val(s) >= 0,
    decreases s.len(),
{
    if s.len() > 0 {
        assert(spec_all_digits(s.drop_last()));
        lemma_digits_val_nonneg(s.drop_last());
    }
}

/// A longer digit string never denotes a smaller value.
pub proof fn lemma_digits_val_monotonic(s: Seq<char>, i: int)
    requires
        spec_all_digits(s),
        0 <= i <= s.len(),
    ensures
        spec_digits_val(s) >= spec_digits_val(s.take(i)),
    decreases s.len() - i,
{
    if i < s.len() {
        lemma_digits_val_monotonic(s, i + 1);
        assert(s.take(i + 1).drop_last() =~= s.take(i));
        assert(spec_all_digits(s.take(i)));
        lemma_digits_val_nonneg(s.take(i));
        assert(spec_digits_val(s.take(i + 1)) == spec_digits_val(s.take(i)) * 10
            + spec_digit_val(s.take(i + 1).last()));
    } else {
        assert(s.take(i) =~= s);
    }
}

/// What parsing an unsigned decimal number from the characters gives: an
/// optional leading plus sign, then at least one digit, with a value that
/// fits the target range; anything else is rejected.
pub open spec fn spec_parse_digits(s: Seq<char>) -> Option<int> {
    let body = if s.len() >= 1 && s[0] == '+' {
        s.skip(1)
    } else {
        s
    };
    if body.len() == 0 || !spec_all_digits(body) {
        None
    } else {
        Some(spec_digits_val(body))
    }
}

/// Parses the decimal digits of the character range `lo..hi`, with an
/// optional leading plus sign; reports the value, or nothing when the range
/// is not a number or its value exceeds `u64::MAX`.
pub fn parse_u64_range(s: &str, lo: usize, hi: usize) -> (r: Option<u64>)
    requires
        lo <= hi <= s@.len(),
    ensures
        ({
            let p = spec_parse_digits(s@.subrange(lo as int, hi as int));
            match p {
                Some(v) => if v <= u64::MAX {
                    r == Some(v as u64)
                } else {
                    r is None
                },
                None => r is None,
            }
        }),
{
    let ghost seg = s@.subrange(lo as int, hi as int);
    let mut i: usize = lo;
    if i < hi && s.get_char(i) == '+' {
        i += 1;
    }
    let ghost body = if seg.len() >= 1 && seg[0] == '+' {
        seg.skip(1)
    } else {
        seg
    };
    proof {
        assert(body =~= s@.subrange(i as int, hi as int));
    }
    if i == hi {
        return None;
    }
    let start: usize = i;
    let mut acc: u64 = 0;
    let mut j: usize = start;
    while j < hi
        invariant
            lo <= start <= j <= hi <= s@.len(),
            seg == s@.subrange(lo as int, hi as int),
            body == (if seg.len() >= 1 && seg[0] == '+' {
                seg.skip(1)
            } else {
                seg
            }),
            body =~= s@.subrange(start as int, hi as int),
            body.len() > 0,
            spec_all_digits(body.take(j - start)),
            acc == spec_digits_val(body.take(j - start)),
        decreases hi - j,
    {
        let c: char = s.get_char(j);
        let u: u32 = c as u32;
        proof {
            assert(body[j - start] == s@[j as int]);
        }
        if u < 48 || u > 57 {
            proof {
                assert(!spec_is_digit(body[j - start]));
                assert(spec_all_digits(body) ==> spec_is_digit(body[j - start]));
                assert(!spec_all_digits(body));
            }
            return None;
        }
        let d: u64 = (u - 48) as u64;
        if acc > (u64::MAX - d) / 10 {
            proof {
                vstd::arithmetic::div_mod::lemma_fundamental_div_mod(
                    (u64::MAX - d) as int,
                    10,
                );
                vstd::arithmetic::div_mod::lemma_mod_division_less_than_divisor(
                    (u64::MAX - d) as int,
                    10,
                );
                assert(acc * 10 + d > u64::MAX);
                assert(body.take(j - start + 1).drop_last() =~= body.take(j - start));
                assert(body.take(j - start + 1).last() == body[j - start]);
                assert(spec_digit_val(body[j - start]) == d);
                assert(spec_digits_val(body.take(j - start + 1)) == acc * 10 + d);
                if spec_all_digits(body) {
                    lemma_digits_val_monotonic(body, j - start + 1);
                    assert(spec_digits_val(body) > u64::MAX);
                }
                assert(spec_all_digits(body) ==> spec_digits_val(body) > u64::MAX);
            }
            return None;
        }
        proof {
            vstd::arithmetic::div_mod::lemma_fundamental_div_mod((u64::MAX - d) as int, 10);
            assert(body.take(j - start + 1).drop_last() =~= body.take(j - start));
        }
        acc = acc * 10 + d;
        j += 1;
    }
    proof {
        assert(body.take(hi - start) =~= body);
    }
    Some(acc)
}

/// What parsing a signed decimal number gives: an optional minus or plus
/// sign, then at least one digit; the mathematical value of the text.
pub open spec fn spec_parse_int(s: Seq<char>) -> Option<int> {
    if s.len() >= 1 && s[0] == '-' {
        let body = s.skip(1);
        if body.len() == 0 || !spec_all_digits(body) {
            None
        } else {
            Some(-spec_digits_val(body))
        }
    } else {
        spec_parse_digits(s)
    }
}

/// Parses a signed decimal number from the character range `lo..hi`;
/// reports nothing when the range is not a number or its value does not fit
/// a 64-bit signed integer.
pub fn parse_i64_range(s: &str, lo: usize, hi: usize) -> (r: Option<i64>)
    requires
        lo <= hi <= s@.len(),
    ensures
        ({
            let p = spec_parse_int(s@.subrange(lo as int, hi as int));
            match p {
                Some(v) => if i64::MIN <= v <= i64::MAX {
                    r == Some(v as i64)
                } else {
                    r is None
                },
                None => r is None,
            }
        }),
{
    let ghost seg = s@.subrange(lo as int, hi as int);
    if lo < hi && s.get_char(lo) == '-' {
        proof {
            assert(seg.skip(1) =~= s@.subrange(lo + 1int, hi as int));
        }
        match parse_u64_range(s, lo + 1, hi) {
            Some(mag) => {
                proof {
                    let seg2 = s@.subrange(lo + 1int, hi as int);
                    assert(spec_parse_digits(seg2) is Some);
                    assert(seg2.len() >= 1);
                }
                if s.get_char(lo + 1) == '+' {
                    proof {
                        let body = seg.skip(1);
                        assert(body[0] == s@[lo + 1int]);
                        assert(!spec_is_digit(body[0]));
                        assert(spec_all_digits(body) ==> spec_is_digit(body[0]));
                    }
                    return None;
                }
                proof {
                    let seg2 = s@.subrange(lo + 1int, hi as int);
                    assert(seg2[0] == s@[lo + 1int]);
                    assert(seg2[0] != '+');
                    assert(seg.skip(1) == seg2);
                    assert(seg[0] == s@[lo as int]);
                    assert(spec_parse_digits(seg2) == Some(spec_digits_val(seg2)));
                    assert(spec_all_digits(seg2));
                    lemma_digits_val_nonneg(seg2);
                    assert(spec_digits_val(seg2) == mag);
                    assert(spec_parse_int(seg) == Some(-(mag as int)));
                }
                if mag <= 9223372036854775807 {
                    Some(-(mag as i64))
                } else if mag == 9223372036854775808 {
                    Some(i64::MIN)
                } else {
                    None
                }
            },
            None => {
                if lo + 1 < hi && s.get_char(lo + 1) == '+' {
                    proof {
                        let body = seg.skip(1);
                        assert(body[0] == s@[lo + 1int]);
                        assert(!spec_is_digit(body[0]));
                        assert(spec_all_digits(body) ==> spec_is_digit(body[0]));
                    }
                    return None;
                }
                proof {
                    let body = seg.skip(1);
                    if body.len() > 0 && spec_all_digits(body) {
                        lemma_digits_val_nonneg(body);
                    }
                }
                None
            },
        }
    } else {
        proof {
            let body = if seg.len() >= 1 && seg[0] == '+' {
                seg.skip(1)
            } else {
                seg
            };
            if body.len() > 0 && spec_all_digits(body) {
                lemma_digits_val_nonneg(body);
            }
        }
        match parse_u64_range(s, lo, hi) {
            Some(v) => {
                if v <= 9223372036854775807 {
                    Some(v as i64)
                } else {
                    None
                }
            },
            None => None,
        }
    }
}

/// Parses an unsigned decimal number from the character range `lo..hi`;
/// reports nothing when the range is not a number or its value does not fit
/// one byte.
pub fn parse_u8_range(s: &str, lo: usize, hi: usize) -> (r: Option<u8>)
    requires
        lo <= hi <= s@.len(),
    ensures
        ({
            let p = spec_parse_digits(s@.subrange(lo as int, hi as int));
            match p {
                Some(v) => if v <= 255 {
                    r == Some(v as u8)
                } else {
                    r is None
                },
                None => r is None,
            }
        }),
{
    proof {
        let seg = s@.subrange(lo as int, hi as int);
        let body = if seg.len() >= 1 && seg[0] == '+' {
            seg.skip(1)
        } else {
            seg
        };
        if body.len() > 0 && spec_all_digits(body) {
            lemma_digits_val_nonneg(body);
        }
    }
    match parse_u64_range(s, lo, hi) {
        Some(v) => {
            if v <= 255 {
                Some(v as u8)
            } else {
                None
            }
        },
        None => None,
    }
}

/// The decimal text of a signed integer: a minus sign when negative, then
/// the digits of its magnitude.
pub open spec fn spec_int_chars(v: int) -> Seq<char> {
    if v < 0 {
        seq!['-'] + spec_dec_digits(-v)
    } else {
        spec_dec_digits(v)
    }
}

/// Appends the decimal text of a signed 64-bit integer.
pub fn append_i64_dec(out: &mut String, v: i64)
    ensures
        final(out)@ == old(out)@ + spec_int_chars(v as int),
{
    if v < 0 {
        push_char(out, '-');
        let mag: u64 = if v == i64::MIN {
            9223372036854775808u64
        } else {
            (-v) as u64
        };
        append_u64_dec(out, mag);
        proof {
            assert(final(out)@ =~= old(out)@ + spec_int_chars(v as int));
        }
    } else {
        append_u64_dec(out, v as u64);
    }
}

/// The first position at or after `pos` holding the character, or the
/// length of the sequence.
pub open spec fn spec_find_char(s: Seq<char>, pos: int, c: char) -> int
    decreases s.len() - pos,
{
    if pos < 0 || pos >= s.len() {
        s.len() as int
    } else if s[pos] == c {
        pos
    } else {
        spec_find_char(s, pos + 1, c)
    }
}

/// The found position lies at or after `pos` and within the length, and
/// holds the character when it is within.
pub proof fn lemma_find_char_bounds(s: Seq<char>, pos: int, c: char)
    requires
        0 <= pos <= s.len(),
    ensures
        pos <= spec_find_char(s, pos, c) <= s.len(),
        spec_find_char(s, pos, c) < s.len() ==> s[spec_find_char(s, pos, c)] == c,
    decreases s.len() - pos,
{
    if pos < s.len() && s[pos] != c {
        lemma_find_char_bounds(s, pos + 1, c);
    }
}

/// Finds the first occurrence of the character at or after `pos`.
pub fn find_char(s: &str, pos: usize, c: char) -> (r: usize)
    requires
        pos <= s@.len(),
    ensures
        r == spec_find_char(s@, pos as int, c),
        pos <= r <= s@.len(),
        r < s@.len() ==> s@[r as int] == c,
{
    let n: usize = s.unicode_len();
    let mut i: usize = pos;
    while i < n
        invariant
            pos <= i <= n,
            n == s@.len(),
            spec_find_char(s@, pos as int, c) == spec_find_char(s@, i as int, c),
        decreases n - i,
    {
        if s.get_char(i) == c {
            return i;
        }
        i += 1;
    }
    i
}

/// A parsed unsigned number is never negative.
pub proof fn lemma_parse_digits_nonneg(s: Seq<char>)
    ensures
        spec_parse_digits(s) matches Some(v) ==> v >= 0,
{
    let body = if s.len() >= 1 && s[0] == '+' {
        s.skip(1)
    } else {
        s
    };
    if body.len() > 0 && spec_all_digits(body) {
        lemma_digits_val_nonneg(body);
    }
}

/// Whether one sequence of characters sorts at or before another, by
/// scalar-value lexicographic order.
pub open spec fn spec_lex_le(a: Seq<char>, b: Seq<char>) -> bool
    decreases a.len(),
{
    if a.len() == 0 {
        true
    } else if b.len() == 0 {
        false
    } else if (a[0] as u32) < (b[0] as u32) {
        true
    } else if (a[0] as u32) > (b[0] as u32) {
        false
    } else {
        spec_lex_le(a.drop_first(), b.drop_first())
    }
}

/// Any two character sequences compare one way or the other.
pub proof fn lemma_lex_le_total(a: Seq<char>, b: Seq<char>)
    ensures
        spec_lex_le(a, b) || spec_lex_le(b, a),
    decreases a.len(),
{
    if a.len() > 0 && b.len() > 0 && !((a[0] as u32) < (b[0] as u32)) && !((a[0] as u32)
        > (b[0] as u32)) {
        lemma_lex_le_total(a.drop_first(), b.drop_first());
    }
}

/// The lexicographic order is transitive.
pub proof fn lemma_lex_le_trans(a: Seq<char>, b: Seq<char>, c: Seq<char>)
    requires
        spec_lex_le(a, b),
        spec_lex_le(b, c),
    ensures
        spec_lex_le(a, c),
    decreases a.len(),
{
    if a.len() > 0 && b.len() > 0 && c.len() > 0 {
        if !((a[0] as u32) < (b[0] as u32)) && !((a[0] as u32) > (b[0] as u32)) && !((
        b[0] as u32) < (c[0] as u32)) && !((b[0] as u32) > (c[0] as u32)) {
            lemma_lex_le_trans(a.drop_first(), b.drop_first(), c.drop_first());
        }
    }
}

/// Whether one string sorts at or before another, by scalar-value
/// lexicographic order.
pub fn lex_le(a: &str, b: &str) -> (r: bool)
    ensures
        r == spec_lex_le(a@, b@),
{
    let an: usize = a.unicode_len();
    let bn: usize = b.unicode_len();
    proof {
        assert(a@.skip(0int) =~= a@);
        assert(b@.skip(0int) =~= b@);
    }
    let mut i: usize = 0;
    loop
        invariant
            i <= an,
            i <= bn,
            an == a@.len(),
            bn == b@.len(),
            spec_lex_le(a@, b@) == spec_lex_le(a@.skip(i as int), b@.skip(i as int)),
        decreases an - i,
    {
        if i >= an {
            return true;
        }
        if i >= bn {
            return false;
        }
        let ca: u32 = a.get_char(i) as u32;
        let cb: u32 = b.get_char(i) as u32;
        proof {
            assert(a@.skip(i as int)[0] == a@[i as int]);
            assert(b@.skip(i as int)[0] == b@[i as int]);
            assert(a@.skip(i as int).drop_first() =~= a@.skip(i + 1int));
            assert(b@.skip(i as int).drop_first() =~= b@.skip(i + 1int));
        }
        if ca < cb {
            return true;
        }
        if ca > cb {
            return false;
        }
        i += 1;
    }
}

} // verus!
