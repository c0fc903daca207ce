//! Text: bytes a peer claims are text, and the decimal numbers inside it.
use vstd::prelude::*;
use vstd::std_specs::iter::IteratorSpec;
use vstd::string::StringSliceAdditionalSpecFns;
use vstd::utf8::valid_utf8;

verus! {

/// Borrows `bytes` as text if they are well-formed UTF-8.
///
/// Trusted: calls `std::str::from_utf8`, whose documentation promises success exactly on
/// well-formed UTF-8 — the property vstd's `valid_utf8` spells out — and a string whose
/// bytes are the input's.
#[verifier::external_body]
pub(crate) fn utf8(bytes: &[u8]) -> (res: Option<&str>)
    ensures
        res is Some <==> valid_utf8(bytes@),
        res matches Some(s) ==> s.spec_bytes() == bytes@,
{
    std::str::from_utf8(bytes).ok()
}

/// A string holding exactly `chars`.
///
/// Trusted: calls `String::from_iter` over the characters, which the documentation
/// describes as collecting them, in order, into a new string.
#[verifier::external_body]
pub(crate) fn string_from(chars: &[char]) -> (s: String)
    ensures
        s@ == chars@,
{
    String::from_iter(chars.iter())
}

/// The characters of a string, in order.
pub fn chars_of(s: &str) -> (out: Vec<char>)
    ensures
        out@ == s@,
{
    let mut it = s.chars();
    let mut out: Vec<char> = Vec::new();
    loop
        invariant
            it.obeys_prophetic_iter_laws(),
            it.decrease() is Some,
            s@ == out@ + it.remaining(),
        ensures
            out@ == s@,
        decreases it.decrease()->0,
    {
        let ghost before = it;
        match it.next() {
            Some(c) => {
                proof {
                    assert(out@.push(c) + it.remaining() =~= out@ + before.remaining());
                }
                out.push(c);
            },
            None => {
                proof {
                    assert(out@ + it.remaining() =~= out@);
                }
                break;
            },
        }
    }
    out
}

/// Whether two strings hold the same characters.
pub fn text_eq(a: &str, b: &str) -> (same: bool)
    ensures
        same == (a@ == b@),
{
    let x = a.as_bytes();
    let y = b.as_bytes();
    proof {
        vstd::utf8::encode_utf8_decode_utf8(a@);
        vstd::utf8::encode_utf8_decode_utf8(b@);
    }
    if x.len() != y.len() {
        return false;
    }
    let mut i: usize = 0;
    while i < x.len()
        invariant
            x@.len() == y@.len(),
            x@ == a.spec_bytes(),
            y@ == b.spec_bytes(),
            i <= x@.len(),
            forall|k: int| 0 <= k < i ==> x@[k] == y@[k],
        decreases x@.len() - i,
    {
        if x[i] != y[i] {
            return false;
        }
        i = i + 1;
    }
    assert(x@ =~= y@);
    true
}

/// Whether a character is an ASCII decimal digit.
pub open spec fn is_digit(c: char) -> bool {
    '0' <= c <= '9'
}

/// Whether every character is an ASCII decimal digit.
pub open spec fn all_digits(s: Seq<char>) -> bool {
    forall|i: int| 0 <= i < s.len() ==> is_digit(#[trigger] s[i])
}

/// The number a run of decimal digits spells, most significant first.
pub open spec fn digits_value(s: Seq<char>) -> nat
    decreases s.len(),
{
    if s.len() == 0 {
        0
    } else {
        digits_value(s.drop_last()) * 10 + ((s.last() as u32) - ('0' as u32)) as nat
    }
}

/// What parsing an unsigned number no greater than `max` out of `s` gives, the way Rust's
/// integer parsing reads it: an optional `+`, then at least one digit, nothing else.
pub open spec fn parse_unsigned(s: Seq<char>, max: nat) -> Option<nat> {
    let body = if s.len() > 0 && s[0] == '+' {
        s.drop_first()
    } else {
        s
    };
    if body.len() == 0 || !all_digits(body) || digits_value(body) > max {
        None
    } else {
        Some(digits_value(body))
    }
}

/// What parsing a signed 64-bit number out of `s` gives: an optional sign, then at
/// least one digit, within range.
pub open spec fn parse_signed(s: Seq<char>) -> Option<int> {
    if s.len() > 0 && s[0] == '-' {
        let body = s.drop_first();
        if body.len() == 0 || !all_digits(body) || digits_value(body) > 0x8000_0000_0000_0000 {
            None
        } else {
            Some(-(digits_value(body) as int))
        }
    } else {
        match parse_unsigned(s, i64::MAX as nat) {
            Some(v) => Some(v as int),
            None => None,
        }
    }
}

/// More digits never make a smaller number.
proof fn lemma_digits_grow(s: Seq<char>, n: int)
    requires
        all_digits(s),
        0 <= n <= s.len(),
    ensures
        digits_value(s.take(n)) <= digits_value(s),
    decreases s.len() - n,
{
    if n < s.len() {
        lemma_digits_grow(s, n + 1);
        assert(s.take(n + 1).drop_last() =~= s.take(n));
        assert(is_digit(s[n]));
        let a = digits_value(s.take(n));
        assert(s.take(n + 1).last() == s[n]);
        assert(digits_value(s.take(n + 1)) == a * 10 + ((s[n] as u32) - ('0' as u32)) as nat);
        assert(a <= a * 10) by (nonlinear_arith);
    } else {
        assert(s.take(n) =~= s);
    }
}

/// The value of decimal digits `s[start..]`, no greater than `max`, if they are all
/// digits and there is at least one.
fn digits_upto(s: &[char], start: usize, max: u64) -> (r: Option<u64>)
    requires
        start <= s@.len(),
    ensures
        ({
            let body = s@.skip(start as int);
            match r {
                Some(v) => body.len() > 0 && all_digits(body) && v == digits_value(body) && v <= max,
                None => !(body.len() > 0 && all_digits(body) && digits_value(body) <= max),
            }
        }),
{
    let ghost body = s@.skip(start as int);
    if start == s.len() {
        return None;
    }
    let mut v: u64 = 0;
    let mut i: usize = start;
    while i < s.len()
        invariant
            start <= i <= s@.len(),
            body == s@.skip(start as int),
            all_digits(body.take(i - start)),
            v == digits_value(body.take(i - start)),
            v <= max,
        decreases s@.len() - i,
    {
        let c = s[i];
        proof {
            assert(body[i - start] == c);
        }
        if c < '0' || c > '9' {
            proof {
                assert(!is_digit(body[i - start]));
            }
            return None;
        }
        let d = (c as u32 - '0' as u32) as u64;
        proof {
            assert(body.take(i - start + 1).drop_last() =~= body.take(i - start));
            assert(body.take(i - start + 1).last() == c);
        }
        if d > max || v > (max - d) / 10 {
            proof {
                assert(v * 10 + d > max) by (nonlinear_arith)
                    requires
                        d > max || v > (max - d) / 10,
                        d <= max ==> v > (max - d) / 10 || d > max,
                ;
                let rest_ok = all_digits(body);
                if rest_ok {
                    lemma_digits_grow(body, i - start + 1);
                }
            }
            return None;
        }
        proof {
            assert(v * 10 + d <= max) by (nonlinear_arith)
                requires
                    v <= (max - d) / 10,
                    d <= max,
            ;
        }
        v = v * 10 + d;
        proof {
            assert forall|k: int| 0 <= k < i - start + 1 implies is_digit(#[trigger] body.take(i - start + 1)[k]) by {
                if k < i - start {
                    assert(body.take(i - start + 1)[k] == body.take(i - start)[k]);
                }
            }
        }
        i = i + 1;
    }
    proof {
        assert(body.take(i - start) =~= body);
    }
    Some(v)
}

/// Parses an unsigned number no greater than `max`, as Rust's integer parsing does.
pub fn parse_unsigned_chars(s: &[char], max: u64) -> (r: Option<u64>)
    ensures
        match parse_unsigned(s@, max as nat) {
            Some(v) => r == Some(v as u64),
            None => r is None,
        },
{
    let start: usize = if s.len() > 0 && s[0] == '+' {
        1
    } else {
        0
    };
    proof {
        if start == 1 {
            assert(s@.skip(1) =~= s@.drop_first());
        } else {
            assert(s@.skip(0) =~= s@);
        }
    }
    digits_upto(s, start, max)
}

/// Parses a signed 64-bit number, as Rust's integer parsing does.
pub fn parse_i64_chars(s: &[char]) -> (r: Option<i64>)
    ensures
        match parse_signed(s@) {
            Some(v) => r == Some(v as i64),
            None => r is None,
        },
{
    if s.len() > 0 && s[0] == '-' {
        proof {
            assert(s@.skip(1) =~= s@.drop_first());
        }
        match digits_upto(s, 1, 0x8000_0000_0000_0000) {
            Some(v) => {
                if v == 0x8000_0000_0000_0000 {
                    Some(i64::MIN)
                } else {
                    Some(-(v as i64))
                }
            },
            None => None,
        }
    } else {
        match parse_unsigned_chars(s, i64::MAX as u64) {
            Some(v) => Some(v as i64),
            None => None,
        }
    }
}


/// The character for one decimal digit.
pub open spec fn digit_char(d: nat) -> char {
    (d + 48) as char
}

/// The shortest decimal spelling of `n`: no sign, no leading zeros.
pub open spec fn decimal(n: nat) -> Seq<char>
    decreases n,
{
    if n < 10 {
        seq![digit_char(n)]
    } else {
        decimal(n / 10).push(digit_char(n % 10))
    }
}

/// The decimal spelling of a signed number: a `-` before a negative one.
pub open spec fn signed_decimal(i: int) -> Seq<char> {
    if i < 0 {
        seq!['-'] + decimal((-i) as nat)
    } else {
        decimal(i as nat)
    }
}

/// Appends the decimal spelling of `n`.
pub fn push_decimal(out: &mut Vec<char>, n: u64)
    ensures
        final(out)@ == old(out)@ + decimal(n as nat),
    decreases n,
{
    if n >= 10 {
        push_decimal(out, n / 10);
    }
    let d: u8 = (n % 10) as u8;
    let c: char = (d + 48) as char;
    proof {
        assert(c == digit_char((n % 10) as nat));
    }
    out.push(c);
    proof {
        if n < 10 {
            assert(decimal(n as nat) =~= seq![digit_char(n as nat)]);
        }
    }
}

/// A hexadecimal digit, lower case.
pub open spec fn hex_digit(d: nat) -> char {
    if d < 10 {
        (48 + d) as char
    } else {
        (87 + d) as char
    }
}

/// A byte as `0x` and two lower-case hexadecimal digits.
pub open spec fn hex_byte(b: u8) -> Seq<char> {
    seq!['0', 'x', hex_digit((b / 16) as nat), hex_digit((b % 16) as nat)]
}

/// Appends a byte as `0x` and two lower-case hexadecimal digits.
pub fn push_hex_byte(out: &mut Vec<char>, b: u8)
    ensures
        final(out)@ == old(out)@ + hex_byte(b),
{
    let hi = b / 16;
    let lo = b % 16;
    let h: char = if hi < 10 {
        (hi + 48) as char
    } else {
        (hi + 87) as char
    };
    let l: char = if lo < 10 {
        (lo + 48) as char
    } else {
        (lo + 87) as char
    };
    out.push('0');
    out.push('x');
    out.push(h);
    out.push(l);
    proof {
        assert(h == hex_digit((b / 16) as nat));
        assert(l == hex_digit((b % 16) as nat));
        assert(out@ =~= old(out)@ + hex_byte(b));
    }
}

/// A byte as two lower-case hexadecimal digits.
pub open spec fn hex_pair(b: u8) -> Seq<char> {
    seq![hex_digit((b / 16) as nat), hex_digit((b % 16) as nat)]
}

/// Bytes as hexadecimal pairs separated by single spaces.
pub open spec fn hex_joined(bytes: Seq<u8>) -> Seq<char>
    decreases bytes.len(),
{
    if bytes.len() == 0 {
        Seq::empty()
    } else if bytes.len() == 1 {
        hex_pair(bytes[0])
    } else {
        hex_joined(bytes.drop_last()) + seq![' '] + hex_pair(bytes.last())
    }
}

/// How many bytes [`head`] shows.
pub const HEAD_BYTES: usize = 48;

/// The first bytes as hex, and how many more there were.
pub open spec fn head_text(bytes: Seq<u8>) -> Seq<char> {
    if bytes.len() > 48 {
        hex_joined(bytes.take(48)) + "  ... +"@ + decimal((bytes.len() - 48) as nat) + " bytes"@
    } else {
        hex_joined(bytes)
    }
}

/// First bytes as hex, enough to recognise a packet without flooding a terminal.
pub fn head(bytes: &[u8]) -> (text: String)
    ensures
        text@ == head_text(bytes@),
{
    let shown = if bytes.len() < HEAD_BYTES {
        bytes.len()
    } else {
        HEAD_BYTES
    };
    let mut out: Vec<char> = Vec::new();
    let mut i: usize = 0;
    while i < shown
        invariant
            shown <= bytes@.len(),
            i <= shown,
            out@ == hex_joined(bytes@.take(i as int)),
        decreases shown - i,
    {
        let b = bytes[i];
        if i > 0 {
            out.push(' ');
        }
        let hi = b / 16;
        let lo = b % 16;
        out.push(if hi < 10 {
            (hi + 48) as char
        } else {
            (hi + 87) as char
        });
        out.push(if lo < 10 {
            (lo + 48) as char
        } else {
            (lo + 87) as char
        });
        proof {
            let t = bytes@.take(i + 1);
            assert(t.drop_last() =~= bytes@.take(i as int));
            assert(t.last() == b);
            if i == 0 {
                assert(t.len() == 1);
                assert(out@ =~= hex_pair(b));
            } else {
                assert(out@ =~= hex_joined(bytes@.take(i as int)) + seq![' '] + hex_pair(b));
            }
        }
        i = i + 1;
    }
    proof {
        if bytes@.len() <= 48 {
            assert(bytes@.take(shown as int) =~= bytes@);
        }
    }
    if bytes.len() > shown {
        push_str(&mut out, "  ... +");
        push_decimal(&mut out, (bytes.len() - shown) as u64);
        push_str(&mut out, " bytes");
    }
    proof {
        assert(out@ =~= head_text(bytes@));
    }
    string_from(out.as_slice())
}

/// Appends the decimal spelling of a signed number.
pub fn push_signed_decimal(out: &mut Vec<char>, i: i64)
    ensures
        final(out)@ == old(out)@ + signed_decimal(i as int),
{
    if i < 0 {
        out.push('-');
        let m: u64 = if i == i64::MIN {
            0x8000_0000_0000_0000
        } else {
            (-i) as u64
        };
        push_decimal(out, m);
    } else {
        push_decimal(out, i as u64);
    }
}

/// Appends every character of `s`.
pub fn push_str(out: &mut Vec<char>, s: &str)
    ensures
        final(out)@ == old(out)@ + s@,
{
    let cs = chars_of(s);
    let mut i: usize = 0;
    let ghost start = out@;
    while i < cs.len()
        invariant
            i <= cs@.len(),
            cs@ == s@,
            out@ == start + cs@.take(i as int),
        decreases cs@.len() - i,
    {
        out.push(cs[i]);
        proof {
            assert(cs@.take(i + 1) =~= cs@.take(i as int).push(cs@[i as int]));
        }
        i = i + 1;
    }
    proof {
        assert(cs@.take(i as int) =~= cs@);
    }
}

} // verus!
