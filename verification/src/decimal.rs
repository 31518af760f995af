//! Decimal text for the integers the interpreter exchanges with the outside:
//! the byte form that the output instruction emits, and the token form that
//! the integer-input instruction consumes.

use vstd::prelude::*;

verus! {

/// The ASCII decimal digits of a nonnegative number, most significant first.
pub open spec fn dec_digits(n: nat) -> Seq<u8>
    decreases n,
{
    if n < 10 {
        seq![(48 + n) as u8]
    } else {
        dec_digits(n / 10).push((48 + n % 10) as u8)
    }
}

/// The ASCII decimal form of a signed value: a minus sign for a negative
/// value, then its digits.
pub open spec fn dec_bytes(v: int) -> Seq<u8> {
    if v < 0 {
        seq![45u8] + dec_digits((-v) as nat)
    } else {
        dec_digits(v as nat)
    }
}

/// Appends the decimal form of `v` to `out`, exactly as `dec_bytes` gives it.
pub fn push_decimal(out: &mut Vec<u8>, v: i64)
    ensures
        final(out)@ == old(out)@ + dec_bytes(v as int),
{
    let ghost out0 = out@;
    let mut m: u64;
    if v < 0 {
        out.push(45);
        if v == i64::MIN {
            m = 9223372036854775808u64;
        } else {
            m = (-v) as u64;
        }
    } else {
        m = v as u64;
    }
    let ghost m0 = m as nat;
    let mut tmp: Vec<u8> = Vec::new();
    proof {
        assert(dec_digits(m0) =~= dec_digits(m as nat) + tmp@.reverse());
    }
    while m >= 10
        invariant
            dec_digits(m0) == dec_digits(m as nat) + tmp@.reverse(),
        decreases m,
    {
        let d: u8 = 48 + (m % 10) as u8;
        proof {
            assert(tmp@.push(d).reverse() =~= seq![d] + tmp@.reverse());
            assert(dec_digits(m as nat) == dec_digits((m as nat) / 10).push(
                (48 + (m as nat) % 10) as u8,
            ));
            assert(dec_digits((m as nat) / 10) + (seq![d] + tmp@.reverse()) =~= (dec_digits(
                (m as nat) / 10,
            ) + seq![d]) + tmp@.reverse());
            assert(dec_digits((m as nat) / 10) + seq![d] =~= dec_digits((m as nat) / 10).push(d));
        }
        tmp.push(d);
        m = m / 10;
    }
    let d: u8 = 48 + (m % 10) as u8;
    proof {
        assert(dec_digits(m as nat) =~= seq![d]);
        assert(tmp@.push(d).reverse() =~= seq![d] + tmp@.reverse());
    }
    tmp.push(d);
    proof {
        assert(dec_digits(m0) =~= tmp@.reverse());
    }
    let k = tmp.len();
    let ghost mid = out@;
    let mut j: usize = 0;
    while j < k
        invariant
            k == tmp@.len(),
            j <= k,
            dec_digits(m0) == tmp@.reverse(),
            out@ == mid + tmp@.reverse().subrange(0, j as int),
        decreases k - j,
    {
        let b = tmp[k - 1 - j];
        proof {
            assert(tmp@.reverse()[j as int] == tmp@[k - 1 - j]);
            assert(tmp@.reverse().subrange(0, j as int + 1) =~= tmp@.reverse().subrange(
                0,
                j as int,
            ).push(tmp@.reverse()[j as int]));
        }
        out.push(b);
        j += 1;
    }
    proof {
        assert(tmp@.reverse().subrange(0, k as int) =~= tmp@.reverse());
        if v < 0 {
            assert((-(v as int)) as nat == m0);
            assert(mid =~= out0 + seq![45u8]);
            assert(out@ =~= out0 + dec_bytes(v as int));
        } else {
            assert(out@ =~= out0 + dec_bytes(v as int));
        }
    }
}

/// Bytes the integer-input instruction treats as whitespace around a token:
/// space, tab, line feed, carriage return.
pub open spec fn is_space_byte(b: u8) -> bool {
    b == 32 || b == 9 || b == 10 || b == 13
}

/// ASCII decimal digits.
pub open spec fn is_digit_byte(b: u8) -> bool {
    48 <= b <= 57
}

/// The first index at or after `i` whose byte is not whitespace, or the end
/// of the input.
pub open spec fn skip_spaces(s: Seq<u8>, i: int) -> int
    decreases s.len() - i,
{
    if 0 <= i < s.len() && is_space_byte(s[i]) {
        skip_spaces(s, i + 1)
    } else {
        i
    }
}

/// The first index at or after `i` whose byte is not a decimal digit, or the
/// end of the input.
pub open spec fn digits_end(s: Seq<u8>, i: int) -> int
    decreases s.len() - i,
{
    if 0 <= i < s.len() && is_digit_byte(s[i]) {
        digits_end(s, i + 1)
    } else {
        i
    }
}

/// The numeric value of the digit run `s[i..e)`, most significant digit
/// first.
pub open spec fn digits_value(s: Seq<u8>, i: int, e: int) -> int
    decreases e - i,
{
    if i >= e {
        0
    } else {
        digits_value(s, i, e - 1) * 10 + (s[e - 1] - 48)
    }
}

/// What reading one integer token from input position `from` yields.
#[derive(Debug, Copy, Clone, PartialEq, Eq, Structural)]
pub enum TokenRead {
    /// Only whitespace remains: there is no token to read.
    EndOfInput,
    /// The next token is not a decimal integer that fits the stack's cells.
    Malformed,
    /// The token's value, and the input position just past its digits.
    Token(i64, usize),
}

/// Reading one integer token: skip whitespace; accept an optional sign and a
/// nonempty digit run; the token must fit a 64-bit signed cell.
pub open spec fn token_parse(s: Seq<u8>, from: int) -> TokenRead {
    let j = skip_spaces(s, from);
    if j >= s.len() {
        TokenRead::EndOfInput
    } else {
        let negative = s[j] == 45;
        let d0 = if s[j] == 45 || s[j] == 43 {
            j + 1
        } else {
            j
        };
        let e = digits_end(s, d0);
        if e == d0 {
            TokenRead::Malformed
        } else {
            let val = if negative {
                -digits_value(s, d0, e)
            } else {
                digits_value(s, d0, e)
            };
            if val < i64::MIN || val > i64::MAX {
                TokenRead::Malformed
            } else {
                TokenRead::Token(val as i64, e as usize)
            }
        }
    }
}

proof fn lemma_skip_spaces_bounds(s: Seq<u8>, i: int)
    requires
        0 <= i <= s.len(),
    ensures
        i <= skip_spaces(s, i) <= s.len(),
    decreases s.len() - i,
{
    if i < s.len() && is_space_byte(s[i]) {
        lemma_skip_spaces_bounds(s, i + 1);
    }
}

/// A token that parses successfully ends at or after where reading started,
/// and within the input.
pub proof fn lemma_token_end_bounds(s: Seq<u8>, from: int)
    requires
        0 <= from <= s.len(),
        s.len() <= usize::MAX,
    ensures
        match token_parse(s, from) {
            TokenRead::Token(v, e) => from <= e <= s.len(),
            _ => true,
        },
{
    lemma_skip_spaces_bounds(s, from);
    let j = skip_spaces(s, from);
    if j < s.len() {
        let d0 = if s[j] == 45 || s[j] == 43 {
            j + 1
        } else {
            j
        };
        lemma_digits_end_bounds(s, d0);
    }
}

proof fn lemma_digits_end_bounds(s: Seq<u8>, i: int)
    requires
        0 <= i <= s.len(),
    ensures
        i <= digits_end(s, i) <= s.len(),
        forall|k: int| i <= k < digits_end(s, i) ==> is_digit_byte(s[k]),
    decreases s.len() - i,
{
    if i < s.len() && is_digit_byte(s[i]) {
        lemma_digits_end_bounds(s, i + 1);
    }
}

proof fn lemma_digits_value_nonneg(s: Seq<u8>, d0: int, i: int)
    requires
        forall|k: int| d0 <= k < i ==> is_digit_byte(s[k]),
    ensures
        digits_value(s, d0, i) >= 0,
    decreases i - d0,
{
    if i > d0 {
        lemma_digits_value_nonneg(s, d0, i - 1);
    }
}

proof fn lemma_digits_value_mono(s: Seq<u8>, d0: int, i: int, e: int)
    requires
        d0 <= i <= e,
        forall|k: int| d0 <= k < e ==> is_digit_byte(s[k]),
    ensures
        digits_value(s, d0, e) >= digits_value(s, d0, i),
    decreases e - i,
{
    if e > i {
        lemma_digits_value_mono(s, d0, i, e - 1);
        lemma_digits_value_nonneg(s, d0, e - 1);
    }
}

/// Reads one integer token from `input` starting at `from`, exactly as
/// `token_parse` describes it.
pub fn read_int_token(input: &Vec<u8>, from: usize) -> (r: TokenRead)
    requires
        from <= input@.len(),
    ensures
        r == token_parse(input@, from as int),
{
    let n = input.len();
    let mut j = from;
    while j < n && (input[j] == 32 || input[j] == 9 || input[j] == 10 || input[j] == 13)
        invariant
            from <= j <= n,
            n == input@.len(),
            skip_spaces(input@, from as int) == skip_spaces(input@, j as int),
        decreases n - j,
    {
        j += 1;
    }
    assert(skip_spaces(input@, from as int) == j as int);
    if j == n {
        return TokenRead::EndOfInput;
    }
    let b = input[j];
    let negative = b == 45;
    let d0 = if b == 45 || b == 43 {
        j + 1
    } else {
        j
    };
    let mut e = d0;
    while e < n && 48 <= input[e] && input[e] <= 57
        invariant
            d0 <= e <= n,
            n == input@.len(),
            digits_end(input@, d0 as int) == digits_end(input@, e as int),
        decreases n - e,
    {
        e += 1;
    }
    assert(digits_end(input@, d0 as int) == e as int);
    if e == d0 {
        return TokenRead::Malformed;
    }
    proof {
        lemma_digits_end_bounds(input@, d0 as int);
    }
    let ghost mag = digits_value(input@, d0 as int, e as int);
    let mut acc: i64 = 0;
    let mut i = d0;
    while i < e
        invariant
            d0 <= i <= e <= n,
            n == input@.len(),
            from <= j < n,
            skip_spaces(input@, from as int) == j as int,
            negative == (input@[j as int] == 45),
            d0 as int == if input@[j as int] == 45 || input@[j as int] == 43 {
                j as int + 1
            } else {
                j as int
            },
            d0 < e,
            digits_end(input@, d0 as int) == e as int,
            forall|k: int| d0 <= k < e ==> is_digit_byte(input@[k]),
            mag == digits_value(input@, d0 as int, e as int),
            acc <= 0,
            acc == -digits_value(input@, d0 as int, i as int),
        decreases e - i,
    {
        let d = (input[i] - 48) as i64;
        let step = match acc.checked_mul(10) {
            Some(a10) => a10.checked_sub(d),
            None => None,
        };
        match step {
            Some(a) => {
                acc = a;
            },
            None => {
                proof {
                    let s = input@;
                    let v1 = digits_value(s, d0 as int, i as int + 1);
                    assert(v1 == digits_value(s, d0 as int, i as int) * 10 + (s[i as int]
                        - 48));
                    assert(v1 > 0x8000_0000_0000_0000);
                    lemma_digits_value_mono(s, d0 as int, i as int + 1, e as int);
                    assert(mag >= v1);
                }
                return TokenRead::Malformed;
            },
        }
        i += 1;
    }
    if negative {
        TokenRead::Token(acc, e)
    } else {
        if acc == i64::MIN {
            TokenRead::Malformed
        } else {
            TokenRead::Token(-acc, e)
        }
    }
}

} // verus!
