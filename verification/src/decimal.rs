//! ASCII base-10 numbers as they appear on the wire: a specification of the
//! digit strings the protocol reads and writes, an exec parser and an exec
//! formatter proved against it, and the round-trip between the two.

use vstd::prelude::*;

verus! {

/// ASCII code of `'0'`.
pub const DIGIT_ZERO: u8 = 48;

/// ASCII code of `'+'`.
pub const PLUS: u8 = 43;

/// ASCII code of `'-'`.
pub const MINUS: u8 = 45;

pub open spec fn is_digit(b: u8) -> bool {
    48 <= b <= 57
}

pub open spec fn all_digits(s: Seq<u8>) -> bool {
    forall|i: int| 0 <= i < s.len() ==> is_digit(#[trigger] s[i])
}

/// Numeric value of a digit string, most significant digit first.
pub open spec fn digits_value(s: Seq<u8>) -> int
    decreases s.len(),
{
    if s.len() == 0 {
        0
    } else {
        digits_value(s.drop_last()) * 10 + (s.last() - 48)
    }
}

/// Length of the longest prefix of `s` made of ASCII digits.
pub open spec fn digit_prefix_len(s: Seq<u8>) -> int
    decreases s.len(),
{
    if s.len() == 0 || !is_digit(s[0]) {
        0
    } else {
        1 + digit_prefix_len(s.drop_first())
    }
}

/// The number read from `s` the way the wire protocol reads one: an optional
/// sign, then the longest run of digits; the rest of the slice is ignored.
/// `None` when no digit follows the sign, when the value does not fit in a
/// `u64`, or when a `-` sign precedes a non-zero value.
pub open spec fn atoi_u64(s: Seq<u8>) -> Option<u64> {
    let signed = s.len() > 0 && (s[0] == PLUS || s[0] == MINUS);
    let neg = s.len() > 0 && s[0] == MINUS;
    let body = if signed {
        s.drop_first()
    } else {
        s
    };
    let k = digit_prefix_len(body);
    if k == 0 {
        None
    } else {
        let v = digits_value(body.take(k));
        if v > u64::MAX {
            None
        } else if neg && v != 0 {
            None
        } else {
            Some(v as u64)
        }
    }
}

/// Decimal digit string of `n`, most significant digit first, no sign and no
/// leading zero (a single `0` for zero).
pub open spec fn u64_dec(n: u64) -> Seq<u8>
    decreases n,
{
    if n < 10 {
        seq![(48 + n) as u8]
    } else {
        u64_dec(n / 10).push((48 + n % 10) as u8)
    }
}

pub proof fn lemma_digit_prefix_len_bounds(s: Seq<u8>)
    ensures
        0 <= digit_prefix_len(s) <= s.len(),
        forall|i: int| 0 <= i < digit_prefix_len(s) ==> is_digit(#[trigger] s[i]),
        digit_prefix_len(s) < s.len() ==> !is_digit(s[digit_prefix_len(s)]),
    decreases s.len(),
{
    if s.len() == 0 || !is_digit(s[0]) {
    } else {
        lemma_digit_prefix_len_bounds(s.drop_first());
        assert forall|i: int| 0 <= i < digit_prefix_len(s) implies is_digit(#[trigger] s[i]) by {
            if i > 0 {
                assert(s.drop_first()[i - 1] == s[i]);
            }
        }
        if digit_prefix_len(s) < s.len() {
            assert(s.drop_first()[digit_prefix_len(s) - 1] == s[digit_prefix_len(s)]);
        }
    }
}

/// If every byte of `s` is a digit, the digit prefix is all of `s`.
pub proof fn lemma_digit_prefix_all(s: Seq<u8>)
    requires
        all_digits(s),
    ensures
        digit_prefix_len(s) == s.len(),
    decreases s.len(),
{
    if s.len() != 0 {
        assert(all_digits(s.drop_first())) by {
            assert(forall|i: int|
                0 <= i < s.drop_first().len() ==> #[trigger] s.drop_first()[i] == s[i + 1]);
        }
        lemma_digit_prefix_all(s.drop_first());
    }
}

pub proof fn lemma_u64_dec_digits(n: u64)
    ensures
        u64_dec(n).len() >= 1,
        all_digits(u64_dec(n)),
        digits_value(u64_dec(n)) == n,
        u64_dec(n)[0] != 48 || n < 10,
    decreases n,
{
    if n < 10 {
        assert(digits_value(u64_dec(n)) == digits_value(u64_dec(n).drop_last()) * 10 + n);
        assert(u64_dec(n).drop_last() =~= Seq::<u8>::empty());
    } else {
        lemma_u64_dec_digits(n / 10);
        let s = u64_dec(n);
        assert(s.drop_last() =~= u64_dec(n / 10));
        assert(s.last() == (48 + n % 10) as u8);
        assert(digits_value(s) == (n / 10) * 10 + n % 10);
        assert(s[0] == u64_dec(n / 10)[0]);
        assert(n / 10 >= 1);
        if n / 10 < 10 {
            assert(u64_dec(n / 10)[0] == (48 + n / 10) as u8);
        }
    }
}

/// Parsing the canonical digit string of `n` gives back `n`.
pub proof fn lemma_atoi_u64_dec(n: u64)
    ensures
        atoi_u64(u64_dec(n)) == Some(n),
{
    lemma_u64_dec_digits(n);
    let s = u64_dec(n);
    assert(is_digit(s[0]));
    assert(s[0] != PLUS && s[0] != MINUS);
    lemma_digit_prefix_all(s);
    assert(s.take(s.len() as int) =~= s);
}

/// Appending one digit multiplies the value by ten and adds the digit.
pub proof fn lemma_digits_value_push(s: Seq<u8>, b: u8)
    ensures
        digits_value(s.push(b)) == digits_value(s) * 10 + (b - 48),
{
    assert(s.push(b).drop_last() =~= s);
    assert(s.push(b).last() == b);
}

/// Exec parser matching [`atoi_u64`]: how the protocol reads an unsigned
/// number from a line.
pub fn parse_u64(s: &[u8]) -> (r: Option<u64>)
    ensures
        r == atoi_u64(s@),
{
    let ghost whole: Seq<u8> = s@;
    let len: usize = s.len();
    let mut i: usize = 0;
    let mut neg: bool = false;
    if len > 0 && (s[0] == PLUS || s[0] == MINUS) {
        neg = s[0] == MINUS;
        i = 1;
    }
    let ghost body: Seq<u8> = if i == 1 {
        whole.drop_first()
    } else {
        whole
    };
    let start: usize = i;
    proof {
        lemma_digit_prefix_len_bounds(body);
    }
    let mut value: u64 = 0;
    let mut over: bool = false;
    while i < len && s[i] >= 48 && s[i] <= 57
        invariant
            start <= i <= len,
            len == whole.len(),
            s@ == whole,
            start <= 1,
            body == (if start == 1 {
                whole.drop_first()
            } else {
                whole
            }),
            i - start <= digit_prefix_len(body),
            forall|j: int| start <= j < i ==> is_digit(#[trigger] whole[j]),
            !over ==> value == digits_value(body.take(i - start)),
            over ==> digits_value(body.take(i - start)) > u64::MAX,
        decreases len - i,
    {
        let d: u8 = s[i] - 48;
        proof {
            assert(body[i - start] == whole[i as int]);
            assert(body.take(i - start + 1) =~= body.take(i - start).push(body[i - start]));
            lemma_digits_value_push(body.take(i - start), body[i - start]);
            if i - start == digit_prefix_len(body) {
                lemma_digit_prefix_len_bounds(body);
                assert(is_digit(body[i - start]));
                assert(false);
            }
        }
        if over {
            proof {
                let prev = digits_value(body.take(i - start));
                assert(digits_value(body.take(i - start + 1)) == prev * 10 + d);
                assert(prev * 10 + d > u64::MAX) by (nonlinear_arith)
                    requires
                        prev > u64::MAX,
                        d >= 0,
                ;
            }
        } else {
            match value.checked_mul(10) {
                Some(x) => {
                    match x.checked_add(d as u64) {
                        Some(y) => {
                            value = y;
                        },
                        None => {
                            over = true;
                        },
                    }
                },
                None => {
                    over = true;
                },
            }
        }
        i = i + 1;
    }
    proof {
        lemma_digit_prefix_len_bounds(body);
        // the loop stopped at the end of the digit prefix
        if i < len {
            assert(!is_digit(whole[i as int]));
            assert(body[i - start] == whole[i as int]);
        }
        assert(i - start == digit_prefix_len(body)) by {
            if i - start < digit_prefix_len(body) {
                assert(i < len);
                assert(is_digit(body[i - start]));
            }
        }
    }
    if i == start {
        None
    } else if over {
        None
    } else if neg && value != 0 {
        None
    } else {
        Some(value)
    }
}

/// Exec formatter matching [`u64_dec`]: the canonical decimal digit string.
pub fn format_u64(n: u64) -> (out: Vec<u8>)
    ensures
        out@ == u64_dec(n),
{
    let mut out: Vec<u8> = Vec::new();
    let mut m: u64 = n;
    proof {
        assert(u64_dec(n) =~= u64_dec(n) + out@);
    }
    loop
        invariant_except_break
            u64_dec(n) == u64_dec(m) + out@,
        ensures
            out@ == u64_dec(n),
        decreases m,
    {
        let d: u8 = DIGIT_ZERO + (m % 10) as u8;
        let ghost prev_out = out@;
        out.insert(0, d);
        if m < 10 {
            proof {
                assert(u64_dec(m) =~= seq![d]);
                assert(out@ =~= u64_dec(m) + prev_out);
            }
            break;
        }
        proof {
            assert(u64_dec(m) == u64_dec(m / 10).push(d));
            assert(u64_dec(m) + prev_out =~= u64_dec(m / 10) + out@);
        }
        m = m / 10;
    }
    out
}

} // verus!

verus! {

/// The number a string holds under strict reading: an optional `+`, then
/// one or more digits and nothing else, with the value fitting in a
/// `u64`.
pub open spec fn strict_u64(s: Seq<u8>) -> Option<u64> {
    let body = if s.len() > 0 && s[0] == PLUS {
        s.drop_first()
    } else {
        s
    };
    if body.len() >= 1 && all_digits(body) && digits_value(body) <= u64::MAX {
        Some(digits_value(body) as u64)
    } else {
        None
    }
}

/// Exec parser matching [`strict_u64`], the way a count is read off the
/// command line.
pub fn parse_u64_strict(s: &[u8]) -> (r: Option<u64>)
    ensures
        r == strict_u64(s@),
{
    let ghost whole: Seq<u8> = s@;
    let len: usize = s.len();
    let mut i: usize = 0;
    if len > 0 && s[0] == PLUS {
        i = 1;
    }
    let ghost body: Seq<u8> = if i == 1 {
        whole.drop_first()
    } else {
        whole
    };
    let start: usize = i;
    if start == len {
        proof {
            assert(body.len() == 0);
        }
        return None;
    }
    let mut value: u64 = 0;
    let mut over: bool = false;
    while i < len
        invariant
            start <= i <= len,
            start < len,
            len == whole.len(),
            s@ == whole,
            start <= 1,
            (start == 1) == (whole.len() > 0 && whole[0] == PLUS),
            body == (if start == 1 {
                whole.drop_first()
            } else {
                whole
            }),
            forall|j: int| 0 <= j < i - start ==> is_digit(#[trigger] body[j]),
            !over ==> value == digits_value(body.take(i - start)),
            over ==> digits_value(body.take(i - start)) > u64::MAX,
        decreases len - i,
    {
        let b = s[i];
        if b < 48 || b > 57 {
            proof {
                assert(body[i - start] == whole[i as int]);
                assert(!is_digit(body[i - start]));
                assert(!all_digits(body));
            }
            return None;
        }
        let d: u8 = b - 48;
        proof {
            assert(body[i - start] == whole[i as int]);
            assert(body.take(i - start + 1) =~= body.take(i - start).push(body[i - start]));
            lemma_digits_value_push(body.take(i - start), body[i - start]);
        }
        if over {
            proof {
                let prev = digits_value(body.take(i - start));
                assert(prev * 10 + d > u64::MAX) by (nonlinear_arith)
                    requires
                        prev > u64::MAX,
                        d >= 0,
                ;
            }
        } else {
            match value.checked_mul(10) {
                Some(x) => {
                    match x.checked_add(d as u64) {
                        Some(y) => {
                            value = y;
                        },
                        None => {
                            over = true;
                        },
                    }
                },
                None => {
                    over = true;
                },
            }
        }
        i = i + 1;
    }
    proof {
        assert(body.take(len - start) =~= body);
        assert(all_digits(body));
    }
    if over {
        None
    } else {
        Some(value)
    }
}

} // verus!
