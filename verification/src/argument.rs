//! Conversion of literal text into typed argument values.
//!
//! A type implementing [`Argument`] can be bound from a positional argument
//! or an attribute value. Text arguments bound to these types must be
//! literal: they are read directly, never evaluated as a sub-document.

use vstd::prelude::*;
use vstd::string::StrSliceExecFns;
use vstd::string::StringExecFns;

verus! {

/// A type a literal text argument can be converted to.
pub trait Argument: Sized {
    /// Whether the text denotes a value of this type.
    spec fn arg_ok(s: Seq<char>) -> bool;

    /// Whether `v` is the value the text denotes.
    spec fn arg_is(s: Seq<char>, v: &Self) -> bool;

    /// Read a value of this type from literal text.
    fn parse_arg(s: &str) -> (r: Option<Self>)
        ensures
            r is Some <==> Self::arg_ok(s@),
            r matches Some(v) ==> Self::arg_is(s@, &v),
    ;

    /// The name of this type, as error messages spell it.
    spec fn type_label_spec() -> Seq<char>;

    /// The name of this type, for error messages.
    fn type_label() -> (l: String)
        ensures
            l@ == Self::type_label_spec(),
    ;
}

pub open spec fn is_digit(c: char) -> bool {
    '0' <= c && c <= '9'
}

pub open spec fn all_digits(s: Seq<char>) -> bool {
    forall|i: int| 0 <= i < s.len() ==> is_digit(#[trigger] s[i])
}

/// The number a digit string denotes.
pub open spec fn dec_val(s: Seq<char>) -> nat
    decreases s.len(),
{
    if s.len() == 0 {
        0
    } else {
        (dec_val(s.drop_last()) * 10 + (s.last() as int - '0' as int)) as nat
    }
}

/// The digits of an unsigned number: everything after an optional `+`.
pub open spec fn unsigned_digits(s: Seq<char>) -> Seq<char> {
    if s.len() > 0 && s[0] == '+' {
        s.subrange(1, s.len() as int)
    } else {
        s
    }
}

/// Whether the text is an unsigned decimal number: an optional `+`, then at
/// least one digit.
pub open spec fn valid_unsigned(s: Seq<char>) -> bool {
    unsigned_digits(s).len() > 0 && all_digits(unsigned_digits(s))
}

pub open spec fn unsigned_val(s: Seq<char>) -> nat {
    dec_val(unsigned_digits(s))
}

/// Whether the text carries a minus sign.
pub open spec fn sign_neg(s: Seq<char>) -> bool {
    s.len() > 0 && s[0] == '-'
}

/// The digits of a signed number: everything after an optional `+` or `-`.
pub open spec fn signed_digits(s: Seq<char>) -> Seq<char> {
    if s.len() > 0 && (s[0] == '+' || s[0] == '-') {
        s.subrange(1, s.len() as int)
    } else {
        s
    }
}

/// Whether the text is a signed decimal number: an optional sign, then at
/// least one digit.
pub open spec fn valid_signed(s: Seq<char>) -> bool {
    signed_digits(s).len() > 0 && all_digits(signed_digits(s))
}

pub open spec fn signed_val(s: Seq<char>) -> int {
    if sign_neg(s) {
        -(dec_val(signed_digits(s)) as int)
    } else {
        dec_val(signed_digits(s)) as int
    }
}

/// Appending one digit multiplies the value by ten and adds the digit.
proof fn lemma_dec_val_step(s: Seq<char>, a: int, i: int)
    requires
        0 <= a <= i < s.len(),
        is_digit(s[i]),
    ensures
        dec_val(s.subrange(a, i + 1)) == dec_val(s.subrange(a, i)) * 10 + (s[i] as int
            - '0' as int),
{
    assert(s.subrange(a, i + 1).drop_last() =~= s.subrange(a, i));
    assert(s.subrange(a, i + 1).last() == s[i]);
    assert(0 <= s[i] as int - '0' as int <= 9);
}

/// A digit string's value only grows as digits are appended.
proof fn lemma_dec_val_monotone(s: Seq<char>, a: int, i: int, j: int)
    requires
        0 <= a <= i <= j <= s.len(),
        forall|k: int| i <= k < j ==> is_digit(#[trigger] s[k]),
    ensures
        dec_val(s.subrange(a, i)) <= dec_val(s.subrange(a, j)),
    decreases j - i,
{
    if i < j {
        lemma_dec_val_step(s, a, i);
        lemma_dec_val_monotone(s, a, i + 1, j);
    }
}

fn is_digit_exec(c: char) -> (b: bool)
    ensures
        b == is_digit(c),
{
    c >= '0' && c <= '9'
}

/// Read the digits of `s` from `start` on as a number, refusing any
/// non-digit, an empty digit run, and a value over `limit`.
fn parse_digits_limit(s: &str, start: usize, limit: u64) -> (r: Option<u64>)
    requires
        start <= s@.len(),
    ensures
        r is Some <==> (start < s@.len() && all_digits(s@.subrange(start as int, s@.len() as int))
            && dec_val(s@.subrange(start as int, s@.len() as int)) <= limit),
        r matches Some(v) ==> v == dec_val(s@.subrange(start as int, s@.len() as int)),
{
    let n = s.unicode_len();
    if start >= n {
        return None;
    }
    let mut acc: u64 = 0;
    let mut i: usize = start;
    loop
        invariant
            start <= i <= n,
            n == s@.len(),
            start < n,
            acc <= limit,
            acc == dec_val(s@.subrange(start as int, i as int)),
            forall|k: int| start <= k < i ==> is_digit(#[trigger] s@[k]),
        ensures
            i == n,
            acc == dec_val(s@.subrange(start as int, n as int)),
            acc <= limit,
            forall|k: int| start <= k < n ==> is_digit(#[trigger] s@[k]),
        decreases n - i,
    {
        if i >= n {
            break ;
        }
        let c = s.get_char(i);
        if !is_digit_exec(c) {
            proof {
                assert(s@.subrange(start as int, s@.len() as int)[i - start] == s@[i as int]);
            }
            return None;
        }
        let d = (c as u32) - ('0' as u32);
        let t: u128 = (acc as u128) * 10 + (d as u128);
        proof {
            lemma_dec_val_step(s@, start as int, i as int);
        }
        if t > limit as u128 {
            proof {
                let whole = s@.subrange(start as int, s@.len() as int);
                if all_digits(whole) {
                    assert forall|k: int| i + 1 <= k < s@.len() implies is_digit(
                        #[trigger] s@[k],
                    ) by {
                        assert(whole[k - start] == s@[k]);
                    }
                    lemma_dec_val_monotone(s@, start as int, i + 1, s@.len() as int);
                    assert(dec_val(whole) >= dec_val(s@.subrange(start as int, i + 1)));
                }
            }
            return None;
        }
        acc = t as u64;
        i = i + 1;
    }
    proof {
        assert(s@.subrange(start as int, n as int) =~= s@.subrange(start as int, s@.len() as int));
    }
    Some(acc)
}

/// Read an unsigned decimal number no greater than `limit`.
fn parse_unsigned(s: &str, limit: u64) -> (r: Option<u64>)
    ensures
        r is Some <==> (valid_unsigned(s@) && unsigned_val(s@) <= limit),
        r matches Some(v) ==> v == unsigned_val(s@),
{
    let n = s.unicode_len();
    if n == 0 {
        return None;
    }
    let start: usize = if s.get_char(0) == '+' {
        1
    } else {
        0
    };
    proof {
        if start == 1 {
            assert(unsigned_digits(s@) =~= s@.subrange(1, s@.len() as int));
        } else {
            assert(unsigned_digits(s@) =~= s@.subrange(0, s@.len() as int));
        }
    }
    parse_digits_limit(s, start, limit)
}

/// Read a signed decimal number whose magnitude stays within the given
/// limit for its sign.
fn parse_signed(s: &str, neg_mag_limit: u64, pos_mag_limit: u64) -> (r: Option<i64>)
    requires
        neg_mag_limit <= 9223372036854775808u64,
        pos_mag_limit <= 9223372036854775807u64,
    ensures
        r is Some <==> (valid_signed(s@) && (if sign_neg(s@) {
            dec_val(signed_digits(s@)) <= neg_mag_limit
        } else {
            dec_val(signed_digits(s@)) <= pos_mag_limit
        })),
        r matches Some(v) ==> v == signed_val(s@),
{
    let n = s.unicode_len();
    if n == 0 {
        return None;
    }
    let c0 = s.get_char(0);
    let neg = c0 == '-';
    let start: usize = if c0 == '+' || c0 == '-' {
        1
    } else {
        0
    };
    proof {
        if start == 1 {
            assert(signed_digits(s@) =~= s@.subrange(1, s@.len() as int));
        } else {
            assert(signed_digits(s@) =~= s@.subrange(0, s@.len() as int));
        }
    }
    let limit = if neg {
        neg_mag_limit
    } else {
        pos_mag_limit
    };
    match parse_digits_limit(s, start, limit) {
        None => None,
        Some(mag) => {
            if neg {
                if mag > 0 {
                    Some(-((mag - 1) as i64) - 1)
                } else {
                    Some(0)
                }
            } else {
                Some(mag as i64)
            }
        },
    }
}

impl Argument for String {
    open spec fn arg_ok(s: Seq<char>) -> bool {
        true
    }

    open spec fn arg_is(s: Seq<char>, v: &Self) -> bool {
        v@ == s
    }

    fn parse_arg(s: &str) -> (r: Option<Self>) {
        Some(s.to_owned())
    }

    open spec fn type_label_spec() -> Seq<char> {
        "string"@
    }

    fn type_label() -> (l: String) {
        String::from_str("string")
    }
}

impl Argument for bool {
    open spec fn arg_ok(s: Seq<char>) -> bool {
        s == "true"@ || s == "false"@
    }

    open spec fn arg_is(s: Seq<char>, v: &Self) -> bool {
        *v == (s == "true"@)
    }

    fn parse_arg(s: &str) -> (r: Option<Self>) {
        proof {
            reveal_strlit("true");
            reveal_strlit("false");
        }
        let o = s.to_owned();
        if o == String::from_str("true") {
            Some(true)
        } else if o == String::from_str("false") {
            Some(false)
        } else {
            None
        }
    }

    open spec fn type_label_spec() -> Seq<char> {
        "bool"@
    }

    fn type_label() -> (l: String) {
        String::from_str("bool")
    }
}

impl Argument for u8 {
    open spec fn arg_ok(s: Seq<char>) -> bool {
        valid_unsigned(s) && unsigned_val(s) <= u8::MAX
    }

    open spec fn arg_is(s: Seq<char>, v: &Self) -> bool {
        *v == unsigned_val(s)
    }

    fn parse_arg(s: &str) -> (r: Option<Self>) {
        match parse_unsigned(s, 255u64) {
            Some(v) => Some(v as u8),
            None => None,
        }
    }

    open spec fn type_label_spec() -> Seq<char> {
        "u8"@
    }

    fn type_label() -> (l: String) {
        String::from_str("u8")
    }
}

impl Argument for u16 {
    open spec fn arg_ok(s: Seq<char>) -> bool {
        valid_unsigned(s) && unsigned_val(s) <= u16::MAX
    }

    open spec fn arg_is(s: Seq<char>, v: &Self) -> bool {
        *v == unsigned_val(s)
    }

    fn parse_arg(s: &str) -> (r: Option<Self>) {
        match parse_unsigned(s, 65535u64) {
            Some(v) => Some(v as u16),
            None => None,
        }
    }

    open spec fn type_label_spec() -> Seq<char> {
        "u16"@
    }

    fn type_label() -> (l: String) {
        String::from_str("u16")
    }
}

impl Argument for u32 {
    open spec fn arg_ok(s: Seq<char>) -> bool {
        valid_unsigned(s) && unsigned_val(s) <= u32::MAX
    }

    open spec fn arg_is(s: Seq<char>, v: &Self) -> bool {
        *v == unsigned_val(s)
    }

    fn parse_arg(s: &str) -> (r: Option<Self>) {
        match parse_unsigned(s, 4294967295u64) {
            Some(v) => Some(v as u32),
            None => None,
        }
    }

    open spec fn type_label_spec() -> Seq<char> {
        "u32"@
    }

    fn type_label() -> (l: String) {
        String::from_str("u32")
    }
}

impl Argument for u64 {
    open spec fn arg_ok(s: Seq<char>) -> bool {
        valid_unsigned(s) && unsigned_val(s) <= u64::MAX
    }

    open spec fn arg_is(s: Seq<char>, v: &Self) -> bool {
        *v == unsigned_val(s)
    }

    fn parse_arg(s: &str) -> (r: Option<Self>) {
        parse_unsigned(s, 18446744073709551615u64)
    }

    open spec fn type_label_spec() -> Seq<char> {
        "u64"@
    }

    fn type_label() -> (l: String) {
        String::from_str("u64")
    }
}

impl Argument for i8 {
    open spec fn arg_ok(s: Seq<char>) -> bool {
        valid_signed(s) && i8::MIN <= signed_val(s) <= i8::MAX
    }

    open spec fn arg_is(s: Seq<char>, v: &Self) -> bool {
        *v == signed_val(s)
    }

    fn parse_arg(s: &str) -> (r: Option<Self>) {
        match parse_signed(s, 128u64, 127u64) {
            Some(v) => Some(v as i8),
            None => None,
        }
    }

    open spec fn type_label_spec() -> Seq<char> {
        "i8"@
    }

    fn type_label() -> (l: String) {
        String::from_str("i8")
    }
}

impl Argument for i16 {
    open spec fn arg_ok(s: Seq<char>) -> bool {
        valid_signed(s) && i16::MIN <= signed_val(s) <= i16::MAX
    }

    open spec fn arg_is(s: Seq<char>, v: &Self) -> bool {
        *v == signed_val(s)
    }

    fn parse_arg(s: &str) -> (r: Option<Self>) {
        match parse_signed(s, 32768u64, 32767u64) {
            Some(v) => Some(v as i16),
            None => None,
        }
    }

    open spec fn type_label_spec() -> Seq<char> {
        "i16"@
    }

    fn type_label() -> (l: String) {
        String::from_str("i16")
    }
}

impl Argument for i32 {
    open spec fn arg_ok(s: Seq<char>) -> bool {
        valid_signed(s) && i32::MIN <= signed_val(s) <= i32::MAX
    }

    open spec fn arg_is(s: Seq<char>, v: &Self) -> bool {
        *v == signed_val(s)
    }

    fn parse_arg(s: &str) -> (r: Option<Self>) {
        match parse_signed(s, 2147483648u64, 2147483647u64) {
            Some(v) => Some(v as i32),
            None => None,
        }
    }

    open spec fn type_label_spec() -> Seq<char> {
        "i32"@
    }

    fn type_label() -> (l: String) {
        String::from_str("i32")
    }
}

impl Argument for i64 {
    open spec fn arg_ok(s: Seq<char>) -> bool {
        valid_signed(s) && i64::MIN <= signed_val(s) <= i64::MAX
    }

    open spec fn arg_is(s: Seq<char>, v: &Self) -> bool {
        *v == signed_val(s)
    }

    fn parse_arg(s: &str) -> (r: Option<Self>) {
        parse_signed(s, 9223372036854775808u64, 9223372036854775807u64)
    }

    open spec fn type_label_spec() -> Seq<char> {
        "i64"@
    }

    fn type_label() -> (l: String) {
        String::from_str("i64")
    }
}

} // verus!
