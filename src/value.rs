//! Typed settings values: the type tag of a name, reading a value from text
//! and writing it back.
use vstd::prelude::*;

use crate::text::{chars_of, push_char, push_text};

verus! {

/// A settings value. A float is held as its IEEE-754 single-precision bit
/// pattern; turning text into such a pattern and back is left to the caller.
#[derive(Clone, Copy, Debug)]
pub enum EGmstValue {
    Bool(bool),
    Float(u32),
    Int(i32),
    UInt(u32),
}

/// The variant that a name's first letter allows.
#[derive(Clone, Copy, Debug, PartialEq, Eq, Structural)]
pub enum ValueKind {
    Bool,
    Float,
    Int,
    UInt,
}

/// Why a value could not be read.
#[derive(Clone, Copy, Debug, PartialEq, Eq, Structural)]
pub enum ParseError {
    /// The name does not start with one of the letters `b`, `f`, `i`, `u`.
    UnknownType,
    /// The text is no literal of the variant that the name calls for.
    BadLiteral,
}

pub open spec fn kind_of_value(v: EGmstValue) -> ValueKind {
    match v {
        EGmstValue::Bool(_) => ValueKind::Bool,
        EGmstValue::Float(_) => ValueKind::Float,
        EGmstValue::Int(_) => ValueKind::Int,
        EGmstValue::UInt(_) => ValueKind::UInt,
    }
}

/// A float bit pattern that encodes NaN.
pub open spec fn is_nan_bits(b: u32) -> bool {
    b & 0x7f80_0000 == 0x7f80_0000 && b & 0x007f_ffff != 0
}

/// A float bit pattern that encodes zero of either sign.
pub open spec fn is_zero_bits(b: u32) -> bool {
    b & 0x7fff_ffff == 0
}

/// Float equality on bit patterns: NaN equals nothing, the two zeros are equal.
pub open spec fn float_bits_eq(a: u32, b: u32) -> bool {
    !is_nan_bits(a) && !is_nan_bits(b) && (a == b || (is_zero_bits(a) && is_zero_bits(b)))
}

/// Equality of values: same variant and equal payload; no coercion across variants.
pub open spec fn value_eq(a: EGmstValue, b: EGmstValue) -> bool {
    match (a, b) {
        (EGmstValue::Bool(x), EGmstValue::Bool(y)) => x == y,
        (EGmstValue::Float(x), EGmstValue::Float(y)) => float_bits_eq(x, y),
        (EGmstValue::Int(x), EGmstValue::Int(y)) => x == y,
        (EGmstValue::UInt(x), EGmstValue::UInt(y)) => x == y,
        _ => false,
    }
}

impl PartialEq for EGmstValue {
    fn eq(&self, other: &EGmstValue) -> (r: bool) {
        match (*self, *other) {
            (EGmstValue::Bool(x), EGmstValue::Bool(y)) => x == y,
            (EGmstValue::Float(x), EGmstValue::Float(y)) => {
                let nan_x = x & 0x7f80_0000 == 0x7f80_0000 && x & 0x007f_ffff != 0;
                let nan_y = y & 0x7f80_0000 == 0x7f80_0000 && y & 0x007f_ffff != 0;
                !nan_x && !nan_y && (x == y || (x & 0x7fff_ffff == 0 && y & 0x7fff_ffff == 0))
            },
            (EGmstValue::Int(x), EGmstValue::Int(y)) => x == y,
            (EGmstValue::UInt(x), EGmstValue::UInt(y)) => x == y,
            _ => false,
        }
    }
}

impl vstd::std_specs::cmp::PartialEqSpecImpl for EGmstValue {
    open spec fn obeys_eq_spec() -> bool {
        true
    }

    open spec fn eq_spec(&self, other: &EGmstValue) -> bool {
        value_eq(*self, *other)
    }
}

/// Whether a candidate value differs from the default one.
pub fn is_edited(default: &EGmstValue, candidate: &EGmstValue) -> (r: bool)
    ensures
        r == !value_eq(*default, *candidate),
{
    !(*default == *candidate)
}

/// ASCII letters folded to lower case, as code points.
pub open spec fn fold_case(c: char) -> u32 {
    if 'A' <= c && c <= 'Z' {
        (c as u32 + 32) as u32
    } else {
        c as u32
    }
}

/// `c` folded; see `fold_case`.
pub(crate) fn fold(c: char) -> (r: u32)
    ensures
        r == fold_case(c),
{
    if 'A' <= c && c <= 'Z' {
        c as u32 + 32
    } else {
        c as u32
    }
}

/// Equal but for the case of ASCII letters.
pub open spec fn same_ignoring_case(a: Seq<char>, b: Seq<char>) -> bool {
    a.len() == b.len() && forall|i: int| 0 <= i < a.len() ==> fold_case(a[i]) == fold_case(b[i])
}

/// Whether `a` spells `b` but for the case of ASCII letters.
fn equal_ignoring_case(a: &Vec<char>, b: &str) -> (r: bool)
    ensures
        r == same_ignoring_case(a@, b@),
{
    let y = chars_of(b);
    if a.len() != y.len() {
        return false;
    }
    let mut i: usize = 0;
    while i < a.len()
        invariant
            i <= a@.len() == y@.len(),
            y@ == b@,
            forall|j: int| 0 <= j < i ==> fold_case(a@[j]) == fold_case(y@[j]),
        decreases a@.len() - i,
    {
        if fold(a[i]) != fold(y[i]) {
            return false;
        }
        i = i + 1;
    }
    true
}

/// The variant that `name` calls for: its first letter, in either case.
pub open spec fn kind_of_name(name: Seq<char>) -> Option<ValueKind> {
    if name.len() == 0 {
        None
    } else {
        let c = fold_case(name[0]);
        if c == 'b' as u32 {
            Some(ValueKind::Bool)
        } else if c == 'f' as u32 {
            Some(ValueKind::Float)
        } else if c == 'i' as u32 {
            Some(ValueKind::Int)
        } else if c == 'u' as u32 {
            Some(ValueKind::UInt)
        } else {
            None
        }
    }
}

/// The variant that `name` calls for, if any.
pub fn value_kind(name: &str) -> (r: Option<ValueKind>)
    ensures
        r == kind_of_name(name@),
{
    let cs = chars_of(name);
    if cs.len() == 0 {
        return None;
    }
    let c = fold(cs[0]);
    if c == 'b' as u32 {
        Some(ValueKind::Bool)
    } else if c == 'f' as u32 {
        Some(ValueKind::Float)
    } else if c == 'i' as u32 {
        Some(ValueKind::Int)
    } else if c == 'u' as u32 {
        Some(ValueKind::UInt)
    } else {
        None
    }
}

/// The boolean that `text` spells, `true` or `false` in any case of letters.
pub open spec fn bool_literal(text: Seq<char>) -> Option<bool> {
    if same_ignoring_case(text, seq!['t', 'r', 'u', 'e']) {
        Some(true)
    } else if same_ignoring_case(text, seq!['f', 'a', 'l', 's', 'e']) {
        Some(false)
    } else {
        None
    }
}

pub open spec fn is_digit(c: char) -> bool {
    '0' <= c && c <= '9'
}

pub open spec fn all_digits(s: Seq<char>) -> bool {
    forall|i: int| 0 <= i < s.len() ==> is_digit(s[i])
}

pub open spec fn digit_value(c: char) -> nat {
    (c as u32 - '0' as u32) as nat
}

/// The number that a string of decimal digits spells.
pub open spec fn digits_value(s: Seq<char>) -> nat
    decreases s.len(),
{
    if s.len() == 0 {
        0
    } else {
        digits_value(s.drop_last()) * 10 + digit_value(s.last())
    }
}

/// A decimal integer: an optional sign (`-` only where `signed`) and at least
/// one digit, with nothing around them.
pub open spec fn int_literal(s: Seq<char>, signed: bool) -> Option<int> {
    if s.len() > 0 && (s[0] == '+' || (signed && s[0] == '-')) {
        let d = s.drop_first();
        if d.len() > 0 && all_digits(d) {
            if s[0] == '-' {
                Some(-digits_value(d))
            } else {
                Some(digits_value(d) as int)
            }
        } else {
            None
        }
    } else if s.len() > 0 && all_digits(s) {
        Some(digits_value(s) as int)
    } else {
        None
    }
}

pub open spec fn i32_literal(s: Seq<char>) -> Option<i32> {
    match int_literal(s, true) {
        Some(v) => if i32::MIN <= v <= i32::MAX {
            Some(v as i32)
        } else {
            None
        },
        None => None,
    }
}

pub open spec fn u32_literal(s: Seq<char>) -> Option<u32> {
    match int_literal(s, false) {
        Some(v) => if 0 <= v <= u32::MAX {
            Some(v as u32)
        } else {
            None
        },
        None => None,
    }
}

/// What reading `text` as the value of `name` gives. A float is taken from
/// `float_bits`, the bit pattern of `text` read as a single-precision float,
/// `None` where `text` is no float literal.
pub open spec fn parse_spec(name: Seq<char>, text: Seq<char>, float_bits: Option<u32>) -> Result<
    EGmstValue,
    ParseError,
> {
    match kind_of_name(name) {
        None => Err(ParseError::UnknownType),
        Some(ValueKind::Bool) => match bool_literal(text) {
            Some(b) => Ok(EGmstValue::Bool(b)),
            None => Err(ParseError::BadLiteral),
        },
        Some(ValueKind::Float) => match float_bits {
            Some(b) => Ok(EGmstValue::Float(b)),
            None => Err(ParseError::BadLiteral),
        },
        Some(ValueKind::Int) => match i32_literal(text) {
            Some(v) => Ok(EGmstValue::Int(v)),
            None => Err(ParseError::BadLiteral),
        },
        Some(ValueKind::UInt) => match u32_literal(text) {
            Some(v) => Ok(EGmstValue::UInt(v)),
            None => Err(ParseError::BadLiteral),
        },
    }
}

proof fn lemma_digits_monotone(s: Seq<char>, k: int)
    requires
        0 <= k <= s.len(),
    ensures
        digits_value(s.take(k)) <= digits_value(s),
    decreases s.len() - k,
{
    if k < s.len() {
        lemma_digits_monotone(s, k + 1);
        assert(s.take(k + 1).drop_last() =~= s.take(k));
    } else {
        assert(s.take(k) =~= s);
    }
}

/// The value of an unsigned decimal literal, if it is at most `limit`.
fn digits_up_to(cs: &Vec<char>, lo: usize, limit: u64) -> (r: Option<u64>)
    requires
        lo <= cs@.len(),
        limit <= u32::MAX + 1,
    ensures
        ({
            let d = cs@.skip(lo as int);
            r == if d.len() > 0 && all_digits(d) && digits_value(d) <= limit {
                Some(digits_value(d) as u64)
            } else {
                None
            }
        }),
{
    let ghost d = cs@.skip(lo as int);
    if lo == cs.len() {
        return None;
    }
    let mut acc: u64 = 0;
    let mut i = lo;
    while i < cs.len()
        invariant
            lo <= i <= cs@.len(),
            limit <= u32::MAX + 1,
            d == cs@.skip(lo as int),
            all_digits(d.take(i - lo)),
            acc == digits_value(d.take(i - lo)),
            acc <= limit,
        decreases cs@.len() - i,
    {
        let c = cs[i];
        if !('0' <= c && c <= '9') {
            assert(d[i - lo] == cs@[i as int]);
            return None;
        }
        assert(d.take(i + 1 - lo).drop_last() =~= d.take(i - lo));
        let next = acc * 10 + (c as u32 - '0' as u32) as u64;
        if next > limit {
            proof {
                lemma_digits_monotone(d, i + 1 - lo);
            }
            return None;
        }
        acc = next;
        i = i + 1;
    }
    assert(d.take(i - lo) =~= d);
    Some(acc)
}

/// Reads a 32-bit signed decimal, as `i32::from_str` does.
pub fn read_i32(text: &str) -> (r: Option<i32>)
    ensures
        r == i32_literal(text@),
{
    let cs = chars_of(text);
    if cs.len() == 0 {
        return None;
    }
    let negative = cs[0] == '-';
    let lo: usize = if cs[0] == '+' || negative { 1 } else { 0 };
    assert(cs@.skip(0) =~= cs@);
    assert(cs@.skip(1) =~= cs@.drop_first());
    if lo == 1 && cs.len() == 1 {
        return None;
    }
    let limit: u64 = if negative { 0x8000_0000 } else { 0x7fff_ffff };
    match digits_up_to(&cs, lo, limit) {
        Some(v) => {
            if negative {
                Some((0 - (v as i64)) as i32)
            } else {
                Some(v as i32)
            }
        },
        None => None,
    }
}

/// Reads a 32-bit unsigned decimal, as `u32::from_str` does.
pub fn read_u32(text: &str) -> (r: Option<u32>)
    ensures
        r == u32_literal(text@),
{
    let cs = chars_of(text);
    if cs.len() == 0 {
        return None;
    }
    let lo: usize = if cs[0] == '+' { 1 } else { 0 };
    assert(cs@.skip(0) =~= cs@);
    assert(cs@.skip(1) =~= cs@.drop_first());
    if lo == 1 && cs.len() == 1 {
        return None;
    }
    match digits_up_to(&cs, lo, 0xffff_ffff) {
        Some(v) => Some(v as u32),
        None => None,
    }
}

/// Reads `text` as the value of the setting `name`; see `parse_spec`.
pub fn parse_gmst(name: &str, text: &str, float_bits: Option<u32>) -> (r: Result<
    EGmstValue,
    ParseError,
>)
    ensures
        r == parse_spec(name@, text@, float_bits),
{
    match value_kind(name) {
        None => Err(ParseError::UnknownType),
        Some(ValueKind::Bool) => {
            let cs = chars_of(text);
            proof {
                reveal_strlit("true");
                reveal_strlit("false");
            }
            assert("true"@ =~= seq!['t', 'r', 'u', 'e']);
            assert("false"@ =~= seq!['f', 'a', 'l', 's', 'e']);
            if equal_ignoring_case(&cs, "true") {
                Ok(EGmstValue::Bool(true))
            } else if equal_ignoring_case(&cs, "false") {
                Ok(EGmstValue::Bool(false))
            } else {
                Err(ParseError::BadLiteral)
            }
        },
        Some(ValueKind::Float) => match float_bits {
            Some(b) => Ok(EGmstValue::Float(b)),
            None => Err(ParseError::BadLiteral),
        },
        Some(ValueKind::Int) => match read_i32(text) {
            Some(v) => Ok(EGmstValue::Int(v)),
            None => Err(ParseError::BadLiteral),
        },
        Some(ValueKind::UInt) => match read_u32(text) {
            Some(v) => Ok(EGmstValue::UInt(v)),
            None => Err(ParseError::BadLiteral),
        },
    }
}

pub open spec fn digit_char(d: nat) -> char {
    (d + '0' as u32) as char
}

/// The decimal digits of `n`, without leading zeros.
pub open spec fn decimal(n: nat) -> Seq<char>
    decreases n,
{
    if n < 10 {
        seq![digit_char(n)]
    } else {
        decimal(n / 10).push(digit_char(n % 10))
    }
}

/// The text that a value is written as: `True` or `False` for a boolean, the
/// decimal digits of an integer with a `-` before a negative one, and for a
/// float `float_text`, the caller's rendering of its bit pattern.
pub open spec fn value_text_spec(v: EGmstValue, float_text: Seq<char>) -> Seq<char> {
    match v {
        EGmstValue::Bool(true) => seq!['T', 'r', 'u', 'e'],
        EGmstValue::Bool(false) => seq!['F', 'a', 'l', 's', 'e'],
        EGmstValue::Float(_) => float_text,
        EGmstValue::Int(i) => if i < 0 {
            seq!['-'] + decimal((-i) as nat)
        } else {
            decimal(i as nat)
        },
        EGmstValue::UInt(u) => decimal(u as nat),
    }
}

/// Appends the decimal digits of `n`.
fn push_decimal(s: &mut String, n: u32)
    ensures
        final(s)@ == old(s)@ + decimal(n as nat),
    decreases n,
{
    let c = ((n % 10) as u8 + 48u8) as char;
    assert(c == digit_char((n % 10) as nat));
    if n >= 10 {
        push_decimal(s, n / 10);
        push_char(s, c);
        assert(old(s)@ + decimal(n as nat) =~= (old(s)@ + decimal((n / 10) as nat)).push(c));
    } else {
        push_char(s, c);
        assert(old(s)@ + decimal(n as nat) =~= old(s)@.push(c));
    }
}

/// Writes a value as text; see `value_text_spec`.
pub fn value_text(v: &EGmstValue, float_text: &str) -> (r: String)
    ensures
        r@ == value_text_spec(*v, float_text@),
{
    let mut r = String::new();
    match *v {
        EGmstValue::Bool(b) => {
            proof {
                reveal_strlit("True");
                reveal_strlit("False");
            }
            if b {
                push_text(&mut r, "True");
                assert(r@ =~= seq!['T', 'r', 'u', 'e']);
            } else {
                push_text(&mut r, "False");
                assert(r@ =~= seq!['F', 'a', 'l', 's', 'e']);
            }
        },
        EGmstValue::Float(_) => {
            push_text(&mut r, float_text);
            assert(r@ =~= float_text@);
        },
        EGmstValue::Int(i) => {
            if i < 0 {
                push_char(&mut r, '-');
                let m = (0 - (i as i64)) as u32;
                push_decimal(&mut r, m);
                assert(r@ =~= seq!['-'] + decimal((-i) as nat));
            } else {
                push_decimal(&mut r, i as u32);
                assert(r@ =~= decimal(i as nat));
            }
        },
        EGmstValue::UInt(u) => {
            push_decimal(&mut r, u);
            assert(r@ =~= decimal(u as nat));
        },
    }
    r
}

proof fn lemma_decimal(n: nat)
    ensures
        decimal(n).len() > 0,
        all_digits(decimal(n)),
        digits_value(decimal(n)) == n,
    decreases n,
{
    let d = (n % 10) as nat;
    assert(digit_char(d) as u32 == d + '0' as u32);
    assert(digit_value(digit_char(d)) == d);
    if n >= 10 {
        lemma_decimal(n / 10);
        assert(decimal(n).drop_last() =~= decimal(n / 10));
        assert(n == (n / 10) * 10 + d);
        assert(decimal(n).last() == digit_char(d));
        assert(digits_value(decimal(n)) == digits_value(decimal(n / 10)) * 10 + d);
    } else {
        assert(decimal(n).drop_last() =~= Seq::<char>::empty());
        assert(decimal(n).last() == digit_char(d));
        assert(n == d);
        assert(digits_value(decimal(n)) == digits_value(Seq::<char>::empty()) * 10 + d);
    }
}

/// The float bit pattern that a value carries, if it is a float.
pub open spec fn float_bits_of(v: EGmstValue) -> Option<u32> {
    match v {
        EGmstValue::Float(b) => Some(b),
        _ => None,
    }
}

/// Writing a value and reading the text back, under a name whose first
/// letter calls for the value's variant, gives the value again. A float comes
/// back where its rendering reads back as the same bit pattern.
pub proof fn lemma_value_round_trip(name: Seq<char>, v: EGmstValue, float_text: Seq<char>)
    requires
        kind_of_name(name) == Some(kind_of_value(v)),
    ensures
        parse_spec(name, value_text_spec(v, float_text), float_bits_of(v)) == Ok::<EGmstValue, ParseError>(v),
{
    match v {
        EGmstValue::Bool(b) => {
            let t = value_text_spec(v, float_text);
            if b {
                assert(same_ignoring_case(t, seq!['t', 'r', 'u', 'e']));
            } else {
                assert(same_ignoring_case(t, seq!['f', 'a', 'l', 's', 'e']));
                assert(!same_ignoring_case(t, seq!['t', 'r', 'u', 'e']));
            }
        },
        EGmstValue::Float(_) => {},
        EGmstValue::Int(i) => {
            let t = value_text_spec(v, float_text);
            if i < 0 {
                lemma_decimal((-i) as nat);
                assert(t.drop_first() =~= decimal((-i) as nat));
            } else {
                lemma_decimal(i as nat);
                assert(is_digit(t[0]));
            }
        },
        EGmstValue::UInt(u) => {
            lemma_decimal(u as nat);
            assert(is_digit(decimal(u as nat)[0]));
        },
    }
}

/// Booleans are read whatever the case of their letters.
pub proof fn lemma_bool_any_case(name: Seq<char>, text: Seq<char>)
    requires
        kind_of_name(name) == Some(ValueKind::Bool),
        same_ignoring_case(text, seq!['t', 'r', 'u', 'e']),
    ensures
        parse_spec(name, text, None) == Ok::<EGmstValue, ParseError>(EGmstValue::Bool(true)),
{
}

/// A value differs from every value of another variant, whatever the numbers.
pub proof fn lemma_variant_mismatch_is_edited(default: EGmstValue, candidate: EGmstValue)
    requires
        kind_of_value(default) != kind_of_value(candidate),
    ensures
        !value_eq(default, candidate),
{
}

} // verus!
