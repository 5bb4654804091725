//! Fallible conversions from values into native types.
//!
//! `YamlValue::parse::<T>()` tries to produce a `T`. A shape mismatch — the
//! target type cannot come from this variant at all — is a `ShapeMismatch`;
//! content that is of a suitable variant but cannot be read as the target
//! (say, the string "abc" as an integer) is a `MalformedScalar` carrying the
//! offending text; a tuple read from a sequence with too few elements is a
//! `MissingElement`. Converting a mapping to a string renders it as YAML text
//! through the document serializer; should the serializer fail, that is a
//! `RenderFailed` error.

use vstd::prelude::*;
use crate::model::Val;
use crate::order::{wf_val, items_wf, cmp_chars};
use crate::value::{YamlValue, val_view, items_view_at};
use crate::hashing::{word_of_i64, lemma_chars_equal};
use crate::laws::lemma_cmp_refl;
use crate::compare::cmp_str;
use crate::doc::doc_of_val;
use crate::render::{render_ok, rendered};
use vstd::string::{StrSliceExecFns, StringExecFns};
use core::cmp::Ordering;

verus! {

broadcast use vstd::std_specs::vec::group_vec_axioms;

/// The error of a failed conversion.
#[derive(Debug)]
pub enum ConvError {
    /// The target type cannot be read from this variant of value.
    ShapeMismatch,
    /// The variant is suitable but its content cannot be read as the target
    /// type; carries the offending text.
    MalformedScalar(String),
    /// A tuple conversion found fewer elements than the tuple's arity.
    MissingElement,
    /// The document serializer could not render the value as text.
    RenderFailed,
}

/// The ghost view of a conversion error.
pub enum ConvErrorView {
    Shape,
    Malformed(Seq<char>),
    Missing,
    Render,
}

impl View for ConvError {
    type V = ConvErrorView;

    open spec fn view(&self) -> ConvErrorView {
        match self {
            ConvError::ShapeMismatch => ConvErrorView::Shape,
            ConvError::MalformedScalar(t) => ConvErrorView::Malformed(t@),
            ConvError::MissingElement => ConvErrorView::Missing,
            ConvError::RenderFailed => ConvErrorView::Render,
        }
    }
}

/// The digit value of a character, if it is a decimal digit.
pub open spec fn digit(c: char) -> Option<int> {
    if 48 <= c as int <= 57 {
        Some(c as int - 48)
    } else {
        None
    }
}

/// The value of a non-empty, all-digit character sequence.
pub open spec fn digits_val(s: Seq<char>) -> Option<int>
    decreases s.len(),
{
    if s.len() == 0 {
        None
    } else if s.len() == 1 {
        digit(s[0])
    } else {
        match (digits_val(s.drop_last()), digit(s.last())) {
            (Some(h), Some(d)) => Some(h * 10 + d),
            _ => None,
        }
    }
}

/// The integer denoted by a character sequence: an optional sign followed by
/// one or more decimal digits.
pub open spec fn str_int(s: Seq<char>) -> Option<int> {
    if s.len() >= 1 && s[0] == '-' {
        match digits_val(s.drop_first()) {
            Some(n) => Some(-n),
            None => None,
        }
    } else if s.len() >= 1 && s[0] == '+' {
        digits_val(s.drop_first())
    } else {
        digits_val(s)
    }
}

/// A digit string denotes a non-negative value.
proof fn lemma_digits_nonneg(s: Seq<char>)
    ensures
        digits_val(s) matches Some(n) ==> n >= 0,
    decreases s.len(),
{
    if s.len() > 1 {
        lemma_digits_nonneg(s.drop_last());
    }
}

/// A digit string is worth at least as much as any of its prefixes.
proof fn lemma_digits_prefix(s: Seq<char>, i: int)
    requires
        0 <= i <= s.len(),
    ensures
        digits_val(s) matches Some(n) ==> (digits_val(s.take(i)) matches Some(m) ==> n
            >= m),
    decreases s.len(),
{
    lemma_digits_nonneg(s);
    if i == s.len() {
        assert(s.take(i) =~= s);
    } else if s.len() > 1 {
        assert(s.take(i) =~= s.drop_last().take(i));
        lemma_digits_prefix(s.drop_last(), i);
        lemma_digits_nonneg(s.drop_last());
    }
}

/// Reads the digits of `s` from position `from` on as an unsigned value;
/// `None` when there are none, when a non-digit appears, or when the value
/// exceeds the 64-bit range.
fn parse_digits(s: &str, from: usize) -> (r: Option<u64>)
    requires
        from <= s@.len(),
    ensures
        match digits_val(s@.skip(from as int)) {
            Some(n) => if n <= u64::MAX {
                r == Some(n as u64)
            } else {
                r is None
            },
            None => r is None,
        },
{
    let len = s.unicode_len();
    let ghost d = s@.skip(from as int);
    if from == len {
        return None;
    }
    let mut acc: u64 = 0;
    let mut i: usize = from;
    while i < len
        invariant
            from < i ==> digits_val(d.take(i - from)) == Some(acc as int),
            i == from ==> acc == 0,
            from <= i <= len,
            len == s@.len(),
            d == s@.skip(from as int),
            d.len() == len - from,
        decreases len - i,
    {
        let c = s.get_char(i);
        let cv = c as u32;
        proof {
            assert(d[i - from] == s@[i as int]);
            assert(c as int == cv as int);
        }
        if cv < 48 || cv > 57 {
            proof {
                assert(digit(d[i - from]) is None);
                lemma_digits_not_all(d, i - from);
            }
            return None;
        }
        let dv = (cv - 48) as u64;
        proof {
            assert(digit(d[i - from]) == Some((cv - 48) as int));
            assert(d.take(i + 1 - from).drop_last() =~= d.take(i - from));
            assert(d.take(i + 1 - from).last() == d[i - from]);
            if i == from {
                assert(d.take(1).len() == 1);
                assert(d.take(1)[0] == d[0]);
            }
            assert(digits_val(d.take(i + 1 - from)) == Some(acc * 10 + (cv - 48)));
        }
        if acc > (u64::MAX - dv) / 10 {
            proof {
                assert(acc * 10 + (cv - 48) > u64::MAX);
                lemma_digits_prefix(d, i + 1 - from);
                lemma_digits_nonneg(d);
            }
            return None;
        }
        acc = acc * 10 + dv;
        i = i + 1;
    }
    proof {
        assert(d.take(i - from) =~= d);
    }
    Some(acc)
}

/// A non-digit at position `i` spoils the whole digit string.
proof fn lemma_digits_not_all(s: Seq<char>, i: int)
    requires
        0 <= i < s.len(),
        digit(s[i]) is None,
    ensures
        digits_val(s) is None,
    decreases s.len(),
{
    if s.len() > 1 && i < s.len() - 1 {
        lemma_digits_not_all(s.drop_last(), i);
    }
}

/// Reads a string as a signed integer — an optional sign, then digits — as a
/// sign-and-magnitude pair, when the magnitude fits in 64 bits.
fn parse_int_str(s: &str) -> (r: Option<(bool, u64)>)
    ensures
        match str_int(s@) {
            Some(n) => {
                if n >= 0 && n <= u64::MAX {
                    r matches Some(p) && !p.0 && p.1 == n
                } else if n < 0 && -n <= u64::MAX {
                    r matches Some(p) && p.0 && p.1 == -n
                } else {
                    r is None
                }
            },
            None => r is None,
        },
{
    let len = s.unicode_len();
    if len == 0 {
        return None;
    }
    let c0 = s.get_char(0);
    if c0 == '-' {
        match parse_digits(s, 1) {
            Some(m) => {
                proof {
                    lemma_digits_nonneg(s@.skip(1));
                    if m == 0 {
                        assert(str_int(s@) == Some(0int));
                    }
                }
                Some((m > 0, m))
            },
            None => None,
        }
    } else if c0 == '+' {
        match parse_digits(s, 1) {
            Some(m) => {
                proof {
                    lemma_digits_nonneg(s@.skip(1));
                }
                Some((false, m))
            },
            None => None,
        }
    } else {
        proof {
            assert(s@.skip(0) =~= s@);
        }
        match parse_digits(s, 0) {
            Some(m) => {
                proof {
                    lemma_digits_nonneg(s@);
                }
                Some((false, m))
            },
            None => None,
        }
    }
}

/// Whether two strings hold the same characters.
fn str_eq(s: &str, t: &str) -> (r: bool)
    ensures
        r == (s@ == t@),
{
    let c = cmp_str(s, t);
    proof {
        if cmp_chars(s@, t@) == Ordering::Equal {
            lemma_chars_equal(s@, t@);
        }
        if s@ == t@ {
            lemma_cmp_refl(Val::Str(s@));
        }
    }
    match c {
        Ordering::Equal => true,
        _ => false,
    }
}

/// The low 64-bit word of an integer (two's-complement).
fn word_of_i64_exec(n: i64) -> (r: u64)
    ensures
        r == word_of_i64(n),
{
    if n >= 0 {
        n as u64
    } else {
        0xffffffffffffffffu64 - ((-(n + 1)) as u64)
    }
}

/// The low 32-bit word of a 64-bit integer.
pub open spec fn wrap_u32(n: i64) -> u32 {
    (word_of_i64(n) % 0x100000000) as u32
}

/// A 64-bit integer truncated to 32 bits (two's-complement).
pub open spec fn wrap_i32(n: i64) -> i32 {
    let w = word_of_i64(n) % 0x100000000;
    if w < 0x80000000 {
        w as i32
    } else {
        (w - 0x100000000) as i32
    }
}

fn wrap_u32_exec(n: i64) -> (r: u32)
    ensures
        r == wrap_u32(n),
{
    (word_of_i64_exec(n) % 0x100000000) as u32
}

fn wrap_i32_exec(n: i64) -> (r: i32)
    ensures
        r == wrap_i32(n),
{
    let w = word_of_i64_exec(n) % 0x100000000;
    if w < 0x80000000 {
        w as i32
    } else {
        ((w as i64) - 0x100000000) as i32
    }
}

/// The decimal digit character of a digit value.
pub open spec fn dec_digit(d: int) -> char {
    if d == 0 {
        '0'
    } else if d == 1 {
        '1'
    } else if d == 2 {
        '2'
    } else if d == 3 {
        '3'
    } else if d == 4 {
        '4'
    } else if d == 5 {
        '5'
    } else if d == 6 {
        '6'
    } else if d == 7 {
        '7'
    } else if d == 8 {
        '8'
    } else {
        '9'
    }
}

/// The decimal text of a non-negative integer, without sign or padding.
pub open spec fn dec_chars(n: nat) -> Seq<char>
    decreases n,
{
    if n < 10 {
        seq![dec_digit(n as int)]
    } else {
        dec_chars(n / 10).push(dec_digit((n % 10) as int))
    }
}

/// The decimal text of a 64-bit integer, `-` first when negative.
pub open spec fn dec_i64(n: i64) -> Seq<char> {
    if n >= 0 {
        dec_chars(n as nat)
    } else {
        seq!['-'] + dec_chars((-(n as int)) as nat)
    }
}

/// The one-character string of a digit value.
fn digit_str(d: u64) -> (r: &'static str)
    requires
        d < 10,
    ensures
        r@ == seq![dec_digit(d as int)],
{
    proof {
        reveal_strlit("0");
        reveal_strlit("1");
        reveal_strlit("2");
        reveal_strlit("3");
        reveal_strlit("4");
        reveal_strlit("5");
        reveal_strlit("6");
        reveal_strlit("7");
        reveal_strlit("8");
        reveal_strlit("9");
        assert(("0")@ =~= seq!['0']);
        assert(("1")@ =~= seq!['1']);
        assert(("2")@ =~= seq!['2']);
        assert(("3")@ =~= seq!['3']);
        assert(("4")@ =~= seq!['4']);
        assert(("5")@ =~= seq!['5']);
        assert(("6")@ =~= seq!['6']);
        assert(("7")@ =~= seq!['7']);
        assert(("8")@ =~= seq!['8']);
        assert(("9")@ =~= seq!['9']);
    }
    match d {
        0 => "0",
        1 => "1",
        2 => "2",
        3 => "3",
        4 => "4",
        5 => "5",
        6 => "6",
        7 => "7",
        8 => "8",
        _ => "9",
    }
}

/// The decimal text of an unsigned 64-bit value.
fn dec_u64(n: u64) -> (r: String)
    ensures
        r@ == dec_chars(n as nat),
    decreases n,
{
    if n < 10 {
        let mut s = String::new();
        s.append(digit_str(n));
        proof {
            assert(s@ =~= dec_chars(n as nat));
        }
        s
    } else {
        let mut s = dec_u64(n / 10);
        s.append(digit_str(n % 10));
        proof {
            assert(s@ =~= dec_chars(n as nat));
        }
        s
    }
}

/// The decimal text of a 64-bit integer.
fn dec_i64_exec(n: i64) -> (r: String)
    ensures
        r@ == dec_i64(n),
{
    if n >= 0 {
        dec_u64(n as u64)
    } else {
        let mag: u64 = ((-(n + 1)) as u64) + 1;
        proof {
            assert(mag == -(n as int));
        }
        let mut s = String::new();
        s.append("-");
        let d = dec_u64(mag);
        s.append(d.as_str());
        proof {
            reveal_strlit("-");
            assert(("-")@ =~= seq!['-']);
            assert(s@ =~= dec_i64(n));
        }
        s
    }
}

/// A native type that a value converts into.
pub trait FromYaml: Sized {
    /// The ghost representation of a converted result.
    type Repr;

    /// The ghost representation of one value of this type.
    spec fn repr(x: Self) -> Self::Repr;

    /// What converting a value into this type must yield.
    spec fn spec_from(v: Val) -> Result<Self::Repr, ConvErrorView>;

    /// Converts a well-formed value into this type, exactly as `spec_from`
    /// prescribes, with the error it prescribes.
    fn from_yaml(v: &YamlValue) -> (r: Result<Self, ConvError>)
        requires
            v.wf(),
        ensures
            r matches Ok(x) ==> Self::spec_from(v@) == Ok::<Self::Repr, ConvErrorView>(
                Self::repr(x),
            ),
            r matches Err(e) ==> Self::spec_from(v@) == Err::<
                Self::Repr,
                ConvErrorView,
            >(e@),
    ;
}

impl FromYaml for i64 {
    type Repr = i64;

    open spec fn repr(x: i64) -> i64 {
        x
    }

    /// Numbers carry over; booleans become 1 or 0; a string must denote an
    /// integer in the 64-bit signed range; everything else is a shape
    /// mismatch.
    open spec fn spec_from(v: Val) -> Result<i64, ConvErrorView> {
        match v {
            Val::Num(n) => Ok(n),
            Val::Bool(b) => Ok(
                if b {
                    1
                } else {
                    0
                },
            ),
            Val::Str(s) => match str_int(s) {
                Some(n) => if i64::MIN <= n <= i64::MAX {
                    Ok(n as i64)
                } else {
                    Err(ConvErrorView::Malformed(s))
                },
                None => Err(ConvErrorView::Malformed(s)),
            },
            _ => Err(ConvErrorView::Shape),
        }
    }

    fn from_yaml(v: &YamlValue) -> (r: Result<i64, ConvError>) {
        match v {
            YamlValue::Number(n) => Ok(*n),
            YamlValue::Bool(b) => Ok(
                if *b {
                    1
                } else {
                    0
                },
            ),
            YamlValue::String(s) => {
                match parse_int_str(s.as_str()) {
                    Some((neg, mag)) => {
                        if !neg && mag <= i64::MAX as u64 {
                            Ok(mag as i64)
                        } else if neg && mag <= 0x8000000000000000u64 {
                            if mag == 0x8000000000000000u64 {
                                Ok(i64::MIN)
                            } else {
                                Ok(-(mag as i64))
                            }
                        } else {
                            Err(ConvError::MalformedScalar(s.clone()))
                        }
                    },
                    None => Err(ConvError::MalformedScalar(s.clone())),
                }
            },
            _ => Err(ConvError::ShapeMismatch),
        }
    }
}

impl FromYaml for u64 {
    type Repr = u64;

    open spec fn repr(x: u64) -> u64 {
        x
    }

    /// A number is reinterpreted as its unsigned 64-bit word; a boolean
    /// becomes 1 or 0; a string must denote an integer in the unsigned
    /// 64-bit range, with no minus sign at all (so "-0" is malformed, as an
    /// unsigned parser has it).
    open spec fn spec_from(v: Val) -> Result<u64, ConvErrorView> {
        match v {
            Val::Num(n) => Ok(word_of_i64(n)),
            Val::Bool(b) => Ok(
                if b {
                    1
                } else {
                    0
                },
            ),
            Val::Str(s) => if s.len() >= 1 && s[0] == '-' {
                Err(ConvErrorView::Malformed(s))
            } else {
                match str_int(s) {
                    Some(n) => if 0 <= n <= u64::MAX {
                        Ok(n as u64)
                    } else {
                        Err(ConvErrorView::Malformed(s))
                    },
                    None => Err(ConvErrorView::Malformed(s)),
                }
            },
            _ => Err(ConvErrorView::Shape),
        }
    }

    fn from_yaml(v: &YamlValue) -> (r: Result<u64, ConvError>) {
        match v {
            YamlValue::Number(n) => Ok(word_of_i64_exec(*n)),
            YamlValue::Bool(b) => Ok(
                if *b {
                    1
                } else {
                    0
                },
            ),
            YamlValue::String(s) => {
                if s.unicode_len() > 0 && s.as_str().get_char(0) == '-' {
                    return Err(ConvError::MalformedScalar(s.clone()));
                }
                match parse_int_str(s.as_str()) {
                    Some((neg, mag)) => {
                        if !neg {
                            Ok(mag)
                        } else {
                            Err(ConvError::MalformedScalar(s.clone()))
                        }
                    },
                    None => Err(ConvError::MalformedScalar(s.clone())),
                }
            },
            _ => Err(ConvError::ShapeMismatch),
        }
    }
}

impl FromYaml for u32 {
    type Repr = u32;

    open spec fn repr(x: u32) -> u32 {
        x
    }

    /// A number is truncated to its low 32 bits; a boolean becomes 1 or 0; a
    /// string must denote an integer in the unsigned 32-bit range, with no
    /// minus sign at all (so "-0" is malformed, as an unsigned parser has
    /// it).
    open spec fn spec_from(v: Val) -> Result<u32, ConvErrorView> {
        match v {
            Val::Num(n) => Ok(wrap_u32(n)),
            Val::Bool(b) => Ok(
                if b {
                    1
                } else {
                    0
                },
            ),
            Val::Str(s) => if s.len() >= 1 && s[0] == '-' {
                Err(ConvErrorView::Malformed(s))
            } else {
                match str_int(s) {
                    Some(n) => if 0 <= n <= u32::MAX {
                        Ok(n as u32)
                    } else {
                        Err(ConvErrorView::Malformed(s))
                    },
                    None => Err(ConvErrorView::Malformed(s)),
                }
            },
            _ => Err(ConvErrorView::Shape),
        }
    }

    fn from_yaml(v: &YamlValue) -> (r: Result<u32, ConvError>) {
        match v {
            YamlValue::Number(n) => Ok(wrap_u32_exec(*n)),
            YamlValue::Bool(b) => Ok(
                if *b {
                    1
                } else {
                    0
                },
            ),
            YamlValue::String(s) => {
                if s.unicode_len() > 0 && s.as_str().get_char(0) == '-' {
                    return Err(ConvError::MalformedScalar(s.clone()));
                }
                match parse_int_str(s.as_str()) {
                    Some((neg, mag)) => {
                        if !neg && mag <= u32::MAX as u64 {
                            Ok(mag as u32)
                        } else {
                            Err(ConvError::MalformedScalar(s.clone()))
                        }
                    },
                    None => Err(ConvError::MalformedScalar(s.clone())),
                }
            },
            _ => Err(ConvError::ShapeMismatch),
        }
    }
}

impl FromYaml for i32 {
    type Repr = i32;

    open spec fn repr(x: i32) -> i32 {
        x
    }

    /// A number is truncated to its low 32 bits (two's-complement); a boolean
    /// becomes 1 or 0; a string must denote an integer in the signed 32-bit
    /// range.
    open spec fn spec_from(v: Val) -> Result<i32, ConvErrorView> {
        match v {
            Val::Num(n) => Ok(wrap_i32(n)),
            Val::Bool(b) => Ok(
                if b {
                    1
                } else {
                    0
                },
            ),
            Val::Str(s) => match str_int(s) {
                Some(n) => if i32::MIN <= n <= i32::MAX {
                    Ok(n as i32)
                } else {
                    Err(ConvErrorView::Malformed(s))
                },
                None => Err(ConvErrorView::Malformed(s)),
            },
            _ => Err(ConvErrorView::Shape),
        }
    }

    fn from_yaml(v: &YamlValue) -> (r: Result<i32, ConvError>) {
        match v {
            YamlValue::Number(n) => Ok(wrap_i32_exec(*n)),
            YamlValue::Bool(b) => Ok(
                if *b {
                    1
                } else {
                    0
                },
            ),
            YamlValue::String(s) => {
                match parse_int_str(s.as_str()) {
                    Some((neg, mag)) => {
                        if !neg && mag <= i32::MAX as u64 {
                            Ok(mag as i32)
                        } else if neg && mag <= 0x80000000u64 {
                            Ok((-(mag as i64)) as i32)
                        } else {
                            Err(ConvError::MalformedScalar(s.clone()))
                        }
                    },
                    None => Err(ConvError::MalformedScalar(s.clone())),
                }
            },
            _ => Err(ConvError::ShapeMismatch),
        }
    }
}

impl FromYaml for bool {
    type Repr = bool;

    open spec fn repr(x: bool) -> bool {
        x
    }

    /// A number is true when nonzero; a string must read exactly "true" or
    /// "false"; a boolean carries over.
    open spec fn spec_from(v: Val) -> Result<bool, ConvErrorView> {
        match v {
            Val::Num(n) => Ok(n != 0),
            Val::Bool(b) => Ok(b),
            Val::Str(s) => if s == "true"@ {
                Ok(true)
            } else if s == "false"@ {
                Ok(false)
            } else {
                Err(ConvErrorView::Malformed(s))
            },
            _ => Err(ConvErrorView::Shape),
        }
    }

    fn from_yaml(v: &YamlValue) -> (r: Result<bool, ConvError>) {
        match v {
            YamlValue::Number(n) => Ok(*n != 0),
            YamlValue::Bool(b) => Ok(*b),
            YamlValue::String(s) => {
                if str_eq(s.as_str(), "true") {
                    Ok(true)
                } else if str_eq(s.as_str(), "false") {
                    Ok(false)
                } else {
                    Err(ConvError::MalformedScalar(s.clone()))
                }
            },
            _ => Err(ConvError::ShapeMismatch),
        }
    }
}

impl FromYaml for String {
    type Repr = Seq<char>;

    open spec fn repr(x: String) -> Seq<char> {
        x@
    }

    /// A number renders as its decimal text, a boolean as "true" or "false",
    /// a string carries over, and a mapping renders as its YAML text through
    /// the document serializer (failing only where the serializer does);
    /// null and sequences are shape mismatches.
    open spec fn spec_from(v: Val) -> Result<Seq<char>, ConvErrorView> {
        match v {
            Val::Num(n) => Ok(dec_i64(n)),
            Val::Bool(b) => Ok(
                if b {
                    "true"@
                } else {
                    "false"@
                },
            ),
            Val::Str(s) => Ok(s),
            Val::Pairs(_) => if render_ok(doc_of_val(v)) {
                Ok(rendered(doc_of_val(v)))
            } else {
                Err(ConvErrorView::Render)
            },
            _ => Err(ConvErrorView::Shape),
        }
    }

    fn from_yaml(v: &YamlValue) -> (r: Result<String, ConvError>) {
        match v {
            YamlValue::Number(n) => Ok(dec_i64_exec(*n)),
            YamlValue::Bool(b) => {
                if *b {
                    Ok(String::from_str("true"))
                } else {
                    Ok(String::from_str("false"))
                }
            },
            YamlValue::String(s) => Ok(s.clone()),
            YamlValue::Mapping(_) => match v.to_string() {
                Ok(s) => Ok(s),
                Err(_) => Err(ConvError::RenderFailed),
            },
            _ => Err(ConvError::ShapeMismatch),
        }
    }
}

/// The representations of a sequence of values converted element-wise, or the
/// first failure.
pub open spec fn elems_from<T: FromYaml>(s: Seq<Val>) -> Result<Seq<T::Repr>, ConvErrorView>
    decreases s.len(),
{
    if s.len() == 0 {
        Ok(Seq::empty())
    } else {
        match T::spec_from(s[0]) {
            Err(e) => Err(e),
            Ok(x) => match elems_from::<T>(s.drop_first()) {
                Err(e) => Err(e),
                Ok(xs) => Ok(seq![x] + xs),
            },
        }
    }
}

impl<T: FromYaml> FromYaml for Vec<T> {
    type Repr = Seq<T::Repr>;

    open spec fn repr(x: Vec<T>) -> Seq<T::Repr> {
        Seq::new(x@.len(), |i: int| T::repr(x@[i]))
    }

    /// A sequence converts element-wise; any failing element fails the whole
    /// conversion with that element's error; everything else is a shape
    /// mismatch.
    open spec fn spec_from(v: Val) -> Result<Seq<T::Repr>, ConvErrorView> {
        match v {
            Val::Items(s) => elems_from::<T>(s),
            _ => Err(ConvErrorView::Shape),
        }
    }

    fn from_yaml(v: &YamlValue) -> (r: Result<Vec<T>, ConvError>) {
        match v {
            YamlValue::Sequence(xs) => {
                let ghost vv = val_view(*v)->Items_0;
                let mut out: Vec<T> = Vec::new();
                let mut i: usize = 0;
                proof {
                    assert(vv.skip(0) =~= vv);
                    assert(Seq::new(out@.len(), |j: int| T::repr(out@[j])) =~= Seq::<
                        T::Repr,
                    >::empty());
                }
                while i < xs.len()
                    invariant
                        i <= xs@.len(),
                        *v == YamlValue::Sequence(*xs),
                        v.wf(),
                        vv == val_view(*v)->Items_0,
                        vv.len() == xs@.len(),
                        forall|j: int| 0 <= j < vv.len() ==> vv[j] == val_view(xs@[j]),
                        out@.len() == i,
                        elems_from::<T>(vv) == (match elems_from::<T>(
                            vv.skip(i as int),
                        ) {
                            Ok(xs2) => Ok::<Seq<T::Repr>, ConvErrorView>(
                                Seq::new(out@.len(), |j: int| T::repr(out@[j])) + xs2,
                            ),
                            Err(e) => Err::<Seq<T::Repr>, ConvErrorView>(e),
                        }),
                    decreases xs@.len() - i,
                {
                    proof {
                        assert(items_wf(vv));
                        assert(wf_val(vv[i as int]));
                        assert(vv.skip(i as int)[0] == vv[i as int]);
                        assert(vv.skip(i as int).drop_first() =~= vv.skip(i as int + 1));
                    }
                    match T::from_yaml(&xs[i]) {
                        Ok(x) => {
                            let ghost prev = out@;
                            out.push(x);
                            i = i + 1;
                            proof {
                                let rp = Seq::new(out@.len(), |j: int| T::repr(out@[j]));
                                let rq = Seq::new(prev.len(), |j: int| T::repr(prev[j]));
                                assert(rp =~= rq + seq![T::repr(out@[out@.len() - 1])]);
                                assert(rq + (seq![T::repr(out@[out@.len() - 1])]
                                    + elems_from::<T>(vv.skip(i as int))->Ok_0) =~= rp
                                    + elems_from::<T>(vv.skip(i as int))->Ok_0);
                            }
                        },
                        Err(e) => {
                            return Err(e);
                        },
                    }
                }
                proof {
                    assert(vv.skip(i as int).len() == 0);
                    assert(Seq::new(out@.len(), |j: int| T::repr(out@[j])) + Seq::<
                        T::Repr,
                    >::empty() =~= Seq::new(out@.len(), |j: int| T::repr(out@[j])));
                }
                Ok(out)
            },
            _ => Err(ConvError::ShapeMismatch),
        }
    }
}

impl YamlValue {
    /// Fallible conversion into a native type: `Some` exactly when the
    /// conversion trait's rule yields a result for this value.
    pub fn parse<T: FromYaml>(&self) -> (r: Option<T>)
        requires
            self.wf(),
        ensures
            r matches Some(x) ==> T::spec_from(self@) == Ok::<T::Repr, ConvErrorView>(
                T::repr(x),
            ),
            r is None ==> T::spec_from(self@) is Err,
    {
        match T::from_yaml(self) {
            Ok(x) => Some(x),
            Err(_) => None,
        }
    }
}


impl<T: FromYaml, U: FromYaml> FromYaml for (T, U) {
    type Repr = (T::Repr, U::Repr);

    open spec fn repr(x: (T, U)) -> (T::Repr, U::Repr) {
        (T::repr(x.0), U::repr(x.1))
    }

    /// A pair converts positionally from the first two elements of a
    /// sequence; extra elements are ignored, too few are a `Missing` failure.
    open spec fn spec_from(v: Val) -> Result<(T::Repr, U::Repr), ConvErrorView> {
        match v {
            Val::Items(s) => if s.len() < 2 {
                Err(ConvErrorView::Missing)
            } else {
                match T::spec_from(s[0]) {
                    Err(e) => Err(e),
                    Ok(x) => match U::spec_from(s[1]) {
                        Err(e) => Err(e),
                        Ok(y) => Ok((x, y)),
                    },
                }
            },
            _ => Err(ConvErrorView::Shape),
        }
    }

    fn from_yaml(v: &YamlValue) -> (r: Result<(T, U), ConvError>) {
        match v {
            YamlValue::Sequence(xs) => {
                let ghost vv = val_view(*v)->Items_0;
                proof {
                    assert(items_wf(vv));
                    assert(forall|j: int| 0 <= j < vv.len() ==> vv[j] == val_view(
                        xs@[j],
                    ));
                }
                if xs.len() < 2 {
                    return Err(ConvError::MissingElement);
                }
                let x = match T::from_yaml(&xs[0]) {
                    Ok(x) => x,
                    Err(e) => {
                        return Err(e);
                    },
                };
                let y = match U::from_yaml(&xs[1]) {
                    Ok(y) => y,
                    Err(e) => {
                        return Err(e);
                    },
                };
                Ok((x, y))
            },
            _ => Err(ConvError::ShapeMismatch),
        }
    }
}

impl<T: FromYaml, U: FromYaml, V: FromYaml> FromYaml for (T, U, V) {
    type Repr = (T::Repr, U::Repr, V::Repr);

    open spec fn repr(x: (T, U, V)) -> (T::Repr, U::Repr, V::Repr) {
        (T::repr(x.0), U::repr(x.1), V::repr(x.2))
    }

    /// A triple converts positionally from the first three elements of a
    /// sequence; extra elements are ignored, too few are a `Missing` failure.
    open spec fn spec_from(v: Val) -> Result<(T::Repr, U::Repr, V::Repr), ConvErrorView> {
        match v {
            Val::Items(s) => if s.len() < 3 {
                Err(ConvErrorView::Missing)
            } else {
                match T::spec_from(s[0]) {
                    Err(e) => Err(e),
                    Ok(x) => match U::spec_from(s[1]) {
                        Err(e) => Err(e),
                        Ok(y) => match V::spec_from(s[2]) {
                            Err(e) => Err(e),
                            Ok(z) => Ok((x, y, z)),
                        },
                    },
                }
            },
            _ => Err(ConvErrorView::Shape),
        }
    }

    fn from_yaml(v: &YamlValue) -> (r: Result<(T, U, V), ConvError>) {
        match v {
            YamlValue::Sequence(xs) => {
                let ghost vv = val_view(*v)->Items_0;
                proof {
                    assert(items_wf(vv));
                    assert(forall|j: int| 0 <= j < vv.len() ==> vv[j] == val_view(
                        xs@[j],
                    ));
                }
                if xs.len() < 3 {
                    return Err(ConvError::MissingElement);
                }
                let x = match T::from_yaml(&xs[0]) {
                    Ok(x) => x,
                    Err(e) => {
                        return Err(e);
                    },
                };
                let y = match U::from_yaml(&xs[1]) {
                    Ok(y) => y,
                    Err(e) => {
                        return Err(e);
                    },
                };
                let z = match V::from_yaml(&xs[2]) {
                    Ok(z) => z,
                    Err(e) => {
                        return Err(e);
                    },
                };
                Ok((x, y, z))
            },
            _ => Err(ConvError::ShapeMismatch),
        }
    }
}

impl<T: FromYaml, U: FromYaml, V: FromYaml, W: FromYaml> FromYaml for (T, U, V, W) {
    type Repr = (T::Repr, U::Repr, V::Repr, W::Repr);

    open spec fn repr(x: (T, U, V, W)) -> (T::Repr, U::Repr, V::Repr, W::Repr) {
        (T::repr(x.0), U::repr(x.1), V::repr(x.2), W::repr(x.3))
    }

    /// A quadruple converts positionally from the first four elements of a
    /// sequence; extra elements are ignored, too few are a `Missing` failure.
    open spec fn spec_from(v: Val) -> Result<
        (T::Repr, U::Repr, V::Repr, W::Repr),
        ConvErrorView,
    > {
        match v {
            Val::Items(s) => if s.len() < 4 {
                Err(ConvErrorView::Missing)
            } else {
                match T::spec_from(s[0]) {
                    Err(e) => Err(e),
                    Ok(x) => match U::spec_from(s[1]) {
                        Err(e) => Err(e),
                        Ok(y) => match V::spec_from(s[2]) {
                            Err(e) => Err(e),
                            Ok(z) => match W::spec_from(s[3]) {
                                Err(e) => Err(e),
                                Ok(w) => Ok((x, y, z, w)),
                            },
                        },
                    },
                }
            },
            _ => Err(ConvErrorView::Shape),
        }
    }

    fn from_yaml(v: &YamlValue) -> (r: Result<(T, U, V, W), ConvError>) {
        match v {
            YamlValue::Sequence(xs) => {
                let ghost vv = val_view(*v)->Items_0;
                proof {
                    assert(items_wf(vv));
                    assert(forall|j: int| 0 <= j < vv.len() ==> vv[j] == val_view(
                        xs@[j],
                    ));
                }
                if xs.len() < 4 {
                    return Err(ConvError::MissingElement);
                }
                let x = match T::from_yaml(&xs[0]) {
                    Ok(x) => x,
                    Err(e) => {
                        return Err(e);
                    },
                };
                let y = match U::from_yaml(&xs[1]) {
                    Ok(y) => y,
                    Err(e) => {
                        return Err(e);
                    },
                };
                let z = match V::from_yaml(&xs[2]) {
                    Ok(z) => z,
                    Err(e) => {
                        return Err(e);
                    },
                };
                let w = match W::from_yaml(&xs[3]) {
                    Ok(w) => w,
                    Err(e) => {
                        return Err(e);
                    },
                };
                Ok((x, y, z, w))
            },
            _ => Err(ConvError::ShapeMismatch),
        }
    }
}

} // verus!
