//! The executable document value and its ghost view.

use vstd::prelude::*;
use crate::model::Val;
use crate::order::wf_val;

verus! {

broadcast use vstd::std_specs::vec::group_vec_axioms;

/// One node of a structured document: exactly one of the six kinds at a time.
/// A `Sequence` and a `Mapping` own their children outright; the whole value
/// is a strict tree.
#[derive(Debug)]
pub enum YamlValue {
    Null,
    Bool(bool),
    Number(i64),
    String(String),
    Sequence(Vec<YamlValue>),
    Mapping(Mapping),
}

/// An insertion-ordered map with `YamlValue` keys and values. Iteration
/// follows insertion order; equality, hashing and ordering are insensitive to
/// it. A well-formed mapping has pairwise distinct keys (`Mapping::wf`).
#[derive(Debug)]
pub struct Mapping {
    /// The entries in insertion order. Exposed so that specifications can
    /// speak about the representation; use the methods to keep `wf`.
    pub entries: Vec<(YamlValue, YamlValue)>,
}

/// The ghost view of a value.
pub open spec fn val_view(v: YamlValue) -> Val
    decreases v,
{
    match v {
        YamlValue::Null => Val::Null,
        YamlValue::Bool(b) => Val::Bool(b),
        YamlValue::Number(n) => Val::Num(n),
        YamlValue::String(s) => Val::Str(s@),
        YamlValue::Sequence(xs) => Val::Items(
            {
                proof {
                    assert(decreases_to!(xs => xs@));
                }
                items_view_at(xs@)
            },
        ),
        YamlValue::Mapping(m) => Val::Pairs(
            {
                proof {
                    assert(decreases_to!(m.entries => m.entries@));
                }
                entries_view_at(m.entries@)
            },
        ),
    }
}

/// The ghost view of a sequence of values.
pub open spec fn items_view_at(xs: Seq<YamlValue>) -> Seq<Val>
    decreases xs,
{
    Seq::new(
        xs.len(),
        |i: int|
            if 0 <= i < xs.len() {
                val_view(xs[i])
            } else {
                Val::Null
            },
    )
}

/// The ghost view of an entry sequence: entries in insertion order.
pub open spec fn entries_view_at(es: Seq<(YamlValue, YamlValue)>) -> Seq<(Val, Val)>
    decreases es,
{
    Seq::new(
        es.len(),
        |i: int|
            if 0 <= i < es.len() {
                pair_view(es[i])
            } else {
                (Val::Null, Val::Null)
            },
    )
}

/// The ghost view of an entry list.
pub open spec fn entries_view(es: Vec<(YamlValue, YamlValue)>) -> Seq<(Val, Val)> {
    entries_view_at(es@)
}

/// The ghost view of one entry.
pub open spec fn pair_view(p: (YamlValue, YamlValue)) -> (Val, Val)
    decreases p,
{
    (val_view(p.0), val_view(p.1))
}

impl View for YamlValue {
    type V = Val;

    open spec fn view(&self) -> Val {
        val_view(*self)
    }
}

impl View for Mapping {
    type V = Seq<(Val, Val)>;

    open spec fn view(&self) -> Seq<(Val, Val)> {
        entries_view(self.entries)
    }
}

impl YamlValue {
    /// Every mapping inside this value has pairwise distinct keys.
    pub open spec fn wf(&self) -> bool {
        wf_val(self@)
    }
}

impl Mapping {
    /// The mapping and everything inside it is well-formed.
    pub open spec fn wf(&self) -> bool {
        wf_val(Val::Pairs(self@))
    }
}

impl Default for YamlValue {
    /// The default value is `Null`.
    fn default() -> (r: Self)
        ensures
            r@ == Val::Null,
    {
        YamlValue::Null
    }
}

/// Two's-complement negation of a 64-bit integer.
pub open spec fn spec_wrap_neg(n: i64) -> i64 {
    if n == i64::MIN {
        i64::MIN
    } else {
        (-n) as i64
    }
}

/// Two's-complement addition of 64-bit integers.
pub open spec fn spec_wrap_add(a: i64, b: i64) -> i64 {
    vstd::wrapping::i64_specs::wrapping_add(a, b)
}

/// Two's-complement subtraction of 64-bit integers.
pub open spec fn spec_wrap_sub(a: i64, b: i64) -> i64 {
    vstd::wrapping::i64_specs::wrapping_sub(a, b)
}

/// Compound addition: numbers add, strings and sequences concatenate, and
/// every mismatched pair of variants leaves the left side unchanged.
pub open spec fn spec_add(a: Val, b: Val) -> Val {
    match (a, b) {
        (Val::Num(x), Val::Num(y)) => Val::Num(spec_wrap_add(x, y)),
        (Val::Str(x), Val::Str(y)) => Val::Str(x + y),
        (Val::Items(x), Val::Items(y)) => Val::Items(x + y),
        _ => a,
    }
}

/// Compound subtraction: numbers subtract, every other pair of variants
/// leaves the left side unchanged.
pub open spec fn spec_sub(a: Val, b: Val) -> Val {
    match (a, b) {
        (Val::Num(x), Val::Num(y)) => Val::Num(spec_wrap_sub(x, y)),
        _ => a,
    }
}

/// The error of an operation on a value.
#[derive(Debug)]
pub enum ValueError {
    /// A document number is not representable as a 64-bit signed integer;
    /// carries the number's textual form.
    UnsupportedNumber(String),
    /// Negation was attempted on a value that is not a number.
    UnsupportedNegation,
    /// The document serializer could not render the value.
    RenderFailed,
}

impl YamlValue {
    /// Compound add-assign: `Number + Number` adds (two's-complement),
    /// `String + String` and `Sequence + Sequence` concatenate, and any
    /// mismatched pair of variants is a silent no-op.
    pub fn add_assign(&mut self, rhs: YamlValue)
        ensures
            final(self)@ == spec_add(old(self)@, rhs@),
    {
        let ghost ga = (*self)@;
        let ghost gb = rhs@;
        let mut lhs = YamlValue::Null;
        core::mem::swap(self, &mut lhs);
        *self = match (lhs, rhs) {
            (YamlValue::Number(x), YamlValue::Number(y)) => YamlValue::Number(
                x.wrapping_add(y),
            ),
            (YamlValue::String(mut x), YamlValue::String(y)) => {
                x.append(y.as_str());
                YamlValue::String(x)
            },
            (YamlValue::Sequence(mut x), YamlValue::Sequence(mut y)) => {
                let ghost gx = x@;
                let ghost gy = y@;
                x.append(&mut y);
                let r = YamlValue::Sequence(x);
                proof {
                    let sa = ga->Items_0;
                    let sb = gb->Items_0;
                    assert(sa =~= Seq::new(
                        gx.len(),
                        |i: int|
                            if 0 <= i < gx.len() {
                                val_view(gx[i])
                            } else {
                                Val::Null
                            },
                    ));
                    assert(sb =~= Seq::new(
                        gy.len(),
                        |i: int|
                            if 0 <= i < gy.len() {
                                val_view(gy[i])
                            } else {
                                Val::Null
                            },
                    ));
                    assert(r@->Items_0 =~= sa + sb);
                }
                r
            },
            (l, _) => l,
        };
    }

    /// Compound subtract-assign: `Number - Number` subtracts
    /// (two's-complement); every other pair of variants is a silent no-op.
    pub fn sub_assign(&mut self, rhs: YamlValue)
        ensures
            final(self)@ == spec_sub(old(self)@, rhs@),
    {
        let mut lhs = YamlValue::Null;
        core::mem::swap(self, &mut lhs);
        *self = match (lhs, rhs) {
            (YamlValue::Number(x), YamlValue::Number(y)) => YamlValue::Number(
                x.wrapping_sub(y),
            ),
            (l, _) => l,
        };
    }

    /// Arithmetic negation: defined for numbers only (two's-complement, so
    /// the minimum value negates to itself); anything else is an
    /// `UnsupportedNegation` error.
    pub fn neg(self) -> (r: Result<YamlValue, ValueError>)
        ensures
            self@ matches Val::Num(n) ==> (r matches Ok(v) && v@ == Val::Num(
                spec_wrap_neg(n),
            )),
            !(self@ is Num) ==> (r matches Err(e) && e is UnsupportedNegation),
    {
        match self {
            YamlValue::Number(n) => {
                if n == i64::MIN {
                    Ok(YamlValue::Number(i64::MIN))
                } else {
                    Ok(YamlValue::Number(-n))
                }
            },
            _ => Err(ValueError::UnsupportedNegation),
        }
    }

    /// The number held by a numeric value.
    pub fn to_i64(&self) -> (r: Option<i64>)
        ensures
            self@ matches Val::Num(n) ==> r == Some(n),
            !(self@ is Num) ==> r is None,
    {
        match self {
            YamlValue::Number(n) => Some(*n),
            _ => None,
        }
    }

    /// The number held by a numeric value, reinterpreted as unsigned
    /// (two's-complement).
    pub fn to_u64(&self) -> (r: Option<u64>)
        ensures
            self@ matches Val::Num(n) ==> r == Some(crate::hashing::word_of_i64(n)),
            !(self@ is Num) ==> r is None,
    {
        match self {
            YamlValue::Number(n) => {
                if *n >= 0 {
                    Some(*n as u64)
                } else {
                    Some(0xffffffffffffffffu64 - ((-(*n + 1)) as u64))
                }
            },
            _ => None,
        }
    }
}

impl YamlValue {
    /// An exact copy: same structure, same view.
    pub fn deep_clone(&self) -> (r: YamlValue)
        ensures
            r@ == self@,
        decreases crate::model::depth(self@), 0nat,
    {
        match self {
            YamlValue::Null => YamlValue::Null,
            YamlValue::Bool(b) => YamlValue::Bool(*b),
            YamlValue::Number(n) => YamlValue::Number(*n),
            YamlValue::String(s) => YamlValue::String(s.clone()),
            YamlValue::Sequence(xs) => {
                let ghost vv = val_view(*self)->Items_0;
                let mut out: Vec<YamlValue> = Vec::new();
                let mut i: usize = 0;
                while i < xs.len()
                    invariant
                        i <= xs@.len(),
                        *self == YamlValue::Sequence(*xs),
                        vv == val_view(*self)->Items_0,
                        vv.len() == xs@.len(),
                        forall|j: int| 0 <= j < vv.len() ==> vv[j] == val_view(xs@[j]),
                        out@.len() == i,
                        forall|j: int|
                            0 <= j < i ==> val_view(#[trigger] out@[j]) == vv[j],
                    decreases xs@.len() - i,
                {
                    proof {
                        crate::model::lemma_depth_items_bound(vv, i as int);
                    }
                    let c = xs[i].deep_clone();
                    out.push(c);
                    i = i + 1;
                }
                let r = YamlValue::Sequence(out);
                proof {
                    assert(r@->Items_0 =~= vv);
                }
                r
            },
            YamlValue::Mapping(m) => {
                let c = m.deep_clone();
                YamlValue::Mapping(c)
            },
        }
    }

    /// The order-insensitive structural equality of well-formed values: two
    /// mappings with the same entries in different insertion order are equal.
    pub fn equals(&self, other: &YamlValue) -> (r: bool)
        requires
            self.wf(),
            other.wf(),
        ensures
            r == crate::order::equiv(self@, other@),
    {
        match self.total_cmp(other) {
            core::cmp::Ordering::Equal => true,
            _ => false,
        }
    }

    /// The cross-variant total order, as a `partial_cmp`-shaped result: on
    /// well-formed values the comparison always succeeds.
    pub fn partial_cmp(&self, other: &YamlValue) -> (r: Option<core::cmp::Ordering>)
        requires
            self.wf(),
            other.wf(),
        ensures
            r == Some(crate::order::cmp_val(self@, other@)),
    {
        Some(self.total_cmp(other))
    }
}

impl Mapping {
    /// An exact copy: same entries, same order, same view.
    pub fn deep_clone(&self) -> (r: Mapping)
        ensures
            r@ == self@,
        decreases crate::model::depth_pairs(self@), 1nat,
    {
        let ghost ev = self@;
        let mut out: Vec<(YamlValue, YamlValue)> = Vec::new();
        let mut i: usize = 0;
        while i < self.entries.len()
            invariant
                i <= self.entries@.len(),
                ev == self@,
                ev.len() == self.entries@.len(),
                forall|j: int|
                    0 <= j < ev.len() ==> ev[j] == pair_view(#[trigger] self.entries@[j]),
                out@.len() == i,
                forall|j: int| 0 <= j < i ==> pair_view(#[trigger] out@[j]) == ev[j],
            decreases self.entries@.len() - i,
        {
            proof {
                crate::model::lemma_depth_pairs_bound(ev, i as int);
            }
            let k = self.entries[i].0.deep_clone();
            let v = self.entries[i].1.deep_clone();
            out.push((k, v));
            i = i + 1;
        }
        let r = Mapping { entries: out };
        proof {
            assert(r@ =~= ev);
        }
        r
    }

    /// The order-insensitive equality of mappings: same entries, in any
    /// insertion order.
    pub fn equals(&self, other: &Mapping) -> (r: bool)
        requires
            self.wf(),
            other.wf(),
        ensures
            r == (crate::order::cmp_pairs(self@, other@) == core::cmp::Ordering::Equal),
    {
        match self.total_cmp(other) {
            core::cmp::Ordering::Equal => true,
            _ => false,
        }
    }

    /// The order-insensitive total order on well-formed mappings, as a
    /// `partial_cmp`-shaped result: the comparison always succeeds.
    pub fn partial_cmp(&self, other: &Mapping) -> (r: Option<core::cmp::Ordering>)
        requires
            self.wf(),
            other.wf(),
        ensures
            r == Some(crate::order::cmp_pairs(self@, other@)),
    {
        Some(self.total_cmp(other))
    }
}

impl From<i64> for YamlValue {
    /// A 64-bit integer becomes a `Number`.
    fn from(v: i64) -> (r: YamlValue) {
        YamlValue::Number(v)
    }
}

impl vstd::std_specs::convert::FromSpecImpl<i64> for YamlValue {
    open spec fn obeys_from_spec() -> bool {
        true
    }

    open spec fn from_spec(v: i64) -> YamlValue {
        YamlValue::Number(v)
    }
}

impl From<i32> for YamlValue {
    /// A 32-bit integer becomes a `Number`.
    fn from(v: i32) -> (r: YamlValue) {
        YamlValue::Number(v as i64)
    }
}

impl vstd::std_specs::convert::FromSpecImpl<i32> for YamlValue {
    open spec fn obeys_from_spec() -> bool {
        true
    }

    open spec fn from_spec(v: i32) -> YamlValue {
        YamlValue::Number(v as i64)
    }
}

/// A 64-bit unsigned value reinterpreted as a signed one (two's-complement).
pub open spec fn spec_i64_of_u64(v: u64) -> i64 {
    if v <= i64::MAX as u64 {
        v as i64
    } else {
        (v - 0x10000000000000000) as i64
    }
}

impl From<u64> for YamlValue {
    /// A 64-bit unsigned integer becomes a `Number` holding its
    /// two's-complement reinterpretation.
    fn from(v: u64) -> (r: YamlValue) {
        if v <= 0x7fffffffffffffffu64 {
            YamlValue::Number(v as i64)
        } else {
            YamlValue::Number(-((0xffffffffffffffffu64 - v) as i64) - 1)
        }
    }
}

impl vstd::std_specs::convert::FromSpecImpl<u64> for YamlValue {
    open spec fn obeys_from_spec() -> bool {
        true
    }

    open spec fn from_spec(v: u64) -> YamlValue {
        YamlValue::Number(spec_i64_of_u64(v))
    }
}

impl From<u32> for YamlValue {
    /// A 32-bit unsigned integer becomes a `Number`.
    fn from(v: u32) -> (r: YamlValue) {
        YamlValue::Number(v as i64)
    }
}

impl vstd::std_specs::convert::FromSpecImpl<u32> for YamlValue {
    open spec fn obeys_from_spec() -> bool {
        true
    }

    open spec fn from_spec(v: u32) -> YamlValue {
        YamlValue::Number(v as i64)
    }
}

impl From<bool> for YamlValue {
    /// A boolean becomes a `Bool`.
    fn from(v: bool) -> (r: YamlValue) {
        YamlValue::Bool(v)
    }
}

impl vstd::std_specs::convert::FromSpecImpl<bool> for YamlValue {
    open spec fn obeys_from_spec() -> bool {
        true
    }

    open spec fn from_spec(v: bool) -> YamlValue {
        YamlValue::Bool(v)
    }
}

impl From<String> for YamlValue {
    /// A string becomes a `String` value.
    fn from(v: String) -> (r: YamlValue) {
        YamlValue::String(v)
    }
}

impl vstd::std_specs::convert::FromSpecImpl<String> for YamlValue {
    open spec fn obeys_from_spec() -> bool {
        true
    }

    open spec fn from_spec(v: String) -> YamlValue {
        YamlValue::String(v)
    }
}

impl YamlValue {
    /// A string slice becomes a `String` value.
    pub fn from_str(v: &str) -> (r: YamlValue)
        ensures
            r@ == Val::Str(v@),
    {
        YamlValue::String(<String as vstd::string::StringExecFns>::from_str(v))
    }
}

} // verus!
