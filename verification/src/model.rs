//! The mathematical model of document values.
//!
//! `Val` is the ghost counterpart of the executable `YamlValue`: a tree of
//! plain values in which a mapping is the sequence of its entries in
//! insertion order. Specifications throughout the crate speak about `Val`.

use vstd::prelude::*;

verus! {

/// Ghost model of one document value.
pub enum Val {
    Null,
    Bool(bool),
    Num(i64),
    Str(Seq<char>),
    Items(Seq<Val>),
    Pairs(Seq<(Val, Val)>),
}

/// Nesting depth of a value: scalars are at depth zero, a sequence or a
/// mapping sits one level above its deepest child.
pub open spec fn depth(v: Val) -> nat
    decreases v,
{
    match v {
        Val::Items(s) => 1 + depth_items(s),
        Val::Pairs(s) => 1 + depth_pairs(s),
        _ => 0,
    }
}

/// Deepest element of a sequence of values (zero when empty).
pub open spec fn depth_items(s: Seq<Val>) -> nat
    decreases s,
{
    if s.len() == 0 {
        0
    } else {
        let d0 = depth(s[0]);
        let dr = depth_items(s.drop_first());
        if d0 > dr {
            d0
        } else {
            dr
        }
    }
}

/// Deepest key or value among a sequence of entries (zero when empty).
pub open spec fn depth_pairs(s: Seq<(Val, Val)>) -> nat
    decreases s,
{
    if s.len() == 0 {
        0
    } else {
        let dk = depth(s[0].0);
        let dv = depth(s[0].1);
        let d0 = if dk > dv {
            dk
        } else {
            dv
        };
        let dr = depth_pairs(s.drop_first());
        if d0 > dr {
            d0
        } else {
            dr
        }
    }
}

/// Every element of a sequence stays within the sequence's depth.
pub proof fn lemma_depth_items_bound(s: Seq<Val>, i: int)
    requires
        0 <= i < s.len(),
    ensures
        depth(s[i]) <= depth_items(s),
    decreases s.len(),
{
    if i == 0 {
    } else {
        lemma_depth_items_bound(s.drop_first(), i - 1);
    }
}

/// Every key and value of an entry sequence stays within the sequence's depth.
pub proof fn lemma_depth_pairs_bound(s: Seq<(Val, Val)>, i: int)
    requires
        0 <= i < s.len(),
    ensures
        depth(s[i].0) <= depth_pairs(s),
        depth(s[i].1) <= depth_pairs(s),
    decreases s.len(),
{
    if i == 0 {
    } else {
        lemma_depth_pairs_bound(s.drop_first(), i - 1);
    }
}

} // verus!
