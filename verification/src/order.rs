//! The cross-variant total order on document values.
//!
//! Variants are ranked null < bool < number < string < sequence < mapping, and
//! two values of the same variant compare structurally: booleans by truth
//! value, numbers by integer value, strings lexicographically, sequences
//! element-wise with shorter-is-less, and mappings by comparing their entries
//! in ascending entry order (key first, value as tiebreak), shorter-is-less.
//! Comparing mapping entries in ascending order rather than insertion order is
//! what makes the order insensitive to insertion order; it is a total order on
//! values whose mappings have pairwise distinct keys.

use vstd::prelude::*;
use core::cmp::Ordering;
use crate::model::{Val, depth, depth_items, depth_pairs, lemma_depth_items_bound,
    lemma_depth_pairs_bound};

verus! {

/// Maximum of two naturals.
pub open spec fn nmax(a: nat, b: nat) -> nat {
    if a > b {
        a
    } else {
        b
    }
}

/// Deeper of a pair's key and value.
pub open spec fn pair_depth(p: (Val, Val)) -> nat {
    nmax(depth(p.0), depth(p.1))
}

/// Rank of a variant in the fixed cross-variant order.
pub open spec fn rank(v: Val) -> int {
    match v {
        Val::Null => 0,
        Val::Bool(_) => 1,
        Val::Num(_) => 2,
        Val::Str(_) => 3,
        Val::Items(_) => 4,
        Val::Pairs(_) => 5,
    }
}

/// The opposite ordering.
pub open spec fn flip(o: Ordering) -> Ordering {
    match o {
        Ordering::Less => Ordering::Greater,
        Ordering::Equal => Ordering::Equal,
        Ordering::Greater => Ordering::Less,
    }
}

/// An index clamped into `[0, n)`, with 0 as the fallback.
pub open spec fn clamp_idx(i: int, n: nat) -> int {
    if 0 <= i < n {
        i
    } else {
        0
    }
}

/// Dropping the first element never increases the depth of a value sequence.
pub proof fn lemma_depth_items_drop(s: Seq<Val>)
    requires
        s.len() > 0,
    ensures
        depth_items(s.drop_first()) <= depth_items(s),
{
}

/// Dropping the first entry never increases the depth of an entry sequence.
pub proof fn lemma_depth_pairs_drop(s: Seq<(Val, Val)>)
    requires
        s.len() > 0,
    ensures
        depth_pairs(s.drop_first()) <= depth_pairs(s),
{
}

/// Removing any entry never increases the depth of an entry sequence.
pub proof fn lemma_depth_pairs_remove(s: Seq<(Val, Val)>, i: int)
    requires
        0 <= i < s.len(),
    ensures
        depth_pairs(s.remove(i)) <= depth_pairs(s),
    decreases i,
{
    if i == 0 {
        assert(s.remove(0) =~= s.drop_first());
    } else {
        lemma_depth_pairs_remove(s.drop_first(), i - 1);
        assert(s.remove(i).drop_first() =~= s.drop_first().remove(i - 1));
        assert(s.remove(i)[0] == s[0]);
    }
}

/// Lexicographic order on character sequences, by unicode scalar value,
/// shorter-is-less on a common prefix.
pub open spec fn cmp_chars(s: Seq<char>, t: Seq<char>) -> Ordering
    decreases s.len(),
{
    if s.len() == 0 && t.len() == 0 {
        Ordering::Equal
    } else if s.len() == 0 {
        Ordering::Less
    } else if t.len() == 0 {
        Ordering::Greater
    } else if (s[0] as int) < (t[0] as int) {
        Ordering::Less
    } else if (t[0] as int) < (s[0] as int) {
        Ordering::Greater
    } else {
        cmp_chars(s.drop_first(), t.drop_first())
    }
}

/// The total order on values described at the top of this module.
pub open spec fn cmp_val(a: Val, b: Val) -> Ordering
    decreases nmax(depth(a), depth(b)), 0nat, 0nat,
{
    match (a, b) {
        (Val::Null, Val::Null) => Ordering::Equal,
        (Val::Bool(x), Val::Bool(y)) => if x == y {
            Ordering::Equal
        } else if !x {
            Ordering::Less
        } else {
            Ordering::Greater
        },
        (Val::Num(x), Val::Num(y)) => if x < y {
            Ordering::Less
        } else if y < x {
            Ordering::Greater
        } else {
            Ordering::Equal
        },
        (Val::Str(x), Val::Str(y)) => cmp_chars(x, y),
        (Val::Items(x), Val::Items(y)) => cmp_items(x, y),
        (Val::Pairs(x), Val::Pairs(y)) => cmp_pairs(x, y),
        _ => if rank(a) < rank(b) {
            Ordering::Less
        } else {
            Ordering::Greater
        },
    }
}

/// Element-wise lexicographic order on value sequences, shorter-is-less.
pub open spec fn cmp_items(s: Seq<Val>, t: Seq<Val>) -> Ordering
    decreases nmax(depth_items(s), depth_items(t)), s.len() + t.len(), 0nat,
{
    if s.len() == 0 && t.len() == 0 {
        Ordering::Equal
    } else if s.len() == 0 {
        Ordering::Less
    } else if t.len() == 0 {
        Ordering::Greater
    } else {
        let c = {
            proof {
                lemma_depth_items_bound(s, 0);
                lemma_depth_items_bound(t, 0);
            }
            cmp_val(s[0], t[0])
        };
        if c != Ordering::Equal {
            c
        } else {
            proof {
                lemma_depth_items_drop(s);
                lemma_depth_items_drop(t);
            }
            cmp_items(s.drop_first(), t.drop_first())
        }
    }
}

/// Key-first order on entries, with the value as tiebreak.
pub open spec fn cmp_pair(p: (Val, Val), q: (Val, Val)) -> Ordering
    decreases nmax(pair_depth(p), pair_depth(q)), 0nat, 1nat,
{
    let ck = cmp_val(p.0, q.0);
    if ck != Ordering::Equal {
        ck
    } else {
        cmp_val(p.1, q.1)
    }
}

/// Index of the first least entry of a non-empty entry sequence
/// (0 for an empty one).
pub open spec fn min_pair_idx(s: Seq<(Val, Val)>) -> int
    decreases depth_pairs(s), s.len(), 0nat,
{
    if s.len() <= 1 {
        0
    } else {
        let m = {
            proof {
                lemma_depth_pairs_drop(s);
            }
            1 + min_pair_idx(s.drop_first())
        };
        let j = if 1 <= m < s.len() {
            m
        } else {
            1
        };
        proof {
            lemma_depth_pairs_bound(s, 0);
            lemma_depth_pairs_bound(s, j);
        }
        if cmp_pair(s[0], s[j]) == Ordering::Greater {
            j
        } else {
            0
        }
    }
}

/// Order on entry sequences: repeatedly compare the least remaining entries,
/// shorter-is-less. On sequences with pairwise distinct keys this is exactly
/// the lexicographic comparison of the two sequences sorted in ascending
/// entry order.
pub open spec fn cmp_pairs(s: Seq<(Val, Val)>, t: Seq<(Val, Val)>) -> Ordering
    decreases nmax(depth_pairs(s), depth_pairs(t)), s.len() + t.len(), 0nat,
{
    if s.len() == 0 && t.len() == 0 {
        Ordering::Equal
    } else if s.len() == 0 {
        Ordering::Less
    } else if t.len() == 0 {
        Ordering::Greater
    } else {
        let i = clamp_idx(min_pair_idx(s), s.len());
        let j = clamp_idx(min_pair_idx(t), t.len());
        let c = {
            proof {
                lemma_depth_pairs_bound(s, i);
                lemma_depth_pairs_bound(t, j);
            }
            cmp_pair(s[i], t[j])
        };
        if c != Ordering::Equal {
            c
        } else {
            proof {
                lemma_depth_pairs_remove(s, i);
                lemma_depth_pairs_remove(t, j);
            }
            cmp_pairs(s.remove(i), t.remove(j))
        }
    }
}

/// Two values are equivalent when the total order cannot tell them apart.
/// This is the order-insensitive structural equality of values: mappings with
/// the same entries in different insertion order are equivalent.
pub open spec fn equiv(a: Val, b: Val) -> bool {
    cmp_val(a, b) == Ordering::Equal
}

/// Entries have pairwise distinct keys under the order's notion of equality.
pub open spec fn keys_distinct(s: Seq<(Val, Val)>) -> bool {
    forall|i: int, j: int|
        #![trigger s[i], s[j]]
        0 <= i < s.len() && 0 <= j < s.len() && i != j ==> !equiv(s[i].0, s[j].0)
}

/// A well-formed value: every mapping anywhere inside it has pairwise
/// distinct keys.
pub open spec fn wf_val(v: Val) -> bool
    decreases v,
{
    match v {
        Val::Items(s) => items_wf(s),
        Val::Pairs(s) => keys_distinct(s) && entries_wf(s),
        _ => true,
    }
}

/// Every element of the sequence is well-formed.
pub open spec fn items_wf(s: Seq<Val>) -> bool
    decreases s,
{
    forall|i: int| #![trigger s[i]] 0 <= i < s.len() ==> wf_val(s[i])
}

/// Every key and value among the entries is well-formed.
pub open spec fn entries_wf(s: Seq<(Val, Val)>) -> bool
    decreases s,
{
    forall|i: int| #![trigger s[i]] 0 <= i < s.len() ==> wf_val(s[i].0) && wf_val(s[i].1)
}

/// Plain lexicographic order on entry sequences, shorter-is-less. On two
/// sequences that are already sorted in ascending entry order this agrees
/// with `cmp_pairs` (see `crate::laws`).
pub open spec fn lex_pairs(u: Seq<(Val, Val)>, v: Seq<(Val, Val)>) -> Ordering
    decreases u.len() + v.len(),
{
    if u.len() == 0 && v.len() == 0 {
        Ordering::Equal
    } else if u.len() == 0 {
        Ordering::Less
    } else if v.len() == 0 {
        Ordering::Greater
    } else {
        let c = cmp_pair(u[0], v[0]);
        if c != Ordering::Equal {
            c
        } else {
            lex_pairs(u.drop_first(), v.drop_first())
        }
    }
}

/// The entries appear in ascending entry order.
pub open spec fn sorted_pairs(u: Seq<(Val, Val)>) -> bool {
    forall|k1: int, k2: int|
        #![trigger u[k1], u[k2]]
        0 <= k1 <= k2 < u.len() ==> cmp_pair(u[k1], u[k2]) != Ordering::Greater
}

} // verus!
