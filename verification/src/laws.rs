//! Laws of the cross-variant total order.
//!
//! The order of `crate::order` is reflexive-equal and antisymmetric on all
//! values, and transitive on well-formed values (mappings with pairwise
//! distinct keys). Equivalence — comparing as equal — is therefore an
//! equivalence relation on well-formed values.

use vstd::prelude::*;
use core::cmp::Ordering;
use crate::model::{Val, depth, depth_items, depth_pairs, lemma_depth_items_bound,
    lemma_depth_pairs_bound};
use crate::order::{nmax, pair_depth, flip, clamp_idx, cmp_chars, cmp_val, cmp_items,
    cmp_pair, min_pair_idx, cmp_pairs, equiv, keys_distinct, wf_val, entries_wf,
    lex_pairs, sorted_pairs,
    lemma_depth_items_drop, lemma_depth_pairs_drop, lemma_depth_pairs_remove};
use vstd::seq_lib::lemma_multiset_commutative;
use vstd::multiset::Multiset;

verus! {

/// Character comparison of a sequence with itself is `Equal`.
proof fn lemma_chars_refl(s: Seq<char>)
    ensures
        cmp_chars(s, s) == Ordering::Equal,
    decreases s.len(),
{
    if s.len() > 0 {
        lemma_chars_refl(s.drop_first());
    }
}

/// Every value compares as `Equal` with itself.
pub proof fn lemma_cmp_refl(a: Val)
    ensures
        cmp_val(a, a) == Ordering::Equal,
    decreases nmax(depth(a), depth(a)), 0nat, 0nat,
{
    match a {
        Val::Str(s) => {
            lemma_chars_refl(s);
        },
        Val::Items(s) => {
            lemma_items_refl(s);
        },
        Val::Pairs(s) => {
            lemma_pairs_refl(s);
        },
        _ => {},
    }
}

proof fn lemma_items_refl(s: Seq<Val>)
    ensures
        cmp_items(s, s) == Ordering::Equal,
    decreases nmax(depth_items(s), depth_items(s)), s.len() + s.len(), 0nat,
{
    if s.len() > 0 {
        lemma_depth_items_bound(s, 0);
        lemma_cmp_refl(s[0]);
        lemma_depth_items_drop(s);
        lemma_items_refl(s.drop_first());
    }
}

pub proof fn lemma_pair_refl(p: (Val, Val))
    ensures
        cmp_pair(p, p) == Ordering::Equal,
    decreases nmax(pair_depth(p), pair_depth(p)), 0nat, 1nat,
{
    lemma_cmp_refl(p.0);
    lemma_cmp_refl(p.1);
}

proof fn lemma_pairs_refl(s: Seq<(Val, Val)>)
    ensures
        cmp_pairs(s, s) == Ordering::Equal,
    decreases nmax(depth_pairs(s), depth_pairs(s)), s.len() + s.len(), 0nat,
{
    if s.len() > 0 {
        let i = clamp_idx(min_pair_idx(s), s.len());
        lemma_depth_pairs_bound(s, i);
        lemma_pair_refl(s[i]);
        lemma_depth_pairs_remove(s, i);
        lemma_pairs_refl(s.remove(i));
    }
}

proof fn lemma_chars_flip(s: Seq<char>, t: Seq<char>)
    ensures
        cmp_chars(t, s) == flip(cmp_chars(s, t)),
    decreases s.len() + t.len(),
{
    if s.len() > 0 && t.len() > 0 {
        lemma_chars_flip(s.drop_first(), t.drop_first());
    }
}

/// Comparing in the other direction gives the opposite outcome.
pub proof fn lemma_cmp_flip(a: Val, b: Val)
    ensures
        cmp_val(b, a) == flip(cmp_val(a, b)),
    decreases nmax(depth(a), depth(b)), 0nat, 0nat,
{
    match (a, b) {
        (Val::Str(s), Val::Str(t)) => {
            lemma_chars_flip(s, t);
        },
        (Val::Items(s), Val::Items(t)) => {
            lemma_items_flip(s, t);
        },
        (Val::Pairs(s), Val::Pairs(t)) => {
            lemma_pairs_flip(s, t);
        },
        _ => {},
    }
}

proof fn lemma_items_flip(s: Seq<Val>, t: Seq<Val>)
    ensures
        cmp_items(t, s) == flip(cmp_items(s, t)),
    decreases nmax(depth_items(s), depth_items(t)), s.len() + t.len(), 0nat,
{
    if s.len() > 0 && t.len() > 0 {
        lemma_depth_items_bound(s, 0);
        lemma_depth_items_bound(t, 0);
        lemma_cmp_flip(s[0], t[0]);
        lemma_depth_items_drop(s);
        lemma_depth_items_drop(t);
        lemma_items_flip(s.drop_first(), t.drop_first());
    }
}

pub proof fn lemma_pair_flip(p: (Val, Val), q: (Val, Val))
    ensures
        cmp_pair(q, p) == flip(cmp_pair(p, q)),
    decreases nmax(pair_depth(p), pair_depth(q)), 0nat, 1nat,
{
    lemma_cmp_flip(p.0, q.0);
    lemma_cmp_flip(p.1, q.1);
}

proof fn lemma_pairs_flip(s: Seq<(Val, Val)>, t: Seq<(Val, Val)>)
    ensures
        cmp_pairs(t, s) == flip(cmp_pairs(s, t)),
    decreases nmax(depth_pairs(s), depth_pairs(t)), s.len() + t.len(), 0nat,
{
    if s.len() > 0 && t.len() > 0 {
        let i = clamp_idx(min_pair_idx(s), s.len());
        let j = clamp_idx(min_pair_idx(t), t.len());
        lemma_depth_pairs_bound(s, i);
        lemma_depth_pairs_bound(t, j);
        lemma_pair_flip(s[i], t[j]);
        lemma_depth_pairs_remove(s, i);
        lemma_depth_pairs_remove(t, j);
        lemma_pairs_flip(s.remove(i), t.remove(j));
    }
}

/// The transitivity table of an ordering relation: outcomes of comparing
/// `a` with `b` and `b` with `c` constrain the outcome on `a` and `c`.
pub open spec fn trans_table(ab: Ordering, bc: Ordering, ac: Ordering) -> bool {
    &&& (ab == Ordering::Equal ==> ac == bc)
    &&& (bc == Ordering::Equal ==> ac == ab)
    &&& (ab == Ordering::Less && bc == Ordering::Less ==> ac == Ordering::Less)
    &&& (ab == Ordering::Greater && bc == Ordering::Greater ==> ac == Ordering::Greater)
}

proof fn lemma_chars_trans(s: Seq<char>, t: Seq<char>, u: Seq<char>)
    ensures
        trans_table(cmp_chars(s, t), cmp_chars(t, u), cmp_chars(s, u)),
    decreases s.len() + t.len() + u.len(),
{
    if s.len() > 0 && t.len() > 0 && u.len() > 0 {
        lemma_chars_trans(s.drop_first(), t.drop_first(), u.drop_first());
    }
}

/// Elements of a subset stay within the larger sequence's depth.
pub proof fn lemma_depth_pairs_subset(u: Seq<(Val, Val)>, s: Seq<(Val, Val)>)
    requires
        forall|x: (Val, Val)| u.contains(x) ==> s.contains(x),
    ensures
        depth_pairs(u) <= depth_pairs(s),
    decreases u.len(),
{
    if u.len() > 0 {
        assert(u.contains(u[0]));
        let k = choose|k: int| 0 <= k < s.len() && s[k] == u[0];
        lemma_depth_pairs_bound(s, k);
        assert(forall|x: (Val, Val)| u.drop_first().contains(x) ==> u.contains(x)) by {
            assert(forall|i: int|
                0 <= i < u.drop_first().len() ==> u.drop_first()[i] == u[i + 1]);
        }
        lemma_depth_pairs_subset(u.drop_first(), s);
    }
}

/// Well-formedness of entries carries over to any subset.
pub proof fn lemma_entries_wf_subset(u: Seq<(Val, Val)>, s: Seq<(Val, Val)>)
    requires
        forall|x: (Val, Val)| u.contains(x) ==> s.contains(x),
        entries_wf(s),
    ensures
        entries_wf(u),
{
    assert forall|i: int| 0 <= i < u.len() implies wf_val(#[trigger] u[i].0) && wf_val(
        u[i].1,
    ) by {
        assert(u.contains(u[i]));
        let k = choose|k: int| 0 <= k < s.len() && s[k] == u[i];
        assert(wf_val(s[k].0) && wf_val(s[k].1));
    }
}

/// Transitivity of the value order, with congruence through `Equal`.
/// Holds on well-formed values.
pub proof fn lemma_cmp_trans(a: Val, b: Val, c: Val)
    requires
        wf_val(a),
        wf_val(b),
        wf_val(c),
    ensures
        trans_table(cmp_val(a, b), cmp_val(b, c), cmp_val(a, c)),
    decreases nmax(nmax(depth(a), depth(b)), depth(c)), 0nat, 0nat,
{
    match (a, b, c) {
        (Val::Str(s), Val::Str(t), Val::Str(u)) => {
            lemma_chars_trans(s, t, u);
        },
        (Val::Items(s), Val::Items(t), Val::Items(u)) => {
            lemma_items_trans(s, t, u);
        },
        (Val::Pairs(s), Val::Pairs(t), Val::Pairs(u)) => {
            let us = sorted_perm_of(s);
            let ut = sorted_perm_of(t);
            let uu = sorted_perm_of(u);
            lemma_lex_matches(s, t, us, ut);
            lemma_lex_matches(t, u, ut, uu);
            lemma_lex_matches(s, u, us, uu);
            assert(forall|x: (Val, Val)| us.contains(x) ==> s.contains(x)) by {
                perm_contains(us, s);
            }
            assert(forall|x: (Val, Val)| ut.contains(x) ==> t.contains(x)) by {
                perm_contains(ut, t);
            }
            assert(forall|x: (Val, Val)| uu.contains(x) ==> u.contains(x)) by {
                perm_contains(uu, u);
            }
            lemma_depth_pairs_subset(us, s);
            lemma_depth_pairs_subset(ut, t);
            lemma_depth_pairs_subset(uu, u);
            lemma_entries_wf_subset(us, s);
            lemma_entries_wf_subset(ut, t);
            lemma_entries_wf_subset(uu, u);
            lemma_lex_trans(us, ut, uu);
        },
        _ => {},
    }
}

/// Sequences with equal entry multisets contain the same entries.
pub proof fn perm_contains(u: Seq<(Val, Val)>, s: Seq<(Val, Val)>)
    requires
        u.to_multiset() == s.to_multiset(),
    ensures
        forall|x: (Val, Val)| u.contains(x) <==> s.contains(x),
        u.len() == s.len(),
{
    u.to_multiset_ensures();
    s.to_multiset_ensures();
    assert forall|x: (Val, Val)| u.contains(x) <==> s.contains(x) by {
        assert(u.contains(x) <==> u.to_multiset().count(x) > 0);
        assert(s.contains(x) <==> s.to_multiset().count(x) > 0);
    }
}

proof fn lemma_items_trans(s: Seq<Val>, t: Seq<Val>, u: Seq<Val>)
    requires
        wf_val(Val::Items(s)),
        wf_val(Val::Items(t)),
        wf_val(Val::Items(u)),
    ensures
        trans_table(cmp_items(s, t), cmp_items(t, u), cmp_items(s, u)),
    decreases nmax(nmax(depth_items(s), depth_items(t)), depth_items(u)),
        s.len() + t.len() + u.len(), 0nat,
{
    if s.len() > 0 && t.len() > 0 && u.len() > 0 {
        lemma_depth_items_bound(s, 0);
        lemma_depth_items_bound(t, 0);
        lemma_depth_items_bound(u, 0);
        lemma_cmp_trans(s[0], t[0], u[0]);
        lemma_depth_items_drop(s);
        lemma_depth_items_drop(t);
        lemma_depth_items_drop(u);
        assert(wf_val(Val::Items(s.drop_first()))) by {
            assert(forall|i: int|
                0 <= i < s.drop_first().len() ==> s.drop_first()[i] == s[i + 1]);
        }
        assert(wf_val(Val::Items(t.drop_first()))) by {
            assert(forall|i: int|
                0 <= i < t.drop_first().len() ==> t.drop_first()[i] == t[i + 1]);
        }
        assert(wf_val(Val::Items(u.drop_first()))) by {
            assert(forall|i: int|
                0 <= i < u.drop_first().len() ==> u.drop_first()[i] == u[i + 1]);
        }
        lemma_items_trans(s.drop_first(), t.drop_first(), u.drop_first());
    }
}

pub proof fn lemma_pair_trans(p: (Val, Val), q: (Val, Val), r: (Val, Val))
    requires
        wf_val(p.0),
        wf_val(p.1),
        wf_val(q.0),
        wf_val(q.1),
        wf_val(r.0),
        wf_val(r.1),
    ensures
        trans_table(cmp_pair(p, q), cmp_pair(q, r), cmp_pair(p, r)),
    decreases nmax(nmax(pair_depth(p), pair_depth(q)), pair_depth(r)), 0nat, 1nat,
{
    lemma_cmp_trans(p.0, q.0, r.0);
    lemma_cmp_trans(p.1, q.1, r.1);
}

proof fn lemma_lex_trans(u: Seq<(Val, Val)>, v: Seq<(Val, Val)>, w: Seq<(Val, Val)>)
    requires
        entries_wf(u),
        entries_wf(v),
        entries_wf(w),
    ensures
        trans_table(lex_pairs(u, v), lex_pairs(v, w), lex_pairs(u, w)),
    decreases nmax(nmax(depth_pairs(u), depth_pairs(v)), depth_pairs(w)),
        u.len() + v.len() + w.len(), 0nat,
{
    if u.len() > 0 && v.len() > 0 && w.len() > 0 {
        lemma_depth_pairs_bound(u, 0);
        lemma_depth_pairs_bound(v, 0);
        lemma_depth_pairs_bound(w, 0);
        lemma_pair_trans(u[0], v[0], w[0]);
        lemma_depth_pairs_drop(u);
        lemma_depth_pairs_drop(v);
        lemma_depth_pairs_drop(w);
        assert(entries_wf(u.drop_first()) && entries_wf(v.drop_first()) && entries_wf(
            w.drop_first(),
        )) by {
            assert(forall|i: int|
                0 <= i < u.drop_first().len() ==> u.drop_first()[i] == u[i + 1]);
            assert(forall|i: int|
                0 <= i < v.drop_first().len() ==> v.drop_first()[i] == v[i + 1]);
            assert(forall|i: int|
                0 <= i < w.drop_first().len() ==> w.drop_first()[i] == w[i + 1]);
        }
        lemma_lex_trans(u.drop_first(), v.drop_first(), w.drop_first());
    }
}

/// The least-entry index really is in range and really is least.
proof fn lemma_min_props(s: Seq<(Val, Val)>)
    requires
        s.len() > 0,
        entries_wf(s),
    ensures
        0 <= min_pair_idx(s) < s.len(),
        forall|k: int|
            0 <= k < s.len() ==> cmp_pair(s[min_pair_idx(s)], #[trigger] s[k])
                != Ordering::Greater,
    decreases depth_pairs(s), s.len(), 0nat,
{
    if s.len() == 1 {
        lemma_pair_refl(s[0]);
    } else {
        let d = s.drop_first();
        lemma_depth_pairs_drop(s);
        assert(entries_wf(d)) by {
            assert(forall|i: int| 0 <= i < d.len() ==> d[i] == s[i + 1]);
        }
        lemma_min_props(d);
        let m = 1 + min_pair_idx(d);
        assert(s[m] == d[m - 1]);
        let mi = min_pair_idx(s);
        assert forall|k: int| 0 <= k < s.len() implies cmp_pair(s[mi], #[trigger] s[k])
            != Ordering::Greater by {
            if k >= 1 {
                assert(s[k] == d[k - 1]);
                assert(cmp_pair(d[m - 1], d[k - 1]) != Ordering::Greater);
            }
            if cmp_pair(s[0], s[m]) == Ordering::Greater {
                // the minimum is s[m]
                if k == 0 {
                    lemma_pair_flip(s[0], s[m]);
                }
            } else {
                // the minimum is s[0]
                if k == 0 {
                    lemma_pair_refl(s[0]);
                } else {
                    lemma_depth_pairs_bound(s, 0);
                    lemma_depth_pairs_bound(s, m);
                    lemma_depth_pairs_bound(s, k);
                    lemma_pair_trans(s[0], s[m], s[k]);
                }
            }
        }
    }
}

/// There is a permutation of any entry sequence that is sorted in ascending
/// entry order.
proof fn sorted_perm_of(s: Seq<(Val, Val)>) -> (u: Seq<(Val, Val)>)
    requires
        entries_wf(s),
    ensures
        u.to_multiset() == s.to_multiset(),
        u.len() == s.len(),
        sorted_pairs(u),
    decreases depth_pairs(s), s.len(), 1nat,
{
    if s.len() == 0 {
        s
    } else {
        lemma_min_props(s);
        let i = min_pair_idx(s);
        let rest = s.remove(i);
        lemma_depth_pairs_remove(s, i);
        assert(entries_wf(rest)) by {
            assert(forall|x: int|
                0 <= x < rest.len() ==> rest[x] == (if x < i {
                    s[x]
                } else {
                    s[x + 1]
                }));
        }
        let ur = sorted_perm_of(rest);
        let u = seq![s[i]] + ur;
        assert(u.to_multiset() == s.to_multiset()) by {
            lemma_multiset_commutative(seq![s[i]], ur);
            rest.to_multiset_ensures();
            s.to_multiset_ensures();
            ur.to_multiset_ensures();
            u.to_multiset_ensures();
            assert(seq![s[i]].to_multiset() =~= Multiset::empty().insert(s[i])) by {
                assert(seq![s[i]].drop_last() =~= Seq::<(Val, Val)>::empty());
                assert(seq![s[i]] =~= Seq::<(Val, Val)>::empty().push(s[i]));
                Seq::<(Val, Val)>::empty().to_multiset_ensures();
            }
            assert(rest.to_multiset() == s.to_multiset().remove(s[i]));
            assert(u.to_multiset() =~= s.to_multiset());
        }
        perm_contains(u, s);
        assert(sorted_pairs(u)) by {
            perm_contains(ur, rest);
            assert forall|k1: int, k2: int| 0 <= k1 <= k2 < u.len() implies cmp_pair(
                u[k1],
                u[k2],
            ) != Ordering::Greater by {
                if k1 == 0 {
                    if k2 == 0 {
                        lemma_pair_refl(s[i]);
                    } else {
                        assert(u[k2] == ur[k2 - 1]);
                        assert(ur.contains(ur[k2 - 1]));
                        assert(rest.contains(ur[k2 - 1]));
                        let x = choose|x: int|
                            0 <= x < rest.len() && rest[x] == ur[k2 - 1];
                        assert(rest[x] == (if x < i {
                            s[x]
                        } else {
                            s[x + 1]
                        }));
                    }
                } else {
                    assert(u[k1] == ur[k1 - 1] && u[k2] == ur[k2 - 1]);
                }
            }
        }
        u
    }
}

/// On entry sequences with pairwise distinct keys, the selection order
/// `cmp_pairs` is exactly the plain lexicographic order of their sorted
/// permutations.
#[verifier::rlimit(100)]
pub proof fn lemma_lex_matches(
    s: Seq<(Val, Val)>,
    t: Seq<(Val, Val)>,
    u: Seq<(Val, Val)>,
    v: Seq<(Val, Val)>,
)
    requires
        keys_distinct(s),
        keys_distinct(t),
        entries_wf(s),
        entries_wf(t),
        u.to_multiset() == s.to_multiset(),
        v.to_multiset() == t.to_multiset(),
        sorted_pairs(u),
        sorted_pairs(v),
    ensures
        lex_pairs(u, v) == cmp_pairs(s, t),
    decreases nmax(depth_pairs(s), depth_pairs(t)), s.len() + t.len(), 0nat,
{
    perm_contains(u, s);
    perm_contains(v, t);
    if s.len() > 0 && t.len() > 0 {
        lemma_min_props(s);
        lemma_min_props(t);
        let i = min_pair_idx(s);
        let j = min_pair_idx(t);
        assert(u[0] == s[i]) by {
            head_is_min(s, u, i);
        }
        assert(v[0] == t[j]) by {
            head_is_min(t, v, j);
        }
        let c = cmp_pair(s[i], t[j]);
        if c == Ordering::Equal {
            let s1 = s.remove(i);
            let t1 = t.remove(j);
            let u1 = u.drop_first();
            let v1 = v.drop_first();
            assert(u1 =~= u.remove(0));
            assert(v1 =~= v.remove(0));
            u.to_multiset_ensures();
            v.to_multiset_ensures();
            s.to_multiset_ensures();
            t.to_multiset_ensures();
            vstd::seq_lib::to_multiset_remove(u, 0);
            vstd::seq_lib::to_multiset_remove(v, 0);
            vstd::seq_lib::to_multiset_remove(s, i);
            vstd::seq_lib::to_multiset_remove(t, j);
            assert(u1.to_multiset() == s1.to_multiset());
            assert(v1.to_multiset() == t1.to_multiset());
            assert(keys_distinct(s1) && entries_wf(s1)) by {
                assert(forall|x: int|
                    0 <= x < s1.len() ==> s1[x] == (if x < i {
                        s[x]
                    } else {
                        s[x + 1]
                    }));
            }
            assert(keys_distinct(t1) && entries_wf(t1)) by {
                assert(forall|x: int|
                    0 <= x < t1.len() ==> t1[x] == (if x < j {
                        t[x]
                    } else {
                        t[x + 1]
                    }));
            }
            assert(sorted_pairs(u1) && sorted_pairs(v1)) by {
                assert(forall|x: int| 0 <= x < u1.len() ==> u1[x] == u[x + 1]);
                assert(forall|x: int| 0 <= x < v1.len() ==> v1[x] == v[x + 1]);
            }
            lemma_depth_pairs_remove(s, i);
            lemma_depth_pairs_remove(t, j);
            lemma_lex_matches(s1, t1, u1, v1);
        }
    }
}

/// The head of a sorted permutation of a distinct-key entry sequence is the
/// sequence's least entry.
proof fn head_is_min(s: Seq<(Val, Val)>, u: Seq<(Val, Val)>, i: int)
    requires
        s.len() > 0,
        keys_distinct(s),
        entries_wf(s),
        u.len() == s.len(),
        forall|x: (Val, Val)| u.contains(x) <==> s.contains(x),
        sorted_pairs(u),
        i == min_pair_idx(s),
        0 <= i < s.len(),
        forall|k: int|
            0 <= k < s.len() ==> cmp_pair(s[i], #[trigger] s[k]) != Ordering::Greater,
    ensures
        u[0] == s[i],
{
    // u's head is somewhere in s
    assert(u.contains(u[0]));
    let k = choose|k: int| 0 <= k < s.len() && s[k] == u[0];
    // s's least entry is somewhere in u
    assert(s.contains(s[i]));
    assert(u.contains(s[i]));
    let k2 = choose|k2: int| 0 <= k2 < u.len() && u[k2] == s[i];
    // each is bounded by the other, so they compare as equal
    assert(cmp_pair(u[0], u[k2]) != Ordering::Greater);
    assert(cmp_pair(u[0], s[i]) != Ordering::Greater);
    assert(cmp_pair(s[i], s[k]) != Ordering::Greater);
    assert(cmp_pair(s[i], u[0]) != Ordering::Greater);
    lemma_pair_flip(s[i], u[0]);
    assert(cmp_pair(s[k], s[i]) == Ordering::Equal);
    assert(cmp_val(s[k].0, s[i].0) == Ordering::Equal);
    // distinct keys: entries at two different indices never compare as equal
    if k != i {
        assert(!equiv(s[k].0, s[i].0));
        assert(false);
    }
    assert(u[0] == s[i]);
}

/// Law: comparing two equivalent values with any third value gives the same
/// outcome, and strict comparisons chain transitively. Together with
/// reflexivity (`lemma_cmp_refl`) and antisymmetry (`lemma_cmp_flip`) this
/// makes the cross-variant order a total order on well-formed values, and
/// equivalence an equivalence relation.
pub proof fn lemma_order_total(a: Val, b: Val, c: Val)
    requires
        wf_val(a),
        wf_val(b),
        wf_val(c),
    ensures
        equiv(a, b) ==> cmp_val(a, c) == cmp_val(b, c),
        cmp_val(a, b) == Ordering::Less && cmp_val(b, c) == Ordering::Less
            ==> cmp_val(a, c) == Ordering::Less,
        cmp_val(a, b) == Ordering::Greater && cmp_val(b, c) == Ordering::Greater
            ==> cmp_val(a, c) == Ordering::Greater,
        equiv(a, b) && equiv(b, c) ==> equiv(a, c),
        equiv(a, b) ==> equiv(b, a),
        equiv(a, a),
{
    lemma_cmp_trans(a, b, c);
    lemma_cmp_refl(a);
    lemma_cmp_flip(a, b);
    if equiv(a, b) {
        // congruence in the first argument, from the transitivity table
        lemma_cmp_flip(a, c);
        lemma_cmp_flip(b, c);
        lemma_cmp_trans(c, a, b);
    }
}

proof fn lemma_lex_refl(u: Seq<(Val, Val)>)
    ensures
        lex_pairs(u, u) == Ordering::Equal,
    decreases u.len(),
{
    if u.len() > 0 {
        lemma_pair_refl(u[0]);
        lemma_lex_refl(u.drop_first());
    }
}

/// Law: insertion order does not matter. Two entry lists that hold the same
/// entries — the same multiset, in any order — with pairwise distinct,
/// well-formed keys compare as equal, so the mappings they belong to are
/// equal and (with `crate::hashing::lemma_equiv_hash`) hash identically.
pub proof fn lemma_permutation_equal(s: Seq<(Val, Val)>, t: Seq<(Val, Val)>)
    requires
        keys_distinct(s),
        keys_distinct(t),
        entries_wf(s),
        entries_wf(t),
        s.to_multiset() == t.to_multiset(),
    ensures
        cmp_pairs(s, t) == Ordering::Equal,
{
    let u = sorted_perm_of(s);
    lemma_lex_matches(s, t, u, u);
    lemma_lex_refl(u);
}

} // verus!
