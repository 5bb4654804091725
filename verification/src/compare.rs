//! Executable comparison of values under the cross-variant total order.
//!
//! `YamlValue::total_cmp` computes `crate::order::cmp_val` of the two views.
//! Mappings are compared by sorting their entries in ascending entry order
//! and comparing the sorted lists lexicographically, which the laws of
//! `crate::laws` show to be exactly the order-insensitive entry order.

use vstd::prelude::*;
use core::cmp::Ordering;
use crate::model::{Val, depth, depth_items, depth_pairs, lemma_depth_items_bound,
    lemma_depth_pairs_bound};
use crate::order::{nmax, pair_depth, cmp_chars, cmp_val, cmp_items, cmp_pair, cmp_pairs,
    rank, wf_val, entries_wf, items_wf, keys_distinct, sorted_pairs, lex_pairs};
use crate::laws::{lemma_pair_refl, lemma_pair_flip, lemma_pair_trans, lemma_lex_matches};
use crate::value::{YamlValue, Mapping, val_view, pair_view, items_view_at, entries_view};
use vstd::seq_lib::to_multiset_remove;
use vstd::seq_lib::to_multiset_build;

verus! {

broadcast use vstd::std_specs::vec::group_vec_axioms;

/// The entries of `ev` selected at the positions in `idx`, in that order.
pub open spec fn sel(ev: Seq<(Val, Val)>, idx: Seq<usize>) -> Seq<(Val, Val)> {
    Seq::new(idx.len(), |k: int| ev[idx[k] as int])
}

/// Lexicographic comparison of two strings by unicode scalar value,
/// shorter-is-less.
pub(crate) fn cmp_str(a: &str, b: &str) -> (r: Ordering)
    ensures
        r == cmp_chars(a@, b@),
{
    let alen = a.unicode_len();
    let blen = b.unicode_len();
    let mut i: usize = 0;
    proof {
        assert(a@.skip(0) =~= a@);
        assert(b@.skip(0) =~= b@);
    }
    while i < alen && i < blen
        invariant
            i <= alen,
            i <= blen,
            alen == a@.len(),
            blen == b@.len(),
            cmp_chars(a@, b@) == cmp_chars(a@.skip(i as int), b@.skip(i as int)),
        decreases alen - i,
    {
        let ca = a.get_char(i);
        let cb = b.get_char(i);
        proof {
            assert(a@.skip(i as int).drop_first() =~= a@.skip(i as int + 1));
            assert(b@.skip(i as int).drop_first() =~= b@.skip(i as int + 1));
            assert(a@.skip(i as int)[0] == a@[i as int]);
            assert(b@.skip(i as int)[0] == b@[i as int]);
        }
        if (ca as u32) < (cb as u32) {
            return Ordering::Less;
        }
        if (cb as u32) < (ca as u32) {
            return Ordering::Greater;
        }
        i = i + 1;
    }
    proof {
        assert(a@.skip(i as int).len() == alen - i);
        assert(b@.skip(i as int).len() == blen - i);
    }
    if alen == blen {
        Ordering::Equal
    } else if alen < blen {
        Ordering::Less
    } else {
        Ordering::Greater
    }
}

/// Rank of a value's variant in the fixed cross-variant order.
fn rank_of(v: &YamlValue) -> (r: u8)
    ensures
        r as int == rank(v@),
{
    match v {
        YamlValue::Null => 0,
        YamlValue::Bool(_) => 1,
        YamlValue::Number(_) => 2,
        YamlValue::String(_) => 3,
        YamlValue::Sequence(_) => 4,
        YamlValue::Mapping(_) => 5,
    }
}

impl YamlValue {
    /// The cross-variant total order on well-formed values: variants rank
    /// null < bool < number < string < sequence < mapping; equal variants
    /// compare structurally, with mapping entries compared in ascending
    /// entry order, insensitive to insertion order.
    pub fn total_cmp(&self, other: &YamlValue) -> (r: Ordering)
        requires
            self.wf(),
            other.wf(),
        ensures
            r == cmp_val(self@, other@),
        decreases nmax(depth(self@), depth(other@)), 0nat, 0nat,
    {
        match (self, other) {
            (YamlValue::Null, YamlValue::Null) => Ordering::Equal,
            (YamlValue::Bool(x), YamlValue::Bool(y)) => {
                if x == y {
                    Ordering::Equal
                } else if !*x {
                    Ordering::Less
                } else {
                    Ordering::Greater
                }
            },
            (YamlValue::Number(x), YamlValue::Number(y)) => {
                if *x < *y {
                    Ordering::Less
                } else if *y < *x {
                    Ordering::Greater
                } else {
                    Ordering::Equal
                }
            },
            (YamlValue::String(x), YamlValue::String(y)) => cmp_str(
                x.as_str(),
                y.as_str(),
            ),
            (YamlValue::Sequence(x), YamlValue::Sequence(y)) => cmp_sequences(x, y),
            (YamlValue::Mapping(x), YamlValue::Mapping(y)) => x.total_cmp(y),
            _ => {
                let ra = rank_of(self);
                let rb = rank_of(other);
                if ra < rb {
                    Ordering::Less
                } else {
                    Ordering::Greater
                }
            },
        }
    }
}

/// Element-wise lexicographic comparison of two value sequences.
fn cmp_sequences(x: &Vec<YamlValue>, y: &Vec<YamlValue>) -> (r: Ordering)
    requires
        items_wf(items_view_at(x@)),
        items_wf(items_view_at(y@)),
    ensures
        r == cmp_items(items_view_at(x@), items_view_at(y@)),
    decreases nmax(depth_items(items_view_at(x@)), depth_items(items_view_at(y@))),
        0nat, 1nat,
{
    let ghost vx = items_view_at(x@);
    let ghost vy = items_view_at(y@);
    let mut i: usize = 0;
    proof {
        assert(vx.skip(0) =~= vx);
        assert(vy.skip(0) =~= vy);
    }
    while i < x.len() && i < y.len()
        invariant
            i <= x@.len(),
            i <= y@.len(),
            vx == items_view_at(x@),
            vy == items_view_at(y@),
            vx.len() == x@.len(),
            vy.len() == y@.len(),
            items_wf(vx),
            items_wf(vy),
            cmp_items(vx, vy) == cmp_items(vx.skip(i as int), vy.skip(i as int)),
        decreases x@.len() - i,
    {
        proof {
            lemma_depth_items_bound(vx, i as int);
            lemma_depth_items_bound(vy, i as int);
            assert(vx[i as int] == val_view(x@[i as int]));
            assert(vy[i as int] == val_view(y@[i as int]));
        }
        let c = x[i].total_cmp(&y[i]);
        proof {
            assert(vx.skip(i as int).drop_first() =~= vx.skip(i as int + 1));
            assert(vy.skip(i as int).drop_first() =~= vy.skip(i as int + 1));
            assert(vx.skip(i as int)[0] == vx[i as int]);
            assert(vy.skip(i as int)[0] == vy[i as int]);
        }
        match c {
            Ordering::Equal => {
                i = i + 1;
            },
            _ => {
                return c;
            },
        }
    }
    proof {
        assert(vx.skip(i as int).len() == vx.len() - i);
        assert(vy.skip(i as int).len() == vy.len() - i);
    }
    if x.len() == y.len() {
        Ordering::Equal
    } else if x.len() < y.len() {
        Ordering::Less
    } else {
        Ordering::Greater
    }
}

/// Key-first comparison of two entries, value as tiebreak.
fn cmp_entry(p: &(YamlValue, YamlValue), q: &(YamlValue, YamlValue)) -> (r: Ordering)
    requires
        wf_val(pair_view(*p).0),
        wf_val(pair_view(*p).1),
        wf_val(pair_view(*q).0),
        wf_val(pair_view(*q).1),
    ensures
        r == cmp_pair(pair_view(*p), pair_view(*q)),
    decreases nmax(pair_depth(pair_view(*p)), pair_depth(pair_view(*q))), 0nat, 2nat,
{
    let ck = p.0.total_cmp(&q.0);
    match ck {
        Ordering::Equal => p.1.total_cmp(&q.1),
        _ => ck,
    }
}

/// The position in front of the first already-selected entry that is greater
/// than entry `n`: where an insertion sort inserts entry `n`.
fn find_insert_pos(es: &Vec<(YamlValue, YamlValue)>, idx: &Vec<usize>, n: usize) -> (p:
    usize)
    requires
        entries_wf(entries_view(*es)),
        n < es@.len(),
        forall|k: int| 0 <= k < idx@.len() ==> (idx@[k] as int) < es@.len(),
    ensures
        p <= idx@.len(),
        forall|q: int|
            0 <= q < p ==> cmp_pair(
                #[trigger] sel(entries_view(*es), idx@)[q],
                entries_view(*es)[n as int],
            ) != Ordering::Greater,
        p < idx@.len() ==> cmp_pair(
            sel(entries_view(*es), idx@)[p as int],
            entries_view(*es)[n as int],
        ) == Ordering::Greater,
    decreases depth_pairs(entries_view(*es)), 0nat, 3nat,
{
    let ghost ev = entries_view(*es);
    let mut p: usize = 0;
    while p < idx.len()
        invariant
            p <= idx@.len(),
            n < es@.len(),
            ev == entries_view(*es),
            ev.len() == es@.len(),
            entries_wf(ev),
            forall|k: int| 0 <= k < idx@.len() ==> (idx@[k] as int) < es@.len(),
            forall|q: int|
                0 <= q < p ==> cmp_pair(#[trigger] sel(ev, idx@)[q], ev[n as int])
                    != Ordering::Greater,
        decreases idx@.len() - p,
    {
        let ip = idx[p];
        proof {
            lemma_depth_pairs_bound(ev, ip as int);
            lemma_depth_pairs_bound(ev, n as int);
            assert(ev[ip as int] == pair_view(es@[ip as int]));
            assert(ev[n as int] == pair_view(es@[n as int]));
            assert(sel(ev, idx@)[p as int] == ev[ip as int]);
        }
        let c = cmp_entry(&es[ip], &es[n]);
        match c {
            Ordering::Greater => {
                return p;
            },
            _ => {
                p = p + 1;
            },
        }
    }
    p
}

/// Indices of the entries of `es`, sorted so that the selected entries are in
/// ascending entry order (insertion sort; stable, though with distinct keys
/// no two entries compare as equal anyway).
fn sort_entry_indices(es: &Vec<(YamlValue, YamlValue)>) -> (idx: Vec<usize>)
    requires
        entries_wf(entries_view(*es)),
    ensures
        idx@.len() == es@.len(),
        forall|k: int| 0 <= k < idx@.len() ==> (idx@[k] as int) < es@.len(),
        sel(entries_view(*es), idx@).to_multiset() == entries_view(*es).to_multiset(),
        sorted_pairs(sel(entries_view(*es), idx@)),
    decreases depth_pairs(entries_view(*es)), 0nat, 4nat,
{
    let ghost ev = entries_view(*es);
    let mut idx: Vec<usize> = Vec::new();
    let mut n: usize = 0;
    proof {
        assert(sel(ev, idx@) =~= Seq::<(Val, Val)>::empty());
        assert(ev.take(0) =~= Seq::<(Val, Val)>::empty());
    }
    while n < es.len()
        invariant
            n <= es@.len(),
            ev == entries_view(*es),
            ev.len() == es@.len(),
            entries_wf(ev),
            idx@.len() == n,
            forall|k: int| 0 <= k < idx@.len() ==> (idx@[k] as int) < es@.len(),
            sel(ev, idx@).to_multiset() == ev.take(n as int).to_multiset(),
            sorted_pairs(sel(ev, idx@)),
        decreases es@.len() - n,
    {
        let ghost old_idx = idx@;
        let ghost old_sel = sel(ev, old_idx);
        proof {
            lemma_depth_pairs_bound(ev, n as int);
            assert(ev[n as int] == pair_view(es@[n as int]));
        }
        let p = find_insert_pos(es, &idx, n);
        idx.insert(p, n);
        n = n + 1;
        proof {
            let new_sel = sel(ev, idx@);
            assert(new_sel.len() == old_sel.len() + 1);
            assert(new_sel[p as int] == ev[(n - 1) as int]);
            assert(forall|k: int|
                0 <= k < p ==> #[trigger] new_sel[k] == old_sel[k]);
            assert(forall|k: int|
                p < k < new_sel.len() ==> #[trigger] new_sel[k] == old_sel[k - 1]);
            // the selection is still sorted
            assert forall|k1: int, k2: int| 0 <= k1 <= k2 < new_sel.len() implies cmp_pair(
                new_sel[k1],
                new_sel[k2],
            ) != Ordering::Greater by {
                let e = ev[(n - 1) as int];
                if k1 == p && k2 == p {
                    lemma_pair_refl(e);
                } else if k1 < p && k2 == p {
                } else if k1 == p && k2 > p {
                    // e < old_sel[p] <= old_sel[k2 - 1]
                    lemma_pair_flip(old_sel[p as int], e);
                    lemma_pair_trans(e, old_sel[p as int], old_sel[k2 - 1]);
                } else {
                }
            }
            // the selection still holds exactly the first n entries
            assert(new_sel.remove(p as int) =~= old_sel);
            to_multiset_remove(new_sel, p as int);
            new_sel.to_multiset_ensures();
            old_sel.to_multiset_ensures();
            assert(ev.take(n as int).drop_last() =~= ev.take(n - 1));
            assert(ev.take(n as int).last() == ev[(n - 1) as int]);
            assert(ev.take(n - 1).push(ev[(n - 1) as int]) =~= ev.take(n as int));
            to_multiset_build(ev.take(n - 1), ev[(n - 1) as int]);
            assert(new_sel.to_multiset() =~= ev.take(n as int).to_multiset());
        }
    }
    proof {
        assert(ev.take(n as int) =~= ev);
    }
    idx
}

impl Mapping {
    /// The order-insensitive total order on well-formed mappings: the two
    /// entry lists are compared in ascending entry order, shorter-is-less.
    pub fn total_cmp(&self, other: &Mapping) -> (r: Ordering)
        requires
            self.wf(),
            other.wf(),
        ensures
            r == cmp_pairs(self@, other@),
        decreases nmax(depth_pairs(self@), depth_pairs(other@)), 0nat, 5nat,
    {
        let ghost ea = self@;
        let ghost eb = other@;
        let ia = sort_entry_indices(&self.entries);
        let ib = sort_entry_indices(&other.entries);
        let ghost sa = sel(ea, ia@);
        let ghost sb = sel(eb, ib@);
        proof {
            lemma_lex_matches(ea, eb, sa, sb);
        }
        let mut k: usize = 0;
        proof {
            assert(sa.skip(0) =~= sa);
            assert(sb.skip(0) =~= sb);
        }
        while k < ia.len() && k < ib.len()
            invariant
                k <= ia@.len(),
                k <= ib@.len(),
                ea == self@,
                eb == other@,
                ia@.len() == ea.len(),
                ib@.len() == eb.len(),
                forall|q: int| 0 <= q < ia@.len() ==> (ia@[q] as int) < ea.len(),
                forall|q: int| 0 <= q < ib@.len() ==> (ib@[q] as int) < eb.len(),
                sa == sel(ea, ia@),
                sb == sel(eb, ib@),
                entries_wf(ea),
                entries_wf(eb),
                lex_pairs(sa, sb) == lex_pairs(sa.skip(k as int), sb.skip(k as int)),
                lex_pairs(sa, sb) == cmp_pairs(self@, other@),
            decreases ia@.len() - k,
        {
            let qa = ia[k];
            let qb = ib[k];
            proof {
                lemma_depth_pairs_bound(ea, qa as int);
                lemma_depth_pairs_bound(eb, qb as int);
                assert(ea[qa as int] == pair_view(self.entries@[qa as int]));
                assert(eb[qb as int] == pair_view(other.entries@[qb as int]));
                assert(sa.skip(k as int)[0] == sa[k as int]);
                assert(sb.skip(k as int)[0] == sb[k as int]);
                assert(sa[k as int] == ea[qa as int]);
                assert(sb[k as int] == eb[qb as int]);
            }
            let c = cmp_entry(&self.entries[qa], &other.entries[qb]);
            proof {
                assert(sa.skip(k as int).drop_first() =~= sa.skip(k as int + 1));
                assert(sb.skip(k as int).drop_first() =~= sb.skip(k as int + 1));
            }
            match c {
                Ordering::Equal => {
                    k = k + 1;
                },
                _ => {
                    return c;
                },
            }
        }
        proof {
            assert(sa.skip(k as int).len() == sa.len() - k);
            assert(sb.skip(k as int).len() == sb.len() - k);
        }
        if ia.len() == ib.len() {
            Ordering::Equal
        } else if ia.len() < ib.len() {
            Ordering::Less
        } else {
            Ordering::Greater
        }
    }
}

} // verus!
