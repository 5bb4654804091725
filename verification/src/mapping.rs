//! Operations of the insertion-ordered map.
//!
//! Lookup goes by the order's notion of key equality (`crate::order::equiv`),
//! so two equivalent keys — say, equal mappings built in different insertion
//! order — address the same entry. `insert` overwrites in place and appends
//! new keys at the end; `remove` swaps the last entry into the hole, so the
//! relative order of the surviving entries is not fully preserved (a
//! documented property of the container, not an accident).

use vstd::prelude::*;
use core::cmp::Ordering;
use crate::model::Val;
use crate::order::{equiv, wf_val, keys_distinct, entries_wf};
use crate::laws::{lemma_cmp_refl, lemma_cmp_flip};
use crate::value::{YamlValue, Mapping, val_view, pair_view, entries_view};
use vstd::pervasive::VecAdditionalExecFns;

verus! {

broadcast use vstd::std_specs::vec::group_vec_axioms;

/// Index of the first entry whose key is equivalent to `k`, or -1.
pub open spec fn spec_find(s: Seq<(Val, Val)>, k: Val) -> int
    decreases s.len(),
{
    if s.len() == 0 {
        -1
    } else if equiv(s[0].0, k) {
        0
    } else {
        let r = spec_find(s.drop_first(), k);
        if r < 0 {
            -1
        } else {
            1 + r
        }
    }
}

/// Whether some entry's key is equivalent to `k`.
pub open spec fn spec_has(s: Seq<(Val, Val)>, k: Val) -> bool {
    spec_find(s, k) >= 0
}

/// What `spec_find` finds: an in-range index of the first equivalent key, or
/// -1 when no key is equivalent.
pub proof fn lemma_spec_find(s: Seq<(Val, Val)>, k: Val)
    ensures
        spec_find(s, k) == -1 || (0 <= spec_find(s, k) < s.len()),
        spec_find(s, k) >= 0 ==> equiv(s[spec_find(s, k)].0, k),
        spec_find(s, k) >= 0 ==> forall|i: int|
            0 <= i < spec_find(s, k) ==> !equiv(#[trigger] s[i].0, k),
        spec_find(s, k) == -1 ==> forall|i: int|
            0 <= i < s.len() ==> !equiv(#[trigger] s[i].0, k),
    decreases s.len(),
{
    if s.len() > 0 && !equiv(s[0].0, k) {
        lemma_spec_find(s.drop_first(), k);
        assert(forall|i: int| 1 <= i < s.len() ==> s[i] == s.drop_first()[i - 1]);
    }
}

impl Mapping {
    /// Creates an empty map.
    pub fn new() -> (r: Mapping)
        ensures
            r@ == Seq::<(Val, Val)>::empty(),
            r.wf(),
    {
        let r = Mapping { entries: Vec::new() };
        proof {
            assert(r@ =~= Seq::<(Val, Val)>::empty());
        }
        r
    }

    /// Creates an empty map that has room for `capacity` entries. The
    /// reserved room itself is not part of the model, so the contract speaks
    /// only of the contents; see `capacity`.
    pub fn with_capacity(capacity: usize) -> (r: Mapping)
        ensures
            r@ == Seq::<(Val, Val)>::empty(),
            r.wf(),
    {
        let r = Mapping { entries: Vec::with_capacity(capacity) };
        proof {
            assert(r@ =~= Seq::<(Val, Val)>::empty());
        }
        r
    }

    /// Reserves room for at least `additional` more entries.
    pub fn reserve(&mut self, additional: usize)
        ensures
            final(self)@ == old(self)@,
    {
        self.entries.reserve(additional);
        proof {
            assert(final(self)@ =~= old(self)@);
        }
    }

    /// The number of entries.
    pub fn len(&self) -> (r: usize)
        ensures
            r == self@.len(),
    {
        self.entries.len()
    }

    /// Whether the map has no entries.
    pub fn is_empty(&self) -> (r: bool)
        ensures
            r == (self@.len() == 0),
    {
        self.entries.is_empty()
    }

    /// Removes every entry.
    pub fn clear(&mut self)
        ensures
            final(self)@ == Seq::<(Val, Val)>::empty(),
            final(self).wf(),
    {
        self.entries.clear();
        proof {
            assert(final(self)@ =~= Seq::<(Val, Val)>::empty());
        }
    }

    /// The entries in insertion order, for iteration.
    pub fn iter(&self) -> (r: &Vec<(YamlValue, YamlValue)>)
        ensures
            entries_view(*r) == self@,
    {
        &self.entries
    }

    /// The entries in insertion order, by value.
    pub fn into_iter(self) -> (r: Vec<(YamlValue, YamlValue)>)
        ensures
            entries_view(r) == self@,
    {
        self.entries
    }

    /// Index of the entry with a key equivalent to `k`, if any.
    fn find_key(&self, k: &YamlValue) -> (r: Option<usize>)
        requires
            self.wf(),
            k.wf(),
        ensures
            match r {
                Some(i) => i as int == spec_find(self@, k@),
                None => spec_find(self@, k@) == -1,
            },
    {
        let ghost ev = self@;
        let mut i: usize = 0;
        proof {
            assert(ev.skip(0) =~= ev);
        }
        while i < self.entries.len()
            invariant
                i <= self.entries@.len(),
                ev == self@,
                ev.len() == self.entries@.len(),
                self.wf(),
                k.wf(),
                spec_find(ev, k@) == if spec_find(ev.skip(i as int), k@) < 0 {
                    -1int
                } else {
                    i + spec_find(ev.skip(i as int), k@)
                },
            decreases self.entries@.len() - i,
        {
            proof {
                assert(ev[i as int] == pair_view(self.entries@[i as int]));
            }
            let c = self.entries[i].0.total_cmp(k);
            proof {
                assert(ev.skip(i as int)[0] == ev[i as int]);
                assert(ev.skip(i as int).drop_first() =~= ev.skip(i as int + 1));
            }
            match c {
                Ordering::Equal => {
                    return Some(i);
                },
                _ => {
                    i = i + 1;
                },
            }
        }
        proof {
            assert(ev.skip(i as int).len() == 0);
        }
        None
    }

    /// Whether the map holds an entry with a key equivalent to `k`.
    pub fn contains_key(&self, k: &YamlValue) -> (r: bool)
        requires
            self.wf(),
            k.wf(),
        ensures
            r == spec_has(self@, k@),
    {
        match self.find_key(k) {
            Some(_) => true,
            None => false,
        }
    }

    /// The value of the entry with a key equivalent to `k`, if any.
    pub fn get(&self, k: &YamlValue) -> (r: Option<&YamlValue>)
        requires
            self.wf(),
            k.wf(),
        ensures
            spec_has(self@, k@) ==> (r matches Some(v) && v@ == self@[spec_find(
                self@,
                k@,
            )].1),
            !spec_has(self@, k@) ==> r is None,
    {
        match self.find_key(k) {
            Some(i) => {
                proof {
                    lemma_spec_find(self@, k@);
                    assert(self@[i as int] == pair_view(self.entries@[i as int]));
                }
                Some(&self.entries[i].1)
            },
            None => None,
        }
    }

    /// Mutable access to the value of the entry with a key equivalent to
    /// `k`, if any.
    pub fn get_mut(&mut self, k: &YamlValue) -> (r: Option<&mut YamlValue>)
        requires
            old(self).wf(),
            k.wf(),
        ensures
            match r {
                Some(v) => {
                    &&& spec_has(old(self)@, k@)
                    &&& *v == old(self).entries@[spec_find(old(self)@, k@)].1
                    &&& final(self).entries@ == old(self).entries@.update(
                        spec_find(old(self)@, k@),
                        (old(self).entries@[spec_find(old(self)@, k@)].0, *final(v)),
                    )
                },
                None => {
                    &&& !spec_has(old(self)@, k@)
                    &&& *final(self) == *old(self)
                },
            },
    {
        match self.find_key(k) {
            Some(i) => {
                proof {
                    lemma_spec_find(self@, k@);
                }
                let e = &mut self.entries[i];
                Some(&mut e.1)
            },
            None => None,
        }
    }

    /// The entry at position `i` of the insertion order.
    pub fn get_index(&self, i: usize) -> (r: &(YamlValue, YamlValue))
        requires
            i < self@.len(),
        ensures
            pair_view(*r) == self@[i as int],
    {
        proof {
            assert(self@[i as int] == pair_view(self.entries@[i as int]));
        }
        &self.entries[i]
    }

    /// Mutable access to the value at position `i` of the insertion order;
    /// with `len` this stands in for mutable iteration. A caller that writes
    /// a well-formed value through the reference keeps the map well-formed
    /// (`lemma_update_value_wf`).
    pub fn get_index_mut(&mut self, i: usize) -> (r: &mut YamlValue)
        requires
            i < old(self)@.len(),
        ensures
            *r == old(self).entries@[i as int].1,
            final(self).entries@ == old(self).entries@.update(
                i as int,
                (old(self).entries@[i as int].0, *final(r)),
            ),
    {
        let e = &mut self.entries[i];
        &mut e.1
    }

    /// Inserts `k → v`: when a key equivalent to `k` is present its value is
    /// overwritten in place — the stored key and the entry's position stay,
    /// and the previous value is returned — and otherwise the new entry is
    /// appended at the end.
    pub fn insert(&mut self, k: YamlValue, v: YamlValue) -> (r: Option<YamlValue>)
        requires
            old(self).wf(),
            k.wf(),
            v.wf(),
        ensures
            final(self).wf(),
            final(self)@ == spec_insert_pair(old(self)@, k@, v@),
            spec_has(old(self)@, k@) ==> (r matches Some(pv) && pv@ == old(self)@[
                spec_find(old(self)@, k@)].1),
            !spec_has(old(self)@, k@) ==> r is None,
    {
        let ghost ov = self@;
        let ghost es0 = self.entries@;
        proof {
            lemma_spec_find(ov, k@);
        }
        match self.find_key(&k) {
            Some(i) => {
                let ghost gi = i as int;
                let mut tmp = (YamlValue::Null, YamlValue::Null);
                self.entries.set_and_swap(i, &mut tmp);
                let (old_k, old_v) = tmp;
                let mut pr = (old_k, v);
                self.entries.set_and_swap(i, &mut pr);
                proof {
                    let nv = final(self)@;
                    let tv = spec_insert_pair(ov, k@, v@);
                    assert(self.entries@ =~= es0.update(gi, (es0[gi].0, v)));
                    assert forall|x: int| 0 <= x < nv.len() implies nv[x] == tv[x] by {
                        assert(nv[x] == pair_view(self.entries@[x]));
                        assert(ov[x] == pair_view(es0[x]));
                    }
                    assert(nv =~= tv);
                    lemma_insert_pair_wf(ov, k@, v@);
                }
                Some(old_v)
            },
            None => {
                self.entries.push((k, v));
                proof {
                    let nv = final(self)@;
                    let tv = spec_insert_pair(ov, k@, v@);
                    assert forall|x: int| 0 <= x < nv.len() implies nv[x] == tv[x] by {
                        assert(nv[x] == pair_view(self.entries@[x]));
                        if x < ov.len() {
                            assert(ov[x] == pair_view(es0[x]));
                        }
                    }
                    assert(nv =~= tv);
                    lemma_insert_pair_wf(ov, k@, v@);
                }
                None
            },
        }
    }

    /// Removes the entry with a key equivalent to `k` and returns its value.
    /// The hole is filled by swapping the last entry into it, so the relative
    /// order of the surviving entries is not fully preserved.
    pub fn remove(&mut self, k: &YamlValue) -> (r: Option<YamlValue>)
        requires
            old(self).wf(),
            k.wf(),
        ensures
            final(self).wf(),
            spec_has(old(self)@, k@) ==> {
                let i = spec_find(old(self)@, k@);
                &&& final(self)@ == old(self)@.update(i, old(self)@.last()).drop_last()
                &&& r matches Some(pv) && pv@ == old(self)@[i].1
            },
            !spec_has(old(self)@, k@) ==> *final(self) == *old(self) && r is None,
    {
        let ghost ov = self@;
        let ghost es0 = self.entries@;
        proof {
            lemma_spec_find(ov, k@);
        }
        match self.find_key(k) {
            Some(i) => {
                let ghost gi = i as int;
                let pr = self.entries.swap_remove(i);
                proof {
                    let nv = final(self)@;
                    let tv = ov.update(gi, ov.last()).drop_last();
                    assert forall|x: int| 0 <= x < nv.len() implies nv[x] == tv[x] by {
                        assert(nv[x] == pair_view(self.entries@[x]));
                        assert(ov[x] == pair_view(es0[x]));
                        assert(ov[ov.len() - 1] == pair_view(es0[es0.len() - 1]));
                    }
                    assert(nv =~= tv);
                    lemma_swap_remove_wf(ov, gi);
                }
                Some(pr.1)
            },
            None => None,
        }
    }

    /// Probes for the entry with a key equivalent to `k`: an occupied handle
    /// carries the entry's position in the insertion order.
    pub fn entry(&self, k: &YamlValue) -> (e: Entry)
        requires
            self.wf(),
            k.wf(),
        ensures
            spec_has(self@, k@) ==> e == (Entry::Occupied {
                at: spec_find(self@, k@) as usize,
            }),
            !spec_has(self@, k@) ==> e == Entry::Vacant,
    {
        match self.find_key(k) {
            Some(i) => Entry::Occupied { at: i },
            None => Entry::Vacant,
        }
    }

    /// Get-or-create: keeps the present value of an equivalent key and
    /// inserts `v` otherwise; returns the position of the entry. Calling it
    /// again with the same key returns the same position and changes nothing
    /// (see `lemma_or_insert_idempotent`).
    pub fn or_insert(&mut self, k: YamlValue, v: YamlValue) -> (at: usize)
        requires
            old(self).wf(),
            k.wf(),
            v.wf(),
        ensures
            final(self).wf(),
            spec_has(old(self)@, k@) ==> final(self)@ == old(self)@,
            !spec_has(old(self)@, k@) ==> final(self)@ == old(self)@.push((k@, v@)),
            at as int == spec_find(final(self)@, k@),
            spec_has(final(self)@, k@),
    {
        let ghost ov = self@;
        let ghost es0 = self.entries@;
        proof {
            lemma_spec_find(ov, k@);
        }
        match self.find_key(&k) {
            Some(i) => i,
            None => {
                let at = self.entries.len();
                self.entries.push((k, v));
                proof {
                    let nv = final(self)@;
                    assert forall|x: int| 0 <= x < nv.len() implies nv[x] == ov.push(
                        (k@, v@),
                    )[x] by {
                        assert(nv[x] == pair_view(self.entries@[x]));
                        if x < ov.len() {
                            assert(ov[x] == pair_view(es0[x]));
                        }
                    }
                    assert(nv =~= ov.push((k@, v@)));
                    lemma_insert_pair_wf(ov, k@, v@);
                    lemma_spec_find_push(ov, k@, v@);
                }
                at
            },
        }
    }
}

/// An occupied-or-vacant probe of one key (see `Mapping::entry`): the
/// occupied case carries the position of the entry in the insertion order.
#[derive(Debug, PartialEq, Eq)]
pub enum Entry {
    Occupied { at: usize },
    Vacant,
}

/// What one insertion does to the entries: overwrite the value in place, or
/// append a new entry.
pub open spec fn spec_insert_pair(s: Seq<(Val, Val)>, k: Val, v: Val) -> Seq<(Val, Val)> {
    let i = spec_find(s, k);
    if i >= 0 {
        s.update(i, (s[i].0, v))
    } else {
        s.push((k, v))
    }
}

/// Appending an entry with a fresh key makes that key found at the end.
pub proof fn lemma_spec_find_push(s: Seq<(Val, Val)>, k: Val, v: Val)
    requires
        !spec_has(s, k),
    ensures
        spec_find(s.push((k, v)), k) == s.len(),
    decreases s.len(),
{
    lemma_cmp_refl(k);
    if s.len() == 0 {
        assert(s.push((k, v))[0] == (k, v));
    } else {
        lemma_spec_find_push(s.drop_first(), k, v);
        assert(s.push((k, v)).drop_first() =~= s.drop_first().push((k, v)));
        assert(s.push((k, v))[0] == s[0]);
    }
}

/// Insertion preserves well-formedness of the entries.
pub proof fn lemma_insert_pair_wf(s: Seq<(Val, Val)>, k: Val, v: Val)
    requires
        wf_val(Val::Pairs(s)),
        wf_val(k),
        wf_val(v),
    ensures
        wf_val(Val::Pairs(spec_insert_pair(s, k, v))),
{
    lemma_spec_find(s, k);
    let i = spec_find(s, k);
    let nv = spec_insert_pair(s, k, v);
    if i >= 0 {
        assert(forall|x: int| 0 <= x < nv.len() ==> (#[trigger] nv[x]).0 == s[x].0);
        assert(keys_distinct(nv));
        assert(entries_wf(nv));
    } else {
        assert forall|x: int, y: int|
            0 <= x < nv.len() && 0 <= y < nv.len() && x != y implies !equiv(
            #[trigger] nv[x].0,
            #[trigger] nv[y].0,
        ) by {
            if x < s.len() && y < s.len() {
                assert(!equiv(s[x].0, s[y].0));
            } else if x < s.len() {
                // y is the appended entry
                assert(!equiv(s[x].0, k));
            } else {
                assert(!equiv(s[y].0, k));
                lemma_cmp_flip(s[y].0, k);
            }
        }
        assert(entries_wf(nv));
    }
}

/// Swap-removal preserves well-formedness of the entries.
pub proof fn lemma_swap_remove_wf(s: Seq<(Val, Val)>, i: int)
    requires
        wf_val(Val::Pairs(s)),
        0 <= i < s.len(),
    ensures
        wf_val(Val::Pairs(s.update(i, s.last()).drop_last())),
{
    let nv = s.update(i, s.last()).drop_last();
    assert forall|x: int, y: int|
        0 <= x < nv.len() && 0 <= y < nv.len() && x != y implies !equiv(
        #[trigger] nv[x].0,
        #[trigger] nv[y].0,
    ) by {
        let sx: int = if x == i {
            s.len() - 1
        } else {
            x
        };
        let sy: int = if y == i {
            s.len() - 1
        } else {
            y
        };
        assert(nv[x] == s[sx] && nv[y] == s[sy]);
        assert(!equiv(s[sx].0, s[sy].0));
    }
    assert forall|x: int| 0 <= x < nv.len() implies wf_val(#[trigger] nv[x].0) && wf_val(
        nv[x].1,
    ) by {
        let sx: int = if x == i {
            s.len() - 1
        } else {
            x
        };
        assert(nv[x] == s[sx]);
        assert(wf_val(s[sx].0) && wf_val(s[sx].1));
    }
}

/// Law: get-or-create is idempotent. Doing it a second time with the same
/// key — whatever value comes with it — changes nothing, and the entry is
/// found at the same position both times.
pub proof fn lemma_or_insert_idempotent(s: Seq<(Val, Val)>, k: Val, v: Val, w: Val)
    ensures
        ({
            let s1 = if spec_has(s, k) {
                s
            } else {
                s.push((k, v))
            };
            let s2 = if spec_has(s1, k) {
                s1
            } else {
                s1.push((k, w))
            };
            s2 == s1 && spec_find(s2, k) == spec_find(s1, k)
        }),
{
    if !spec_has(s, k) {
        lemma_spec_find_push(s, k, v);
    }
}

impl Default for Mapping {
    /// The default map is empty.
    fn default() -> (r: Mapping)
        ensures
            r@ == Seq::<(Val, Val)>::empty(),
            r.wf(),
    {
        Mapping::new()
    }
}

/// Inserting a list of pairs, one after the other, in order.
pub open spec fn spec_insert_all(s: Seq<(Val, Val)>, ps: Seq<(Val, Val)>) -> Seq<
    (Val, Val),
>
    decreases ps.len(),
{
    if ps.len() == 0 {
        s
    } else {
        spec_insert_all(spec_insert_pair(s, ps[0].0, ps[0].1), ps.drop_first())
    }
}

/// Relies on Vec::capacity: a vector can hold at least its present length
/// without reallocating.
#[verifier::external_body]
fn vec_capacity<T>(v: &Vec<T>) -> (r: usize)
    ensures
        r >= v@.len(),
{
    v.capacity()
}

/// Relies on Vec::shrink_to_fit: the contents stay exactly as they are.
#[verifier::external_body]
fn vec_shrink_to_fit<T>(v: &mut Vec<T>)
    ensures
        final(v)@ == old(v)@,
{
    v.shrink_to_fit()
}

impl Mapping {
    /// How many entries the map can hold without reallocating.
    pub fn capacity(&self) -> (r: usize)
        ensures
            r >= self@.len(),
    {
        vec_capacity(&self.entries)
    }

    /// Gives surplus room back to the allocator; the entries stay as they
    /// are.
    pub fn shrink_to_fit(&mut self)
        ensures
            final(self)@ == old(self)@,
    {
        vec_shrink_to_fit(&mut self.entries);
        proof {
            assert(final(self)@ =~= old(self)@);
        }
    }

    /// Inserts every given pair, in order, with `insert`'s overwrite-or-append
    /// rule.
    pub fn extend(&mut self, pairs: Vec<(YamlValue, YamlValue)>)
        requires
            old(self).wf(),
            entries_wf(entries_view(pairs)),
        ensures
            final(self).wf(),
            final(self)@ == spec_insert_all(old(self)@, entries_view(pairs)),
    {
        let ghost pv = entries_view(pairs);
        let mut rest = pairs;
        proof {
            assert(entries_view(rest) =~= pv);
        }
        while rest.len() > 0
            invariant
                self.wf(),
                entries_wf(entries_view(rest)),
                spec_insert_all(old(self)@, pv) == spec_insert_all(
                    self@,
                    entries_view(rest),
                ),
            decreases rest@.len(),
        {
            let ghost rv = entries_view(rest);
            let (k, v) = rest.remove(0);
            proof {
                assert(rv[0] == (k@, v@));
                assert(wf_val(k@) && wf_val(v@));
                assert(entries_view(rest) =~= rv.drop_first());
                assert(forall|j: int|
                    0 <= j < rv.drop_first().len() ==> rv.drop_first()[j] == rv[j + 1]);
            }
            self.insert(k, v);
        }
        proof {
            assert(entries_view(rest).len() == 0);
        }
    }

    /// Builds a map by inserting the given pairs, in order, into an empty
    /// map.
    pub fn from_iter(pairs: Vec<(YamlValue, YamlValue)>) -> (r: Mapping)
        requires
            entries_wf(entries_view(pairs)),
        ensures
            r.wf(),
            r@ == spec_insert_all(Seq::empty(), entries_view(pairs)),
    {
        let mut m = Mapping::new();
        m.extend(pairs);
        m
    }
}

impl Mapping {
    /// Get-or-create with a lazily computed default: like `or_insert`, but
    /// the default value is computed only when the key is absent.
    pub fn or_insert_with<F: FnOnce() -> YamlValue>(&mut self, k: YamlValue, f: F) -> (at:
        usize)
        requires
            old(self).wf(),
            k.wf(),
            f.requires(()),
            forall|fv: YamlValue| #[trigger] f.ensures((), fv) ==> fv.wf(),
        ensures
            final(self).wf(),
            spec_has(old(self)@, k@) ==> final(self)@ == old(self)@,
            !spec_has(old(self)@, k@) ==> exists|fv: YamlValue|
                #[trigger] f.ensures((), fv) && final(self)@ == old(self)@.push(
                    (k@, fv@),
                ),
            at as int == spec_find(final(self)@, k@),
            spec_has(final(self)@, k@),
    {
        let ghost ov = self@;
        let ghost es0 = self.entries@;
        proof {
            lemma_spec_find(ov, k@);
        }
        match self.find_key(&k) {
            Some(i) => i,
            None => {
                let at = self.entries.len();
                let v = f();
                self.entries.push((k, v));
                proof {
                    let nv = final(self)@;
                    assert forall|x: int| 0 <= x < nv.len() implies nv[x] == ov.push(
                        (k@, v@),
                    )[x] by {
                        assert(nv[x] == pair_view(self.entries@[x]));
                        if x < ov.len() {
                            assert(ov[x] == pair_view(es0[x]));
                        }
                    }
                    assert(nv =~= ov.push((k@, v@)));
                    lemma_insert_pair_wf(ov, k@, v@);
                    lemma_spec_find_push(ov, k@, v@);
                }
                at
            },
        }
    }

    /// Applies `f` to the value stored under a key equivalent to `k`, in
    /// place; does nothing when the key is absent.
    pub fn and_modify<F: FnOnce(YamlValue) -> YamlValue>(&mut self, k: &YamlValue, f: F)
        requires
            old(self).wf(),
            k.wf(),
            forall|x: YamlValue| x.wf() ==> #[trigger] f.requires((x,)),
            forall|x: YamlValue, fv: YamlValue| x.wf() && #[trigger] f.ensures((x,), fv)
                ==> fv.wf(),
        ensures
            final(self).wf(),
            !spec_has(old(self)@, k@) ==> *final(self) == *old(self),
            spec_has(old(self)@, k@) ==> {
                let i = spec_find(old(self)@, k@);
                exists|x: YamlValue, fv: YamlValue|
                    #![trigger f.ensures((x,), fv)]
                    x@ == old(self)@[i].1 && f.ensures((x,), fv) && final(self)@ == old(
                        self,
                    )@.update(i, (old(self)@[i].0, fv@))
            },
    {
        let ghost ov = self@;
        let ghost es0 = self.entries@;
        proof {
            lemma_spec_find(ov, k@);
        }
        match self.find_key(k) {
            Some(i) => {
                let ghost gi = i as int;
                let mut tmp = (YamlValue::Null, YamlValue::Null);
                self.entries.set_and_swap(i, &mut tmp);
                let (kk, xv) = tmp;
                proof {
                    assert(ov[gi] == pair_view(es0[gi]));
                    assert(xv.wf() && kk.wf());
                }
                let nv = f(xv);
                let mut pr = (kk, nv);
                self.entries.set_and_swap(i, &mut pr);
                proof {
                    let fv = final(self)@;
                    let tv = ov.update(gi, (ov[gi].0, nv@));
                    assert(self.entries@ =~= es0.update(gi, (es0[gi].0, nv)));
                    assert forall|x: int| 0 <= x < fv.len() implies fv[x] == tv[x] by {
                        assert(fv[x] == pair_view(self.entries@[x]));
                        assert(ov[x] == pair_view(es0[x]));
                    }
                    assert(fv =~= tv);
                    lemma_cmp_refl(ov[gi].0);
                    lemma_spec_find(ov, ov[gi].0);
                    let j = spec_find(ov, ov[gi].0);
                    assert(j >= 0);
                    if j != gi {
                        assert(equiv(ov[j].0, ov[gi].0));
                        assert(false);
                    }
                    assert(spec_insert_pair(ov, ov[gi].0, nv@) == tv);
                    lemma_insert_pair_wf(ov, ov[gi].0, nv@);
                }
            },
            None => {},
        }
    }
}

/// Overwriting one entry's value with a well-formed value keeps the entries
/// well-formed: the keys do not move. This is the fact a caller of `get_mut`
/// needs after writing through the returned reference.
pub proof fn lemma_update_value_wf(s: Seq<(Val, Val)>, i: int, v: Val)
    requires
        wf_val(Val::Pairs(s)),
        wf_val(v),
        0 <= i < s.len(),
    ensures
        wf_val(Val::Pairs(s.update(i, (s[i].0, v)))),
{
    let nv = s.update(i, (s[i].0, v));
    assert(forall|x: int| 0 <= x < nv.len() ==> (#[trigger] nv[x]).0 == s[x].0);
    assert(keys_distinct(nv));
    assert(entries_wf(nv));
}

} // verus!
