//! Hashing of document values, consistent with order-insensitive equality.
//!
//! Every variant folds a distinct tag into the hash, so values of different
//! variants never collide by construction. Sequences hash their elements in
//! order; a mapping combines one independent hash per entry with bitwise XOR,
//! a commutative operator, so that the hash does not depend on insertion
//! order. Equivalent values (`crate::order::equiv`) hash identically
//! (`lemma_equiv_hash`).

use vstd::prelude::*;
use core::cmp::Ordering;
use crate::model::{Val, depth, depth_items, depth_pairs, lemma_depth_items_bound,
    lemma_depth_pairs_bound};
use crate::order::{nmax, pair_depth, clamp_idx, cmp_chars, cmp_items, cmp_pair,
    min_pair_idx, cmp_pairs, equiv, lemma_depth_items_drop, lemma_depth_pairs_drop,
    lemma_depth_pairs_remove};
use crate::value::{YamlValue, Mapping, val_view, pair_view};
use vstd::string::StrSliceExecFns;

verus! {

/// Multiplier of the mixing step (the 64-bit FNV prime).
pub const HASH_PRIME: u64 = 0x100000001b3;

/// Seed of every hash (the 64-bit FNV offset basis).
pub const HASH_SEED: u64 = 0xcbf29ce484222325;

/// One mixing step: fold a word into the accumulator. Opaque: every proof
/// in this module treats the step as an arbitrary fixed function.
#[verifier::opaque]
pub open spec fn mix(h: u64, x: u64) -> u64 {
    vstd::wrapping::u64_specs::wrapping_mul(h ^ x, HASH_PRIME)
}

/// A 64-bit integer reinterpreted as an unsigned word (two's-complement).
pub open spec fn word_of_i64(x: i64) -> u64 {
    if x >= 0 {
        x as u64
    } else {
        (x + 0x10000000000000000) as u64
    }
}

/// Hash of one document value.
pub open spec fn hash_val(v: Val) -> u64
    decreases depth(v), 0nat, 0nat,
{
    match v {
        Val::Null => mix(HASH_SEED, 0),
        Val::Bool(b) => mix(
            mix(HASH_SEED, 1),
            if b {
                1
            } else {
                0
            },
        ),
        Val::Num(x) => mix(mix(HASH_SEED, 2), word_of_i64(x)),
        Val::Str(s) => hash_chars(mix(HASH_SEED, 3), s),
        Val::Items(s) => hash_items(mix(HASH_SEED, 4), s),
        Val::Pairs(s) => mix(mix(HASH_SEED, 5), xor_pairs(s)),
    }
}

/// Fold the characters of a string into the accumulator, in order.
pub open spec fn hash_chars(h: u64, s: Seq<char>) -> u64
    decreases s.len(),
{
    if s.len() == 0 {
        h
    } else {
        hash_chars(mix(h, s[0] as u64), s.drop_first())
    }
}

/// Fold the hashes of a sequence's elements into the accumulator, in order.
pub open spec fn hash_items(h: u64, s: Seq<Val>) -> u64
    decreases depth_items(s), s.len(), 1nat,
{
    if s.len() == 0 {
        h
    } else {
        let hv = {
            proof {
                lemma_depth_items_bound(s, 0);
            }
            hash_val(s[0])
        };
        proof {
            lemma_depth_items_drop(s);
        }
        hash_items(mix(h, hv), s.drop_first())
    }
}

/// Independent hash of one entry: key then value over a fresh seed.
pub open spec fn pair_hash(p: (Val, Val)) -> u64
    decreases pair_depth(p), 0nat, 1nat,
{
    mix(mix(HASH_SEED, hash_val(p.0)), hash_val(p.1))
}

/// XOR of the independent entry hashes: insensitive to entry order.
pub open spec fn xor_pairs(s: Seq<(Val, Val)>) -> u64
    decreases depth_pairs(s), s.len(), 2nat,
{
    if s.len() == 0 {
        0
    } else {
        let hp = {
            proof {
                lemma_depth_pairs_bound(s, 0);
            }
            pair_hash(s[0])
        };
        proof {
            lemma_depth_pairs_drop(s);
        }
        hp ^ xor_pairs(s.drop_first())
    }
}

/// Removing one entry removes exactly its contribution from the XOR.
proof fn lemma_xor_remove(s: Seq<(Val, Val)>, i: int)
    requires
        0 <= i < s.len(),
    ensures
        xor_pairs(s) == pair_hash(s[i]) ^ xor_pairs(s.remove(i)),
    decreases i,
{
    if i == 0 {
        assert(s.remove(0) =~= s.drop_first());
    } else {
        lemma_xor_remove(s.drop_first(), i - 1);
        assert(s.remove(i).drop_first() =~= s.drop_first().remove(i - 1));
        assert(s.remove(i)[0] == s[0]);
        lemma_xor_swap(pair_hash(s[0]), pair_hash(s[i]), xor_pairs(
            s.drop_first().remove(i - 1),
        ));
    }
}

proof fn lemma_xor_swap(a: u64, b: u64, c: u64)
    ensures
        a ^ (b ^ c) == b ^ (a ^ c),
{
    assert(a ^ (b ^ c) == b ^ (a ^ c)) by (bit_vector);
}

proof fn lemma_xor_zero(x: u64)
    ensures
        0u64 ^ x == x,
        x ^ 0u64 == x,
{
    assert(0u64 ^ x == x) by (bit_vector);
    assert(x ^ 0u64 == x) by (bit_vector);
}

proof fn lemma_xor_assoc(a: u64, b: u64, c: u64)
    ensures
        a ^ (b ^ c) == (a ^ b) ^ c,
{
    assert(a ^ (b ^ c) == (a ^ b) ^ c) by (bit_vector);
}

/// Equal character sequences under the order are the same sequence.
pub proof fn lemma_chars_equal(s: Seq<char>, t: Seq<char>)
    requires
        cmp_chars(s, t) == Ordering::Equal,
    ensures
        s == t,
    decreases s.len() + t.len(),
{
    if s.len() > 0 && t.len() > 0 {
        lemma_chars_equal(s.drop_first(), t.drop_first());
        assert(s[0] as int == t[0] as int);
        assert(s[0] == t[0]);
        assert forall|i: int| 0 <= i < s.len() implies s[i] == t[i] by {
            if i > 0 {
                assert(s.drop_first()[i - 1] == t.drop_first()[i - 1]);
            }
        }
        assert(s =~= t);
    } else {
        assert(s =~= t);
    }
}

/// Law: equivalent values hash identically. Together with the XOR scheme this
/// makes the hash of a mapping independent of insertion order.
pub proof fn lemma_equiv_hash(a: Val, b: Val)
    requires
        equiv(a, b),
    ensures
        hash_val(a) == hash_val(b),
    decreases nmax(depth(a), depth(b)), 0nat, 0nat,
{
    match (a, b) {
        (Val::Str(s), Val::Str(t)) => {
            lemma_chars_equal(s, t);
        },
        (Val::Items(s), Val::Items(t)) => {
            lemma_items_hash(mix(HASH_SEED, 4), s, t);
        },
        (Val::Pairs(s), Val::Pairs(t)) => {
            lemma_pairs_hash(s, t);
        },
        _ => {},
    }
}

proof fn lemma_pair_hash_eq(p: (Val, Val), q: (Val, Val))
    requires
        cmp_pair(p, q) == Ordering::Equal,
    ensures
        pair_hash(p) == pair_hash(q),
    decreases nmax(pair_depth(p), pair_depth(q)), 0nat, 1nat,
{
    lemma_equiv_hash(p.0, q.0);
    lemma_equiv_hash(p.1, q.1);
}

proof fn lemma_items_hash(h: u64, s: Seq<Val>, t: Seq<Val>)
    requires
        cmp_items(s, t) == Ordering::Equal,
    ensures
        hash_items(h, s) == hash_items(h, t),
    decreases nmax(depth_items(s), depth_items(t)), s.len() + t.len(), 0nat,
{
    if s.len() > 0 && t.len() > 0 {
        lemma_depth_items_bound(s, 0);
        lemma_depth_items_bound(t, 0);
        lemma_equiv_hash(s[0], t[0]);
        lemma_depth_items_drop(s);
        lemma_depth_items_drop(t);
        lemma_items_hash(mix(h, hash_val(s[0])), s.drop_first(), t.drop_first());
    }
}

proof fn lemma_pairs_hash(s: Seq<(Val, Val)>, t: Seq<(Val, Val)>)
    requires
        cmp_pairs(s, t) == Ordering::Equal,
    ensures
        xor_pairs(s) == xor_pairs(t),
    decreases nmax(depth_pairs(s), depth_pairs(t)), s.len() + t.len(), 0nat,
{
    if s.len() > 0 && t.len() > 0 {
        let i = clamp_idx(min_pair_idx(s), s.len());
        let j = clamp_idx(min_pair_idx(t), t.len());
        lemma_depth_pairs_bound(s, i);
        lemma_depth_pairs_bound(t, j);
        lemma_pair_hash_eq(s[i], t[j]);
        lemma_depth_pairs_remove(s, i);
        lemma_depth_pairs_remove(t, j);
        lemma_pairs_hash(s.remove(i), t.remove(j));
        lemma_xor_remove(s, i);
        lemma_xor_remove(t, j);
    }
}


/// One executable mixing step.
fn mix_exec(h: u64, x: u64) -> (r: u64)
    ensures
        r == mix(h, x),
{
    proof {
        reveal(mix);
    }
    (h ^ x).wrapping_mul(HASH_PRIME)
}

/// The low 64-bit word of an integer (two's-complement).
fn word_exec(n: i64) -> (r: u64)
    ensures
        r == word_of_i64(n),
{
    if n >= 0 {
        n as u64
    } else {
        0xffffffffffffffffu64 - ((-(n + 1)) as u64)
    }
}

/// Folds a string's characters into the accumulator.
fn hash_str(h: u64, s: &str) -> (r: u64)
    ensures
        r == hash_chars(h, s@),
{
    let len = s.unicode_len();
    let mut acc = h;
    let mut i: usize = 0;
    proof {
        assert(s@.skip(0) =~= s@);
    }
    while i < len
        invariant
            i <= len,
            len == s@.len(),
            hash_chars(h, s@) == hash_chars(acc, s@.skip(i as int)),
        decreases len - i,
    {
        let c = s.get_char(i);
        proof {
            assert(s@.skip(i as int)[0] == s@[i as int]);
            assert(s@.skip(i as int).drop_first() =~= s@.skip(i as int + 1));
        }
        acc = mix_exec(acc, c as u64);
        i = i + 1;
    }
    proof {
        assert(s@.skip(i as int).len() == 0);
    }
    acc
}


/// Folds the hashes of a sequence's elements into the accumulator.
#[verifier::spinoff_prover]
fn hash_items_exec(h0: u64, xs: &Vec<YamlValue>) -> (r: u64)
    ensures
        r == hash_items(h0, crate::value::items_view_at(xs@)),
    decreases depth_items(crate::value::items_view_at(xs@)), 1nat,
{
    let ghost vv = crate::value::items_view_at(xs@);
    let mut acc = h0;
    let mut i: usize = 0;
    proof {
        assert(vv.skip(0) =~= vv);
    }
    while i < xs.len()
        invariant
            i <= xs@.len(),
            vv == crate::value::items_view_at(xs@),
            vv.len() == xs@.len(),
            hash_items(h0, vv) == hash_items(acc, vv.skip(i as int)),
        decreases xs@.len() - i,
    {
        proof {
            lemma_depth_items_bound(vv, i as int);
            assert(vv[i as int] == val_view(xs@[i as int]));
            assert(vv.skip(i as int)[0] == vv[i as int]);
            assert(vv.skip(i as int).drop_first() =~= vv.skip(i as int + 1));
        }
        let hv = xs[i].hash64();
        acc = mix_exec(acc, hv);
        i = i + 1;
    }
    proof {
        assert(vv.skip(i as int).len() == 0);
    }
    acc
}

/// XOR of the independent entry hashes of an entry list.
#[verifier::spinoff_prover]
fn hash_entries_xor(es: &Vec<(YamlValue, YamlValue)>) -> (r: u64)
    ensures
        r == xor_pairs(crate::value::entries_view(*es)),
    decreases depth_pairs(crate::value::entries_view(*es)), 1nat,
{
    let ghost ev = crate::value::entries_view(*es);
    let mut acc: u64 = 0;
    let mut i: usize = 0;
    proof {
        assert(ev.skip(0) =~= ev);
        lemma_xor_zero(xor_pairs(ev));
    }
    while i < es.len()
        invariant
            i <= es@.len(),
            ev == crate::value::entries_view(*es),
            ev.len() == es@.len(),
            acc ^ xor_pairs(ev.skip(i as int)) == xor_pairs(ev),
        decreases es@.len() - i,
    {
        proof {
            lemma_depth_pairs_bound(ev, i as int);
            assert(ev[i as int] == pair_view(es@[i as int]));
            assert(ev.skip(i as int)[0] == ev[i as int]);
            assert(ev.skip(i as int).drop_first() =~= ev.skip(i as int + 1));
        }
        let hk = es[i].0.hash64();
        let hv = es[i].1.hash64();
        let hp = mix_exec(mix_exec(HASH_SEED, hk), hv);
        proof {
            assert(hp == pair_hash(ev[i as int]));
            assert(xor_pairs(ev.skip(i as int)) == hp ^ xor_pairs(
                ev.skip(i as int + 1),
            ));
            lemma_xor_assoc(acc, hp, xor_pairs(ev.skip(i as int + 1)));
        }
        acc = acc ^ hp;
        i = i + 1;
    }
    proof {
        assert(ev.skip(i as int).len() == 0);
        lemma_xor_zero(acc);
    }
    acc
}

impl YamlValue {
    /// The hash of this value. A tag for the variant is folded in first, so
    /// values of different variants never collide by construction; a
    /// mapping's entries contribute one independent hash each, combined with
    /// XOR, so insertion order does not matter. Equivalent values hash
    /// identically (`lemma_equiv_hash`).
    #[verifier::spinoff_prover]
    pub fn hash64(&self) -> (r: u64)
        ensures
            r == hash_val(self@),
        decreases depth(self@), 0nat,
    {
        match self {
            YamlValue::Null => mix_exec(HASH_SEED, 0),
            YamlValue::Bool(b) => mix_exec(
                mix_exec(HASH_SEED, 1),
                if *b {
                    1
                } else {
                    0
                },
            ),
            YamlValue::Number(n) => mix_exec(mix_exec(HASH_SEED, 2), word_exec(*n)),
            YamlValue::String(s) => hash_str(mix_exec(HASH_SEED, 3), s.as_str()),
            YamlValue::Sequence(xs) => hash_items_exec(mix_exec(HASH_SEED, 4), xs),
            YamlValue::Mapping(m) => {
                let x = hash_entries_xor(&m.entries);
                mix_exec(mix_exec(HASH_SEED, 5), x)
            },
        }
    }
}

} // verus!
