//! The generic parsed-document tree and the conversions to and from values.
//!
//! `DocNode` is the plain form of one parsed document node: null, boolean,
//! number (already an integer, or marked unrepresentable), string, sequence
//! or mapping. A document parser produces it at the boundary; `YamlValue::new`
//! converts it into a value, rejecting unrepresentable numbers, and
//! `YamlValue::to_document_node` converts a value back. Round-tripping a
//! well-formed value through the document tree reproduces it exactly
//! (`lemma_document_round_trip`).

use vstd::prelude::*;
use crate::model::Val;
use crate::order::{wf_val, equiv, keys_distinct, entries_wf, items_wf};
use crate::value::{YamlValue, Mapping, ValueError, val_view, pair_view, items_view_at};
use crate::mapping::{spec_find, spec_insert_pair, lemma_spec_find};

verus! {

broadcast use vstd::std_specs::vec::group_vec_axioms;

/// One parsed document node, as plain values. A number that the parser could
/// not represent as a 64-bit signed integer arrives as `BadNum` with its
/// textual form.
#[derive(Debug)]
pub enum DocNode {
    Null,
    Bool(bool),
    Int(i64),
    BadNum(String),
    Text(String),
    List(Vec<DocNode>),
    Pairs(Vec<(DocNode, DocNode)>),
}

/// The ghost model of a document node.
pub enum Doc {
    Null,
    Bool(bool),
    Int(i64),
    BadNum(Seq<char>),
    Text(Seq<char>),
    List(Seq<Doc>),
    Pairs(Seq<(Doc, Doc)>),
}

/// The ghost view of a document node.
pub open spec fn doc_view(n: DocNode) -> Doc
    decreases n,
{
    match n {
        DocNode::Null => Doc::Null,
        DocNode::Bool(b) => Doc::Bool(b),
        DocNode::Int(i) => Doc::Int(i),
        DocNode::BadNum(t) => Doc::BadNum(t@),
        DocNode::Text(t) => Doc::Text(t@),
        DocNode::List(xs) => Doc::List(
            {
                proof {
                    assert(decreases_to!(xs => xs@));
                }
                Seq::new(
                    xs@.len(),
                    |i: int|
                        if 0 <= i < xs@.len() {
                            doc_view(xs@[i])
                        } else {
                            Doc::Null
                        },
                )
            },
        ),
        DocNode::Pairs(ps) => Doc::Pairs(
            {
                proof {
                    assert(decreases_to!(ps => ps@));
                }
                Seq::new(
                    ps@.len(),
                    |i: int|
                        if 0 <= i < ps@.len() {
                            (doc_view(ps@[i].0), doc_view(ps@[i].1))
                        } else {
                            (Doc::Null, Doc::Null)
                        },
                )
            },
        ),
    }
}

impl View for DocNode {
    type V = Doc;

    open spec fn view(&self) -> Doc {
        doc_view(*self)
    }
}

/// The document tree of a value: numbers become integer nodes, mapping
/// entries keep their insertion order.
pub open spec fn doc_of_val(v: Val) -> Doc
    decreases v,
{
    match v {
        Val::Null => Doc::Null,
        Val::Bool(b) => Doc::Bool(b),
        Val::Num(n) => Doc::Int(n),
        Val::Str(s) => Doc::Text(s),
        Val::Items(s) => Doc::List(docs_of_vals(s)),
        Val::Pairs(s) => Doc::Pairs(docpairs_of_entries(s)),
    }
}

/// The document trees of a sequence of values.
pub open spec fn docs_of_vals(s: Seq<Val>) -> Seq<Doc>
    decreases s,
{
    Seq::new(
        s.len(),
        |i: int|
            if 0 <= i < s.len() {
                doc_of_val(s[i])
            } else {
                Doc::Null
            },
    )
}

/// The document trees of an entry list, in insertion order.
pub open spec fn docpairs_of_entries(s: Seq<(Val, Val)>) -> Seq<(Doc, Doc)>
    decreases s,
{
    Seq::new(
        s.len(),
        |i: int|
            if 0 <= i < s.len() {
                (doc_of_val(s[i].0), doc_of_val(s[i].1))
            } else {
                (Doc::Null, Doc::Null)
            },
    )
}

/// The value of a document tree: `Err` carries the textual form of the first
/// unrepresentable number, in document order (keys before values). Mapping
/// entries are inserted one by one, so a duplicate key overwrites the earlier
/// value in place.
pub open spec fn val_of_doc(d: Doc) -> Result<Val, Seq<char>>
    decreases d,
{
    match d {
        Doc::Null => Ok(Val::Null),
        Doc::Bool(b) => Ok(Val::Bool(b)),
        Doc::Int(n) => Ok(Val::Num(n)),
        Doc::BadNum(t) => Err(t),
        Doc::Text(s) => Ok(Val::Str(s)),
        Doc::List(s) => match vals_of_docs(s) {
            Ok(vs) => Ok(Val::Items(vs)),
            Err(t) => Err(t),
        },
        Doc::Pairs(s) => match entries_of_docs(s, Seq::empty()) {
            Ok(es) => Ok(Val::Pairs(es)),
            Err(t) => Err(t),
        },
    }
}

/// The values of a sequence of document nodes, or the first failure.
pub open spec fn vals_of_docs(s: Seq<Doc>) -> Result<Seq<Val>, Seq<char>>
    decreases s,
{
    if s.len() == 0 {
        Ok(Seq::empty())
    } else {
        match val_of_doc(s[0]) {
            Err(t) => Err(t),
            Ok(v) => match vals_of_docs(s.drop_first()) {
                Err(t) => Err(t),
                Ok(vs) => Ok(seq![v] + vs),
            },
        }
    }
}

/// Folds the entries of a document mapping into an entry list, inserting in
/// document order, or the first failure.
pub open spec fn entries_of_docs(s: Seq<(Doc, Doc)>, acc: Seq<(Val, Val)>) -> Result<
    Seq<(Val, Val)>,
    Seq<char>,
>
    decreases s,
{
    if s.len() == 0 {
        Ok(acc)
    } else {
        match val_of_doc(s[0].0) {
            Err(t) => Err(t),
            Ok(k) => match val_of_doc(s[0].1) {
                Err(t) => Err(t),
                Ok(v) => entries_of_docs(s.drop_first(), spec_insert_pair(acc, k, v)),
            },
        }
    }
}

impl YamlValue {
    /// Builds a value from a parsed document node: null, booleans, integer
    /// numbers, strings and sequences carry over; a mapping node is built by
    /// inserting its entries in document order (a duplicate key overwrites
    /// the earlier value in place); a number the parser could not represent
    /// as a 64-bit signed integer makes the whole construction fail with
    /// `UnsupportedNumber` and the number's textual form.
    pub fn new(node: &DocNode) -> (r: Result<YamlValue, ValueError>)
        ensures
            val_of_doc(node@) matches Ok(v) ==> (r matches Ok(yv) && yv@ == v
                && yv.wf()),
            val_of_doc(node@) matches Err(t) ==> (r matches Err(e)
                && e matches ValueError::UnsupportedNumber(txt) && txt@ == t),
        decreases *node,
    {
        match node {
            DocNode::Null => Ok(YamlValue::Null),
            DocNode::Bool(b) => Ok(YamlValue::Bool(*b)),
            DocNode::Int(n) => Ok(YamlValue::Number(*n)),
            DocNode::BadNum(t) => Err(ValueError::UnsupportedNumber(t.clone())),
            DocNode::Text(t) => Ok(YamlValue::String(t.clone())),
            DocNode::List(xs) => {
                let ghost dv = node@->List_0;
                let mut out: Vec<YamlValue> = Vec::new();
                let mut i: usize = 0;
                proof {
                    assert(dv.skip(0) =~= dv);
                    assert(items_view_at(out@) =~= Seq::<Val>::empty());
                }
                while i < xs.len()
                    invariant
                        i <= xs@.len(),
                        dv == doc_view(*node)->List_0,
                        *node == DocNode::List(*xs),
                        dv.len() == xs@.len(),
                        forall|j: int| 0 <= j < dv.len() ==> dv[j] == doc_view(xs@[j]),
                        out@.len() == i,
                        items_wf(items_view_at(out@)),
                        vals_of_docs(dv) == (match vals_of_docs(dv.skip(i as int)) {
                            Ok(vs) => Ok::<Seq<Val>, Seq<char>>(
                                items_view_at(out@) + vs,
                            ),
                            Err(t) => Err::<Seq<Val>, Seq<char>>(t),
                        }),
                    decreases xs@.len() - i,
                {
                    proof {
                        assert(decreases_to!(*xs => xs@));
                        assert(dv.skip(i as int)[0] == dv[i as int]);
                        assert(dv.skip(i as int).drop_first() =~= dv.skip(i as int + 1));
                    }
                    let c = Self::new(&xs[i]);
                    match c {
                        Ok(v) => {
                            let ghost prev = out@;
                            out.push(v);
                            i = i + 1;
                            proof {
                                assert(items_view_at(out@) =~= items_view_at(prev)
                                    + seq![v@]);
                                assert(forall|x: int|
                                    0 <= x < out@.len() ==> items_view_at(out@)[x]
                                        == val_view(#[trigger] out@[x]));
                                assert(items_wf(items_view_at(out@)));
                                assert(items_view_at(prev) + (seq![v@] + vals_of_docs(
                                    dv.skip(i as int),
                                )->Ok_0) =~= (items_view_at(prev) + seq![v@])
                                    + vals_of_docs(dv.skip(i as int))->Ok_0);
                            }
                        },
                        Err(e) => {
                            return Err(e);
                        },
                    }
                }
                proof {
                    assert(dv.skip(i as int).len() == 0);
                    assert(vals_of_docs(dv.skip(i as int)) == Ok::<Seq<Val>, Seq<char>>(
                        Seq::empty(),
                    ));
                    assert(items_view_at(out@) + Seq::<Val>::empty() =~= items_view_at(
                        out@,
                    ));
                }
                Ok(YamlValue::Sequence(out))
            },
            DocNode::Pairs(ps) => {
                let ghost dp = node@->Pairs_0;
                let mut m = Mapping::new();
                let mut i: usize = 0;
                proof {
                    assert(dp.skip(0) =~= dp);
                }
                while i < ps.len()
                    invariant
                        i <= ps@.len(),
                        dp == doc_view(*node)->Pairs_0,
                        *node == DocNode::Pairs(*ps),
                        dp.len() == ps@.len(),
                        forall|j: int|
                            0 <= j < dp.len() ==> dp[j] == (
                            doc_view(#[trigger] ps@[j].0),
                            doc_view(ps@[j].1),
                            ),
                        m.wf(),
                        entries_of_docs(dp, Seq::empty()) == entries_of_docs(
                            dp.skip(i as int),
                            m@,
                        ),
                    decreases ps@.len() - i,
                {
                    proof {
                        assert(decreases_to!(*ps => ps@));
                        assert(dp.skip(i as int)[0] == dp[i as int]);
                        assert(dp.skip(i as int).drop_first() =~= dp.skip(i as int + 1));
                    }
                    let k = match Self::new(&ps[i].0) {
                        Ok(k) => k,
                        Err(e) => {
                            return Err(e);
                        },
                    };
                    let v = match Self::new(&ps[i].1) {
                        Ok(v) => v,
                        Err(e) => {
                            return Err(e);
                        },
                    };
                    m.insert(k, v);
                    i = i + 1;
                }
                proof {
                    assert(dp.skip(i as int).len() == 0);
                }
                Ok(YamlValue::Mapping(m))
            },
        }
    }

    /// The document tree of this value: the inverse of `new`, with mapping
    /// entries emitted in insertion order.
    pub fn to_document_node(&self) -> (r: DocNode)
        ensures
            r@ == doc_of_val(self@),
        decreases *self,
    {
        match self {
            YamlValue::Null => DocNode::Null,
            YamlValue::Bool(b) => DocNode::Bool(*b),
            YamlValue::Number(n) => DocNode::Int(*n),
            YamlValue::String(s) => DocNode::Text(s.clone()),
            YamlValue::Sequence(xs) => {
                let ghost vv = val_view(*self)->Items_0;
                let mut out: Vec<DocNode> = Vec::new();
                let mut i: usize = 0;
                while i < xs.len()
                    invariant
                        i <= xs@.len(),
                        *self == YamlValue::Sequence(*xs),
                        vv == val_view(*self)->Items_0,
                        vv.len() == xs@.len(),
                        forall|j: int| 0 <= j < vv.len() ==> vv[j] == val_view(xs@[j]),
                        out@.len() == i,
                        forall|j: int|
                            0 <= j < i ==> doc_view(#[trigger] out@[j]) == doc_of_val(
                                vv[j],
                            ),
                    decreases xs@.len() - i,
                {
                    proof {
                        assert(decreases_to!(*xs => xs@));
                    }
                    let d = xs[i].to_document_node();
                    out.push(d);
                    i = i + 1;
                }
                let r = DocNode::List(out);
                proof {
                    assert(r@->List_0 =~= doc_of_val(self@)->List_0);
                }
                r
            },
            YamlValue::Mapping(m) => {
                let ghost ev = val_view(*self)->Pairs_0;
                let mut out: Vec<(DocNode, DocNode)> = Vec::new();
                let mut i: usize = 0;
                while i < m.entries.len()
                    invariant
                        i <= m.entries@.len(),
                        *self == YamlValue::Mapping(*m),
                        ev == val_view(*self)->Pairs_0,
                        ev.len() == m.entries@.len(),
                        forall|j: int|
                            0 <= j < ev.len() ==> ev[j] == pair_view(
                                #[trigger] m.entries@[j],
                            ),
                        out@.len() == i,
                        forall|j: int|
                            0 <= j < i ==> (
                            doc_view(#[trigger] out@[j].0),
                            doc_view(out@[j].1),
                            ) == (doc_of_val(ev[j].0), doc_of_val(ev[j].1)),
                    decreases m.entries@.len() - i,
                {
                    proof {
                        assert(decreases_to!(*m => m.entries));
                        assert(decreases_to!(m.entries => m.entries@));
                    }
                    let dk = m.entries[i].0.to_document_node();
                    let dv = m.entries[i].1.to_document_node();
                    out.push((dk, dv));
                    i = i + 1;
                }
                let r = DocNode::Pairs(out);
                proof {
                    assert(r@->Pairs_0 =~= doc_of_val(self@)->Pairs_0);
                }
                r
            },
        }
    }
}

/// Law: round trip. Converting a well-formed value to its document tree and
/// back reproduces the value exactly — in particular a mapping's entries come
/// back in the same order, because its keys are pairwise distinct. (The lossy
/// direction lies before the document tree: a fractional document number is
/// truncated once, when the parser builds the `DocNode`.)
pub proof fn lemma_document_round_trip(v: Val)
    requires
        wf_val(v),
    ensures
        val_of_doc(doc_of_val(v)) == Ok::<Val, Seq<char>>(v),
    decreases crate::model::depth(v), 0nat, 0nat,
{
    match v {
        Val::Items(s) => {
            lemma_round_items(s);
        },
        Val::Pairs(s) => {
            lemma_round_pairs(s, 0);
            assert(docpairs_of_entries(s).skip(0) =~= docpairs_of_entries(s));
            assert(s.take(0) =~= Seq::<(Val, Val)>::empty());
        },
        _ => {},
    }
}

proof fn lemma_round_items(s: Seq<Val>)
    requires
        items_wf(s),
    ensures
        vals_of_docs(docs_of_vals(s)) == Ok::<Seq<Val>, Seq<char>>(s),
    decreases crate::model::depth_items(s), s.len(), 1nat,
{
    if s.len() > 0 {
        crate::model::lemma_depth_items_bound(s, 0);
        lemma_document_round_trip(s[0]);
        crate::order::lemma_depth_items_drop(s);
        assert(items_wf(s.drop_first())) by {
            assert(forall|i: int|
                0 <= i < s.drop_first().len() ==> s.drop_first()[i] == s[i + 1]);
        }
        lemma_round_items(s.drop_first());
        assert(docs_of_vals(s).drop_first() =~= docs_of_vals(s.drop_first()));
        assert(docs_of_vals(s)[0] == doc_of_val(s[0]));
        assert(seq![s[0]] + s.drop_first() =~= s);
    } else {
        assert(docs_of_vals(s).len() == 0);
        assert(s =~= Seq::<Val>::empty());
    }
}

proof fn lemma_round_pairs(all: Seq<(Val, Val)>, i: int)
    requires
        keys_distinct(all),
        entries_wf(all),
        0 <= i <= all.len(),
    ensures
        entries_of_docs(docpairs_of_entries(all).skip(i), all.take(i)) == Ok::<
            Seq<(Val, Val)>,
            Seq<char>,
        >(all),
    decreases crate::model::depth_pairs(all), all.len() - i, 1nat,
{
    let ds = docpairs_of_entries(all);
    if i == all.len() {
        assert(ds.skip(i).len() == 0);
        assert(all.take(i) =~= all);
    } else {
        crate::model::lemma_depth_pairs_bound(all, i);
        lemma_document_round_trip(all[i].0);
        lemma_document_round_trip(all[i].1);
        assert(ds.skip(i)[0] == ds[i]);
        assert(ds[i] == (doc_of_val(all[i].0), doc_of_val(all[i].1)));
        // the key is fresh in the prefix, so the insertion appends
        let k = all[i].0;
        lemma_spec_find(all.take(i), k);
        if spec_find(all.take(i), k) >= 0 {
            let j = spec_find(all.take(i), k);
            assert(all.take(i)[j] == all[j]);
            assert(equiv(all[j].0, k));
            assert(!equiv(all[j].0, all[i].0));
            assert(false);
        }
        assert(spec_insert_pair(all.take(i), k, all[i].1) == all.take(i).push(all[i]));
        assert(all.take(i).push(all[i]) =~= all.take(i + 1));
        assert(ds.skip(i).drop_first() =~= ds.skip(i + 1));
        lemma_round_pairs(all, i + 1);
    }
}

} // verus!
