//! The parsed data model: nodes and game trees, together with their
//! mathematical models and well-formedness conditions.

use vstd::prelude::*;

use crate::grammar::is_upper;
use crate::grammar::props_to_map;

verus! {

/// The model of one property: an identifier with its list of values.
pub type PropModel = (Seq<char>, Seq<Seq<char>>);

/// The model of a node: a mapping from identifier to value list.
pub type NodeModel = Map<Seq<char>, Seq<Seq<char>>>;

/// The model of a game tree: a non-empty trunk of nodes and a list of
/// child trees.
pub ghost struct TreeModel {
    pub trunk: Seq<NodeModel>,
    pub children: Seq<TreeModel>,
}

/// A well-formed identifier: a non-empty run of uppercase ASCII letters.
pub open spec fn ident_wf(k: Seq<char>) -> bool {
    k.len() >= 1 && (forall|i: int| 0 <= i < k.len() ==> is_upper(k[i]))
}

/// A well-formed node model: every identifier is well formed and maps to at
/// least one value.
pub open spec fn node_model_wf(m: NodeModel) -> bool {
    &&& m.dom().finite()
    &&& forall|k: Seq<char>| #[trigger] m.dom().contains(k) ==> ident_wf(k) && m[k].len() >= 1
}

/// A well-formed forest of tree models.
pub open spec fn forest_model_wf(ts: Seq<TreeModel>) -> bool
    decreases ts,
{
    ts.len() == 0 || (tree_model_wf(ts[0]) && forest_model_wf(ts.subrange(1, ts.len() as int)))
}

/// A well-formed tree model: a non-empty trunk of well-formed nodes and
/// well-formed children.
pub open spec fn tree_model_wf(t: TreeModel) -> bool
    decreases t,
{
    &&& t.trunk.len() >= 1
    &&& forall|i: int| 0 <= i < t.trunk.len() ==> node_model_wf(#[trigger] t.trunk[i])
    &&& forest_model_wf(t.children)
}

/// The model of a run of stored properties, in storage order.
pub open spec fn props_seq_view(ps: Seq<(String, Vec<String>)>) -> Seq<PropModel> {
    Seq::new(ps.len(), |i: int| (ps[i].0@, ps[i].1.deep_view()))
}

/// No two stored properties share an identifier.
pub open spec fn props_keys_distinct(ps: Seq<PropModel>) -> bool {
    forall|i: int, j: int| 0 <= i < j < ps.len() ==> (#[trigger] ps[i].0) != (#[trigger] ps[j].0)
}

/// A key that occurs in no stored property is absent from the folded mapping.
pub proof fn lemma_props_to_map_absent(ps: Seq<PropModel>, k: Seq<char>)
    requires
        forall|i: int| 0 <= i < ps.len() ==> (#[trigger] ps[i]).0 != k,
    ensures
        !props_to_map(ps).dom().contains(k),
    decreases ps.len(),
{
    if ps.len() > 0 {
        assert forall|i: int| 0 <= i < ps.drop_last().len() implies (#[trigger] ps.drop_last()[
            i
        ]).0 != k by {
            assert(ps.drop_last()[i] == ps[i]);
        }
        lemma_props_to_map_absent(ps.drop_last(), k);
        assert(ps.last() == ps[ps.len() - 1]);
    }
}

/// With distinct keys, the folded mapping sends each stored key to its
/// stored value list.
pub proof fn lemma_props_to_map_found(ps: Seq<PropModel>, i: int)
    requires
        props_keys_distinct(ps),
        0 <= i < ps.len(),
    ensures
        props_to_map(ps).dom().contains(ps[i].0),
        props_to_map(ps)[ps[i].0] == ps[i].1,
    decreases ps.len(),
{
    if i == ps.len() - 1 {
        assert(ps.last() == ps[i]);
    } else {
        assert forall|a: int, b: int| 0 <= a < b < ps.drop_last().len() implies (
        #[trigger] ps.drop_last()[a]).0 != (#[trigger] ps.drop_last()[b]).0 by {
            assert(ps.drop_last()[a] == ps[a]);
            assert(ps.drop_last()[b] == ps[b]);
        }
        lemma_props_to_map_found(ps.drop_last(), i);
        assert(ps.drop_last()[i] == ps[i]);
        assert(ps.last() == ps[ps.len() - 1]);
        assert(ps[i].0 != ps[ps.len() - 1].0);
    }
}

/// With distinct keys, the folded mapping has exactly one entry per stored
/// property.
pub proof fn lemma_props_to_map_dom(ps: Seq<PropModel>)
    requires
        props_keys_distinct(ps),
    ensures
        props_to_map(ps).dom().finite(),
        props_to_map(ps).dom().len() == ps.len(),
    decreases ps.len(),
{
    broadcast use vstd::set::axiom_set_insert_len;

    if ps.len() > 0 {
        assert forall|a: int, b: int| 0 <= a < b < ps.drop_last().len() implies (
        #[trigger] ps.drop_last()[a]).0 != (#[trigger] ps.drop_last()[b]).0 by {
            assert(ps.drop_last()[a] == ps[a]);
            assert(ps.drop_last()[b] == ps[b]);
        }
        lemma_props_to_map_dom(ps.drop_last());
        assert forall|i: int| 0 <= i < ps.drop_last().len() implies (#[trigger] ps.drop_last()[
        i]).0 != ps.last().0 by {
            assert(ps.drop_last()[i] == ps[i]);
            assert(ps.last() == ps[ps.len() - 1]);
        }
        lemma_props_to_map_absent(ps.drop_last(), ps.last().0);
    }
}

/// With distinct keys, removing the one property that stores key `k` and
/// folding equals folding everything and then dropping `k` from the mapping.
pub proof fn lemma_props_to_map_remove(ps: Seq<PropModel>, i: int)
    requires
        props_keys_distinct(ps),
        0 <= i < ps.len(),
    ensures
        props_to_map(ps.remove(i)) == props_to_map(ps).remove(ps[i].0),
    decreases ps.len(),
{
    let k = ps[i].0;
    if i == ps.len() - 1 {
        assert(ps.remove(i) =~= ps.drop_last());
        assert forall|j: int| 0 <= j < ps.drop_last().len() implies (#[trigger] ps.drop_last()[
        j]).0 != k by {
            assert(ps.drop_last()[j] == ps[j]);
        }
        lemma_props_to_map_absent(ps.drop_last(), k);
        assert(ps.last() == ps[i]);
        assert(props_to_map(ps) == props_to_map(ps.drop_last()).insert(k, ps[i].1));
        assert(props_to_map(ps).remove(k) =~= props_to_map(ps.drop_last()));
    } else {
        let pl = ps.drop_last();
        let last = ps.last();
        assert(last == ps[ps.len() - 1]);
        assert forall|a: int, b: int| 0 <= a < b < pl.len() implies (#[trigger] pl[a]).0 != (
        #[trigger] pl[b]).0 by {
            assert(pl[a] == ps[a]);
            assert(pl[b] == ps[b]);
        }
        assert(pl[i] == ps[i]);
        lemma_props_to_map_remove(pl, i);
        assert(ps.remove(i).len() == ps.len() - 1);
        assert(ps.remove(i).drop_last() =~= pl.remove(i));
        assert(ps.remove(i).last() == last);
        assert(props_to_map(ps.remove(i)) == props_to_map(pl.remove(i)).insert(last.0, last.1));
        assert(last.0 != k);
        assert(props_to_map(pl).remove(k).insert(last.0, last.1) =~= props_to_map(pl).insert(
            last.0,
            last.1,
        ).remove(k));
        assert(props_to_map(ps).remove(k) == props_to_map(pl).insert(last.0, last.1).remove(k));
    }
}

/// Compares two string slices character by character.
pub fn str_eq(a: &str, b: &str) -> (r: bool)
    ensures
        r == (a@ == b@),
{
    let na = a.unicode_len();
    let nb = b.unicode_len();
    if na != nb {
        proof {
            if a@ == b@ {
                assert(a@.len() == b@.len());
            }
        }
        return false;
    }
    let mut i: usize = 0;
    while i < na
        invariant
            na == a@.len(),
            na == b@.len(),
            0 <= i <= na,
            forall|j: int| 0 <= j < i ==> a@[j] == b@[j],
        decreases na - i,
    {
        if a.get_char(i) != b.get_char(i) {
            return false;
        }
        i += 1;
    }
    proof {
        assert(a@ =~= b@);
    }
    true
}

/// Finds the stored property whose identifier is `key`, if any.
fn find_key(ps: &Vec<(String, Vec<String>)>, key: &str) -> (r: Option<usize>)
    ensures
        match r {
            Some(i) => i < ps@.len() && props_seq_view(ps@)[i as int].0 == key@,
            None => forall|j: int| 0 <= j < ps@.len() ==> props_seq_view(ps@)[j].0 != key@,
        },
{
    let mut i: usize = 0;
    while i < ps.len()
        invariant
            0 <= i <= ps@.len(),
            forall|j: int| 0 <= j < i ==> props_seq_view(ps@)[j].0 != key@,
        decreases ps@.len() - i,
    {
        let p = &ps[i];
        if str_eq(p.0.as_str(), key) {
            return Some(i);
        }
        i += 1;
    }
    None
}

/// One node of a game record: a mapping from property identifiers to their
/// value lists.  A repeated identifier keeps only its last occurrence.
#[derive(Debug, PartialEq)]
pub struct SGFNode {
    properties: Vec<(String, Vec<String>)>,
}

impl View for SGFNode {
    type V = NodeModel;

    closed spec fn view(&self) -> NodeModel {
        props_to_map(props_seq_view(self.properties@))
    }
}

impl SGFNode {
    /// Well-formedness: identifiers are distinct, non-empty and uppercase,
    /// and every value list is non-empty.
    pub closed spec fn wf(&self) -> bool {
        let ps = props_seq_view(self.properties@);
        &&& props_keys_distinct(ps)
        &&& forall|i: int| 0 <= i < ps.len() ==> ident_wf((#[trigger] ps[i]).0) && ps[i].1.len() >= 1
    }

    /// A node with no properties.
    pub(crate) fn empty() -> (r: SGFNode)
        ensures
            r.wf(),
            r@ == Map::<Seq<char>, Seq<Seq<char>>>::empty(),
    {
        let r = SGFNode { properties: Vec::new() };
        proof {
            assert(props_seq_view(r.properties@) =~= Seq::<PropModel>::empty());
        }
        r
    }

    /// Records one property.  An identifier already present is overwritten:
    /// the last occurrence wins.
    pub(crate) fn insert_prop(&mut self, key: String, vals: Vec<String>)
        requires
            old(self).wf(),
            ident_wf(key@),
            vals.deep_view().len() >= 1,
        ensures
            final(self).wf(),
            final(self)@ == old(self)@.insert(key@, vals.deep_view()),
    {
        let ghost ops = props_seq_view(old(self).properties@);
        let found = find_key(&self.properties, key.as_str());
        match found {
            Some(at) => {
                proof {
                    assert(ops[at as int].0 == key@);
                    lemma_props_to_map_remove(ops, at as int);
                }
                self.properties.remove(at);
                let ghost rps = props_seq_view(self.properties@);
                proof {
                    assert(rps =~= ops.remove(at as int)) by {
                        assert forall|j: int| 0 <= j < rps.len() implies rps[j] == ops.remove(
                            at as int,
                        )[j] by {
                            assert(self.properties@[j] == old(self).properties@.remove(
                                at as int,
                            )[j]);
                        }
                    }
                }
                self.properties.push((key, vals));
                proof {
                    let nps = props_seq_view(self.properties@);
                    assert(nps =~= rps.push((key@, vals.deep_view()))) by {
                        assert forall|j: int| 0 <= j < nps.len() implies nps[j] == rps.push(
                            (key@, vals.deep_view()),
                        )[j] by {
                            if j < rps.len() {
                                assert(self.properties@[j] == old(self).properties@.remove(
                                    at as int,
                                )[j]);
                            }
                        }
                    }
                    assert(nps.drop_last() =~= rps);
                    assert(props_to_map(nps) == props_to_map(rps).insert(key@, vals.deep_view()));
                    assert(props_to_map(rps) == props_to_map(ops).remove(key@));
                    assert(props_to_map(ops).remove(key@).insert(key@, vals.deep_view())
                        =~= props_to_map(ops).insert(key@, vals.deep_view()));
                    assert forall|a: int, b: int| 0 <= a < b < nps.len() implies (
                    #[trigger] nps[a]).0 != (#[trigger] nps[b]).0 by {
                        if b < rps.len() {
                            assert(rps[a] == if a < at { ops[a] } else { ops[a + 1] });
                            assert(rps[b] == if b < at { ops[b] } else { ops[b + 1] });
                        } else {
                            assert(nps[b].0 == key@);
                            assert(rps[a] == if a < at { ops[a] } else { ops[a + 1] });
                            assert(ops[at as int].0 == key@);
                        }
                    }
                    assert forall|j: int| 0 <= j < nps.len() implies ident_wf(
                        (#[trigger] nps[j]).0,
                    ) && nps[j].1.len() >= 1 by {
                        if j < rps.len() {
                            assert(rps[j] == if j < at { ops[j] } else { ops[j + 1] });
                        }
                    }
                }
            },
            None => {
                self.properties.push((key, vals));
                proof {
                    let nps = props_seq_view(self.properties@);
                    assert(nps =~= ops.push((key@, vals.deep_view()))) by {
                        assert forall|j: int| 0 <= j < nps.len() implies nps[j] == ops.push(
                            (key@, vals.deep_view()),
                        )[j] by {
                            if j < ops.len() {
                                assert(self.properties@[j] == old(self).properties@[j]);
                            }
                        }
                    }
                    assert(nps.drop_last() =~= ops);
                    assert(props_to_map(nps) == props_to_map(ops).insert(key@, vals.deep_view()));
                    assert forall|a: int, b: int| 0 <= a < b < nps.len() implies (
                    #[trigger] nps[a]).0 != (#[trigger] nps[b]).0 by {
                        if b == ops.len() {
                            assert(nps[a] == ops[a]);
                            assert(nps[b].0 == key@);
                        }
                    }
                }
            },
        }
    }

    /// Looks up the value list recorded for `key`, if any.
    pub fn get(&self, key: &str) -> (r: Option<&Vec<String>>)
        ensures
            self.wf() ==> match r {
                Some(v) => self@.dom().contains(key@) && v.deep_view() == self@[key@],
                None => !self@.dom().contains(key@),
            },
    {
        let mut i: usize = 0;
        while i < self.properties.len()
            invariant
                0 <= i <= self.properties@.len(),
                forall|j: int| 0 <= j < i ==> props_seq_view(self.properties@)[j].0 != key@,
            decreases self.properties@.len() - i,
        {
            let p = &self.properties[i];
            if str_eq(p.0.as_str(), key) {
                proof {
                    if self.wf() {
                        lemma_props_to_map_found(props_seq_view(self.properties@), i as int);
                    }
                }
                return Some(&p.1);
            }
            i += 1;
        }
        proof {
            lemma_props_to_map_absent(props_seq_view(self.properties@), key@);
        }
        None
    }

    /// The number of properties recorded in this node.
    pub fn property_count(&self) -> (n: usize)
        ensures
            self.wf() ==> n == self@.dom().len(),
    {
        proof {
            if self.wf() {
                lemma_props_to_map_dom(props_seq_view(self.properties@));
            }
        }
        self.properties.len()
    }
}

/// One game tree: a non-empty trunk of nodes followed by zero or more
/// child game trees.
#[derive(Debug, PartialEq)]
pub struct SGFTree {
    pub nodes: Vec<SGFNode>,
    pub children: Vec<SGFTree>,
}

/// The model of a trunk of nodes.
pub open spec fn trunk_view(ns: Seq<SGFNode>) -> Seq<NodeModel> {
    Seq::new(ns.len(), |i: int| ns[i]@)
}

/// The model of a game tree.
pub open spec fn tree_view(t: SGFTree) -> TreeModel
    decreases t,
{
    TreeModel { trunk: trunk_view(t.nodes@), children: forest_view(t.children@) }
}

/// The models of a forest of game trees.
pub open spec fn forest_view(ts: Seq<SGFTree>) -> Seq<TreeModel>
    decreases ts,
{
    if ts.len() == 0 {
        Seq::empty()
    } else {
        seq![tree_view(ts[0])].add(forest_view(ts.subrange(1, ts.len() as int)))
    }
}

impl View for SGFTree {
    type V = TreeModel;

    open spec fn view(&self) -> TreeModel {
        tree_view(*self)
    }
}

impl SGFTree {
    /// Well-formedness: the trunk is non-empty and every node and child
    /// tree is well formed.
    pub open spec fn wf(&self) -> bool
        decreases *self,
    {
        &&& self.nodes@.len() >= 1
        &&& forall|i: int| 0 <= i < self.nodes@.len() ==> (#[trigger] self.nodes@[i]).wf()
        &&& forest_wf(self.children@)
    }
}

/// Well-formedness of a forest of game trees.
pub open spec fn forest_wf(ts: Seq<SGFTree>) -> bool
    decreases ts,
{
    ts.len() == 0 || (ts[0].wf() && forest_wf(ts.subrange(1, ts.len() as int)))
}

/// A forest has one model per tree.
pub proof fn lemma_forest_view_len(ts: Seq<SGFTree>)
    ensures
        forest_view(ts).len() == ts.len(),
    decreases ts.len(),
{
    if ts.len() > 0 {
        lemma_forest_view_len(ts.subrange(1, ts.len() as int));
    }
}

/// Appending a tree appends its model.
pub proof fn lemma_forest_view_push(ts: Seq<SGFTree>, t: SGFTree)
    ensures
        forest_view(ts.push(t)) == forest_view(ts).push(tree_view(t)),
    decreases ts.len(),
{
    if ts.len() == 0 {
        assert(ts.push(t)[0] == t);
        assert(ts.push(t).subrange(1, 1) =~= Seq::<SGFTree>::empty());
        assert(forest_view(Seq::<SGFTree>::empty()) =~= Seq::<TreeModel>::empty());
        assert(forest_view(ts.push(t)) =~= forest_view(ts).push(tree_view(t)));
    } else {
        let sub = ts.subrange(1, ts.len() as int);
        lemma_forest_view_push(sub, t);
        lemma_forest_view_len(sub);
        lemma_forest_view_len(ts);
        assert(ts.push(t).subrange(1, ts.push(t).len() as int) =~= sub.push(t));
        assert(ts.push(t)[0] == ts[0]);
        assert(forest_view(ts.push(t)) == seq![tree_view(ts[0])].add(forest_view(sub.push(t))));
        assert(forest_view(ts) == seq![tree_view(ts[0])].add(forest_view(sub)));
        assert(forest_view(ts.push(t)) =~= forest_view(ts).push(tree_view(t)));
    }
}

/// Appending a well-formed tree keeps a forest well formed.
pub proof fn lemma_forest_wf_push(ts: Seq<SGFTree>, t: SGFTree)
    requires
        forest_wf(ts),
        t.wf(),
    ensures
        forest_wf(ts.push(t)),
    decreases ts.len(),
{
    if ts.len() == 0 {
        assert(ts.push(t)[0] == t);
        assert(ts.push(t).subrange(1, 1) =~= Seq::<SGFTree>::empty());
        assert(forest_wf(Seq::<SGFTree>::empty()));
    } else {
        lemma_forest_wf_push(ts.subrange(1, ts.len() as int), t);
        assert(ts.push(t).subrange(1, ts.push(t).len() as int) =~= ts.subrange(
            1,
            ts.len() as int,
        ).push(t));
        assert(ts.push(t)[0] == ts[0]);
    }
}

/// Every tree of a well-formed forest is well formed.
pub proof fn lemma_forest_wf_index(ts: Seq<SGFTree>, i: int)
    requires
        forest_wf(ts),
        0 <= i < ts.len(),
    ensures
        ts[i].wf(),
    decreases ts.len(),
{
    if i > 0 {
        lemma_forest_wf_index(ts.subrange(1, ts.len() as int), i - 1);
        assert(ts.subrange(1, ts.len() as int)[i - 1] == ts[i]);
    }
}

} // verus!
