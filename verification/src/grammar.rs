//! The grammar, written as mathematical functions over `Seq<char>`.
//!
//! Each `spec_parse_*` function consumes input starting at a cursor position
//! and yields the parsed model value together with the position just past the
//! consumed text, or `None` on a mismatch.  The executable parsers in
//! `crate::parser` are proved to return exactly what these functions say.

use vstd::prelude::*;

use crate::tree::forest_model_wf;
use crate::tree::ident_wf;
use crate::tree::node_model_wf;
use crate::tree::tree_model_wf;
use crate::tree::NodeModel;
use crate::tree::PropModel;
use crate::tree::TreeModel;

verus! {

/// An identifier character: an uppercase ASCII letter.
pub open spec fn is_upper(c: char) -> bool {
    65 <= c as u32 <= 90
}

/// Decodes the escaped body of a value up to and including the closing `]`.
/// Characters other than `\` and `]` are copied verbatim; `\]` decodes to a
/// literal `]`; any other use of `\` (including a trailing `\`) is a mismatch,
/// as is a missing closing `]`.
pub open spec fn spec_value_body(s: Seq<char>, pos: int) -> Option<(Seq<char>, int)>
    decreases s.len() - pos,
{
    if pos < 0 || pos >= s.len() {
        None
    } else if s[pos] == ']' {
        Some((Seq::empty(), pos + 1))
    } else if s[pos] == '\\' {
        if pos + 1 < s.len() && s[pos + 1] == ']' {
            match spec_value_body(s, pos + 2) {
                Some((v, p)) => Some((seq![']'].add(v), p)),
                None => None,
            }
        } else {
            None
        }
    } else {
        match spec_value_body(s, pos + 1) {
            Some((v, p)) => Some((seq![s[pos]].add(v), p)),
            None => None,
        }
    }
}

/// One bracketed value: `[`, escaped body, `]`; yields the decoded body.
pub open spec fn spec_parse_value(s: Seq<char>, pos: int) -> Option<(Seq<char>, int)> {
    if 0 <= pos < s.len() && s[pos] == '[' {
        spec_value_body(s, pos + 1)
    } else {
        None
    }
}

/// The position just past the run of uppercase letters starting at `pos`.
pub open spec fn upper_end(s: Seq<char>, pos: int) -> int
    decreases s.len() - pos,
{
    if 0 <= pos < s.len() && is_upper(s[pos]) {
        upper_end(s, pos + 1)
    } else {
        pos
    }
}

/// One property identifier: one or more uppercase ASCII letters.
pub open spec fn spec_parse_identifier(s: Seq<char>, pos: int) -> Option<(Seq<char>, int)> {
    let end = upper_end(s, pos);
    if pos < end {
        Some((s.subrange(pos, end), end))
    } else {
        None
    }
}

/// Zero or more consecutive values (the repetition inside a property).
pub open spec fn spec_parse_values(s: Seq<char>, pos: int) -> (Seq<Seq<char>>, int)
    decreases s.len() - pos,
{
    match spec_parse_value(s, pos) {
        Some((v, p)) => {
            if pos < p <= s.len() {
                let (rest, q) = spec_parse_values(s, p);
                (seq![v].add(rest), q)
            } else {
                // never reached: a value consumes at least two characters
                (seq![v], p)
            }
        },
        None => (Seq::empty(), pos),
    }
}

/// One property: an identifier followed by one or more values.
pub open spec fn spec_parse_property(s: Seq<char>, pos: int) -> Option<(PropModel, int)> {
    match spec_parse_identifier(s, pos) {
        Some((id, p)) => {
            let (vals, q) = spec_parse_values(s, p);
            if vals.len() >= 1 {
                Some(((id, vals), q))
            } else {
                None
            }
        },
        None => None,
    }
}

/// Zero or more consecutive properties (the repetition inside a node).
pub open spec fn spec_parse_properties(s: Seq<char>, pos: int) -> (Seq<PropModel>, int)
    decreases s.len() - pos,
{
    match spec_parse_property(s, pos) {
        Some((pr, p)) => {
            if pos < p <= s.len() {
                let (rest, q) = spec_parse_properties(s, p);
                (seq![pr].add(rest), q)
            } else {
                // never reached: a property consumes at least one character
                (seq![pr], p)
            }
        },
        None => (Seq::empty(), pos),
    }
}

/// Folds a run of properties into a mapping; a repeated identifier keeps only
/// its last occurrence.
pub open spec fn props_to_map(props: Seq<PropModel>) -> NodeModel
    decreases props.len(),
{
    if props.len() == 0 {
        Map::empty()
    } else {
        props_to_map(props.drop_last()).insert(props.last().0, props.last().1)
    }
}

/// One node: `;` followed by zero or more properties.
pub open spec fn spec_parse_node(s: Seq<char>, pos: int) -> Option<(NodeModel, int)> {
    if 0 <= pos < s.len() && s[pos] == ';' {
        let (props, p) = spec_parse_properties(s, pos + 1);
        Some((props_to_map(props), p))
    } else {
        None
    }
}

/// Zero or more consecutive nodes.
pub open spec fn spec_parse_nodes(s: Seq<char>, pos: int) -> (Seq<NodeModel>, int)
    decreases s.len() - pos,
{
    match spec_parse_node(s, pos) {
        Some((n, p)) => {
            if pos < p <= s.len() {
                let (rest, q) = spec_parse_nodes(s, p);
                (seq![n].add(rest), q)
            } else {
                // never reached: a node consumes at least the `;`
                (seq![n], p)
            }
        },
        None => (Seq::empty(), pos),
    }
}

/// A sequence: one or more consecutive nodes.
pub open spec fn spec_parse_sequence(s: Seq<char>, pos: int) -> Option<(Seq<NodeModel>, int)> {
    let (nodes, p) = spec_parse_nodes(s, pos);
    if nodes.len() >= 1 {
        Some((nodes, p))
    } else {
        None
    }
}

/// One game tree: `(`, a mandatory sequence (the trunk), zero or more nested
/// game trees (the branches), `)`.
pub open spec fn spec_parse_game_tree(s: Seq<char>, pos: int) -> Option<(TreeModel, int)>
    decreases s.len() - pos, 0int,
{
    if 0 <= pos < s.len() && s[pos] == '(' {
        match spec_parse_sequence(s, pos + 1) {
            Some((trunk, p)) => {
                if pos < p <= s.len() {
                    let (children, q) = spec_parse_game_trees(s, p);
                    if 0 <= q < s.len() && s[q] == ')' {
                        Some((TreeModel { trunk, children }, q + 1))
                    } else {
                        None
                    }
                } else {
                    // never reached: a sequence consumes at least one character
                    None
                }
            },
            None => None,
        }
    } else {
        None
    }
}

/// Zero or more consecutive game trees.
pub open spec fn spec_parse_game_trees(s: Seq<char>, pos: int) -> (Seq<TreeModel>, int)
    decreases s.len() - pos, 1int,
{
    match spec_parse_game_tree(s, pos) {
        Some((t, p)) => {
            if pos < p <= s.len() {
                let (rest, q) = spec_parse_game_trees(s, p);
                (seq![t].add(rest), q)
            } else {
                // never reached: a game tree consumes at least its parentheses
                (seq![t], p)
            }
        },
        None => (Seq::empty(), pos),
    }
}

/// The whole document: one or more game trees that together consume the
/// entire input.  Trailing unconsumed input makes the whole parse fail.
pub open spec fn spec_parse_sgf(s: Seq<char>) -> Option<Seq<TreeModel>> {
    let (trees, p) = spec_parse_game_trees(s, 0);
    if trees.len() >= 1 && p == s.len() {
        Some(trees)
    } else {
        None
    }
}

/// A run of plain characters (neither `]` nor `\`) decodes to itself, up to
/// the closing `]` that follows it.
proof fn lemma_plain_body(s: Seq<char>, pos: int, n: int)
    requires
        0 <= pos,
        0 <= n,
        pos + n < s.len(),
        forall|i: int| pos <= i < pos + n ==> s[i] != ']' && s[i] != '\\',
        s[pos + n] == ']',
    ensures
        spec_value_body(s, pos) == Some((s.subrange(pos, pos + n), pos + n + 1)),
    decreases n,
{
    if n == 0 {
        assert(s.subrange(pos, pos) =~= Seq::<char>::empty());
    } else {
        lemma_plain_body(s, pos + 1, n - 1);
        assert(seq![s[pos]].add(s.subrange(pos + 1, pos + n)) =~= s.subrange(pos, pos + n));
    }
}

/// Law: a value whose body contains neither a literal `]` nor a `\` parses
/// to itself — parsing `[` + `v` + `]` from the start yields exactly `v` and
/// consumes the whole text.
pub proof fn lemma_plain_value_identity(v: Seq<char>)
    requires
        forall|i: int| 0 <= i < v.len() ==> v[i] != ']' && v[i] != '\\',
    ensures
        spec_parse_value(seq!['['] + v + seq![']'], 0) == Some((v, v.len() + 2int)),
{
    let s = seq!['['] + v + seq![']'];
    assert(s.len() == v.len() + 2);
    assert(s[0] == '[');
    assert forall|i: int| 1 <= i < 1 + v.len() implies s[i] != ']' && s[i] != '\\' by {
        assert(s[i] == v[i - 1]);
    }
    assert(s[1 + v.len() as int] == ']');
    lemma_plain_body(s, 1, v.len() as int);
    assert(s.subrange(1, 1 + v.len() as int) =~= v);
}

/// Law: parsing is deterministic — the outcome of the document grammar is a
/// function of the input alone, so two successful parses of the same input
/// yield equal models.
pub proof fn lemma_parse_deterministic(s: Seq<char>, t1: Seq<TreeModel>, t2: Seq<TreeModel>)
    requires
        spec_parse_sgf(s) == Some(t1),
        spec_parse_sgf(s) == Some(t2),
    ensures
        t1 == t2,
{
}

/// A value body that matches consumes at least one character and stays
/// within the input.
pub proof fn lemma_value_body_progress(s: Seq<char>, pos: int)
    requires
        spec_value_body(s, pos) is Some,
    ensures
        pos < (spec_value_body(s, pos)->0).1 <= s.len(),
    decreases s.len() - pos,
{
    if pos < 0 || pos >= s.len() {
    } else if s[pos] == ']' {
    } else if s[pos] == '\\' {
        lemma_value_body_progress(s, pos + 2);
    } else {
        lemma_value_body_progress(s, pos + 1);
    }
}

/// A value that matches consumes at least one character and stays within
/// the input.
pub proof fn lemma_value_progress(s: Seq<char>, pos: int)
    requires
        spec_parse_value(s, pos) is Some,
    ensures
        pos < (spec_parse_value(s, pos)->0).1 <= s.len(),
{
    lemma_value_body_progress(s, pos + 1);
}

/// The end of an uppercase run lies between the cursor and the end of the
/// input, and everything before it is uppercase.
pub proof fn lemma_upper_end(s: Seq<char>, pos: int)
    requires
        0 <= pos <= s.len(),
    ensures
        pos <= upper_end(s, pos) <= s.len(),
        forall|i: int| pos <= i < upper_end(s, pos) ==> is_upper(s[i]),
    decreases s.len() - pos,
{
    if pos < s.len() && is_upper(s[pos]) {
        lemma_upper_end(s, pos + 1);
    }
}

/// Value repetition never moves the cursor backwards or past the end.
pub proof fn lemma_values_progress(s: Seq<char>, pos: int)
    requires
        0 <= pos <= s.len(),
    ensures
        pos <= spec_parse_values(s, pos).1 <= s.len(),
    decreases s.len() - pos,
{
    match spec_parse_value(s, pos) {
        Some((v, p)) => {
            lemma_value_progress(s, pos);
            lemma_values_progress(s, p);
        },
        None => {},
    }
}

/// A property that matches consumes at least one character and stays within
/// the input.
pub proof fn lemma_property_progress(s: Seq<char>, pos: int)
    requires
        spec_parse_property(s, pos) is Some,
    ensures
        0 <= pos < s.len(),
        pos < (spec_parse_property(s, pos)->0).1 <= s.len(),
{
    lemma_upper_end(s, pos);
    lemma_values_progress(s, upper_end(s, pos));
}

/// Property repetition never moves the cursor backwards or past the end.
pub proof fn lemma_properties_progress(s: Seq<char>, pos: int)
    requires
        0 <= pos <= s.len(),
    ensures
        pos <= spec_parse_properties(s, pos).1 <= s.len(),
    decreases s.len() - pos,
{
    match spec_parse_property(s, pos) {
        Some((pr, p)) => {
            lemma_property_progress(s, pos);
            lemma_properties_progress(s, p);
        },
        None => {},
    }
}

/// A node that matches consumes at least one character and stays within the
/// input.
pub proof fn lemma_node_progress(s: Seq<char>, pos: int)
    requires
        spec_parse_node(s, pos) is Some,
    ensures
        pos < (spec_parse_node(s, pos)->0).1 <= s.len(),
{
    lemma_properties_progress(s, pos + 1);
}

/// Node repetition never moves the cursor backwards or past the end.
pub proof fn lemma_nodes_progress(s: Seq<char>, pos: int)
    requires
        0 <= pos <= s.len(),
    ensures
        pos <= spec_parse_nodes(s, pos).1 <= s.len(),
    decreases s.len() - pos,
{
    match spec_parse_node(s, pos) {
        Some((n, p)) => {
            lemma_node_progress(s, pos);
            lemma_nodes_progress(s, p);
        },
        None => {},
    }
}

/// A sequence that matches consumes at least one character and stays within
/// the input.
pub proof fn lemma_sequence_progress(s: Seq<char>, pos: int)
    requires
        0 <= pos <= s.len(),
        spec_parse_sequence(s, pos) is Some,
    ensures
        pos < (spec_parse_sequence(s, pos)->0).1 <= s.len(),
{
    match spec_parse_node(s, pos) {
        Some((n, p)) => {
            lemma_node_progress(s, pos);
            lemma_nodes_progress(s, p);
        },
        None => {},
    }
}

/// A game tree that matches consumes at least one character and stays within
/// the input.
pub proof fn lemma_game_tree_progress(s: Seq<char>, pos: int)
    requires
        spec_parse_game_tree(s, pos) is Some,
    ensures
        pos < (spec_parse_game_tree(s, pos)->0).1 <= s.len(),
    decreases s.len() - pos, 0int,
{
    lemma_sequence_progress(s, pos + 1);
    let p = (spec_parse_sequence(s, pos + 1)->0).1;
    lemma_game_trees_progress(s, p);
}

/// Game-tree repetition never moves the cursor backwards or past the end.
pub proof fn lemma_game_trees_progress(s: Seq<char>, pos: int)
    requires
        0 <= pos <= s.len(),
    ensures
        pos <= spec_parse_game_trees(s, pos).1 <= s.len(),
    decreases s.len() - pos, 1int,
{
    match spec_parse_game_tree(s, pos) {
        Some((t, p)) => {
            lemma_game_tree_progress(s, pos);
            lemma_game_trees_progress(s, p);
        },
        None => {},
    }
}

/// Every property that the property repetition yields is well shaped: a
/// non-empty uppercase identifier with at least one value.
proof fn lemma_properties_shape(s: Seq<char>, pos: int)
    requires
        0 <= pos <= s.len(),
    ensures
        forall|i: int|
            0 <= i < spec_parse_properties(s, pos).0.len() ==> ident_wf(
                (#[trigger] spec_parse_properties(s, pos).0[i]).0,
            ) && spec_parse_properties(s, pos).0[i].1.len() >= 1,
    decreases s.len() - pos,
{
    match spec_parse_property(s, pos) {
        Some((pr, p)) => {
            lemma_property_progress(s, pos);
            lemma_properties_shape(s, p);
            lemma_upper_end(s, pos);
            let end = upper_end(s, pos);
            assert(ident_wf(pr.0)) by {
                assert(pr.0 == s.subrange(pos, end));
                assert forall|i: int| 0 <= i < pr.0.len() implies is_upper(pr.0[i]) by {
                    assert(pr.0[i] == s[pos + i]);
                }
            }
            let all = spec_parse_properties(s, pos).0;
            let rest = spec_parse_properties(s, p).0;
            assert forall|i: int| 0 <= i < all.len() implies ident_wf((#[trigger] all[i]).0)
                && all[i].1.len() >= 1 by {
                if i == 0 {
                    assert(all[0] == pr);
                } else {
                    assert(all[i] == rest[i - 1]);
                }
            }
        },
        None => {},
    }
}

/// The mapping folded from well-shaped properties is a well-formed node
/// model.
proof fn lemma_props_to_map_shape(ps: Seq<PropModel>)
    requires
        forall|i: int|
            0 <= i < ps.len() ==> ident_wf((#[trigger] ps[i]).0) && ps[i].1.len() >= 1,
    ensures
        node_model_wf(props_to_map(ps)),
    decreases ps.len(),
{
    if ps.len() > 0 {
        assert forall|i: int| 0 <= i < ps.drop_last().len() implies ident_wf(
            (#[trigger] ps.drop_last()[i]).0,
        ) && ps.drop_last()[i].1.len() >= 1 by {
            assert(ps.drop_last()[i] == ps[i]);
        }
        lemma_props_to_map_shape(ps.drop_last());
        assert(ps.last() == ps[ps.len() - 1]);
        let m = props_to_map(ps);
        assert forall|k: Seq<char>| #[trigger] m.dom().contains(k) implies ident_wf(k)
            && m[k].len() >= 1 by {
            if k != ps.last().0 {
                assert(props_to_map(ps.drop_last()).dom().contains(k));
            }
        }
    }
}

/// A node that matches yields a well-formed node model.
proof fn lemma_node_model_shape(s: Seq<char>, pos: int)
    requires
        spec_parse_node(s, pos) is Some,
    ensures
        node_model_wf((spec_parse_node(s, pos)->0).0),
{
    lemma_properties_shape(s, pos + 1);
    lemma_props_to_map_shape(spec_parse_properties(s, pos + 1).0);
}

/// Every node that the node repetition yields has a well-formed model.
proof fn lemma_nodes_model_shape(s: Seq<char>, pos: int)
    requires
        0 <= pos <= s.len(),
    ensures
        forall|i: int|
            0 <= i < spec_parse_nodes(s, pos).0.len() ==> node_model_wf(
                #[trigger] spec_parse_nodes(s, pos).0[i],
            ),
    decreases s.len() - pos,
{
    match spec_parse_node(s, pos) {
        Some((n, p)) => {
            lemma_node_progress(s, pos);
            lemma_node_model_shape(s, pos);
            lemma_nodes_model_shape(s, p);
            let all = spec_parse_nodes(s, pos).0;
            let rest = spec_parse_nodes(s, p).0;
            assert forall|i: int| 0 <= i < all.len() implies node_model_wf(
                #[trigger] all[i],
            ) by {
                if i == 0 {
                    assert(all[0] == n);
                } else {
                    assert(all[i] == rest[i - 1]);
                }
            }
        },
        None => {},
    }
}

/// A game tree that matches yields a well-formed tree model.
proof fn lemma_game_tree_model_wf(s: Seq<char>, pos: int)
    requires
        spec_parse_game_tree(s, pos) is Some,
    ensures
        tree_model_wf((spec_parse_game_tree(s, pos)->0).0),
    decreases s.len() - pos, 0int,
{
    lemma_sequence_progress(s, pos + 1);
    lemma_nodes_model_shape(s, pos + 1);
    let p = (spec_parse_sequence(s, pos + 1)->0).1;
    lemma_game_trees_model_wf(s, p);
}

/// Game-tree repetition yields only well-formed tree models.
proof fn lemma_game_trees_model_wf(s: Seq<char>, pos: int)
    requires
        0 <= pos <= s.len(),
    ensures
        forest_model_wf(spec_parse_game_trees(s, pos).0),
    decreases s.len() - pos, 1int,
{
    match spec_parse_game_tree(s, pos) {
        Some((t, p)) => {
            lemma_game_tree_progress(s, pos);
            lemma_game_tree_model_wf(s, pos);
            lemma_game_trees_model_wf(s, p);
            let all = spec_parse_game_trees(s, pos).0;
            let rest = spec_parse_game_trees(s, p).0;
            assert(all[0] == t);
            assert(all.subrange(1, all.len() as int) =~= rest);
        },
        None => {
            assert(forest_model_wf(Seq::<TreeModel>::empty()));
        },
    }
}

/// Law: a successful document parse yields only well-formed models — every
/// tree has a non-empty trunk, every identifier in every node is a non-empty
/// run of uppercase ASCII letters, and every property present carries at
/// least one value.
pub proof fn lemma_parse_sgf_wf(s: Seq<char>)
    requires
        spec_parse_sgf(s) is Some,
    ensures
        forest_model_wf(spec_parse_sgf(s)->0),
{
    lemma_game_trees_model_wf(s, 0);
}

} // verus!
