//! The executable recursive-descent parser, proved to return exactly what the
//! grammar functions in `crate::grammar` say.
//!
//! The parsers work over a vector of characters and a cursor position; the
//! top-level entry point takes the whole document as a string slice.

use vstd::prelude::*;
use vstd::string::StrSliceExecFns;

use crate::grammar::is_upper;
use crate::grammar::lemma_sequence_progress;
use crate::grammar::lemma_upper_end;
use crate::grammar::props_to_map;
use crate::grammar::spec_parse_game_tree;
use crate::grammar::spec_parse_game_trees;
use crate::grammar::spec_parse_identifier;
use crate::grammar::spec_parse_node;
use crate::grammar::spec_parse_nodes;
use crate::grammar::spec_parse_properties;
use crate::grammar::spec_parse_property;
use crate::grammar::spec_parse_sequence;
use crate::grammar::spec_parse_sgf;
use crate::grammar::spec_parse_value;
use crate::grammar::spec_parse_values;
use crate::grammar::spec_value_body;
use crate::grammar::upper_end;
use crate::tree::forest_view;
use crate::tree::forest_wf;
use crate::tree::ident_wf;
use crate::tree::lemma_forest_view_push;
use crate::tree::lemma_forest_wf_index;
use crate::tree::lemma_forest_wf_push;
use crate::tree::trunk_view;
use crate::tree::tree_view;
use crate::tree::PropModel;
use crate::tree::SGFNode;
use crate::tree::SGFTree;
use crate::tree::TreeModel;

verus! {

/// Relies on `String`'s `FromIterator<char>` implementation: collecting
/// characters yields the string of exactly those characters, in order.
#[verifier::external_body]
fn chars_to_string(v: &Vec<char>) -> (s: String)
    ensures
        s@ == v@,
{
    v.iter().collect()
}

/// Collects the characters of a string slice into a vector.
fn str_to_chars(s: &str) -> (v: Vec<char>)
    ensures
        v@ == s@,
{
    let n = s.unicode_len();
    let mut v: Vec<char> = Vec::new();
    let mut i: usize = 0;
    while i < n
        invariant
            n == s@.len(),
            0 <= i <= n,
            v@.len() == i,
            forall|j: int| 0 <= j < i ==> v@[j] == s@[j],
        decreases n - i,
    {
        v.push(s.get_char(i));
        i += 1;
    }
    proof {
        assert(v@ =~= s@);
    }
    v
}

/// Decides whether `c` is an uppercase ASCII letter.
fn is_upper_char(c: char) -> (b: bool)
    ensures
        b == is_upper(c),
{
    let u = c as u32;
    65 <= u && u <= 90
}

/// A partially decoded value body: what an already decoded prefix and the
/// outcome on the rest of the body combine to.
pub open spec fn body_with_prefix(acc: Seq<char>, r: Option<(Seq<char>, int)>) -> Option<
    (Seq<char>, int),
> {
    match r {
        Some((v, p)) => Some((acc + v, p)),
        None => None,
    }
}

/// Parses one bracketed, escape-aware value at `pos`: consumes the opening
/// `[`, decodes the body (`\]` becomes `]`, other characters are copied), and
/// consumes the closing `]`.  Returns the decoded string and the position
/// just past the value, exactly as the grammar says.
pub fn parse_value(input: &Vec<char>, pos: usize) -> (r: Result<(String, usize), ()>)
    requires
        pos <= input@.len(),
    ensures
        (match r {
            Ok((v, p)) => spec_parse_value(input@, pos as int) == Some((v@, p as int)) && pos < p
                <= input@.len(),
            Err(e) => spec_parse_value(input@, pos as int) is None,
        }),
{
    if pos == input.len() {
        return Err(());
    }
    if input[pos] != '[' {
        return Err(());
    }
    let mut cur: usize = pos + 1;
    let mut acc: Vec<char> = Vec::new();
    loop
        invariant
            pos < input@.len(),
            input@[pos as int] == '[',
            pos + 1 <= cur <= input@.len(),
            spec_value_body(input@, pos as int + 1) == body_with_prefix(
                acc@,
                spec_value_body(input@, cur as int),
            ),
        decreases input@.len() - cur,
    {
        if cur == input.len() {
            return Err(());
        }
        let c = input[cur];
        if c == ']' {
            proof {
                assert(spec_value_body(input@, cur as int) == Some(
                    (Seq::<char>::empty(), cur as int + 1),
                ));
                assert(acc@ + Seq::<char>::empty() =~= acc@);
            }
            let decoded = chars_to_string(&acc);
            return Ok((decoded, cur + 1));
        } else if c == '\\' {
            if cur + 1 == input.len() {
                return Err(());
            }
            let c2 = input[cur + 1];
            if c2 != ']' {
                return Err(());
            }
            let ghost prev = cur as int;
            let ghost prev_acc = acc@;
            acc.push(']');
            cur = cur + 2;
            proof {
                match spec_value_body(input@, cur as int) {
                    Some((v, p)) => {
                        assert(spec_value_body(input@, prev) == Some((seq![']'].add(v), p)));
                        assert(prev_acc + seq![']'].add(v) =~= acc@ + v);
                    },
                    None => {
                        assert(spec_value_body(input@, prev) is None);
                    },
                }
            }
        } else {
            let ghost prev = cur as int;
            let ghost prev_acc = acc@;
            acc.push(c);
            cur = cur + 1;
            proof {
                match spec_value_body(input@, cur as int) {
                    Some((v, p)) => {
                        assert(spec_value_body(input@, prev) == Some((seq![c].add(v), p)));
                        assert(prev_acc + seq![c].add(v) =~= acc@ + v);
                    },
                    None => {
                        assert(spec_value_body(input@, prev) is None);
                    },
                }
            }
        }
    }
}

/// Parses one property identifier at `pos`: one or more consecutive
/// uppercase ASCII letters.
pub fn parse_identifier(input: &Vec<char>, pos: usize) -> (r: Result<(String, usize), ()>)
    requires
        pos <= input@.len(),
    ensures
        (match r {
            Ok((id, p)) => spec_parse_identifier(input@, pos as int) == Some((id@, p as int))
                && pos < p <= input@.len() && ident_wf(id@),
            Err(e) => spec_parse_identifier(input@, pos as int) is None,
        }),
{
    let mut cur: usize = pos;
    let mut acc: Vec<char> = Vec::new();
    while cur < input.len() && is_upper_char(input[cur])
        invariant
            pos <= cur <= input@.len(),
            upper_end(input@, pos as int) == upper_end(input@, cur as int),
            acc@ == input@.subrange(pos as int, cur as int),
        decreases input@.len() - cur,
    {
        let c = input[cur];
        acc.push(c);
        cur = cur + 1;
        proof {
            assert(acc@ =~= input@.subrange(pos as int, cur as int));
        }
    }
    proof {
        assert(upper_end(input@, cur as int) == cur as int);
    }
    if cur == pos {
        return Err(());
    }
    let id = chars_to_string(&acc);
    proof {
        lemma_upper_end(input@, pos as int);
        assert forall|i: int| 0 <= i < id@.len() implies is_upper(id@[i]) by {
            assert(id@[i] == input@[pos + i]);
        }
    }
    Ok((id, cur))
}

/// Parses one property at `pos`: an identifier followed by one or more
/// values.  Returns the identifier and the decoded values, in order.
pub fn parse_property(input: &Vec<char>, pos: usize) -> (r: Result<
    ((String, Vec<String>), usize),
    (),
>)
    requires
        pos <= input@.len(),
    ensures
        (match r {
            Ok(((id, vals), p)) => spec_parse_property(input@, pos as int) == Some(
                ((id@, vals.deep_view()), p as int),
            ) && pos < p <= input@.len() && vals@.len() >= 1 && ident_wf(id@),
            Err(e) => spec_parse_property(input@, pos as int) is None,
        }),
{
    let (id, idend) = match parse_identifier(input, pos) {
        Ok(x) => x,
        Err(e) => {
            return Err(());
        },
    };
    let mut vals: Vec<String> = Vec::new();
    let mut cur: usize = idend;
    loop
        invariant
            pos <= input@.len(),
            idend <= cur <= input@.len(),
            spec_parse_identifier(input@, pos as int) == Some((id@, idend as int)),
            pos < idend,
            ident_wf(id@),
            spec_parse_values(input@, idend as int) == (
                vals.deep_view() + spec_parse_values(input@, cur as int).0,
                spec_parse_values(input@, cur as int).1,
            ),
            vals.deep_view().len() == vals@.len(),
        decreases input@.len() - cur,
    {
        match parse_value(input, cur) {
            Ok((v, p)) => {
                proof {
                    assert(spec_parse_values(input@, cur as int) == (
                        seq![v@].add(spec_parse_values(input@, p as int).0),
                        spec_parse_values(input@, p as int).1,
                    ));
                }
                let ghost gv = v@;
                let ghost pre = vals.deep_view();
                vals.push(v);
                cur = p;
                proof {
                    assert(vals.deep_view() =~= pre.push(gv)) by {
                        assert forall|j: int| 0 <= j < vals.deep_view().len() implies vals.deep_view()[j]
                            == pre.push(gv)[j] by {}
                    }
                    assert(pre + seq![gv].add(spec_parse_values(input@, cur as int).0)
                        =~= pre.push(gv) + spec_parse_values(input@, cur as int).0);
                }
            },
            Err(e) => {
                proof {
                    assert(spec_parse_values(input@, cur as int) == (
                        Seq::<Seq<char>>::empty(),
                        cur as int,
                    ));
                    assert(vals.deep_view() + Seq::<Seq<char>>::empty() =~= vals.deep_view());
                }
                if vals.len() == 0 {
                    return Err(());
                }
                return Ok(((id, vals), cur));
            },
        }
    }
}

/// Parses one node at `pos`: a leading `;` followed by zero or more
/// properties, folded into a mapping where a repeated identifier keeps only
/// its last occurrence.
pub fn parse_node(input: &Vec<char>, pos: usize) -> (r: Result<(SGFNode, usize), ()>)
    requires
        pos <= input@.len(),
    ensures
        (match r {
            Ok((node, p)) => spec_parse_node(input@, pos as int) == Some((node@, p as int)) && pos
                < p <= input@.len() && node.wf(),
            Err(e) => spec_parse_node(input@, pos as int) is None,
        }),
{
    if pos == input.len() {
        return Err(());
    }
    if input[pos] != ';' {
        return Err(());
    }
    let mut node = SGFNode::empty();
    let mut cur: usize = pos + 1;
    let ghost mut done: Seq<PropModel> = Seq::empty();
    proof {
        assert(node@ =~= props_to_map(done));
    }
    loop
        invariant
            pos < input@.len(),
            input@[pos as int] == ';',
            pos + 1 <= cur <= input@.len(),
            node.wf(),
            node@ == props_to_map(done),
            spec_parse_properties(input@, pos as int + 1).0 == done + spec_parse_properties(
                input@,
                cur as int,
            ).0,
            spec_parse_properties(input@, pos as int + 1).1 == spec_parse_properties(
                input@,
                cur as int,
            ).1,
        decreases input@.len() - cur,
    {
        match parse_property(input, cur) {
            Ok(((key, vals), p)) => {
                proof {
                    assert(spec_parse_properties(input@, cur as int) == (
                        seq![((key@, vals.deep_view()))].add(
                            spec_parse_properties(input@, p as int).0,
                        ),
                        spec_parse_properties(input@, p as int).1,
                    ));
                }
                let ghost pr: PropModel = (key@, vals.deep_view());
                let ghost prev_done = done;
                node.insert_prop(key, vals);
                cur = p;
                proof {
                    done = done.push(pr);
                    assert(done.drop_last() =~= prev_done);
                    assert(done.last() == pr);
                    assert(props_to_map(done) == props_to_map(prev_done).insert(pr.0, pr.1));
                    assert(prev_done + seq![pr].add(spec_parse_properties(input@, cur as int).0)
                        =~= done + spec_parse_properties(input@, cur as int).0);
                }
            },
            Err(e) => {
                proof {
                    assert(spec_parse_properties(input@, cur as int) == (
                        Seq::<PropModel>::empty(),
                        cur as int,
                    ));
                    assert(done + Seq::<PropModel>::empty() =~= done);
                    assert(spec_parse_node(input@, pos as int) == Some(
                        (props_to_map(done), cur as int),
                    ));
                }
                return Ok((node, cur));
            },
        }
    }
}

/// Parses a sequence at `pos`: one or more consecutive nodes.
pub fn parse_sequence(input: &Vec<char>, pos: usize) -> (r: Result<(Vec<SGFNode>, usize), ()>)
    requires
        pos <= input@.len(),
    ensures
        (match r {
            Ok((nodes, p)) => {
                &&& spec_parse_sequence(input@, pos as int) == Some(
                    (trunk_view(nodes@), p as int),
                )
                &&& pos < p <= input@.len()
                &&& nodes@.len() >= 1
                &&& forall|i: int| 0 <= i < nodes@.len() ==> (#[trigger] nodes@[i]).wf()
            },
            Err(e) => spec_parse_sequence(input@, pos as int) is None,
        }),
{
    let mut nodes: Vec<SGFNode> = Vec::new();
    let mut cur: usize = pos;
    loop
        invariant
            pos <= cur <= input@.len(),
            spec_parse_nodes(input@, pos as int).0 == trunk_view(nodes@) + spec_parse_nodes(
                input@,
                cur as int,
            ).0,
            spec_parse_nodes(input@, pos as int).1 == spec_parse_nodes(input@, cur as int).1,
            forall|i: int| 0 <= i < nodes@.len() ==> (#[trigger] nodes@[i]).wf(),
        decreases input@.len() - cur,
    {
        match parse_node(input, cur) {
            Ok((n, p)) => {
                proof {
                    assert(spec_parse_nodes(input@, cur as int) == (
                        seq![n@].add(spec_parse_nodes(input@, p as int).0),
                        spec_parse_nodes(input@, p as int).1,
                    ));
                }
                let ghost gn = n@;
                let ghost pre = trunk_view(nodes@);
                nodes.push(n);
                cur = p;
                proof {
                    assert(trunk_view(nodes@) =~= pre.push(gn));
                    assert(pre + seq![gn].add(spec_parse_nodes(input@, cur as int).0) =~= pre.push(
                        gn,
                    ) + spec_parse_nodes(input@, cur as int).0);
                }
            },
            Err(e) => {
                proof {
                    assert(spec_parse_nodes(input@, cur as int) == (
                        Seq::<crate::tree::NodeModel>::empty(),
                        cur as int,
                    ));
                    assert(trunk_view(nodes@) + Seq::<crate::tree::NodeModel>::empty()
                        =~= trunk_view(nodes@));
                }
                if nodes.len() == 0 {
                    return Err(());
                }
                proof {
                    lemma_sequence_progress(input@, pos as int);
                }
                return Ok((nodes, cur));
            },
        }
    }
}

/// Parses one game tree at `pos`: `(`, a mandatory trunk sequence, zero or
/// more nested game trees, `)`.  Recursion is bounded by the input length.
pub fn parse_game_tree(input: &Vec<char>, pos: usize) -> (r: Result<(SGFTree, usize), ()>)
    requires
        pos <= input@.len(),
    ensures
        (match r {
            Ok((t, p)) => spec_parse_game_tree(input@, pos as int) == Some((t@, p as int)) && pos
                < p <= input@.len() && t.wf(),
            Err(e) => spec_parse_game_tree(input@, pos as int) is None,
        }),
    decreases input@.len() - pos,
{
    if pos == input.len() {
        return Err(());
    }
    if input[pos] != '(' {
        return Err(());
    }
    let (nodes, seqend) = match parse_sequence(input, pos + 1) {
        Ok(x) => x,
        Err(e) => {
            return Err(());
        },
    };
    let mut children: Vec<SGFTree> = Vec::new();
    let mut cur: usize = seqend;
    loop
        invariant
            pos < input@.len(),
            input@[pos as int] == '(',
            pos + 1 < seqend <= input@.len(),
            pos < cur <= input@.len(),
            spec_parse_sequence(input@, pos as int + 1) == Some(
                (trunk_view(nodes@), seqend as int),
            ),
            nodes@.len() >= 1,
            forall|i: int| 0 <= i < nodes@.len() ==> (#[trigger] nodes@[i]).wf(),
            spec_parse_game_trees(input@, seqend as int).0 == forest_view(children@)
                + spec_parse_game_trees(input@, cur as int).0,
            spec_parse_game_trees(input@, seqend as int).1 == spec_parse_game_trees(
                input@,
                cur as int,
            ).1,
            forest_wf(children@),
        decreases input@.len() - cur,
    {
        match parse_game_tree(input, cur) {
            Ok((t, p)) => {
                proof {
                    assert(spec_parse_game_trees(input@, cur as int) == (
                        seq![t@].add(spec_parse_game_trees(input@, p as int).0),
                        spec_parse_game_trees(input@, p as int).1,
                    ));
                }
                let ghost gt = t;
                let ghost pre = children@;
                children.push(t);
                cur = p;
                proof {
                    lemma_forest_view_push(pre, gt);
                    lemma_forest_wf_push(pre, gt);
                    assert(forest_view(pre) + seq![tree_view(gt)].add(
                        spec_parse_game_trees(input@, cur as int).0,
                    ) =~= forest_view(children@) + spec_parse_game_trees(input@, cur as int).0);
                }
            },
            Err(e) => {
                proof {
                    assert(spec_parse_game_trees(input@, cur as int) == (
                        Seq::<TreeModel>::empty(),
                        cur as int,
                    ));
                    assert(forest_view(children@) + Seq::<TreeModel>::empty() =~= forest_view(
                        children@,
                    ));
                }
                if cur == input.len() {
                    return Err(());
                }
                if input[cur] != ')' {
                    return Err(());
                }
                let endpos = cur + 1;
                let t = SGFTree { nodes, children };
                proof {
                    assert(spec_parse_game_tree(input@, pos as int) == Some(
                        (
                            TreeModel { trunk: trunk_view(t.nodes@), children: forest_view(t.children@) },
                            endpos as int,
                        ),
                    ));
                    assert(t@ == TreeModel {
                        trunk: trunk_view(t.nodes@),
                        children: forest_view(t.children@),
                    });
                    assert(t.wf());
                }
                return Ok((t, endpos));
            },
        }
    }
}

/// Parses a whole document: one or more game trees that must together
/// consume the entire input.  Any trailing input, or any grammar mismatch,
/// makes the whole parse fail.
pub fn parse_sgf_string(input: &str) -> (r: Result<Vec<SGFTree>, ()>)
    ensures
        (match r {
            Ok(trees) => {
                &&& spec_parse_sgf(input@) == Some(forest_view(trees@))
                &&& trees@.len() >= 1
                &&& forall|i: int| 0 <= i < trees@.len() ==> (#[trigger] trees@[i]).wf()
            },
            Err(e) => spec_parse_sgf(input@) is None,
        }),
{
    let chars = str_to_chars(input);
    let mut trees: Vec<SGFTree> = Vec::new();
    let mut cur: usize = 0;
    loop
        invariant
            chars@ == input@,
            0 <= cur <= chars@.len(),
            spec_parse_game_trees(input@, 0).0 == forest_view(trees@) + spec_parse_game_trees(
                input@,
                cur as int,
            ).0,
            spec_parse_game_trees(input@, 0).1 == spec_parse_game_trees(input@, cur as int).1,
            forest_wf(trees@),
            forest_view(trees@).len() == trees@.len(),
        decreases chars@.len() - cur,
    {
        match parse_game_tree(&chars, cur) {
            Ok((t, p)) => {
                proof {
                    assert(spec_parse_game_trees(input@, cur as int) == (
                        seq![t@].add(spec_parse_game_trees(input@, p as int).0),
                        spec_parse_game_trees(input@, p as int).1,
                    ));
                }
                let ghost gt = t;
                let ghost pre = trees@;
                trees.push(t);
                cur = p;
                proof {
                    lemma_forest_view_push(pre, gt);
                    lemma_forest_wf_push(pre, gt);
                    assert(forest_view(pre) + seq![tree_view(gt)].add(
                        spec_parse_game_trees(input@, cur as int).0,
                    ) =~= forest_view(trees@) + spec_parse_game_trees(input@, cur as int).0);
                }
            },
            Err(e) => {
                proof {
                    assert(spec_parse_game_trees(input@, cur as int) == (
                        Seq::<TreeModel>::empty(),
                        cur as int,
                    ));
                    assert(forest_view(trees@) + Seq::<TreeModel>::empty() =~= forest_view(
                        trees@,
                    ));
                }
                if trees.len() == 0 {
                    return Err(());
                }
                if cur < chars.len() {
                    return Err(());
                }
                proof {
                    assert forall|i: int| 0 <= i < trees@.len() implies (
                    #[trigger] trees@[i]).wf() by {
                        lemma_forest_wf_index(trees@, i);
                    }
                }
                return Ok(trees);
            },
        }
    }
}

} // verus!
