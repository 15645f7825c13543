use vstd::prelude::*;
use crate::formula_node::{
    connective_leaf, core_children, group, height, searched, visited, FormulaNode, NodeFunction,
    NodeRewrite, NodeSearch, NodeView,
};
use crate::operators::same_text;

verus! {

/// How far down a traversal of the tree goes: as far as the tree is high, and no further
/// than a machine number counts.
pub open spec fn reach(n: NodeView) -> nat {
    if height(n) >= usize::MAX {
        usize::MAX as nat
    } else {
        height(n)
    }
}

/// The tree with its first equivalence written as a conjunction of two disjunctions.
pub open spec fn without_iff(n: NodeView) -> NodeView {
    searched(n, NodeSearch::IsIff, NodeRewrite::Iff, true, reach(n), 0)
}

/// The tree with its first implication written as a disjunction.
pub open spec fn without_if(n: NodeView) -> NodeView {
    searched(n, NodeSearch::IsIf, NodeRewrite::If, true, reach(n), 0)
}

/// The tree with the negations of its bracketed parts handed down to their parts.
pub open spec fn with_negations_down(n: NodeView) -> NodeView {
    visited(n, NodeFunction::PushNegation, true, reach(n))
}

/// The tree without brackets that hold nothing but one part that is no variable, in its
/// parts and, at the end, in the tree itself.
pub open spec fn without_idle_brackets(n: NodeView) -> NodeView {
    let inner = visited(n, NodeFunction::Flatten, true, reach(n));
    if inner.children.len() == 1 {
        NodeView { children: inner.children[0].children, ..inner }
    } else {
        inner
    }
}

/// The tree on its way to conjunctive normal form: equivalence, implication, negation
/// and idle brackets are dealt with, in this order.
pub open spec fn converted(n: NodeView) -> NodeView {
    without_idle_brackets(with_negations_down(without_if(without_iff(n))))
}

/// Writes the first equivalence of the tree as a conjunction of two disjunctions.
pub fn iff_solver(formula: &mut FormulaNode)
    ensures
        final(formula)@ == without_iff(old(formula)@),
{
    formula.find_node_with_child(NodeSearch::IsIff, NodeRewrite::Iff, true);
}

/// Writes the first implication of the tree as a disjunction.
pub fn if_solver(formula: &mut FormulaNode)
    ensures
        final(formula)@ == without_if(old(formula)@),
{
    formula.find_node_with_child(NodeSearch::IsIf, NodeRewrite::If, true);
}

/// Hands the negation of every negated bracketed part down to its parts.
pub fn not_solver(formula: &mut FormulaNode)
    ensures
        final(formula)@ == with_negations_down(old(formula)@),
{
    formula.iter_child(NodeFunction::PushNegation, true);
}

/// Removes the brackets that hold nothing but one part that is no variable.
pub fn clear_parenthesis(formula: &mut FormulaNode)
    ensures
        final(formula)@ == without_idle_brackets(old(formula)@),
{
    formula.iter_child(NodeFunction::Flatten, true);
    if formula.children_len() == 1 {
        let parts = match formula.get_child(0) {
            Ok(child) => child.get_children(None, None),
            Err(_e) => Vec::new(),
        };
        assert(crate::formula_node::node_views(parts@) =~= formula@.children[0].children);
        formula.set_children(parts);
    }
}

/// Brings the tree on its way to conjunctive normal form.
pub fn cnf_converter(formula: &mut FormulaNode)
    ensures
        final(formula)@ == converted(old(formula)@),
{
    iff_solver(formula);
    if_solver(formula);
    not_solver(formula);
    clear_parenthesis(formula);
}

/// Position of the first connective among `cs`, from `idx` on, that differs from
/// `operator`, the connective that was met before it; while `operator` is empty none was
/// met yet. The length of `cs` if there is no such connective.
pub open spec fn clash(cs: Seq<NodeView>, idx: int, operator: Seq<char>) -> int
    decreases cs.len() - idx,
{
    if idx < 0 || idx >= cs.len() {
        cs.len() as int
    } else if cs[idx].is_operator() && operator.len() == 0 {
        clash(cs, idx + 1, cs[idx].operator)
    } else if cs[idx].is_operator() && operator != cs[idx].operator {
        idx
    } else {
        clash(cs, idx + 1, operator)
    }
}

/// The parts `cs` after the connective at `idx` is distributed over what stands before
/// it: each part before it that is no connective is bracketed together with the
/// connective and the part that follows it, and these two leave the list.
pub open spec fn distributed_parts(cs: Seq<NodeView>, idx: int) -> Seq<NodeView> {
    Seq::new(
        (cs.len() - 2) as nat,
        |j: int|
            if j >= idx {
                cs[j + 2]
            } else if cs[j].is_operator() {
                cs[j]
            } else {
                group(seq![cs[j], connective_leaf(cs[idx].operator), cs[idx + 1]], false)
            },
    )
}

/// The node after every connective that differs from the first one is distributed, one
/// after the other; nothing where such a connective is the last part.
pub open spec fn distributed(n: NodeView) -> Option<NodeView>
    decreases n.children.len(),
{
    let idx = clash(n.children, 0, Seq::empty());
    if idx < 0 || idx >= n.children.len() {
        Some(n)
    } else if idx + 1 >= n.children.len() {
        None
    } else {
        distributed(NodeView { children: distributed_parts(n.children, idx), ..n })
    }
}

/// Whether the connectives among `cs` from `from` up to `to` are all the same, and the
/// same as `operator` unless that is empty.
pub open spec fn uniform(cs: Seq<NodeView>, from: int, to: int, operator: Seq<char>) -> bool {
    &&& forall|i: int, j: int|
        from <= i < to && from <= j < to && #[trigger] cs[i].is_operator()
            && #[trigger] cs[j].is_operator() ==> cs[i].operator == cs[j].operator
    &&& operator.len() > 0 ==> forall|i: int|
        from <= i < to && #[trigger] cs[i].is_operator() ==> cs[i].operator == operator
}

/// The first connective that differs stands behind connectives that are all the same.
pub proof fn lemma_clash_follows_uniform_parts(cs: Seq<NodeView>, idx: int, operator: Seq<char>)
    requires
        0 <= idx <= cs.len(),
    ensures
        idx <= clash(cs, idx, operator) <= cs.len(),
        clash(cs, idx, operator) < cs.len() ==> cs[clash(cs, idx, operator)].is_operator(),
        uniform(cs, idx, clash(cs, idx, operator), operator),
    decreases cs.len() - idx,
{
    if idx < cs.len() {
        if cs[idx].is_operator() && operator.len() == 0 {
            lemma_clash_follows_uniform_parts(cs, idx + 1, cs[idx].operator);
        } else if cs[idx].is_operator() && operator != cs[idx].operator {
        } else {
            lemma_clash_follows_uniform_parts(cs, idx + 1, operator);
        }
    }
}

/// Where the connectives are all the same, none differs.
pub proof fn lemma_uniform_parts_do_not_clash(cs: Seq<NodeView>, idx: int, operator: Seq<char>)
    requires
        0 <= idx <= cs.len(),
        uniform(cs, idx, cs.len() as int, operator),
    ensures
        clash(cs, idx, operator) == cs.len(),
    decreases cs.len() - idx,
{
    if idx < cs.len() {
        if cs[idx].is_operator() && operator.len() == 0 {
            lemma_uniform_parts_do_not_clash(cs, idx + 1, cs[idx].operator);
        } else {
            lemma_uniform_parts_do_not_clash(cs, idx + 1, operator);
        }
    }
}

/// A node whose last part is no connective can be distributed.
pub proof fn law_parts_distribute_unless_a_connective_is_last(n: NodeView)
    requires
        n.children.len() == 0 || !n.children.last().is_operator(),
    ensures
        distributed(n) is Some,
    decreases n.children.len(),
{
    let cs = n.children;
    let idx = clash(cs, 0, Seq::empty());
    lemma_clash_follows_uniform_parts(cs, 0, Seq::empty());
    if idx < cs.len() {
        let parts = distributed_parts(cs, idx);
        let next = NodeView { children: parts, ..n };
        assert(cs[idx].is_operator());
        assert(cs.last() == cs[cs.len() - 1]);
        assert(idx + 1 < cs.len());
        if idx + 2 < cs.len() {
            assert(parts.last() == cs.last());
            law_parts_distribute_unless_a_connective_is_last(next);
        } else {
            assert(parts.len() == idx);
            assert forall|i: int, j: int|
                0 <= i < parts.len() && 0 <= j < parts.len() && #[trigger] parts[i].is_operator()
                    && #[trigger] parts[j].is_operator() implies parts[i].operator
                == parts[j].operator by {
                assert(cs[i].is_operator() && parts[i] == cs[i]);
                assert(cs[j].is_operator() && parts[j] == cs[j]);
            }
            lemma_uniform_parts_do_not_clash(parts, 0, Seq::empty());
            assert(clash(next.children, 0, Seq::empty()) == next.children.len());
            assert(distributed(next) == Some(next));
        }
        assert(distributed(n) == distributed(next));
    }
}

/// Position of the first connective of the node that differs from its first one.
fn first_clash(node: &FormulaNode) -> (r: usize)
    ensures
        r == clash(node@.children, 0, Seq::empty()),
        r <= node@.children.len(),
{
    let total = node.children_len();
    let mut operator = String::new();
    let mut idx: usize = 0;
    while idx < total
        invariant
            idx <= total,
            total == node@.children.len(),
            clash(node@.children, 0, Seq::empty()) == clash(node@.children, idx as int, operator@),
        decreases total - idx,
    {
        match node.get_child(idx) {
            Ok(child) => {
                if child.is_operator() {
                    let found = child.get_operator();
                    if operator.as_str().is_empty() {
                        operator = found;
                    } else if !same_text(operator.as_str(), found.as_str()) {
                        return idx;
                    }
                }
            },
            Err(_) => {},
        }
        idx += 1;
    }
    total
}

/// The node with its connective at `idx` distributed over what stands before it.
fn distribute_at(node: &FormulaNode, idx: usize) -> (r: FormulaNode)
    requires
        idx + 1 < node@.children.len(),
    ensures
        r@ == (NodeView { children: distributed_parts(node@.children, idx as int), ..node@ }),
{
    let mut cloned = node.clone();
    let total = node.children_len();
    let mut j: usize = 0;
    while j < idx
        invariant
            j <= idx,
            idx + 1 < total,
            total == node@.children.len(),
            cloned@.children.len() == node@.children.len(),
            cloned@ == (NodeView { children: cloned@.children, ..node@ }),
            forall|k: int|
                0 <= k < j ==> #[trigger] cloned@.children[k] == distributed_parts(
                    node@.children,
                    idx as int,
                )[k],
            forall|k: int|
                j <= k < node@.children.len() ==> #[trigger] cloned@.children[k]
                    == node@.children[k],
        decreases idx - j,
    {
        match (node.get_child(j), node.get_child(idx), node.get_child(idx + 1)) {
            (Ok(j_child), Ok(child), Ok(next_child)) => {
                if !j_child.is_operator() {
                    let mut new_child = FormulaNode::new_by_children(Vec::new(), false);
                    new_child.append_child(j_child.clone());
                    new_child.append_child(FormulaNode::new_by_operator(child.get_operator()));
                    new_child.append_child(next_child.clone());
                    assert(new_child@.children =~= seq![
                        node@.children[j as int],
                        connective_leaf(node@.children[idx as int].operator),
                        node@.children[idx + 1],
                    ]);
                    cloned.set_child(new_child, j);
                }
            },
            _ => {},
        }
        j += 1;
    }
    cloned.remove_child(idx);
    cloned.remove_child(idx);
    assert(cloned@.children =~= distributed_parts(node@.children, idx as int));
    cloned
}

/// Distributes, among the parts of the node itself, every connective that differs from
/// the first one, and gives the outcome as a new node.
pub fn distributivity_solver(formula: &mut FormulaNode) -> (r: FormulaNode)
    requires
        distributed(old(formula)@) is Some,
    ensures
        final(formula)@ == old(formula)@,
        Some(r@) == distributed(old(formula)@),
{
    let mut current = formula.clone();
    let mut idx = first_clash(&current);
    while idx < current.children_len()
        invariant
            idx == clash(current@.children, 0, Seq::empty()),
            distributed(current@) == distributed(formula@),
            distributed(current@) is Some,
        decreases current@.children.len(),
    {
        current = distribute_at(&current, idx);
        idx = first_clash(&current);
    }
    current
}

} // verus!
