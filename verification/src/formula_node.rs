use vstd::prelude::*;
use vstd::string::StringExecFns;
use std::collections::HashMap;
use crate::operators::{connective, is_connective, same_text, AND, IF, IFF, LEFT_ARROW, NOT, OR};
use crate::parser::token_views;
use crate::text::{chars_of, parse_isize, read_isize};
use crate::render::{nat_text, push_nat};

verus! {

/// What a node of a formula tree stands for.
pub struct NodeView {
    /// The parts of a bracketed formula, in order; none at a leaf.
    pub children: Seq<NodeView>,
    /// The number of the variable at a variable leaf, else 0.
    pub literal: i32,
    /// The connective at a connective leaf, else empty.
    pub operator: Seq<char>,
    /// Whether the node stands under a negation.
    pub negated: bool,
}

impl NodeView {
    /// A variable leaf.
    pub open spec fn is_literal(self) -> bool {
        self.literal > 0
    }

    /// A connective leaf.
    pub open spec fn is_operator(self) -> bool {
        self.operator.len() != 0
    }

    /// The node with its negation turned: a conjunction becomes a disjunction and a
    /// disjunction a conjunction, any other connective stays, and any other node changes
    /// its negation mark.
    pub open spec fn toggled(self) -> NodeView {
        if self.is_operator() {
            if self.operator == AND@ {
                NodeView { operator: OR@, ..self }
            } else if self.operator == OR@ {
                NodeView { operator: AND@, ..self }
            } else {
                self
            }
        } else {
            NodeView { negated: !self.negated, ..self }
        }
    }

    /// The number of nodes of the tree.
    pub open spec fn size(self) -> nat
        decreases self,
    {
        1 + sizes(self.children, self.children.len() as int)
    }

    /// The text of the tree: a variable leaf is its number, behind a minus when negated; a
    /// connective leaf is its connective; any other leaf is empty; a bracketed formula is
    /// the texts of its parts between brackets, behind a minus when negated.
    pub open spec fn text(self) -> Seq<char>
        decreases self,
    {
        if self.children.len() == 0 {
            if self.literal > 0 {
                (if self.negated {
                    "-"@
                } else {
                    Seq::empty()
                }) + nat_text(self.literal as nat)
            } else {
                self.operator
            }
        } else {
            (if self.negated {
                "-"@
            } else {
                Seq::empty()
            }) + "("@ + texts(self.children, self.children.len() as int) + ")"@
        }
    }
}

/// The number of nodes of the first `n` trees of `cs`.
pub open spec fn sizes(cs: Seq<NodeView>, n: int) -> nat
    decreases cs, n,
{
    if n <= 0 || n > cs.len() {
        0
    } else {
        sizes(cs, n - 1) + cs[n - 1].size()
    }
}

/// The texts of the first `n` trees of `cs`, one behind the other.
pub open spec fn texts(cs: Seq<NodeView>, n: int) -> Seq<char>
    decreases cs, n,
{
    if n <= 0 || n > cs.len() {
        Seq::empty()
    } else {
        texts(cs, n - 1) + cs[n - 1].text()
    }
}

/// A node of the tree of a propositional formula: a variable, a connective, or a
/// bracketed formula with its parts.
pub struct FormulaNode {
    children: Vec<FormulaNode>,
    literal: i32,
    operator: String,
    negated: bool,
}

/// The views of a list of nodes.
pub open spec fn node_views(ns: Seq<FormulaNode>) -> Seq<NodeView> {
    Seq::new(ns.len(), |i: int| ns[i]@)
}

impl FormulaNode {
    /// What the node stands for.
    pub closed spec fn tree(&self) -> NodeView
        decreases self,
    {
        NodeView {
            children: Seq::new(
                self.children@.len(),
                |i: int|
                    if 0 <= i < self.children@.len() {
                        self.children@[i].tree()
                    } else {
                        arbitrary()
                    },
            ),
            literal: self.literal,
            operator: self.operator@,
            negated: self.negated,
        }
    }
}

impl View for FormulaNode {
    type V = NodeView;

    open spec fn view(&self) -> NodeView {
        self.tree()
    }
}

impl Clone for FormulaNode {
    fn clone(&self) -> (r: FormulaNode)
        ensures
            r@ == self@,
        decreases self,
    {
        let mut children: Vec<FormulaNode> = Vec::new();
        let mut i: usize = 0;
        while i < self.children.len()
            invariant
                0 <= i <= self.children@.len(),
                children@.len() == i,
                forall|k: int| 0 <= k < i ==> (#[trigger] children@[k])@ == self.children@[k]@,
            decreases self.children@.len() - i,
        {
            children.push(self.children[i].clone());
            i += 1;
        }
        let r = FormulaNode {
            children: children,
            literal: self.literal,
            operator: self.operator.clone(),
            negated: self.negated,
        };
        assert(r@.children =~= self@.children);
        r
    }
}

impl FormulaNode {
    /// A bracketed formula with the parts `childrens`.
    pub fn new_by_children(childrens: Vec<FormulaNode>, negated: bool) -> (r: FormulaNode)
        ensures
            r@ == (NodeView {
                children: node_views(childrens@),
                literal: 0,
                operator: Seq::empty(),
                negated: negated,
            }),
    {
        let r = FormulaNode {
            children: childrens,
            literal: 0,
            operator: String::new(),
            negated: negated,
        };
        assert(r@.children =~= node_views(childrens@));
        r
    }

    /// A variable leaf.
    pub fn new_by_literal(literal: i32, negated: bool) -> (r: FormulaNode)
        ensures
            r@ == (NodeView {
                children: Seq::empty(),
                literal: literal,
                operator: Seq::empty(),
                negated: negated,
            }),
    {
        let r = FormulaNode {
            children: Vec::new(),
            literal: literal,
            operator: String::new(),
            negated: negated,
        };
        assert(r@.children =~= Seq::<NodeView>::empty());
        r
    }

    /// A connective leaf.
    pub fn new_by_operator(operator: String) -> (r: FormulaNode)
        ensures
            r@ == (NodeView {
                children: Seq::empty(),
                literal: 0,
                operator: operator@,
                negated: false,
            }),
    {
        let r = FormulaNode {
            children: Vec::new(),
            literal: 0,
            operator: operator,
            negated: false,
        };
        assert(r@.children =~= Seq::<NodeView>::empty());
        r
    }

    pub fn is_literal(&self) -> (r: bool)
        ensures
            r == self@.is_literal(),
    {
        self.literal > 0
    }

    pub fn is_operator(&self) -> (r: bool)
        ensures
            r == self@.is_operator(),
    {
        !self.operator.as_str().is_empty()
    }

    /// The number of the variable at a variable leaf, else 0.
    pub fn get_literal(&self) -> (r: i32)
        ensures
            r == self@.literal,
    {
        self.literal
    }

    pub fn get_operator(&self) -> (r: String)
        ensures
            r@ == self@.operator,
    {
        self.operator.clone()
    }

    pub fn set_operator(&mut self, operator: String)
        ensures
            final(self)@ == (NodeView { operator: operator@, ..old(self)@ }),
    {
        self.operator = operator;
        assert(self@.children =~= old(self)@.children);
    }

    pub fn children_len(&self) -> (r: usize)
        ensures
            r == self@.children.len(),
    {
        self.children.len()
    }

    /// Copies of the parts from position `from` on, if given, and of the first `to` of
    /// these, if given.
    pub fn get_children(&self, from: Option<usize>, to: Option<usize>) -> (r: Vec<FormulaNode>)
        requires
            from is Some ==> from->0 <= self@.children.len(),
            to is Some ==> to->0 + (if from is Some {
                from->0
            } else {
                0
            }) <= self@.children.len(),
        ensures
            node_views(r@) == ({
                let start = if from is Some {
                    from->0 as int
                } else {
                    0
                };
                let end = if to is Some {
                    start + to->0
                } else {
                    self@.children.len() as int
                };
                self@.children.subrange(start, end)
            }),
    {
        let start: usize = match from {
            Some(from) => from,
            None => 0,
        };
        let held = self.children.len();
        let end: usize = match to {
            Some(to) => {
                assert(to + start <= held);
                start + to
            },
            None => held,
        };
        let mut children: Vec<FormulaNode> = Vec::new();
        let mut i: usize = start;
        while i < end
            invariant
                start <= i <= end <= self.children@.len(),
                children@.len() == i - start,
                forall|k: int| 0 <= k < i - start ==> (#[trigger] children@[k])@ == self.children@[start + k]@,
            decreases end - i,
        {
            children.push(self.children[i].clone());
            i += 1;
        }
        assert(node_views(children@) =~= self@.children.subrange(start as int, end as int));
        children
    }

    pub fn set_children(&mut self, children: Vec<FormulaNode>)
        ensures
            final(self)@ == (NodeView { children: node_views(children@), ..old(self)@ }),
    {
        self.children = children;
        assert(self@.children =~= node_views(children@));
    }

    /// The part at `child_idx`, if there is one.
    pub fn get_child(&self, child_idx: usize) -> (r: Result<&FormulaNode, ()>)
        ensures
            r is Ok <==> child_idx < self@.children.len(),
            r is Ok ==> r->Ok_0@ == self@.children[child_idx as int],
    {
        if self.children.len() > 0 && child_idx < self.children.len() {
            return Ok(&self.children[child_idx]);
        }
        Err(())
    }

    /// The part at `child_idx`, if there is one, to be changed in place.
    pub fn get_mut_child(&mut self, child_idx: usize) -> (r: Result<&mut FormulaNode, ()>)
        ensures
            r is Ok <==> child_idx < old(self)@.children.len(),
            match r {
                Ok(child) => child@ == old(self)@.children[child_idx as int] && final(self)@ == (
                NodeView {
                    children: old(self)@.children.update(child_idx as int, final(child)@),
                    ..old(self)@
                }),
                Err(_) => final(self)@ == old(self)@,
            },
    {
        if self.children.len() > 0 && child_idx < self.children.len() {
            let ghost before = self@;
            let child = &mut self.children[child_idx];
            proof {
                assert(after_borrow(self)@.children =~= before.children.update(
                    child_idx as int,
                    final(child)@,
                ));
            }
            return Ok(child);
        }
        Err(())
    }

    /// Puts `child` in place of the part at `child_idx`, if there is one.
    pub fn set_child(&mut self, child: FormulaNode, child_idx: usize)
        ensures
            final(self)@ == if child_idx < old(self)@.children.len() {
                NodeView {
                    children: old(self)@.children.update(child_idx as int, child@),
                    ..old(self)@
                }
            } else {
                old(self)@
            },
    {
        if self.children.len() > 0 && child_idx < self.children.len() {
            self.children[child_idx] = child;
            assert(self@.children =~= old(self)@.children.update(child_idx as int, child@));
        } else {
            assert(self@.children =~= old(self)@.children);
        }
    }

    pub fn append_child(&mut self, child: FormulaNode)
        ensures
            final(self)@ == (NodeView {
                children: old(self)@.children.push(child@),
                ..old(self)@
            }),
    {
        self.children.push(child);
        assert(self@.children =~= old(self)@.children.push(child@));
    }

    /// Removes the part at `child_idx`, if there is one.
    pub fn remove_child(&mut self, child_idx: usize)
        ensures
            final(self)@ == if child_idx < old(self)@.children.len() {
                NodeView { children: old(self)@.children.remove(child_idx as int), ..old(self)@ }
            } else {
                old(self)@
            },
    {
        if self.children.len() > 0 && child_idx < self.children.len() {
            let _ = self.children.remove(child_idx);
            assert(self@.children =~= old(self)@.children.remove(child_idx as int));
        } else {
            assert(self@.children =~= old(self)@.children);
        }
    }

    pub fn is_negated(&self) -> (r: bool)
        ensures
            r == self@.negated,
    {
        self.negated
    }

    pub fn set_negated(&mut self, negated: bool)
        ensures
            final(self)@ == (NodeView { negated: negated, ..old(self)@ }),
    {
        self.negated = negated;
        assert(self@.children =~= old(self)@.children);
    }

    /// Turns the negation of the node.
    pub fn toggle_negated(&mut self)
        ensures
            final(self)@ == old(self)@.toggled(),
    {
        if self.is_operator() {
            if same_text(self.operator.as_str(), AND) {
                self.operator = OR.to_owned();
            } else if same_text(self.operator.as_str(), OR) {
                self.operator = AND.to_owned();
            }
        } else {
            self.negated = !self.negated;
        }
        assert(self@.children =~= old(self)@.children);
    }

    /// The text of the tree.
    pub fn to_text(&self) -> (r: String)
        ensures
            r@ == self@.text(),
        decreases self,
    {
        let mut out = String::new();
        if self.children.len() == 0 {
            if self.literal > 0 {
                if self.negated {
                    out.append("-");
                }
                push_nat(&mut out, self.literal as u128);
                assert(out@ =~= self@.text());
            } else {
                out.append(self.operator.as_str());
                assert(out@ =~= self@.text());
            }
        } else {
            if self.negated {
                out.append("-");
            }
            out.append("(");
            let ghost head = out@;
            let mut i: usize = 0;
            assert(head + Seq::<char>::empty() =~= head);
            while i < self.children.len()
                invariant
                    0 <= i <= self.children@.len(),
                    out@ == head + texts(self@.children, i as int),
                decreases self.children@.len() - i,
            {
                let piece = self.children[i].to_text();
                assert(piece@ == self@.children[i as int].text());
                out.append(piece.as_str());
                assert(out@ =~= head + (texts(self@.children, i as int) + piece@));
                i += 1;
            }
            out.append(")");
            assert(out@ =~= self@.text());
        }
        out
    }
}

/// What is done to each part that `iter_child` visits.
#[derive(Debug, Clone, Copy, PartialEq, Eq, Structural)]
pub enum NodeFunction {
    /// The negation of the part is turned.
    Toggle,
    /// A negated bracketed formula hands its negation down to its parts.
    PushNegation,
    /// A bracketed formula that holds nothing but one part that is no variable takes the
    /// parts of that part for its own, again and again.
    Flatten,
}

/// What `find_node_with_child` looks for among the leaves.
#[derive(Debug, Clone, Copy, PartialEq, Eq, Structural)]
pub enum NodeSearch {
    IsIff,
    IsIf,
    IsLeftArrow,
}

/// What `find_node_with_child` does to the node that holds the leaf it found.
#[derive(Debug, Clone, Copy, PartialEq, Eq, Structural)]
pub enum NodeRewrite {
    /// The equivalence of what stands left and right of the leaf is written as a
    /// conjunction of two disjunctions.
    Iff,
    /// The implication from what stands left of the leaf to what stands right of it is
    /// written as a disjunction.
    If,
    /// The leaf becomes an equivalence and the leaf behind it goes.
    MergeArrows,
}

/// The parts that flattening leaves to a node.
pub open spec fn core_children(n: NodeView) -> Seq<NodeView>
    decreases n,
{
    if n.children.len() == 1 && !n.children[0].is_literal() {
        core_children(n.children[0])
    } else {
        n.children
    }
}

/// A bracketed formula with the parts `cs`.
pub open spec fn group(cs: Seq<NodeView>, negated: bool) -> NodeView {
    NodeView { children: cs, literal: 0, operator: Seq::empty(), negated: negated }
}

/// A connective leaf.
pub open spec fn connective_leaf(operator: Seq<char>) -> NodeView {
    NodeView { children: Seq::empty(), literal: 0, operator: operator, negated: false }
}

impl NodeFunction {
    /// The node after the function is applied to it.
    pub open spec fn applied(self, n: NodeView) -> NodeView {
        match self {
            NodeFunction::Toggle => n.toggled(),
            NodeFunction::PushNegation => if n.negated && n.children.len() > 0 {
                NodeView {
                    children: n.children.map_values(|c: NodeView| c.toggled()),
                    ..n
                }.toggled()
            } else {
                n
            },
            NodeFunction::Flatten => NodeView { children: core_children(n), ..n },
        }
    }
}

impl NodeSearch {
    /// Whether the leaf is what is looked for.
    pub open spec fn matches(self, n: NodeView) -> bool {
        match self {
            NodeSearch::IsIff => n.operator == IFF@,
            NodeSearch::IsIf => n.operator == IF@,
            NodeSearch::IsLeftArrow => n.operator == LEFT_ARROW@,
        }
    }
}

impl NodeRewrite {
    /// The node after the rewriting around its part at `idx`.
    pub open spec fn rewritten(self, n: NodeView, idx: int) -> NodeView {
        let left = n.children.subrange(0, idx);
        let right = n.children.subrange(idx + 1, n.children.len() as int);
        match self {
            NodeRewrite::Iff => NodeView {
                children: seq![
                    group(
                        seq![group(left, false), connective_leaf(OR@), group(right, true)],
                        false,
                    ),
                    connective_leaf(AND@),
                    group(
                        seq![group(left, true), connective_leaf(OR@), group(right, false)],
                        false,
                    ),
                ],
                ..n
            },
            NodeRewrite::If => NodeView {
                children: seq![
                    group(
                        seq![group(left, true), connective_leaf(OR@), group(right, false)],
                        false,
                    ),
                ],
                ..n
            },
            NodeRewrite::MergeArrows => {
                let renamed = n.children.update(
                    idx,
                    NodeView { operator: IFF@, ..n.children[idx] },
                );
                NodeView {
                    children: if idx + 1 < renamed.len() {
                        renamed.remove(idx + 1)
                    } else {
                        renamed
                    },
                    ..n
                }
            },
        }
    }
}

/// The height of the highest of the first `n` trees of `cs`.
pub open spec fn heights(cs: Seq<NodeView>, n: int) -> nat
    decreases cs, n,
{
    if n <= 0 || n > cs.len() {
        0
    } else {
        let rest = heights(cs, n - 1);
        let last = height(cs[n - 1]);
        if last > rest {
            last
        } else {
            rest
        }
    }
}

/// The height of a tree: 1 for a leaf.
pub open spec fn height(n: NodeView) -> nat
    decreases n,
{
    1 + heights(n.children, n.children.len() as int)
}

/// The parts `cs` after a visit of the first `n` of them: the function is applied to each,
/// and, in a deep visit, the parts of what it gives are visited in turn, down to `fuel`
/// levels.
pub open spec fn visited_parts(cs: Seq<NodeView>, f: NodeFunction, deep: bool, fuel: nat, n: int) -> Seq<
    NodeView,
>
    decreases fuel, n,
{
    if n <= 0 || n > cs.len() {
        cs
    } else {
        let before = visited_parts(cs, f, deep, fuel, n - 1);
        let applied = f.applied(cs[n - 1]);
        before.update(
            n - 1,
            if deep && fuel > 0 {
                NodeView {
                    children: visited_parts(
                        applied.children,
                        f,
                        deep,
                        (fuel - 1) as nat,
                        applied.children.len() as int,
                    ),
                    ..applied
                }
            } else {
                applied
            },
        )
    }
}

/// The node after a visit of its parts.
pub open spec fn visited(n: NodeView, f: NodeFunction, deep: bool, fuel: nat) -> NodeView {
    NodeView { children: visited_parts(n.children, f, deep, fuel, n.children.len() as int), ..n }
}

/// The node after the search from its part `i` on: the first leaf that matches has the
/// node rewritten around it, which ends the search in this node; in a deep search every
/// bracketed part passed on the way is searched first, down to `fuel` levels.
pub open spec fn searched(n: NodeView, s: NodeSearch, r: NodeRewrite, deep: bool, fuel: nat, i: int) -> NodeView
    decreases fuel, n.children.len() - i,
{
    if i < 0 || i >= n.children.len() {
        n
    } else {
        let c = n.children[i];
        if c.literal > 0 || c.operator.len() != 0 {
            if s.matches(c) {
                r.rewritten(n, i)
            } else {
                searched(n, s, r, deep, fuel, i + 1)
            }
        } else if deep && fuel > 0 {
            searched(
                NodeView {
                    children: n.children.update(i, searched(c, s, r, deep, (fuel - 1) as nat, 0)),
                    ..n
                },
                s,
                r,
                deep,
                fuel,
                i + 1,
            )
        } else {
            searched(n, s, r, deep, fuel, i + 1)
        }
    }
}

impl FormulaNode {
    /// The height of the tree, as far as a machine number counts.
    pub fn tree_height(&self) -> (r: usize)
        ensures
            r == height(self@) || (r == usize::MAX && height(self@) >= usize::MAX),
        decreases self,
    {
        let mut top: usize = 0;
        let mut i: usize = 0;
        while i < self.children.len()
            invariant
                0 <= i <= self.children@.len(),
                top == heights(self@.children, i as int) || (top == usize::MAX && heights(
                    self@.children,
                    i as int,
                ) >= usize::MAX),
            decreases self.children@.len() - i,
        {
            let h = self.children[i].tree_height();
            assert(self@.children[i as int] == self.children@[i as int]@);
            if h > top {
                top = h;
            }
            i += 1;
        }
        if top == usize::MAX {
            usize::MAX
        } else {
            top + 1
        }
    }

    /// The node after `function` is applied to it.
    fn apply(&self, function: NodeFunction) -> (r: FormulaNode)
        ensures
            r@ == function.applied(self@),
    {
        let mut r = self.clone();
        match function {
            NodeFunction::Toggle => {
                r.toggle_negated();
            },
            NodeFunction::PushNegation => {
                if r.negated && r.children.len() > 0 {
                    let mut i: usize = 0;
                    while i < r.children.len()
                        invariant
                            0 <= i <= r.children@.len(),
                            r.children@.len() == self@.children.len(),
                            r.literal == self.literal,
                            r.operator@ == self.operator@,
                            r.negated == self.negated,
                            forall|k: int|
                                0 <= k < i ==> (#[trigger] r.children@[k])@
                                    == self@.children[k].toggled(),
                            forall|k: int|
                                i <= k < r.children@.len() ==> (#[trigger] r.children@[k])@
                                    == self@.children[k],
                        decreases r.children@.len() - i,
                    {
                        r.children[i].toggle_negated();
                        i += 1;
                    }
                    assert(r@.children =~= self@.children.map_values(|c: NodeView| c.toggled()));
                    r.toggle_negated();
                }
            },
            NodeFunction::Flatten => {
                let kept = self.flat_parts();
                r.set_children(kept);
            },
        }
        r
    }

    /// Copies of the parts that flattening leaves to the node.
    fn flat_parts(&self) -> (r: Vec<FormulaNode>)
        ensures
            node_views(r@) == core_children(self@),
        decreases self,
    {
        if self.children.len() == 1 && !self.children[0].is_literal() {
            assert(self@.children[0] == self.children@[0]@);
            self.children[0].flat_parts()
        } else {
            self.get_children(None, None)
        }
    }

    /// The parts after a visit, as copies.
    fn visit(&self, function: NodeFunction, deep: bool, fuel: usize) -> (r: Vec<FormulaNode>)
        ensures
            node_views(r@) == visited_parts(
                self@.children,
                function,
                deep,
                fuel as nat,
                self@.children.len() as int,
            ),
        decreases fuel,
    {
        let mut parts: Vec<FormulaNode> = self.get_children(None, None);
        assert(node_views(parts@) =~= self@.children);
        let ghost cs = self@.children;
        let mut i: usize = 0;
        while i < parts.len()
            invariant
                0 <= i <= parts@.len(),
                parts@.len() == cs.len(),
                cs == self@.children,
                node_views(parts@) == visited_parts(cs, function, deep, fuel as nat, i as int),
            decreases parts@.len() - i,
        {
            let ghost before = node_views(parts@);
            assert(self@.children[i as int] == self.children@[i as int]@);
            let mut applied = self.children[i].apply(function);
            if deep && fuel > 0 {
                let below = applied.visit(function, deep, fuel - 1);
                applied.set_children(below);
            }
            parts[i] = applied;
            assert(node_views(parts@) =~= before.update(i as int, applied@));
            i += 1;
        }
        parts
    }

    /// Applies `function` to every part of the node, and, when `deep`, to the parts of
    /// the parts, as far down as the tree is high.
    pub fn iter_child(&mut self, function: NodeFunction, deep: bool)
        ensures
            final(self)@ == visited(
                old(self)@,
                function,
                deep,
                if height(old(self)@) >= usize::MAX {
                    usize::MAX as nat
                } else {
                    height(old(self)@)
                },
            ),
    {
        if self.children.len() > 0 {
            let fuel = self.tree_height();
            let parts = self.visit(function, deep, fuel);
            self.set_children(parts);
        } else {
            assert(self@.children =~= visited_parts(
                self@.children,
                function,
                deep,
                if height(old(self)@) >= usize::MAX {
                    usize::MAX as nat
                } else {
                    height(old(self)@)
                },
                0,
            ));
        }
    }

    /// Whether the node is what `search` looks for.
    fn is_match(&self, search: NodeSearch) -> (r: bool)
        ensures
            r == search.matches(self@),
    {
        match search {
            NodeSearch::IsIff => same_text(self.operator.as_str(), IFF),
            NodeSearch::IsIf => same_text(self.operator.as_str(), IF),
            NodeSearch::IsLeftArrow => same_text(self.operator.as_str(), LEFT_ARROW),
        }
    }

    /// The node after the rewriting around its part at `idx`.
    fn rewrite(&self, rewrite: NodeRewrite, idx: usize) -> (r: FormulaNode)
        requires
            idx < self@.children.len(),
        ensures
            r@ == rewrite.rewritten(self@, idx as int),
    {
        let held = self.children.len();
        assert(idx < held);
        let mut r = self.clone();
        match rewrite {
            NodeRewrite::Iff => {
                let first = Self::implication(
                    self.get_children(None, Some(idx)),
                    false,
                    self.get_children(Some(idx + 1), None),
                    true,
                );
                let second = Self::implication(
                    self.get_children(None, Some(idx)),
                    true,
                    self.get_children(Some(idx + 1), None),
                    false,
                );
                let mut parts: Vec<FormulaNode> = Vec::new();
                parts.push(first);
                parts.push(FormulaNode::new_by_operator(AND.to_owned()));
                parts.push(second);
                assert(node_views(parts@) =~= rewrite.rewritten(self@, idx as int).children);
                r.set_children(parts);
            },
            NodeRewrite::If => {
                let only = Self::implication(
                    self.get_children(None, Some(idx)),
                    true,
                    self.get_children(Some(idx + 1), None),
                    false,
                );
                let mut parts: Vec<FormulaNode> = Vec::new();
                parts.push(only);
                assert(node_views(parts@) =~= rewrite.rewritten(self@, idx as int).children);
                r.set_children(parts);
            },
            NodeRewrite::MergeArrows => {
                let mut leaf = self.children[idx].clone();
                assert(leaf@ == self@.children[idx as int]);
                leaf.set_operator(IFF.to_owned());
                r.set_child(leaf, idx);
                r.remove_child(idx + 1);
            },
        }
        r
    }

    /// The disjunction of the bracketed `left` and the bracketed `right`, each negated or
    /// not.
    fn implication(
        left: Vec<FormulaNode>,
        left_negated: bool,
        right: Vec<FormulaNode>,
        right_negated: bool,
    ) -> (r: FormulaNode)
        ensures
            r@ == group(
                seq![
                    group(node_views(left@), left_negated),
                    connective_leaf(OR@),
                    group(node_views(right@), right_negated),
                ],
                false,
            ),
    {
        let mut parts: Vec<FormulaNode> = Vec::new();
        parts.push(FormulaNode::new_by_children(left, left_negated));
        parts.push(FormulaNode::new_by_operator(OR.to_owned()));
        parts.push(FormulaNode::new_by_children(right, right_negated));
        let r = FormulaNode::new_by_children(parts, false);
        assert(r@.children =~= seq![
            group(node_views(left@), left_negated),
            connective_leaf(OR@),
            group(node_views(right@), right_negated),
        ]);
        r
    }

    /// The node after the search from its part `from` on.
    fn search_from(&self, search: NodeSearch, rewrite: NodeRewrite, deep: bool, fuel: usize, from: usize) -> (r:
        FormulaNode)
        ensures
            r@ == searched(self@, search, rewrite, deep, fuel as nat, from as int),
        decreases fuel, self@.children.len() - from,
    {
        if from >= self.children.len() {
            return self.clone();
        }
        let child = &self.children[from];
        assert(child@ == self@.children[from as int]);
        if child.literal > 0 || !child.operator.as_str().is_empty() {
            if child.is_match(search) {
                self.rewrite(rewrite, from)
            } else {
                self.search_from(search, rewrite, deep, fuel, from + 1)
            }
        } else if deep && fuel > 0 {
            let found = child.search_from(search, rewrite, deep, fuel - 1, 0);
            let mut next = self.clone();
            next.set_child(found, from);
            next.search_from(search, rewrite, deep, fuel, from + 1)
        } else {
            self.search_from(search, rewrite, deep, fuel, from + 1)
        }
    }

    /// Looks among the parts for the first leaf that `search_fn` matches and has
    /// `found_fn` rewrite the node around it; when `deep`, every bracketed part passed on
    /// the way is searched first, as far down as the tree is high.
    pub fn find_node_with_child(&mut self, search_fn: NodeSearch, found_fn: NodeRewrite, deep: bool)
        ensures
            final(self)@ == searched(
                old(self)@,
                search_fn,
                found_fn,
                deep,
                if height(old(self)@) >= usize::MAX {
                    usize::MAX as nat
                } else {
                    height(old(self)@)
                },
                0,
            ),
    {
        let fuel = self.tree_height();
        let found = self.search_from(search_fn, found_fn, deep, fuel, 0);
        *self = found;
    }
}

/// The number that a token writes, if it writes one that fits, else 0.
pub open spec fn number_of(w: Seq<char>) -> i32 {
    match parse_isize(w) {
        Some(v) => if i32::MIN <= v <= i32::MAX {
            v as i32
        } else {
            0
        },
        None => 0,
    }
}

/// The leaf that a single token gives: a connective leaf for a connective, else a
/// variable leaf with the number that the token writes.
pub open spec fn leaf_of(w: Seq<char>, negated: bool) -> NodeView {
    if is_connective(w) {
        NodeView { children: Seq::empty(), literal: 0, operator: w, negated: negated }
    } else {
        NodeView {
            children: Seq::empty(),
            literal: number_of(w),
            operator: Seq::empty(),
            negated: negated,
        }
    }
}

/// Every open bracket among the tokens from `from` to `to` has its partner before `to`,
/// and brackets inside a pair have their partners inside the pair.
pub open spec fn well_bracketed(ws: Seq<Seq<char>>, pairs: Map<usize, usize>, from: int, to: int) -> bool {
    &&& 0 <= from <= to <= ws.len() <= usize::MAX
    &&& forall|i: int|
        from <= i < to && #[trigger] ws[i] == "("@ ==> pairs.contains_key(i as usize) && i
            < pairs[i as usize] < to
    &&& forall|i: int, j: int|
        from <= i < j < to && #[trigger] ws[i] == "("@ && #[trigger] ws[j] == "("@ && j
            < pairs[i as usize] ==> pairs[j as usize] < pairs[i as usize]
}

/// The tree of the tokens from `from` to `to`: a leaf for a single token, else a
/// bracketed formula of the parts.
pub open spec fn built(ws: Seq<Seq<char>>, pairs: Map<usize, usize>, from: int, to: int, negated: bool) -> NodeView
    decreases to - from, 1int, 0int,
{
    if to - from == 1 {
        leaf_of(ws[from], negated)
    } else {
        NodeView {
            children: parts_from(ws, pairs, from, to, from, false),
            literal: 0,
            operator: Seq::empty(),
            negated: negated,
        }
    }
}

/// The parts that the tokens from `idx` to `to` give: a minus negates the part that
/// follows it, a bracket gives the tree of what it holds, any other token gives a leaf.
/// The negation is taken up by a bracket or a variable, not by a connective.
pub open spec fn parts_from(
    ws: Seq<Seq<char>>,
    pairs: Map<usize, usize>,
    from: int,
    to: int,
    idx: int,
    negation: bool,
) -> Seq<NodeView>
    decreases to - from, 0int, to - idx,
{
    if idx < from || idx >= to {
        Seq::empty()
    } else if ws[idx] == NOT@ {
        parts_from(ws, pairs, from, to, idx + 1, true)
    } else if ws[idx] == "("@ {
        let close = pairs[idx as usize] as int;
        if idx < close < to {
            seq![built(ws, pairs, idx + 1, close, negation)] + parts_from(
                ws,
                pairs,
                from,
                to,
                close + 1,
                false,
            )
        } else {
            Seq::empty()
        }
    } else if is_connective(ws[idx]) {
        seq![leaf_of(ws[idx], negation)] + parts_from(ws, pairs, from, to, idx + 1, negation)
    } else {
        seq![leaf_of(ws[idx], negation)] + parts_from(ws, pairs, from, to, idx + 1, false)
    }
}

impl FormulaNode {
    /// The leaf that a single token gives.
    fn leaf(word: &str, negated: bool) -> (r: FormulaNode)
        ensures
            r@ == leaf_of(word@, negated),
    {
        if connective(word) {
            let r = FormulaNode {
                children: Vec::new(),
                literal: 0,
                operator: word.to_owned(),
                negated: negated,
            };
            assert(r@.children =~= Seq::<NodeView>::empty());
            r
        } else {
            let letters = chars_of(word);
            let number: i32 = match read_isize(&letters) {
                Some(v) => if v >= -2147483648 && v <= 2147483647 {
                    v as i32
                } else {
                    0
                },
                None => 0,
            };
            FormulaNode::new_by_literal(number, negated)
        }
    }

    /// The tree of the tokens from `from` to `to`.
    fn build(tokens: &Vec<String>, pairs: &HashMap<usize, usize>, from: usize, to: usize, negated: bool) -> (r:
        FormulaNode)
        requires
            well_bracketed(token_views(tokens@), pairs@, from as int, to as int),
        ensures
            r@ == built(token_views(tokens@), pairs@, from as int, to as int, negated),
        decreases to - from,
    {
        broadcast use vstd::std_specs::hash::group_hash_axioms;

        let ghost ws = token_views(tokens@);
        if to - from == 1 {
            assert(ws[from as int] == tokens@[from as int]@);
            return Self::leaf(tokens[from].as_str(), negated);
        }
        let mut children: Vec<FormulaNode> = Vec::new();
        let mut idx: usize = from;
        let mut negation = false;
        let ghost goal = parts_from(ws, pairs@, from as int, to as int, from as int, false);
        assert(node_views(children@) =~= Seq::<NodeView>::empty());
        while idx < to
            invariant
                from <= idx <= to,
                to - from != 1,
                ws == token_views(tokens@),
                well_bracketed(ws, pairs@, from as int, to as int),
                goal == node_views(children@) + parts_from(
                    ws,
                    pairs@,
                    from as int,
                    to as int,
                    idx as int,
                    negation,
                ),
            decreases to - idx,
        {
            let element = tokens[idx].as_str();
            assert(element@ == ws[idx as int]);
            let ghost done = node_views(children@);
            if same_text(element, NOT) {
                negation = true;
                idx += 1;
            } else if same_text(element, "(") {
                let close: usize = match pairs.get(&idx) {
                    Some(close) => *close,
                    None => {
                        assert(false);
                        to
                    },
                };
                assert(well_bracketed(ws, pairs@, idx as int + 1, close as int)) by {
                    assert forall|i: int|
                        idx + 1 <= i < close && #[trigger] ws[i] == "("@ implies pairs@.contains_key(
                        i as usize,
                    ) && i < pairs@[i as usize] < close by {
                        assert(ws[idx as int] == "("@);
                    }
                }
                let child = Self::build(tokens, pairs, idx + 1, close, negation);
                children.push(child);
                assert(node_views(children@) =~= done.push(child@));
                assert(goal =~= node_views(children@) + parts_from(
                    ws,
                    pairs@,
                    from as int,
                    to as int,
                    close as int + 1,
                    false,
                ));
                negation = false;
                idx = close + 1;
            } else if connective(element) {
                let child = Self::leaf(element, negation);
                children.push(child);
                assert(node_views(children@) =~= done.push(child@));
                assert(goal =~= node_views(children@) + parts_from(
                    ws,
                    pairs@,
                    from as int,
                    to as int,
                    idx as int + 1,
                    negation,
                ));
                idx += 1;
            } else {
                let child = Self::leaf(element, negation);
                children.push(child);
                assert(node_views(children@) =~= done.push(child@));
                assert(goal =~= node_views(children@) + parts_from(
                    ws,
                    pairs@,
                    from as int,
                    to as int,
                    idx as int + 1,
                    false,
                ));
                negation = false;
                idx += 1;
            }
        }
        assert(goal =~= node_views(children@));
        FormulaNode::new_by_children(children, negated)
    }

    /// The tree of the formula that the tokens `subformula` write, with the brackets
    /// paired by `parenthesis`.
    pub fn new(subformula: Vec<String>, parenthesis: HashMap<usize, usize>, negated: bool) -> (r:
        FormulaNode)
        requires
            well_bracketed(
                token_views(subformula@),
                parenthesis@,
                0,
                subformula@.len() as int,
            ),
        ensures
            r@ == built(
                token_views(subformula@),
                parenthesis@,
                0,
                subformula@.len() as int,
                negated,
            ),
    {
        let to = subformula.len();
        Self::build(&subformula, &parenthesis, 0, to, negated)
    }
}

/// None of the first `n` trees of `cs` is higher than the highest of them.
pub proof fn lemma_heights_cover(cs: Seq<NodeView>, n: int, i: int)
    requires
        0 <= i < n <= cs.len(),
    ensures
        height(cs[i]) <= heights(cs, n),
    decreases n,
{
    if i < n - 1 {
        lemma_heights_cover(cs, n - 1, i);
    }
}

/// The highest of trees that are each no higher than `bound` is no higher than `bound`.
pub proof fn lemma_heights_within(cs: Seq<NodeView>, n: int, bound: nat)
    requires
        0 <= n <= cs.len(),
        forall|i: int| 0 <= i < n ==> height(#[trigger] cs[i]) <= bound,
    ensures
        heights(cs, n) <= bound,
    decreases n,
{
    if n > 0 {
        lemma_heights_within(cs, n - 1, bound);
    }
}

/// What flattening leaves to a node is no higher than its parts were.
pub proof fn lemma_flat_parts_are_no_higher(n: NodeView)
    ensures
        heights(core_children(n), core_children(n).len() as int) <= heights(
            n.children,
            n.children.len() as int,
        ),
    decreases n,
{
    if n.children.len() == 1 && !n.children[0].is_literal() {
        lemma_flat_parts_are_no_higher(n.children[0]);
        lemma_heights_cover(n.children, 1, 0);
    }
}

/// No function of a visit makes a node higher.
pub proof fn lemma_applied_is_no_higher(f: NodeFunction, n: NodeView)
    ensures
        height(f.applied(n)) <= height(n),
{
    match f {
        NodeFunction::Toggle => {},
        NodeFunction::PushNegation => {
            if n.negated && n.children.len() > 0 {
                let turned = n.children.map_values(|c: NodeView| c.toggled());
                assert forall|i: int| 0 <= i < turned.len() implies height(#[trigger] turned[i])
                    <= heights(n.children, n.children.len() as int) by {
                    assert(turned[i].children == n.children[i].children);
                    lemma_heights_cover(n.children, n.children.len() as int, i);
                }
                lemma_heights_within(
                    turned,
                    turned.len() as int,
                    heights(n.children, n.children.len() as int),
                );
            }
        },
        NodeFunction::Flatten => {
            lemma_flat_parts_are_no_higher(n);
        },
    }
}

/// A visit that may go as deep as its trees are high goes no deeper when it may.
pub proof fn lemma_visit_depth(
    cs: Seq<NodeView>,
    f: NodeFunction,
    deep: bool,
    fuel: nat,
    more: nat,
    n: int,
)
    requires
        heights(cs, cs.len() as int) <= fuel <= more,
    ensures
        visited_parts(cs, f, deep, fuel, n) == visited_parts(cs, f, deep, more, n),
    decreases fuel, n,
{
    if 0 < n <= cs.len() {
        lemma_visit_depth(cs, f, deep, fuel, more, n - 1);
        let applied = f.applied(cs[n - 1]);
        lemma_applied_is_no_higher(f, cs[n - 1]);
        lemma_heights_cover(cs, cs.len() as int, n - 1);
        if deep {
            lemma_visit_depth(
                applied.children,
                f,
                deep,
                (fuel - 1) as nat,
                (more - 1) as nat,
                applied.children.len() as int,
            );
        }
    }
}

/// A search that may go as deep as the parts it has yet to pass are high goes no deeper
/// when it may.
pub proof fn lemma_search_depth(
    n: NodeView,
    s: NodeSearch,
    r: NodeRewrite,
    deep: bool,
    fuel: nat,
    more: nat,
    i: int,
)
    requires
        fuel <= more,
        forall|j: int| i <= j < n.children.len() && 0 <= j ==> height(#[trigger] n.children[j]) <= fuel,
    ensures
        searched(n, s, r, deep, fuel, i) == searched(n, s, r, deep, more, i),
    decreases fuel, n.children.len() - i,
{
    if 0 <= i < n.children.len() {
        let c = n.children[i];
        if c.literal > 0 || c.operator.len() != 0 {
            if !s.matches(c) {
                lemma_search_depth(n, s, r, deep, fuel, more, i + 1);
            }
        } else if deep {
            assert(height(c) <= fuel);
            assert forall|j: int| 0 <= j < c.children.len() implies height(#[trigger] c.children[j])
                <= fuel - 1 by {
                lemma_heights_cover(c.children, c.children.len() as int, j);
            }
            lemma_search_depth(c, s, r, deep, (fuel - 1) as nat, (more - 1) as nat, 0);
            let inner = searched(c, s, r, deep, (fuel - 1) as nat, 0);
            let next = NodeView { children: n.children.update(i, inner), ..n };
            assert forall|j: int| i + 1 <= j < next.children.len() && 0 <= j implies height(
                #[trigger] next.children[j],
            ) <= fuel by {
                assert(next.children[j] == n.children[j]);
            }
            lemma_search_depth(next, s, r, deep, fuel, more, i + 1);
        } else {
            lemma_search_depth(n, s, r, deep, fuel, more, i + 1);
        }
    }
}

/// A deep visit that may go as deep as the tree is high reaches every part: leave to go
/// deeper changes nothing.
pub proof fn law_a_visit_reaches_every_part(n: NodeView, f: NodeFunction, deep: bool, more: nat)
    requires
        more >= height(n),
    ensures
        visited(n, f, deep, more) == visited(n, f, deep, height(n)),
{
    lemma_visit_depth(n.children, f, deep, height(n), more, n.children.len() as int);
}

/// A deep search that may go as deep as the tree is high reaches every part: leave to go
/// deeper changes nothing.
pub proof fn law_a_search_reaches_every_part(
    n: NodeView,
    s: NodeSearch,
    r: NodeRewrite,
    deep: bool,
    more: nat,
)
    requires
        more >= height(n),
    ensures
        searched(n, s, r, deep, more, 0) == searched(n, s, r, deep, height(n), 0),
{
    assert forall|j: int| 0 <= j < n.children.len() implies height(#[trigger] n.children[j])
        <= height(n) by {
        lemma_heights_cover(n.children, n.children.len() as int, j);
    }
    lemma_search_depth(n, s, r, deep, height(n), more, 0);
}

} // verus!
