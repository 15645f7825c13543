use vstd::prelude::*;
use vstd::std_specs::cmp::PartialEqSpecImpl;
use vstd::std_specs::ops::AddSpecImpl;
use crate::decision::{on_trail, trail_names, trail_view, Decision};
use crate::literal::lits_in_range;
use crate::model::{lit_value, Model, ModelValue};
use crate::normal::{
    add_lit, add_lit_exec, contains_lit, has_complements, has_complements_exec, normalize,
    normalize_vec, normalized,
};
use crate::sat::SAT;
use crate::text::{
    chars_of, is_rejected, line_literals, read_literals, rejected_line, split, Cut,
};
use crate::watch::{lemma_scan, scan};

verus! {

/// What a clause stands for.
pub struct ClauseView {
    /// Identifier under which the clause appears in proofs.
    pub id: usize,
    /// The literals, ordered by variable, none twice.
    pub literals: Seq<isize>,
    /// The decision level at which the clause was found satisfied, if it was.
    pub satisfied: Option<usize>,
    /// Whether a literal stands beside its complement.
    pub tautology: bool,
    /// Positions of the two watched literals, smaller first.
    pub watches: (usize, usize),
    /// Whether the clause has served as an antecedent of a resolution step.
    pub used: bool,
}

/// Where the watches of a clause of `len` literals start.
pub open spec fn fresh_watches(len: nat) -> (usize, usize) {
    if len > 1 {
        (0usize, 1usize)
    } else {
        (0usize, 0usize)
    }
}

/// A pair of positions with the smaller first.
pub open spec fn ordered(w: (usize, usize)) -> (usize, usize) {
    if w.0 > w.1 {
        (w.1, w.0)
    } else {
        w
    }
}

/// `s` without every occurrence of `x`.
pub open spec fn without(s: Seq<isize>, x: isize) -> Seq<isize> {
    s.filter(|y: isize| y != x)
}

impl ClauseView {
    /// The invariant of a clause: literals in normal form, the tautology mark in step
    /// with them, watches ordered and inside the clause.
    pub open spec fn wf(self) -> bool {
        &&& normalized(self.literals)
        &&& self.literals.len() <= usize::MAX
        &&& self.tautology == has_complements(self.literals)
        &&& self.watches.0 <= self.watches.1
        &&& (self.literals.len() == 0 ==> self.watches.1 == 0)
        &&& (self.literals.len() > 0 ==> self.watches.1 < self.literals.len())
    }

    /// Marked satisfied: found satisfied at some level, or a tautology.
    pub open spec fn marked(self) -> bool {
        self.satisfied is Some || self.tautology
    }

    /// The watches have met on one literal.
    pub open spec fn unit(self) -> bool {
        self.watches.0 == self.watches.1
    }

    /// The clause with literals `lits`: watches at their start, tautology mark recomputed,
    /// identifier, satisfaction mark and use mark kept.
    pub open spec fn with_literals(self, lits: Seq<isize>) -> ClauseView {
        ClauseView {
            literals: lits,
            tautology: has_complements(lits),
            watches: fresh_watches(lits.len()),
            ..self
        }
    }

    /// The clause after the satisfaction reset at `level`: the watches restart in every
    /// case; a mark set at `level` or above is cleared, a mark set below `level` is kept.
    pub open spec fn reset(self, level: usize) -> ClauseView {
        ClauseView {
            satisfied: if self.reset_clears(level) {
                None
            } else {
                self.satisfied
            },
            watches: fresh_watches(self.literals.len()),
            ..self
        }
    }

    /// Whether the reset at `level` clears a satisfaction mark.
    pub open spec fn reset_clears(self, level: usize) -> bool {
        self.satisfied is Some && self.satisfied->0 >= level
    }

    /// The verdict of evaluating the clause under `m`.
    pub open spec fn verdict(self, m: Seq<ModelValue>) -> SAT {
        if self.marked() {
            SAT::Satisfiable
        } else {
            scan(self.literals, m, self.watches.0 as int, self.watches.1 as int).2
        }
    }

    /// The clause after evaluating it under `m` at decision level `level`: a marked clause
    /// is left alone; otherwise the watches stand where the search stopped, and the clause
    /// is marked satisfied at `level` if the search met a satisfied literal.
    pub open spec fn evaluated(self, m: Seq<ModelValue>, level: usize) -> ClauseView {
        if self.marked() {
            self
        } else {
            let end = scan(self.literals, m, self.watches.0 as int, self.watches.1 as int);
            ClauseView {
                watches: (end.0 as usize, end.1 as usize),
                satisfied: if end.2 == SAT::Satisfiable {
                    Some(level)
                } else {
                    None
                },
                ..self
            }
        }
    }

    /// Whether every literal of the clause is named, as it is or complemented, by `trail`.
    pub open spec fn asserted_by(self, trail: Seq<crate::decision::DecisionView>) -> bool {
        forall|i: int|
            0 <= i < self.literals.len() ==> on_trail(trail, #[trigger] self.literals[i]) || (
            self.literals[i] != isize::MIN && on_trail(trail, (-self.literals[i]) as isize))
    }
}

/// A disjunction of literals with its two watches and its satisfaction mark.
pub struct Clause {
    clause_id: usize,
    literals: Vec<isize>,
    satisfied: Option<usize>,
    is_always_satisfied: bool,
    two_watched_literals: (usize, usize),
    pub learned_clause_is_used_somewhere: bool,
}

impl View for Clause {
    type V = ClauseView;

    closed spec fn view(&self) -> ClauseView {
        ClauseView {
            id: self.clause_id,
            literals: self.literals@,
            satisfied: self.satisfied,
            tautology: self.is_always_satisfied,
            watches: self.two_watched_literals,
            used: self.learned_clause_is_used_somewhere,
        }
    }
}

impl Clone for Clause {
    fn clone(&self) -> (r: Clause)
        ensures
            r@ == self@,
    {
        Clause {
            clause_id: self.clause_id,
            literals: self.literals.clone(),
            satisfied: self.satisfied,
            is_always_satisfied: self.is_always_satisfied,
            two_watched_literals: self.two_watched_literals,
            learned_clause_is_used_somewhere: self.learned_clause_is_used_somewhere,
        }
    }
}

impl Clause {
    /// The empty clause with identifier 0.
    pub fn new() -> (r: Clause)
        ensures
            r@ == (ClauseView {
                id: 0,
                literals: Seq::empty(),
                satisfied: None,
                tautology: false,
                watches: (0usize, 0usize),
                used: false,
            }),
            r@.wf(),
    {
        Clause {
            clause_id: 0,
            literals: Vec::new(),
            satisfied: None,
            is_always_satisfied: false,
            two_watched_literals: (0, 0),
            learned_clause_is_used_somewhere: false,
        }
    }

    pub fn set_id(&mut self, id: usize)
        ensures
            final(self)@ == (ClauseView { id: id, ..old(self)@ }),
    {
        self.clause_id = id;
    }

    pub fn get_id(&self) -> (r: usize)
        ensures
            r == self@.id,
    {
        self.clause_id
    }

    /// Records that the clause served as an antecedent of a resolution step.
    pub fn mark_used(&mut self)
        ensures
            final(self)@ == (ClauseView { used: true, ..old(self)@ }),
    {
        self.learned_clause_is_used_somewhere = true;
    }

    /// Reads the clause that the line `literal_string` writes: its white-space separated
    /// tokens that are nonzero integers. A line that is no clause is refused and leaves the
    /// clause as it was.
    pub fn load_string(&mut self, literal_string: String) -> (r: Result<(), ()>)
        ensures
            r is Err <==> rejected_line(literal_string@),
            r is Err ==> final(self)@ == old(self)@,
            r is Ok ==> final(self)@ == old(self)@.with_literals(
                normalize(line_literals(literal_string@)),
            ),
            r is Ok ==> final(self)@.wf(),
    {
        let text = chars_of(literal_string.as_str());
        self.load_chars(&text)
    }

    /// Reads the clause that the characters `text` write, as `load_string` does.
    pub fn load_chars(&mut self, text: &Vec<char>) -> (r: Result<(), ()>)
        ensures
            r is Err <==> rejected_line(text@),
            r is Err ==> final(self)@ == old(self)@,
            r is Ok ==> final(self)@ == old(self)@.with_literals(normalize(line_literals(text@))),
            r is Ok ==> final(self)@.wf(),
    {
        let tokens = split(text, Cut::Words);
        if is_rejected(&tokens) {
            return Err(());
        }
        self.load_vec(read_literals(&tokens));
        Ok(())
    }

    /// Replaces the literals by the normal form of `literals`.
    pub fn load_vec(&mut self, literals: Vec<isize>)
        ensures
            final(self)@ == old(self)@.with_literals(normalize(literals@)),
            final(self)@.wf(),
    {
        self.literals = literals;
        self.check_literals();
    }

    /// Adds `literal` unless the clause holds it already.
    pub fn add_literal(&mut self, literal: isize)
        requires
            old(self)@.wf(),
        ensures
            final(self)@ == old(self)@.with_literals(add_lit(old(self)@.literals, literal)),
            final(self)@.wf(),
    {
        add_lit_exec(&mut self.literals, literal);
        self.restart();
    }

    /// Removes `literal` from the clause.
    pub fn remove_literal(&mut self, literal: isize)
        requires
            old(self)@.wf(),
        ensures
            final(self)@ == old(self)@.with_literals(without(old(self)@.literals, literal)),
            final(self)@.wf(),
    {
        let ghost before = self.literals@;
        let mut kept: Vec<isize> = Vec::new();
        let mut i: usize = 0;
        assert(before.take(0) =~= Seq::<isize>::empty());
        while i < self.literals.len()
            invariant
                0 <= i <= before.len(),
                self.literals@ == before,
                kept@ == without(before.take(i as int), literal),
            decreases before.len() - i,
        {
            proof {
                let t = before.take((i + 1) as int);
                assert(t.drop_last() =~= before.take(i as int));
                lemma_without_push(before.take(i as int), before[i as int], literal);
                assert(t =~= before.take(i as int).push(before[i as int]));
            }
            if self.literals[i] != literal {
                kept.push(self.literals[i]);
            }
            i += 1;
        }
        proof {
            assert(before.take(before.len() as int) =~= before);
            lemma_without_normalized(before, literal);
        }
        self.literals = kept;
        self.restart();
    }

    pub fn literals_len(&self) -> (r: usize)
        ensures
            r == self@.literals.len(),
    {
        self.literals.len()
    }

    pub fn get_literal(&self, idx: usize) -> (r: isize)
        requires
            idx < self@.literals.len(),
        ensures
            r == self@.literals[idx as int],
    {
        self.literals[idx]
    }

    pub fn contains_literal(&self, literal: isize) -> (r: bool)
        ensures
            r == self@.literals.contains(literal),
    {
        contains_lit(&self.literals, literal)
    }

    /// The literals in clause order.
    pub fn iter_literals(&self) -> (r: &Vec<isize>)
        ensures
            r@ == self@.literals,
    {
        &self.literals
    }

    /// Whether the two watches stand on the same literal.
    pub fn is_unit_clause(&self) -> (r: bool)
        ensures
            r == self@.unit(),
    {
        self.two_watched_literals.0 == self.two_watched_literals.1
    }

    /// Whether the clause is marked satisfied.
    pub fn is_satisfied(&self) -> (r: bool)
        ensures
            r == self@.marked(),
    {
        self.satisfied.is_some() || self.is_always_satisfied
    }

    /// Whether the clause holds a literal together with its complement.
    pub fn is_tautology(&self) -> (r: bool)
        ensures
            r == self@.tautology,
    {
        self.is_always_satisfied
    }

    /// The positions of the two watched literals, the smaller first.
    pub fn watched_positions(&self) -> (r: (usize, usize))
        ensures
            r == self@.watches,
    {
        self.two_watched_literals
    }

    /// The decision level at which the clause was found satisfied, if it was.
    pub fn satisfied_level(&self) -> (r: Option<usize>)
        ensures
            r == self@.satisfied,
    {
        self.satisfied
    }

    /// Undoes what evaluation at `current_decision_level` or above did to the clause, and
    /// tells whether a satisfaction mark was cleared.
    pub fn reset_satisfied(&mut self, current_decision_level: usize) -> (r: bool)
        requires
            old(self)@.wf(),
        ensures
            final(self)@ == old(self)@.reset(current_decision_level),
            r == old(self)@.reset_clears(current_decision_level),
            final(self)@.wf(),
    {
        self.restart_watches();
        match self.satisfied {
            Some(satisfied_level) => {
                if satisfied_level >= current_decision_level {
                    self.satisfied = None;
                    return true;
                }
            },
            None => {},
        }
        false
    }

    /// The position of the first watch for `idx` 0, of the second for any other `idx`.
    fn get_watched_literal_idx(&self, idx: usize) -> (r: usize)
        ensures
            r == if idx == 0 {
                self@.watches.0
            } else {
                self@.watches.1
            },
    {
        if idx == 0 {
            self.two_watched_literals.0
        } else {
            self.two_watched_literals.1
        }
    }

    /// Moves the first watch, for `idx` 0, or else the second, to `value`, and puts the
    /// two watches in order.
    fn set_watched_literal_idx(&mut self, idx: usize, value: usize)
        ensures
            final(self)@ == (ClauseView {
                watches: ordered(
                    if idx == 0 {
                        (value, old(self)@.watches.1)
                    } else {
                        (old(self)@.watches.0, value)
                    },
                ),
                ..old(self)@
            }),
    {
        if idx == 0 {
            self.two_watched_literals.0 = value;
        } else {
            self.two_watched_literals.1 = value;
        }
        if self.two_watched_literals.0 > self.two_watched_literals.1 {
            let temp = self.two_watched_literals.0;
            self.two_watched_literals.0 = self.two_watched_literals.1;
            self.two_watched_literals.1 = temp;
        }
    }

    fn restart_watches(&mut self)
        ensures
            final(self)@ == (ClauseView {
                watches: fresh_watches(old(self)@.literals.len()),
                ..old(self)@
            }),
    {
        if self.literals.len() > 1 {
            self.two_watched_literals = (0, 1);
        } else {
            self.two_watched_literals = (0, 0);
        }
    }

    fn restart(&mut self)
        requires
            normalized(old(self).literals@),
        ensures
            final(self)@ == old(self)@.with_literals(old(self)@.literals),
            final(self)@.wf(),
    {
        self.is_always_satisfied = has_complements_exec(&self.literals);
        let len = self.literals.len();
        self.restart_watches();
    }

    /// The two watched literals, the one at the smaller position first.
    pub fn get_watched_literals(&self) -> (r: (isize, isize))
        requires
            self@.wf(),
            self@.literals.len() > 0,
        ensures
            r.0 == self@.literals[self@.watches.0 as int],
            r.1 == self@.literals[self@.watches.1 as int],
    {
        (self.literals[self.two_watched_literals.0], self.literals[self.two_watched_literals.1])
    }

    /// Brings the literals into normal form, recomputes the tautology mark and restarts
    /// the watches.
    pub fn check_literals(&mut self)
        ensures
            final(self)@ == old(self)@.with_literals(normalize(old(self)@.literals)),
            final(self)@.wf(),
    {
        self.literals = normalize_vec(&self.literals);
        self.restart();
    }

    /// Evaluates the clause under `model` at `decision_level`, moving the watches and
    /// marking the clause when a watched literal is satisfied.
    pub fn is_satisfied_by_model(&mut self, model: &Model, decision_level: usize) -> (r: SAT)
        requires
            old(self)@.wf(),
            old(self)@.literals.len() > 0,
            lits_in_range(old(self)@.literals, model@.len() as int),
        ensures
            final(self)@ == old(self)@.evaluated(model@, decision_level),
            r == old(self)@.verdict(model@),
            final(self)@.wf(),
            r == SAT::Satisfiable <==> final(self)@.marked(),
    {
        if self.is_always_satisfied || self.satisfied.is_some() {
            return SAT::Satisfiable;
        }
        let ghost start = self@;
        let n = self.literals.len();
        proof {
            lemma_scan(start.literals, model@, start.watches.0 as int, start.watches.1 as int);
        }
        loop
            invariant
                self@ == (ClauseView { watches: self@.watches, ..start }),
                start == old(self)@,
                n == start.literals.len(),
                self@.watches.0 <= self@.watches.1 < n,
                !start.marked(),
                start.wf(),
                lits_in_range(start.literals, model@.len() as int),
                scan(start.literals, model@, self@.watches.0 as int, self@.watches.1 as int)
                    == scan(start.literals, model@, start.watches.0 as int, start.watches.1 as int),
            decreases
                (if self@.watches.0 == self@.watches.1 {
                    0
                } else {
                    1 + 2 * n - self@.watches.0 - self@.watches.1
                }),
        {
            let w0 = self.get_watched_literal_idx(0);
            let w1 = self.get_watched_literal_idx(1);
            let v0 = model.satisfies(self.literals[w0]);
            assert(v0 == lit_value(model@, start.literals[w0 as int]));
            let ghost end = scan(start.literals, model@, w0 as int, w1 as int);
            if v0 == SAT::Satisfiable {
                assert(end == (w0 as int, w1 as int, SAT::Satisfiable));
                self.satisfied = Some(decision_level);
                return SAT::Satisfiable;
            }
            if v0 == SAT::Unsatisfiable {
                if w0 == w1 {
                    assert(end == (w0 as int, w1 as int, SAT::Unsatisfiable));
                    return SAT::Unsatisfiable;
                }
                if w1 == n - 1 {
                    self.set_watched_literal_idx(0, w1);
                } else {
                    self.set_watched_literal_idx(0, w1 + 1);
                }
                continue ;
            }
            let v1 = model.satisfies(self.literals[w1]);
            if v1 == SAT::Satisfiable {
                self.satisfied = Some(decision_level);
                return SAT::Satisfiable;
            }
            if v1 == SAT::Unsatisfiable {
                if w1 == n - 1 {
                    self.set_watched_literal_idx(1, w0);
                } else {
                    self.set_watched_literal_idx(1, w1 + 1);
                }
                continue ;
            }
            return SAT::Unknown;
        }
    }

    /// Whether the trail names every literal of the clause, as it is or complemented.
    pub fn is_assertion_clause(&self, decisions: &Vec<Decision>) -> (r: bool)
        ensures
            r == self@.asserted_by(trail_view(decisions@)),
    {
        let mut i: usize = 0;
        while i < self.literals.len()
            invariant
                0 <= i <= self.literals@.len(),
                forall|j: int|
                    0 <= j < i ==> on_trail(
                        trail_view(decisions@),
                        #[trigger] self.literals@[j],
                    ) || (self.literals@[j] != isize::MIN && on_trail(
                        trail_view(decisions@),
                        (-self.literals@[j]) as isize,
                    )),
            decreases self.literals@.len() - i,
        {
            let literal = self.literals[i];
            let named = trail_names(decisions, literal) || (literal != isize::MIN && trail_names(
                decisions,
                -literal,
            ));
            if !named {
                assert(literal == self@.literals[i as int]);
                return false;
            }
            i += 1;
        }
        true
    }

    /// The literals of this clause that `other` holds too, in the order of this clause.
    pub fn get_common_literals(&self, other: &Clause) -> (r: Vec<isize>)
        ensures
            r@ == self@.literals.filter(|x: isize| other@.literals.contains(x)),
    {
        let mut common_literals: Vec<isize> = Vec::new();
        let mut i: usize = 0;
        let ghost keep = |x: isize| other@.literals.contains(x);
        assert(self.literals@.take(0) =~= Seq::<isize>::empty());
        while i < self.literals.len()
            invariant
                0 <= i <= self.literals@.len(),
                keep == (|x: isize| other@.literals.contains(x)),
                common_literals@ == self.literals@.take(i as int).filter(keep),
            decreases self.literals@.len() - i,
        {
            proof {
                let t = self.literals@.take((i + 1) as int);
                assert(t.drop_last() =~= self.literals@.take(i as int));
                reveal(Seq::filter);
            }
            if contains_lit(&other.literals, self.literals[i]) {
                common_literals.push(self.literals[i]);
            }
            i += 1;
        }
        assert(self.literals@.take(self.literals@.len() as int) =~= self.literals@);
        common_literals
    }

    /// The clause sum: a fresh clause over the literals of both clauses.
    pub fn sum(&self, other: &Clause) -> (r: Clause)
        ensures
            r@ == Clause::spec_sum(self@, other@),
            r@.wf(),
    {
        let mut literals: Vec<isize> = Vec::new();
        let mut i: usize = 0;
        while i < self.literals.len()
            invariant
                0 <= i <= self.literals@.len(),
                literals@ == self.literals@.take(i as int),
            decreases self.literals@.len() - i,
        {
            literals.push(self.literals[i]);
            assert(self.literals@.take(i + 1) =~= self.literals@.take(i as int).push(
                self.literals@[i as int],
            ));
            i += 1;
        }
        assert(self.literals@.take(self.literals@.len() as int) =~= self.literals@);
        let mut j: usize = 0;
        while j < other.literals.len()
            invariant
                0 <= j <= other.literals@.len(),
                literals@ == self.literals@ + other.literals@.take(j as int),
            decreases other.literals@.len() - j,
        {
            literals.push(other.literals[j]);
            assert(other.literals@.take(j + 1) =~= other.literals@.take(j as int).push(
                other.literals@[j as int],
            ));
            assert(self.literals@ + other.literals@.take(j + 1) =~= (self.literals@
                + other.literals@.take(j as int)).push(other.literals@[j as int]));
            j += 1;
        }
        assert(other.literals@.take(other.literals@.len() as int) =~= other.literals@);
        let mut r = Clause::new();
        r.load_vec(literals);
        r
    }

    /// The clause sum of two clauses: identifier 0, unmarked, unused, over the normal form
    /// of the two literal sequences laid end to end.
    pub open spec fn spec_sum(a: ClauseView, b: ClauseView) -> ClauseView {
        let lits = normalize(a.literals + b.literals);
        ClauseView {
            id: 0,
            literals: lits,
            satisfied: None,
            tautology: has_complements(lits),
            watches: fresh_watches(lits.len()),
            used: false,
        }
    }
}

impl PartialEq for Clause {
    /// Clauses are equal when they hold the same literals.
    fn eq(&self, other: &Self) -> (r: bool) {
        if self.literals.len() != other.literals.len() {
            return false;
        }
        let mut i: usize = 0;
        while i < self.literals.len()
            invariant
                0 <= i <= self.literals@.len(),
                self.literals@.len() == other.literals@.len(),
                forall|j: int| 0 <= j < i ==> self.literals@[j] == other.literals@[j],
            decreases self.literals@.len() - i,
        {
            if self.literals[i] != other.literals[i] {
                return false;
            }
            i += 1;
        }
        assert(self.literals@ =~= other.literals@);
        true
    }
}

impl PartialEqSpecImpl for Clause {
    open spec fn obeys_eq_spec() -> bool {
        true
    }

    open spec fn eq_spec(&self, other: &Clause) -> bool {
        self@.literals == other@.literals
    }
}

impl core::ops::Add for Clause {
    type Output = Clause;

    /// The clause sum.
    fn add(self, other: Clause) -> (r: Clause)
        ensures
            r@ == Clause::spec_sum(self@, other@),
            r@.wf(),
    {
        self.sum(&other)
    }
}

impl AddSpecImpl for Clause {
    /// The sum is stated over views, on `add` itself.
    open spec fn obeys_add_spec() -> bool {
        false
    }

    open spec fn add_req(self, other: Clause) -> bool {
        true
    }

    open spec fn add_spec(self, other: Clause) -> Clause {
        self
    }
}

/// Removing a literal distributes over appending one.
pub proof fn lemma_without_push(s: Seq<isize>, y: isize, x: isize)
    ensures
        without(s.push(y), x) == if y != x {
            without(s, x).push(y)
        } else {
            without(s, x)
        },
{
    reveal(Seq::filter);
    assert(s.push(y).drop_last() =~= s);
}

/// Removing a literal from a normal form leaves a normal form.
pub proof fn lemma_without_normalized(s: Seq<isize>, x: isize)
    requires
        normalized(s),
    ensures
        normalized(without(s, x)),
        forall|y: isize| without(s, x).contains(y) <==> (s.contains(y) && y != x),
    decreases s.len(),
{
    reveal(Seq::filter);
    if s.len() > 0 {
        let t = s.drop_last();
        lemma_without_normalized(t, x);
        assert(t.push(s.last()) =~= s);
        lemma_without_push(t, s.last(), x);
        let r = without(s, x);
        let rt = without(t, x);
        assert forall|y: isize| r.contains(y) <==> (s.contains(y) && y != x) by {
            if s.contains(y) {
                let i = choose|i: int| 0 <= i < s.len() && s[i] == y;
                if i < t.len() {
                    assert(t[i] == y);
                }
            }
            if t.contains(y) {
                let i = choose|i: int| 0 <= i < t.len() && t[i] == y;
                assert(s[i] == y);
            }
            if rt.contains(y) {
                let i = choose|i: int| 0 <= i < rt.len() && rt[i] == y;
                assert(r[i] == y);
            }
            if r.contains(y) && !rt.contains(y) {
                let i = choose|i: int| 0 <= i < r.len() && r[i] == y;
                if i < rt.len() {
                    assert(rt[i] == y);
                }
                assert(y == s.last());
                assert(s[s.len() - 1] == y);
            }
            if s.last() != x && y == s.last() {
                assert(r[r.len() - 1] == y);
            }
        }
        if s.last() != x {
            assert forall|i: int, j: int| 0 <= i < j < r.len() implies crate::literal::lit_var(
                r[i],
            ) <= crate::literal::lit_var(r[j]) by {
                assert(r =~= rt.push(s.last()));
                if j == r.len() - 1 {
                    assert(r[i] == rt[i]);
                    assert(rt.contains(rt[i]));
                    assert(t.contains(rt[i]));
                    let k = choose|k: int| 0 <= k < t.len() && t[k] == rt[i];
                    assert(s[k] == rt[i]);
                } else {
                    assert(r[i] == rt[i] && r[j] == rt[j]);
                }
            }
            assert forall|i: int, j: int|
                0 <= i < r.len() && 0 <= j < r.len() && i != j implies r[i] != r[j] by {
                assert(r =~= rt.push(s.last()));
                if i == r.len() - 1 {
                    assert(r[j] == rt[j]);
                    assert(rt.contains(rt[j]));
                    assert(t.contains(rt[j]));
                    let k = choose|k: int| 0 <= k < t.len() && t[k] == rt[j];
                    assert(s[k] == rt[j]);
                } else if j == r.len() - 1 {
                    assert(r[i] == rt[i]);
                    assert(rt.contains(rt[i]));
                    assert(t.contains(rt[i]));
                    let k = choose|k: int| 0 <= k < t.len() && t[k] == rt[i];
                    assert(s[k] == rt[i]);
                } else {
                    assert(r[i] == rt[i] && r[j] == rt[j]);
                }
            }
        }
    }
}

} // verus!
