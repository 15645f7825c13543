use vstd::prelude::*;
use std::collections::HashSet;
use crate::clause::{fresh_watches, Clause, ClauseView};
use crate::clause_tools::{
    clauses_are_satisfied, evaluable, get_next_unit_clause_literal, next_unit, pass,
    pass_verdict, propagates, views,
};
use crate::literal::{lit_var, magnitude};
use crate::model::Model;
use crate::normal::{has_complements, normalize};
use crate::sat::SAT;
use crate::text::{
    chars_of, line_literals, lines, parse_usize, piece_views, read_usize, rejected_line, split,
    words, Cut,
};

verus! {

/// What a formula stands for.
pub struct FormulaView {
    /// The clauses in the order they were added.
    pub clauses: Seq<ClauseView>,
    /// The declared number of variables.
    pub num_variables: usize,
    /// The declared number of clauses.
    pub num_clauses: usize,
    /// The identifier issued last.
    pub last_id: usize,
}

/// A header line that declares its two counts: at least four tokens, the third and the
/// fourth of them counts.
pub open spec fn header_ok(line: Seq<char>) -> bool {
    let ws = words(line);
    ws.len() >= 4 && parse_usize(ws[2]) is Some && parse_usize(ws[3]) is Some
}

/// Every header line of `text` declares its two counts.
pub open spec fn headers_ok(text: Seq<char>) -> bool {
    forall|i: int|
        0 <= i < lines(text).len() && (#[trigger] lines(text)[i])[0] == 'p' ==> header_ok(
            lines(text)[i],
        )
}

/// The variables that the literals `lits` name.
pub open spec fn lit_vars(lits: Seq<isize>) -> Set<usize>
    decreases lits.len(),
{
    if lits.len() == 0 {
        Set::empty()
    } else {
        lit_vars(lits.drop_last()).insert(lit_var(lits.last()) as usize)
    }
}

/// The variables that the clauses `cs` name.
pub open spec fn clause_vars(cs: Seq<ClauseView>) -> Set<usize>
    decreases cs.len(),
{
    if cs.len() == 0 {
        Set::empty()
    } else {
        clause_vars(cs.drop_last()).union(lit_vars(cs.last().literals))
    }
}

/// The watched literals of the clauses `cs` that are not marked satisfied, in clause
/// order; a clause whose watches have met gives its literal once.
pub open spec fn watched_literals(cs: Seq<ClauseView>) -> Seq<isize>
    decreases cs.len(),
{
    if cs.len() == 0 {
        Seq::empty()
    } else {
        let init = watched_literals(cs.drop_last());
        let c = cs.last();
        if c.marked() {
            init
        } else if c.watches.0 == c.watches.1 {
            init.push(c.literals[c.watches.0 as int])
        } else {
            init.push(c.literals[c.watches.0 as int]).push(c.literals[c.watches.1 as int])
        }
    }
}

/// Every clause of `cs` bears an identifier from 1 to `last`.
pub open spec fn ids_within(cs: Seq<ClauseView>, last: usize) -> bool {
    forall|i: int| 0 <= i < cs.len() ==> 1 <= (#[trigger] cs[i]).id <= last
}

/// The clauses `cs` after the satisfaction reset at `level` of each.
pub open spec fn reset_each(cs: Seq<ClauseView>, level: usize) -> Seq<ClauseView> {
    cs.map_values(|c: ClauseView| c.reset(level))
}

impl FormulaView {
    /// Clauses well formed, each under an identifier that was issued, and no identifier
    /// issued beyond their number.
    pub open spec fn wf(self) -> bool {
        &&& forall|i: int| 0 <= i < self.clauses.len() ==> (#[trigger] self.clauses[i]).wf()
        &&& ids_within(self.clauses, self.last_id)
        &&& self.last_id <= self.clauses.len()
        &&& self.clauses.len() <= usize::MAX
    }

    /// The formula with one more clause, over the literals `lits`, under the next
    /// identifier.
    pub open spec fn with_clause(self, lits: Seq<isize>) -> FormulaView {
        FormulaView {
            clauses: self.clauses.push(
                ClauseView {
                    id: (self.last_id + 1) as usize,
                    literals: lits,
                    satisfied: None,
                    tautology: has_complements(lits),
                    watches: fresh_watches(lits.len()),
                    used: false,
                },
            ),
            last_id: (self.last_id + 1) as usize,
            ..self
        }
    }

    /// The formula after reading one line: a comment changes nothing, a header sets the
    /// two declared counts, a line that is no clause is skipped, any other line adds the
    /// clause it writes.
    pub open spec fn with_line(self, line: Seq<char>) -> FormulaView {
        if line[0] == 'c' {
            self
        } else if line[0] == 'p' {
            FormulaView {
                num_variables: parse_usize(words(line)[2])->0,
                num_clauses: parse_usize(words(line)[3])->0,
                ..self
            }
        } else if rejected_line(line) {
            self
        } else {
            self.with_clause(normalize(line_literals(line)))
        }
    }

    /// The formula after reading the lines `ls` in order.
    pub open spec fn with_lines(self, ls: Seq<Seq<char>>) -> FormulaView
        decreases ls.len(),
    {
        if ls.len() == 0 {
            self
        } else {
            self.with_lines(ls.drop_last()).with_line(ls.last())
        }
    }
}

/// Reading lines adds only clauses that are not marked satisfied and have their watches
/// at their start, and keeps the clauses that were there.
pub proof fn lemma_with_lines_adds_fresh(f: FormulaView, ls: Seq<Seq<char>>)
    ensures
        f.with_lines(ls).clauses.len() >= f.clauses.len(),
        forall|i: int| 0 <= i < f.clauses.len() ==> f.with_lines(ls).clauses[i] == f.clauses[i],
        forall|i: int|
            f.clauses.len() <= i < f.with_lines(ls).clauses.len() ==> (#[trigger] f.with_lines(
                ls,
            ).clauses[i]).satisfied is None && f.with_lines(ls).clauses[i].watches == fresh_watches(
                f.with_lines(ls).clauses[i].literals.len(),
            ),
    decreases ls.len(),
{
    if ls.len() > 0 {
        lemma_with_lines_adds_fresh(f, ls.drop_last());
    }
}

/// The original clauses of a problem, with the counts its header declared.
pub struct Formula {
    clauses: Vec<Clause>,
    num_variables: usize,
    num_clauses: usize,
    current_clause_id: usize,
}

impl View for Formula {
    type V = FormulaView;

    closed spec fn view(&self) -> FormulaView {
        FormulaView {
            clauses: views(self.clauses@),
            num_variables: self.num_variables,
            num_clauses: self.num_clauses,
            last_id: self.current_clause_id,
        }
    }
}

impl Formula {
    /// The formula without clauses.
    pub fn new() -> (r: Formula)
        ensures
            r@ == (FormulaView {
                clauses: Seq::empty(),
                num_variables: 0,
                num_clauses: 0,
                last_id: 0,
            }),
            r@.wf(),
    {
        let r = Formula {
            clauses: Vec::new(),
            num_variables: 0,
            num_clauses: 0,
            current_clause_id: 0,
        };
        assert(views(r.clauses@) =~= Seq::<ClauseView>::empty());
        r
    }

    /// Whether every header line of `text` declares its two counts.
    pub fn dimacs_headers_ok(text: &str) -> (r: bool)
        ensures
            r == headers_ok(text@),
    {
        let all = chars_of(text);
        let ls = split(&all, Cut::Lines);
        let mut i: usize = 0;
        while i < ls.len()
            invariant
                0 <= i <= ls@.len(),
                piece_views(ls@) == lines(text@),
                forall|k: int| 0 <= k < ls@.len() ==> (#[trigger] ls@[k])@.len() > 0,
                forall|k: int|
                    0 <= k < i && (#[trigger] lines(text@)[k])[0] == 'p' ==> header_ok(
                        lines(text@)[k],
                    ),
            decreases ls@.len() - i,
        {
            let line = &ls[i];
            assert(line@ == lines(text@)[i as int]);
            if line[0] == 'p' {
                if Self::read_header(line).is_none() {
                    return false;
                }
            }
            i += 1;
        }
        true
    }

    /// The two counts that a header line declares.
    fn read_header(line: &Vec<char>) -> (r: Option<(usize, usize)>)
        ensures
            r is Some <==> header_ok(line@),
            match r {
                Some((variables, clauses)) => variables == parse_usize(words(line@)[2])->0
                    && clauses == parse_usize(words(line@)[3])->0,
                None => true,
            },
    {
        let ws = split(line, Cut::Words);
        if ws.len() < 4 {
            return None;
        }
        assert(piece_views(ws@)[2] == ws@[2]@);
        assert(piece_views(ws@)[3] == ws@[3]@);
        match (read_usize(&ws[2]), read_usize(&ws[3])) {
            (Some(v), Some(c)) => Some((v, c)),
            _ => None,
        }
    }

    /// Reads a problem in DIMACS form, line by line, after what the formula holds.
    pub fn load_dimacs(&mut self, formula_string: String)
        requires
            old(self)@.wf(),
            headers_ok(formula_string@),
        ensures
            final(self)@ == old(self)@.with_lines(lines(formula_string@)),
            final(self)@.wf(),
    {
        let all = chars_of(formula_string.as_str());
        let ls = split(&all, Cut::Lines);
        let ghost text = formula_string@;
        let ghost start = self@;
        let mut i: usize = 0;
        assert(lines(text).take(0) =~= Seq::<Seq<char>>::empty());
        while i < ls.len()
            invariant
                0 <= i <= ls@.len(),
                piece_views(ls@) == lines(text),
                headers_ok(text),
                forall|k: int| 0 <= k < ls@.len() ==> (#[trigger] ls@[k])@.len() > 0,
                self@ == start.with_lines(lines(text).take(i as int)),
                self@.wf(),
            decreases ls@.len() - i,
        {
            let line = &ls[i];
            proof {
                assert(line@ == lines(text)[i as int]);
                let t = lines(text).take(i + 1);
                assert(t.drop_last() =~= lines(text).take(i as int));
                assert(t.last() == line@);
            }
            if line[0] == 'c' {
            } else if line[0] == 'p' {
                match Self::read_header(line) {
                    Some((variables, clauses)) => {
                        self.num_variables = variables;
                        self.num_clauses = clauses;
                    },
                    None => {},
                }
            } else {
                let _ = self.add_clause_by_chars(line);
            }
            i += 1;
        }
        assert(lines(text).take(ls@.len() as int) =~= lines(text));
    }

    /// Adds the clause that the line `clause_string` writes, under the next identifier.
    /// A line that is no clause is refused and changes nothing.
    pub fn add_clause_by_string(&mut self, clause_string: String) -> (r: Result<(), ()>)
        requires
            old(self)@.wf(),
        ensures
            r is Err <==> rejected_line(clause_string@),
            r is Err ==> final(self)@ == old(self)@,
            r is Ok ==> final(self)@ == old(self)@.with_clause(
                normalize(line_literals(clause_string@)),
            ),
            final(self)@.wf(),
    {
        let text = chars_of(clause_string.as_str());
        self.add_clause_by_chars(&text)
    }

    fn add_clause_by_chars(&mut self, text: &Vec<char>) -> (r: Result<(), ()>)
        requires
            old(self)@.wf(),
        ensures
            r is Err <==> rejected_line(text@),
            r is Err ==> final(self)@ == old(self)@,
            r is Ok ==> final(self)@ == old(self)@.with_clause(normalize(line_literals(text@))),
            final(self)@.wf(),
    {
        let mut clause = Clause::new();
        match clause.load_chars(text) {
            Ok(()) => {
                let ghost before = views(self.clauses@);
                let ghost loaded = clause@;
                self.clauses.push(clause);
                let count = self.clauses.len();
                self.current_clause_id = self.current_clause_id + 1;
                self.clauses[count - 1].set_id(self.current_clause_id);
                assert(views(self.clauses@) =~= before.push(
                    ClauseView { id: self.current_clause_id, ..loaded },
                ));
                Ok(())
            },
            Err(_e) => Err(()),
        }
    }

    pub fn get_clause(&self, clause_idx: usize) -> (r: &Clause)
        requires
            clause_idx < self@.clauses.len(),
        ensures
            r@ == self@.clauses[clause_idx as int],
    {
        &self.clauses[clause_idx]
    }

    pub fn get_mut_clause(&mut self, clause_idx: usize) -> (r: &mut Clause)
        requires
            clause_idx < old(self)@.clauses.len(),
        ensures
            r@ == old(self)@.clauses[clause_idx as int],
            final(self)@ == (FormulaView {
                clauses: old(self)@.clauses.update(clause_idx as int, final(r)@),
                ..old(self)@
            }),
    {
        let ghost before = views(self.clauses@);
        let r = &mut self.clauses[clause_idx];
        proof {
            assert(views(after_borrow(self.clauses)@) =~= before.update(
                clause_idx as int,
                final(r)@,
            ));
        }
        r
    }

    pub fn get_clauses(&self) -> (r: &Vec<Clause>)
        ensures
            views(r@) == self@.clauses,
    {
        &self.clauses
    }

    pub fn get_mut_clauses(&mut self) -> (r: &mut Vec<Clause>)
        ensures
            views(r@) == old(self)@.clauses,
            final(self)@ == (FormulaView { clauses: views(final(r)@), ..old(self)@ }),
    {
        &mut self.clauses
    }

    /// The declared number of variables.
    pub fn get_num_variables(&self) -> (r: usize)
        ensures
            r == self@.num_variables,
    {
        self.num_variables
    }

    /// The declared number of clauses.
    pub fn get_num_clauses(&self) -> (r: usize)
        ensures
            r == self@.num_clauses,
    {
        self.num_clauses
    }

    /// The number of clauses held.
    pub fn clauses_len(&self) -> (r: usize)
        ensures
            r == self@.clauses.len(),
    {
        self.clauses.len()
    }

    /// Sets the declared counts to what the clauses hold: the number of distinct
    /// variables and the number of clauses.
    pub fn calculate_stats(&mut self)
        ensures
            final(self)@ == (FormulaView {
                num_variables: clause_vars(old(self)@.clauses).len() as usize,
                num_clauses: old(self)@.clauses.len() as usize,
                ..old(self)@
            }),
            clause_vars(old(self)@.clauses).finite(),
            clause_vars(old(self)@.clauses).len() <= usize::MAX,
    {
        broadcast use vstd::std_specs::hash::group_hash_axioms;

        let mut variables: HashSet<usize> = HashSet::new();
        let ghost cs = views(self.clauses@);
        let mut i: usize = 0;
        assert(cs.take(0) =~= Seq::<ClauseView>::empty());
        while i < self.clauses.len()
            invariant
                0 <= i <= self.clauses@.len(),
                cs == views(self.clauses@),
                variables@ == clause_vars(cs.take(i as int)),
                variables@.finite(),
            decreases self.clauses@.len() - i,
        {
            let literals = self.clauses[i].iter_literals();
            assert(literals@ == cs[i as int].literals);
            let ghost seen = variables@;
            let mut j: usize = 0;
            assert(literals@.take(0) =~= Seq::<isize>::empty());
            while j < literals.len()
                invariant
                    0 <= j <= literals@.len(),
                    variables@ == seen.union(lit_vars(literals@.take(j as int))),
                    variables@.finite(),
                decreases literals@.len() - j,
            {
                proof {
                    let t = literals@.take(j + 1);
                    assert(t.drop_last() =~= literals@.take(j as int));
                    assert(seen.union(lit_vars(t)) =~= seen.union(
                        lit_vars(literals@.take(j as int)),
                    ).insert(lit_var(literals@[j as int]) as usize));
                }
                variables.insert(magnitude(literals[j]));
                j += 1;
            }
            proof {
                assert(literals@.take(literals@.len() as int) =~= literals@);
                let t = cs.take(i + 1);
                assert(t.drop_last() =~= cs.take(i as int));
            }
            i += 1;
        }
        assert(cs.take(cs.len() as int) =~= cs);
        self.num_variables = variables.len();
        self.num_clauses = self.clauses.len();
    }

    /// The watched literals of the clauses that are not marked satisfied.
    pub fn get_all_watched_literals(&self) -> (r: Vec<isize>)
        requires
            self@.wf(),
            forall|i: int| 0 <= i < self@.clauses.len() ==> (#[trigger] self@.clauses[i]).literals.len() > 0,
        ensures
            r@ == watched_literals(self@.clauses),
    {
        let mut literals: Vec<isize> = Vec::new();
        collect_watched_literals(&self.clauses, &mut literals);
        literals
    }

    /// The first clause that propagation picks up under `model`, as its watched literal
    /// and its index.
    pub fn get_next_unit_clause_literal(&mut self, model: &Model) -> (r: Option<(isize, usize)>)
        requires
            evaluable(old(self)@.clauses, model@.len() as int),
        ensures
            final(self)@ == old(self)@,
            match r {
                Some((literal, idx)) => next_unit(old(self)@.clauses, model@, 0) == Some(
                    (literal, idx as int),
                ),
                None => next_unit(old(self)@.clauses, model@, 0) is None,
            },
            match r {
                Some((literal, idx)) => {
                    &&& idx < old(self)@.clauses.len()
                    &&& propagates(old(self)@.clauses[idx as int], model@)
                    &&& literal == old(self)@.clauses[idx as int].literals[old(
                        self,
                    )@.clauses[idx as int].watches.0 as int]
                    &&& forall|j: int|
                        0 <= j < idx ==> !propagates(#[trigger] old(self)@.clauses[j], model@)
                },
                None => forall|j: int|
                    0 <= j < old(self)@.clauses.len() ==> !propagates(
                        #[trigger] old(self)@.clauses[j],
                        model@,
                    ),
            },
    {
        get_next_unit_clause_literal(&self.clauses, model)
    }

    /// Evaluates the clauses in order under `model` at `decision_level`, stopping at the
    /// first falsified one, whose index is returned with the verdict.
    pub fn is_satisfied(&mut self, model: &Model, decision_level: usize) -> (r: (SAT, usize))
        requires
            evaluable(old(self)@.clauses, model@.len() as int),
        ensures
            final(self)@ == (FormulaView {
                clauses: pass(old(self)@.clauses, model@, decision_level),
                ..old(self)@
            }),
            (r.0, r.1 as int) == pass_verdict(old(self)@.clauses, model@, 0),
    {
        clauses_are_satisfied(&mut self.clauses, model, decision_level, None)
    }

    /// Applies the satisfaction reset at `level` to every clause.
    pub fn reset_all(&mut self, level: usize)
        requires
            old(self)@.wf(),
        ensures
            final(self)@ == (FormulaView {
                clauses: reset_each(old(self)@.clauses, level),
                ..old(self)@
            }),
            final(self)@.wf(),
    {
        reset_clauses(&mut self.clauses, level);
    }
}

/// Appends to `out` the watched literals of the clauses that are not marked satisfied.
pub fn collect_watched_literals(clauses: &Vec<Clause>, out: &mut Vec<isize>)
    requires
        forall|i: int|
            0 <= i < clauses@.len() ==> (#[trigger] views(clauses@)[i]).wf() && views(
                clauses@,
            )[i].literals.len() > 0,
    ensures
        final(out)@ == old(out)@ + watched_literals(views(clauses@)),
{
    let ghost cs = views(clauses@);
    let ghost before = out@;
    let mut i: usize = 0;
    assert(cs.take(0) =~= Seq::<ClauseView>::empty());
    assert(before + Seq::<isize>::empty() =~= before);
    while i < clauses.len()
        invariant
            0 <= i <= clauses@.len(),
            cs == views(clauses@),
            forall|k: int| 0 <= k < cs.len() ==> (#[trigger] cs[k]).wf() && cs[k].literals.len() > 0,
            out@ == before + watched_literals(cs.take(i as int)),
        decreases clauses@.len() - i,
    {
        let clause = &clauses[i];
        proof {
            assert(clause@ == cs[i as int]);
            let t = cs.take(i + 1);
            assert(t.drop_last() =~= cs.take(i as int));
            assert(t.last() == cs[i as int]);
        }
        let ghost init = watched_literals(cs.take(i as int));
        if !clause.is_satisfied() {
            let literal_tuple = clause.get_watched_literals();
            out.push(literal_tuple.0);
            if literal_tuple.0 != literal_tuple.1 {
                out.push(literal_tuple.1);
                assert(out@ =~= before + init.push(literal_tuple.0).push(literal_tuple.1));
            } else {
                assert(out@ =~= before + init.push(literal_tuple.0));
            }
        }
        i += 1;
    }
    assert(cs.take(cs.len() as int) =~= cs);
}

/// Applies the satisfaction reset at `level` to every clause of `clauses`.
pub fn reset_clauses(clauses: &mut Vec<Clause>, level: usize)
    requires
        forall|i: int| 0 <= i < old(clauses)@.len() ==> (#[trigger] views(old(clauses)@)[i]).wf(),
    ensures
        views(final(clauses)@) == reset_each(views(old(clauses)@), level),
        forall|i: int| 0 <= i < final(clauses)@.len() ==> (#[trigger] views(final(clauses)@)[i]).wf(),
{
    let ghost before = views(clauses@);
    let count = clauses.len();
    let mut i: usize = 0;
    while i < count
        invariant
            0 <= i <= count,
            count == clauses@.len(),
            before.len() == count,
            before == views(old(clauses)@),
            forall|k: int| 0 <= k < count ==> (#[trigger] before[k]).wf(),
            forall|k: int| 0 <= k < i ==> (#[trigger] views(clauses@)[k]) == before[k].reset(level),
            forall|k: int| i <= k < count ==> (#[trigger] views(clauses@)[k]) == before[k],
        decreases count - i,
    {
        assert(views(clauses@)[i as int] == before[i as int]);
        let ghost prior = clauses@;
        let _ = clauses[i].reset_satisfied(level);
        assert forall|k: int| 0 <= k < count implies #[trigger] views(clauses@)[k] == (if k == i {
            before[k].reset(level)
        } else {
            views(prior)[k]
        }) by {}
        i += 1;
    }
    assert(views(clauses@) =~= reset_each(before, level));
    assert forall|k: int| 0 <= k < count implies (#[trigger] views(clauses@)[k]).wf() by {
        assert(before[k].wf());
    }
}

} // verus!
