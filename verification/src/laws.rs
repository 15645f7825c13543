use vstd::prelude::*;
use crate::clause::{lemma_without_normalized, without, ClauseView};
use crate::clause_tools::evaluable;
use crate::decision::DecisionView;
use crate::formula::reset_each;
use crate::justification::{agrees, holds, lemma_marked_holds, models_all, named_at, named_by};
use crate::literal::{lit_in_range, lit_var};
use crate::normal::{lemma_normalize, normalize};
use crate::model::{lit_value, ModelValue};
use crate::proof_log::{ends_in_failure, log_valid, ProofEventView, RecordView};
use crate::render::{clause_text, digit_text, int_text, nat_text, step_line, txt_body};
use crate::sat::SAT;
use crate::text::{all_digits, digits_value, is_digit, parse_isize, parse_usize};
use crate::formula::FormulaView;
use crate::state::{fresh_solver, holds_clause, no_repeats, Phase, SolverView};

verus! {

/// An assignment never holds a literal together with its complement.
pub proof fn law_model_is_consistent(m: Seq<ModelValue>, x: isize)
    requires
        x != isize::MIN,
    ensures
        !(lit_value(m, x) == SAT::Satisfiable && lit_value(m, (-x) as isize)
            == SAT::Satisfiable),
{
}

/// The watches of a well-formed clause stand inside the clause, the smaller first; while
/// they have not met they stand on two literals of different variables.
pub proof fn law_watches_in_range(c: ClauseView)
    requires
        c.wf(),
        c.literals.len() > 0,
    ensures
        c.watches.0 <= c.watches.1 < c.literals.len(),
        !c.unit() ==> c.watches.0 != c.watches.1 && c.literals[c.watches.0 as int]
            != c.literals[c.watches.1 as int],
        !c.unit() && !c.tautology ==> lit_var(c.literals[c.watches.0 as int]) != lit_var(
            c.literals[c.watches.1 as int],
        ),
{
    let a = c.literals[c.watches.0 as int];
    let b = c.literals[c.watches.1 as int];
    if !c.unit() && !c.tautology && lit_var(a) == lit_var(b) {
        assert(a != b);
        assert(a as int + b as int == 0);
        assert(a != 0);
    }
}

/// In a search whose marks are justified, a clause marked satisfied at a level is
/// marked at the current level or below and holds a literal that the assignment makes
/// true.
pub proof fn law_marks_are_justified(s: SolverView, i: int)
    requires
        s.searching(),
        s.sound(),
        0 <= i < s.all_clauses().len(),
        s.all_clauses()[i].satisfied is Some,
    ensures
        s.all_clauses()[i].satisfied->0 <= s.level,
        holds(s.all_clauses()[i].literals, s.model),
{
    lemma_marked_holds(s.formula.clauses, s.model, s.level, s.trail);
    lemma_marked_holds(s.learned, s.model, s.level, s.trail);
    if i < s.formula.clauses.len() {
        assert(s.all_clauses()[i] == s.formula.clauses[i]);
    } else {
        assert(s.all_clauses()[i] == s.learned[i - s.formula.clauses.len()]);
    }
}

/// In a search whose marks are justified, the trail is the assignment: a literal is
/// true exactly if the trail names it, and the trail names it at one level only.
pub proof fn law_trail_is_the_assignment(s: SolverView, x: isize, d1: int, d2: int)
    requires
        s.sound(),
        lit_in_range(x, s.model.len() as int),
    ensures
        lit_value(s.model, x) == SAT::Satisfiable <==> named_by(s.trail, s.level as int, x),
        named_at(s.trail, d1, x) && named_at(s.trail, d2, x) ==> d1 == d2,
{
}

/// The assignment is a function of the trail: two assignments over the same variables
/// that agree with one trail are the same. After a backjump the assignment is therefore
/// the one that stood when the remaining trail was first reached.
pub proof fn law_trail_determines_assignment(
    m1: Seq<ModelValue>,
    m2: Seq<ModelValue>,
    trail: Seq<DecisionView>,
)
    requires
        m1.len() == m2.len(),
        m1.len() <= isize::MAX,
        agrees(m1, trail),
        agrees(m2, trail),
    ensures
        m1 == m2,
{
    assert forall|v: int| 0 <= v < m1.len() implies m1[v] == m2[v] by {
        let p = (v + 1) as isize;
        let n = (-(v + 1)) as isize;
        assert(lit_in_range(p, m1.len() as int) && lit_in_range(n, m1.len() as int));
        assert(lit_var(p) - 1 == v && lit_var(n) - 1 == v);
        assert(lit_value(m1, p) == SAT::Satisfiable <==> lit_value(m2, p) == SAT::Satisfiable);
        assert(lit_value(m1, n) == SAT::Satisfiable <==> lit_value(m2, n) == SAT::Satisfiable);
    }
    assert(m1 =~= m2);
}

/// A solver that is well formed holds no learned clause twice, and none with the
/// literals of an original clause.
pub proof fn law_no_clause_is_learned_twice(s: SolverView, i: int, j: int)
    requires
        s.wf(),
        0 <= i < s.all_clauses().len(),
        s.formula.clauses.len() <= j < s.all_clauses().len(),
        i != j,
    ensures
        s.all_clauses()[i].literals != s.all_clauses()[j].literals,
{
    let n = s.formula.clauses.len() as int;
    assert(s.all_clauses()[j] == s.learned[j - n]);
    if i < n {
        assert(s.all_clauses()[i] == s.formula.clauses[i]);
    } else {
        assert(s.all_clauses()[i] == s.learned[i - n]);
        if i < j {
            assert(s.learned[i - n].literals != s.learned[j - n].literals);
        } else {
            assert(s.learned[j - n].literals != s.learned[i - n].literals);
        }
    }
}

/// Where no learned clause repeats another clause, learning keeps it so, however many
/// clauses are held: a clause whose literals are held already is not added, any other
/// is added last.
pub proof fn law_learning_adds_no_clause_twice(
    originals: Seq<ClauseView>,
    learned: Seq<ClauseView>,
    clause: ClauseView,
)
    requires
        no_repeats(originals, learned),
    ensures
        no_repeats(
            originals,
            if holds_clause(originals + learned, clause.literals) {
                learned
            } else {
                learned.push(clause)
            },
        ),
{
    if !holds_clause(originals + learned, clause.literals) {
        let all = originals + learned;
        let after = learned.push(clause);
        assert forall|i: int, j: int| 0 <= i < j < after.len() implies (#[trigger] after[i]).literals
            != (#[trigger] after[j]).literals by {
            if j == learned.len() {
                assert(all[originals.len() + i] == learned[i]);
            }
        }
        assert forall|i: int, k: int|
            0 <= i < after.len() && 0 <= k < originals.len() implies (#[trigger] after[i]).literals
            != (#[trigger] originals[k]).literals by {
            if i == learned.len() {
                assert(all[k] == originals[k]);
            }
        }
    }
}

/// The satisfaction reset at a level leaves no clause marked at that level or above: a
/// clause that was marked there is unmarked, with its watches at their start.
pub proof fn law_reset_clears_the_level(cs: Seq<ClauseView>, level: usize, i: int)
    requires
        0 <= i < cs.len(),
        cs[i].satisfied is Some,
        cs[i].satisfied->0 >= level,
    ensures
        reset_each(cs, level)[i].satisfied is None,
        reset_each(cs, level)[i].watches == crate::clause::fresh_watches(cs[i].literals.len()),
{
}

/// A backjump leaves no clause marked above the level it arrives at, if none was marked
/// above the level it left.
pub proof fn law_backjump_lowers_marks(s: SolverView, i: int)
    requires
        s.searching(),
        s.marks_in_step(),
        0 <= i < s.all_clauses().len(),
        s.backjumped().all_clauses()[i].satisfied is Some,
    ensures
        s.backjumped().all_clauses().len() == s.all_clauses().len(),
        s.backjumped().all_clauses()[i].satisfied->0 <= s.backjumped().level,
        s.backjumped().level == if s.level > 0 {
            s.level - 1
        } else {
            0
        },
{
    let u = s.unwound();
    let p = u.popped().logged(ProofEventView::Backjump);
    crate::invariants::lemma_reset_same(s.formula.clauses, s.level);
    crate::invariants::lemma_reset_same(s.learned, s.level);
    assert(p.marks_in_step()) by {
        assert forall|k: int|
            0 <= k < p.formula.clauses.len() && (#[trigger] p.formula.clauses[k]).satisfied is Some implies p.formula.clauses[k].satisfied->0
            <= p.level by {
            assert(u.formula.clauses[k].satisfied->0 < s.level);
        }
        assert forall|k: int|
            0 <= k < p.learned.len() && (#[trigger] p.learned[k]).satisfied is Some implies p.learned[k].satisfied->0
            <= p.level by {
            assert(u.learned[k].satisfied->0 < s.level);
        }
    }
    crate::invariants::lemma_cleared_len(s.model, s.trail[s.level as int].propagated);
    assert(evaluable(p.formula.clauses, p.size())) by {
        crate::invariants::lemma_same_clauses(
            s.formula.clauses,
            s.learned,
            p.formula.clauses,
            p.learned,
            s.size(),
        );
    }
    assert(evaluable(p.learned, p.size())) by {
        crate::invariants::lemma_same_clauses(
            s.formula.clauses,
            s.learned,
            p.formula.clauses,
            p.learned,
            s.size(),
        );
    }
    crate::invariants::lemma_pass_same(p.formula.clauses, p.model, p.level);
    crate::invariants::lemma_pass_same(p.learned, p.model, p.level);
    let b = s.backjumped();
    let n = s.formula.clauses.len() as int;
    if i < n {
        assert(b.all_clauses()[i] == b.formula.clauses[i]);
    } else {
        assert(b.all_clauses()[i] == b.learned[i - n]);
    }
}

/// A backjump above the ground level restores the level below: the trail is the old
/// trail without its top level, and, in a search whose marks are justified, the
/// assignment is the one that this trail determines, which is the one that stood when
/// the level was first reached with this trail.
pub proof fn law_backjump_restores_the_level(s: SolverView)
    requires
        s.searching(),
        s.level > 0,
    ensures
        s.backjumped().level == s.level - 1,
        s.backjumped().trail == s.trail.drop_last(),
        s.sound() ==> agrees(s.backjumped().model, s.trail.drop_last()),
{
    let u = s.unwound();
    let p = u.popped();
    assert(p.trail =~= s.trail.drop_last());
    if s.sound() {
        crate::invariants::lemma_popped_sound(s);
    }
}

/// A state in which every clause is marked satisfied and every mark is justified has an
/// assignment that makes a literal true in every original clause that is no tautology.
pub proof fn law_satisfiable_answer_is_a_model(s: SolverView)
    requires
        s.searching(),
        s.sound(),
        s.all_marked(),
    ensures
        s.satisfies_formula(),
{
    crate::invariants::lemma_sound_model(s);
}

/// A log that ends in failure ends with a resolution step whose resolvent is the empty
/// clause, and every derivation in a valid log resolves the two clauses it lists on the
/// pivot it lists.
pub proof fn law_refutation_is_by_resolution(es: Seq<RecordView>, i: int)
    requires
        log_valid(es),
        ends_in_failure(es),
        0 <= i < es.len(),
    ensures
        es.last().event->Fail_step.resolvent.len() == 0,
        es.last().event->Fail_step.valid(),
        es[i].event is Explain ==> es[i].event->Explain_step.valid(),
{
    assert(es[es.len() - 1].event.valid());
    assert(es[i].event.valid());
}

/// The plain-text proof of a log that ends in failure ends with the line of its last
/// step, which derives the box; and the two clauses that this step resolves hold no
/// literal but the pivot and its complement.
pub proof fn law_refutation_ends_with_the_box(es: Seq<RecordView>, y: isize)
    requires
        log_valid(es),
        ends_in_failure(es),
    ensures
        ({
            let step = es.last().event->Fail_step;
            &&& txt_body(es) == txt_body(es.drop_last()) + step_line(step)
            &&& step_line(step) == "("@ + nat_text(step.reason_id as nat) + ") "@ + clause_text(
                step.reason,
            ) + " - ("@ + nat_text(step.conflict_id as nat) + ") "@ + clause_text(step.conflict)
                + " => "@ + "□"@ + "\n"@
            &&& step.reason.contains(step.pivot)
            &&& step.reason.contains(y) || step.conflict.contains(y) ==> y == step.pivot || y
                == -step.pivot
        }),
{
    let step = es.last().event->Fail_step;
    assert(es[es.len() - 1].event.valid());
    if step.reason.contains(y) || step.conflict.contains(y) {
        let all = step.reason + step.conflict;
        if step.reason.contains(y) {
            let i = choose|i: int| 0 <= i < step.reason.len() && step.reason[i] == y;
            assert(all[i] == y);
        } else {
            let i = choose|i: int| 0 <= i < step.conflict.len() && step.conflict[i] == y;
            assert(all[step.reason.len() + i] == y);
        }
        assert(all.contains(y));
        lemma_normalize(all);
        lemma_without_normalized(normalize(all), step.pivot);
        let rest = without(normalize(all), step.pivot);
        if step.pivot != isize::MIN {
            lemma_without_normalized(rest, (-step.pivot) as isize);
        }
        if y != step.pivot && y != -step.pivot {
            assert(step.resolvent.contains(y));
        }
    }
}

/// If the empty clause follows from the original clauses, no total assignment satisfies
/// them.
pub proof fn law_refutation_is_sound(s: SolverView, a: Seq<bool>)
    requires
        s.refuted(),
        a.len() == s.size(),
    ensures
        !models_all(a, s.formula.clauses),
{
}

/// A solver that was reset is the solver that was just made, but for its sink switches:
/// what is loaded into the one and into the other gives the same formula.
pub proof fn law_reset_is_fresh(dot: bool, txt: bool, tex: bool, ls: Seq<Seq<char>>)
    ensures
        fresh_solver(dot, txt, tex).formula.with_lines(ls) == fresh_solver(
            false,
            false,
            false,
        ).formula.with_lines(ls),
        fresh_solver(dot, txt, tex).rested(),
        fresh_solver(dot, txt, tex).wf(),
{
    let s = fresh_solver(dot, txt, tex);
    assert(no_repeats(s.formula.clauses, s.learned));
}

/// The solver with every sink disabled and nothing recorded.
pub open spec fn quiet(s: SolverView) -> SolverView {
    SolverView { dot: false, txt: false, tex: false, events: Seq::empty(), ..s }
}

/// The sinks do not steer a propagation.
pub proof fn lemma_quiet_propagated(s: SolverView, phase: Phase, literal: isize, idx: int)
    ensures
        quiet(s.propagated(phase, literal, idx).0) == quiet(s).propagated(phase, literal, idx).0,
        s.propagated(phase, literal, idx).1 == quiet(s).propagated(phase, literal, idx).1,
        s.propagated(phase, literal, idx).2 == quiet(s).propagated(phase, literal, idx).2,
        s.propagated(phase, literal, idx).3 == quiet(s).propagated(phase, literal, idx).3,
{
    let e = s.extended(literal, idx as usize);
    let qe = quiet(s).extended(literal, idx as usize);
    assert(quiet(e) == qe);
    let a = e.checked();
    let qa = qe.checked();
    assert(quiet(a) == qa);
    assert(e.check_verdict() == qe.check_verdict());
    let k = e.check_verdict().1;
    assert(a.all_clauses() == qa.all_clauses());
    assert(a.step(literal, idx, k) == qa.step(literal, idx, k));
    lemma_quiet_analyzed(a, literal, idx, k);
    lemma_quiet_resolved(a, literal, idx, k);
}

/// The sinks do not steer the analysis of a conflict.
pub proof fn lemma_quiet_analyzed(s: SolverView, pivot: isize, reason_idx: int, conflict_idx: int)
    ensures
        quiet(s.analyzed(pivot, reason_idx, conflict_idx)) == quiet(s).analyzed(
            pivot,
            reason_idx,
            conflict_idx,
        ),
{
    let q = quiet(s);
    let b = s.bumped_on(conflict_idx);
    let qb = q.bumped_on(conflict_idx);
    assert(quiet(b) == qb);
    let c = b.logged(
        ProofEventView::Conflict {
            clause_id: s.all_clauses()[conflict_idx].id,
            literals: s.all_clauses()[conflict_idx].literals,
        },
    );
    assert(quiet(c) == qb);
    lemma_quiet_explained(c, pivot, reason_idx, conflict_idx);
}

/// The sinks do not steer the derivation of a clause.
pub proof fn lemma_quiet_explained(s: SolverView, pivot: isize, reason_idx: int, conflict_idx: int)
    ensures
        quiet(s.explained(pivot, reason_idx, conflict_idx)) == quiet(s).explained(
            pivot,
            reason_idx,
            conflict_idx,
        ),
{
    let q = quiet(s);
    assert(quiet(s.unwound()) == q.unwound());
    assert(s.step(pivot, reason_idx, conflict_idx) == q.step(pivot, reason_idx, conflict_idx));
    let step = s.step(pivot, reason_idx, conflict_idx);
    let event = if step.resolvent.len() == 0 {
        ProofEventView::Fail { step: step }
    } else {
        ProofEventView::Explain { step: step }
    };
    let l = s.unwound().logged(event);
    let ql = q.unwound().logged(event);
    assert(quiet(l) == ql);
    assert(quiet(l.with_used(reason_idx)) == ql.with_used(reason_idx));
    assert(quiet(l.with_used(reason_idx).with_used(conflict_idx)) == ql.with_used(
        reason_idx,
    ).with_used(conflict_idx));
}

/// The sinks do not steer what follows a conflict.
pub proof fn lemma_quiet_resolved(s: SolverView, pivot: isize, reason_idx: int, conflict_idx: int)
    ensures
        quiet(s.resolved(pivot, reason_idx, conflict_idx)) == quiet(s).resolved(
            pivot,
            reason_idx,
            conflict_idx,
        ),
{
    let q = quiet(s);
    lemma_quiet_analyzed(s, pivot, reason_idx, conflict_idx);
    let a = s.analyzed(pivot, reason_idx, conflict_idx);
    let qa = q.analyzed(pivot, reason_idx, conflict_idx);
    assert(s.all_clauses() == q.all_clauses());
    assert(s.step(pivot, reason_idx, conflict_idx) == q.step(pivot, reason_idx, conflict_idx));
    let c = s.resolvent_clause(pivot, reason_idx, conflict_idx);
    assert(c == q.resolvent_clause(pivot, reason_idx, conflict_idx));
    assert(a.all_clauses() == qa.all_clauses());
    let l = a.learned_with(c);
    let ql = qa.learned_with(c);
    assert(quiet(l) == ql);
    let t = l.trimmed();
    let qt = ql.trimmed();
    assert(quiet(t) == qt);
    lemma_quiet_backjumped(t);
}

/// The sinks do not steer a backjump.
pub proof fn lemma_quiet_backjumped(s: SolverView)
    ensures
        quiet(s.backjumped()) == quiet(s).backjumped(),
{
    let q = quiet(s);
    assert(quiet(s.unwound()) == q.unwound());
    assert(quiet(s.unwound().popped()) == q.unwound().popped());
    let p = s.unwound().popped().logged(ProofEventView::Backjump);
    let qp = q.unwound().popped().logged(ProofEventView::Backjump);
    assert(quiet(p) == qp);
    assert(quiet(p.checked()) == qp.checked());
}

/// The sinks do not steer a step of the search: with every sink disabled the step leads
/// to the same state but for the log, stands at the same place, and gives the same
/// answer.
pub proof fn lemma_quiet_advanced(s: SolverView, phase: Phase, changed: bool)
    ensures
        quiet(s.advanced(phase, changed).0) == quiet(s).advanced(phase, changed).0,
        s.advanced(phase, changed).1 == quiet(s).advanced(phase, changed).1,
        s.advanced(phase, changed).2 == quiet(s).advanced(phase, changed).2,
        s.advanced(phase, changed).3 == quiet(s).advanced(phase, changed).3,
{
    let q = quiet(s);
    if phase == Phase::Deciding {
        assert(s.open_watches() == q.open_watches());
        assert(s.decision() == q.decision());
        let literal = s.decision();
        let o = s.opened(literal);
        let qo = q.opened(literal);
        assert(quiet(o) == qo);
        assert(o.check_verdict() == qo.check_verdict());
        assert(quiet(o.checked()) == qo.checked());
    } else {
        assert(s.next(phase) == q.next(phase));
        match s.next(phase) {
            Some((literal, idx)) => {
                lemma_quiet_propagated(s, phase, literal, idx);
            },
            None => {},
        }
    }
}

/// The sinks do not steer the search: with every sink disabled it ends in the same state
/// but for the log, with the same answer.
pub proof fn lemma_quiet_run(s: SolverView, phase: Phase, changed: bool, fuel: nat)
    ensures
        quiet(s.run(phase, changed, fuel).0) == quiet(s).run(phase, changed, fuel).0,
        s.run(phase, changed, fuel).1 == quiet(s).run(phase, changed, fuel).1,
    decreases fuel,
{
    if fuel > 0 {
        lemma_quiet_advanced(s, phase, changed);
        let step = s.advanced(phase, changed);
        let quiet_step = quiet(s).advanced(phase, changed);
        if step.3 is None {
            lemma_quiet_run(step.0, step.1, step.2, (fuel - 1) as nat);
            assert(quiet(step.0) == quiet_step.0);
        }
    }
}

/// The proof sinks do not change what `solve` finds: whatever sinks are enabled, the
/// answer is the same, and so is the state in which the search ends, but for the log.
pub proof fn law_sinks_do_not_steer_the_search(s: SolverView)
    ensures
        s.solved().1 == quiet(s).solved().1,
        quiet(s.solved().0) == quiet(quiet(s).solved().0),
{
    if s.formula.clauses.len() > 0 {
        assert(quiet(s.started()) == quiet(s).started());
        assert(s.budget() == quiet(s).budget());
        lemma_quiet_run(s.started(), Phase::Learned, false, s.budget());
    }
}

/// Resetting a solver and loading a formula gives what making a solver and loading the
/// same formula gives: the same answer, the same model, the same learned clauses.
pub proof fn law_reset_then_load_is_fresh_then_load(dot: bool, txt: bool, tex: bool, f: FormulaView)
    ensures
        ({
            let reused = SolverView { formula: f, ..fresh_solver(dot, txt, tex) };
            let made = SolverView { formula: f, ..fresh_solver(false, false, false) };
            &&& reused.solved().1 == made.solved().1
            &&& reused.solved().0.model == made.solved().0.model
            &&& reused.solved().0.learned == made.solved().0.learned
            &&& reused.solved().0.trail == made.solved().0.trail
        }),
{
    let reused = SolverView { formula: f, ..fresh_solver(dot, txt, tex) };
    let made = SolverView { formula: f, ..fresh_solver(false, false, false) };
    assert(quiet(reused) == made);
    law_sinks_do_not_steer_the_search(reused);
    law_sinks_do_not_steer_the_search(made);
}

/// The text of a natural number is made of digits, is not empty, and writes the number.
pub proof fn lemma_nat_text_reads_back(n: nat)
    ensures
        nat_text(n).len() > 0,
        all_digits(nat_text(n)),
        digits_value(nat_text(n)) == n,
    decreases n,
{
    reveal_strlit("0");
    reveal_strlit("1");
    reveal_strlit("2");
    reveal_strlit("3");
    reveal_strlit("4");
    reveal_strlit("5");
    reveal_strlit("6");
    reveal_strlit("7");
    reveal_strlit("8");
    reveal_strlit("9");
    let d = digit_text((n % 10) as int);
    assert(d.len() == 1);
    assert(is_digit(d[0]));
    assert(d[0] as u32 - '0' as u32 == n % 10);
    if n < 10 {
        assert(nat_text(n) == d);
        assert(nat_text(n).drop_last() =~= Seq::<char>::empty());
        assert(digits_value(nat_text(n).drop_last()) == 0);
    } else {
        lemma_nat_text_reads_back(n / 10);
        let t = nat_text(n);
        let h = nat_text(n / 10);
        assert(t == h + d);
        assert(t.drop_last() =~= h);
        assert(t.last() == d[0]);
        assert forall|i: int| 0 <= i < t.len() implies is_digit(#[trigger] t[i]) by {
            if i < h.len() {
                assert(t[i] == h[i]);
            } else {
                assert(t[i] == d[0]);
            }
        }
    }
}

/// A literal that is written in decimal reads back as itself: the reader of clause lines
/// undoes the writer of clause lines, token by token.
pub proof fn law_written_literal_reads_back(x: isize)
    ensures
        parse_isize(int_text(x as int, "-"@)) == Some(x),
{
    reveal_strlit("-");
    let mag = if x < 0 {
        (-(x as int)) as nat
    } else {
        x as nat
    };
    lemma_nat_text_reads_back(mag);
    let digits = nat_text(mag);
    let text = int_text(x as int, "-"@);
    assert(is_digit(digits[0]));
    if x < 0 {
        assert(text == "-"@ + digits);
        assert(text[0] == '-');
        assert(text.skip(1) =~= digits);
    } else {
        assert(text == digits);
        assert(text[0] != '-' && text[0] != '+');
    }
}

/// A count that is written in decimal reads back as itself.
pub proof fn law_written_count_reads_back(n: usize)
    ensures
        parse_usize(nat_text(n as nat)) == Some(n),
{
    lemma_nat_text_reads_back(n as nat);
    let digits = nat_text(n as nat);
    assert(is_digit(digits[0]));
    assert(digits[0] != '-' && digits[0] != '+');
}

} // verus!
