use vstd::prelude::*;
use vstd::string::StringExecFns;
use crate::clause::ClauseView;
use crate::clause_tools::views;
use crate::decision::DecisionView;
use crate::formula::{Formula, FormulaView};
use crate::literal::magnitude;
use crate::model::{assigned_literals, Model, ModelValue};
use crate::stats::{byte_text, Stats, StatsView};
use crate::proof_log::{
    event_views, level_views, ProofEvent, ProofEventView, Record, RecordView, ResolutionStep,
    ResolutionStepView, TrailLevel,
};

verus! {

/// The text of a decimal digit.
pub open spec fn digit_text(d: int) -> Seq<char> {
    if d == 0 {
        "0"@
    } else if d == 1 {
        "1"@
    } else if d == 2 {
        "2"@
    } else if d == 3 {
        "3"@
    } else if d == 4 {
        "4"@
    } else if d == 5 {
        "5"@
    } else if d == 6 {
        "6"@
    } else if d == 7 {
        "7"@
    } else if d == 8 {
        "8"@
    } else {
        "9"@
    }
}

/// The decimal text of a natural number, without leading zeros.
pub open spec fn nat_text(n: nat) -> Seq<char>
    decreases n,
{
    if n < 10 {
        digit_text(n as int)
    } else {
        nat_text(n / 10) + digit_text((n % 10) as int)
    }
}

/// The decimal text of an integer, a negative one led by `minus`.
pub open spec fn int_text(n: int, minus: Seq<char>) -> Seq<char> {
    if n < 0 {
        minus + nat_text((-n) as nat)
    } else {
        nat_text(n as nat)
    }
}

/// The texts of the literals `lits`, with `between` between one and the next.
pub open spec fn literals_text(lits: Seq<isize>, between: Seq<char>, minus: Seq<char>) -> Seq<char>
    decreases lits.len(),
{
    if lits.len() == 0 {
        Seq::empty()
    } else if lits.len() == 1 {
        int_text(lits[0] as int, minus)
    } else {
        literals_text(lits.drop_last(), between, minus) + between + int_text(
            lits.last() as int,
            minus,
        )
    }
}

/// The texts of the numbers `ids`, with `between` between one and the next.
pub open spec fn ids_text(ids: Seq<usize>, between: Seq<char>) -> Seq<char>
    decreases ids.len(),
{
    if ids.len() == 0 {
        Seq::empty()
    } else if ids.len() == 1 {
        nat_text(ids[0] as nat)
    } else {
        ids_text(ids.drop_last(), between) + between + nat_text(ids.last() as nat)
    }
}

/// A clause as a disjunction.
pub open spec fn clause_text(lits: Seq<isize>) -> Seq<char> {
    literals_text(lits, " ∨ "@, "-"@)
}

/// The node that stands for a clause in the proof graph.
pub open spec fn node_text(id: usize, lits: Seq<isize>) -> Seq<char> {
    nat_text(id as nat) + " [label=<<FONT POINT-SIZE='8.0'>("@ + nat_text(id as nat)
        + ")  </FONT>"@ + clause_text(lits) + ">]"@
}

/// How the proof graph names the resolvent of a step: by its identifier, or as a box
/// when it is the empty clause.
pub open spec fn target_text(step: ResolutionStepView) -> Seq<char> {
    if step.resolvent.len() == 0 {
        "□"@
    } else {
        nat_text(step.resolvent_id as nat)
    }
}

/// The line of the proof graph for a clause of a step, if the clause is shown.
pub open spec fn shown_node(shown: bool, id: usize, lits: Seq<isize>) -> Seq<char> {
    if shown {
        node_text(id, lits) + "\n"@
    } else {
        Seq::empty()
    }
}

/// The line of the proof graph for the resolvent of a step.
pub open spec fn resolvent_node(step: ResolutionStepView) -> Seq<char> {
    (if step.resolvent.len() == 0 {
        "□"@
    } else {
        node_text(step.resolvent_id, step.resolvent)
    }) + "\n"@
}

/// The edge of the proof graph from the clause `from` to the resolvent of a step.
pub open spec fn edge_text(from: usize, step: ResolutionStepView) -> Seq<char> {
    nat_text(from as nat) + " -> "@ + target_text(step) + "\n"@
}

/// What the proof graph shows of a resolution step: the nodes of the antecedents that
/// are original clauses, the node of the resolvent, and an edge from each antecedent to
/// the resolvent.
pub open spec fn step_graph(step: ResolutionStepView) -> Seq<char> {
    shown_node(step.reason_is_original, step.reason_id, step.reason) + shown_node(
        step.conflict_is_original,
        step.conflict_id,
        step.conflict,
    ) + resolvent_node(step) + edge_text(step.reason_id, step) + edge_text(step.conflict_id, step)
}

/// The line of the plain-text proof for a resolution step.
pub open spec fn step_line(step: ResolutionStepView) -> Seq<char> {
    "("@ + nat_text(step.reason_id as nat) + ") "@ + clause_text(step.reason) + " - ("@ + nat_text(
        step.conflict_id as nat,
    ) + ") "@ + clause_text(step.conflict) + " => "@ + (if step.resolvent.len() == 0 {
        "□"@
    } else {
        "("@ + nat_text(step.resolvent_id as nat) + ") "@ + clause_text(step.resolvent)
    }) + "\n"@
}

/// The resolution step that an event reports, if it reports one.
pub open spec fn step_of(event: ProofEventView) -> Option<ResolutionStepView> {
    match event {
        ProofEventView::Explain { step } => Some(step),
        ProofEventView::Fail { step } => Some(step),
        _ => None,
    }
}

/// The plain-text proof of a log: one line for each resolution step.
pub open spec fn txt_body(es: Seq<RecordView>) -> Seq<char>
    decreases es.len(),
{
    if es.len() == 0 {
        Seq::empty()
    } else {
        txt_body(es.drop_last()) + match step_of(es.last().event) {
            Some(step) => step_line(step),
            None => Seq::empty(),
        }
    }
}

/// What the proof graph shows of a log.
pub open spec fn dot_body(es: Seq<RecordView>) -> Seq<char>
    decreases es.len(),
{
    if es.len() == 0 {
        Seq::empty()
    } else {
        dot_body(es.drop_last()) + match step_of(es.last().event) {
            Some(step) => step_graph(step),
            None => Seq::empty(),
        }
    }
}

/// The proof graph of a log, as a document.
pub open spec fn dot_document(es: Seq<RecordView>) -> Seq<char> {
    "digraph {\n"@ + dot_body(es) + "}\n"@
}

fn digit_str(d: u128) -> (r: &'static str)
    requires
        d < 10,
    ensures
        r@ == digit_text(d as int),
{
    if d == 0 {
        "0"
    } else if d == 1 {
        "1"
    } else if d == 2 {
        "2"
    } else if d == 3 {
        "3"
    } else if d == 4 {
        "4"
    } else if d == 5 {
        "5"
    } else if d == 6 {
        "6"
    } else if d == 7 {
        "7"
    } else if d == 8 {
        "8"
    } else {
        "9"
    }
}

/// Appends the decimal text of `n`.
pub fn push_nat(out: &mut String, n: u128)
    ensures
        final(out)@ == old(out)@ + nat_text(n as nat),
    decreases n,
{
    if n >= 10 {
        push_nat(out, n / 10);
    }
    let ghost mid = out@;
    out.append(digit_str(n % 10));
    assert(out@ =~= old(out)@ + nat_text(n as nat)) by {
        if n >= 10 {
            assert(mid + digit_text((n % 10) as int) =~= old(out)@ + (nat_text((n / 10) as nat)
                + digit_text((n % 10) as int)));
        }
    }
}

/// Appends the decimal text of `n`, a negative one led by `minus`.
pub fn push_int(out: &mut String, n: isize, minus: &str)
    ensures
        final(out)@ == old(out)@ + int_text(n as int, minus@),
{
    if n < 0 {
        out.append(minus);
        let ghost mid = out@;
        push_nat(out, magnitude(n) as u128);
        assert(out@ =~= old(out)@ + (minus@ + nat_text((-n) as nat)));
    } else {
        push_nat(out, n as u128);
    }
}

/// Appends the texts of `literals`, with `between` between one and the next.
pub fn push_literals(out: &mut String, literals: &Vec<isize>, between: &str, minus: &str)
    ensures
        final(out)@ == old(out)@ + literals_text(literals@, between@, minus@),
{
    let ghost start = out@;
    let mut i: usize = 0;
    assert(literals@.take(0) =~= Seq::<isize>::empty());
    assert(start + Seq::<char>::empty() =~= start);
    while i < literals.len()
        invariant
            0 <= i <= literals@.len(),
            out@ == start + literals_text(literals@.take(i as int), between@, minus@),
        decreases literals@.len() - i,
    {
        let ghost done = literals_text(literals@.take(i as int), between@, minus@);
        let ghost next = literals@.take(i + 1);
        assert(next.drop_last() =~= literals@.take(i as int));
        assert(next.last() == literals@[i as int]);
        if i > 0 {
            out.append(between);
        }
        push_int(out, literals[i], minus);
        proof {
            let word = int_text(literals@[i as int] as int, minus@);
            if i > 0 {
                assert(out@ =~= start + (done + between@ + word));
            } else {
                assert(next.len() == 1);
                assert(next[0] == literals@[0]);
                assert(done =~= Seq::<char>::empty());
                assert(out@ =~= start + word);
            }
        }
        i += 1;
    }
    assert(literals@.take(literals@.len() as int) =~= literals@);
}

/// Appends the texts of `ids`, with `between` between one and the next.
pub fn push_ids(out: &mut String, ids: &Vec<usize>, between: &str)
    ensures
        final(out)@ == old(out)@ + ids_text(ids@, between@),
{
    let ghost start = out@;
    let mut i: usize = 0;
    assert(ids@.take(0) =~= Seq::<usize>::empty());
    assert(start + Seq::<char>::empty() =~= start);
    while i < ids.len()
        invariant
            0 <= i <= ids@.len(),
            out@ == start + ids_text(ids@.take(i as int), between@),
        decreases ids@.len() - i,
    {
        let ghost done = ids_text(ids@.take(i as int), between@);
        let ghost next = ids@.take(i + 1);
        assert(next.drop_last() =~= ids@.take(i as int));
        assert(next.last() == ids@[i as int]);
        if i > 0 {
            out.append(between);
        }
        push_nat(out, ids[i] as u128);
        proof {
            let word = nat_text(ids@[i as int] as nat);
            if i > 0 {
                assert(out@ =~= start + (done + between@ + word));
            } else {
                assert(next.len() == 1);
                assert(next[0] == ids@[0]);
                assert(done =~= Seq::<char>::empty());
                assert(out@ =~= start + word);
            }
        }
        i += 1;
    }
    assert(ids@.take(ids@.len() as int) =~= ids@);
}

/// A clause as a disjunction of its literals.
pub fn clause_to_string(literals: &Vec<isize>) -> (r: String)
    ensures
        r@ == clause_text(literals@),
{
    let mut out = String::new();
    push_literals(&mut out, literals, " ∨ ", "-");
    assert(out@ =~= clause_text(literals@));
    out
}

fn push_node(out: &mut String, id: usize, literals: &Vec<isize>)
    ensures
        final(out)@ == old(out)@ + node_text(id, literals@),
{
    push_nat(out, id as u128);
    out.append(" [label=<<FONT POINT-SIZE='8.0'>(");
    push_nat(out, id as u128);
    out.append(")  </FONT>");
    push_literals(out, literals, " ∨ ", "-");
    out.append(">]");
    assert(out@ =~= old(out)@ + node_text(id, literals@));
}

fn push_shown_node(out: &mut String, shown: bool, id: usize, literals: &Vec<isize>)
    ensures
        final(out)@ == old(out)@ + shown_node(shown, id, literals@),
{
    if shown {
        push_node(out, id, literals);
        out.append("\n");
        assert(out@ =~= old(out)@ + shown_node(shown, id, literals@));
    } else {
        assert(out@ =~= old(out)@ + shown_node(shown, id, literals@));
    }
}

fn push_resolvent_node(out: &mut String, step: &ResolutionStep)
    ensures
        final(out)@ == old(out)@ + resolvent_node(step@),
{
    if step.resolvent.len() == 0 {
        out.append("□");
    } else {
        push_node(out, step.resolvent_id, &step.resolvent);
    }
    out.append("\n");
    assert(out@ =~= old(out)@ + resolvent_node(step@));
}

fn push_edge(out: &mut String, from: usize, step: &ResolutionStep)
    ensures
        final(out)@ == old(out)@ + edge_text(from, step@),
{
    push_nat(out, from as u128);
    out.append(" -> ");
    if step.resolvent.len() == 0 {
        out.append("□");
    } else {
        push_nat(out, step.resolvent_id as u128);
    }
    out.append("\n");
    assert(out@ =~= old(out)@ + edge_text(from, step@));
}

/// Appends what the proof graph shows of a resolution step.
pub fn push_step_graph(out: &mut String, step: &ResolutionStep)
    ensures
        final(out)@ == old(out)@ + step_graph(step@),
{
    push_shown_node(out, step.reason_is_original, step.reason_id, &step.reason);
    push_shown_node(out, step.conflict_is_original, step.conflict_id, &step.conflict);
    push_resolvent_node(out, step);
    push_edge(out, step.reason_id, step);
    push_edge(out, step.conflict_id, step);
    assert(out@ =~= old(out)@ + step_graph(step@));
}

/// Appends the line of the plain-text proof for a resolution step.
pub fn push_step_line(out: &mut String, step: &ResolutionStep)
    ensures
        final(out)@ == old(out)@ + step_line(step@),
{
    let ghost start = out@;
    out.append("(");
    push_nat(out, step.reason_id as u128);
    out.append(") ");
    push_literals(out, &step.reason, " ∨ ", "-");
    out.append(" - (");
    push_nat(out, step.conflict_id as u128);
    out.append(") ");
    push_literals(out, &step.conflict, " ∨ ", "-");
    out.append(" => ");
    if step.resolvent.len() == 0 {
        out.append("□");
    } else {
        out.append("(");
        push_nat(out, step.resolvent_id as u128);
        out.append(") ");
        push_literals(out, &step.resolvent, " ∨ ", "-");
    }
    out.append("\n");
    assert(out@ =~= start + step_line(step@));
}

/// The plain-text proof of a log.
pub fn txt_proof(events: &Vec<Record>) -> (r: String)
    ensures
        r@ == txt_body(event_views(events@)),
{
    let mut out = String::new();
    let ghost es = event_views(events@);
    let mut i: usize = 0;
    assert(es.take(0) =~= Seq::<RecordView>::empty());
    while i < events.len()
        invariant
            0 <= i <= events@.len(),
            es == event_views(events@),
            out@ == txt_body(es.take(i as int)),
        decreases events@.len() - i,
    {
        let ghost done = out@;
        proof {
            assert(es.take(i + 1).drop_last() =~= es.take(i as int));
            assert(es.take(i + 1).last() == events@[i as int]@);
        }
        match &events[i].event {
            ProofEvent::Explain { step } => {
                push_step_line(&mut out, step);
            },
            ProofEvent::Fail { step } => {
                push_step_line(&mut out, step);
            },
            _ => {
                assert(done + Seq::<char>::empty() =~= done);
            },
        }
        i += 1;
    }
    assert(es.take(es.len() as int) =~= es);
    out
}

/// The proof graph of a log, as a document.
pub fn dot_proof(events: &Vec<Record>) -> (r: String)
    ensures
        r@ == dot_document(event_views(events@)),
{
    let mut out = String::new();
    out.append("digraph {\n");
    let ghost head = out@;
    let ghost es = event_views(events@);
    let mut i: usize = 0;
    assert(es.take(0) =~= Seq::<RecordView>::empty());
    assert(head + Seq::<char>::empty() =~= head);
    while i < events.len()
        invariant
            0 <= i <= events@.len(),
            es == event_views(events@),
            out@ == head + dot_body(es.take(i as int)),
        decreases events@.len() - i,
    {
        let ghost done = dot_body(es.take(i as int));
        proof {
            assert(es.take(i + 1).drop_last() =~= es.take(i as int));
            assert(es.take(i + 1).last() == events@[i as int]@);
        }
        match &events[i].event {
            ProofEvent::Explain { step } => {
                push_step_graph(&mut out, step);
                assert(out@ =~= head + (done + step_graph(step@)));
            },
            ProofEvent::Fail { step } => {
                push_step_graph(&mut out, step);
                assert(out@ =~= head + (done + step_graph(step@)));
            },
            _ => {
                assert(done + Seq::<char>::empty() =~= done);
            },
        }
        i += 1;
    }
    assert(es.take(es.len() as int) =~= es);
    out.append("}\n");
    assert(out@ =~= dot_document(es));
    out
}

/// The arrow that leads to the next state of the typeset proof, lettered `label`.
pub open spec fn arrow_text(label: Seq<char>) -> Seq<char> {
    "\n\n$\\xRightarrow[\\text{"@ + label + "}]{}$ "@
}

/// A literal of the typeset proof.
pub open spec fn tex_literal(x: isize) -> Seq<char> {
    int_text(x as int, "\\neg"@)
}

/// A clause of the typeset proof.
pub open spec fn tex_clause(lits: Seq<isize>) -> Seq<char> {
    literals_text(lits, " \\lor "@, "\\neg"@)
}

/// A propagated literal of the typeset proof, marked with the number of its reason.
pub open spec fn propagated_text(p: (isize, usize)) -> Seq<char> {
    tex_literal(p.0) + "{_{"@ + nat_text((p.1 + 1) as nat) + "}}"@
}

/// The propagated literals of a level, in order.
pub open spec fn propagations_text(ps: Seq<(isize, usize)>) -> Seq<char>
    decreases ps.len(),
{
    if ps.len() == 0 {
        Seq::empty()
    } else {
        propagations_text(ps.drop_last()) + propagated_text(ps.last())
    }
}

/// A level of the typeset trail: the decided literal, marked as such, unless it is the
/// placeholder of the ground level, then the propagated literals.
pub open spec fn level_text(d: DecisionView) -> Seq<char> {
    (if d.decided != 0 {
        tex_literal(d.decided) + "{^d} "@
    } else {
        Seq::empty()
    }) + propagations_text(d.propagated)
}

/// The number of literals that a level shows.
pub open spec fn level_count(d: DecisionView) -> nat {
    d.propagated.len() + if d.decided != 0 {
        1nat
    } else {
        0nat
    }
}

/// The typeset trail, and the number of literals on its last line: a line is broken
/// behind the level with which it comes to hold more than 40 literals.
pub open spec fn trail_text(trail: Seq<DecisionView>) -> (Seq<char>, nat)
    decreases trail.len(),
{
    if trail.len() == 0 {
        (Seq::empty(), 0)
    } else {
        let before = trail_text(trail.drop_last());
        let count = before.1 + level_count(trail.last());
        let text = before.0 + level_text(trail.last());
        if count > 40 {
            (text + "\n"@, 0)
        } else {
            (text, count)
        }
    }
}

/// The first `k` of the learned identifiers of the typeset proof, separated by commas,
/// and the number of identifiers on the last line: a line is broken behind its 41st
/// identifier.
pub open spec fn wrapped_ids(ids: Seq<usize>, k: int) -> (Seq<char>, nat)
    decreases k,
{
    if k <= 0 {
        (Seq::empty(), 0)
    } else {
        let before = wrapped_ids(ids, k - 1);
        let text = before.0 + nat_text(ids[k - 1] as nat) + if k < ids.len() {
            ", "@
        } else {
            Seq::empty()
        };
        if before.1 + 1 > 40 {
            (text + "\n"@, 0)
        } else {
            (text, before.1 + 1)
        }
    }
}

/// The learned clauses of the typeset proof: nothing when there are none.
pub open spec fn learned_text(ids: Seq<usize>) -> Seq<char> {
    if ids.len() > 0 {
        "\\cup\\{"@ + wrapped_ids(ids, ids.len() as int).0 + "\\}"@
    } else {
        Seq::empty()
    }
}

/// The state of the typeset proof: the trail, or the empty set, beside the formula and
/// the learned clauses.
pub open spec fn state_text(trail: Seq<DecisionView>, ids: Seq<usize>) -> Seq<char> {
    (if trail_text(trail).0.len() == 0 {
        "\\emptyset"@
    } else {
        trail_text(trail).0
    }) + "\n||F"@ + learned_text(ids)
}

/// A step of the typeset proof: the arrow and the state it leads to, with `note` behind
/// a double bar when there is one.
pub open spec fn block_text(
    label: Seq<char>,
    trail: Seq<DecisionView>,
    ids: Seq<usize>,
    note: Option<Seq<char>>,
) -> Seq<char> {
    arrow_text(label) + "\\overflow{"@ + state_text(trail, ids) + "\n"@ + (match note {
        Some(text) => "||"@ + text,
        None => Seq::empty(),
    }) + "} "@
}

/// A clause of the typeset proof behind its identifier.
pub open spec fn labelled_clause(id: usize, lits: Seq<isize>) -> Seq<char> {
    nat_text(id as nat) + ": "@ + tex_clause(lits)
}

/// What the typeset proof shows of a record.
pub open spec fn tex_record(r: RecordView) -> Seq<char> {
    match r.event {
        ProofEventView::Propagate { literal, reason } => block_text(
            "Propagation"@,
            r.trail,
            r.learned_ids,
            None,
        ),
        ProofEventView::Decide { literal } => block_text("Decision"@, r.trail, r.learned_ids, None),
        ProofEventView::Backjump => block_text("Backjump"@, r.trail, r.learned_ids, None),
        ProofEventView::Conflict { clause_id, literals } => block_text(
            "Conflict"@,
            r.trail,
            r.learned_ids,
            Some(labelled_clause(clause_id, literals)),
        ),
        ProofEventView::Explain { step } => block_text(
            "Explain"@,
            r.trail,
            r.learned_ids,
            Some(labelled_clause(step.resolvent_id, step.resolvent)),
        ),
        ProofEventView::Learn { clause_id, literals } => block_text(
            "Learn"@,
            r.trail,
            r.learned_ids,
            Some(labelled_clause(clause_id, literals)),
        ),
        ProofEventView::Forget { clause_ids } => block_text(
            "Forget"@,
            r.trail,
            r.learned_ids,
            Some(ids_text(clause_ids, ", "@)),
        ),
        ProofEventView::Fail { step } => arrow_text("Fail"@) + "$\\square$\n"@,
    }
}

/// What the typeset proof shows of a log.
pub open spec fn tex_body(es: Seq<RecordView>) -> Seq<char>
    decreases es.len(),
{
    if es.len() == 0 {
        Seq::empty()
    } else {
        tex_body(es.drop_last()) + tex_record(es.last())
    }
}

/// The head of the typeset proof, dated `date`, down to the state before the search.
pub open spec fn tex_head(date: Seq<char>) -> Seq<char> {
    "\\documentclass{article}\n\\usepackage{seqsplit}\\usepackage{mathtools}\\usepackage{amssymb}\n\\newcommand{\\overflow}[1]{ \\texttt{\\ttfamily\\seqsplit{$#1$}} }\n\\begin{document}\n\\title{Proof of unsatisfiability}\n\\author{generated by SAT solver}\n\\date{"@
        + date + "}\n\\maketitle\n\\overflow{\\emptyset||F} "@
}

/// The typeset proof of a log, as a document dated `date`.
pub open spec fn tex_document(es: Seq<RecordView>, date: Seq<char>) -> Seq<char> {
    tex_head(date) + tex_body(es) + "\\end{document}\n"@
}

fn push_arrow(out: &mut String, label: &str)
    ensures
        final(out)@ == old(out)@ + arrow_text(label@),
{
    out.append("\n\n$\\xRightarrow[\\text{");
    out.append(label);
    out.append("}]{}$ ");
    assert(out@ =~= old(out)@ + arrow_text(label@));
}

fn push_propagated(out: &mut String, p: (isize, usize))
    ensures
        final(out)@ == old(out)@ + propagated_text(p),
{
    push_int(out, p.0, "\\neg");
    out.append("{_{");
    push_nat(out, p.1 as u128 + 1);
    out.append("}}");
    assert(out@ =~= old(out)@ + propagated_text(p));
}

fn push_level(out: &mut String, level: &TrailLevel)
    ensures
        final(out)@ == old(out)@ + level_text(level@),
{
    let ghost start = out@;
    if level.decided != 0 {
        push_int(out, level.decided, "\\neg");
        out.append("{^d} ");
    }
    let ghost head = out@;
    assert(head =~= start + if level.decided != 0 {
        tex_literal(level.decided) + "{^d} "@
    } else {
        Seq::empty()
    });
    let ps = &level.propagated;
    let mut i: usize = 0;
    assert(ps@.take(0) =~= Seq::<(isize, usize)>::empty());
    assert(head + Seq::<char>::empty() =~= head);
    while i < ps.len()
        invariant
            0 <= i <= ps@.len(),
            out@ == head + propagations_text(ps@.take(i as int)),
        decreases ps@.len() - i,
    {
        let ghost done = propagations_text(ps@.take(i as int));
        assert(ps@.take(i + 1).drop_last() =~= ps@.take(i as int));
        assert(ps@.take(i + 1).last() == ps@[i as int]);
        push_propagated(out, ps[i]);
        assert(out@ =~= head + (done + propagated_text(ps@[i as int])));
        i += 1;
    }
    assert(ps@.take(ps@.len() as int) =~= ps@);
    assert(out@ =~= start + level_text(level@));
}

fn push_trail(out: &mut String, trail: &Vec<TrailLevel>) -> (shown: bool)
    ensures
        final(out)@ == old(out)@ + trail_text(level_views(trail@)).0,
        shown == (trail_text(level_views(trail@)).0.len() > 0),
{
    let ghost start = out@;
    let ghost all = level_views(trail@);
    let mut count: u128 = 0;
    let mut shown = false;
    let mut i: usize = 0;
    assert(all.take(0) =~= Seq::<DecisionView>::empty());
    assert(start + Seq::<char>::empty() =~= start);
    while i < trail.len()
        invariant
            0 <= i <= trail@.len(),
            all == level_views(trail@),
            out@ == start + trail_text(all.take(i as int)).0,
            count == trail_text(all.take(i as int)).1,
            count <= 40,
            shown == (trail_text(all.take(i as int)).0.len() > 0),
        decreases trail@.len() - i,
    {
        let ghost done = trail_text(all.take(i as int)).0;
        proof {
            assert(all.take(i + 1).drop_last() =~= all.take(i as int));
            assert(all.take(i + 1).last() == trail@[i as int]@);
        }
        let level = &trail[i];
        let ghost before = out@;
        push_level(out, level);
        let shows: u128 = level.propagated.len() as u128 + if level.decided != 0 {
            1
        } else {
            0
        };
        proof {
            lemma_level_shows(level@);
        }
        count = count + shows;
        if shows > 0 {
            shown = true;
        }
        if count > 40 {
            out.append("\n");
            count = 0;
            assert(out@ =~= start + (done + level_text(level@) + "\n"@));
        } else {
            assert(out@ =~= start + (done + level_text(level@)));
        }
        i += 1;
    }
    assert(all.take(all.len() as int) =~= all);
    shown
}

/// A level shows text exactly if it shows a literal.
pub proof fn lemma_level_shows(d: DecisionView)
    ensures
        level_text(d).len() > 0 <==> level_count(d) > 0,
{
    if d.propagated.len() > 0 {
        let last = d.propagated.last();
        lemma_nat_text_nonempty((last.1 + 1) as nat);
        assert(propagated_text(last).len() > 0);
    } else {
        assert(propagations_text(d.propagated).len() == 0);
    }
    if d.decided != 0 {
        assert("{^d} "@.len() > 0) by {
            reveal_strlit("{^d} ");
        }
    }
}

/// The text of a number is not empty.
pub proof fn lemma_nat_text_nonempty(n: nat)
    ensures
        nat_text(n).len() > 0,
    decreases n,
{
    reveal_strlit("0");
    reveal_strlit("1");
    reveal_strlit("2");
    reveal_strlit("3");
    reveal_strlit("4");
    reveal_strlit("5");
    reveal_strlit("6");
    reveal_strlit("7");
    reveal_strlit("8");
    reveal_strlit("9");
    if n >= 10 {
        lemma_nat_text_nonempty(n / 10);
    }
}

fn push_learned(out: &mut String, ids: &Vec<usize>)
    ensures
        final(out)@ == old(out)@ + learned_text(ids@),
{
    let ghost start = out@;
    let total = ids.len();
    if total == 0 {
        assert(out@ =~= start + learned_text(ids@));
        return ;
    }
    out.append("\\cup\\{");
    let ghost head = out@;
    let mut count: u128 = 0;
    let mut k: usize = 0;
    assert(head + Seq::<char>::empty() =~= head);
    while k < total
        invariant
            0 <= k <= total,
            total == ids@.len(),
            out@ == head + wrapped_ids(ids@, k as int).0,
            count == wrapped_ids(ids@, k as int).1,
            count <= 40,
        decreases total - k,
    {
        let ghost done = wrapped_ids(ids@, k as int).0;
        push_nat(out, ids[k] as u128);
        if k < total - 1 {
            out.append(", ");
        }
        let ghost piece = nat_text(ids@[k as int] as nat) + if k + 1 < total {
            ", "@
        } else {
            Seq::empty()
        };
        count = count + 1;
        if count > 40 {
            out.append("\n");
            count = 0;
            assert(out@ =~= head + (done + nat_text(ids@[k as int] as nat) + if k + 1 < total {
                ", "@
            } else {
                Seq::empty()
            } + "\n"@));
        } else {
            assert(out@ =~= head + (done + nat_text(ids@[k as int] as nat) + if k + 1 < total {
                ", "@
            } else {
                Seq::empty()
            }));
        }
        k += 1;
    }
    out.append("\\}");
    assert(out@ =~= start + learned_text(ids@));
}

fn push_state(out: &mut String, trail: &Vec<TrailLevel>, ids: &Vec<usize>)
    ensures
        final(out)@ == old(out)@ + state_text(level_views(trail@), ids@),
{
    let ghost start = out@;
    let shown = push_trail(out, trail);
    if !shown {
        assert(out@ =~= start);
        out.append("\\emptyset");
    }
    out.append("\n||F");
    push_learned(out, ids);
    assert(out@ =~= start + state_text(level_views(trail@), ids@));
}

/// What goes behind the double bar of a step of the typeset proof.
enum Note<'a> {
    Nothing,
    Clause(usize, &'a Vec<isize>),
    Identifiers(&'a Vec<usize>),
}

impl<'a> Note<'a> {
    spec fn text(self) -> Option<Seq<char>> {
        match self {
            Note::Nothing => None,
            Note::Clause(id, lits) => Some(labelled_clause(id, lits@)),
            Note::Identifiers(ids) => Some(ids_text(ids@, ", "@)),
        }
    }
}

fn push_note(out: &mut String, note: Note)
    ensures
        final(out)@ == old(out)@ + match note.text() {
            Some(text) => "||"@ + text,
            None => Seq::empty(),
        },
{
    let ghost start = out@;
    match note {
        Note::Nothing => {
            assert(out@ =~= start + Seq::<char>::empty());
        },
        Note::Clause(id, lits) => {
            out.append("||");
            push_nat(out, id as u128);
            out.append(": ");
            push_literals(out, lits, " \\lor ", "\\neg");
            assert(out@ =~= start + ("||"@ + labelled_clause(id, lits@)));
        },
        Note::Identifiers(ids) => {
            out.append("||");
            push_ids(out, ids, ", ");
            assert(out@ =~= start + ("||"@ + ids_text(ids@, ", "@)));
        },
    }
}

fn push_block(out: &mut String, label: &str, record: &Record, note: Note)
    ensures
        final(out)@ == old(out)@ + block_text(
            label@,
            level_views(record.trail@),
            record.learned_ids@,
            note.text(),
        ),
{
    push_arrow(out, label);
    out.append("\\overflow{");
    push_state(out, &record.trail, &record.learned_ids);
    out.append("\n");
    push_note(out, note);
    out.append("} ");
    assert(out@ =~= old(out)@ + block_text(
        label@,
        level_views(record.trail@),
        record.learned_ids@,
        note.text(),
    ));
}

/// Appends what the typeset proof shows of a record.
pub fn push_tex_record(out: &mut String, record: &Record)
    ensures
        final(out)@ == old(out)@ + tex_record(record@),
{
    match &record.event {
        ProofEvent::Propagate { literal, reason } => {
            push_block(out, "Propagation", record, Note::Nothing);
        },
        ProofEvent::Decide { literal } => {
            push_block(out, "Decision", record, Note::Nothing);
        },
        ProofEvent::Backjump => {
            push_block(out, "Backjump", record, Note::Nothing);
        },
        ProofEvent::Conflict { clause_id, literals } => {
            push_block(out, "Conflict", record, Note::Clause(*clause_id, literals));
        },
        ProofEvent::Explain { step } => {
            push_block(out, "Explain", record, Note::Clause(step.resolvent_id, &step.resolvent));
        },
        ProofEvent::Learn { clause_id, literals } => {
            push_block(out, "Learn", record, Note::Clause(*clause_id, literals));
        },
        ProofEvent::Forget { clause_ids } => {
            push_block(out, "Forget", record, Note::Identifiers(clause_ids));
        },
        ProofEvent::Fail { step } => {
            push_arrow(out, "Fail");
            out.append("$\\square$\n");
            assert(out@ =~= old(out)@ + (arrow_text("Fail"@) + "$\\square$\n"@));
        },
    }
}

/// The typeset proof of a log, as a document dated `date`.
pub fn tex_proof(events: &Vec<Record>, date: &str) -> (r: String)
    ensures
        r@ == tex_document(event_views(events@), date@),
{
    let mut out = String::new();
    out.append(
        "\\documentclass{article}\n\\usepackage{seqsplit}\\usepackage{mathtools}\\usepackage{amssymb}\n\\newcommand{\\overflow}[1]{ \\texttt{\\ttfamily\\seqsplit{$#1$}} }\n\\begin{document}\n\\title{Proof of unsatisfiability}\n\\author{generated by SAT solver}\n\\date{",
    );
    out.append(date);
    out.append("}\n\\maketitle\n\\overflow{\\emptyset||F} ");
    let ghost head = out@;
    assert(head =~= tex_head(date@));
    let ghost es = event_views(events@);
    let mut i: usize = 0;
    assert(es.take(0) =~= Seq::<RecordView>::empty());
    assert(head + Seq::<char>::empty() =~= head);
    while i < events.len()
        invariant
            0 <= i <= events@.len(),
            es == event_views(events@),
            out@ == head + tex_body(es.take(i as int)),
        decreases events@.len() - i,
    {
        let ghost done = tex_body(es.take(i as int));
        proof {
            assert(es.take(i + 1).drop_last() =~= es.take(i as int));
            assert(es.take(i + 1).last() == events@[i as int]@);
        }
        push_tex_record(&mut out, &events[i]);
        assert(out@ =~= head + (done + tex_record(events@[i as int]@)));
        i += 1;
    }
    assert(es.take(es.len() as int) =~= es);
    out.append("\\end{document}\n");
    assert(out@ =~= tex_document(es, date@));
    out
}

/// The literals `lits`, each followed by a blank.
pub open spec fn spaced_text(lits: Seq<isize>) -> Seq<char>
    decreases lits.len(),
{
    if lits.len() == 0 {
        Seq::empty()
    } else {
        spaced_text(lits.drop_last()) + int_text(lits.last() as int, "-"@) + " "@
    }
}

/// The line on which a model is reported: its literals in ascending order of their
/// variables, each followed by a blank.
pub open spec fn model_line(m: Seq<ModelValue>) -> Seq<char> {
    spaced_text(assigned_literals(m, m.len() as int)) + "\n"@
}

/// The clauses `cs` as a conjunction of disjunctions.
pub open spec fn conjunction_text(cs: Seq<ClauseView>) -> Seq<char>
    decreases cs.len(),
{
    if cs.len() == 0 {
        Seq::empty()
    } else {
        conjunction_text(cs.drop_last()) + (if cs.len() > 1 {
            "∧"@
        } else {
            Seq::empty()
        }) + "("@ + literals_text(cs.last().literals, "∨"@, "-"@) + ")"@
    }
}

/// A formula in conjunctive normal form, as it is shown.
pub open spec fn cnf_text(f: FormulaView) -> Seq<char> {
    conjunction_text(f.clauses) + "\n\n"@
}

/// The clause lines of a problem in DIMACS form.
pub open spec fn clause_lines(cs: Seq<ClauseView>) -> Seq<char>
    decreases cs.len(),
{
    if cs.len() == 0 {
        Seq::empty()
    } else {
        clause_lines(cs.drop_last()) + literals_text(cs.last().literals, " "@, "-"@) + " 0\n"@
    }
}

/// A formula as a problem in DIMACS form: the header with the declared counts, then a
/// line for each clause.
pub open spec fn dimacs_text(f: FormulaView) -> Seq<char> {
    "p cnf "@ + nat_text(f.num_variables as nat) + " "@ + nat_text(f.num_clauses as nat) + "\n"@
        + clause_lines(f.clauses) + "\n\n"@
}

/// The line on which a model is reported.
pub fn model_to_string(model: &Model) -> (r: String)
    requires
        model@.len() <= isize::MAX,
    ensures
        r@ == model_line(model@),
{
    let literals = model.to_literals();
    let mut out = String::new();
    let mut i: usize = 0;
    assert(literals@.take(0) =~= Seq::<isize>::empty());
    while i < literals.len()
        invariant
            0 <= i <= literals@.len(),
            out@ == spaced_text(literals@.take(i as int)),
        decreases literals@.len() - i,
    {
        let ghost done = out@;
        assert(literals@.take(i + 1).drop_last() =~= literals@.take(i as int));
        push_int(&mut out, literals[i], "-");
        out.append(" ");
        assert(out@ =~= done + int_text(literals@[i as int] as int, "-"@) + " "@);
        i += 1;
    }
    assert(literals@.take(literals@.len() as int) =~= literals@);
    out.append("\n");
    out
}

/// A formula in conjunctive normal form, as it is shown.
pub fn formula_to_cnf(formula: &Formula) -> (r: String)
    ensures
        r@ == cnf_text(formula@),
{
    let clauses = formula.get_clauses();
    let ghost cs = views(clauses@);
    let mut out = String::new();
    let mut i: usize = 0;
    assert(cs.take(0) =~= Seq::<ClauseView>::empty());
    while i < clauses.len()
        invariant
            0 <= i <= clauses@.len(),
            cs == views(clauses@),
            out@ == conjunction_text(cs.take(i as int)),
        decreases clauses@.len() - i,
    {
        let ghost done = out@;
        proof {
            assert(cs.take(i + 1).drop_last() =~= cs.take(i as int));
            assert(cs.take(i + 1).last() == clauses@[i as int]@);
        }
        if i != 0 {
            out.append("∧");
        }
        let ghost joined = out@;
        out.append("(");
        push_literals(&mut out, clauses[i].iter_literals(), "∨", "-");
        out.append(")");
        assert(out@ =~= done + (if i + 1 > 1 {
            "∧"@
        } else {
            Seq::empty()
        }) + "("@ + literals_text(clauses@[i as int]@.literals, "∨"@, "-"@) + ")"@);
        i += 1;
    }
    assert(cs.take(cs.len() as int) =~= cs);
    out.append("\n\n");
    out
}

/// A formula as a problem in DIMACS form.
pub fn formula_to_dimacs(formula: &Formula) -> (r: String)
    ensures
        r@ == dimacs_text(formula@),
{
    let clauses = formula.get_clauses();
    let ghost cs = views(clauses@);
    let mut out = String::new();
    out.append("p cnf ");
    push_nat(&mut out, formula.get_num_variables() as u128);
    out.append(" ");
    push_nat(&mut out, formula.get_num_clauses() as u128);
    out.append("\n");
    let ghost head = out@;
    assert(head =~= "p cnf "@ + nat_text(formula@.num_variables as nat) + " "@ + nat_text(
        formula@.num_clauses as nat,
    ) + "\n"@);
    let mut i: usize = 0;
    assert(cs.take(0) =~= Seq::<ClauseView>::empty());
    assert(head + Seq::<char>::empty() =~= head);
    while i < clauses.len()
        invariant
            0 <= i <= clauses@.len(),
            cs == views(clauses@),
            out@ == head + clause_lines(cs.take(i as int)),
        decreases clauses@.len() - i,
    {
        let ghost done = clause_lines(cs.take(i as int));
        proof {
            assert(cs.take(i + 1).drop_last() =~= cs.take(i as int));
            assert(cs.take(i + 1).last() == clauses@[i as int]@);
        }
        push_literals(&mut out, clauses[i].iter_literals(), " ", "-");
        out.append(" 0\n");
        assert(out@ =~= head + (done + literals_text(clauses@[i as int]@.literals, " "@, "-"@)
            + " 0\n"@));
        i += 1;
    }
    assert(cs.take(cs.len() as int) =~= cs);
    out.append("\n\n");
    assert(out@ =~= dimacs_text(formula@));
    out
}

/// The counters of a search, one to a line, the memory figures with their units.
pub open spec fn stats_text(s: StatsView) -> Seq<char> {
    "Clauses learned: "@ + nat_text(s.clauses_learned as nat) + "\nClauses forgotten: "@
        + nat_text(s.clauses_forgotten as nat) + "\nMax virtual memory: "@ + byte_text(
        s.virtual_memory as u64,
    ) + "\nMax physical memory: "@ + byte_text(s.physical_memory as u64) + "\n"@
}

/// The counters of a search, one to a line.
pub fn stats_to_string(stats: &Stats) -> (r: String)
    ensures
        r@ == stats_text(stats@),
{
    let mut out = String::new();
    out.append("Clauses learned: ");
    push_nat(&mut out, stats.get_clauses_learned() as u128);
    out.append("\nClauses forgotten: ");
    push_nat(&mut out, stats.get_clauses_forgotten() as u128);
    out.append("\nMax virtual memory: ");
    let virtual_memory = stats.get_virtual_memory();
    out.append(virtual_memory.as_str());
    out.append("\nMax physical memory: ");
    let physical_memory = stats.get_physical_memory();
    out.append(physical_memory.as_str());
    out.append("\n");
    assert(out@ =~= stats_text(stats@));
    out
}

} // verus!
