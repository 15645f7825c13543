use vstd::prelude::*;
use crate::clause::without;
use crate::decision::{Decision, DecisionView};
use crate::normal::normalize;

verus! {

/// What a resolution step stands for.
pub struct ResolutionStepView {
    pub reason_id: usize,
    pub reason: Seq<isize>,
    pub reason_is_original: bool,
    pub conflict_id: usize,
    pub conflict: Seq<isize>,
    pub conflict_is_original: bool,
    pub pivot: isize,
    pub resolvent_id: usize,
    pub resolvent: Seq<isize>,
}

/// The resolvent of the clauses `reason` and `conflict` on `pivot`: the normal form of
/// their literals laid end to end, without `pivot` and without its complement.
pub open spec fn resolvent_of(reason: Seq<isize>, conflict: Seq<isize>, pivot: isize) -> Seq<isize> {
    let all = without(normalize(reason + conflict), pivot);
    if pivot == isize::MIN {
        all
    } else {
        without(all, (-pivot) as isize)
    }
}

impl ResolutionStepView {
    /// The step resolves what it lists: the reason clause holds the pivot, and the
    /// resolvent is that of the two antecedents on the pivot.
    pub open spec fn valid(self) -> bool {
        &&& self.reason.contains(self.pivot)
        &&& self.resolvent == resolvent_of(self.reason, self.conflict, self.pivot)
    }
}

/// One step of a refutation: the clause that propagated the pivot, the clause that the
/// propagation falsified, and their resolvent.
pub struct ResolutionStep {
    /// Identifier of the reason clause.
    pub reason_id: usize,
    /// Literals of the reason clause.
    pub reason: Vec<isize>,
    /// Whether the reason clause is an original clause.
    pub reason_is_original: bool,
    /// Identifier of the conflict clause.
    pub conflict_id: usize,
    /// Literals of the conflict clause.
    pub conflict: Vec<isize>,
    /// Whether the conflict clause is an original clause.
    pub conflict_is_original: bool,
    /// The propagated literal on which the two clauses are resolved.
    pub pivot: isize,
    /// Identifier issued to the resolvent.
    pub resolvent_id: usize,
    /// Literals of the resolvent; none for the empty clause.
    pub resolvent: Vec<isize>,
}

impl View for ResolutionStep {
    type V = ResolutionStepView;

    open spec fn view(&self) -> ResolutionStepView {
        ResolutionStepView {
            reason_id: self.reason_id,
            reason: self.reason@,
            reason_is_original: self.reason_is_original,
            conflict_id: self.conflict_id,
            conflict: self.conflict@,
            conflict_is_original: self.conflict_is_original,
            pivot: self.pivot,
            resolvent_id: self.resolvent_id,
            resolvent: self.resolvent@,
        }
    }
}

/// What an event of the search stands for.
pub enum ProofEventView {
    Propagate { literal: isize, reason: usize },
    Decide { literal: isize },
    Conflict { clause_id: usize, literals: Seq<isize> },
    Explain { step: ResolutionStepView },
    Fail { step: ResolutionStepView },
    Learn { clause_id: usize, literals: Seq<isize> },
    Forget { clause_ids: Seq<usize> },
    Backjump,
}

/// An event of the search, in the order a proof sink consumes them.
pub enum ProofEvent {
    /// `literal` was propagated by the clause at index `reason`.
    Propagate { literal: isize, reason: usize },
    /// `literal` was decided and opened a level.
    Decide { literal: isize },
    /// The clause was found falsified.
    Conflict { clause_id: usize, literals: Vec<isize> },
    /// The propagations of the level were undone and a clause was derived.
    Explain { step: ResolutionStep },
    /// The propagations of the level were undone and the empty clause was derived.
    Fail { step: ResolutionStep },
    /// The derived clause was handed to the learned clauses.
    Learn { clause_id: usize, literals: Vec<isize> },
    /// The learned clauses with these identifiers were dropped.
    Forget { clause_ids: Vec<usize> },
    /// The top level of the trail was removed.
    Backjump,
}

impl View for ProofEvent {
    type V = ProofEventView;

    open spec fn view(&self) -> ProofEventView {
        match self {
            ProofEvent::Propagate { literal, reason } => ProofEventView::Propagate {
                literal: *literal,
                reason: *reason,
            },
            ProofEvent::Decide { literal } => ProofEventView::Decide { literal: *literal },
            ProofEvent::Conflict { clause_id, literals } => ProofEventView::Conflict {
                clause_id: *clause_id,
                literals: literals@,
            },
            ProofEvent::Explain { step } => ProofEventView::Explain { step: step@ },
            ProofEvent::Fail { step } => ProofEventView::Fail { step: step@ },
            ProofEvent::Learn { clause_id, literals } => ProofEventView::Learn {
                clause_id: *clause_id,
                literals: literals@,
            },
            ProofEvent::Forget { clause_ids } => ProofEventView::Forget { clause_ids: clause_ids@ },
            ProofEvent::Backjump => ProofEventView::Backjump,
        }
    }
}

impl ProofEventView {
    /// Every derivation that the event reports resolves what it lists; a failure reports
    /// the empty clause, any other derivation a clause that is not empty.
    pub open spec fn valid(self) -> bool {
        match self {
            ProofEventView::Explain { step } => step.valid() && step.resolvent.len() > 0,
            ProofEventView::Fail { step } => step.valid() && step.resolvent.len() == 0,
            _ => true,
        }
    }
}

/// One level of the trail as it stood when an event was recorded.
pub struct TrailLevel {
    /// The literal decided at the level; `0` at the ground level.
    pub decided: isize,
    /// The literals propagated at the level, each with the index of its reason clause.
    pub propagated: Vec<(isize, usize)>,
}

impl View for TrailLevel {
    type V = DecisionView;

    open spec fn view(&self) -> DecisionView {
        DecisionView { decided: self.decided, propagated: self.propagated@ }
    }
}

/// What a record of the log stands for.
pub struct RecordView {
    pub event: ProofEventView,
    pub trail: Seq<DecisionView>,
    pub learned_ids: Seq<usize>,
}

/// An event together with what the typeset sink shows beside it: the trail and the
/// identifiers of the learned clauses at the time of the event. Both are empty when the
/// typeset sink is disabled.
pub struct Record {
    pub event: ProofEvent,
    pub trail: Vec<TrailLevel>,
    pub learned_ids: Vec<usize>,
}

/// The views of a list of trail levels.
pub open spec fn level_views(ls: Seq<TrailLevel>) -> Seq<DecisionView> {
    ls.map_values(|l: TrailLevel| l@)
}

impl View for Record {
    type V = RecordView;

    open spec fn view(&self) -> RecordView {
        RecordView {
            event: self.event@,
            trail: level_views(self.trail@),
            learned_ids: self.learned_ids@,
        }
    }
}

/// The views of a log.
pub open spec fn event_views(es: Seq<Record>) -> Seq<RecordView> {
    es.map_values(|e: Record| e@)
}

/// Every event of the log is valid.
pub open spec fn log_valid(es: Seq<RecordView>) -> bool {
    forall|i: int| 0 <= i < es.len() ==> (#[trigger] es[i]).event.valid()
}

/// The log ends with the derivation of the empty clause.
pub open spec fn ends_in_failure(es: Seq<RecordView>) -> bool {
    es.len() > 0 && es.last().event is Fail
}

/// A copy of the trail, level by level.
pub fn copy_trail(decisions: &Vec<Decision>) -> (r: Vec<TrailLevel>)
    ensures
        level_views(r@) == crate::decision::trail_view(decisions@),
{
    let mut r: Vec<TrailLevel> = Vec::new();
    let mut i: usize = 0;
    while i < decisions.len()
        invariant
            0 <= i <= decisions@.len(),
            r@.len() == i,
            forall|k: int| 0 <= k < i ==> (#[trigger] r@[k])@ == decisions@[k]@,
        decreases decisions@.len() - i,
    {
        let source = decisions[i].get_propagated_literals();
        let mut propagated: Vec<(isize, usize)> = Vec::new();
        let mut j: usize = 0;
        while j < source.len()
            invariant
                0 <= j <= source@.len(),
                propagated@ == source@.take(j as int),
            decreases source@.len() - j,
        {
            propagated.push((source[j].0, source[j].1));
            assert(source@.take(j + 1) =~= source@.take(j as int).push(source@[j as int]));
            j += 1;
        }
        assert(source@.take(source@.len() as int) =~= source@);
        r.push(TrailLevel { decided: decisions[i].get_decided_literal(), propagated: propagated });
        i += 1;
    }
    assert(level_views(r@) =~= crate::decision::trail_view(decisions@));
    r
}

} // verus!
