use cdcl_sat::sat::SAT;

#[test]
fn falsified_dominates_then_unknown() {
    let all = [SAT::Satisfiable, SAT::Unsatisfiable, SAT::Unknown];
    for a in all {
        for b in all {
            let expected = if a == SAT::Unsatisfiable || b == SAT::Unsatisfiable {
                SAT::Unsatisfiable
            } else if a == SAT::Satisfiable && b == SAT::Satisfiable {
                SAT::Satisfiable
            } else {
                SAT::Unknown
            };
            assert_eq!(a + b, expected);
            let mut c = a;
            c += b;
            assert_eq!(c, expected);
        }
    }
}

#[test]
fn verdicts_have_their_names() {
    assert_eq!(SAT::Satisfiable.name(), "SAT");
    assert_eq!(SAT::Unsatisfiable.name(), "UNSAT");
    assert_eq!(SAT::Unknown.name(), "Unknown");
}
