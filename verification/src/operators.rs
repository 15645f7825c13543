use vstd::prelude::*;

verus! {

/// Conjunction.
pub const AND: &'static str = "∧";

/// Disjunction.
pub const OR: &'static str = "∨";

/// Implication.
pub const IF: &'static str = "→";

/// The arrow that, before an implication arrow, writes an equivalence.
pub const LEFT_ARROW: &'static str = "←";

/// Equivalence.
pub const IFF: &'static str = "↔";

/// Negation.
pub const NOT: &'static str = "-";

/// Whether two texts hold the same characters.
pub fn same_text(a: &str, b: &str) -> (r: bool)
    ensures
        r == (a@ == b@),
{
    let x = a.to_owned();
    let y = b.to_owned();
    x == y
}

/// Whether `word` is one of the four connectives.
pub open spec fn is_connective(word: Seq<char>) -> bool {
    word == IF@ || word == LEFT_ARROW@ || word == AND@ || word == OR@
}

/// Whether `word` is a connective, a bracket or the negation sign: what is no variable.
pub open spec fn is_symbol(word: Seq<char>) -> bool {
    is_connective(word) || word == "("@ || word == ")"@ || word == NOT@
}

/// Whether `word` is one of the four connectives.
pub fn connective(word: &str) -> (r: bool)
    ensures
        r == is_connective(word@),
{
    same_text(word, IF) || same_text(word, LEFT_ARROW) || same_text(word, AND) || same_text(
        word,
        OR,
    )
}

/// Whether `word` is a connective, a bracket or the negation sign.
pub fn symbol(word: &str) -> (r: bool)
    ensures
        r == is_symbol(word@),
{
    connective(word) || same_text(word, "(") || same_text(word, ")") || same_text(word, NOT)
}

} // verus!
