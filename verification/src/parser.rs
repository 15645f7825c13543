use vstd::prelude::*;
use vstd::string::{StrSliceExecFns, StringExecFns};
use std::collections::HashMap;
use crate::cnf::{cnf_converter, converted, reach};
use crate::formula_node::{
    built, searched, well_bracketed, FormulaNode, NodeRewrite, NodeSearch, NodeView,
};
use crate::operators::{is_symbol, same_text, symbol};
use crate::render::{nat_text, push_nat};
use crate::text::{chars_of, is_space, Cut};

verus! {

/// Why a formula is refused.
#[derive(Debug, Clone, Copy, PartialEq, Eq, Structural)]
pub enum ParseError {
    /// Nothing is left of the formula, or it names no variable.
    EmptyFormula,
    /// A token stands where it cannot stand.
    SyntaxError,
    /// A bracket has no partner, or a pair of brackets holds nothing.
    ParenthesisError,
    /// A token is neither a symbol nor a known variable.
    LiteralNotFound,
}

/// The views of a list of tokens.
pub open spec fn token_views(ws: Seq<String>) -> Seq<Seq<char>> {
    ws.map_values(|w: String| w@)
}

/// The position of the first character of `s` from `i` on that is no white space, or the
/// length of `s`.
pub open spec fn first_solid(s: Seq<char>, i: int) -> int
    decreases s.len() - i,
{
    if i < 0 || i >= s.len() || !is_space(s[i]) {
        i
    } else {
        first_solid(s, i + 1)
    }
}

/// The position behind the last character of `s` before `j` that is no white space, or 0.
pub open spec fn last_solid(s: Seq<char>, j: int) -> int
    decreases j,
{
    if j <= 0 || j > s.len() || !is_space(s[j - 1]) {
        j
    } else {
        last_solid(s, j - 1)
    }
}

/// `s` without the white space at its two ends.
pub open spec fn trimmed(s: Seq<char>) -> Seq<char> {
    let from = first_solid(s, 0);
    let to = last_solid(s, s.len() as int);
    if from >= to {
        Seq::empty()
    } else {
        s.subrange(from, to)
    }
}

/// The tokens `ws`, each trimmed, the empty ones left out.
pub open spec fn cleaned(ws: Seq<Seq<char>>) -> Seq<Seq<char>>
    decreases ws.len(),
{
    if ws.len() == 0 {
        Seq::empty()
    } else {
        let init = cleaned(ws.drop_last());
        if trimmed(ws.last()).len() > 0 {
            init.push(trimmed(ws.last()))
        } else {
            init
        }
    }
}

/// `word` without the white space at its two ends.
pub fn trim(word: &str) -> (r: String)
    ensures
        r@ == trimmed(word@),
{
    let all = chars_of(word);
    let mut from: usize = 0;
    while from < all.len() && Cut::Words.is_separator(all[from])
        invariant
            0 <= from <= all@.len(),
            all@ == word@,
            first_solid(word@, from as int) == first_solid(word@, 0),
        decreases all@.len() - from,
    {
        from += 1;
    }
    let mut to: usize = all.len();
    while to > 0 && Cut::Words.is_separator(all[to - 1])
        invariant
            0 <= to <= all@.len(),
            all@ == word@,
            last_solid(word@, to as int) == last_solid(word@, word@.len() as int),
        decreases to,
    {
        to -= 1;
    }
    if from >= to {
        String::new()
    } else {
        word.substring_char(from, to).to_owned()
    }
}

/// Trims every token and drops the empty ones; nothing left is an error.
pub fn cleaner(formula: Vec<String>) -> (r: Result<Vec<String>, ParseError>)
    ensures
        r is Err <==> cleaned(token_views(formula@)).len() == 0,
        r is Err ==> r->Err_0 == ParseError::EmptyFormula,
        r is Ok ==> token_views(r->Ok_0@) == cleaned(token_views(formula@)),
{
    let mut kept: Vec<String> = Vec::new();
    let ghost all = token_views(formula@);
    let mut i: usize = 0;
    assert(all.take(0) =~= Seq::<Seq<char>>::empty());
    assert(token_views(kept@) =~= Seq::<Seq<char>>::empty());
    while i < formula.len()
        invariant
            0 <= i <= formula@.len(),
            all == token_views(formula@),
            token_views(kept@) == cleaned(all.take(i as int)),
        decreases formula@.len() - i,
    {
        proof {
            assert(all.take(i + 1).drop_last() =~= all.take(i as int));
            assert(all.take(i + 1).last() == formula@[i as int]@);
        }
        let word = trim(formula[i].as_str());
        let ghost before = token_views(kept@);
        if word.as_str().unicode_len() > 0 {
            kept.push(word);
            assert(token_views(kept@) =~= before.push(word@));
        }
        i += 1;
    }
    assert(all.take(all.len() as int) =~= all);
    if kept.len() == 0 {
        return Err(ParseError::EmptyFormula);
    }
    Ok(kept)
}

/// The tokens after merging: from position `idx` on, a variable token that follows a
/// variable token at `last` is appended to it and removed; `last` 0 stands for none, so
/// that nothing is ever appended to the token at position 0.
pub open spec fn merged(ws: Seq<Seq<char>>, idx: int, last: int) -> Seq<Seq<char>>
    decreases ws.len() - idx,
{
    if idx < 0 || idx >= ws.len() || last < 0 || last > idx {
        ws
    } else if !is_symbol(ws[idx]) {
        if last != 0 {
            merged(ws.update(last, ws[last] + ws[idx]).remove(idx), idx, last)
        } else {
            merged(ws, idx + 1, idx)
        }
    } else {
        merged(ws, idx + 1, 0)
    }
}

/// Merges variable tokens that follow one another into one.
pub fn merge_literals(formula: Vec<String>) -> (r: Vec<String>)
    ensures
        token_views(r@) == merged(token_views(formula@), 0, 0),
{
    let mut formula = formula;
    let ghost start = token_views(formula@);
    let mut last_literal_pos: usize = 0;
    let mut idx: usize = 0;
    while idx < formula.len()
        invariant
            0 <= idx <= formula@.len(),
            last_literal_pos == 0 || last_literal_pos < idx,
            merged(token_views(formula@), idx as int, last_literal_pos as int) == merged(start, 0, 0),
        decreases formula@.len() - idx,
    {
        let ghost ws = token_views(formula@);
        assert(ws[idx as int] == formula@[idx as int]@);
        if !symbol(formula[idx].as_str()) {
            if last_literal_pos != 0 {
                let piece = formula.remove(idx);
                assert(piece@ == ws[idx as int]);
                let ghost shorter = formula@;
                let mut joined = formula[last_literal_pos].clone();
                joined.append(piece.as_str());
                formula[last_literal_pos] = joined;
                assert(token_views(formula@) =~= ws.update(
                    last_literal_pos as int,
                    ws[last_literal_pos as int] + ws[idx as int],
                ).remove(idx as int));
                continue ;
            } else {
                last_literal_pos = idx;
            }
        } else {
            last_literal_pos = 0;
        }
        idx += 1;
    }
    formula
}

/// The position of the first of `names` that is `word`, or their number.
pub open spec fn position_of(names: Seq<Seq<char>>, word: Seq<char>, i: int) -> int
    decreases names.len() - i,
{
    if i < 0 || i >= names.len() || names[i] == word {
        i
    } else {
        position_of(names, word, i + 1)
    }
}

/// Whether every variable token of `ws` is among `names`.
pub open spec fn all_known(ws: Seq<Seq<char>>, names: Seq<Seq<char>>) -> bool {
    forall|i: int|
        0 <= i < ws.len() && !is_symbol(#[trigger] ws[i]) ==> position_of(names, ws[i], 0)
            < names.len()
}

/// The tokens `ws` with every variable token replaced by the number of its variable:
/// the variable at position `p` of `names` has the number `p + 1`.
pub open spec fn numbered(ws: Seq<Seq<char>>, names: Seq<Seq<char>>) -> Seq<Seq<char>> {
    ws.map_values(
        |w: Seq<char>|
            if is_symbol(w) {
                w
            } else {
                nat_text((position_of(names, w, 0) + 1) as nat)
            },
    )
}

/// Replaces every variable token by the number of its variable. A variable token that is
/// not among `variables` is an error. The names come back as the key to the numbers.
pub fn parse_variables(formula: Vec<String>, variables: Vec<String>) -> (r: Result<
    (Vec<String>, Vec<String>),
    ParseError,
>)
    ensures
        r is Ok <==> all_known(token_views(formula@), token_views(variables@)),
        r is Err ==> r->Err_0 == ParseError::LiteralNotFound,
        r is Ok ==> token_views(r->Ok_0.0@) == numbered(
            token_views(formula@),
            token_views(variables@),
        ) && r->Ok_0.1@ == variables@,
{
    let ghost old_formula = formula@;
    let mut tokens = formula;
    let ghost ws = token_views(tokens@);
    let ghost names = token_views(variables@);
    let mut i: usize = 0;
    while i < tokens.len()
        invariant
            0 <= i <= tokens@.len(),
            tokens@.len() == ws.len(),
            ws == token_views(old_formula),
            old_formula == formula@,
            names == token_views(variables@),
            forall|k: int|
                0 <= k < i && !is_symbol(#[trigger] ws[k]) ==> position_of(names, ws[k], 0)
                    < names.len(),
            forall|k: int| 0 <= k < i ==> (#[trigger] tokens@[k])@ == numbered(ws, names)[k],
            forall|k: int| i <= k < ws.len() ==> (#[trigger] tokens@[k])@ == ws[k],
        decreases tokens@.len() - i,
    {
        if !symbol(tokens[i].as_str()) {
            let mut p: usize = 0;
            while p < variables.len() && !crate::operators::same_text(
                variables[p].as_str(),
                tokens[i].as_str(),
            )
                invariant
                    0 <= p <= variables@.len(),
                    0 <= i < tokens@.len(),
                    tokens@.len() == ws.len(),
                    names == token_views(variables@),
                    tokens@[i as int]@ == ws[i as int],
                    position_of(names, ws[i as int], p as int) == position_of(names, ws[i as int], 0),
                decreases variables@.len() - p,
            {
                assert(names[p as int] == variables@[p as int]@);
                p += 1;
            }
            if p < variables.len() {
                assert(names[p as int] == variables@[p as int]@);
            }
            if p == variables.len() {
                assert(!is_symbol(ws[i as int]));
                assert(position_of(names, ws[i as int], 0) == names.len());
                assert(ws == token_views(old_formula));
                assert(!is_symbol(token_views(old_formula)[i as int]));
                assert(position_of(names, token_views(old_formula)[i as int], 0) >= names.len());
                assert(!all_known(token_views(old_formula), names));
                assert(names == token_views(variables@));
                return Err(ParseError::LiteralNotFound);
            }
            let mut number = String::new();
            push_nat(&mut number, p as u128 + 1);
            assert(number@ =~= nat_text((p + 1) as nat));
            tokens[i] = number;
        }
        i += 1;
    }
    assert(token_views(tokens@) =~= numbered(ws, names));
    Ok((tokens, variables))
}

/// What the token before the current one was.
#[derive(Debug, Clone, Copy, PartialEq, Eq, Structural)]
pub enum Check {
    Start,
    Negation,
    OpenParenthesis,
    CloseParenthesis,
    Operator,
    Literal,
    If,
    Iff,
}

/// Whether the text `a` comes before the text `b` in the order of the dictionary, from
/// position `i` on, character by character.
pub open spec fn text_less(a: Seq<char>, b: Seq<char>, i: int) -> bool
    decreases a.len() - i,
{
    if i < 0 || i >= b.len() {
        false
    } else if i >= a.len() {
        true
    } else if a[i] != b[i] {
        (a[i] as u32) < (b[i] as u32)
    } else {
        text_less(a, b, i + 1)
    }
}

/// The position at which `w` enters the ordered names `vs`: that of the first name, from
/// `i` on, that does not come before `w`.
pub open spec fn entry(vs: Seq<Seq<char>>, w: Seq<char>, i: int) -> int
    decreases vs.len() - i,
{
    if i < 0 || i >= vs.len() || !text_less(vs[i], w, 0) {
        i
    } else {
        entry(vs, w, i + 1)
    }
}

/// The ordered names `vs` with `w` among them, once.
pub open spec fn with_name(vs: Seq<Seq<char>>, w: Seq<char>) -> Seq<Seq<char>> {
    let p = entry(vs, w, 0);
    if 0 <= p < vs.len() && vs[p] == w {
        vs
    } else if 0 <= p <= vs.len() {
        vs.insert(p, w)
    } else {
        vs
    }
}

/// What the syntax check has seen so far.
pub struct SyntaxView {
    /// The positions of the open brackets that wait for their partner, innermost last.
    pub queue: Seq<usize>,
    /// The position of the partner of each open bracket that has one.
    pub pairs: Map<usize, usize>,
    /// The names of the variables, in the order of the dictionary.
    pub variables: Seq<Seq<char>>,
    /// The kind of the token before.
    pub last: Check,
}

/// The syntax check after the token `w` at position `idx`, or why the token is refused.
pub open spec fn syntax_step(s: SyntaxView, idx: usize, w: Seq<char>) -> Result<
    SyntaxView,
    ParseError,
> {
    let after_value = s.last == Check::CloseParenthesis || s.last == Check::Literal;
    let before_value = s.last == Check::Start || s.last == Check::Negation || s.last
        == Check::OpenParenthesis || s.last == Check::Operator || s.last == Check::If;
    if w == "("@ {
        if after_value {
            Err(ParseError::SyntaxError)
        } else {
            Ok(SyntaxView { queue: s.queue.push(idx), last: Check::OpenParenthesis, ..s })
        }
    } else if w == ")"@ {
        if before_value || s.last == Check::Iff {
            Err(ParseError::SyntaxError)
        } else if s.queue.len() == 0 {
            Err(ParseError::ParenthesisError)
        } else if idx > s.queue.last() && idx - s.queue.last() == 1 {
            Err(ParseError::ParenthesisError)
        } else {
            Ok(
                SyntaxView {
                    queue: s.queue.drop_last(),
                    pairs: s.pairs.insert(s.queue.last(), idx),
                    last: Check::CloseParenthesis,
                    ..s
                },
            )
        }
    } else if w == crate::operators::IF@ {
        if before_value {
            Err(ParseError::SyntaxError)
        } else if s.last == Check::Iff {
            Ok(s)
        } else {
            Ok(SyntaxView { last: Check::If, ..s })
        }
    } else if w == crate::operators::LEFT_ARROW@ {
        if before_value || s.last == Check::Iff {
            Err(ParseError::SyntaxError)
        } else {
            Ok(SyntaxView { last: Check::Iff, ..s })
        }
    } else if w == crate::operators::NOT@ {
        if after_value {
            Err(ParseError::SyntaxError)
        } else {
            Ok(SyntaxView { last: Check::Negation, ..s })
        }
    } else if w == crate::operators::AND@ || w == crate::operators::OR@ {
        if before_value || s.last == Check::Iff {
            Err(ParseError::SyntaxError)
        } else {
            Ok(SyntaxView { last: Check::Operator, ..s })
        }
    } else {
        if after_value {
            Err(ParseError::SyntaxError)
        } else {
            Ok(SyntaxView { variables: with_name(s.variables, w), last: Check::Literal, ..s })
        }
    }
}

/// The syntax check after the first `n` tokens of `ws`, or why it stopped.
pub open spec fn syntax_scan(ws: Seq<Seq<char>>, n: int) -> Result<SyntaxView, ParseError>
    decreases n,
{
    if n <= 0 || n > ws.len() {
        Ok(
            SyntaxView {
                queue: Seq::empty(),
                pairs: Map::empty(),
                variables: Seq::empty(),
                last: Check::Start,
            },
        )
    } else {
        match syntax_scan(ws, n - 1) {
            Ok(s) => syntax_step(s, (n - 1) as usize, ws[n - 1]),
            Err(e) => Err(e),
        }
    }
}

/// What the syntax check gives for the tokens `ws`: the brackets paired and the variables
/// named, or why the formula is refused. A bracket left open and a formula without a
/// variable are refused at the end.
pub open spec fn syntax_of(ws: Seq<Seq<char>>) -> Result<SyntaxView, ParseError> {
    match syntax_scan(ws, ws.len() as int) {
        Ok(s) => if s.queue.len() > 0 {
            Err(ParseError::ParenthesisError)
        } else if s.variables.len() == 0 {
            Err(ParseError::EmptyFormula)
        } else {
            Ok(s)
        },
        Err(e) => Err(e),
    }
}

/// Whether `a` comes before `b` in the order of the dictionary.
pub fn less_text(a: &Vec<char>, b: &Vec<char>) -> (r: bool)
    ensures
        r == text_less(a@, b@, 0),
{
    let mut i: usize = 0;
    loop
        invariant
            0 <= i <= a@.len(),
            text_less(a@, b@, i as int) == text_less(a@, b@, 0),
        decreases a@.len() - i,
    {
        if i >= b.len() {
            return false;
        }
        if i >= a.len() {
            return true;
        }
        if a[i] != b[i] {
            return (a[i] as u32) < (b[i] as u32);
        }
        i += 1;
    }
}

/// Puts `word` among the ordered names, unless it is there.
pub fn add_name(names: &mut Vec<String>, word: &str)
    ensures
        token_views(final(names)@) == with_name(token_views(old(names)@), word@),
{
    let ghost vs = token_views(names@);
    let letters = chars_of(word);
    let mut p: usize = 0;
    let mut found = false;
    while p < names.len() && !found
        invariant
            0 <= p <= names@.len(),
            vs == token_views(names@),
            names@ == old(names)@,
            letters@ == word@,
            entry(vs, word@, p as int) == entry(vs, word@, 0),
            found ==> p < names@.len() && !text_less(vs[p as int], word@, 0),
        decreases names@.len() - p + if found { 0int } else { 1int },
    {
        assert(vs[p as int] == names@[p as int]@);
        let held = chars_of(names[p].as_str());
        if less_text(&held, &letters) {
            p += 1;
        } else {
            found = true;
        }
    }
    assert(entry(vs, word@, 0) == p);
    if p < names.len() {
        assert(vs[p as int] == names@[p as int]@);
        if crate::operators::same_text(names[p].as_str(), word) {
            return ;
        }
    }
    names.insert(p, word.to_owned());
    assert(token_views(names@) =~= vs.insert(p as int, word@));
}

/// Checks the order of the tokens of a formula, pairs its brackets and collects the names
/// of its variables.
pub fn check_syntax(formula: &Vec<String>) -> (r: Result<
    (std::collections::HashMap<usize, usize>, Vec<String>),
    ParseError,
>)
    ensures
        match r {
            Ok((pairs, variables)) => syntax_of(token_views(formula@)) is Ok && pairs@ == syntax_of(
                token_views(formula@),
            )->Ok_0.pairs && token_views(variables@) == syntax_of(
                token_views(formula@),
            )->Ok_0.variables,
            Err(e) => syntax_of(token_views(formula@)) == Err::<SyntaxView, ParseError>(e),
        },
{
    broadcast use vstd::std_specs::hash::group_hash_axioms;

    let ghost ws = token_views(formula@);
    let mut parenthesis: std::collections::HashMap<usize, usize> = std::collections::HashMap::new();
    let mut parenthesis_queue: Vec<usize> = Vec::new();
    let mut variables: Vec<String> = Vec::new();
    let mut last = Check::Start;
    let mut idx: usize = 0;
    assert(token_views(variables@) =~= Seq::<Seq<char>>::empty());
    assert(parenthesis@ =~= Map::<usize, usize>::empty());
    while idx < formula.len()
        invariant
            0 <= idx <= formula@.len(),
            ws == token_views(formula@),
            syntax_scan(ws, idx as int) == Ok::<SyntaxView, ParseError>(
                SyntaxView {
                    queue: parenthesis_queue@,
                    pairs: parenthesis@,
                    variables: token_views(variables@),
                    last: last,
                },
            ),
        decreases formula@.len() - idx,
    {
        let element = formula[idx].as_str();
        assert(element@ == ws[idx as int]);
        let ghost state = SyntaxView {
            queue: parenthesis_queue@,
            pairs: parenthesis@,
            variables: token_views(variables@),
            last: last,
        };
        let ghost next = syntax_step(state, idx, element@);
        assert(syntax_scan(ws, idx + 1) == next);
        let after_value = last == Check::CloseParenthesis || last == Check::Literal;
        let before_value = last == Check::Start || last == Check::Negation || last
            == Check::OpenParenthesis || last == Check::Operator || last == Check::If;
        if crate::operators::same_text(element, "(") {
            if after_value {
                proof {
                    lemma_scan_error(ws, idx as int + 1);
                }
                return Err(ParseError::SyntaxError);
            }
            parenthesis_queue.push(idx);
            last = Check::OpenParenthesis;
        } else if crate::operators::same_text(element, ")") {
            if before_value || last == Check::Iff {
                proof {
                    lemma_scan_error(ws, idx as int + 1);
                }
                return Err(ParseError::SyntaxError);
            }
            let open_position = match parenthesis_queue.pop() {
                Some(open_position) => open_position,
                None => {
                    proof {
                        lemma_scan_error(ws, idx as int + 1);
                    }
                    return Err(ParseError::ParenthesisError);
                },
            };
            if idx > open_position && idx - open_position == 1 {
                proof {
                    lemma_scan_error(ws, idx as int + 1);
                }
                return Err(ParseError::ParenthesisError);
            }
            parenthesis.insert(open_position, idx);
            last = Check::CloseParenthesis;
        } else if crate::operators::same_text(element, crate::operators::IF) {
            if before_value {
                proof {
                    lemma_scan_error(ws, idx as int + 1);
                }
                return Err(ParseError::SyntaxError);
            }
            if last != Check::Iff {
                last = Check::If;
            }
        } else if crate::operators::same_text(element, crate::operators::LEFT_ARROW) {
            if before_value || last == Check::Iff {
                proof {
                    lemma_scan_error(ws, idx as int + 1);
                }
                return Err(ParseError::SyntaxError);
            }
            last = Check::Iff;
        } else if crate::operators::same_text(element, crate::operators::NOT) {
            if after_value {
                proof {
                    lemma_scan_error(ws, idx as int + 1);
                }
                return Err(ParseError::SyntaxError);
            }
            last = Check::Negation;
        } else if crate::operators::same_text(element, crate::operators::AND)
            || crate::operators::same_text(element, crate::operators::OR) {
            if before_value || last == Check::Iff {
                proof {
                    lemma_scan_error(ws, idx as int + 1);
                }
                return Err(ParseError::SyntaxError);
            }
            last = Check::Operator;
        } else {
            if after_value {
                proof {
                    lemma_scan_error(ws, idx as int + 1);
                }
                return Err(ParseError::SyntaxError);
            }
            add_name(&mut variables, element);
            last = Check::Literal;
        }
        idx += 1;
    }
    if parenthesis_queue.len() > 0 {
        return Err(ParseError::ParenthesisError);
    }
    if variables.len() == 0 {
        return Err(ParseError::EmptyFormula);
    }
    Ok((parenthesis, variables))
}

/// Once the syntax check has refused a token, it refuses the formula for the same reason.
pub proof fn lemma_scan_error(ws: Seq<Seq<char>>, n: int)
    requires
        0 <= n <= ws.len(),
        syntax_scan(ws, n) is Err,
    ensures
        syntax_scan(ws, ws.len() as int) == syntax_scan(ws, n),
        syntax_of(ws) == Err::<SyntaxView, ParseError>(syntax_scan(ws, n)->Err_0),
    decreases ws.len() - n,
{
    if n < ws.len() {
        lemma_scan_error(ws, n + 1);
    }
}

/// Whether every open bracket among `tokens` has its partner in `pairs`, behind it, and
/// brackets inside a pair have their partners inside the pair.
pub fn is_well_bracketed(tokens: &Vec<String>, pairs: &HashMap<usize, usize>) -> (r: bool)
    ensures
        r == well_bracketed(token_views(tokens@), pairs@, 0, tokens@.len() as int),
{
    broadcast use vstd::std_specs::hash::group_hash_axioms;

    let ghost ws = token_views(tokens@);
    let count = tokens.len();
    let mut i: usize = 0;
    while i < count
        invariant
            0 <= i <= count,
            count == tokens@.len(),
            ws == token_views(tokens@),
            forall|a: int|
                0 <= a < i && #[trigger] ws[a] == "("@ ==> pairs@.contains_key(a as usize) && a
                    < pairs@[a as usize] < count,
            forall|a: int, b: int|
                0 <= a < i && a < b < count && #[trigger] ws[a] == "("@ && #[trigger] ws[b] == "("@
                    && b < pairs@[a as usize] ==> pairs@[b as usize] < pairs@[a as usize],
        decreases count - i,
    {
        assert(ws[i as int] == tokens@[i as int]@);
        if same_text(tokens[i].as_str(), "(") {
            let close: usize = match pairs.get(&i) {
                Some(close) => *close,
                None => {
                    return false;
                },
            };
            if !(i < close && close < count) {
                return false;
            }
            let mut j: usize = i + 1;
            while j < close
                invariant
                    i < j <= close < count,
                    count == tokens@.len(),
                    ws == token_views(tokens@),
                    ws[i as int] == "("@,
                    pairs@.contains_key(i),
                    pairs@[i] == close,
                    forall|b: int|
                        i < b < j && #[trigger] ws[b] == "("@ ==> pairs@[b as usize] < close,
                decreases close - j,
            {
                assert(ws[j as int] == tokens@[j as int]@);
                if same_text(tokens[j].as_str(), "(") {
                    let inner = match pairs.get(&j) {
                        Some(inner) => *inner,
                        None => {
                            return false;
                        },
                    };
                    if !(j < inner && inner < count) {
                        return false;
                    }
                    if inner >= close {
                        return false;
                    }
                }
                j += 1;
            }
        }
        i += 1;
    }
    true
}

/// The tree of the tokens `ws` with the brackets paired by `pairs`, every arrow to the
/// left taken together with the arrow behind it as one equivalence.
pub open spec fn syntax_tree(ws: Seq<Seq<char>>, pairs: Map<usize, usize>) -> NodeView {
    let tree = built(ws, pairs, 0, ws.len() as int, false);
    searched(tree, NodeSearch::IsLeftArrow, NodeRewrite::MergeArrows, true, reach(tree), 0)
}

/// Builds the tree of a formula from its tokens and takes the two arrows of each
/// equivalence together.
pub fn parse_syntax(formula: Vec<String>, parenthesis: HashMap<usize, usize>) -> (r: Result<
    FormulaNode,
    ParseError,
>)
    requires
        well_bracketed(token_views(formula@), parenthesis@, 0, formula@.len() as int),
    ensures
        r is Ok,
        r->Ok_0@ == syntax_tree(token_views(formula@), parenthesis@),
{
    let mut formula_node = FormulaNode::new(formula, parenthesis, false);
    formula_node.find_node_with_child(NodeSearch::IsLeftArrow, NodeRewrite::MergeArrows, true);
    Ok(formula_node)
}

/// What `parse` gives for the tokens `ws`: the tree of the formula, its variables
/// numbered and the formula brought on its way to conjunctive normal form, together with
/// the names of the variables; or why the formula is refused.
pub open spec fn parsed(ws: Seq<Seq<char>>) -> Result<(NodeView, Seq<Seq<char>>), ParseError> {
    let clean = cleaned(ws);
    if clean.len() == 0 {
        Err(ParseError::EmptyFormula)
    } else {
        let tokens = merged(clean, 0, 0);
        match syntax_of(tokens) {
            Err(e) => Err(e),
            Ok(syntax) => if !all_known(tokens, syntax.variables) {
                Err(ParseError::LiteralNotFound)
            } else {
                let plain = numbered(tokens, syntax.variables);
                if !well_bracketed(plain, syntax.pairs, 0, plain.len() as int) {
                    Err(ParseError::ParenthesisError)
                } else {
                    Ok((converted(syntax_tree(plain, syntax.pairs)), syntax.variables))
                }
            },
        }
    }
}

/// Reads a propositional formula from its tokens: the tree of the formula on its way to
/// conjunctive normal form, and the names of its variables, the variable with the number
/// `p + 1` at position `p`.
pub fn parse(formula_param: Vec<String>) -> (r: Result<(FormulaNode, Vec<String>), ParseError>)
    ensures
        match r {
            Ok((tree, names)) => parsed(token_views(formula_param@)) == Ok::<
                (NodeView, Seq<Seq<char>>),
                ParseError,
            >((tree@, token_views(names@))),
            Err(e) => parsed(token_views(formula_param@)) == Err::<
                (NodeView, Seq<Seq<char>>),
                ParseError,
            >(e),
        },
{
    let ghost ws = token_views(formula_param@);
    let formula = match cleaner(formula_param) {
        Ok(cleaned_formula) => cleaned_formula,
        Err(e) => {
            return Err(e);
        },
    };
    let formula = merge_literals(formula);
    let (parenthesis, variables) = match check_syntax(&formula) {
        Ok(data) => data,
        Err(e) => {
            return Err(e);
        },
    };
    let (formula, literal_map) = match parse_variables(formula, variables) {
        Ok(data) => data,
        Err(e) => {
            return Err(e);
        },
    };
    if !is_well_bracketed(&formula, &parenthesis) {
        return Err(ParseError::ParenthesisError);
    }
    let mut formula_node = match parse_syntax(formula, parenthesis) {
        Ok(data) => data,
        Err(e) => {
            return Err(e);
        },
    };
    cnf_converter(&mut formula_node);
    Ok((formula_node, literal_map))
}

} // verus!
