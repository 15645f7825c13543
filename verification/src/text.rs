use vstd::prelude::*;
use vstd::std_specs::iter::IteratorSpec;

verus! {

/// The characters that separate the tokens of a line.
pub open spec fn is_space(c: char) -> bool {
    let u = c as u32;
    (0x09 <= u <= 0x0D) || u == 0x20 || u == 0x85 || u == 0xA0 || u == 0x1680 || (0x2000 <= u
        <= 0x200A) || u == 0x2028 || u == 0x2029 || u == 0x202F || u == 0x205F || u == 0x3000
}

/// Whether `c` is a letter, as `char::is_alphabetic` tells.
pub uninterp spec fn is_letter(c: char) -> bool;

/// `char::is_alphabetic` of the standard library: whether `c` has the Unicode property
/// Alphabetic. The answer is taken on trust and goes by the name `is_letter`.
#[verifier::external_body]
pub(crate) fn char_is_alphabetic(c: char) -> (r: bool)
    ensures
        r == is_letter(c),
{
    c.is_alphabetic()
}

/// What pieces a text is cut into.
#[derive(Clone, Copy, PartialEq, Eq, Structural)]
pub enum Cut {
    /// At line feeds.
    Lines,
    /// At white space.
    Words,
}

impl Cut {
    /// Whether `c` separates two pieces.
    pub open spec fn separates(self, c: char) -> bool {
        match self {
            Cut::Lines => c == '\n',
            Cut::Words => is_space(c),
        }
    }

    /// Whether `c` separates two pieces.
    pub fn is_separator(self, c: char) -> (r: bool)
        ensures
            r == self.separates(c),
    {
        match self {
            Cut::Lines => c == '\n',
            Cut::Words => {
                let u = c as u32;
                (0x09 <= u && u <= 0x0D) || u == 0x20 || u == 0x85 || u == 0xA0 || u == 0x1680
                    || (0x2000 <= u && u <= 0x200A) || u == 0x2028 || u == 0x2029 || u == 0x202F
                    || u == 0x205F || u == 0x3000
            },
        }
    }
}

/// The maximal runs of non-separator characters of `s`, in order. No piece is empty.
pub open spec fn pieces(s: Seq<char>, cut: Cut) -> Seq<Seq<char>>
    decreases s.len(),
{
    if s.len() == 0 {
        Seq::empty()
    } else {
        let init = pieces(s.drop_last(), cut);
        let c = s.last();
        if cut.separates(c) {
            init
        } else if s.len() >= 2 && !cut.separates(s[s.len() - 2]) && init.len() > 0 {
            init.drop_last().push(init.last().push(c))
        } else {
            init.push(seq![c])
        }
    }
}

/// The lines of a text, empty ones left out.
pub open spec fn lines(s: Seq<char>) -> Seq<Seq<char>> {
    pieces(s, Cut::Lines)
}

/// The white-space separated tokens of a line.
pub open spec fn words(s: Seq<char>) -> Seq<Seq<char>> {
    pieces(s, Cut::Words)
}

/// A decimal digit.
pub open spec fn is_digit(c: char) -> bool {
    '0' <= c <= '9'
}

pub open spec fn all_digits(d: Seq<char>) -> bool {
    forall|i: int| 0 <= i < d.len() ==> is_digit(#[trigger] d[i])
}

/// The number that the decimal digits `d` write.
pub open spec fn digits_value(d: Seq<char>) -> int
    decreases d.len(),
{
    if d.len() == 0 {
        0
    } else {
        digits_value(d.drop_last()) * 10 + (d.last() as u32 - '0' as u32)
    }
}

/// The digits of a token: the token without one leading sign.
pub open spec fn unsigned_part(w: Seq<char>) -> Seq<char> {
    if w.len() > 0 && (w[0] == '-' || w[0] == '+') {
        w.skip(1)
    } else {
        w
    }
}

/// The integer that the token `w` writes: an optional sign, then one or more decimal
/// digits and nothing else.
pub open spec fn parse_int(w: Seq<char>) -> Option<int> {
    let d = unsigned_part(w);
    if d.len() == 0 || !all_digits(d) {
        None
    } else if w[0] == '-' {
        Some(-digits_value(d))
    } else {
        Some(digits_value(d))
    }
}

/// The literal that a token writes, if it writes an integer that fits.
pub open spec fn parse_isize(w: Seq<char>) -> Option<isize> {
    match parse_int(w) {
        Some(v) => if isize::MIN <= v <= isize::MAX {
            Some(v as isize)
        } else {
            None
        },
        None => None,
    }
}

/// The count that a token writes, if it writes an integer that fits and bears no minus.
pub open spec fn parse_usize(w: Seq<char>) -> Option<usize> {
    match parse_int(w) {
        Some(v) => if w[0] != '-' && v <= usize::MAX {
            Some(v as usize)
        } else {
            None
        },
        None => None,
    }
}

/// The nonzero literals that the tokens `ws` write, in order; other tokens are dropped.
pub open spec fn literals_of(ws: Seq<Seq<char>>) -> Seq<isize>
    decreases ws.len(),
{
    if ws.len() == 0 {
        Seq::empty()
    } else {
        let init = literals_of(ws.drop_last());
        match parse_isize(ws.last()) {
            Some(v) => if v != 0 {
                init.push(v)
            } else {
                init
            },
            None => init,
        }
    }
}

/// Whether the tokens `ws` are those of a line that is no clause, given whether the
/// first character of the first token is a letter: no token at all, a leading letter, or
/// the single token `0` or `%`.
pub open spec fn rejected_tokens(ws: Seq<Seq<char>>, first_is_letter: bool) -> bool {
    ws.len() == 0 || first_is_letter || (ws.len() == 1 && (ws[0] == seq!['0'] || ws[0]
        == seq!['%']))
}

/// A line that is no clause: blank, led by a letter, or nothing but `0` or `%`.
pub open spec fn rejected_line(s: Seq<char>) -> bool {
    rejected_tokens(words(s), words(s).len() > 0 && is_letter(words(s)[0][0]))
}

/// The literals that a clause line writes.
pub open spec fn line_literals(s: Seq<char>) -> Seq<isize> {
    literals_of(words(s))
}

/// Whether the tokens `ws` are those of a line that is no clause, given whether the
/// first character of the first token is a letter.
pub fn rejects(ws: &Vec<Vec<char>>, first_is_letter: bool) -> (r: bool)
    ensures
        r == rejected_tokens(piece_views(ws@), first_is_letter),
{
    if ws.len() == 0 || first_is_letter {
        return true;
    }
    let first = &ws[0];
    assert(piece_views(ws@)[0] == first@);
    if ws.len() == 1 && first.len() == 1 && (first[0] == '0' || first[0] == '%') {
        assert(first@ =~= seq![first@[0]]);
        return true;
    }
    proof {
        if ws@.len() == 1 && first@.len() != 1 {
            assert(seq!['0'].len() == 1);
            assert(seq!['%'].len() == 1);
        }
        if first@.len() == 1 {
            assert(seq!['0'][0] == '0');
            assert(seq!['%'][0] == '%');
        }
    }
    false
}

/// Whether the tokens `ws` are those of a line that is no clause.
pub fn is_rejected(ws: &Vec<Vec<char>>) -> (r: bool)
    requires
        forall|i: int| 0 <= i < ws@.len() ==> (#[trigger] ws@[i])@.len() > 0,
    ensures
        r == rejected_tokens(
            piece_views(ws@),
            ws@.len() > 0 && is_letter(piece_views(ws@)[0][0]),
        ),
{
    if ws.len() == 0 {
        return rejects(ws, false);
    }
    assert(piece_views(ws@)[0] == ws@[0]@);
    let first_is_letter = char_is_alphabetic(ws[0][0]);
    rejects(ws, first_is_letter)
}

/// A longer run of digits writes no smaller a number.
pub proof fn lemma_digits_monotone(d: Seq<char>, k: int)
    requires
        0 <= k <= d.len(),
        all_digits(d),
    ensures
        0 <= digits_value(d.take(k)) <= digits_value(d),
    decreases d.len() - k,
{
    if k == d.len() {
        assert(d.take(k) =~= d);
        lemma_digits_nonnegative(d);
    } else {
        lemma_digits_monotone(d, k + 1);
        assert(d.take(k + 1).drop_last() =~= d.take(k));
        lemma_digits_nonnegative(d.take(k));
        assert(is_digit(d[k]));
    }
}

pub proof fn lemma_digits_nonnegative(d: Seq<char>)
    requires
        all_digits(d),
    ensures
        0 <= digits_value(d),
    decreases d.len(),
{
    if d.len() > 0 {
        lemma_digits_nonnegative(d.drop_last());
        assert(is_digit(d[d.len() - 1]));
    }
}

/// The characters of `s`, in order.
pub fn chars_of(s: &str) -> (r: Vec<char>)
    ensures
        r@ == s@,
{
    broadcast use vstd::string::axiom_spec_iter, vstd::string::next_postcondition;

    let mut it = s.chars();
    let mut r: Vec<char> = Vec::new();
    loop
        invariant
            it.obeys_prophetic_iter_laws(),
            it.decrease() is Some,
            r@ + it.remaining() == s@,
        decreases it.decrease()->0,
    {
        let ghost before = it;
        match it.next() {
            Some(c) => {
                assert(vstd::string::next_post(&before, &it, Some(c)));
                r.push(c);
                assert(r@ + it.remaining() =~= s@);
            },
            None => {
                assert(vstd::string::next_post(&before, &it, None));
                assert(r@ =~= s@);
                return r;
            },
        }
    }
}

/// The views of a list of pieces.
pub open spec fn piece_views(v: Seq<Vec<char>>) -> Seq<Seq<char>> {
    v.map_values(|p: Vec<char>| p@)
}

/// Cuts `text` into its pieces.
pub fn split(text: &Vec<char>, cut: Cut) -> (r: Vec<Vec<char>>)
    ensures
        piece_views(r@) == pieces(text@, cut),
        forall|i: int| 0 <= i < r@.len() ==> (#[trigger] r@[i])@.len() > 0,
{
    let mut done: Vec<Vec<char>> = Vec::new();
    let mut current: Vec<char> = Vec::new();
    let mut i: usize = 0;
    assert(text@.take(0) =~= Seq::<char>::empty());
    assert(piece_views(done@) =~= Seq::<Seq<char>>::empty());
    while i < text.len()
        invariant
            0 <= i <= text@.len(),
            forall|k: int| 0 <= k < done@.len() ==> (#[trigger] done@[k])@.len() > 0,
            current@.len() > 0 <==> (i > 0 && !cut.separates(text@[i - 1])),
            pieces(text@.take(i as int), cut) == if current@.len() > 0 {
                piece_views(done@).push(current@)
            } else {
                piece_views(done@)
            },
        decreases text@.len() - i,
    {
        let c = text[i];
        proof {
            let t = text@.take(i + 1);
            assert(t.drop_last() =~= text@.take(i as int));
            assert(t.last() == c);
            if i > 0 {
                assert(t[t.len() - 2] == text@[i - 1]);
            }
        }
        if cut.is_separator(c) {
            if current.len() > 0 {
                let ghost before = piece_views(done@);
                done.push(current);
                current = Vec::new();
                assert(piece_views(done@) =~= before.push(done@.last()@));
            }
        } else {
            proof {
                if current@.len() > 0 {
                    let init = piece_views(done@).push(current@);
                    assert(init.drop_last() =~= piece_views(done@));
                    assert(init.last() == current@);
                }
            }
            let ghost was = current@;
            current.push(c);
            proof {
                if was.len() == 0 {
                    assert(current@ =~= seq![c]);
                }
            }
        }
        i += 1;
    }
    assert(text@.take(text@.len() as int) =~= text@);
    if current.len() > 0 {
        let ghost before = piece_views(done@);
        done.push(current);
        assert(piece_views(done@) =~= before.push(done@.last()@));
    }
    done
}

/// Reads the integer that `w` writes, given as its magnitude and whether it bears a minus;
/// `None` when `w` writes none or its magnitude exceeds `limit`.
fn parse_magnitude(w: &Vec<char>, limit: u64) -> (r: Option<(bool, u64)>)
    requires
        limit >= 9,
    ensures
        match r {
            Some((neg, mag)) => parse_int(w@) == Some(
                if neg {
                    -(mag as int)
                } else {
                    mag as int
                },
            ) && mag <= limit && neg == (w@[0] == '-'),
            None => match parse_int(w@) {
                Some(v) => v > limit || -v > limit,
                None => true,
            },
        },
{
    let n = w.len();
    if n == 0 {
        return None;
    }
    let neg = w[0] == '-';
    let start: usize = if w[0] == '-' || w[0] == '+' {
        1
    } else {
        0
    };
    let ghost d = unsigned_part(w@);
    assert(d =~= w@.skip(start as int));
    if start == n {
        return None;
    }
    let mut acc: u64 = 0;
    let mut i: usize = start;
    assert(d.take(0) =~= Seq::<char>::empty());
    while i < n
        invariant
            start <= i <= n,
            n == w@.len(),
            d == w@.skip(start as int),
            d == unsigned_part(w@),
            limit >= 9,
            start <= 1,
            all_digits(d.take(i - start)),
            acc as int == digits_value(d.take(i - start)),
            acc <= limit,
        decreases n - i,
    {
        let c = w[i];
        assert(c == d[i - start]);
        let ghost longer = d.take(i - start + 1);
        assert(longer.drop_last() =~= d.take(i - start));
        assert(longer.last() == c);
        if !(c >= '0' && c <= '9') {
            assert(!is_digit(d[i - start]));
            return None;
        }
        assert forall|k: int| 0 <= k < longer.len() implies is_digit(#[trigger] longer[k]) by {
            if k < longer.len() - 1 {
                assert(longer[k] == d.take(i - start)[k]);
            }
        }
        let digit: u64 = (c as u32 - '0' as u32) as u64;
        if acc > (limit - digit) / 10 {
            proof {
                assert(acc * 10 + digit > limit) by (nonlinear_arith)
                    requires
                        acc > (limit - digit) / 10,
                        digit <= limit,
                        0 <= digit,
                        0 <= acc,
                ;
                if all_digits(d) {
                    lemma_digits_monotone(d, i - start + 1);
                }
            }
            return None;
        }
        assert(acc * 10 + digit <= limit) by (nonlinear_arith)
            requires
                acc <= (limit - digit) / 10,
                digit <= limit,
                0 <= digit,
                0 <= acc,
        ;
        acc = acc * 10 + digit;
        i += 1;
    }
    assert(d.take(n - start) =~= d);
    Some((neg, acc))
}

/// Reads the literal that `w` writes.
pub fn read_isize(w: &Vec<char>) -> (r: Option<isize>)
    ensures
        r == parse_isize(w@),
{
    proof {
        if all_digits(unsigned_part(w@)) {
            lemma_digits_nonnegative(unsigned_part(w@));
        }
    }
    match parse_magnitude(w, 0x8000_0000_0000_0000u64) {
        Some((neg, mag)) => {
            if neg {
                if mag <= isize::MAX as u64 {
                    Some(-(mag as isize))
                } else if mag - 1 == isize::MAX as u64 {
                    Some(isize::MIN)
                } else {
                    None
                }
            } else {
                if mag <= isize::MAX as u64 {
                    Some(mag as isize)
                } else {
                    None
                }
            }
        },
        None => None,
    }
}

/// Reads the count that `w` writes.
pub fn read_usize(w: &Vec<char>) -> (r: Option<usize>)
    ensures
        r == parse_usize(w@),
{
    proof {
        if all_digits(unsigned_part(w@)) {
            lemma_digits_nonnegative(unsigned_part(w@));
        }
    }
    match parse_magnitude(w, u64::MAX) {
        Some((neg, mag)) => {
            if !neg && mag <= usize::MAX as u64 {
                Some(mag as usize)
            } else {
                None
            }
        },
        None => None,
    }
}

/// Reads the nonzero literals that the tokens `ws` write.
pub fn read_literals(ws: &Vec<Vec<char>>) -> (r: Vec<isize>)
    ensures
        r@ == literals_of(piece_views(ws@)),
{
    let mut r: Vec<isize> = Vec::new();
    let mut i: usize = 0;
    let ghost all = piece_views(ws@);
    assert(all.take(0) =~= Seq::<Seq<char>>::empty());
    while i < ws.len()
        invariant
            0 <= i <= ws@.len(),
            all == piece_views(ws@),
            r@ == literals_of(all.take(i as int)),
        decreases ws@.len() - i,
    {
        proof {
            let t = all.take(i + 1);
            assert(t.drop_last() =~= all.take(i as int));
            assert(t.last() == ws@[i as int]@);
        }
        match read_isize(&ws[i]) {
            Some(v) => {
                if v != 0 {
                    r.push(v);
                }
            },
            None => {},
        }
        i += 1;
    }
    assert(all.take(all.len() as int) =~= all);
    r
}

} // verus!
