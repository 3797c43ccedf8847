use vstd::prelude::*;

use std::collections::VecDeque;

use crate::regex::{
    spec_escaped, spec_from_char, spec_is_binary_operator, spec_is_operator, spec_precedence,
    spec_type, OperatorType, RegexError, RegexSymbol,
};

verus! {

// ---------------------------------------------------------------------------
// Boundary validation: a pattern may not begin with an operator nor end
// with a binary operator.
// ---------------------------------------------------------------------------
/// The boundary error of a pattern, if it has one.
pub open spec fn spec_boundary_err(s: Seq<char>) -> Option<RegexError> {
    if s.len() > 0 && spec_is_operator(s[0]) {
        Some(RegexError::InvalidPatternStart)
    } else if s.len() > 0 && spec_is_binary_operator(s[s.len() - 1]) {
        Some(RegexError::InvalidPatternEnd)
    } else {
        None
    }
}

/// An adjacent pair of raw characters that may not stand together:
/// a binary operator before any operator, or a unary operator before a
/// unary operator.
pub open spec fn spec_illegal_pair(a: char, b: char) -> bool {
    (spec_is_binary_operator(a) && spec_is_operator(b)) || (crate::regex::spec_is_unary_operator(a)
        && crate::regex::spec_is_unary_operator(b))
}

/// The first illegal adjacent pair at or after position `i`, with its
/// position.
pub open spec fn spec_first_illegal_pair(s: Seq<char>, i: int) -> Option<(char, char, int)>
    decreases s.len() - i,
{
    if i < 0 || i + 1 >= s.len() {
        None
    } else if spec_illegal_pair(s[i], s[i + 1]) {
        Some((s[i], s[i + 1], i))
    } else {
        spec_first_illegal_pair(s, i + 1)
    }
}

// ---------------------------------------------------------------------------
// Tokenisation with implicit concatenation.
// ---------------------------------------------------------------------------
/// Whether concatenation may follow the character `c` (escaped or not).
pub open spec fn can_concat_after(c: char, escaped: bool) -> bool {
    escaped || (c != '(' && !spec_is_binary_operator(c))
}

/// Whether concatenation may precede the raw character `c`.
pub open spec fn can_concat_before(c: char) -> bool {
    c != ')' && !spec_is_operator(c)
}

/// The token stream of the pattern suffix starting at `i`, with implicit
/// `Concat` symbols inserted; `esc` records that the previous character
/// was an unconsumed backslash.
pub open spec fn spec_format_from(s: Seq<char>, i: int, esc: bool) -> Result<
    Seq<RegexSymbol>,
    RegexError,
>
    decreases s.len() - i,
{
    if i < 0 || i >= s.len() {
        Ok(Seq::empty())
    } else {
        let c = s[i];
        if c == '\\' && !esc {
            if i + 1 >= s.len() {
                Err(RegexError::TrailingBackslash)
            } else {
                spec_format_from(s, i + 1, true)
            }
        } else {
            let sym_opt = if esc {
                spec_escaped(c)
            } else {
                Some(spec_from_char(c))
            };
            match sym_opt {
                None => Err(RegexError::InvalidEscape(c)),
                Some(sym) => {
                    let prefix = if i + 1 < s.len() && can_concat_after(c, esc)
                        && can_concat_before(s[i + 1]) {
                        seq![sym, RegexSymbol::Concat]
                    } else {
                        seq![sym]
                    };
                    match spec_format_from(s, i + 1, false) {
                        Ok(rest) => Ok(prefix + rest),
                        Err(e) => Err(e),
                    }
                },
            }
        }
    }
}

pub open spec fn spec_format(s: Seq<char>) -> Result<Seq<RegexSymbol>, RegexError> {
    spec_format_from(s, 0, false)
}

/// Prepends symbols to the success value of a result.
pub open spec fn with_prefix(prefix: Seq<RegexSymbol>, r: Result<Seq<RegexSymbol>, RegexError>) -> Result<
    Seq<RegexSymbol>,
    RegexError,
> {
    match r {
        Ok(rest) => Ok(prefix + rest),
        Err(e) => Err(e),
    }
}

proof fn lemma_with_prefix_assoc(a: Seq<RegexSymbol>, b: Seq<RegexSymbol>, r: Result<Seq<RegexSymbol>, RegexError>)
    ensures
        with_prefix(a, with_prefix(b, r)) == with_prefix(a + b, r),
{
    match r {
        Ok(rest) => {
            assert((a + b) + rest =~= a + (b + rest));
        },
        Err(_) => {},
    }
}

// ---------------------------------------------------------------------------
// Shunting yard: infix tokens to postfix.
// ---------------------------------------------------------------------------
/// Pops operators to the output until an `Open` tops the stack, then
/// discards that `Open`; `None` when the stack empties first.
pub open spec fn spec_close_step(stack: Seq<RegexSymbol>, out: Seq<RegexSymbol>) -> Option<
    (Seq<RegexSymbol>, Seq<RegexSymbol>),
>
    decreases stack.len(),
{
    if stack.len() == 0 {
        None
    } else if stack.last() == RegexSymbol::Open {
        Some((stack.drop_last(), out))
    } else {
        spec_close_step(stack.drop_last(), out.push(stack.last()))
    }
}

/// Pops operators of precedence at least `prec` to the output, stopping
/// at an `Open` or at a weaker operator; taking equal precedence too
/// keeps binary operators left-associative.
pub open spec fn spec_pop_ge(stack: Seq<RegexSymbol>, out: Seq<RegexSymbol>, prec: int) -> (
    Seq<RegexSymbol>,
    Seq<RegexSymbol>,
)
    decreases stack.len(),
{
    if stack.len() == 0 {
        (stack, out)
    } else if stack.last() == RegexSymbol::Open {
        (stack, out)
    } else if spec_precedence(stack.last()) >= prec {
        spec_pop_ge(stack.drop_last(), out.push(stack.last()), prec)
    } else {
        (stack, out)
    }
}

/// Drains the remaining operators to the output; a leftover `Open`
/// means unbalanced parentheses.
pub open spec fn spec_drain(stack: Seq<RegexSymbol>, out: Seq<RegexSymbol>) -> Result<
    Seq<RegexSymbol>,
    RegexError,
>
    decreases stack.len(),
{
    if stack.len() == 0 {
        Ok(out)
    } else if stack.last() == RegexSymbol::Open {
        Err(RegexError::UnbalancedParens)
    } else {
        spec_drain(stack.drop_last(), out.push(stack.last()))
    }
}

/// One pass of the shunting-yard conversion from position `i` on, with
/// the current operator stack and output queue.
pub open spec fn spec_convert_from(
    input: Seq<RegexSymbol>,
    i: int,
    stack: Seq<RegexSymbol>,
    out: Seq<RegexSymbol>,
) -> Result<Seq<RegexSymbol>, RegexError>
    decreases input.len() - i,
{
    if i < 0 || i >= input.len() {
        spec_drain(stack, out)
    } else {
        let sym = input[i];
        if sym == RegexSymbol::Open {
            spec_convert_from(input, i + 1, stack.push(sym), out)
        } else if sym == RegexSymbol::Close {
            match spec_close_step(stack, out) {
                None => Err(RegexError::UnbalancedParens),
                Some((stack2, out2)) => spec_convert_from(input, i + 1, stack2, out2),
            }
        } else if spec_type(sym) != OperatorType::NonOperator {
            if spec_type(sym) == OperatorType::Binary {
                let (stack2, out2) = spec_pop_ge(stack, out, spec_precedence(sym) as int);
                spec_convert_from(input, i + 1, stack2.push(sym), out2)
            } else {
                spec_convert_from(input, i + 1, stack.push(sym), out)
            }
        } else {
            spec_convert_from(input, i + 1, stack, out.push(sym))
        }
    }
}

pub open spec fn spec_convert(input: Seq<RegexSymbol>) -> Result<Seq<RegexSymbol>, RegexError> {
    spec_convert_from(input, 0, Seq::empty(), Seq::empty())
}

/// The whole postfixer: boundary checks, adjacency checks, tokenisation
/// with implicit concatenation, then shunting yard.
pub open spec fn spec_transform(s: Seq<char>) -> Result<Seq<RegexSymbol>, RegexError> {
    match spec_boundary_err(s) {
        Some(e) => Err(e),
        None => match spec_first_illegal_pair(s, 0) {
            Some((a, b, p)) => Err(RegexError::IllegalOperatorSequence(a, b, p as usize)),
            None => match spec_format(s) {
                Ok(f) => spec_convert(f),
                Err(e) => Err(e),
            },
        },
    }
}

// ---------------------------------------------------------------------------
// The alphabet of a postfix stream.
// ---------------------------------------------------------------------------
/// The distinct literal characters of the symbols from position `i` on,
/// in order of first occurrence, appended to those already collected.
pub open spec fn spec_alphabet_from(q: Seq<RegexSymbol>, i: int, acc: Seq<char>) -> Seq<char>
    decreases q.len() - i,
{
    if i < 0 || i >= q.len() {
        acc
    } else {
        match q[i] {
            RegexSymbol::Char(c) => if acc.contains(c) {
                spec_alphabet_from(q, i + 1, acc)
            } else {
                spec_alphabet_from(q, i + 1, acc.push(c))
            },
            _ => spec_alphabet_from(q, i + 1, acc),
        }
    }
}

/// The alphabet of a postfix stream: exactly its literal characters,
/// each once, in order of first occurrence.
pub open spec fn spec_alphabet(q: Seq<RegexSymbol>) -> Seq<char> {
    spec_alphabet_from(q, 0, Seq::empty())
}

/// A sequence of characters without repetition.
pub open spec fn no_dup_chars(a: Seq<char>) -> bool {
    forall|i: int, j: int| 0 <= i < j < a.len() ==> a[i] != a[j]
}

// ---------------------------------------------------------------------------
// Laws of the postfixer.
// ---------------------------------------------------------------------------
/// A symbol stream free of parentheses.
pub open spec fn no_parens(q: Seq<RegexSymbol>) -> bool {
    forall|k: int|
        0 <= k < q.len() ==> (#[trigger] q[k]) != RegexSymbol::Open && q[k] != RegexSymbol::Close
}

/// An operator stack never holds a `Close`.
pub open spec fn no_close(st: Seq<RegexSymbol>) -> bool {
    forall|k: int| 0 <= k < st.len() ==> (#[trigger] st[k]) != RegexSymbol::Close
}

proof fn lemma_close_step_no_parens(stack: Seq<RegexSymbol>, out: Seq<RegexSymbol>)
    requires
        no_close(stack),
        no_parens(out),
    ensures
        match spec_close_step(stack, out) {
            Some((stack2, out2)) => no_close(stack2) && no_parens(out2),
            None => true,
        },
    decreases stack.len(),
{
    if stack.len() == 0 {
    } else if stack.last() == RegexSymbol::Open {
        assert(no_close(stack.drop_last()));
    } else {
        assert(no_parens(out.push(stack.last())));
        assert(no_close(stack.drop_last()));
        lemma_close_step_no_parens(stack.drop_last(), out.push(stack.last()));
    }
}

proof fn lemma_pop_ge_no_parens(stack: Seq<RegexSymbol>, out: Seq<RegexSymbol>, prec: int)
    requires
        no_close(stack),
        no_parens(out),
    ensures
        no_close(spec_pop_ge(stack, out, prec).0),
        no_parens(spec_pop_ge(stack, out, prec).1),
    decreases stack.len(),
{
    if stack.len() == 0 {
    } else if stack.last() == RegexSymbol::Open {
    } else if spec_precedence(stack.last()) >= prec {
        assert(no_parens(out.push(stack.last())));
        assert(no_close(stack.drop_last()));
        lemma_pop_ge_no_parens(stack.drop_last(), out.push(stack.last()), prec);
    }
}

proof fn lemma_drain_no_parens(stack: Seq<RegexSymbol>, out: Seq<RegexSymbol>)
    requires
        no_close(stack),
        no_parens(out),
        spec_drain(stack, out) is Ok,
    ensures
        no_parens(spec_drain(stack, out)->Ok_0),
    decreases stack.len(),
{
    if stack.len() == 0 {
    } else if stack.last() == RegexSymbol::Open {
    } else {
        assert(no_parens(out.push(stack.last())));
        assert(no_close(stack.drop_last()));
        lemma_drain_no_parens(stack.drop_last(), out.push(stack.last()));
    }
}

proof fn lemma_convert_from_no_parens(
    input: Seq<RegexSymbol>,
    i: int,
    stack: Seq<RegexSymbol>,
    out: Seq<RegexSymbol>,
)
    requires
        no_close(stack),
        no_parens(out),
        spec_convert_from(input, i, stack, out) is Ok,
    ensures
        no_parens(spec_convert_from(input, i, stack, out)->Ok_0),
    decreases input.len() - i,
{
    if i < 0 || i >= input.len() {
        lemma_drain_no_parens(stack, out);
    } else {
        let sym = input[i];
        if sym == RegexSymbol::Open {
            assert(no_close(stack.push(sym)));
            lemma_convert_from_no_parens(input, i + 1, stack.push(sym), out);
        } else if sym == RegexSymbol::Close {
            lemma_close_step_no_parens(stack, out);
            match spec_close_step(stack, out) {
                None => {},
                Some((stack2, out2)) => {
                    lemma_convert_from_no_parens(input, i + 1, stack2, out2);
                },
            }
        } else if spec_type(sym) != OperatorType::NonOperator {
            if spec_type(sym) == OperatorType::Binary {
                lemma_pop_ge_no_parens(stack, out, spec_precedence(sym) as int);
                let stack2 = spec_pop_ge(stack, out, spec_precedence(sym) as int).0;
                let out2 = spec_pop_ge(stack, out, spec_precedence(sym) as int).1;
                assert(no_close(stack2.push(sym)));
                lemma_convert_from_no_parens(input, i + 1, stack2.push(sym), out2);
            } else {
                assert(no_close(stack.push(sym)));
                lemma_convert_from_no_parens(input, i + 1, stack.push(sym), out);
            }
        } else {
            assert(no_parens(out.push(sym)));
            lemma_convert_from_no_parens(input, i + 1, stack, out.push(sym));
        }
    }
}

/// For every pattern the postfixer accepts, the postfix output holds no
/// `Open` and no `Close`: parentheses live only transiently on the
/// operator stack.
pub proof fn lemma_postfix_no_parens(pattern: Seq<char>)
    requires
        spec_transform(pattern) is Ok,
    ensures
        no_parens(spec_transform(pattern)->Ok_0),
{
    let f = spec_format(pattern)->Ok_0;
    assert(no_close(Seq::<RegexSymbol>::empty()));
    assert(no_parens(Seq::<RegexSymbol>::empty()));
    lemma_convert_from_no_parens(f, 0, Seq::empty(), Seq::empty());
}

/// Whether, at the symbol level, concatenation may follow `a`.
pub open spec fn sym_can_concat_after(a: RegexSymbol) -> bool {
    a != RegexSymbol::Open && a != RegexSymbol::Alternation && a != RegexSymbol::Concat
}

/// Whether, at the symbol level, concatenation may precede `b`.
pub open spec fn sym_can_concat_before(b: RegexSymbol) -> bool {
    b != RegexSymbol::Close && spec_type(b) == OperatorType::NonOperator
}

/// A slot between two adjacent symbols where an implicit `Concat`
/// belongs.
pub open spec fn concat_slot(a: RegexSymbol, b: RegexSymbol) -> bool {
    sym_can_concat_after(a) && sym_can_concat_before(b)
}

/// Inserts a `Concat` into every slot of a symbol stream.
pub open spec fn insert_concats(s: Seq<RegexSymbol>) -> Seq<RegexSymbol>
    decreases s.len(),
{
    if s.len() < 2 {
        s
    } else if concat_slot(s[0], s[1]) {
        seq![s[0], RegexSymbol::Concat] + insert_concats(s.drop_first())
    } else {
        seq![s[0]] + insert_concats(s.drop_first())
    }
}

/// A stream with no slot left for an implicit `Concat`.
pub open spec fn no_concat_slots(s: Seq<RegexSymbol>) -> bool {
    forall|k: int| 0 <= k && k + 1 < s.len() ==> !concat_slot(#[trigger] s[k], s[k + 1])
}

proof fn lemma_insert_concats_first(s: Seq<RegexSymbol>)
    requires
        s.len() > 0,
    ensures
        insert_concats(s).len() > 0,
        insert_concats(s)[0] == s[0],
{
    if s.len() < 2 {
    } else if concat_slot(s[0], s[1]) {
    } else {
    }
}

proof fn lemma_insert_concats_no_slots(s: Seq<RegexSymbol>)
    ensures
        no_concat_slots(insert_concats(s)),
    decreases s.len(),
{
    if s.len() < 2 {
    } else {
        let s1 = s.drop_first();
        lemma_insert_concats_no_slots(s1);
        lemma_insert_concats_first(s1);
        let rest = insert_concats(s1);
        if concat_slot(s[0], s[1]) {
            let r = seq![s[0], RegexSymbol::Concat] + rest;
            assert(r[1] == RegexSymbol::Concat);
            assert forall|k: int| 0 <= k && k + 1 < r.len() implies !concat_slot(
                #[trigger] r[k],
                r[k + 1],
            ) by {
                if k == 0 {
                    assert(!sym_can_concat_before(RegexSymbol::Concat));
                } else if k == 1 {
                    assert(!sym_can_concat_after(RegexSymbol::Concat));
                } else {
                    assert(r[k] == rest[k - 2]);
                    assert(r[k + 1] == rest[k - 1]);
                }
            }
        } else {
            let r = seq![s[0]] + rest;
            assert forall|k: int| 0 <= k && k + 1 < r.len() implies !concat_slot(
                #[trigger] r[k],
                r[k + 1],
            ) by {
                if k == 0 {
                    assert(r[0] == s[0]);
                    assert(r[1] == rest[0]);
                    assert(rest[0] == s[1]);
                } else {
                    assert(r[k] == rest[k - 1]);
                    assert(r[k + 1] == rest[k]);
                }
            }
        }
    }
}

proof fn lemma_no_slots_fixed(s: Seq<RegexSymbol>)
    requires
        no_concat_slots(s),
    ensures
        insert_concats(s) == s,
    decreases s.len(),
{
    if s.len() < 2 {
    } else {
        assert(!concat_slot(s[0], s[1]));
        let s1 = s.drop_first();
        assert(no_concat_slots(s1)) by {
            assert forall|k: int| 0 <= k && k + 1 < s1.len() implies !concat_slot(
                #[trigger] s1[k],
                s1[k + 1],
            ) by {
                assert(s1[k] == s[k + 1]);
                assert(s1[k + 1] == s[k + 2]);
            }
        }
        lemma_no_slots_fixed(s1);
        assert(seq![s[0]] + s1 =~= s);
    }
}

/// Inserting implicit concatenation symbols is idempotent: a second
/// pass over the result of a first pass changes nothing.
pub proof fn lemma_insert_concats_idempotent(s: Seq<RegexSymbol>)
    ensures
        insert_concats(insert_concats(s)) == insert_concats(s),
{
    lemma_insert_concats_no_slots(s);
    lemma_no_slots_fixed(insert_concats(s));
}

proof fn lemma_format_from_no_slots(s: Seq<char>, i: int, esc: bool)
    requires
        0 <= i <= s.len(),
        spec_format_from(s, i, esc) is Ok,
    ensures
        no_concat_slots(spec_format_from(s, i, esc)->Ok_0),
        i < s.len() ==> spec_format_from(s, i, esc)->Ok_0.len() > 0,
        i < s.len() && !esc && s[i] != '\\' ==> spec_format_from(s, i, esc)->Ok_0[0]
            == spec_from_char(s[i]),
    decreases s.len() - i,
{
    if i >= s.len() {
    } else {
        let c = s[i];
        if c == '\\' && !esc {
            lemma_format_from_no_slots(s, i + 1, true);
        } else {
            let sym = if esc {
                spec_escaped(c)->Some_0
            } else {
                spec_from_char(c)
            };
            lemma_format_from_no_slots(s, i + 1, false);
            let rest = spec_format_from(s, i + 1, false)->Ok_0;
            let f = spec_format_from(s, i, esc)->Ok_0;
            if i + 1 < s.len() && can_concat_after(c, esc) && can_concat_before(s[i + 1]) {
                assert(f == seq![sym, RegexSymbol::Concat] + rest);
                assert(rest.len() > 0);
                assert forall|k: int| 0 <= k && k + 1 < f.len() implies !concat_slot(
                    #[trigger] f[k],
                    f[k + 1],
                ) by {
                    if k == 0 {
                        assert(!sym_can_concat_before(RegexSymbol::Concat));
                    } else if k == 1 {
                        assert(!sym_can_concat_after(RegexSymbol::Concat));
                    } else {
                        assert(f[k] == rest[k - 2]);
                        assert(f[k + 1] == rest[k - 1]);
                    }
                }
            } else {
                assert(f == seq![sym] + rest);
                assert forall|k: int| 0 <= k && k + 1 < f.len() implies !concat_slot(
                    #[trigger] f[k],
                    f[k + 1],
                ) by {
                    if k == 0 {
                        assert(f[1] == rest[0]);
                        assert(i + 1 < s.len());
                        if !can_concat_after(c, esc) {
                            assert(!esc && (c == '(' || spec_is_binary_operator(c)));
                            assert(sym == spec_from_char(c));
                            assert(!sym_can_concat_after(sym));
                        } else {
                            assert(!can_concat_before(s[i + 1]));
                            assert(s[i + 1] != '\\');
                            assert(rest[0] == spec_from_char(s[i + 1]));
                            assert(!sym_can_concat_before(rest[0]));
                        }
                    } else {
                        assert(f[k] == rest[k - 1]);
                        assert(f[k + 1] == rest[k]);
                    }
                }
            }
        }
    }
}

/// The tokenisation stage leaves no slot for a further implicit
/// `Concat`: re-running the insertion over its output returns the
/// output unchanged. Together with `lemma_insert_concats_idempotent`
/// this says the insertion is deterministic and idempotent under the
/// pairwise predicate.
pub proof fn lemma_format_concat_idempotent(pattern: Seq<char>)
    requires
        spec_format(pattern) is Ok,
    ensures
        insert_concats(spec_format(pattern)->Ok_0) == spec_format(pattern)->Ok_0,
{
    lemma_format_from_no_slots(pattern, 0, false);
    lemma_no_slots_fixed(spec_format(pattern)->Ok_0);
}

// ---------------------------------------------------------------------------
// Executable stages.
// ---------------------------------------------------------------------------
pub fn check_start_and_end_chars(regex: String) -> (r: Result<String, RegexError>)
    ensures
        match spec_boundary_err(regex@) {
            Some(e) => r == Err::<String, RegexError>(e),
            None => r is Ok && r->Ok_0@ == regex@,
        },
{
    let n = regex.as_str().unicode_len();
    if n > 0 {
        let first = regex.as_str().get_char(0);
        if RegexSymbol::is_operator(first) {
            return Err(RegexError::InvalidPatternStart);
        }
        let last = regex.as_str().get_char(n - 1);
        if RegexSymbol::is_binary_operator(last) {
            return Err(RegexError::InvalidPatternEnd);
        }
    }
    Ok(regex)
}

pub fn check_for_illegal_operator_sequences(regex: String) -> (r: Result<String, RegexError>)
    ensures
        match spec_first_illegal_pair(regex@, 0) {
            Some((a, b, p)) => r == Err::<String, RegexError>(
                RegexError::IllegalOperatorSequence(a, b, p as usize),
            ),
            None => r is Ok && r->Ok_0@ == regex@,
        },
{
    let n = regex.as_str().unicode_len();
    let mut i: usize = 0;
    while n > 0 && i < n - 1
        invariant
            n == regex@.len(),
            i <= n,
            spec_first_illegal_pair(regex@, 0) == spec_first_illegal_pair(regex@, i as int),
        decreases n - i,
    {
        let current = regex.as_str().get_char(i);
        let next = regex.as_str().get_char(i + 1);
        if RegexSymbol::is_binary_operator(current) && RegexSymbol::is_operator(next)
            || RegexSymbol::is_unary_operator(current) && RegexSymbol::is_unary_operator(next) {
            return Err(RegexError::IllegalOperatorSequence(current, next, i));
        }
        i = i + 1;
    }
    Ok(regex)
}

pub fn format(regex: String) -> (r: Result<Vec<RegexSymbol>, RegexError>)
    ensures
        match spec_format(regex@) {
            Ok(f) => r is Ok && r->Ok_0@ == f,
            Err(e) => r == Err::<Vec<RegexSymbol>, RegexError>(e),
        },
{
    let n = regex.as_str().unicode_len();
    let mut formatted: Vec<RegexSymbol> = Vec::new();
    let mut i: usize = 0;
    let mut escape_flag = false;
    proof {
        assert(formatted@ + spec_format_from(regex@, 0, false)->Ok_0 =~= spec_format_from(
            regex@,
            0,
            false,
        )->Ok_0);
    }
    while i < n
        invariant
            n == regex@.len(),
            i <= n,
            escape_flag ==> i < n,
            spec_format(regex@) == with_prefix(
                formatted@,
                spec_format_from(regex@, i as int, escape_flag),
            ),
        decreases n - i,
    {
        let ghost s = regex@;
        let c = regex.as_str().get_char(i);
        if c == '\\' && !escape_flag {
            if i + 1 >= n {
                proof {
                    assert(spec_format_from(s, i as int, false) == Err::<
                        Seq<RegexSymbol>,
                        RegexError,
                    >(RegexError::TrailingBackslash));
                }
                return Err(RegexError::TrailingBackslash);
            }
            proof {
                assert(spec_format_from(s, i as int, false) == spec_format_from(
                    s,
                    i as int + 1,
                    true,
                ));
            }
            escape_flag = true;
            i = i + 1;
            continue ;
        }
        let sym: RegexSymbol;
        if escape_flag {
            match RegexSymbol::get_escaped(c) {
                Ok(es) => {
                    sym = es;
                },
                Err(e) => {
                    proof {
                        assert(spec_format_from(s, i as int, true) == Err::<
                            Seq<RegexSymbol>,
                            RegexError,
                        >(RegexError::InvalidEscape(c)));
                    }
                    return Err(e);
                },
            }
        } else {
            sym = RegexSymbol::from_char(c);
        }
        let ghost prev_formatted = formatted@;
        formatted.push(sym);
        let ghost prefix = seq![sym];
        let ghost prefix2: Seq<RegexSymbol>;
        if i + 1 < n {
            let next = regex.as_str().get_char(i + 1);
            let can_after = escape_flag || (c != '(' && !RegexSymbol::is_binary_operator(c));
            let can_before = next != ')' && !RegexSymbol::is_operator(next);
            if can_after && can_before {
                formatted.push(RegexSymbol::Concat);
                proof {
                    prefix2 = seq![sym, RegexSymbol::Concat];
                }
            } else {
                proof {
                    prefix2 = seq![sym];
                }
            }
        } else {
            proof {
                prefix2 = seq![sym];
            }
        }
        proof {
            assert(formatted@ =~= prev_formatted + prefix2);
            assert(spec_format_from(s, i as int, escape_flag) == with_prefix(
                prefix2,
                spec_format_from(s, i as int + 1, false),
            ));
            lemma_with_prefix_assoc(
                prev_formatted,
                prefix2,
                spec_format_from(s, i as int + 1, false),
            );
        }
        escape_flag = false;
        i = i + 1;
    }
    proof {
        assert(spec_format_from(regex@, n as int, escape_flag) == Ok::<
            Seq<RegexSymbol>,
            RegexError,
        >(Seq::empty()));
        assert(formatted@ + Seq::<RegexSymbol>::empty() =~= formatted@);
    }
    Ok(formatted)
}

/// Converts the infix token stream to postfix with the shunting-yard
/// algorithm: literals go straight to the output queue, operators wait
/// on a stack until nothing of higher or equal precedence is above
/// them, and parentheses delimit sub-scopes.
pub fn convert(formatted: Vec<RegexSymbol>) -> (r: Result<VecDeque<RegexSymbol>, RegexError>)
    ensures
        match spec_convert(formatted@) {
            Ok(q) => r is Ok && r->Ok_0@ == q,
            Err(e) => r == Err::<VecDeque<RegexSymbol>, RegexError>(e),
        },
{
    let ghost f = formatted@;
    let mut output_queue: VecDeque<RegexSymbol> = VecDeque::new();
    let mut operator_stack: Vec<RegexSymbol> = Vec::new();
    let mut i: usize = 0;
    while i < formatted.len()
        invariant
            f == formatted@,
            i <= f.len(),
            spec_convert(f) == spec_convert_from(f, i as int, operator_stack@, output_queue@),
        decreases f.len() - i,
    {
        let symbol = formatted[i];
        if symbol == RegexSymbol::Open {
            operator_stack.push(symbol);
        } else if symbol == RegexSymbol::Close {
            proof {
                assert(spec_convert_from(f, i as int, operator_stack@, output_queue@) == (
                match spec_close_step(operator_stack@, output_queue@) {
                    None => Err::<Seq<RegexSymbol>, RegexError>(RegexError::UnbalancedParens),
                    Some((stack2, out2)) => spec_convert_from(f, i as int + 1, stack2, out2),
                }));
            }
            let mut found_corresponding_bracket = false;
            while !found_corresponding_bracket
                invariant
                    f == formatted@,
                    i < f.len(),
                    f[i as int] == RegexSymbol::Close,
                    spec_convert(f) == (match spec_close_step(operator_stack@, output_queue@) {
                        None => Err::<Seq<RegexSymbol>, RegexError>(RegexError::UnbalancedParens),
                        Some((stack2, out2)) => spec_convert_from(f, i as int + 1, stack2, out2),
                    }),
                    found_corresponding_bracket ==> operator_stack@.len() > 0
                        && operator_stack@.last() == RegexSymbol::Open,
                decreases operator_stack@.len() + (if found_corresponding_bracket {
                    0int
                } else {
                    1int
                }),
            {
                if operator_stack.len() == 0 {
                    return Err(RegexError::UnbalancedParens);
                }
                let top = operator_stack[operator_stack.len() - 1];
                if top != RegexSymbol::Open {
                    let popped = operator_stack.pop().unwrap();
                    output_queue.push_back(popped);
                } else {
                    found_corresponding_bracket = true;
                }
            }
            // Pop the corresponding parenthesis off the stack.
            operator_stack.pop().unwrap();
        } else if symbol.get_type() != OperatorType::NonOperator {
            if symbol.get_type() == OperatorType::Binary {
                let ghost prec = spec_precedence(symbol) as int;
                proof {
                    assert(spec_convert_from(f, i as int, operator_stack@, output_queue@)
                        == spec_convert_from(
                        f,
                        i as int + 1,
                        spec_pop_ge(operator_stack@, output_queue@, prec).0.push(symbol),
                        spec_pop_ge(operator_stack@, output_queue@, prec).1,
                    ));
                }
                // All binary operators are left associative, so equal
                // precedence also pops, keeping evaluation left to right.
                loop
                    invariant
                        prec == spec_precedence(symbol) as int,
                        spec_convert(f) == spec_convert_from(
                            f,
                            i as int + 1,
                            spec_pop_ge(operator_stack@, output_queue@, prec).0.push(symbol),
                            spec_pop_ge(operator_stack@, output_queue@, prec).1,
                        ),
                    ensures
                        operator_stack@.len() == 0 || operator_stack@.last() == RegexSymbol::Open
                            || spec_precedence(symbol) > spec_precedence(operator_stack@.last()),
                    decreases operator_stack@.len(),
                {
                    if operator_stack.len() == 0 {
                        break ;
                    }
                    let top = operator_stack[operator_stack.len() - 1];
                    if top == RegexSymbol::Open {
                        break ;
                    }
                    if symbol.get_precedence() > top.get_precedence() {
                        break ;
                    }
                    let popped = operator_stack.pop().unwrap();
                    output_queue.push_back(popped);
                }
                proof {
                    assert(spec_pop_ge(operator_stack@, output_queue@, prec)
                        == (operator_stack@, output_queue@));
                }
            }
            // Unary operators are all of the same precedence and bind to
            // the operand already in the output, so nothing is popped.
            operator_stack.push(symbol);
        } else {
            output_queue.push_back(symbol);
        }
        i = i + 1;
    }
    // Drain what operators remain; a parenthesis among them means the
    // pattern was unbalanced.
    proof {
        assert(spec_convert(f) == spec_drain(operator_stack@, output_queue@));
    }
    while operator_stack.len() > 0
        invariant
            f == formatted@,
            spec_convert(f) == spec_drain(operator_stack@, output_queue@),
        decreases operator_stack@.len(),
    {
        let top = operator_stack[operator_stack.len() - 1];
        if top == RegexSymbol::Open {
            return Err(RegexError::UnbalancedParens);
        }
        let popped = operator_stack.pop().unwrap();
        output_queue.push_back(popped);
    }
    Ok(output_queue)
}

/// Turns a raw pattern into a queue of symbols in postfix form, or the
/// first error the pattern exhibits.
pub fn transform(regex: String) -> (r: Result<VecDeque<RegexSymbol>, RegexError>)
    ensures
        match spec_transform(regex@) {
            Ok(q) => r is Ok && r->Ok_0@ == q,
            Err(e) => r == Err::<VecDeque<RegexSymbol>, RegexError>(e),
        },
{
    let regex = match check_start_and_end_chars(regex) {
        Ok(s) => s,
        Err(e) => {
            return Err(e);
        },
    };
    let regex = match check_for_illegal_operator_sequences(regex) {
        Ok(s) => s,
        Err(e) => {
            return Err(e);
        },
    };
    let formatted = match format(regex) {
        Ok(v) => v,
        Err(e) => {
            return Err(e);
        },
    };
    convert(formatted)
}

fn vec_contains_char(v: &Vec<char>, c: char) -> (r: bool)
    ensures
        r == v@.contains(c),
{
    let mut i: usize = 0;
    while i < v.len()
        invariant
            i <= v@.len(),
            forall|k: int| 0 <= k < i ==> v@[k] != c,
        decreases v@.len() - i,
    {
        if v[i] == c {
            return true;
        }
        i = i + 1;
    }
    false
}

proof fn lemma_alphabet_from_nodup(q: Seq<RegexSymbol>, i: int, acc: Seq<char>)
    requires
        no_dup_chars(acc),
    ensures
        no_dup_chars(spec_alphabet_from(q, i, acc)),
    decreases q.len() - i,
{
    if 0 <= i < q.len() {
        match q[i] {
            RegexSymbol::Char(c) => {
                if acc.contains(c) {
                    lemma_alphabet_from_nodup(q, i + 1, acc);
                } else {
                    assert(no_dup_chars(acc.push(c))) by {
                        assert forall|k1: int, k2: int|
                            0 <= k1 < k2 < acc.push(c).len() implies acc.push(c)[k1] != acc.push(
                            c,
                        )[k2] by {
                            if k2 == acc.len() {
                                if acc.push(c)[k1] == c {
                                    assert(acc[k1] == c);
                                    assert(acc.contains(c));
                                }
                            }
                        }
                    }
                    lemma_alphabet_from_nodup(q, i + 1, acc.push(c));
                }
            },
            _ => {
                lemma_alphabet_from_nodup(q, i + 1, acc);
            },
        }
    }
}

/// The alphabet never repeats a character.
pub proof fn lemma_alphabet_nodup(q: Seq<RegexSymbol>)
    ensures
        no_dup_chars(spec_alphabet(q)),
{
    lemma_alphabet_from_nodup(q, 0, Seq::empty());
}

proof fn lemma_alphabet_from_complete(q: Seq<RegexSymbol>, i: int, acc: Seq<char>, x: char, w: int)
    requires
        0 <= i,
        acc.contains(x) || (i <= w < q.len() && q[w] == RegexSymbol::Char(x)),
    ensures
        spec_alphabet_from(q, i, acc).contains(x),
    decreases q.len() - i,
{
    if i < 0 || i >= q.len() {
        assert(acc.contains(x));
    } else {
        match q[i] {
            RegexSymbol::Char(c) => {
                if acc.contains(c) {
                    if acc.contains(x) || w != i {
                        lemma_alphabet_from_complete(q, i + 1, acc, x, w);
                    } else {
                        assert(c == x);
                        lemma_alphabet_from_complete(q, i + 1, acc, x, w);
                    }
                } else {
                    if acc.contains(x) {
                        let k = choose|k: int| 0 <= k < acc.len() && acc[k] == x;
                        assert(acc.push(c)[k] == x);
                        lemma_alphabet_from_complete(q, i + 1, acc.push(c), x, w);
                    } else if w == i {
                        assert(c == x);
                        assert(acc.push(c)[acc.len() as int] == x);
                        lemma_alphabet_from_complete(q, i + 1, acc.push(c), x, w);
                    } else {
                        lemma_alphabet_from_complete(q, i + 1, acc.push(c), x, w);
                    }
                }
            },
            _ => {
                if !acc.contains(x) {
                    assert(w != i);
                }
                lemma_alphabet_from_complete(q, i + 1, acc, x, w);
            },
        }
    }
}

/// Every literal character of the stream is in the alphabet.
pub proof fn lemma_alphabet_complete(q: Seq<RegexSymbol>, x: char, w: int)
    requires
        0 <= w < q.len(),
        q[w] == RegexSymbol::Char(x),
    ensures
        spec_alphabet(q).contains(x),
{
    lemma_alphabet_from_complete(q, 0, Seq::empty(), x, w);
}

/// The alphabet of a postfix stream: the distinct literal characters in
/// order of first occurrence.
pub fn get_alphabet(postfix_regex: &VecDeque<RegexSymbol>) -> (r: Vec<char>)
    ensures
        r@ == spec_alphabet(postfix_regex@),
{
    let ghost q = postfix_regex@;
    let mut alphabet: Vec<char> = Vec::new();
    let mut i: usize = 0;
    while i < postfix_regex.len()
        invariant
            q == postfix_regex@,
            i <= q.len(),
            spec_alphabet(q) == spec_alphabet_from(q, i as int, alphabet@),
        decreases q.len() - i,
    {
        let sym = *(&postfix_regex[i]);
        match sym {
            RegexSymbol::Char(c) => {
                if !vec_contains_char(&alphabet, c) {
                    alphabet.push(c);
                }
            },
            _ => {},
        }
        i = i + 1;
    }
    alphabet
}

} // verus!
