//! The pattern parser: a two-stack shunting-yard walk over the pattern
//! string, with implicit concatenation, alternation, grouping, character
//! classes and quantifier suffixes. The ghost functions below define the
//! parse exactly, token by token; the executable parser is proved to return
//! precisely what they say.
use vstd::prelude::*;

use crate::types::{models_of, spec_mod_from, Mod, Op, PatternModel, PatternSection};

verus! {

broadcast use {vstd::std_specs::vec::group_vec_axioms, vstd::seq_lib::group_seq_properties};

/// Why a pattern string was rejected.
#[derive(Debug, PartialEq, Eq, Structural, Clone, Copy)]
pub enum SyntaxError {
    /// A character outside the accepted alphabet, or misplaced punctuation.
    UnexpectedChar,
    /// A quantifier or operator with too few operands.
    MissingTerm,
    /// A parenthesis without its partner.
    UnbalancedParen,
    /// A character class opened with `[` and never closed.
    UnterminatedGroup,
    /// A repetition range opened with `{` and never closed.
    UnterminatedRange,
    /// A repetition bound that is empty, not a decimal number, or too large
    /// for the machine.
    InvalidNumber,
    /// A repetition range violating `1 <= max` or `min <= max`.
    InvalidRange,
    /// The expression did not reduce to a single term.
    LeftoverTerm,
}

/// How far a collapse of the operator stack runs.
#[derive(Debug, PartialEq, Eq, Structural, Clone, Copy)]
pub enum CollapseKind {
    /// Stop at anything but a concatenation: collapses pending concatenations
    /// before an alternation sign, so concatenation binds tighter.
    UntilNonAnd,
    /// Stop at the innermost open parenthesis.
    UntilParen,
    /// Collapse everything, at the end of the input.
    UntilEmpty,
}

/// The top of the operator stack, if any.
pub open spec fn ops_top(ops: Seq<Op>) -> Option<Op> {
    if ops.len() == 0 {
        None
    } else {
        Some(ops.last())
    }
}

/// Whether a collapse of the given kind stops at this stack top.
pub open spec fn spec_until(kind: CollapseKind, top: Option<Op>) -> bool {
    match kind {
        CollapseKind::UntilNonAnd => !(top == Some(Op::And)),
        CollapseKind::UntilParen => top == Some(Op::Paren),
        CollapseKind::UntilEmpty => top is None,
    }
}

/// The length of the run of equal operators at the top of the stack.
pub open spec fn spec_top_run(ops: Seq<Op>) -> int
    decreases ops.len(),
{
    if ops.len() == 0 {
        0
    } else if ops.len() >= 2 && ops[ops.len() - 2] == ops.last() {
        1 + spec_top_run(ops.take(ops.len() - 1))
    } else {
        1
    }
}

/// The run at the top is never longer than the stack, and consists of copies
/// of the top operator.
pub proof fn lemma_top_run_bounds(ops: Seq<Op>)
    requires
        ops.len() > 0,
    ensures
        1 <= spec_top_run(ops) <= ops.len(),
    decreases ops.len(),
{
    if ops.len() >= 2 && ops[ops.len() - 2] == ops.last() {
        lemma_top_run_bounds(ops.take(ops.len() - 1));
    }
}

/// One collapse of the operator stack: pops runs of equal operators, folding
/// the operands of each run into one concatenation or alternation node, until
/// the stopping condition holds or the stack is empty. An open parenthesis
/// reached by `UntilNonAnd` or `UntilEmpty` is a syntax error, as is a run
/// with too few operands below it.
pub open spec fn spec_collapse(stack: Seq<PatternModel>, ops: Seq<Op>, kind: CollapseKind) -> Result<
    (Seq<PatternModel>, Seq<Op>),
    SyntaxError,
>
    decreases ops.len(),
    via spec_collapse_decreases
{
    if spec_until(kind, ops_top(ops)) {
        Ok((stack, ops))
    } else if ops.len() == 0 {
        Ok((stack, ops))
    } else {
        let op = ops.last();
        let count = spec_top_run(ops);
        if op == Op::Paren {
            Err(SyntaxError::UnbalancedParen)
        } else if stack.len() < count + 1 {
            Err(SyntaxError::MissingTerm)
        } else {
            let tail = stack.subrange(stack.len() - count - 1, stack.len() as int);
            let collapsed = if op == Op::And {
                PatternModel::And(tail, Mod::One)
            } else {
                PatternModel::Or(tail, Mod::One)
            };
            spec_collapse(
                stack.take(stack.len() - count - 1).push(collapsed),
                ops.take(ops.len() - count),
                kind,
            )
        }
    }
}

#[via_fn]
proof fn spec_collapse_decreases(stack: Seq<PatternModel>, ops: Seq<Op>, kind: CollapseKind) {
    if !spec_until(kind, ops_top(ops)) && ops.len() > 0 {
        lemma_top_run_bounds(ops);
    }
}

/// A quantifier suffix replaces the quantifier of the most recently completed
/// term; with no term it is a syntax error.
pub open spec fn spec_inject_mod(stack: Seq<PatternModel>, m: Mod) -> Result<
    Seq<PatternModel>,
    SyntaxError,
> {
    if stack.len() == 0 {
        Err(SyntaxError::MissingTerm)
    } else {
        let new_top = match stack.last() {
            PatternModel::And(v, _) => PatternModel::And(v, m),
            PatternModel::Or(v, _) => PatternModel::Or(v, m),
            PatternModel::Char(c, _) => PatternModel::Char(c, m),
            PatternModel::CharGroup(v, _, neg) => PatternModel::CharGroup(v, m, neg),
        };
        Ok(stack.update(stack.len() - 1, new_top))
    }
}

/// The first position at or after `from` holding `target`, if any.
pub open spec fn spec_find(cs: Seq<char>, from: int, target: char) -> Option<int>
    decreases cs.len() - from,
{
    if from < 0 || from >= cs.len() {
        None
    } else if cs[from] == target {
        Some(from)
    } else {
        spec_find(cs, from + 1, target)
    }
}

/// A found position lies between `from` and the end, holds the target, and
/// nothing before it does.
pub proof fn lemma_find_props(cs: Seq<char>, from: int, target: char)
    requires
        from >= 0,
    ensures
        match spec_find(cs, from, target) {
            Some(pos) => from <= pos < cs.len() && cs[pos] == target && (forall|k: int|
                from <= k < pos ==> cs[k] != target),
            None => forall|k: int| from <= k < cs.len() ==> cs[k] != target,
        },
    decreases cs.len() - from,
{
    if 0 <= from < cs.len() && cs[from] != target {
        lemma_find_props(cs, from + 1, target);
    }
}

/// Whether every character is a decimal digit.
pub open spec fn all_digits(cs: Seq<char>) -> bool {
    forall|k: int| 0 <= k < cs.len() ==> 48 <= (#[trigger] cs[k]) as u32 <= 57
}

/// The number the digit string denotes.
pub open spec fn dec_value(cs: Seq<char>) -> int
    decreases cs.len(),
{
    if cs.len() == 0 {
        0
    } else {
        dec_value(cs.drop_last()) * 10 + (cs.last() as u32 - 48)
    }
}

/// What parsing a repetition bound yields: the denoted number, unless the
/// string is empty, holds a non-digit, or denotes a number too large for the
/// machine.
pub open spec fn spec_parse_decimal(cs: Seq<char>) -> Option<usize> {
    if cs.len() == 0 || !all_digits(cs) || dec_value(cs) > usize::MAX {
        None
    } else {
        Some(dec_value(cs) as usize)
    }
}

/// A character standing for itself in a pattern: an ASCII letter or digit,
/// or the wildcard.
pub open spec fn spec_is_pattern_char(c: char) -> bool {
    ||| 48 <= c as u32 <= 57
    ||| 65 <= c as u32 <= 90
    ||| 97 <= c as u32 <= 122
    ||| c == '.'
}

/// The parser's running state: the value stack, the operator stack, and
/// whether a completed term directly precedes the cursor (so that the next
/// term implies a concatenation).
pub struct ParseState {
    pub stack: Seq<PatternModel>,
    pub ops: Seq<Op>,
    pub need_and: bool,
}

/// One token of the parse, starting at the character at position `i`:
/// either a new state and the position after the token, or the syntax error.
pub open spec fn spec_step(cs: Seq<char>, i: int, st: ParseState) -> Result<
    (ParseState, int),
    SyntaxError,
> {
    let c = cs[i];
    match spec_mod_from(c) {
        Some(m) => match spec_inject_mod(st.stack, m) {
            Err(e) => Err(e),
            Ok(stk) => Ok(
                (ParseState { stack: stk, ops: st.ops, need_and: st.need_and }, i + 1),
            ),
        },
        None => if c == '|' {
            match spec_collapse(st.stack, st.ops, CollapseKind::UntilNonAnd) {
                Err(e) => Err(e),
                Ok((stk, ops)) => Ok(
                    (ParseState { stack: stk, ops: ops.push(Op::Or), need_and: false }, i + 1),
                ),
            }
        } else if c == '(' {
            let ops1 = if st.need_and {
                st.ops.push(Op::And)
            } else {
                st.ops
            };
            Ok(
                (
                    ParseState { stack: st.stack, ops: ops1.push(Op::Paren), need_and: false },
                    i + 1,
                ),
            )
        } else if c == ')' {
            match spec_collapse(st.stack, st.ops, CollapseKind::UntilParen) {
                Err(e) => Err(e),
                Ok((stk, ops)) => if ops_top(ops) != Some(Op::Paren) {
                    Err(SyntaxError::UnbalancedParen)
                } else {
                    Ok(
                        (
                            ParseState {
                                stack: stk,
                                ops: ops.take(ops.len() - 1),
                                need_and: if i + 1 < cs.len() {
                                    true
                                } else {
                                    st.need_and
                                },
                            },
                            i + 1,
                        ),
                    )
                },
            }
        } else if c == '[' {
            let negated = i + 1 < cs.len() && cs[i + 1] == '^';
            let body = if negated {
                i + 2
            } else {
                i + 1
            };
            match spec_find(cs, body, ']') {
                None => Err(SyntaxError::UnterminatedGroup),
                Some(pos) => {
                    let group = PatternModel::CharGroup(cs.subrange(body, pos), Mod::One, negated);
                    let ops1 = if st.need_and {
                        st.ops.push(Op::And)
                    } else {
                        st.ops
                    };
                    Ok(
                        (
                            ParseState { stack: st.stack.push(group), ops: ops1, need_and: true },
                            pos + 1,
                        ),
                    )
                },
            }
        } else if c == '{' {
            spec_step_range(cs, i, st)
        } else if spec_is_pattern_char(c) {
            let ops1 = if st.need_and {
                st.ops.push(Op::And)
            } else {
                st.ops
            };
            Ok(
                (
                    ParseState {
                        stack: st.stack.push(PatternModel::Char(c, Mod::One)),
                        ops: ops1,
                        need_and: true,
                    },
                    i + 1,
                ),
            )
        } else {
            Err(SyntaxError::UnexpectedChar)
        },
    }
}

/// The token for a `{min,max}` or `{exact}` suffix whose `{` sits at
/// position `i`: scan to the first `,` or `}`, read the bounds, check the
/// quantifier invariant, and replace the quantifier of the completed term
/// before the cursor.
pub open spec fn spec_step_range(cs: Seq<char>, i: int, st: ParseState) -> Result<
    (ParseState, int),
    SyntaxError,
> {
    let pc = spec_find(cs, i + 1, ',');
    let pb = spec_find(cs, i + 1, '}');
    let comma_first = match (pc, pb) {
        (Some(cpos), Some(bpos)) => cpos < bpos,
        (Some(_), None) => true,
        _ => false,
    };
    if comma_first {
        let cpos = pc->Some_0;
        match spec_parse_decimal(cs.subrange(i + 1, cpos)) {
            None => Err(SyntaxError::InvalidNumber),
            Some(mn) => match pb {
                None => Err(SyntaxError::UnterminatedRange),
                Some(bpos) => match spec_parse_decimal(cs.subrange(cpos + 1, bpos)) {
                    None => Err(SyntaxError::InvalidNumber),
                    Some(mx) => spec_range_finish(cs, bpos, st, mn, mx),
                },
            },
        }
    } else {
        match pb {
            None => Err(SyntaxError::UnterminatedRange),
            Some(bpos) => match spec_parse_decimal(cs.subrange(i + 1, bpos)) {
                None => Err(SyntaxError::InvalidNumber),
                Some(mn) => spec_range_finish(cs, bpos, st, mn, mn),
            },
        }
    }
}

/// The bounds are read and the closing brace sits at `bpos`: reject bounds
/// violating the quantifier invariant, then apply the quantifier.
pub open spec fn spec_range_finish(cs: Seq<char>, bpos: int, st: ParseState, mn: usize, mx: usize) -> Result<
    (ParseState, int),
    SyntaxError,
> {
    if mx < 1 || mn > mx {
        Err(SyntaxError::InvalidRange)
    } else {
        match spec_inject_mod(st.stack, Mod::Range(mn, mx)) {
            Err(e) => Err(e),
            Ok(stk) => Ok(
                (ParseState { stack: stk, ops: st.ops, need_and: st.need_and }, bpos + 1),
            ),
        }
    }
}

/// A successful token always moves the cursor forward and never past the end.
pub proof fn lemma_step_advances(cs: Seq<char>, i: int, st: ParseState)
    requires
        0 <= i < cs.len(),
    ensures
        match spec_step(cs, i, st) {
            Ok((_, i2)) => i < i2 <= cs.len(),
            Err(_) => true,
        },
{
    let c = cs[i];
    if spec_mod_from(c) is None && c != '|' && c != '(' && c != ')' {
        if c == '[' {
            let negated = i + 1 < cs.len() && cs[i + 1] == '^';
            let body = if negated {
                i + 2
            } else {
                i + 1
            };
            lemma_find_props(cs, body, ']');
        } else if c == '{' {
            lemma_find_props(cs, i + 1, ',');
            lemma_find_props(cs, i + 1, '}');
        }
    }
}

/// The parse of the characters from position `i` on, starting from state
/// `st`: one token per recursion step. (The cursor check in the recursion is
/// a termination guard; a successful token always moves forward.)
pub open spec fn spec_parse_loop(cs: Seq<char>, i: int, st: ParseState) -> Result<
    ParseState,
    SyntaxError,
>
    decreases cs.len() - i,
{
    if i < 0 || i >= cs.len() {
        Ok(st)
    } else {
        match spec_step(cs, i, st) {
            Err(e) => Err(e),
            Ok((st2, i2)) => if i < i2 <= cs.len() {
                spec_parse_loop(cs, i2, st2)
            } else {
                Ok(st2)
            },
        }
    }
}

/// The parse of a whole pattern string: run the token loop from a clean
/// state, collapse what remains, and demand exactly one term (none at all
/// stands for the empty pattern, which matches only the empty string).
pub open spec fn spec_parse(cs: Seq<char>) -> Result<PatternModel, SyntaxError> {
    let init = ParseState { stack: Seq::empty(), ops: Seq::empty(), need_and: false };
    match spec_parse_loop(cs, 0, init) {
        Err(e) => Err(e),
        Ok(st) => match spec_collapse(st.stack, st.ops, CollapseKind::UntilEmpty) {
            Err(e) => Err(e),
            Ok((stk, _)) => if stk.len() > 1 {
                Err(SyntaxError::LeftoverTerm)
            } else if stk.len() == 0 {
                Ok(PatternModel::And(Seq::empty(), Mod::One))
            } else {
                Ok(stk[0])
            },
        },
    }
}

/// The run at the top of the stack is exactly the maximal block of copies of
/// the top operator.
proof fn lemma_top_run_character(ops: Seq<Op>)
    requires
        ops.len() > 0,
    ensures
        ({
            let r = spec_top_run(ops);
            &&& 1 <= r <= ops.len()
            &&& forall|k: int| ops.len() - r <= k < ops.len() ==> ops[k] == ops.last()
            &&& (r < ops.len() ==> ops[ops.len() - r - 1] != ops.last())
        }),
    decreases ops.len(),
{
    lemma_top_run_bounds(ops);
    if ops.len() >= 2 && ops[ops.len() - 2] == ops.last() {
        let front = ops.take(ops.len() - 1);
        lemma_top_run_character(front);
        assert(front.last() == ops[ops.len() - 2]);
        assert forall|k: int| ops.len() - spec_top_run(ops) <= k < ops.len() implies ops[k]
            == ops.last() by {
            if k < ops.len() - 1 {
                assert(front[k] == ops[k]);
            }
        }
    }
}

/// Pushing a node onto the value stack pushes its ghost tree onto the model.
proof fn lemma_models_push(v0: Seq<PatternSection>, v1: Seq<PatternSection>, x: PatternSection)
    requires
        v1 == v0.push(x),
    ensures
        models_of(v1) == models_of(v0).push(x@),
{
    assert(models_of(v1) =~= models_of(v0).push(x@));
}

/// Pushing a literal-character node onto the value stack pushes the matching
/// ghost node onto the model.
proof fn lemma_models_push_char(c: char, v0: Seq<PatternSection>, v1: Seq<PatternSection>)
    requires
        v1 == v0.push(PatternSection::Char(c, Mod::One)),
    ensures
        models_of(v1) == models_of(v0).push(PatternModel::Char(c, Mod::One)),
{
    assert(PatternSection::Char(c, Mod::One)@ == PatternModel::Char(c, Mod::One));
    lemma_models_push(v0, v1, PatternSection::Char(c, Mod::One));
}

/// The empty struct whose associated functions parse pattern strings.
pub struct Parser;

impl Parser {
    /// Whether a collapse of the given kind stops at the current top of the
    /// operator stack.
    fn until_done(kind: CollapseKind, ops: &Vec<Op>) -> (r: bool)
        ensures
            r == spec_until(kind, ops_top(ops@)),
    {
        let top: Option<Op> = if ops.len() == 0 {
            None
        } else {
            Some(ops[ops.len() - 1])
        };
        match kind {
            CollapseKind::UntilNonAnd => !(top == Some(Op::And)),
            CollapseKind::UntilParen => top == Some(Op::Paren),
            CollapseKind::UntilEmpty => top.is_none(),
        }
    }

    /// Removes the run of equal operators at the top of the stack and returns
    /// the operator with the run's length.
    fn pop_same(ops: &mut Vec<Op>) -> (r: (Option<Op>, usize))
        ensures
            old(ops)@.len() == 0 ==> r == (Option::<Op>::None, 0usize) && final(ops)@ == old(
                ops,
            )@,
            old(ops)@.len() > 0 ==> {
                &&& r.0 == Some(old(ops)@.last())
                &&& r.1 as int == spec_top_run(old(ops)@)
                &&& final(ops)@ == old(ops)@.take(old(ops)@.len() - spec_top_run(old(ops)@))
            },
    {
        if ops.len() == 0 {
            return (None, 0);
        }
        let ghost o0 = ops@;
        let top_op = ops[ops.len() - 1];
        let mut count: usize = 0;
        loop
            invariant
                o0 == old(ops)@,
                1 <= o0.len() <= usize::MAX,
                top_op == o0.last(),
                0 <= count <= o0.len(),
                ops@ =~= o0.take(o0.len() - count),
                forall|k: int| o0.len() - count <= k < o0.len() ==> o0[k] == top_op,
            ensures
                o0 == old(ops)@,
                top_op == o0.last(),
                1 <= count <= o0.len(),
                ops@ =~= o0.take(o0.len() - count),
                forall|k: int| o0.len() - count <= k < o0.len() ==> o0[k] == top_op,
                count == o0.len() || o0[o0.len() - count - 1] != top_op,
            decreases o0.len() - count,
        {
            if ops.len() == 0 {
                break;
            }
            let t = ops[ops.len() - 1];
            proof {
                assert(ops@[ops@.len() - 1] == o0[o0.len() - count - 1]);
            }
            if !(t == top_op) {
                break;
            }
            proof {
                assert(ops@.len() == o0.len() - count);
                assert(count < o0.len());
            }
            ops.pop();
            proof {
                assert(ops@ =~= o0.take(o0.len() - (count + 1)));
            }
            count += 1;
        }
        proof {
            lemma_top_run_character(o0);
            let run = spec_top_run(o0);
            if count < run {
                // The loop stopped early: either the stack emptied, which
                // contradicts the run's length bound, or the next operator
                // differs, which contradicts the run being uniform.
                assert(o0.len() - count > 0);
                assert(o0[o0.len() - count - 1] == o0.last());
                assert(false);
            }
            if count > run {
                assert(run < o0.len());
                assert(o0[o0.len() - run - 1] == top_op);
                assert(false);
            }
            assert(count as int == run);
        }
        (Some(top_op), count)
    }

    /// Collapses runs of pending operators into concatenation or alternation
    /// nodes until the stopping condition of `kind` holds. On an error the
    /// stacks are left in an unspecified state; the parse stops there.
    #[verifier::loop_isolation(false)]
    fn collapse_stacks(stack: &mut Vec<PatternSection>, ops: &mut Vec<Op>, kind: CollapseKind) -> (r:
        Result<(), SyntaxError>)
        ensures
            match spec_collapse(models_of(old(stack)@), old(ops)@, kind) {
                Ok((stk, ops2)) => r is Ok && models_of(final(stack)@) == stk && final(ops)@
                    == ops2,
                Err(e) => r == Err::<(), SyntaxError>(e),
            },
    {
        let ghost goal = spec_collapse(models_of(old(stack)@), old(ops)@, kind);
        loop
            invariant
                spec_collapse(models_of(stack@), ops@, kind) == goal,
            decreases ops@.len(),
        {
            let ghost stack0 = models_of(stack@);
            let ghost ops0 = ops@;
            if Parser::until_done(kind, ops) {
                return Ok(());
            }
            let (op, count) = Parser::pop_same(ops);
            let op = match op {
                None => {
                    return Ok(());
                },
                Some(op) => op,
            };
            proof {
                lemma_top_run_bounds(ops0);
            }
            if op == Op::Paren {
                return Err(SyntaxError::UnbalancedParen);
            }
            if stack.len() <= count {
                return Err(SyntaxError::MissingTerm);
            }
            let at = stack.len() - count - 1;
            let tail = stack.split_off(at);
            let collapsed = if op == Op::And {
                PatternSection::And(tail, Mod::One)
            } else {
                PatternSection::Or(tail, Mod::One)
            };
            stack.push(collapsed);
            proof {
                let keep = stack0.len() - count - 1;
                assert(models_of(stack@).len() == keep + 1);
                assert(collapsed@ == (if op == Op::And {
                    PatternModel::And(stack0.subrange(keep, stack0.len() as int), Mod::One)
                } else {
                    PatternModel::Or(stack0.subrange(keep, stack0.len() as int), Mod::One)
                })) by {
                    assert(models_of(tail@) =~= stack0.subrange(keep, stack0.len() as int));
                    assert(collapsed@ matches PatternModel::And(v, _) ==> v == models_of(tail@));
                    assert(collapsed@ matches PatternModel::Or(v, _) ==> v == models_of(tail@));
                }
                assert(models_of(stack@) =~= stack0.take(keep).push(collapsed@));
            }
        }
    }

    /// Replaces the quantifier of the most recently completed term.
    fn inject_mod(stack: &mut Vec<PatternSection>, m: Mod) -> (r: Result<(), SyntaxError>)
        ensures
            match spec_inject_mod(models_of(old(stack)@), m) {
                Ok(stk) => r is Ok && models_of(final(stack)@) == stk,
                Err(e) => r == Err::<(), SyntaxError>(e) && final(stack)@ == old(stack)@,
            },
    {
        let ghost stack0 = models_of(old(stack)@);
        let top = match stack.pop() {
            None => {
                return Err(SyntaxError::MissingTerm);
            },
            Some(t) => t,
        };
        let new_pattern = match top {
            PatternSection::And(v, _) => PatternSection::And(v, m),
            PatternSection::Or(v, _) => PatternSection::Or(v, m),
            PatternSection::Char(c, _) => PatternSection::Char(c, m),
            PatternSection::CharGroup(v, _, neg) => PatternSection::CharGroup(v, m, neg),
        };
        stack.push(new_pattern);
        proof {
            assert(models_of(stack@) =~= stack0.update(stack0.len() - 1, new_pattern@));
        }
        Ok(())
    }
}

/// The denoted number only grows as digits are appended.
proof fn lemma_dec_value_nonneg(cs: Seq<char>)
    requires
        all_digits(cs),
    ensures
        dec_value(cs) >= 0,
    decreases cs.len(),
{
    if cs.len() > 0 {
        assert(all_digits(cs.drop_last())) by {
            assert(forall|k: int|
                0 <= k < cs.len() - 1 ==> #[trigger] cs.drop_last()[k] == cs[k]);
        }
        lemma_dec_value_nonneg(cs.drop_last());
    }
}

/// The number denoted by a prefix of a digit string never exceeds the number
/// denoted by the whole string.
proof fn lemma_dec_value_mono(cs: Seq<char>, k: int)
    requires
        all_digits(cs),
        0 <= k <= cs.len(),
    ensures
        dec_value(cs.take(k)) <= dec_value(cs),
    decreases cs.len(),
{
    if k < cs.len() {
        assert(all_digits(cs.drop_last())) by {
            assert(forall|m: int|
                0 <= m < cs.len() - 1 ==> #[trigger] cs.drop_last()[m] == cs[m]);
        }
        assert(cs.take(k) =~= cs.drop_last().take(k));
        lemma_dec_value_mono(cs.drop_last(), k);
        lemma_dec_value_nonneg(cs.drop_last());
    } else {
        assert(cs.take(k) =~= cs);
    }
}

/// The number the digit characters in `cs[from..to]` denote, unless the span
/// is empty, holds a non-digit, or denotes a number too large for the
/// machine.
fn parse_decimal(cs: &Vec<char>, from: usize, to: usize) -> (r: Option<usize>)
    requires
        from <= to <= cs@.len(),
    ensures
        r == spec_parse_decimal(cs@.subrange(from as int, to as int)),
{
    let ghost sub = cs@.subrange(from as int, to as int);
    if from == to {
        return None;
    }
    let mut acc: u128 = 0;
    let mut k = from;
    while k < to
        invariant
            from <= k <= to,
            to <= cs@.len(),
            sub == cs@.subrange(from as int, to as int),
            from < to,
            all_digits(sub.take(k - from)),
            acc as int == dec_value(sub.take(k - from)),
            acc <= usize::MAX as u128,
        decreases to - k,
    {
        let u = cs[k] as u32;
        proof {
            assert(sub[k - from] == cs@[k as int]);
        }
        if u < 48 || u > 57 {
            proof {
                assert(!all_digits(sub));
            }
            return None;
        }
        let d = (u - 48) as u128;
        let newacc = acc * 10 + d;
        proof {
            assert(sub.take(k - from + 1).drop_last() =~= sub.take(k - from));
            assert(sub.take(k - from + 1).last() == sub[k - from]);
            assert(all_digits(sub.take(k - from + 1)));
            assert(newacc as int == dec_value(sub.take(k - from + 1)));
        }
        if newacc > usize::MAX as u128 {
            proof {
                if all_digits(sub) {
                    lemma_dec_value_mono(sub, k - from + 1);
                }
            }
            return None;
        }
        acc = newacc;
        k += 1;
    }
    proof {
        assert(sub.take(to - from) =~= sub);
    }
    Some(acc as usize)
}

/// Whether `c` stands for itself in a pattern: an ASCII letter or digit, or
/// the wildcard.
fn is_pattern_char(c: char) -> (r: bool)
    ensures
        r == spec_is_pattern_char(c),
{
    let u = c as u32;
    (48 <= u && u <= 57) || (65 <= u && u <= 90) || (97 <= u && u <= 122) || c == '.'
}


/// Handles one `[...]` or `[^...]` class token starting at position `i`:
/// scans to the closing bracket, pushes the class node, and returns the
/// position after the token.
#[verifier::loop_isolation(false)]
/// The executable token handlers below each perform one token of the parse
/// and leave the stacks, the pending-concatenation flag and the returned
/// cursor exactly as `spec_step` says.
pub open spec fn step_post(
    cs: Seq<char>,
    i: int,
    st0: ParseState,
    stack1: Seq<PatternSection>,
    ops1: Seq<Op>,
    na1: bool,
    r: Result<usize, SyntaxError>,
) -> bool {
    match spec_step(cs, i, st0) {
        Ok((st2, i2)) => r matches Ok(ni) && ni as int == i2 && st2 == (ParseState {
            stack: models_of(stack1),
            ops: ops1,
            need_and: na1,
        }),
        Err(e) => r matches Err(e2) && e2 == e,
    }
}

/// Handles a `?`, `+` or `*` quantifier suffix.
fn step_quantifier(
    cs: &Vec<char>,
    i: usize,
    m: Mod,
    stack: &mut Vec<PatternSection>,
    ops: &Vec<Op>,
    need_and: bool,
) -> (r: Result<usize, SyntaxError>)
    requires
        i < cs@.len() <= usize::MAX,
        spec_mod_from(cs@[i as int]) == Some(m),
    ensures
        step_post(
            cs@,
            i as int,
            ParseState { stack: models_of(old(stack)@), ops: ops@, need_and: need_and },
            final(stack)@,
            ops@,
            need_and,
            r,
        ),
{
    match Parser::inject_mod(stack, m) {
        Err(e) => Err(e),
        Ok(()) => Ok(i + 1),
    }
}

/// Handles an `|` alternation sign: collapses the pending concatenations and
/// pushes the alternation operator.
fn step_alt(
    cs: &Vec<char>,
    i: usize,
    stack: &mut Vec<PatternSection>,
    ops: &mut Vec<Op>,
    need_and: &mut bool,
) -> (r: Result<usize, SyntaxError>)
    requires
        i < cs@.len() <= usize::MAX,
        cs@[i as int] == '|',
    ensures
        step_post(
            cs@,
            i as int,
            ParseState { stack: models_of(old(stack)@), ops: old(ops)@, need_and: *old(need_and) },
            final(stack)@,
            final(ops)@,
            *final(need_and),
            r,
        ),
{
    match Parser::collapse_stacks(stack, ops, CollapseKind::UntilNonAnd) {
        Err(e) => {
            return Err(e);
        },
        Ok(()) => {},
    }
    ops.push(Op::Or);
    *need_and = false;
    Ok(i + 1)
}

/// Handles an opening parenthesis, preceded by a concatenation operator when
/// a term came right before it.
fn step_open(
    cs: &Vec<char>,
    i: usize,
    ops: &mut Vec<Op>,
    need_and: &mut bool,
    Ghost(stack0): Ghost<Seq<PatternSection>>,
) -> (r: Result<usize, SyntaxError>)
    requires
        i < cs@.len() <= usize::MAX,
        cs@[i as int] == '(',
    ensures
        step_post(
            cs@,
            i as int,
            ParseState { stack: models_of(stack0), ops: old(ops)@, need_and: *old(need_and) },
            stack0,
            final(ops)@,
            *final(need_and),
            r,
        ),
{
    if *need_and {
        ops.push(Op::And);
    }
    ops.push(Op::Paren);
    *need_and = false;
    Ok(i + 1)
}

/// Handles a closing parenthesis: collapses back to the matching opening
/// parenthesis and removes it.
fn step_close(
    cs: &Vec<char>,
    i: usize,
    stack: &mut Vec<PatternSection>,
    ops: &mut Vec<Op>,
    need_and: &mut bool,
) -> (r: Result<usize, SyntaxError>)
    requires
        i < cs@.len() <= usize::MAX,
        cs@[i as int] == ')',
    ensures
        step_post(
            cs@,
            i as int,
            ParseState { stack: models_of(old(stack)@), ops: old(ops)@, need_and: *old(need_and) },
            final(stack)@,
            final(ops)@,
            *final(need_and),
            r,
        ),
{
    match Parser::collapse_stacks(stack, ops, CollapseKind::UntilParen) {
        Err(e) => {
            return Err(e);
        },
        Ok(()) => {},
    }
    let ghost ops2 = ops@;
    match ops.pop() {
        None => {
            return Err(SyntaxError::UnbalancedParen);
        },
        Some(t) => {
            if !(t == Op::Paren) {
                return Err(SyntaxError::UnbalancedParen);
            }
        },
    }
    proof {
        assert(ops@ =~= ops2.take(ops2.len() - 1));
    }
    if i + 1 < cs.len() {
        *need_and = true;
    }
    Ok(i + 1)
}

/// Handles one literal character: pushes its node, preceded by a
/// concatenation operator when a term came right before it.
fn step_literal(
    cs: &Vec<char>,
    i: usize,
    stack: &mut Vec<PatternSection>,
    ops: &mut Vec<Op>,
    need_and: &mut bool,
) -> (r: Result<usize, SyntaxError>)
    requires
        i < cs@.len() <= usize::MAX,
        spec_mod_from(cs@[i as int]) is None,
        cs@[i as int] != '|' && cs@[i as int] != '(' && cs@[i as int] != ')' && cs@[i as int]
            != '[' && cs@[i as int] != '{',
        spec_is_pattern_char(cs@[i as int]),
    ensures
        step_post(
            cs@,
            i as int,
            ParseState { stack: models_of(old(stack)@), ops: old(ops)@, need_and: *old(need_and) },
            final(stack)@,
            final(ops)@,
            *final(need_and),
            r,
        ),
{
    let c = cs[i];
    let ghost vec0 = stack@;
    stack.push(PatternSection::Char(c, Mod::One));
    proof {
        lemma_models_push_char(c, vec0, stack@);
    }
    if *need_and {
        ops.push(Op::And);
    }
    *need_and = true;
    Ok(i + 1)
}

/// Handles one `[...]` or `[^...]` class token starting at position `i`:
/// scans to the closing bracket and pushes the class node.
#[verifier::loop_isolation(false)]
fn step_class(
    cs: &Vec<char>,
    i: usize,
    stack: &mut Vec<PatternSection>,
    ops: &mut Vec<Op>,
    need_and: &mut bool,
) -> (r: Result<usize, SyntaxError>)
    requires
        i < cs@.len() <= usize::MAX,
        cs@[i as int] == '[',
    ensures
        step_post(
            cs@,
            i as int,
            ParseState { stack: models_of(old(stack)@), ops: old(ops)@, need_and: *old(need_and) },
            final(stack)@,
            final(ops)@,
            *final(need_and),
            r,
        ),
{
    let negated = i + 1 < cs.len() && cs[i + 1] == '^';
    let body = if negated {
        i + 2
    } else {
        i + 1
    };
    let mut j = body;
    while j < cs.len() && cs[j] != ']'
        invariant
            body <= j <= cs@.len(),
            spec_find(cs@, body as int, ']') == spec_find(cs@, j as int, ']'),
        decreases cs@.len() - j,
    {
        j = j + 1;
    }
    if j >= cs.len() {
        proof {
            assert(spec_find(cs@, body as int, ']') is None);
        }
        return Err(SyntaxError::UnterminatedGroup);
    }
    proof {
        assert(spec_find(cs@, body as int, ']') == Some(j as int));
    }
    let mut group_chars: Vec<char> = Vec::new();
    let mut k = body;
    while k < j
        invariant
            body <= k <= j <= cs@.len(),
            group_chars@ =~= cs@.subrange(body as int, k as int),
        decreases j - k,
    {
        group_chars.push(cs[k]);
        proof {
            assert(group_chars@ =~= cs@.subrange(body as int, k + 1));
        }
        k = k + 1;
    }
    let ghost vec0 = stack@;
    let ghost gchars = group_chars@;
    let node = PatternSection::CharGroup(group_chars, Mod::One, negated);
    proof {
        assert(node@ == PatternModel::CharGroup(gchars, Mod::One, negated));
    }
    stack.push(node);
    proof {
        assert(stack@.last()@ == PatternModel::CharGroup(gchars, Mod::One, negated));
        assert(models_of(stack@) =~= models_of(vec0).push(
            PatternModel::CharGroup(cs@.subrange(body as int, j as int), Mod::One, negated),
        ));
    }
    if *need_and {
        ops.push(Op::And);
    }
    *need_and = true;
    Ok(j + 1)
}

/// Handles one `{m}` or `{m,n}` quantifier token starting at position `i`:
/// scans the bounds, checks them, and rewrites the quantifier of the
/// completed term. The operator stack and the pending-concatenation flag are
/// left alone.
#[verifier::loop_isolation(false)]
fn step_range(
    cs: &Vec<char>,
    i: usize,
    stack: &mut Vec<PatternSection>,
    ops: &Vec<Op>,
    need_and: bool,
) -> (r: Result<usize, SyntaxError>)
    requires
        i < cs@.len() <= usize::MAX,
        cs@[i as int] == '{',
    ensures
        step_post(
            cs@,
            i as int,
            ParseState { stack: models_of(old(stack)@), ops: ops@, need_and: need_and },
            final(stack)@,
            ops@,
            need_and,
            r,
        ),
{
    let mut j = i + 1;
    while j < cs.len() && cs[j] != ',' && cs[j] != '}'
        invariant
            i + 1 <= j <= cs@.len(),
            spec_find(cs@, i + 1, ',') == spec_find(cs@, j as int, ','),
            spec_find(cs@, i + 1, '}') == spec_find(cs@, j as int, '}'),
        decreases cs@.len() - j,
    {
        j = j + 1;
    }
    if j >= cs.len() {
        proof {
            assert(spec_find(cs@, i + 1, ',') is None);
            assert(spec_find(cs@, i + 1, '}') is None);
        }
        return Err(SyntaxError::UnterminatedRange);
    }
    if cs[j] == ',' {
        proof {
            assert(spec_find(cs@, i + 1, ',') == Some(j as int));
            assert(spec_find(cs@, i + 1, '}') == spec_find(cs@, j + 1, '}'));
            lemma_find_props(cs@, j + 1, '}');
        }
        let mn = match parse_decimal(cs, i + 1, j) {
            None => {
                return Err(SyntaxError::InvalidNumber);
            },
            Some(v) => v,
        };
        let mut j2 = j + 1;
        while j2 < cs.len() && cs[j2] != '}'
            invariant
                j + 1 <= j2 <= cs@.len(),
                spec_find(cs@, j + 1, '}') == spec_find(cs@, j2 as int, '}'),
            decreases cs@.len() - j2,
        {
            j2 = j2 + 1;
        }
        if j2 >= cs.len() {
            proof {
                assert(spec_find(cs@, j + 1, '}') is None);
            }
            return Err(SyntaxError::UnterminatedRange);
        }
        proof {
            assert(spec_find(cs@, j + 1, '}') == Some(j2 as int));
        }
        let mx = match parse_decimal(cs, j + 1, j2) {
            None => {
                return Err(SyntaxError::InvalidNumber);
            },
            Some(v) => v,
        };
        if mx < 1 || mn > mx {
            return Err(SyntaxError::InvalidRange);
        }
        match Parser::inject_mod(stack, Mod::Range(mn, mx)) {
            Err(e) => {
                return Err(e);
            },
            Ok(()) => {},
        }
        Ok(j2 + 1)
    } else {
        proof {
            assert(spec_find(cs@, i + 1, '}') == Some(j as int));
            assert(spec_find(cs@, i + 1, ',') == spec_find(cs@, j + 1, ','));
            lemma_find_props(cs@, j + 1, ',');
        }
        let mn = match parse_decimal(cs, i + 1, j) {
            None => {
                return Err(SyntaxError::InvalidNumber);
            },
            Some(v) => v,
        };
        if mn < 1 {
            return Err(SyntaxError::InvalidRange);
        }
        match Parser::inject_mod(stack, Mod::Range(mn, mn)) {
            Err(e) => {
                return Err(e);
            },
            Ok(()) => {},
        }
        Ok(j + 1)
    }
}

impl Parser {
    /// Parses a pattern string into a pattern tree, or reports the syntax
    /// error: one pass over the characters with a value stack and an operator
    /// stack, concatenation implicit between adjacent terms, alternation
    /// binding looser, parentheses grouping, `[...]`/`[^...]` classes and
    /// `?`/`+`/`*`/`{m}`/`{m,n}` quantifier suffixes. The empty pattern
    /// parses to the empty concatenation, which matches only the empty
    /// string.
    #[verifier::loop_isolation(false)]
    pub fn parse(raw: &str) -> (r: Result<PatternSection, SyntaxError>)
        ensures
            match spec_parse(raw@) {
                Ok(p) => r matches Ok(ps) && ps@ == p,
                Err(e) => r matches Err(e2) && e2 == e,
            },
    {
        let cs = crate::types::str_chars(raw);
        let ghost init = ParseState { stack: Seq::empty(), ops: Seq::empty(), need_and: false };
        let ghost goal = spec_parse_loop(raw@, 0, init);
        let mut stack: Vec<PatternSection> = Vec::new();
        let mut ops: Vec<Op> = Vec::new();
        let mut need_and = false;
        let mut i: usize = 0;
        proof {
            assert(models_of(stack@) =~= Seq::<PatternModel>::empty());
        }
        while i < cs.len()
            invariant
                0 <= i <= cs@.len(),
                spec_parse_loop(
                    cs@,
                    i as int,
                    ParseState { stack: models_of(stack@), ops: ops@, need_and },
                ) == goal,
            decreases cs@.len() - i,
        {
            let ghost i0 = i as int;
            let ghost st0 = ParseState { stack: models_of(stack@), ops: ops@, need_and };
            let c = cs[i];
            let res: Result<usize, SyntaxError>;
            if let Some(m) = Mod::from(&c) {
                res = step_quantifier(&cs, i, m, &mut stack, &ops, need_and);
            } else if c == '|' {
                res = step_alt(&cs, i, &mut stack, &mut ops, &mut need_and);
            } else if c == '(' {
                res = step_open(&cs, i, &mut ops, &mut need_and, Ghost(stack@));
            } else if c == ')' {
                res = step_close(&cs, i, &mut stack, &mut ops, &mut need_and);
            } else if c == '[' {
                res = step_class(&cs, i, &mut stack, &mut ops, &mut need_and);
            } else if c == '{' {
                res = step_range(&cs, i, &mut stack, &ops, need_and);
            } else if is_pattern_char(c) {
                res = step_literal(&cs, i, &mut stack, &mut ops, &mut need_and);
            } else {
                res = Err(SyntaxError::UnexpectedChar);
                proof {
                    assert(spec_step(cs@, i0, st0) == Err::<(ParseState, int), SyntaxError>(
                        SyntaxError::UnexpectedChar,
                    ));
                }
            }
            proof {
                lemma_step_advances(cs@, i0, st0);
            }
            match res {
                Err(e) => {
                    return Err(e);
                },
                Ok(ni) => {
                    i = ni;
                },
            }
        }
        match Parser::collapse_stacks(&mut stack, &mut ops, CollapseKind::UntilEmpty) {
            Err(e) => {
                return Err(e);
            },
            Ok(()) => {},
        }
        if stack.len() > 1 {
            return Err(SyntaxError::LeftoverTerm);
        }
        let ghost stk = models_of(stack@);
        match stack.pop() {
            Some(p) => {
                proof {
                    assert(p@ == stk[0]);
                }
                Ok(p)
            },
            None => {
                let empty = PatternSection::And(Vec::new(), Mod::One);
                proof {
                    assert(empty@ matches PatternModel::And(v, m) && v =~= Seq::<
                        PatternModel,
                    >::empty() && m == Mod::One);
                }
                Ok(empty)
            },
        }
    }
}

} // verus!
