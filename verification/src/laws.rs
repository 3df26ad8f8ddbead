//! The laws of the engine: for fixed pattern shapes, what `is_match` accepts
//! is characterized exactly, for every candidate string. Each law is stated
//! against `engine_of`, the ghost image of `Engine::new`, so together with
//! the contracts of `Engine::new` and `Engine::is_match` it pins the
//! observable behaviour down.
use vstd::prelude::*;

use crate::engine::{accepts, is_path, lemma_reaches_step, reaches, step};
use crate::parser::{
    ops_top, spec_collapse, spec_find, spec_parse, spec_parse_loop, spec_step, spec_top_run,
    CollapseKind, ParseState,
};
use crate::types::{
    char_edge, consuming_edge, eps_edge, mod_of, negated_edge, spec_compile, spec_compile_base,
    spec_mod_from, Mod, Op, PatternModel, TransModel,
};

verus! {

broadcast use {vstd::std_specs::vec::group_vec_axioms, vstd::seq_lib::group_seq_properties};

/// The automaton that `Engine::new` builds from a pattern string, when it
/// builds one: the parsed tree lowered from state 0 with numbering hint 1.
pub open spec fn engine_of(cs: Seq<char>) -> Option<(TransModel, int)> {
    match spec_parse(cs) {
        Ok(p) => match spec_compile(p, 0, 1) {
            Ok((t, e)) => Some((t, e)),
            Err(_) => None,
        },
        Err(_) => None,
    }
}

/// A property of (state, offset) pairs that holds at the head of a path and
/// is preserved by every move holds along the whole path.
pub proof fn lemma_path_invariant(
    t: TransModel,
    s: Seq<char>,
    p: Seq<(int, int)>,
    inv: spec_fn((int, int)) -> bool,
)
    requires
        is_path(t, s, p),
        inv(p.first()),
        forall|u: (int, int), v: (int, int)|
            #![trigger inv(u), step(t, s, u, v)]
            inv(u) && step(t, s, u, v) ==> inv(v),
    ensures
        forall|k: int| 0 <= k < p.len() ==> inv(#[trigger] p[k]),
    decreases p.len(),
{
    if p.len() > 1 {
        assert(step(t, s, p[0], p[1]));
        assert(inv(p[1]));
        let q = p.subrange(1, p.len() as int);
        assert(is_path(t, s, q)) by {
            assert(forall|k: int|
                0 <= k < q.len() - 1 ==> #[trigger] q[k] == p[k + 1] && q[k + 1] == p[k + 2]);
        }
        lemma_path_invariant(t, s, q, inv);
        assert forall|k: int| 0 <= k < p.len() implies inv(#[trigger] p[k]) by {
            if k > 0 {
                assert(p[k] == q[k - 1]);
            }
        }
    }
}

/// Whatever holds at the start pair and is preserved by every move holds at
/// the end of every accepting run.
pub proof fn lemma_accepts_invariant(
    t: TransModel,
    finish: int,
    s: Seq<char>,
    inv: spec_fn((int, int)) -> bool,
)
    requires
        accepts(t, finish, s),
        inv((0int, 0int)),
        forall|u: (int, int), v: (int, int)|
            #![trigger inv(u), step(t, s, u, v)]
            inv(u) && step(t, s, u, v) ==> inv(v),
    ensures
        inv((finish, s.len() as int)),
{
    let p = choose|p: Seq<(int, int)>|
        is_path(t, s, p) && p.first() == (0int, 0int) && p.last() == (finish, s.len() as int);
    lemma_path_invariant(t, s, p, inv);
    assert(inv(p[p.len() - 1]));
}

/// One token of the parse of a literal character.
proof fn lemma_step_literal_eval(cs: Seq<char>, i: int, st: ParseState)
    requires
        0 <= i < cs.len(),
        crate::parser::spec_is_pattern_char(cs[i]),
    ensures
        spec_step(cs, i, st) == Ok::<(ParseState, int), crate::parser::SyntaxError>(
            (
                ParseState {
                    stack: st.stack.push(PatternModel::Char(cs[i], Mod::One)),
                    ops: if st.need_and {
                        st.ops.push(Op::And)
                    } else {
                        st.ops
                    },
                    need_and: true,
                },
                i + 1,
            ),
        ),
{
    let c = cs[i];
    assert(c as u32 != 63 && c as u32 != 43 && c as u32 != 42);
    assert(spec_mod_from(c) is None);
    assert(c as u32 != 124 && c as u32 != 40 && c as u32 != 41 && c as u32 != 91 && c as u32
        != 123);
}

/// One recursion step of the token loop.
proof fn lemma_loop_step(cs: Seq<char>, i: int, st: ParseState, st2: ParseState, i2: int)
    requires
        0 <= i < cs.len(),
        spec_step(cs, i, st) == Ok::<(ParseState, int), crate::parser::SyntaxError>((st2, i2)),
        i < i2 <= cs.len(),
    ensures
        spec_parse_loop(cs, i, st) == spec_parse_loop(cs, i2, st2),
{
}

/// The token loop at the end of the input returns its state.
proof fn lemma_loop_end(cs: Seq<char>, st: ParseState)
    ensures
        spec_parse_loop(cs, cs.len() as int, st) == Ok::<
            ParseState,
            crate::parser::SyntaxError,
        >(st),
{
}

/// The parse of the two-branch alternation of single characters `x` and `y`:
/// the pattern `x|y`.
proof fn lemma_parse_alt_chars(cs: Seq<char>, x: char, y: char)
    requires
        cs.len() == 3,
        cs[0] == x,
        cs[2] == y,
        cs[1] == '|',
        crate::parser::spec_is_pattern_char(x),
        crate::parser::spec_is_pattern_char(y),
    ensures
        spec_parse(cs) == Ok::<PatternModel, crate::parser::SyntaxError>(
            PatternModel::Or(
                seq![
                    PatternModel::Char(x, Mod::One),
                    PatternModel::Char(y, Mod::One),
                ],
                Mod::One,
            ),
        ),
{
    let init = ParseState { stack: Seq::empty(), ops: Seq::empty(), need_and: false };
    lemma_step_literal_eval(cs, 0, init);
    let st1 = ParseState {
        stack: init.stack.push(PatternModel::Char(x, Mod::One)),
        ops: init.ops,
        need_and: true,
    };
    lemma_loop_step(cs, 0, init, st1, 1);
    // '|': no concatenation operator is pending, so the collapse returns at
    // once and the alternation operator is pushed.
    assert(spec_collapse(st1.stack, st1.ops, CollapseKind::UntilNonAnd) == Ok::<
        (Seq<PatternModel>, Seq<Op>),
        crate::parser::SyntaxError,
    >((st1.stack, st1.ops)));
    let st2 = ParseState { stack: st1.stack, ops: st1.ops.push(Op::Or), need_and: false };
    assert(spec_step(cs, 1, st1) == Ok::<(ParseState, int), crate::parser::SyntaxError>(
        (st2, 2int),
    ));
    lemma_loop_step(cs, 1, st1, st2, 2);
    lemma_step_literal_eval(cs, 2, st2);
    let st3 = ParseState {
        stack: st2.stack.push(PatternModel::Char(y, Mod::One)),
        ops: st2.ops,
        need_and: true,
    };
    lemma_loop_step(cs, 2, st2, st3, 3);
    lemma_loop_end(cs, st3);
    assert(spec_parse_loop(cs, 0, init) == Ok::<ParseState, crate::parser::SyntaxError>(st3));
    // Final collapse: one alternation operator over two terms.
    assert(spec_top_run(st3.ops) == 1) by {
        assert(st3.ops.len() == 1);
    }
    let folded = PatternModel::Or(st3.stack.subrange(0, 2), Mod::One);
    assert(spec_collapse(st3.stack, st3.ops, CollapseKind::UntilEmpty) == Ok::<
        (Seq<PatternModel>, Seq<Op>),
        crate::parser::SyntaxError,
    >((seq![folded], Seq::empty()))) by {
        assert(st3.stack.len() == 2);
        let stack2 = st3.stack.take(0).push(folded);
        let ops2 = st3.ops.take(0);
        assert(ops2 =~= Seq::<Op>::empty());
        assert(stack2 =~= seq![folded]);
        assert(spec_collapse(stack2, ops2, CollapseKind::UntilEmpty) == Ok::<
            (Seq<PatternModel>, Seq<Op>),
            crate::parser::SyntaxError,
        >((stack2, ops2)));
    }
    assert(st3.stack.subrange(0, 2) =~= seq![
        PatternModel::Char(x, Mod::One),
        PatternModel::Char(y, Mod::One),
    ]);
}

/// The lowering of the two-branch alternation of single characters: branches
/// from state 0 to 1 and to 2, epsilon edges joining both into state 3.
proof fn lemma_compile_alt_chars(x: char, y: char)
    ensures
        spec_compile(
            PatternModel::Or(
                seq![
                    PatternModel::Char(x, Mod::One),
                    PatternModel::Char(y, Mod::One),
                ],
                Mod::One,
            ),
            0,
            1,
        ) == Ok::<(TransModel, int), crate::types::CompileError>(
            (
                TransModel {
                    base: seq![
                        (0int, Option::Some(x), 1int),
                        (0int, Option::Some(y), 2int),
                        (1int, Option::<char>::None, 3int),
                        (2int, Option::<char>::None, 3int),
                    ],
                    negated: Seq::empty(),
                },
                3int,
            ),
        ),
{
    let cx = PatternModel::Char(x, Mod::One);
    let cy = PatternModel::Char(y, Mod::One);
    let list = seq![cx, cy];
    let tx = TransModel { base: seq![(0int, Option::Some(x), 1int)], negated: Seq::empty() };
    let ty = TransModel { base: seq![(0int, Option::Some(y), 2int)], negated: Seq::empty() };
    assert(spec_compile(cx, 0, 1) == Ok::<(TransModel, int), crate::types::CompileError>(
        (tx, 1int),
    )) by {
        assert(TransModel::empty().push_base(0, Option::Some(x), 1).base =~= tx.base);
        assert(TransModel::empty().push_base(0, Option::Some(x), 1).negated =~= tx.negated);
    }
    assert(spec_compile(cy, 0, 2) == Ok::<(TransModel, int), crate::types::CompileError>(
        (ty, 2int),
    )) by {
        assert(TransModel::empty().push_base(0, Option::Some(y), 2).base =~= ty.base);
        assert(TransModel::empty().push_base(0, Option::Some(y), 2).negated =~= ty.negated);
    }
    let acc1 = TransModel::empty().concat(tx);
    let acc2 = acc1.concat(ty);
    assert(list[0] == cx && list[1] == cy);
    let target = TransModel {
        base: seq![
            (0int, Option::Some(x), 1int),
            (0int, Option::Some(y), 2int),
            (1int, Option::<char>::None, 3int),
            (2int, Option::<char>::None, 3int),
        ],
        negated: Seq::empty(),
    };
    let ends1 = Seq::<int>::empty().push(1int);
    let ends2 = ends1.push(2int);
    assert(crate::types::spec_compile_or(list, 0, TransModel::empty(), 0, 0, 1, Seq::empty())
        == crate::types::spec_compile_or(list, 1, acc1, 0, 1, 1, ends1));
    assert(crate::types::spec_compile_or(list, 1, acc1, 0, 1, 1, ends1)
        == crate::types::spec_compile_or(list, 2, acc2, 0, 2, 1, ends2));
    assert(crate::types::spec_compile_or(list, 2, acc2, 0, 2, 1, ends2) == Ok::<
        (TransModel, int),
        crate::types::CompileError,
    >(
        (
            TransModel {
                base: acc2.base + ends2.map_values(|e: int| (e, Option::<char>::None, 3int)),
                negated: acc2.negated,
            },
            3int,
        ),
    ));
    assert(acc2.base + ends2.map_values(|e: int| (e, Option::<char>::None, 3int)) =~= target.base);
    assert(acc2.negated =~= target.negated);
    let node = PatternModel::Or(list, Mod::One);
    assert(spec_compile_base(node, 0, 1) == crate::types::spec_compile_or(
        list,
        0,
        TransModel::empty(),
        0,
        0,
        1,
        Seq::empty(),
    ));
    assert(mod_of(node) == Mod::One);
    assert(TransModel {
        base: acc2.base + ends2.map_values(|e: int| (e, Option::<char>::None, 3int)),
        negated: acc2.negated,
    } == target);
}

/// Alternation is exactly the union of its branches: the engine built from
/// `"a|b"` accepts a string exactly when it is `"a"` or `"b"`.
pub proof fn law_alternation_union(s: Seq<char>)
    ensures
        engine_of("a|b"@) matches Some((t, f)) && (accepts(t, f, s) <==> (s =~= seq!['a'] || s
            =~= seq!['b'])),
{
    reveal_strlit("a|b");
    let cs = "a|b"@;
    lemma_parse_alt_chars(cs, 'a', 'b');
    lemma_compile_alt_chars('a', 'b');
    let t = TransModel {
        base: seq![
            (0int, Option::Some('a'), 1int),
            (0int, Option::Some('b'), 2int),
            (1int, Option::<char>::None, 3int),
            (2int, Option::<char>::None, 3int),
        ],
        negated: Seq::empty(),
    };
    lemma_alt_chars_accepts(t, 'a', 'b', s);
}

/// The two-branch alternation automaton accepts exactly the two one-character
/// strings of its branches.
proof fn lemma_alt_chars_accepts(t: TransModel, x: char, y: char, s: Seq<char>)
    requires
        t == (TransModel {
            base: seq![
                (0int, Option::Some(x), 1int),
                (0int, Option::Some(y), 2int),
                (1int, Option::<char>::None, 3int),
                (2int, Option::<char>::None, 3int),
            ],
            negated: Seq::<(int, Seq<char>, int)>::empty(),
        }),
        x != '.',
        y != '.',
    ensures
        accepts(t, 3, s) <==> (s =~= seq![x] || s =~= seq![y]),
{
    if s =~= seq![x] || s =~= seq![y] {
        let mid: int = if s =~= seq![x] {
            1
        } else {
            2
        };
        let p = seq![(0int, 0int), (mid, 1int), (3int, 1int)];
        assert(t.base[0] == (0int, Option::Some(x), 1int));
        assert(t.base[1] == (0int, Option::Some(y), 2int));
        assert(t.base[2] == (1int, Option::<char>::None, 3int));
        assert(t.base[3] == (2int, Option::<char>::None, 3int));
        assert(char_edge(t, 0, s[0], mid)) by {
            if s =~= seq![x] {
                assert(t.base[0] == (0int, Option::Some(s[0]), mid));
            } else {
                assert(t.base[1] == (0int, Option::Some(s[0]), mid));
            }
        }
        assert(eps_edge(t, mid, 3)) by {
            if mid == 1 {
                assert(t.base[2] == (mid, Option::<char>::None, 3int));
            } else {
                assert(t.base[3] == (mid, Option::<char>::None, 3int));
            }
        }
        assert(step(t, s, p[0], p[1]));
        assert(step(t, s, p[1], p[2]));
        assert(is_path(t, s, p) && p.first() == (0int, 0int) && p.last() == (3int, s.len() as int));
        assert(accepts(t, 3, s));
    }
    if accepts(t, 3, s) {
        let inv = |u: (int, int)|
            u == (0int, 0int) || (s.len() >= 1 && ((u == (1int, 1int) && s[0] == x) || (u == (
                2int,
                1int,
            ) && s[0] == y) || (u == (3int, 1int) && (s[0] == x || s[0] == y))));
        assert forall|u: (int, int), v: (int, int)|
            #![trigger inv(u), step(t, s, u, v)]
            inv(u) && step(t, s, u, v) implies inv(v) by {
            lemma_alt_chars_step(t, x, y, s, u, v);
        }
        lemma_accepts_invariant(t, 3, s, inv);
        assert(inv((3int, s.len() as int)));
        assert(s.len() == 1 && (s[0] == x || s[0] == y));
        if s[0] == x {
            assert(s =~= seq![x]);
        } else {
            assert(s =~= seq![y]);
        }
    }
}

/// Case analysis of single moves in the two-branch alternation automaton.
proof fn lemma_alt_chars_step(t: TransModel, x: char, y: char, s: Seq<char>, u: (int, int), v: (
    int,
    int,
))
    requires
        t == (TransModel {
            base: seq![
                (0int, Option::Some(x), 1int),
                (0int, Option::Some(y), 2int),
                (1int, Option::<char>::None, 3int),
                (2int, Option::<char>::None, 3int),
            ],
            negated: Seq::<(int, Seq<char>, int)>::empty(),
        }),
        x != '.',
        y != '.',
        step(t, s, u, v),
        u == (0int, 0int) || (s.len() >= 1 && ((u == (1int, 1int) && s[0] == x) || (u == (
            2int,
            1int,
        ) && s[0] == y) || (u == (3int, 1int) && (s[0] == x || s[0] == y)))),
    ensures
        u == (0int, 0int) ==> (s.len() >= 1 && ((v == (1int, 1int) && s[0] == x) || (v == (
            2int,
            1int,
        ) && s[0] == y))),
        u != (0int, 0int) ==> (s.len() >= 1 && v == (3int, 1int) && (s[0] == x || s[0] == y)),
{
    assert(t.base[0] == (0int, Option::Some(x), 1int));
    assert(t.base[1] == (0int, Option::Some(y), 2int));
    assert(t.base[2] == (1int, Option::<char>::None, 3int));
    assert(t.base[3] == (2int, Option::<char>::None, 3int));
    if v.1 == u.1 && eps_edge(t, u.0, v.0) {
        let k = choose|k: int|
            0 <= k < t.base.len() && t.base[k] == (u.0, Option::<char>::None, v.0);
        assert(k == 2 || k == 3);
        assert(u.0 == 1 || u.0 == 2);
        assert(v.0 == 3);
    } else {
        assert(0 <= u.1 < s.len() && v.1 == u.1 + 1 && consuming_edge(t, u.0, s[u.1], v.0));
        assert(!negated_edge(t, u.0, s[u.1], v.0));
        if char_edge(t, u.0, s[u.1], v.0) {
            let k = choose|k: int|
                0 <= k < t.base.len() && t.base[k] == (u.0, Option::Some(s[u.1]), v.0);
            assert(k == 0 || k == 1);
            assert(u.0 == 0 && u.1 == 0);
        } else {
            assert(char_edge(t, u.0, '.', v.0));
            let k = choose|k: int|
                0 <= k < t.base.len() && t.base[k] == (u.0, Option::Some('.'), v.0);
            assert(0 <= k < 4);
            assert(false);
        }
    }
}

/// Every character of `s` is the character `c`.
pub open spec fn all_of(s: Seq<char>, c: char) -> bool {
    forall|k: int| 0 <= k < s.len() ==> #[trigger] s[k] == c
}

/// The parse of a single character followed by a quantifier suffix.
proof fn lemma_parse_char_suffix(cs: Seq<char>, x: char, m: Mod)
    requires
        cs.len() == 2,
        crate::parser::spec_is_pattern_char(cs[0]),
        cs[0] == x,
        spec_mod_from(cs[1]) == Some(m),
    ensures
        spec_parse(cs) == Ok::<PatternModel, crate::parser::SyntaxError>(PatternModel::Char(x, m)),
{
    let init = ParseState { stack: Seq::empty(), ops: Seq::empty(), need_and: false };
    lemma_step_literal_eval(cs, 0, init);
    let st1 = ParseState {
        stack: init.stack.push(PatternModel::Char(x, Mod::One)),
        ops: init.ops,
        need_and: true,
    };
    lemma_loop_step(cs, 0, init, st1, 1);
    let st2 = ParseState {
        stack: st1.stack.update(0, PatternModel::Char(x, m)),
        ops: st1.ops,
        need_and: true,
    };
    assert(spec_step(cs, 1, st1) == Ok::<(ParseState, int), crate::parser::SyntaxError>(
        (st2, 2int),
    )) by {
        assert(st1.stack.len() == 1);
        assert(st1.stack.last() == PatternModel::Char(x, Mod::One));
    }
    lemma_loop_step(cs, 1, st1, st2, 2);
    lemma_loop_end(cs, st2);
    assert(spec_collapse(st2.stack, st2.ops, CollapseKind::UntilEmpty) == Ok::<
        (Seq<PatternModel>, Seq<Op>),
        crate::parser::SyntaxError,
    >((st2.stack, st2.ops)));
    assert(st2.stack.len() == 1 && st2.stack[0] == PatternModel::Char(x, m));
}

/// The quantifier-free lowering of a single character: one edge from the
/// entry state to the numbering hint.
proof fn lemma_compile_char(x: char, m: Mod, start: int, next: int)
    ensures
        spec_compile_base(PatternModel::Char(x, m), start, next) == Ok::<
            (TransModel, int),
            crate::types::CompileError,
        >((TransModel { base: seq![(start, Option::Some(x), next)], negated: Seq::empty() }, next)),
{
    assert(TransModel::empty().push_base(start, Option::Some(x), next).base =~= seq![
        (start, Option::Some(x), next),
    ]);
    assert(TransModel::empty().push_base(start, Option::Some(x), next).negated =~= Seq::<
        (int, Seq<char>, int),
    >::empty());
}

/// The optional-character automaton accepts exactly the empty string and the
/// one-character string.
proof fn lemma_opt_accepts(t: TransModel, x: char, s: Seq<char>)
    requires
        t == (TransModel {
            base: seq![(0int, Option::Some(x), 1int), (0int, Option::<char>::None, 1int)],
            negated: Seq::<(int, Seq<char>, int)>::empty(),
        }),
        x != '.',
    ensures
        accepts(t, 1, s) <==> (s.len() == 0 || s =~= seq![x]),
{
    assert(t.base[0] == (0int, Option::Some(x), 1int));
    assert(t.base[1] == (0int, Option::<char>::None, 1int));
    if s.len() == 0 {
        let p = seq![(0int, 0int), (1int, 0int)];
        assert(eps_edge(t, 0, 1));
        assert(step(t, s, p[0], p[1]));
        assert(is_path(t, s, p) && p.first() == (0int, 0int) && p.last() == (1int, 0int));
        assert(accepts(t, 1, s));
    } else if s =~= seq![x] {
        let p = seq![(0int, 0int), (1int, 1int)];
        assert(char_edge(t, 0, s[0], 1)) by {
            assert(t.base[0] == (0int, Option::Some(s[0]), 1int));
        }
        assert(step(t, s, p[0], p[1]));
        assert(is_path(t, s, p) && p.first() == (0int, 0int) && p.last() == (1int, 1int));
        assert(accepts(t, 1, s));
    }
    if accepts(t, 1, s) {
        let inv = |u: (int, int)|
            u == (0int, 0int) || (u == (1int, 0int)) || (s.len() >= 1 && u == (1int, 1int) && s[0]
                == x);
        assert forall|u: (int, int), v: (int, int)|
            #![trigger inv(u), step(t, s, u, v)]
            inv(u) && step(t, s, u, v) implies inv(v) by {
            if v.1 == u.1 && eps_edge(t, u.0, v.0) {
                let k = choose|k: int|
                    0 <= k < t.base.len() && t.base[k] == (u.0, Option::<char>::None, v.0);
                assert(k == 0 || k == 1);
                assert(u.0 == 0 && v.0 == 1);
            } else {
                assert(0 <= u.1 < s.len() && v.1 == u.1 + 1 && consuming_edge(t, u.0, s[u.1], v.0));
                assert(!negated_edge(t, u.0, s[u.1], v.0));
                if char_edge(t, u.0, s[u.1], v.0) {
                    let k = choose|k: int|
                        0 <= k < t.base.len() && t.base[k] == (u.0, Option::Some(s[u.1]), v.0);
                    assert(k == 0 || k == 1);
                    assert(u == (0int, 0int) && v == (1int, 1int) && s[0] == x);
                } else {
                    assert(char_edge(t, u.0, '.', v.0));
                    let k = choose|k: int|
                        0 <= k < t.base.len() && t.base[k] == (u.0, Option::Some('.'), v.0);
                    assert(k == 0 || k == 1);
                    assert(false);
                }
            }
        }
        lemma_accepts_invariant(t, 1, s, inv);
        assert(inv((1int, s.len() as int)));
        if s.len() != 0 {
            assert(s.len() == 1 && s[0] == x);
            assert(s =~= seq![x]);
        }
    }
}

/// `ZeroOrOne` matches exactly the empty string or one repetition: the engine
/// built from `"a?"` accepts only `""` and `"a"`.
pub proof fn law_zero_or_one(s: Seq<char>)
    ensures
        engine_of("a?"@) matches Some((t, f)) && (accepts(t, f, s) <==> (s.len() == 0 || s
            =~= seq!['a'])),
{
    reveal_strlit("a?");
    let cs = "a?"@;
    lemma_parse_char_suffix(cs, 'a', Mod::ZeroOrOne);
    lemma_compile_char('a', Mod::ZeroOrOne, 0, 1);
    let t0 = TransModel { base: seq![(0int, Option::Some('a'), 1int)], negated: Seq::empty() };
    let t = TransModel {
        base: seq![(0int, Option::Some('a'), 1int), (0int, Option::<char>::None, 1int)],
        negated: Seq::<(int, Seq<char>, int)>::empty(),
    };
    assert(t0.push_base(0, Option::<char>::None, 1).base =~= t.base);
    assert(t0.push_base(0, Option::<char>::None, 1).negated =~= t.negated);
    assert(spec_compile(PatternModel::Char('a', Mod::ZeroOrOne), 0, 1) == Ok::<
        (TransModel, int),
        crate::types::CompileError,
    >((t, 1int)));
    lemma_opt_accepts(t, 'a', s);
}

/// In the loop automaton of a starred character, every all-`x` prefix count
/// is reachable at state 0.
proof fn lemma_star_reaches(t: TransModel, x: char, s: Seq<char>, i: int)
    requires
        t == (TransModel {
            base: seq![
                (0int, Option::Some(x), 1int),
                (1int, Option::<char>::None, 0int),
                (0int, Option::<char>::None, 2int),
            ],
            negated: Seq::<(int, Seq<char>, int)>::empty(),
        }),
        0 <= i <= s.len(),
        all_of(s.take(i), x),
    ensures
        reaches(t, s, (0int, 0int), (0int, i)),
    decreases i,
{
    if i == 0 {
        crate::engine::lemma_reaches_self(t, s, (0int, 0int));
    } else {
        assert(all_of(s.take(i - 1), x)) by {
            assert(forall|k: int| 0 <= k < i - 1 ==> s.take(i - 1)[k] == #[trigger] s.take(i)[k]);
        }
        lemma_star_reaches(t, x, s, i - 1);
        assert(s[i - 1] == s.take(i)[i - 1]);
        assert(char_edge(t, 0, s[i - 1], 1)) by {
            assert(t.base[0] == (0int, Option::Some(s[i - 1]), 1int));
        }
        assert(step(t, s, (0int, i - 1), (1int, i)));
        lemma_reaches_step(t, s, (0int, 0int), (0int, i - 1), (1int, i));
        assert(eps_edge(t, 1, 0)) by {
            assert(t.base[1] == (1int, Option::<char>::None, 0int));
        }
        assert(step(t, s, (1int, i), (0int, i)));
        lemma_reaches_step(t, s, (0int, 0int), (1int, i), (0int, i));
    }
}

/// The starred-character automaton accepts exactly the strings made of that
/// character alone, the empty string included.
proof fn lemma_star_accepts(t: TransModel, x: char, s: Seq<char>)
    requires
        t == (TransModel {
            base: seq![
                (0int, Option::Some(x), 1int),
                (1int, Option::<char>::None, 0int),
                (0int, Option::<char>::None, 2int),
            ],
            negated: Seq::<(int, Seq<char>, int)>::empty(),
        }),
        x != '.',
    ensures
        accepts(t, 2, s) <==> all_of(s, x),
{
    assert(t.base[0] == (0int, Option::Some(x), 1int));
    assert(t.base[1] == (1int, Option::<char>::None, 0int));
    assert(t.base[2] == (0int, Option::<char>::None, 2int));
    if all_of(s, x) {
        assert(all_of(s.take(s.len() as int), x)) by {
            assert(s.take(s.len() as int) =~= s);
        }
        lemma_star_reaches(t, x, s, s.len() as int);
        assert(eps_edge(t, 0, 2)) by {
            assert(t.base[2] == (0int, Option::<char>::None, 2int));
        }
        assert(step(t, s, (0int, s.len() as int), (2int, s.len() as int)));
        lemma_reaches_step(
            t,
            s,
            (0int, 0int),
            (0int, s.len() as int),
            (2int, s.len() as int),
        );
        assert(accepts(t, 2, s));
    }
    if accepts(t, 2, s) {
        let inv = |u: (int, int)|
            0 <= u.1 <= s.len() && all_of(s.take(u.1), x) && (u.0 == 0 || u.0 == 2 || (u.0 == 1
                && u.1 >= 1));
        assert(inv((0int, 0int))) by {
            assert(s.take(0) =~= Seq::<char>::empty());
        }
        assert forall|u: (int, int), v: (int, int)|
            #![trigger inv(u), step(t, s, u, v)]
            inv(u) && step(t, s, u, v) implies inv(v) by {
            if v.1 == u.1 && eps_edge(t, u.0, v.0) {
                let k = choose|k: int|
                    0 <= k < t.base.len() && t.base[k] == (u.0, Option::<char>::None, v.0);
                assert(k == 1 || k == 2);
            } else {
                assert(0 <= u.1 < s.len() && v.1 == u.1 + 1 && consuming_edge(t, u.0, s[u.1], v.0));
                assert(!negated_edge(t, u.0, s[u.1], v.0));
                if char_edge(t, u.0, s[u.1], v.0) {
                    let k = choose|k: int|
                        0 <= k < t.base.len() && t.base[k] == (u.0, Option::Some(s[u.1]), v.0);
                    assert(k == 0);
                    assert(s[u.1] == x);
                    assert(all_of(s.take(v.1), x)) by {
                        assert(forall|m: int|
                            0 <= m < u.1 ==> #[trigger] s.take(v.1)[m] == s.take(u.1)[m]);
                        assert(s.take(v.1)[u.1] == s[u.1]);
                    }
                } else {
                    assert(char_edge(t, u.0, '.', v.0));
                    let k = choose|k: int|
                        0 <= k < t.base.len() && t.base[k] == (u.0, Option::Some('.'), v.0);
                    assert(0 <= k < 3);
                    assert(false);
                }
            }
        }
        lemma_accepts_invariant(t, 2, s, inv);
        assert(inv((2int, s.len() as int)));
        assert(s.take(s.len() as int) =~= s);
    }
}

/// `ZeroOrMore` accepts every repetition count including zero: the engine
/// built from `"a*"` accepts exactly the strings of `a`s, the empty string
/// included.
pub proof fn law_zero_or_more(s: Seq<char>)
    ensures
        engine_of("a*"@) matches Some((t, f)) && (accepts(t, f, s) <==> all_of(s, 'a')),
{
    reveal_strlit("a*");
    let cs = "a*"@;
    lemma_parse_char_suffix(cs, 'a', Mod::Any);
    lemma_compile_char('a', Mod::Any, 0, 1);
    let t0 = TransModel { base: seq![(0int, Option::Some('a'), 1int)], negated: Seq::empty() };
    let t = TransModel {
        base: seq![
            (0int, Option::Some('a'), 1int),
            (1int, Option::<char>::None, 0int),
            (0int, Option::<char>::None, 2int),
        ],
        negated: Seq::<(int, Seq<char>, int)>::empty(),
    };
    assert(t0.push_base(1, Option::<char>::None, 0).push_base(0, Option::<char>::None, 2).base
        =~= t.base);
    assert(t0.push_base(1, Option::<char>::None, 0).push_base(0, Option::<char>::None, 2).negated
        =~= t.negated);
    assert(spec_compile(PatternModel::Char('a', Mod::Any), 0, 1) == Ok::<
        (TransModel, int),
        crate::types::CompileError,
    >((t, 2int)));
    lemma_star_accepts(t, 'a', s);
}

/// In the loop automaton of a one-or-more character, every all-`x` prefix
/// count of at least one is reachable at state 1.
proof fn lemma_plus_reaches(t: TransModel, x: char, s: Seq<char>, i: int)
    requires
        t == (TransModel {
            base: seq![(0int, Option::Some(x), 1int), (1int, Option::<char>::None, 0int)],
            negated: Seq::<(int, Seq<char>, int)>::empty(),
        }),
        1 <= i <= s.len(),
        all_of(s.take(i), x),
    ensures
        reaches(t, s, (0int, 0int), (1int, i)),
    decreases i,
{
    assert(t.base[0] == (0int, Option::Some(x), 1int));
    assert(t.base[1] == (1int, Option::<char>::None, 0int));
    assert(s[i - 1] == s.take(i)[i - 1]);
    assert(char_edge(t, 0, s[i - 1], 1)) by {
        assert(t.base[0] == (0int, Option::Some(s[i - 1]), 1int));
    }
    if i == 1 {
        crate::engine::lemma_reaches_self(t, s, (0int, 0int));
        assert(step(t, s, (0int, 0int), (1int, 1int)));
        lemma_reaches_step(t, s, (0int, 0int), (0int, 0int), (1int, 1int));
    } else {
        assert(all_of(s.take(i - 1), x)) by {
            assert(forall|k: int| 0 <= k < i - 1 ==> s.take(i - 1)[k] == #[trigger] s.take(i)[k]);
        }
        lemma_plus_reaches(t, x, s, i - 1);
        assert(eps_edge(t, 1, 0));
        assert(step(t, s, (1int, i - 1), (0int, i - 1)));
        lemma_reaches_step(t, s, (0int, 0int), (1int, i - 1), (0int, i - 1));
        assert(step(t, s, (0int, i - 1), (1int, i)));
        lemma_reaches_step(t, s, (0int, 0int), (0int, i - 1), (1int, i));
    }
}

/// The one-or-more automaton accepts exactly the non-empty strings of its
/// character.
proof fn lemma_plus_accepts(t: TransModel, x: char, s: Seq<char>)
    requires
        t == (TransModel {
            base: seq![(0int, Option::Some(x), 1int), (1int, Option::<char>::None, 0int)],
            negated: Seq::<(int, Seq<char>, int)>::empty(),
        }),
        x != '.',
    ensures
        accepts(t, 1, s) <==> (s.len() >= 1 && all_of(s, x)),
{
    assert(t.base[0] == (0int, Option::Some(x), 1int));
    assert(t.base[1] == (1int, Option::<char>::None, 0int));
    if s.len() >= 1 && all_of(s, x) {
        assert(all_of(s.take(s.len() as int), x)) by {
            assert(s.take(s.len() as int) =~= s);
        }
        lemma_plus_reaches(t, x, s, s.len() as int);
        assert(accepts(t, 1, s));
    }
    if accepts(t, 1, s) {
        let inv = |u: (int, int)|
            0 <= u.1 <= s.len() && all_of(s.take(u.1), x) && (u.0 == 0 || (u.0 == 1 && u.1 >= 1));
        assert(inv((0int, 0int))) by {
            assert(s.take(0) =~= Seq::<char>::empty());
        }
        assert forall|u: (int, int), v: (int, int)|
            #![trigger inv(u), step(t, s, u, v)]
            inv(u) && step(t, s, u, v) implies inv(v) by {
            if v.1 == u.1 && eps_edge(t, u.0, v.0) {
                let k = choose|k: int|
                    0 <= k < t.base.len() && t.base[k] == (u.0, Option::<char>::None, v.0);
                assert(k == 1);
            } else {
                assert(0 <= u.1 < s.len() && v.1 == u.1 + 1 && consuming_edge(t, u.0, s[u.1], v.0));
                assert(!negated_edge(t, u.0, s[u.1], v.0));
                if char_edge(t, u.0, s[u.1], v.0) {
                    let k = choose|k: int|
                        0 <= k < t.base.len() && t.base[k] == (u.0, Option::Some(s[u.1]), v.0);
                    assert(k == 0);
                    assert(s[u.1] == x);
                    assert(all_of(s.take(v.1), x)) by {
                        assert(forall|m: int|
                            0 <= m < u.1 ==> #[trigger] s.take(v.1)[m] == s.take(u.1)[m]);
                        assert(s.take(v.1)[u.1] == s[u.1]);
                    }
                } else {
                    assert(char_edge(t, u.0, '.', v.0));
                    let k = choose|k: int|
                        0 <= k < t.base.len() && t.base[k] == (u.0, Option::Some('.'), v.0);
                    assert(0 <= k < 2);
                    assert(false);
                }
            }
        }
        lemma_accepts_invariant(t, 1, s, inv);
        assert(inv((1int, s.len() as int)));
        assert(s.take(s.len() as int) =~= s);
    }
}

/// `OneOrMore` is `ZeroOrMore` without the empty case: the engine built from
/// `"a+"` accepts exactly the non-empty strings of `a`s.
pub proof fn law_one_or_more(s: Seq<char>)
    ensures
        engine_of("a+"@) matches Some((t, f)) && (accepts(t, f, s) <==> (s.len() >= 1 && all_of(
            s,
            'a',
        ))),
{
    reveal_strlit("a+");
    let cs = "a+"@;
    lemma_parse_char_suffix(cs, 'a', Mod::OneOrMore);
    lemma_compile_char('a', Mod::OneOrMore, 0, 1);
    let t0 = TransModel { base: seq![(0int, Option::Some('a'), 1int)], negated: Seq::empty() };
    let t = TransModel {
        base: seq![(0int, Option::Some('a'), 1int), (1int, Option::<char>::None, 0int)],
        negated: Seq::<(int, Seq<char>, int)>::empty(),
    };
    assert(t0.push_base(1, Option::<char>::None, 0).base =~= t.base);
    assert(t0.push_base(1, Option::<char>::None, 0).negated =~= t.negated);
    assert(spec_compile(PatternModel::Char('a', Mod::OneOrMore), 0, 1) == Ok::<
        (TransModel, int),
        crate::types::CompileError,
    >((t, 1int)));
    lemma_plus_accepts(t, 'a', s);
}

/// The parse of a two-member character class `[xy]` or its negation `[^xy]`.
proof fn lemma_parse_class2(cs: Seq<char>, x: char, y: char, negated: bool)
    requires
        negated ==> cs =~= seq!['[', '^', x, y, ']'],
        !negated ==> cs =~= seq!['[', x, y, ']'],
        x != '^',
        x != ']',
        y != ']',
    ensures
        spec_parse(cs) == Ok::<PatternModel, crate::parser::SyntaxError>(
            PatternModel::CharGroup(seq![x, y], Mod::One, negated),
        ),
{
    let init = ParseState { stack: Seq::empty(), ops: Seq::empty(), need_and: false };
    let body: int = if negated {
        2
    } else {
        1
    };
    let close: int = if negated {
        4
    } else {
        3
    };
    assert(cs[0] == '[');
    assert(spec_mod_from('[') is None);
    assert(spec_find(cs, body, ']') == Some(close)) by {
        assert(cs[body] == x && cs[body + 1] == y && cs[close] == ']');
        assert(spec_find(cs, close, ']') == Some(close));
        assert(spec_find(cs, body + 1, ']') == Some(close));
    }
    let group = PatternModel::CharGroup(cs.subrange(body, close), Mod::One, negated);
    let st1 = ParseState { stack: init.stack.push(group), ops: init.ops, need_and: true };
    assert(spec_step(cs, 0, init) == Ok::<(ParseState, int), crate::parser::SyntaxError>(
        (st1, close + 1),
    )) by {
        assert((0 + 1 < cs.len() && cs[1int] == '^') == negated);
    }
    lemma_loop_step(cs, 0, init, st1, close + 1);
    lemma_loop_end(cs, st1);
    assert(spec_collapse(st1.stack, st1.ops, CollapseKind::UntilEmpty) == Ok::<
        (Seq<PatternModel>, Seq<Op>),
        crate::parser::SyntaxError,
    >((st1.stack, st1.ops)));
    assert(st1.stack.len() == 1);
    assert(cs.subrange(body, close) =~= seq![x, y]);
    assert(st1.stack[0] == PatternModel::CharGroup(seq![x, y], Mod::One, negated));
}

/// The two-member class automaton accepts exactly the two one-character
/// strings of its members.
proof fn lemma_class2_accepts(t: TransModel, x: char, y: char, s: Seq<char>)
    requires
        t == (TransModel {
            base: seq![(0int, Option::Some(x), 1int), (0int, Option::Some(y), 1int)],
            negated: Seq::<(int, Seq<char>, int)>::empty(),
        }),
        x != '.',
        y != '.',
    ensures
        accepts(t, 1, s) <==> (s =~= seq![x] || s =~= seq![y]),
{
    assert(t.base[0] == (0int, Option::Some(x), 1int));
    assert(t.base[1] == (0int, Option::Some(y), 1int));
    if s =~= seq![x] || s =~= seq![y] {
        let p = seq![(0int, 0int), (1int, 1int)];
        assert(char_edge(t, 0, s[0], 1)) by {
            if s =~= seq![x] {
                assert(t.base[0] == (0int, Option::Some(s[0]), 1int));
            } else {
                assert(t.base[1] == (0int, Option::Some(s[0]), 1int));
            }
        }
        assert(step(t, s, p[0], p[1]));
        assert(is_path(t, s, p) && p.first() == (0int, 0int) && p.last() == (1int, 1int));
        assert(accepts(t, 1, s));
    }
    if accepts(t, 1, s) {
        let inv = |u: (int, int)|
            u == (0int, 0int) || (s.len() >= 1 && u == (1int, 1int) && (s[0] == x || s[0] == y));
        assert forall|u: (int, int), v: (int, int)|
            #![trigger inv(u), step(t, s, u, v)]
            inv(u) && step(t, s, u, v) implies inv(v) by {
            if v.1 == u.1 && eps_edge(t, u.0, v.0) {
                let k = choose|k: int|
                    0 <= k < t.base.len() && t.base[k] == (u.0, Option::<char>::None, v.0);
                assert(0 <= k < 2);
                assert(false);
            } else {
                assert(0 <= u.1 < s.len() && v.1 == u.1 + 1 && consuming_edge(t, u.0, s[u.1], v.0));
                assert(!negated_edge(t, u.0, s[u.1], v.0));
                if char_edge(t, u.0, s[u.1], v.0) {
                    let k = choose|k: int|
                        0 <= k < t.base.len() && t.base[k] == (u.0, Option::Some(s[u.1]), v.0);
                    assert(k == 0 || k == 1);
                } else {
                    assert(char_edge(t, u.0, '.', v.0));
                    let k = choose|k: int|
                        0 <= k < t.base.len() && t.base[k] == (u.0, Option::Some('.'), v.0);
                    assert(0 <= k < 2);
                    assert(false);
                }
            }
        }
        lemma_accepts_invariant(t, 1, s, inv);
        assert(inv((1int, s.len() as int)));
        if s[0] == x {
            assert(s =~= seq![x]);
        } else {
            assert(s =~= seq![y]);
        }
    }
}

/// The negated two-member class automaton accepts exactly the one-character
/// strings whose character is neither member.
proof fn lemma_neg_class2_accepts(t: TransModel, x: char, y: char, s: Seq<char>)
    requires
        t == (TransModel {
            base: Seq::<(int, Option<char>, int)>::empty(),
            negated: seq![(0int, seq![x, y], 1int)],
        }),
    ensures
        accepts(t, 1, s) <==> (s.len() == 1 && s[0] != x && s[0] != y),
{
    assert(t.negated[0] == (0int, seq![x, y], 1int));
    if s.len() == 1 && s[0] != x && s[0] != y {
        let p = seq![(0int, 0int), (1int, 1int)];
        assert(!seq![x, y].contains(s[0])) by {
            let xy = seq![x, y];
            assert(forall|k: int| 0 <= k < 2 ==> #[trigger] xy[k] != s[0]);
        }
        assert(negated_edge(t, 0, s[0], 1)) by {
            assert((#[trigger] t.negated[0]).0 == 0 && t.negated[0].2 == 1
                && !t.negated[0].1.contains(s[0]));
        }
        assert(step(t, s, p[0], p[1]));
        assert(is_path(t, s, p) && p.first() == (0int, 0int) && p.last() == (1int, 1int));
        assert(accepts(t, 1, s));
    }
    if accepts(t, 1, s) {
        let inv = |u: (int, int)|
            u == (0int, 0int) || (s.len() >= 1 && u == (1int, 1int) && s[0] != x && s[0] != y);
        assert forall|u: (int, int), v: (int, int)|
            #![trigger inv(u), step(t, s, u, v)]
            inv(u) && step(t, s, u, v) implies inv(v) by {
            if v.1 == u.1 && eps_edge(t, u.0, v.0) {
                assert(false);
            } else {
                assert(0 <= u.1 < s.len() && v.1 == u.1 + 1 && consuming_edge(t, u.0, s[u.1], v.0));
                assert(!char_edge(t, u.0, s[u.1], v.0));
                assert(!char_edge(t, u.0, '.', v.0));
                assert(negated_edge(t, u.0, s[u.1], v.0));
                let k = choose|k: int|
                    0 <= k < t.negated.len() && (#[trigger] t.negated[k]).0 == u.0
                        && t.negated[k].2 == v.0 && !t.negated[k].1.contains(s[u.1]);
                assert(k == 0);
                assert(seq![x, y][0] == x && seq![x, y][1] == y);
                assert(s[u.1] != x && s[u.1] != y);
            }
        }
        lemma_accepts_invariant(t, 1, s, inv);
        assert(inv((1int, s.len() as int)));
    }
}

/// Character classes enumerate or exclude: the engine built from `"[cd]"`
/// accepts exactly `"c"` and `"d"`, and the one built from `"[^bc]"` accepts
/// exactly the one-character strings other than `"b"` and `"c"`.
pub proof fn law_char_classes(s: Seq<char>)
    ensures
        engine_of("[cd]"@) matches Some((t, f)) && (accepts(t, f, s) <==> (s =~= seq!['c'] || s
            =~= seq!['d'])),
        engine_of("[^bc]"@) matches Some((t, f)) && (accepts(t, f, s) <==> (s.len() == 1 && s[0]
            != 'b' && s[0] != 'c')),
{
    reveal_strlit("[cd]");
    reveal_strlit("[^bc]");
    let cs1 = "[cd]"@;
    assert(cs1 =~= seq!['[', 'c', 'd', ']']);
    lemma_parse_class2(cs1, 'c', 'd', false);
    let tree1 = PatternModel::CharGroup(seq!['c', 'd'], Mod::One, false);
    let t1 = TransModel {
        base: seq![(0int, Option::Some('c'), 1int), (0int, Option::Some('d'), 1int)],
        negated: Seq::<(int, Seq<char>, int)>::empty(),
    };
    assert(spec_compile(tree1, 0, 1) == Ok::<(TransModel, int), crate::types::CompileError>(
        (t1, 1int),
    )) by {
        assert(seq!['c', 'd'].map_values(|c: char| (0int, Option::Some(c), 1int)) =~= t1.base);
        assert(mod_of(tree1) == Mod::One);
    }
    lemma_class2_accepts(t1, 'c', 'd', s);
    let cs2 = "[^bc]"@;
    assert(cs2 =~= seq!['[', '^', 'b', 'c', ']']);
    lemma_parse_class2(cs2, 'b', 'c', true);
    let tree2 = PatternModel::CharGroup(seq!['b', 'c'], Mod::One, true);
    let t2 = TransModel {
        base: Seq::<(int, Option<char>, int)>::empty(),
        negated: seq![(0int, seq!['b', 'c'], 1int)],
    };
    assert(spec_compile(tree2, 0, 1) == Ok::<(TransModel, int), crate::types::CompileError>(
        (t2, 1int),
    )) by {
        assert(TransModel::empty().push_negated(0, seq!['b', 'c'], 1).base =~= t2.base);
        assert(TransModel::empty().push_negated(0, seq!['b', 'c'], 1).negated =~= t2.negated);
        assert(mod_of(tree2) == Mod::One);
    }
    lemma_neg_class2_accepts(t2, 'b', 'c', s);
}

/// The parse of a single character with a `{mn,mx}` repetition suffix, for
/// one-digit bounds.
proof fn lemma_parse_char_range(cs: Seq<char>, x: char, dmn: char, dmx: char, mn: usize, mx: usize)
    requires
        cs =~= seq![x, '{', dmn, ',', dmx, '}'],
        crate::parser::spec_is_pattern_char(x),
        48 <= dmn as u32 <= 57,
        48 <= dmx as u32 <= 57,
        mn == dmn as u32 - 48,
        mx == dmx as u32 - 48,
        1 <= mx,
        mn <= mx,
    ensures
        spec_parse(cs) == Ok::<PatternModel, crate::parser::SyntaxError>(
            PatternModel::Char(x, Mod::Range(mn, mx)),
        ),
{
    let init = ParseState { stack: Seq::empty(), ops: Seq::empty(), need_and: false };
    lemma_step_literal_eval(cs, 0, init);
    let st1 = ParseState {
        stack: init.stack.push(PatternModel::Char(x, Mod::One)),
        ops: init.ops,
        need_and: true,
    };
    lemma_loop_step(cs, 0, init, st1, 1);
    assert(cs[1] == '{' && spec_mod_from('{') is None);
    assert(spec_find(cs, 2, ',') == Some(3int)) by {
        assert(cs[2] == dmn && dmn != ',');
        assert(cs[3] == ',');
        assert(spec_find(cs, 3, ',') == Some(3int));
    }
    assert(spec_find(cs, 2, '}') == Some(5int)) by {
        assert(cs[2] == dmn && cs[3] == ',' && cs[4] == dmx && cs[5] == '}');
        assert(spec_find(cs, 5, '}') == Some(5int));
        assert(spec_find(cs, 4, '}') == Some(5int));
        assert(spec_find(cs, 3, '}') == Some(5int));
    }
    assert(crate::parser::spec_parse_decimal(cs.subrange(2, 3)) == Some(mn)) by {
        let d = cs.subrange(2, 3);
        assert(d =~= seq![dmn]);
        assert(d.drop_last() =~= Seq::<char>::empty());
        assert(crate::parser::dec_value(Seq::<char>::empty()) == 0);
        assert(d.last() == dmn);
        assert(crate::parser::dec_value(d) == dmn as u32 - 48);
        assert(crate::parser::all_digits(d));
    }
    assert(crate::parser::spec_parse_decimal(cs.subrange(4, 5)) == Some(mx)) by {
        let d = cs.subrange(4, 5);
        assert(d =~= seq![dmx]);
        assert(d.drop_last() =~= Seq::<char>::empty());
        assert(crate::parser::dec_value(Seq::<char>::empty()) == 0);
        assert(d.last() == dmx);
        assert(crate::parser::dec_value(d) == dmx as u32 - 48);
        assert(crate::parser::all_digits(d));
    }
    let st2 = ParseState {
        stack: st1.stack.update(0, PatternModel::Char(x, Mod::Range(mn, mx))),
        ops: st1.ops,
        need_and: true,
    };
    assert(spec_step(cs, 1, st1) == Ok::<(ParseState, int), crate::parser::SyntaxError>(
        (st2, 6int),
    )) by {
        assert(st1.stack.len() == 1);
        assert(st1.stack.last() == PatternModel::Char(x, Mod::One));
    }
    lemma_loop_step(cs, 1, st1, st2, 6);
    lemma_loop_end(cs, st2);
    assert(spec_collapse(st2.stack, st2.ops, CollapseKind::UntilEmpty) == Ok::<
        (Seq<PatternModel>, Seq<Op>),
        crate::parser::SyntaxError,
    >((st2.stack, st2.ops)));
    assert(st2.stack.len() == 1 && st2.stack[0] == PatternModel::Char(x, Mod::Range(mn, mx)));
}

/// The lowering of a character repeated two to three times: a chain of three
/// consuming edges with one skip after the second.
proof fn lemma_compile_char_range23(x: char)
    ensures
        spec_compile(PatternModel::Char(x, Mod::Range(2, 3)), 0, 1) == Ok::<
            (TransModel, int),
            crate::types::CompileError,
        >(
            (
                TransModel {
                    base: seq![
                        (0int, Option::Some(x), 1int),
                        (1int, Option::Some(x), 2int),
                        (2int, Option::Some(x), 3int),
                        (2int, Option::<char>::None, 3int),
                    ],
                    negated: Seq::empty(),
                },
                3int,
            ),
        ),
{
    let p = PatternModel::Char(x, Mod::Range(2, 3));
    lemma_compile_char(x, Mod::Range(2, 3), 0, 1);
    lemma_compile_char(x, Mod::Range(2, 3), 1, 2);
    lemma_compile_char(x, Mod::Range(2, 3), 2, 3);
    let t1 = TransModel { base: seq![(0int, Option::Some(x), 1int)], negated: Seq::empty() };
    let t2 = TransModel { base: seq![(1int, Option::Some(x), 2int)], negated: Seq::empty() };
    let t3 = TransModel { base: seq![(2int, Option::Some(x), 3int)], negated: Seq::empty() };
    let acc2 = t1.concat(t2);
    let acc3 = acc2.concat(t3);
    assert(crate::types::spec_range_reps(p, t1, 1, 1, 2, 3, Seq::empty())
        == crate::types::spec_range_reps(p, acc2, 2, 2, 2, 3, Seq::empty()));
    assert(crate::types::spec_range_reps(p, acc2, 2, 2, 2, 3, Seq::empty())
        == crate::types::spec_range_reps(p, acc3, 3, 3, 2, 3, seq![2int]))
        by {
        assert(Seq::<int>::empty().push(2int) =~= seq![2int]);
    }
    assert(crate::types::spec_range_reps(p, acc3, 3, 3, 2, 3, seq![2int]) == Ok::<
        (TransModel, int, Seq<int>),
        crate::types::CompileError,
    >((acc3, 3int, seq![2int])));
    let target = TransModel {
        base: seq![
            (0int, Option::Some(x), 1int),
            (1int, Option::Some(x), 2int),
            (2int, Option::Some(x), 3int),
            (2int, Option::<char>::None, 3int),
        ],
        negated: Seq::empty(),
    };
    assert(crate::types::add_skips(acc3, seq![2int], 3).base =~= target.base);
    assert(crate::types::add_skips(acc3, seq![2int], 3).negated =~= target.negated);
    assert(mod_of(p) == Mod::Range(2, 3));
}

/// The two-to-three-repetition automaton accepts exactly the strings of its
/// character of length two or three.
proof fn lemma_range23_accepts(t: TransModel, x: char, s: Seq<char>)
    requires
        t == (TransModel {
            base: seq![
                (0int, Option::Some(x), 1int),
                (1int, Option::Some(x), 2int),
                (2int, Option::Some(x), 3int),
                (2int, Option::<char>::None, 3int),
            ],
            negated: Seq::<(int, Seq<char>, int)>::empty(),
        }),
        x != '.',
    ensures
        accepts(t, 3, s) <==> ((s.len() == 2 || s.len() == 3) && all_of(s, x)),
{
    assert(t.base[0] == (0int, Option::Some(x), 1int));
    assert(t.base[1] == (1int, Option::Some(x), 2int));
    assert(t.base[2] == (2int, Option::Some(x), 3int));
    assert(t.base[3] == (2int, Option::<char>::None, 3int));
    if (s.len() == 2 || s.len() == 3) && all_of(s, x) {
        if s.len() == 2 {
            let p = seq![(0int, 0int), (1int, 1int), (2int, 2int), (3int, 2int)];
            assert(char_edge(t, 0, s[0], 1)) by {
                assert(t.base[0] == (0int, Option::Some(s[0]), 1int));
            }
            assert(char_edge(t, 1, s[1], 2)) by {
                assert(t.base[1] == (1int, Option::Some(s[1]), 2int));
            }
            assert(eps_edge(t, 2, 3));
            assert(step(t, s, p[0], p[1]) && step(t, s, p[1], p[2]) && step(t, s, p[2], p[3]));
            assert(is_path(t, s, p) && p.first() == (0int, 0int) && p.last() == (
                3int,
                s.len() as int,
            ));
            assert(accepts(t, 3, s));
        } else {
            let p = seq![(0int, 0int), (1int, 1int), (2int, 2int), (3int, 3int)];
            assert(char_edge(t, 0, s[0], 1)) by {
                assert(t.base[0] == (0int, Option::Some(s[0]), 1int));
            }
            assert(char_edge(t, 1, s[1], 2)) by {
                assert(t.base[1] == (1int, Option::Some(s[1]), 2int));
            }
            assert(char_edge(t, 2, s[2], 3)) by {
                assert(t.base[2] == (2int, Option::Some(s[2]), 3int));
            }
            assert(step(t, s, p[0], p[1]) && step(t, s, p[1], p[2]) && step(t, s, p[2], p[3]));
            assert(is_path(t, s, p) && p.first() == (0int, 0int) && p.last() == (
                3int,
                s.len() as int,
            ));
            assert(accepts(t, 3, s));
        }
    }
    if accepts(t, 3, s) {
        let inv = |u: (int, int)|
            {
                &&& 0 <= u.1 <= s.len()
                &&& all_of(s.take(u.1), x)
                &&& (u.0 == 0 || u.0 == 1 || u.0 == 2 || u.0 == 3)
                &&& (u.0 == 3 ==> u.1 == 2 || u.1 == 3)
                &&& (u.0 != 3 ==> u.1 == u.0)
            };
        assert(inv((0int, 0int))) by {
            assert(s.take(0) =~= Seq::<char>::empty());
        }
        assert forall|u: (int, int), v: (int, int)|
            #![trigger inv(u), step(t, s, u, v)]
            inv(u) && step(t, s, u, v) implies inv(v) by {
            if v.1 == u.1 && eps_edge(t, u.0, v.0) {
                let k = choose|k: int|
                    0 <= k < t.base.len() && t.base[k] == (u.0, Option::<char>::None, v.0);
                assert(k == 3);
            } else {
                assert(0 <= u.1 < s.len() && v.1 == u.1 + 1 && consuming_edge(t, u.0, s[u.1], v.0));
                assert(!negated_edge(t, u.0, s[u.1], v.0));
                if char_edge(t, u.0, s[u.1], v.0) {
                    let k = choose|k: int|
                        0 <= k < t.base.len() && t.base[k] == (u.0, Option::Some(s[u.1]), v.0);
                    assert(0 <= k < 3);
                    assert(s[u.1] == x);
                    assert(all_of(s.take(v.1), x)) by {
                        assert(forall|m: int|
                            0 <= m < u.1 ==> #[trigger] s.take(v.1)[m] == s.take(u.1)[m]);
                        assert(s.take(v.1)[u.1] == s[u.1]);
                    }
                } else {
                    assert(char_edge(t, u.0, '.', v.0));
                    let k = choose|k: int|
                        0 <= k < t.base.len() && t.base[k] == (u.0, Option::Some('.'), v.0);
                    assert(0 <= k < 4);
                    assert(false);
                }
            }
        }
        lemma_accepts_invariant(t, 3, s, inv);
        assert(inv((3int, s.len() as int)));
        assert(s.take(s.len() as int) =~= s);
    }
}

/// `Range(min, max)` accepts exactly the repetition counts between the
/// bounds: the engine built from `"a{2,3}"` accepts exactly `"aa"` and
/// `"aaa"`.
pub proof fn law_bounded_range(s: Seq<char>)
    ensures
        engine_of("a{2,3}"@) matches Some((t, f)) && (accepts(t, f, s) <==> ((s.len() == 2
            || s.len() == 3) && all_of(s, 'a'))),
{
    reveal_strlit("a{2,3}");
    let cs = "a{2,3}"@;
    assert(cs =~= seq!['a', '{', '2', ',', '3', '}']);
    lemma_parse_char_range(cs, 'a', '2', '3', 2, 3);
    lemma_compile_char_range23('a');
    let t = TransModel {
        base: seq![
            (0int, Option::Some('a'), 1int),
            (1int, Option::Some('a'), 2int),
            (2int, Option::Some('a'), 3int),
            (2int, Option::<char>::None, 3int),
        ],
        negated: Seq::<(int, Seq<char>, int)>::empty(),
    };
    lemma_range23_accepts(t, 'a', s);
}

/// A plain literal character: an ASCII letter or digit. The wildcard is not
/// one, since it matches any character rather than itself.
pub open spec fn plain_char(c: char) -> bool {
    ||| 48 <= c as u32 <= 57
    ||| 65 <= c as u32 <= 90
    ||| 97 <= c as u32 <= 122
}

/// A pattern of plain literal characters only: no quantifiers, alternation,
/// grouping, classes or wildcards.
pub open spec fn plain_literal(cs: Seq<char>) -> bool {
    forall|k: int| 0 <= k < cs.len() ==> plain_char(#[trigger] cs[k])
}

/// The unquantified node of one literal character.
pub open spec fn node_of(c: char) -> PatternModel {
    PatternModel::Char(c, Mod::One)
}

/// The nodes a literal pattern parses into, one per character.
pub open spec fn lit_models(pat: Seq<char>) -> Seq<PatternModel>
    decreases pat.len(),
{
    if pat.len() == 0 {
        Seq::empty()
    } else {
        lit_models(pat.drop_last()).push(node_of(pat.last()))
    }
}

/// The length and contents of the literal node list.
proof fn lemma_lit_models_facts(pat: Seq<char>)
    ensures
        lit_models(pat).len() == pat.len(),
        forall|k: int| 0 <= k < pat.len() ==> #[trigger] lit_models(pat)[k] == node_of(pat[k]),
    decreases pat.len(),
{
    if pat.len() > 0 {
        let front = pat.drop_last();
        lemma_lit_models_facts(front);
        assert(forall|k: int| 0 <= k < pat.len() - 1 ==> #[trigger] front[k] == pat[k]);
        assert forall|k: int| 0 <= k < pat.len() implies #[trigger] lit_models(pat)[k] == node_of(
            pat[k],
        ) by {
            if k < pat.len() - 1 {
                assert(lit_models(pat)[k] == lit_models(front)[k]);
            } else {
                assert(lit_models(pat)[k] == node_of(pat.last()));
            }
        }
    }
}

/// A stack of `k` concatenation operators.
spec fn ands(k: int) -> Seq<Op>
    decreases k,
{
    if k <= 0 {
        Seq::empty()
    } else {
        ands(k - 1).push(Op::And)
    }
}

/// The length and contents of a uniform concatenation stack.
proof fn lemma_ands_props(k: int)
    ensures
        k >= 0 ==> ands(k).len() == k,
        k < 0 ==> ands(k).len() == 0,
        forall|m: int| 0 <= m < ands(k).len() ==> ands(k)[m] == Op::And,
    decreases k,
{
    if k > 0 {
        lemma_ands_props(k - 1);
    }
}

/// The parser's state after reading the first `i` characters of a literal
/// pattern: the characters on the value stack, a concatenation operator
/// between each two, and a term pending whenever something was read.
spec fn lit_state(pat: Seq<char>, i: int) -> ParseState {
    ParseState { stack: lit_models(pat).take(i), ops: ands(i - 1), need_and: i > 0 }
}

/// Reading one more literal character moves one literal state to the next.
proof fn lemma_lit_state_parts(pat: Seq<char>, i: int)
    requires
        0 <= i < pat.len(),
    ensures
        lit_state(pat, i).stack.push(node_of(pat[i])) == lit_state(pat, i + 1).stack,
        i > 0 ==> lit_state(pat, i).ops.push(Op::And) == lit_state(pat, i + 1).ops,
        i == 0 ==> lit_state(pat, i).ops == lit_state(pat, i + 1).ops,
{
    lemma_lit_models_facts(pat);
    assert(lit_state(pat, i).stack.push(node_of(pat[i])) =~= lit_state(pat, i + 1).stack);
    if i == 0 {
        assert(ands(-1) =~= Seq::<Op>::empty());
        assert(ands(0) =~= Seq::<Op>::empty());
    }
}

/// The token loop walks a literal pattern one character at a time through the
/// literal states.
proof fn lemma_parse_literal_loop(pat: Seq<char>, i: int)
    requires
        plain_literal(pat),
        0 <= i <= pat.len(),
    ensures
        spec_parse_loop(pat, i, lit_state(pat, i)) == spec_parse_loop(
            pat,
            pat.len() as int,
            lit_state(pat, pat.len() as int),
        ),
    decreases pat.len() - i,
{
    if i < pat.len() {
        let st = lit_state(pat, i);
        let st2 = lit_state(pat, i + 1);
        lemma_lit_state_parts(pat, i);
        lemma_step_literal_eval(pat, i, st);
        assert(spec_step(pat, i, st) == Ok::<(ParseState, int), crate::parser::SyntaxError>(
            (st2, i + 1),
        ));
        lemma_loop_step(pat, i, st, st2, i + 1);
        lemma_parse_literal_loop(pat, i + 1);
    }
}

/// The run at the top of a uniform concatenation stack is the whole stack.
proof fn lemma_top_run_uniform(k: int)
    requires
        k >= 1,
    ensures
        spec_top_run(ands(k)) == k,
    decreases k,
{
    let ops = ands(k);
    lemma_ands_props(k);
    if k >= 2 {
        lemma_ands_props(k - 1);
        assert(ops[k - 2] == Op::And && ops.last() == Op::And);
        assert(ops.take(k - 1) =~= ands(k - 1));
        lemma_top_run_uniform(k - 1);
    }
}

/// The tree a literal pattern parses into: a single character node, or the
/// concatenation of all its character nodes.
pub open spec fn lit_tree(pat: Seq<char>) -> PatternModel {
    if pat.len() == 1 {
        node_of(pat[0])
    } else {
        PatternModel::And(lit_models(pat), Mod::One)
    }
}

/// A literal pattern parses into its literal tree.
proof fn lemma_parse_literal(pat: Seq<char>)
    requires
        plain_literal(pat),
    ensures
        spec_parse(pat) == Ok::<PatternModel, crate::parser::SyntaxError>(lit_tree(pat)),
{
    let n = pat.len() as int;
    lemma_lit_models_facts(pat);
    lemma_ands_props(n - 1);
    let init = ParseState { stack: Seq::empty(), ops: Seq::empty(), need_and: false };
    let stn = lit_state(pat, n);
    assert(lit_state(pat, 0).stack =~= init.stack);
    assert(lit_state(pat, 0).ops =~= init.ops) by {
        assert(ands(-1) =~= Seq::<Op>::empty());
    }
    assert(lit_state(pat, 0) == init);
    assert(stn.stack =~= lit_models(pat));
    assert(stn.stack == lit_models(pat));
    assert(stn.stack.len() == n);
    let ghost folded = PatternModel::And(lit_models(pat), Mod::One);
    assert(stn.stack.subrange(0, n) == lit_models(pat)) by {
        assert(stn.stack.subrange(0, n) =~= lit_models(pat));
    }
    let stack2 = stn.stack.take(0).push(folded);
    let ops2 = stn.ops.take(0);
    assert(stack2 =~= seq![folded]);
    assert(ops2 =~= Seq::<Op>::empty());
    lemma_parse_literal_loop(pat, 0);
    lemma_loop_end(pat, stn);
    assert(spec_parse_loop(pat, 0, init) == Ok::<ParseState, crate::parser::SyntaxError>(stn));
    if n == 0 {
        assert(stn.ops =~= Seq::<Op>::empty());
        assert(spec_collapse(stn.stack, stn.ops, CollapseKind::UntilEmpty) == Ok::<
            (Seq<PatternModel>, Seq<Op>),
            crate::parser::SyntaxError,
        >((stn.stack, stn.ops)));
        assert(stn.stack.len() == 0);
        assert(lit_models(pat) =~= Seq::<PatternModel>::empty());
        assert(lit_tree(pat) == PatternModel::And(lit_models(pat), Mod::One));
    } else if n == 1 {
        assert(stn.ops =~= Seq::<Op>::empty());
        assert(spec_collapse(stn.stack, stn.ops, CollapseKind::UntilEmpty) == Ok::<
            (Seq<PatternModel>, Seq<Op>),
            crate::parser::SyntaxError,
        >((stn.stack, stn.ops)));
        assert(stn.stack.len() == 1);
        assert(stn.stack[0] == node_of(pat[0]));
    } else {
        lemma_top_run_uniform(n - 1);
        assert(spec_top_run(stn.ops) == n - 1);
        assert(stn.ops.last() == Op::And && stn.ops.len() == n - 1);
        assert(spec_collapse(stack2, ops2, CollapseKind::UntilEmpty) == Ok::<
            (Seq<PatternModel>, Seq<Op>),
            crate::parser::SyntaxError,
        >((stack2, ops2)));
        assert(spec_collapse(stn.stack, stn.ops, CollapseKind::UntilEmpty) == Ok::<
            (Seq<PatternModel>, Seq<Op>),
            crate::parser::SyntaxError,
        >((stack2, ops2)));
        assert(stack2.len() == 1 && stack2[0] == folded);
    }
}

/// The edge consuming the `k`-th character of a literal pattern.
pub open spec fn edge_of(k: int, c: char) -> (int, Option<char>, int) {
    (k, Option::Some(c), k + 1)
}

/// The chain automaton of a literal pattern: state `k` to state `k + 1` on
/// the pattern's `k`-th character.
pub open spec fn chain_edges(pat: Seq<char>) -> Seq<(int, Option<char>, int)>
    decreases pat.len(),
{
    if pat.len() == 0 {
        Seq::empty()
    } else {
        chain_edges(pat.drop_last()).push(edge_of(pat.len() - 1, pat.last()))
    }
}

/// The length and contents of the chain.
proof fn lemma_chain_edges_facts(pat: Seq<char>)
    ensures
        chain_edges(pat).len() == pat.len(),
        forall|k: int| 0 <= k < pat.len() ==> #[trigger] chain_edges(pat)[k] == edge_of(k, pat[k]),
    decreases pat.len(),
{
    if pat.len() > 0 {
        let front = pat.drop_last();
        lemma_chain_edges_facts(front);
        assert(forall|k: int| 0 <= k < pat.len() - 1 ==> #[trigger] front[k] == pat[k]);
        assert forall|k: int| 0 <= k < pat.len() implies #[trigger] chain_edges(pat)[k] == edge_of(
            k,
            pat[k],
        ) by {
            if k < pat.len() - 1 {
                assert(chain_edges(pat)[k] == chain_edges(front)[k]);
            } else {
                assert(chain_edges(pat)[k] == edge_of(pat.len() - 1, pat.last()));
            }
        }
    }
}

/// The edges of the chain from position `idx` on.
spec fn chain_from(pat: Seq<char>, idx: int) -> Seq<(int, Option<char>, int)> {
    chain_edges(pat).subrange(idx, pat.len() as int)
}

/// Lowering the remaining character nodes of a literal pattern appends the
/// remaining chain edges.
proof fn lemma_compile_lit_list(pat: Seq<char>, idx: int, acc: TransModel, next: int)
    requires
        0 <= idx <= pat.len(),
        pat.len() <= usize::MAX,
        idx == 0 ==> next == 1,
    ensures
        crate::types::spec_compile_and(lit_models(pat), idx, acc, idx, next) == Ok::<
            (TransModel, int),
            crate::types::CompileError,
        >(
            (
                TransModel { base: acc.base + chain_from(pat, idx), negated: acc.negated },
                pat.len() as int,
            ),
        ),
    decreases pat.len() - idx,
{
    lemma_lit_models_facts(pat);
    lemma_chain_edges_facts(pat);
    let list = lit_models(pat);
    if idx >= pat.len() {
        assert(chain_from(pat, idx) =~= Seq::<(int, Option<char>, int)>::empty());
        assert(acc.base + chain_from(pat, idx) =~= acc.base);
        assert(TransModel { base: acc.base + chain_from(pat, idx), negated: acc.negated } == acc);
    } else {
        let cn: int = if idx == 0 {
            next
        } else {
            idx + 1
        };
        assert(cn == idx + 1);
        assert(list[idx] == node_of(pat[idx]));
        let t = TransModel { base: seq![edge_of(idx, pat[idx])], negated: Seq::empty() };
        let acc2 = acc.concat(t);
        assert(acc2.base + chain_from(pat, idx + 1) =~= acc.base + chain_from(pat, idx));
        assert(acc2.negated =~= acc.negated);
        lemma_compile_char(pat[idx], Mod::One, idx, idx + 1);
        assert(spec_compile(list[idx], idx, cn) == Ok::<
            (TransModel, int),
            crate::types::CompileError,
        >((t, idx + 1))) by {
            assert(seq![(idx, Option::Some(pat[idx]), idx + 1)] =~= t.base);
        }
        lemma_compile_lit_list(pat, idx + 1, acc2, next);
        assert(TransModel { base: acc2.base + chain_from(pat, idx + 1), negated: acc2.negated }
            == TransModel { base: acc.base + chain_from(pat, idx), negated: acc.negated });
    }
}

/// A literal tree lowers to the chain automaton, finishing at the state
/// numbered by the pattern's length.
proof fn lemma_compile_literal(pat: Seq<char>)
    requires
        pat.len() <= usize::MAX,
    ensures
        spec_compile(lit_tree(pat), 0, 1) == Ok::<(TransModel, int), crate::types::CompileError>(
            (TransModel { base: chain_edges(pat), negated: Seq::empty() }, pat.len() as int),
        ),
{
    lemma_lit_models_facts(pat);
    lemma_chain_edges_facts(pat);
    if pat.len() == 1 {
        assert(chain_edges(pat) =~= seq![(0int, Option::Some(pat[0]), 1int)]) by {
            assert(chain_edges(pat)[0] == edge_of(0, pat[0]));
        }
        lemma_compile_char(pat[0], Mod::One, 0, 1);
    } else {
        let node = PatternModel::And(lit_models(pat), Mod::One);
        assert(TransModel::empty().base + chain_from(pat, 0) =~= chain_edges(pat));
        assert(TransModel::empty().negated =~= Seq::<(int, Seq<char>, int)>::empty());
        lemma_compile_lit_list(pat, 0, TransModel::empty(), 1);
        assert(spec_compile_base(node, 0, 1) == crate::types::spec_compile_and(
            lit_models(pat),
            0,
            TransModel::empty(),
            0,
            1,
        ));
        assert(mod_of(node) == Mod::One);
        assert(TransModel {
            base: TransModel::empty().base + chain_from(pat, 0),
            negated: TransModel::empty().negated,
        } == TransModel { base: chain_edges(pat), negated: Seq::empty() });
    }
}

/// Every matching prefix count is reachable along the chain.
proof fn lemma_chain_reaches(t: TransModel, pat: Seq<char>, s: Seq<char>, i: int)
    requires
        t == (TransModel {
            base: chain_edges(pat),
            negated: Seq::<(int, Seq<char>, int)>::empty(),
        }),
        0 <= i <= pat.len(),
        i <= s.len(),
        forall|k: int| 0 <= k < i ==> #[trigger] s[k] == pat[k],
    ensures
        reaches(t, s, (0int, 0int), (i, i)),
    decreases i,
{
    lemma_chain_edges_facts(pat);
    if i == 0 {
        crate::engine::lemma_reaches_self(t, s, (0int, 0int));
    } else {
        lemma_chain_reaches(t, pat, s, i - 1);
        assert(char_edge(t, i - 1, s[i - 1], i)) by {
            assert(t.base[i - 1] == edge_of(i - 1, pat[i - 1]));
            assert(t.base[i - 1] == (i - 1, Option::Some(s[i - 1]), i));
        }
        assert(step(t, s, (i - 1, i - 1), (i, i)));
        lemma_reaches_step(t, s, (0int, 0int), (i - 1, i - 1), (i, i));
    }
}

/// The chain automaton of a literal pattern accepts exactly the pattern
/// itself.
proof fn lemma_chain_accepts(t: TransModel, pat: Seq<char>, s: Seq<char>)
    requires
        t == (TransModel {
            base: chain_edges(pat),
            negated: Seq::<(int, Seq<char>, int)>::empty(),
        }),
        plain_literal(pat),
    ensures
        accepts(t, pat.len() as int, s) <==> s == pat,
{
    lemma_chain_edges_facts(pat);
    if s == pat {
        lemma_chain_reaches(t, pat, s, pat.len() as int);
        assert(accepts(t, pat.len() as int, s));
    }
    if accepts(t, pat.len() as int, s) {
        let inv = |u: (int, int)|
            0 <= u.0 <= pat.len() && u.1 == u.0 && (forall|k: int|
                0 <= k < u.0 ==> #[trigger] s[k] == pat[k]);
        assert(inv((0int, 0int)));
        assert forall|u: (int, int), v: (int, int)|
            #![trigger inv(u), step(t, s, u, v)]
            inv(u) && step(t, s, u, v) implies inv(v) by {
            if v.1 == u.1 && eps_edge(t, u.0, v.0) {
                let k = choose|k: int|
                    0 <= k < t.base.len() && t.base[k] == (u.0, Option::<char>::None, v.0);
                assert(t.base[k] == edge_of(k, pat[k]));
                assert(false);
            } else {
                assert(0 <= u.1 < s.len() && v.1 == u.1 + 1 && consuming_edge(t, u.0, s[u.1], v.0));
                assert(!negated_edge(t, u.0, s[u.1], v.0));
                if char_edge(t, u.0, s[u.1], v.0) {
                    let k = choose|k: int|
                        0 <= k < t.base.len() && t.base[k] == (u.0, Option::Some(s[u.1]), v.0);
                    assert(t.base[k] == edge_of(k, pat[k]));
                    assert(k == u.0 && s[u.1] == pat[k] && v.0 == k + 1);
                } else {
                    assert(char_edge(t, u.0, '.', v.0));
                    let k = choose|k: int|
                        0 <= k < t.base.len() && t.base[k] == (u.0, Option::Some('.'), v.0);
                    assert(t.base[k] == edge_of(k, pat[k]));
                    assert(pat[k] == '.');
                    assert(plain_char(pat[k]));
                    assert(('.') as u32 == 46);
                    assert(false);
                }
            }
        }
        lemma_accepts_invariant(t, pat.len() as int, s, inv);
        assert(inv((pat.len() as int, s.len() as int)));
        assert(s =~= pat);
    }
}

/// A pattern of plain literal characters matches exactly its own text: the
/// engine built from it accepts the literal concatenation string and nothing
/// else.
pub proof fn law_literal_concatenation(pat: Seq<char>, s: Seq<char>)
    requires
        plain_literal(pat),
        pat.len() <= usize::MAX,
    ensures
        engine_of(pat) matches Some((t, f)) && (accepts(t, f, s) <==> s == pat),
{
    lemma_parse_literal(pat);
    lemma_compile_literal(pat);
    let t = TransModel { base: chain_edges(pat), negated: Seq::empty() };
    assert(t.negated =~= Seq::<(int, Seq<char>, int)>::empty());
    lemma_chain_accepts(t, pat, s);
}

/// The parse of `"a(a)a"`: the parentheses close around a single character,
/// so the tree is the flat three-character concatenation.
proof fn lemma_parse_a_pa_a(cs: Seq<char>)
    requires
        cs =~= seq!['a', '(', 'a', ')', 'a'],
    ensures
        spec_parse(cs) == Ok::<PatternModel, crate::parser::SyntaxError>(
            PatternModel::And(seq![node_of('a'), node_of('a'), node_of('a')], Mod::One),
        ),
{
    let na = node_of('a');
    let init = ParseState { stack: Seq::empty(), ops: Seq::empty(), need_and: false };
    lemma_step_literal_eval(cs, 0, init);
    let st1 = ParseState { stack: init.stack.push(na), ops: init.ops, need_and: true };
    lemma_loop_step(cs, 0, init, st1, 1);
    let st2 = ParseState {
        stack: st1.stack,
        ops: st1.ops.push(Op::And).push(Op::Paren),
        need_and: false,
    };
    assert(spec_step(cs, 1, st1) == Ok::<(ParseState, int), crate::parser::SyntaxError>(
        (st2, 2int),
    ));
    lemma_loop_step(cs, 1, st1, st2, 2);
    lemma_step_literal_eval(cs, 2, st2);
    let st3 = ParseState { stack: st2.stack.push(na), ops: st2.ops, need_and: true };
    lemma_loop_step(cs, 2, st2, st3, 3);
    // ')': the collapse stops at the parenthesis at once and removes it.
    assert(spec_collapse(st3.stack, st3.ops, CollapseKind::UntilParen) == Ok::<
        (Seq<PatternModel>, Seq<Op>),
        crate::parser::SyntaxError,
    >((st3.stack, st3.ops)));
    let st4 = ParseState {
        stack: st3.stack,
        ops: st3.ops.take(st3.ops.len() - 1),
        need_and: true,
    };
    assert(spec_step(cs, 3, st3) == Ok::<(ParseState, int), crate::parser::SyntaxError>(
        (st4, 4int),
    )) by {
        assert(ops_top(st3.ops) == Some(Op::Paren));
    }
    lemma_loop_step(cs, 3, st3, st4, 4);
    lemma_step_literal_eval(cs, 4, st4);
    let st5 = ParseState {
        stack: st4.stack.push(na),
        ops: st4.ops.push(Op::And),
        need_and: true,
    };
    lemma_loop_step(cs, 4, st4, st5, 5);
    lemma_loop_end(cs, st5);
    assert(spec_parse_loop(cs, 0, init) == Ok::<ParseState, crate::parser::SyntaxError>(st5));
    assert(st4.ops =~= seq![Op::And]);
    assert(st5.ops =~= seq![Op::And, Op::And]);
    assert(st5.stack =~= seq![na, na, na]);
    lemma_collapse_all_ands(st5.stack, st5.ops);
    assert(st5.stack.subrange(0, 3) =~= seq![na, na, na]);
}

/// The parse of `"aa(a)"`: same flat tree.
proof fn lemma_parse_aa_pa(cs: Seq<char>)
    requires
        cs =~= seq!['a', 'a', '(', 'a', ')'],
    ensures
        spec_parse(cs) == Ok::<PatternModel, crate::parser::SyntaxError>(
            PatternModel::And(seq![node_of('a'), node_of('a'), node_of('a')], Mod::One),
        ),
{
    let na = node_of('a');
    let init = ParseState { stack: Seq::empty(), ops: Seq::empty(), need_and: false };
    lemma_step_literal_eval(cs, 0, init);
    let st1 = ParseState { stack: init.stack.push(na), ops: init.ops, need_and: true };
    lemma_loop_step(cs, 0, init, st1, 1);
    lemma_step_literal_eval(cs, 1, st1);
    let st2 = ParseState {
        stack: st1.stack.push(na),
        ops: st1.ops.push(Op::And),
        need_and: true,
    };
    lemma_loop_step(cs, 1, st1, st2, 2);
    let st3 = ParseState {
        stack: st2.stack,
        ops: st2.ops.push(Op::And).push(Op::Paren),
        need_and: false,
    };
    assert(spec_step(cs, 2, st2) == Ok::<(ParseState, int), crate::parser::SyntaxError>(
        (st3, 3int),
    ));
    lemma_loop_step(cs, 2, st2, st3, 3);
    lemma_step_literal_eval(cs, 3, st3);
    let st4 = ParseState { stack: st3.stack.push(na), ops: st3.ops, need_and: true };
    lemma_loop_step(cs, 3, st3, st4, 4);
    assert(spec_collapse(st4.stack, st4.ops, CollapseKind::UntilParen) == Ok::<
        (Seq<PatternModel>, Seq<Op>),
        crate::parser::SyntaxError,
    >((st4.stack, st4.ops)));
    let st5 = ParseState {
        stack: st4.stack,
        ops: st4.ops.take(st4.ops.len() - 1),
        need_and: true,
    };
    assert(spec_step(cs, 4, st4) == Ok::<(ParseState, int), crate::parser::SyntaxError>(
        (st5, 5int),
    )) by {
        assert(ops_top(st4.ops) == Some(Op::Paren));
    }
    lemma_loop_step(cs, 4, st4, st5, 5);
    lemma_loop_end(cs, st5);
    assert(spec_parse_loop(cs, 0, init) == Ok::<ParseState, crate::parser::SyntaxError>(st5));
    assert(st5.ops =~= seq![Op::And, Op::And]);
    assert(st5.stack =~= seq![na, na, na]);
    lemma_collapse_all_ands(st5.stack, st5.ops);
    assert(st5.stack.subrange(0, 3) =~= seq![na, na, na]);
}

/// The final collapse of three terms under two concatenation operators folds
/// them into one concatenation node.
proof fn lemma_collapse_all_ands(stack: Seq<PatternModel>, ops: Seq<Op>)
    requires
        stack.len() == 3,
        ops =~= seq![Op::And, Op::And],
    ensures
        spec_collapse(stack, ops, CollapseKind::UntilEmpty) == Ok::<
            (Seq<PatternModel>, Seq<Op>),
            crate::parser::SyntaxError,
        >((seq![PatternModel::And(stack.subrange(0, 3), Mod::One)], Seq::empty())),
{
    assert(ops[0] == Op::And && ops[1] == Op::And && ops.len() == 2);
    assert(spec_top_run(ops) == 2) by {
        assert(ops.take(1) =~= seq![Op::And]);
        assert(spec_top_run(ops.take(1)) == 1);
    }
    let folded = PatternModel::And(stack.subrange(0, 3), Mod::One);
    let stack2 = stack.take(0).push(folded);
    let ops2 = ops.take(0);
    assert(stack2 =~= seq![folded]);
    assert(ops2 =~= Seq::<Op>::empty());
    assert(spec_collapse(stack2, ops2, CollapseKind::UntilEmpty) == Ok::<
        (Seq<PatternModel>, Seq<Op>),
        crate::parser::SyntaxError,
    >((stack2, ops2)));
}

/// The parse of `"(aa)a"`: a two-character group concatenated with one more
/// character.
proof fn lemma_parse_paa_a(cs: Seq<char>)
    requires
        cs =~= seq!['(', 'a', 'a', ')', 'a'],
    ensures
        spec_parse(cs) == Ok::<PatternModel, crate::parser::SyntaxError>(
            PatternModel::And(
                seq![
                    PatternModel::And(seq![node_of('a'), node_of('a')], Mod::One),
                    node_of('a'),
                ],
                Mod::One,
            ),
        ),
{
    let na = node_of('a');
    let init = ParseState { stack: Seq::empty(), ops: Seq::empty(), need_and: false };
    let st1 = ParseState { stack: init.stack, ops: init.ops.push(Op::Paren), need_and: false };
    assert(spec_step(cs, 0, init) == Ok::<(ParseState, int), crate::parser::SyntaxError>(
        (st1, 1int),
    ));
    lemma_loop_step(cs, 0, init, st1, 1);
    lemma_step_literal_eval(cs, 1, st1);
    let st2 = ParseState { stack: st1.stack.push(na), ops: st1.ops, need_and: true };
    lemma_loop_step(cs, 1, st1, st2, 2);
    lemma_step_literal_eval(cs, 2, st2);
    let st3 = ParseState {
        stack: st2.stack.push(na),
        ops: st2.ops.push(Op::And),
        need_and: true,
    };
    lemma_loop_step(cs, 2, st2, st3, 3);
    // ')': one concatenation run folds inside the parentheses, then the
    // parenthesis is removed.
    let inner = PatternModel::And(st3.stack.subrange(0, 2), Mod::One);
    let stack_f = st3.stack.take(0).push(inner);
    let ops_f = st3.ops.take(1);
    assert(spec_collapse(st3.stack, st3.ops, CollapseKind::UntilParen) == Ok::<
        (Seq<PatternModel>, Seq<Op>),
        crate::parser::SyntaxError,
    >((stack_f, ops_f))) by {
        assert(st3.ops =~= seq![Op::Paren, Op::And]);
        assert(st3.ops[0] == Op::Paren && st3.ops[1] == Op::And);
        assert(spec_top_run(st3.ops) == 1);
        assert(st3.stack.len() == 2);
        assert(ops_f =~= seq![Op::Paren]);
        assert(ops_top(ops_f) == Some(Op::Paren));
        assert(spec_collapse(stack_f, ops_f, CollapseKind::UntilParen) == Ok::<
            (Seq<PatternModel>, Seq<Op>),
            crate::parser::SyntaxError,
        >((stack_f, ops_f)));
    }
    let st4 = ParseState { stack: stack_f, ops: ops_f.take(0), need_and: true };
    assert(spec_step(cs, 3, st3) == Ok::<(ParseState, int), crate::parser::SyntaxError>(
        (st4, 4int),
    )) by {
        assert(ops_top(ops_f) == Some(Op::Paren));
        assert(ops_f.take(ops_f.len() - 1) =~= st4.ops);
    }
    lemma_loop_step(cs, 3, st3, st4, 4);
    lemma_step_literal_eval(cs, 4, st4);
    let st5 = ParseState {
        stack: st4.stack.push(na),
        ops: st4.ops.push(Op::And),
        need_and: true,
    };
    lemma_loop_step(cs, 4, st4, st5, 5);
    lemma_loop_end(cs, st5);
    assert(spec_parse_loop(cs, 0, init) == Ok::<ParseState, crate::parser::SyntaxError>(st5));
    // Final collapse: one concatenation run over the group and the character.
    assert(st5.ops =~= seq![Op::And]);
    assert(spec_top_run(st5.ops) == 1);
    assert(st5.stack.len() == 2);
    let folded = PatternModel::And(st5.stack.subrange(0, 2), Mod::One);
    let stack2 = st5.stack.take(0).push(folded);
    let ops2 = st5.ops.take(0);
    assert(stack2 =~= seq![folded]);
    assert(ops2 =~= Seq::<Op>::empty());
    assert(spec_collapse(stack2, ops2, CollapseKind::UntilEmpty) == Ok::<
        (Seq<PatternModel>, Seq<Op>),
        crate::parser::SyntaxError,
    >((stack2, ops2)));
    assert(st5.stack.subrange(0, 2) =~= seq![inner, na]);
    assert(st3.stack.subrange(0, 2) =~= seq![na, na]);
}

/// The lowering of the grouped tree of `"(aa)a"`: the same chain of three
/// edges as the flat tree.
proof fn lemma_compile_grouped(pat3: Seq<char>)
    requires
        pat3 =~= seq!['a', 'a', 'a'],
    ensures
        spec_compile(
            PatternModel::And(
                seq![
                    PatternModel::And(seq![node_of('a'), node_of('a')], Mod::One),
                    node_of('a'),
                ],
                Mod::One,
            ),
            0,
            1,
        ) == Ok::<(TransModel, int), crate::types::CompileError>(
            (TransModel { base: chain_edges(pat3), negated: Seq::empty() }, 3int),
        ),
{
    let pat2 = pat3.take(2);
    assert(pat2 =~= seq!['a', 'a']);
    lemma_lit_models_facts(pat2);
    lemma_chain_edges_facts(pat2);
    lemma_chain_edges_facts(pat3);
    let inner = PatternModel::And(seq![node_of('a'), node_of('a')], Mod::One);
    let list = seq![inner, node_of('a')];
    let t2 = TransModel { base: chain_edges(pat2), negated: Seq::empty() };
    assert(spec_compile(inner, 0, 1) == Ok::<(TransModel, int), crate::types::CompileError>(
        (t2, 2int),
    )) by {
        assert(lit_models(pat2) =~= seq![node_of('a'), node_of('a')]) by {
            assert(lit_models(pat2).len() == 2);
            assert(lit_models(pat2)[0] == node_of(pat2[0]));
            assert(lit_models(pat2)[1] == node_of(pat2[1]));
        }
        lemma_compile_lit_list(pat2, 0, TransModel::empty(), 1);
        assert(TransModel::empty().base + chain_from(pat2, 0) =~= chain_edges(pat2));
        assert(spec_compile_base(inner, 0, 1) == crate::types::spec_compile_and(
            seq![node_of('a'), node_of('a')],
            0,
            TransModel::empty(),
            0,
            1,
        ));
        assert(mod_of(inner) == Mod::One);
        assert(TransModel {
            base: TransModel::empty().base + chain_from(pat2, 0),
            negated: TransModel::empty().negated,
        } == t2) by {
            assert(TransModel::empty().negated =~= t2.negated);
        }
    }
    let t3 = TransModel { base: seq![(2int, Option::Some('a'), 3int)], negated: Seq::empty() };
    lemma_compile_char('a', Mod::One, 2, 3);
    assert(spec_compile(node_of('a'), 2, 3) == Ok::<
        (TransModel, int),
        crate::types::CompileError,
    >((t3, 3int)));
    let acc1 = TransModel::empty().concat(t2);
    let acc2 = acc1.concat(t3);
    assert(list[0] == inner && list[1] == node_of('a'));
    assert(crate::types::spec_compile_and(list, 0, TransModel::empty(), 0, 1)
        == crate::types::spec_compile_and(list, 1, acc1, 2, 1));
    assert(crate::types::spec_compile_and(list, 1, acc1, 2, 1)
        == crate::types::spec_compile_and(list, 2, acc2, 3, 1));
    assert(crate::types::spec_compile_and(list, 2, acc2, 3, 1) == Ok::<
        (TransModel, int),
        crate::types::CompileError,
    >((acc2, 3int)));
    assert(acc2.base =~= chain_edges(pat3)) by {
        assert(chain_edges(pat3).len() == 3);
        assert(chain_edges(pat3)[0] == edge_of(0, 'a'));
        assert(chain_edges(pat3)[1] == edge_of(1, 'a'));
        assert(chain_edges(pat3)[2] == edge_of(2, 'a'));
        assert(chain_edges(pat2).len() == 2);
        assert(chain_edges(pat2)[0] == edge_of(0, 'a'));
        assert(chain_edges(pat2)[1] == edge_of(1, 'a'));
    }
    assert(acc2.negated =~= Seq::<(int, Seq<char>, int)>::empty());
    let node = PatternModel::And(list, Mod::One);
    assert(spec_compile_base(node, 0, 1) == crate::types::spec_compile_and(
        list,
        0,
        TransModel::empty(),
        0,
        1,
    ));
    assert(mod_of(node) == Mod::One);
    assert(acc2 == TransModel { base: chain_edges(pat3), negated: Seq::empty() });
}

/// Grouping with parentheses neither adds nor removes anything: the engines
/// built from `"(aa)a"`, `"a(a)a"` and `"aa(a)"` are the very automaton built
/// from `"aaa"`.
pub proof fn law_grouping_equivalent()
    ensures
        engine_of("aaa"@) is Some,
        engine_of("(aa)a"@) == engine_of("aaa"@),
        engine_of("a(a)a"@) == engine_of("aaa"@),
        engine_of("aa(a)"@) == engine_of("aaa"@),
{
    reveal_strlit("aaa");
    reveal_strlit("(aa)a");
    reveal_strlit("a(a)a");
    reveal_strlit("aa(a)");
    let flat = "aaa"@;
    assert(plain_literal(flat)) by {
        assert(flat[0] == 'a' && flat[1] == 'a' && flat[2] == 'a');
    }
    lemma_parse_literal(flat);
    lemma_compile_literal(flat);
    lemma_lit_models_facts(flat);
    assert(lit_models(flat) =~= seq![node_of('a'), node_of('a'), node_of('a')]);
    assert(lit_tree(flat) == PatternModel::And(
        seq![node_of('a'), node_of('a'), node_of('a')],
        Mod::One,
    ));
    assert("a(a)a"@ =~= seq!['a', '(', 'a', ')', 'a']);
    lemma_parse_a_pa_a("a(a)a"@);
    assert("aa(a)"@ =~= seq!['a', 'a', '(', 'a', ')']);
    lemma_parse_aa_pa("aa(a)"@);
    assert("(aa)a"@ =~= seq!['(', 'a', 'a', ')', 'a']);
    lemma_parse_paa_a("(aa)a"@);
    lemma_compile_grouped(flat);
}

} // verus!
