//! The query engine: a compiled automaton together with a backtracking
//! matcher, whose answer is specified as reachability along automaton paths.
use vstd::prelude::*;

use crate::parser::{spec_parse, Parser, SyntaxError};
use crate::types::{
    consuming_edge, eps_edge, spec_compile, spec_opt_char, str_chars, successor_within,
    CompileError, State, TransModel, Transition,
};

verus! {

broadcast use {vstd::std_specs::vec::group_vec_axioms, vstd::seq_lib::group_seq_properties};

/// One move of the automaton on input `s`: from the pair `u` of (state,
/// input offset) to the pair `v`, either along an epsilon edge that leaves
/// the offset alone, or along an edge consuming the character at the offset.
pub open spec fn step(t: TransModel, s: Seq<char>, u: (int, int), v: (int, int)) -> bool {
    ||| (v.1 == u.1 && eps_edge(t, u.0, v.0))
    ||| (0 <= u.1 < s.len() && v.1 == u.1 + 1 && consuming_edge(t, u.0, s[u.1], v.0))
}

/// A non-empty sequence of (state, offset) pairs, each following from the
/// previous by one move.
pub open spec fn is_path(t: TransModel, s: Seq<char>, p: Seq<(int, int)>) -> bool {
    p.len() >= 1 && (forall|k: int| 0 <= k < p.len() - 1 ==> step(t, s, #[trigger] p[k], p[k + 1]))
}

/// Some path leads from `u` to `v`.
pub open spec fn reaches(t: TransModel, s: Seq<char>, u: (int, int), v: (int, int)) -> bool {
    exists|p: Seq<(int, int)>| is_path(t, s, p) && p.first() == u && p.last() == v
}

/// The automaton accepts `s`: from the start state with nothing consumed,
/// some path reaches the finish state with the whole input consumed.
pub open spec fn accepts(t: TransModel, finish: int, s: Seq<char>) -> bool {
    reaches(t, s, (0int, 0int), (finish, s.len() as int))
}

/// Every pair reaches itself, by the one-element path.
pub proof fn lemma_reaches_self(t: TransModel, s: Seq<char>, a: (int, int))
    ensures
        reaches(t, s, a, a),
{
    let p = seq![a];
    assert(is_path(t, s, p) && p.first() == a && p.last() == a);
}

/// Reachability extends along one further move.
pub proof fn lemma_reaches_step(t: TransModel, s: Seq<char>, a: (int, int), b: (int, int), c: (
    int,
    int,
))
    requires
        reaches(t, s, a, b),
        step(t, s, b, c),
    ensures
        reaches(t, s, a, c),
{
    let p = choose|p: Seq<(int, int)>| is_path(t, s, p) && p.first() == a && p.last() == b;
    let p2 = p.push(c);
    assert forall|k: int| 0 <= k < p2.len() - 1 implies step(t, s, #[trigger] p2[k], p2[k + 1]) by {
        if k < p.len() - 1 {
            assert(step(t, s, p[k], p[k + 1]));
        } else {
            assert(p2[k] == p.last() && p2[k + 1] == c);
        }
    }
    assert(is_path(t, s, p2) && p2.first() == a && p2.last() == c);
}

/// The integer image of a machine-word (state, offset) pair.
pub open spec fn lift(q: (usize, usize)) -> (int, int) {
    (q.0 as int, q.1 as int)
}

/// The pair `u` occurs in `v`, up to lifting.
pub open spec fn lifted_in(v: Seq<(usize, usize)>, u: (int, int)) -> bool {
    exists|k: int| 0 <= k < v.len() && lift(#[trigger] v[k]) == u
}

/// A path starting inside a set of pairs that is closed under single moves
/// never leaves that set.
proof fn lemma_path_confined(
    t: TransModel,
    s: Seq<char>,
    p: Seq<(int, int)>,
    vset: Seq<(usize, usize)>,
)
    requires
        is_path(t, s, p),
        lifted_in(vset, p.first()),
        forall|j: int, v: (int, int)|
            #![trigger step(t, s, lift(vset[j]), v)]
            0 <= j < vset.len() && step(t, s, lift(vset[j]), v) ==> lifted_in(vset, v),
    ensures
        forall|k: int| 0 <= k < p.len() ==> lifted_in(vset, #[trigger] p[k]),
    decreases p.len(),
{
    if p.len() > 1 {
        assert(step(t, s, p[0], p[1]));
        let j = choose|j: int| 0 <= j < vset.len() && lift(vset[j]) == p[0];
        assert(step(t, s, lift(vset[j]), p[1]));
        assert(lifted_in(vset, p[1]));
        let q = p.subrange(1, p.len() as int);
        assert(is_path(t, s, q)) by {
            assert(forall|k: int|
                0 <= k < q.len() - 1 ==> #[trigger] q[k] == p[k + 1] && q[k + 1] == p[k + 2]);
        }
        lemma_path_confined(t, s, q, vset);
        assert forall|k: int| 0 <= k < p.len() implies lifted_in(vset, #[trigger] p[k]) by {
            if k > 0 {
                assert(p[k] == q[k - 1]);
            }
        }
    }
}

/// The key a (state, offset) pair gets in the bookkeeping of the matcher's
/// visited set, for inputs of length `n`.
spec fn pair_key(n: int, q: (usize, usize)) -> int {
    q.0 * (n + 1) + q.1
}

/// Distinct pairs with offsets bounded by `n` get distinct keys.
proof fn lemma_pair_key_injective(n: int, a: (usize, usize), b: (usize, usize))
    requires
        n >= 0,
        a.1 <= n,
        b.1 <= n,
        pair_key(n, a) == pair_key(n, b),
    ensures
        a == b,
{
    assert(a.0 == b.0 && a.1 == b.1) by (nonlinear_arith)
        requires
            n >= 0,
            0 <= a.1 <= n,
            0 <= b.1 <= n,
            a.0 >= 0,
            b.0 >= 0,
            a.0 * (n + 1) + a.1 == b.0 * (n + 1) + b.1,
    ;
    assert(a == b);
}

/// Keys of bounded pairs lie below `(m + 1) * (n + 1)`.
proof fn lemma_pair_key_range(n: int, m: int, q: (usize, usize))
    requires
        n >= 0,
        m >= 0,
        q.0 <= m,
        q.1 <= n,
    ensures
        0 <= pair_key(n, q) < (m + 1) * (n + 1),
{
    assert(0 <= q.0 * (n + 1) + q.1 < (m + 1) * (n + 1)) by (nonlinear_arith)
        requires
            n >= 0,
            m >= 0,
            0 <= q.0 <= m,
            0 <= q.1 <= n,
    ;
}

/// Whether `v` holds exactly the pair `q`.
fn contains_pair(v: &Vec<(usize, usize)>, q: (usize, usize)) -> (r: bool)
    ensures
        r == v@.contains(q),
{
    let mut k: usize = 0;
    while k < v.len()
        invariant
            0 <= k <= v@.len(),
            forall|m: int| 0 <= m < k ==> v@[m] != q,
        decreases v@.len() - k,
    {
        if v[k].0 == q.0 && v[k].1 == q.1 {
            proof {
                assert(v@[k as int] == q);
            }
            return true;
        }
        k += 1;
    }
    false
}

impl Transition {
    /// An upper bound on the target state of every edge of the table.
    fn max_target(&self) -> (r: usize)
        ensures
            forall|k: int| 0 <= k < self@.base.len() ==> (#[trigger] self@.base[k]).2 <= r,
            forall|k: int| 0 <= k < self@.negated.len() ==> (#[trigger] self@.negated[k]).2 <= r,
    {
        let mut r: usize = 0;
        let mut k: usize = 0;
        while k < self.base.len()
            invariant
                0 <= k <= self.base@.len(),
                forall|m: int| 0 <= m < k ==> (#[trigger] self@.base[m]).2 <= r,
            decreases self.base@.len() - k,
        {
            let to = self.base[k].2;
            if to > r {
                r = to;
            }
            proof {
                assert(self@.base[k as int].2 == self.base@[k as int].2 as int);
            }
            k += 1;
        }
        let mut k2: usize = 0;
        while k2 < self.negated.len()
            invariant
                0 <= k2 <= self.negated@.len(),
                forall|m: int| 0 <= m < self@.base.len() ==> (#[trigger] self@.base[m]).2 <= r,
                forall|m: int| 0 <= m < k2 ==> (#[trigger] self@.negated[m]).2 <= r,
            decreases self.negated@.len() - k2,
        {
            let to = self.negated[k2].2;
            if to > r {
                r = to;
            }
            proof {
                assert(self@.negated[k2 as int].2 == self.negated@[k2 as int].2 as int);
            }
            k2 += 1;
        }
        r
    }
}

/// Why an engine could not be built from a pattern string.
#[derive(Debug, PartialEq, Eq, Structural, Clone, Copy)]
pub enum EngineError {
    /// The pattern string is malformed.
    Syntax(SyntaxError),
    /// The pattern tree could not be lowered; unreachable through `Engine::new`,
    /// short of a tree too wide for the machine's state numbers.
    Compile(CompileError),
}

/// A compiled pattern, ready to answer whole-string membership queries.
#[derive(Debug)]
pub struct Engine {
    pub transitions: Transition,
    pub finish_state: State,
}

impl Engine {
    /// Compiles the pattern string into an automaton rooted at state 0, or
    /// reports why it cannot be: the parse error for a malformed pattern, and
    /// the lowering error for a tree too wide for the machine.
    pub fn new(pattern: &str) -> (r: Result<Engine, EngineError>)
        ensures
            match spec_parse(pattern@) {
                Err(e) => r matches Err(e2) && e2 == EngineError::Syntax(e),
                Ok(p) => match spec_compile(p, 0, 1) {
                    Err(ce) => r matches Err(e2) && e2 == EngineError::Compile(ce),
                    Ok((t, end)) => r matches Ok(eng) && eng.transitions@ == t
                        && eng.finish_state as int == end,
                },
            },
    {
        let pattern = match Parser::parse(pattern) {
            Err(e) => {
                return Err(EngineError::Syntax(e));
            },
            Ok(p) => p,
        };
        let (transitions, finish_state) = match pattern.to_transition(0, 1) {
            Err(ce) => {
                return Err(EngineError::Compile(ce));
            },
            Ok(x) => x,
        };
        Ok(Engine { transitions, finish_state })
    }

    /// Whether the automaton accepts `s`: a depth-first search over
    /// (state, offset) pairs, with a visited set so that epsilon cycles are
    /// explored only once.
    #[verifier::loop_isolation(false)]
    #[verifier::rlimit(100)]
    pub fn is_match(&self, s: &str) -> (r: bool)
        ensures
            r == accepts(self.transitions@, self.finish_state as int, s@),
    {
        let chars = str_chars(s);
        let maxs = self.transitions.max_target();
        let ghost t = self.transitions@;
        let ghost n = chars@.len() as int;
        let ghost fin = self.finish_state as int;
        let ghost cap = (maxs + 1) * (n + 1);
        let mut stack: Vec<(usize, usize)> = Vec::new();
        stack.push((0, 0));
        let mut visited: Vec<(usize, usize)> = Vec::new();
        let ghost mut keys: Set<int> = Set::empty();
        proof {
            lemma_reaches_self(t, s@, (0int, 0int));
            assert(lift(stack@[0]) == (0int, 0int));
            assert(lifted_in(stack@, (0int, 0int)));
        }
        while stack.len() > 0
            invariant
                forall|j: int|
                    0 <= j < stack@.len() ==> (#[trigger] stack@[j]).0 <= maxs && stack@[j].1 <= n,
                forall|j: int|
                    0 <= j < visited@.len() ==> (#[trigger] visited@[j]).0 <= maxs
                        && visited@[j].1 <= n,
                forall|j: int|
                    0 <= j < stack@.len() ==> reaches(t, s@, (0int, 0int), lift(#[trigger] stack@[j])),
                forall|j: int|
                    0 <= j < visited@.len() ==> reaches(
                        t,
                        s@,
                        (0int, 0int),
                        lift(#[trigger] visited@[j]),
                    ),
                forall|j: int, v: (int, int)|
                    #![trigger step(t, s@, lift(visited@[j]), v)]
                    0 <= j < visited@.len() && step(t, s@, lift(visited@[j]), v)
                        ==> lifted_in(visited@, v) || lifted_in(stack@, v),
                forall|j: int|
                    0 <= j < visited@.len() ==> !((#[trigger] visited@[j]).0 == fin
                        && visited@[j].1 == n),
                lifted_in(visited@, (0int, 0int)) || lifted_in(stack@, (0int, 0int)),
                keys.finite(),
                keys.len() == visited@.len(),
                forall|j: int|
                    0 <= j < visited@.len() ==> keys.contains(pair_key(n, #[trigger] visited@[j])),
                forall|key: int|
                    keys.contains(key) ==> exists|j: int|
                        0 <= j < visited@.len() && pair_key(n, #[trigger] visited@[j]) == key,
                cap - visited@.len() >= 0,
            decreases cap - visited@.len(), stack@.len(),
        {
            let ghost pre_stack = stack@;
            let top = stack.pop();
            let (st, i) = match top {
                Some(q) => q,
                None => {
                    proof {
                        assert(false);
                    }
                    (0, 0)
                },
            };
            let ghost prev_stack = stack@;
            proof {
                assert(pre_stack =~= prev_stack.push((st, i)));
            }
            if st == self.finish_state && i >= chars.len() {
                proof {
                    assert(lift((st, i)) == (fin, n));
                }
                return true;
            }
            if !contains_pair(&visited, (st, i)) {
                let ghost visited0 = visited@;
                visited.push((st, i));
                proof {
                    // The key of the fresh pair is new, so the visited set
                    // stays within its capacity.
                    assert forall|key: int| keys.insert(pair_key(n, (st, i))).contains(key)
                        implies vstd::set_lib::set_int_range(0, cap).contains(key) by {
                        if keys.contains(key) {
                            let j = choose|j: int|
                                0 <= j < visited0.len() && pair_key(n, visited0[j]) == key;
                            lemma_pair_key_range(n, maxs as int, visited0[j]);
                        } else {
                            lemma_pair_key_range(n, maxs as int, (st, i));
                        }
                    }
                    if keys.contains(pair_key(n, (st, i))) {
                        let j = choose|j: int|
                            0 <= j < visited0.len() && pair_key(n, visited0[j]) == pair_key(
                                n,
                                (st, i),
                            );
                        lemma_pair_key_injective(n, visited0[j], (st, i));
                        assert(visited0.contains((st, i)));
                        assert(false);
                    }
                    vstd::set_lib::lemma_int_range(0, cap);
                    vstd::set_lib::lemma_len_subset(
                        keys.insert(pair_key(n, (st, i))),
                        vstd::set_lib::set_int_range(0, cap),
                    );
                    keys = keys.insert(pair_key(n, (st, i)));
                    assert forall|key: int| keys.contains(key) implies exists|j: int|
                        0 <= j < visited@.len() && pair_key(n, #[trigger] visited@[j]) == key by {
                        if key == pair_key(n, (st, i)) {
                            assert(visited@[visited@.len() - 1] == (st, i));
                            assert(pair_key(n, visited@[visited@.len() - 1]) == key);
                        } else {
                            let j = choose|j: int|
                                0 <= j < visited0.len() && pair_key(n, visited0[j]) == key;
                            assert(pair_key(n, visited@[j]) == key);
                        }
                    }
                }
                let copt: Option<&char>;
                let cur: char;
                if i < chars.len() {
                    cur = chars[i];
                    copt = Some(&cur);
                } else {
                    cur = ' ';
                    copt = None;
                }
                let mut succs = self.transitions.states_from(st, copt, i);
                let ghost succ_seq = succs@;
                stack.append(&mut succs);
                proof {
                    // Everything just pushed is one move away from the pair
                    // just visited, hence reachable and within bounds.
                    assert forall|j: int| 0 <= j < stack@.len() implies {
                        &&& (#[trigger] stack@[j]).0 <= maxs
                        &&& stack@[j].1 <= n
                        &&& reaches(t, s@, (0int, 0int), lift(stack@[j]))
                    } by {
                        if j < prev_stack.len() {
                            assert(stack@[j] == prev_stack[j]);
                        } else {
                            let q = stack@[j];
                            assert(succ_seq.contains(q));
                            assert(successor_within(
                                t,
                                st as int,
                                spec_opt_char(copt),
                                i as int,
                                q.0 as int,
                                q.1 as int,
                            ));
                            assert(step(t, s@, lift((st, i)), lift(q)));
                            lemma_reaches_step(t, s@, (0int, 0int), lift((st, i)), lift(q));
                        }
                    }
                    // The new visited pair's successors are all on the stack,
                    // and the old pairs' successors that pointed at the popped
                    // pair now point into the visited set.
                    assert forall|j: int, v: (int, int)|
                        #![trigger step(t, s@, lift(visited@[j]), v)]
                        0 <= j < visited@.len() && step(t, s@, lift(visited@[j]), v)
                        implies lifted_in(visited@, v) || lifted_in(stack@, v) by {
                        if j < visited0.len() {
                            assert(lifted_in(visited0, v) || lifted_in(pre_stack, v));
                            if lifted_in(visited0, v) {
                                let m = choose|m: int|
                                    0 <= m < visited0.len() && lift(visited0[m]) == v;
                                assert(lift(visited@[m]) == v);
                            } else {
                                let m = choose|m: int|
                                    0 <= m < pre_stack.len() && lift(pre_stack[m]) == v;
                                if m < prev_stack.len() {
                                    assert(lift(stack@[m]) == v);
                                } else {
                                    assert(v == lift((st, i)));
                                    assert(lift(visited@[visited@.len() - 1]) == v);
                                }
                            }
                        } else {
                            assert(visited@[j] == (st, i));
                            // v is a single move from (st, i): it is among the
                            // computed successors, hence on the stack.
                            if v.1 == i && eps_edge(t, st as int, v.0) {
                                let k = choose|k: int|
                                    0 <= k < t.base.len() && t.base[k] == (
                                        st as int,
                                        Option::<char>::None,
                                        v.0,
                                    );
                                assert(t.base[k]
                                    == (
                                    self.transitions.base@[k].0 as int,
                                    self.transitions.base@[k].1,
                                    self.transitions.base@[k].2 as int,
                                ));
                                let q = (self.transitions.base@[k].2, i);
                                assert(successor_within(
                                    t,
                                    st as int,
                                    spec_opt_char(copt),
                                    i as int,
                                    q.0 as int,
                                    q.1 as int,
                                ));
                                assert(succ_seq.contains(q));
                                let m = choose|m: int|
                                    0 <= m < succ_seq.len() && succ_seq[m] == q;
                                assert(lift(stack@[prev_stack.len() + m]) == v);
                            } else {
                                assert(0 <= i < s@.len() && v.1 == i + 1 && consuming_edge(
                                    t,
                                    st as int,
                                    s@[i as int],
                                    v.0,
                                ));
                                assert(spec_opt_char(copt) == Some(s@[i as int]));
                                let b = v.0;
                                assert(b >= 0 && b <= usize::MAX) by {
                                    if crate::types::char_edge(t, st as int, s@[i as int], b)
                                        || crate::types::char_edge(t, st as int, '.', b) {
                                        let k = choose|k: int|
                                            0 <= k < t.base.len() && (t.base[k] == (
                                                st as int,
                                                Option::Some(s@[i as int]),
                                                b,
                                            ) || t.base[k] == (st as int, Option::Some('.'), b));
                                        assert(t.base[k].2
                                            == self.transitions.base@[k].2 as int);
                                    } else {
                                        let k = choose|k: int|
                                            0 <= k < t.negated.len() && (#[trigger] t.negated[k]).0
                                                == st as int && t.negated[k].2 == b
                                                && !t.negated[k].1.contains(s@[i as int]);
                                        assert(t.negated[k].2
                                            == self.transitions.negated@[k].2 as int);
                                    }
                                }
                                let q = (b as usize, (i + 1) as usize);
                                assert(successor_within(
                                    t,
                                    st as int,
                                    spec_opt_char(copt),
                                    i as int,
                                    q.0 as int,
                                    q.1 as int,
                                ));
                                assert(succ_seq.contains(q));
                                let m = choose|m: int|
                                    0 <= m < succ_seq.len() && succ_seq[m] == q;
                                assert(lift(stack@[prev_stack.len() + m]) == v);
                            }
                        }
                    }
                    // The start pair stays covered.
                    if lifted_in(visited0, (0int, 0int)) {
                        let m = choose|m: int|
                            0 <= m < visited0.len() && lift(visited0[m]) == (0int, 0int);
                        assert(lift(visited@[m]) == (0int, 0int));
                    } else {
                        let m = choose|m: int|
                            0 <= m < pre_stack.len() && lift(pre_stack[m]) == (0int, 0int);
                        if m < prev_stack.len() {
                            assert(lift(stack@[m]) == (0int, 0int));
                        } else {
                            assert(lift(visited@[visited@.len() - 1]) == (0int, 0int));
                        }
                    }
                }
            } else {
                proof {
                    // The popped pair was already visited; anything that
                    // pointed at it on the stack is covered by the visited
                    // set itself.
                    assert forall|j: int, v: (int, int)|
                        #![trigger step(t, s@, lift(visited@[j]), v)]
                        0 <= j < visited@.len() && step(t, s@, lift(visited@[j]), v)
                        implies lifted_in(visited@, v) || lifted_in(stack@, v) by {
                        assert(lifted_in(visited@, v) || lifted_in(pre_stack, v));
                        if !lifted_in(visited@, v) {
                            let m = choose|m: int|
                                0 <= m < pre_stack.len() && lift(pre_stack[m]) == v;
                            if m < prev_stack.len() {
                                assert(lift(stack@[m]) == v);
                            } else {
                                assert(v == lift((st, i)));
                                let w = choose|w: int|
                                    0 <= w < visited@.len() && visited@[w] == (st, i);
                                assert(lift(visited@[w]) == v);
                            }
                        }
                    }
                    if !lifted_in(visited@, (0int, 0int)) {
                        let m = choose|m: int|
                            0 <= m < pre_stack.len() && lift(pre_stack[m]) == (0int, 0int);
                        if m < prev_stack.len() {
                            assert(lift(stack@[m]) == (0int, 0int));
                        } else {
                            assert((st, i) == (0usize, 0usize));
                            let w = choose|w: int|
                                0 <= w < visited@.len() && visited@[w] == (st, i);
                            assert(lift(visited@[w]) == (0int, 0int));
                        }
                    }
                }
            }
        }
        proof {
            // The stack is exhausted: the visited set contains the start pair
            // and is closed under moves, yet holds no accepting pair, so no
            // accepting path exists.
            if accepts(t, fin, s@) {
                let p = choose|p: Seq<(int, int)>|
                    is_path(t, s@, p) && p.first() == (0int, 0int) && p.last() == (
                        fin,
                        s@.len() as int,
                    );
                assert(lifted_in(visited@, (0int, 0int)));
                lemma_path_confined(t, s@, p, visited@);
                assert(lifted_in(visited@, p.last()));
                let j = choose|j: int|
                    0 <= j < visited@.len() && lift(visited@[j]) == (fin, s@.len() as int);
                assert(false);
            }
        }
        false
    }
}

} // verus!
