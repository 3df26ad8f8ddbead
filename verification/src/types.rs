//! Data model of the engine: the pattern tree produced by the parser, the
//! transition table produced by the compiler, and the ghost models of both.
use vstd::prelude::*;
use vstd::string::StrSliceExecFns;

verus! {

broadcast use {vstd::std_specs::vec::group_vec_axioms, vstd::seq_lib::group_seq_properties};

/// States of the automaton are plain integers; state 0 is always the start.
pub type State = usize;

/// An operator of the parser's operator stack.
#[derive(Debug, PartialEq, Eq, Structural, Clone, Copy)]
pub enum Op {
    And,
    Or,
    Paren,
}

/// The quantifier attached to every pattern node.
#[derive(Debug, PartialEq, Eq, Structural, Clone, Copy)]
pub enum Mod {
    One,
    ZeroOrOne,
    OneOrMore,
    Any,
    Range(usize, usize),
}

/// What `Mod::from` returns for each character.
pub open spec fn spec_mod_from(c: char) -> Option<Mod> {
    if c == '?' {
        Some(Mod::ZeroOrOne)
    } else if c == '+' {
        Some(Mod::OneOrMore)
    } else if c == '*' {
        Some(Mod::Any)
    } else {
        None
    }
}

impl Mod {
    /// The quantifier denoted by a single suffix character, if any.
    pub fn from(c: &char) -> (r: Option<Mod>)
        ensures
            r == spec_mod_from(*c),
    {
        match c {
            '?' => Some(Mod::ZeroOrOne),
            '+' => Some(Mod::OneOrMore),
            '*' => Some(Mod::Any),
            _ => None,
        }
    }
}

/// One node of the pattern tree.
#[derive(Debug, PartialEq)]
pub enum PatternSection {
    /// Concatenation of the children, in order.
    And(Vec<PatternSection>, Mod),
    /// Choice between the children.
    Or(Vec<PatternSection>, Mod),
    /// A single literal character; '.' is the wildcard.
    Char(char, Mod),
    /// An enumerated character class, negated when the flag is set.
    CharGroup(Vec<char>, Mod, bool),
}

/// Ghost counterpart of `PatternSection`, with mathematical sequences for
/// children so that specification functions can build and take apart trees.
pub enum PatternModel {
    And(Seq<PatternModel>, Mod),
    Or(Seq<PatternModel>, Mod),
    Char(char, Mod),
    CharGroup(Seq<char>, Mod, bool),
}

impl PatternSection {
    /// The ghost tree this node stands for. The out-of-range branch of the
    /// closure is never observed; it only keeps the recursion well-founded.
    pub open spec fn model(&self) -> PatternModel
        decreases self,
    {
        match self {
            PatternSection::And(list, m) => PatternModel::And(
                Seq::new(
                    list@.len(),
                    |i: int|
                        if 0 <= i < list@.len() {
                            list[i].model()
                        } else {
                            PatternModel::Char(' ', Mod::One)
                        },
                ),
                *m,
            ),
            PatternSection::Or(list, m) => PatternModel::Or(
                Seq::new(
                    list@.len(),
                    |i: int|
                        if 0 <= i < list@.len() {
                            list[i].model()
                        } else {
                            PatternModel::Char(' ', Mod::One)
                        },
                ),
                *m,
            ),
            PatternSection::Char(c, m) => PatternModel::Char(*c, *m),
            PatternSection::CharGroup(cs, m, neg) => PatternModel::CharGroup(cs@, *m, *neg),
        }
    }
}

impl View for PatternSection {
    type V = PatternModel;

    open spec fn view(&self) -> PatternModel {
        self.model()
    }
}

/// The quantifier carried by a ghost pattern node.
pub open spec fn mod_of(p: PatternModel) -> Mod {
    match p {
        PatternModel::And(_, m) => m,
        PatternModel::Or(_, m) => m,
        PatternModel::Char(_, m) => m,
        PatternModel::CharGroup(_, m, _) => m,
    }
}

/// The compiled transition table. `base` holds one entry per edge
/// `(from, label, to)`; a `None` label is an epsilon edge, and the label '.'
/// is the wildcard, matched against any input character. `negated` holds one
/// entry per negated-class edge `(from, excluded characters, to)`, taken on
/// any character outside the excluded set.
#[derive(Debug, PartialEq)]
pub struct Transition {
    pub base: Vec<(State, Option<char>, State)>,
    pub negated: Vec<(State, Vec<char>, State)>,
}

/// Ghost counterpart of `Transition`.
pub struct TransModel {
    pub base: Seq<(int, Option<char>, int)>,
    pub negated: Seq<(int, Seq<char>, int)>,
}

impl View for Transition {
    type V = TransModel;

    open spec fn view(&self) -> TransModel {
        TransModel {
            base: self.base@.map_values(
                |e: (State, Option<char>, State)| (e.0 as int, e.1, e.2 as int),
            ),
            negated: self.negated@.map_values(
                |e: (State, Vec<char>, State)| (e.0 as int, e.1@, e.2 as int),
            ),
        }
    }
}

impl TransModel {
    /// The table with no edges at all.
    pub open spec fn empty() -> TransModel {
        TransModel { base: Seq::empty(), negated: Seq::empty() }
    }

    /// Both tables, the second appended after the first.
    pub open spec fn concat(self, other: TransModel) -> TransModel {
        TransModel { base: self.base + other.base, negated: self.negated + other.negated }
    }

    /// The table with one more base edge.
    pub open spec fn push_base(self, from: int, c: Option<char>, to: int) -> TransModel {
        TransModel { base: self.base.push((from, c, to)), negated: self.negated }
    }

    /// The table with one more negated-class edge.
    pub open spec fn push_negated(self, from: int, not_chars: Seq<char>, to: int) -> TransModel {
        TransModel { base: self.base, negated: self.negated.push((from, not_chars, to)) }
    }
}

/// The characters of `s`, in order.
pub(crate) fn str_chars(s: &str) -> (r: Vec<char>)
    ensures
        r@ == s@,
{
    let len = s.unicode_len();
    let mut out: Vec<char> = Vec::new();
    let mut i: usize = 0;
    while i < len
        invariant
            len == s@.len(),
            0 <= i <= len,
            out@ =~= s@.take(i as int),
        decreases len - i,
    {
        let c = s.get_char(i);
        out.push(c);
        proof {
            assert(out@ =~= s@.take(i + 1));
        }
        i += 1;
    }
    proof {
        assert(out@ =~= s@);
    }
    out
}

/// Why compilation of a pattern tree failed. Trees built by the parser never
/// trip either case: `InvalidRange` needs a repetition bound violating
/// `1 <= max` or `min <= max`, and `TooManyStates` a tree wide enough to
/// exhaust the machine's state numbers.
#[derive(Debug, PartialEq, Eq, Structural, Clone, Copy)]
pub enum CompileError {
    InvalidRange,
    TooManyStates,
}

/// The ghost trees of a list of pattern nodes. The out-of-range branch is
/// never observed.
pub open spec fn models_of(list: Seq<PatternSection>) -> Seq<PatternModel> {
    Seq::new(
        list.len(),
        |i: int|
            if 0 <= i < list.len() {
                list[i]@
            } else {
                PatternModel::Char(' ', Mod::One)
            },
    )
}

/// A sequence of machine state numbers as mathematical integers.
pub open spec fn ints_of(s: Seq<usize>) -> Seq<int> {
    s.map_values(|x: usize| x as int)
}

/// The table `t` with one epsilon edge to `end` appended for every state in
/// `skips`, in order.
pub open spec fn add_skips(t: TransModel, skips: Seq<int>, end: int) -> TransModel {
    TransModel {
        base: t.base + skips.map_values(|s: int| (s, Option::<char>::None, end)),
        negated: t.negated,
    }
}

/// What compiling `p` from entry state `start` with numbering hint `next`
/// produces: the quantifier-free lowering of the node followed by the extra
/// edges its quantifier asks for. State numbers are handed out by
/// incrementing counters, exactly as the executable compiler does, and
/// compilation fails only on a malformed repetition range or when a fresh
/// state number would not fit in the machine's state type.
pub open spec fn spec_compile(p: PatternModel, start: int, next: int) -> Result<
    (TransModel, int),
    CompileError,
>
    decreases p, 4int, 0int,
{
    match spec_compile_base(p, start, next) {
        Err(e) => Err(e),
        Ok((t, end0)) => match mod_of(p) {
            Mod::One => Ok((t, end0)),
            Mod::ZeroOrOne => Ok((t.push_base(start, None, end0), end0)),
            Mod::OneOrMore => Ok((t.push_base(end0, None, start), end0)),
            Mod::Any => if end0 == usize::MAX {
                Err(CompileError::TooManyStates)
            } else {
                Ok((t.push_base(end0, None, start).push_base(start, None, end0 + 1), end0 + 1))
            },
            Mod::Range(mn, mx) => if mx < 1 || mn > mx {
                Err(CompileError::InvalidRange)
            } else {
                let skips = if mn == 0 {
                    seq![start]
                } else {
                    Seq::<int>::empty()
                };
                match spec_range_reps(p, t, end0, 1, mn as int, mx as int, skips) {
                    Err(e) => Err(e),
                    Ok((t2, end2, skips2)) => Ok((add_skips(t2, skips2, end2), end2)),
                }
            },
        },
    }
}

/// Repetitions 1 up to `mx - 1` of the quantifier-free lowering of `p`,
/// chained end to start, collecting the states from which the remaining
/// repetitions may be skipped.
pub open spec fn spec_range_reps(
    p: PatternModel,
    t: TransModel,
    end: int,
    i: int,
    mn: int,
    mx: int,
    skips: Seq<int>,
) -> Result<(TransModel, int, Seq<int>), CompileError>
    decreases p, 3int, (if i < mx {
        mx - i
    } else {
        0
    }),
{
    if i >= mx {
        Ok((t, end, skips))
    } else {
        let skips1 = if i >= mn {
            skips.push(end)
        } else {
            skips
        };
        if end == usize::MAX {
            Err(CompileError::TooManyStates)
        } else {
            match spec_compile_base(p, end, end + 1) {
                Err(e) => Err(e),
                Ok((t2, end2)) => spec_range_reps(p, t.concat(t2), end2, i + 1, mn, mx, skips1),
            }
        }
    }
}

/// The quantifier-free lowering of one node.
pub open spec fn spec_compile_base(p: PatternModel, start: int, next: int) -> Result<
    (TransModel, int),
    CompileError,
>
    decreases p, 2int, 0int,
{
    match p {
        PatternModel::And(list, _) => spec_compile_and(
            list,
            0,
            TransModel::empty(),
            start,
            next,
        ),
        PatternModel::Or(list, _) => spec_compile_or(
            list,
            0,
            TransModel::empty(),
            start,
            start,
            next,
            Seq::empty(),
        ),
        PatternModel::Char(c, _) => Ok(
            (TransModel::empty().push_base(start, Some(c), next), next),
        ),
        PatternModel::CharGroup(cs, _, neg) => if neg {
            Ok((TransModel::empty().push_negated(start, cs, next), next))
        } else {
            Ok(
                (
                    TransModel {
                        base: cs.map_values(|c: char| (start, Option::Some(c), next)),
                        negated: Seq::empty(),
                    },
                    next,
                ),
            )
        },
    }
}

/// Concatenation: lowers the children left to right, threading each child's
/// end state into the next child's start.
pub open spec fn spec_compile_and(
    list: Seq<PatternModel>,
    idx: int,
    acc: TransModel,
    end: int,
    next: int,
) -> Result<(TransModel, int), CompileError>
    decreases list, 9int, (if idx < list.len() {
        list.len() - idx
    } else {
        0
    }),
{
    if idx < 0 || idx >= list.len() {
        Ok((acc, end))
    } else if idx > 0 && end == usize::MAX {
        Err(CompileError::TooManyStates)
    } else {
        let cn = if idx == 0 {
            next
        } else {
            end + 1
        };
        match spec_compile(list[idx], end, cn) {
            Err(e) => Err(e),
            Ok((t, e2)) => spec_compile_and(list, idx + 1, acc.concat(t), e2, next),
        }
    }
}

/// Alternation: lowers every child from the same start state, then joins all
/// their end states with epsilon edges into one fresh state.
pub open spec fn spec_compile_or(
    list: Seq<PatternModel>,
    idx: int,
    acc: TransModel,
    start: int,
    latest: int,
    next: int,
    ends: Seq<int>,
) -> Result<(TransModel, int), CompileError>
    decreases list, 9int, (if idx < list.len() {
        list.len() - idx
    } else {
        0
    }),
{
    if idx < 0 || idx >= list.len() {
        if latest == usize::MAX {
            Err(CompileError::TooManyStates)
        } else {
            Ok(
                (
                    TransModel {
                        base: acc.base + ends.map_values(
                            |e: int| (e, Option::<char>::None, latest + 1),
                        ),
                        negated: acc.negated,
                    },
                    latest + 1,
                ),
            )
        }
    } else if idx > 0 && latest == usize::MAX {
        Err(CompileError::TooManyStates)
    } else {
        let cn = if idx == 0 {
            next
        } else {
            latest + 1
        };
        match spec_compile(list[idx], start, cn) {
            Err(e) => Err(e),
            Ok((t, e2)) => spec_compile_or(
                list,
                idx + 1,
                acc.concat(t),
                start,
                e2,
                next,
                ends.push(e2),
            ),
        }
    }
}

/// The executable compiler returns what the ghost compiler says, value for
/// value.
pub open spec fn compile_matches(
    m: Result<(TransModel, int), CompileError>,
    r: Result<(Transition, State), CompileError>,
) -> bool {
    match m {
        Ok((t, e)) => r matches Ok(rr) && rr.0@ == t && rr.1 as int == e,
        Err(er) => r matches Err(re) && re == er,
    }
}

/// There is an epsilon edge `a --> b`: one taken without consuming input.
pub open spec fn eps_edge(t: TransModel, a: int, b: int) -> bool {
    exists|k: int| 0 <= k < t.base.len() && t.base[k] == (a, Option::<char>::None, b)
}

/// There is a base edge `a --c--> b` labelled with exactly the character `c`.
pub open spec fn char_edge(t: TransModel, a: int, c: char, b: int) -> bool {
    exists|k: int| 0 <= k < t.base.len() && t.base[k] == (a, Option::Some(c), b)
}

/// There is a negated-class edge from `a` to `b` whose exclusion set does not
/// contain `c`.
pub open spec fn negated_edge(t: TransModel, a: int, c: char, b: int) -> bool {
    exists|k: int|
        0 <= k < t.negated.len() && (#[trigger] t.negated[k]).0 == a && t.negated[k].2 == b
            && !t.negated[k].1.contains(c)
}

/// Some edge from `a` to `b` consumes the input character `c`: a base edge
/// labelled `c` itself, a wildcard edge, or a negated-class edge excluding
/// everything but `c`.
pub open spec fn consuming_edge(t: TransModel, a: int, c: char, b: int) -> bool {
    char_edge(t, a, c, b) || char_edge(t, a, '.', b) || negated_edge(t, a, c, b)
}

/// The plain value of an optional borrowed character.
pub open spec fn spec_opt_char(c: Option<&char>) -> Option<char> {
    match c {
        Some(x) => Some(*x),
        None => None,
    }
}

/// The pair `(b, j)` is reached from state `a` at input offset `i` in one
/// move, when the character under the cursor is `c` (`None` at end of input):
/// either an epsilon edge leaving the offset alone, or a consuming edge
/// advancing it by one.
pub open spec fn successor_within(
    t: TransModel,
    a: int,
    c: Option<char>,
    i: int,
    b: int,
    j: int,
) -> bool {
    ||| (j == i && eps_edge(t, a, b))
    ||| (c matches Some(ch) && j == i + 1 && consuming_edge(t, a, ch, b))
}

/// Whether `v` holds the character `c`.
fn char_in(v: &Vec<char>, c: char) -> (r: bool)
    ensures
        r == v@.contains(c),
{
    let mut k: usize = 0;
    while k < v.len()
        invariant
            0 <= k <= v@.len(),
            forall|m: int| 0 <= m < k ==> v@[m] != c,
        decreases v@.len() - k,
    {
        if v[k] == c {
            return true;
        }
        k += 1;
    }
    false
}

impl Transition {
    /// An empty transition table.
    pub fn new() -> (r: Transition)
        ensures
            r@ == TransModel::empty(),
    {
        let r = Transition { base: Vec::new(), negated: Vec::new() };
        proof {
            assert(r@.base =~= TransModel::empty().base);
            assert(r@.negated =~= TransModel::empty().negated);
            assert(r@ =~= TransModel::empty());
        }
        r
    }

    /// Appends every edge of `other` after the edges already present.
    pub fn merge(&mut self, other: Transition)
        ensures
            final(self)@ == old(self)@.concat(other@),
    {
        let ghost joined = old(self)@.concat(other@);
        let mut other = other;
        self.base.append(&mut other.base);
        self.negated.append(&mut other.negated);
        proof {
            assert(final(self)@.base =~= joined.base);
            assert(final(self)@.negated =~= joined.negated);
            assert(final(self)@ =~= joined);
        }
    }

    /// Adds the base edge `k.0 --k.1--> v`.
    pub fn insert_base(&mut self, k: (State, Option<char>), v: State)
        ensures
            final(self)@ == old(self)@.push_base(k.0 as int, k.1, v as int),
    {
        self.base.push((k.0, k.1, v));
        proof {
            assert(final(self)@.base =~= old(self)@.push_base(k.0 as int, k.1, v as int).base);
            assert(final(self)@ =~= old(self)@.push_base(k.0 as int, k.1, v as int));
        }
    }

    /// All pairs `(target state, new offset)` reachable in one move from
    /// `state` at input offset `i`, when the character under the cursor is
    /// `c` (`None` at end of input): consuming edges advance the offset,
    /// epsilon edges keep it.
    pub fn states_from(&self, state: State, c: Option<&char>, i: usize) -> (r: Vec<(State, usize)>)
        requires
            c is Some ==> i < usize::MAX,
        ensures
            forall|q: (State, usize)| #[trigger]
                r@.contains(q) <==> successor_within(
                    self@,
                    state as int,
                    spec_opt_char(c),
                    i as int,
                    q.0 as int,
                    q.1 as int,
                ),
    {
        let mut out: Vec<(State, usize)> = Vec::new();
        let mut k: usize = 0;
        while k < self.base.len()
            invariant
                c is Some ==> i < usize::MAX,
                0 <= k <= self.base@.len(),
                forall|q: (State, usize)| #[trigger]
                    out@.contains(q) ==> successor_within(
                        self@,
                        state as int,
                        spec_opt_char(c),
                        i as int,
                        q.0 as int,
                        q.1 as int,
                    ),
                forall|k2: int|
                    0 <= k2 < k ==> {
                        let e = #[trigger] self.base@[k2];
                        &&& (e.0 == state && e.1 is None ==> out@.contains((e.2, i)))
                        &&& (e.0 == state && (match spec_opt_char(c) {
                            Some(cc) => e.1 == Some(cc) || e.1 == Some('.'),
                            None => false,
                        }) ==> out@.contains((e.2, (i + 1) as usize)))
                    },
            decreases self.base@.len() - k,
        {
            let e = self.base[k];
            proof {
                assert(self@.base[k as int] == (e.0 as int, e.1, e.2 as int));
            }
            if e.0 == state {
                match e.1 {
                    Some(ec) => {
                        if let Some(cc) = c {
                            if ec == *cc || ec == '.' {
                                out.push((e.2, i + 1));
                            }
                        }
                    },
                    None => {
                        out.push((e.2, i));
                    },
                }
            }
            k += 1;
        }
        if let Some(cc) = c {
            let mut k2: usize = 0;
            while k2 < self.negated.len()
                invariant
                    i < usize::MAX,
                    c == Some(cc),
                    0 <= k2 <= self.negated@.len(),
                    forall|q: (State, usize)| #[trigger]
                        out@.contains(q) ==> successor_within(
                            self@,
                            state as int,
                            spec_opt_char(c),
                            i as int,
                            q.0 as int,
                            q.1 as int,
                        ),
                    forall|m: int|
                        0 <= m < self.base@.len() ==> {
                            let e = #[trigger] self.base@[m];
                            &&& (e.0 == state && e.1 is None ==> out@.contains((e.2, i)))
                            &&& (e.0 == state && (e.1 == Some(*cc) || e.1 == Some('.'))
                                ==> out@.contains((e.2, (i + 1) as usize)))
                        },
                    forall|m: int|
                        0 <= m < k2 ==> {
                            let e = #[trigger] self.negated@[m];
                            (e.0 == state && !e.1@.contains(*cc) ==> out@.contains(
                                (e.2, (i + 1) as usize),
                            ))
                        },
                decreases self.negated@.len() - k2,
            {
                proof {
                    assert(self@.negated[k2 as int] == (
                        self.negated@[k2 as int].0 as int,
                        self.negated@[k2 as int].1@,
                        self.negated@[k2 as int].2 as int,
                    ));
                }
                let from = self.negated[k2].0;
                if from == state {
                    let excluded = char_in(&self.negated[k2].1, *cc);
                    if !excluded {
                        let to = self.negated[k2].2;
                        out.push((to, i + 1));
                    }
                }
                k2 += 1;
            }
        }
        proof {
            assert forall|q: (State, usize)|
                successor_within(
                    self@,
                    state as int,
                    spec_opt_char(c),
                    i as int,
                    q.0 as int,
                    q.1 as int,
                ) implies #[trigger] out@.contains(q) by {
                if q.1 == i && eps_edge(self@, state as int, q.0 as int) {
                    let k = choose|k: int|
                        0 <= k < self@.base.len() && self@.base[k] == (
                            state as int,
                            Option::<char>::None,
                            q.0 as int,
                        );
                    assert(self@.base[k] == (
                        self.base@[k].0 as int,
                        self.base@[k].1,
                        self.base@[k].2 as int,
                    ));
                    assert(self.base@[k].0 == state && self.base@[k].1 is None
                        && self.base@[k].2 == q.0);
                } else {
                    let cc = spec_opt_char(c)->Some_0;
                    if char_edge(self@, state as int, cc, q.0 as int) || char_edge(
                        self@,
                        state as int,
                        '.',
                        q.0 as int,
                    ) {
                        let k = choose|k: int|
                            0 <= k < self@.base.len() && (self@.base[k] == (
                                state as int,
                                Option::Some(cc),
                                q.0 as int,
                            ) || self@.base[k] == (state as int, Option::Some('.'), q.0 as int));
                        assert(self@.base[k] == (
                            self.base@[k].0 as int,
                            self.base@[k].1,
                            self.base@[k].2 as int,
                        ));
                        assert(self.base@[k].2 == q.0);
                    } else {
                        let k = choose|k: int|
                            0 <= k < self@.negated.len() && (#[trigger] self@.negated[k]).0
                                == state as int && self@.negated[k].2 == q.0 as int
                                && !self@.negated[k].1.contains(cc);
                        assert(self@.negated[k] == (
                            self.negated@[k].0 as int,
                            self.negated@[k].1@,
                            self.negated@[k].2 as int,
                        ));
                        assert(self.negated@[k].2 == q.0);
                    }
                }
            }
        }
        out
    }

    /// Adds the negated-class edge `state --[^not_chars]--> to`.
    pub fn insert_negated(&mut self, state: State, not_chars: Vec<char>, to: State)
        ensures
            final(self)@ == old(self)@.push_negated(state as int, not_chars@, to as int),
    {
        self.negated.push((state, not_chars, to));
        proof {
            assert(final(self)@.negated =~= old(self)@.push_negated(
                state as int,
                not_chars@,
                to as int,
            ).negated);
            assert(final(self)@ =~= old(self)@.push_negated(state as int, not_chars@, to as int));
        }
    }
}

impl PatternSection {
    /// The quantifier of this node.
    fn get_mod(&self) -> (r: &Mod)
        ensures
            *r == mod_of(self@),
    {
        match self {
            PatternSection::And(_, m) => m,
            PatternSection::Or(_, m) => m,
            PatternSection::Char(_, m) => m,
            PatternSection::CharGroup(_, m, _) => m,
        }
    }

    /// One base edge `start --c--> next`.
    fn to_transition_char(&self, c: char, start: State, next: State) -> (r: Result<
        (Transition, State),
        CompileError,
    >)
        ensures
            r matches Ok(rr) && rr.0@ == TransModel::empty().push_base(
                start as int,
                Option::Some(c),
                next as int,
            ) && rr.1 == next,
    {
        let mut out = Transition::new();
        out.insert_base((start, Some(c)), next);
        Ok((out, next))
    }

    /// One base edge per member character, or a single negated-class edge.
    #[verifier::loop_isolation(false)]
    fn to_transition_char_group(
        &self,
        chars: &Vec<char>,
        is_negated: bool,
        start: State,
        next: State,
    ) -> (r: Result<(Transition, State), CompileError>)
        ensures
            r matches Ok(rr) && rr.1 == next && rr.0@ == (if is_negated {
                TransModel::empty().push_negated(start as int, chars@, next as int)
            } else {
                TransModel {
                    base: chars@.map_values(
                        |c: char| (start as int, Option::Some(c), next as int),
                    ),
                    negated: Seq::empty(),
                }
            }),
    {
        let mut out = Transition::new();
        if is_negated {
            out.insert_negated(start, chars.clone(), next);
        } else {
            let ghost target = TransModel {
                base: chars@.map_values(|c: char| (start as int, Option::Some(c), next as int)),
                negated: Seq::<(int, Seq<char>, int)>::empty(),
            };
            let mut k: usize = 0;
            while k < chars.len()
                invariant
                    0 <= k <= chars@.len(),
                    out@.base =~= chars@.take(k as int).map_values(
                        |c: char| (start as int, Option::Some(c), next as int),
                    ),
                    out@.negated =~= Seq::<(int, Seq<char>, int)>::empty(),
                decreases chars@.len() - k,
            {
                out.insert_base((start, Some(chars[k])), next);
                proof {
                    assert(chars@.take(k + 1) =~= chars@.take(k as int).push(chars@[k as int]));
                    assert(out@.base =~= chars@.take(k + 1).map_values(
                        |c: char| (start as int, Option::Some(c), next as int),
                    ));
                }
                k += 1;
            }
            proof {
                assert(chars@.take(chars@.len() as int) =~= chars@);
                assert(out@ =~= target);
            }
        }
        Ok((out, next))
    }

    /// Lowers the children of a concatenation left to right.
    #[verifier::loop_isolation(false)]
    fn to_transition_and(&self, list: &Vec<PatternSection>, start: State, next: State) -> (r:
        Result<(Transition, State), CompileError>)
        ensures
            compile_matches(
                spec_compile_and(
                    models_of(list@),
                    0,
                    TransModel::empty(),
                    start as int,
                    next as int,
                ),
                r,
            ),
        decreases list, 9int,
    {
        let ghost goal = spec_compile_and(
            models_of(list@),
            0,
            TransModel::empty(),
            start as int,
            next as int,
        );
        let mut out = Transition::new();
        let mut end: State = start;
        let mut idx: usize = 0;
        while idx < list.len()
            invariant
                0 <= idx <= list@.len(),
                spec_compile_and(
                    models_of(list@),
                    idx as int,
                    out@,
                    end as int,
                    next as int,
                ) == goal,
            decreases list@.len() - idx,
        {
            let ghost out0 = out@;
            let ghost end0 = end as int;
            let cn: State;
            if idx == 0 {
                cn = next;
            } else {
                if end == usize::MAX {
                    return Err(CompileError::TooManyStates);
                }
                cn = end + 1;
            }
            let section = &list[idx];
            proof {
                assert(models_of(list@)[idx as int] == section@);
            }
            match section.to_transition(end, cn) {
                Err(e) => {
                    return Err(e);
                },
                Ok((states, new_end)) => {
                    out.merge(states);
                    end = new_end;
                },
            }
            idx += 1;
            proof {
                assert(spec_compile_and(models_of(list@), idx as int, out@, end as int, next as int)
                    == spec_compile_and(models_of(list@), idx - 1, out0, end0, next as int));
            }
        }
        Ok((out, end))
    }

    /// Lowers the children of an alternation from a shared start state, then
    /// joins their end states into one fresh state.
    #[verifier::loop_isolation(false)]
    fn to_transition_or(&self, list: &Vec<PatternSection>, start: State, next: State) -> (r: Result<
        (Transition, State),
        CompileError,
    >)
        ensures
            compile_matches(
                spec_compile_or(
                    models_of(list@),
                    0,
                    TransModel::empty(),
                    start as int,
                    start as int,
                    next as int,
                    Seq::empty(),
                ),
                r,
            ),
        decreases list, 9int,
    {
        let ghost goal = spec_compile_or(
            models_of(list@),
            0,
            TransModel::empty(),
            start as int,
            start as int,
            next as int,
            Seq::empty(),
        );
        let mut out = Transition::new();
        let mut latest: State = start;
        let mut ends: Vec<State> = Vec::new();
        let mut idx: usize = 0;
        while idx < list.len()
            invariant
                0 <= idx <= list@.len(),
                spec_compile_or(
                    models_of(list@),
                    idx as int,
                    out@,
                    start as int,
                    latest as int,
                    next as int,
                    ints_of(ends@),
                ) == goal,
            decreases list@.len() - idx,
        {
            let ghost out0 = out@;
            let ghost latest0 = latest as int;
            let ghost ends0 = ints_of(ends@);
            let cn: State;
            if idx == 0 {
                cn = next;
            } else {
                if latest == usize::MAX {
                    return Err(CompileError::TooManyStates);
                }
                cn = latest + 1;
            }
            proof {
                assert(models_of(list@)[idx as int] == list@[idx as int]@);
            }
            match list[idx].to_transition(start, cn) {
                Err(e) => {
                    return Err(e);
                },
                Ok((states, new_end)) => {
                    out.merge(states);
                    latest = new_end;
                    ends.push(new_end);
                },
            }
            idx += 1;
            proof {
                assert(ints_of(ends@) =~= ends0.push(latest as int));
                assert(spec_compile_or(
                    models_of(list@),
                    idx as int,
                    out@,
                    start as int,
                    latest as int,
                    next as int,
                    ints_of(ends@),
                ) == spec_compile_or(
                    models_of(list@),
                    idx - 1,
                    out0,
                    start as int,
                    latest0,
                    next as int,
                    ends0,
                ));
            }
        }
        if latest == usize::MAX {
            return Err(CompileError::TooManyStates);
        }
        let ghost t1 = out@;
        let join = latest + 1;
        let mut k: usize = 0;
        while k < ends.len()
            invariant
                0 <= k <= ends@.len(),
                join == latest as int + 1,
                out@.base =~= t1.base + ints_of(ends@.take(k as int)).map_values(
                    |e: int| (e, Option::<char>::None, join as int),
                ),
                out@.negated =~= t1.negated,
            decreases ends@.len() - k,
        {
            out.insert_base((ends[k], None), join);
            proof {
                assert(ends@.take(k + 1) =~= ends@.take(k as int).push(ends@[k as int]));
                assert(ints_of(ends@.take(k + 1)) =~= ints_of(ends@.take(k as int)).push(
                    ends@[k as int] as int,
                ));
                assert(out@.base =~= t1.base + ints_of(ends@.take(k + 1)).map_values(
                    |e: int| (e, Option::<char>::None, join as int),
                ));
            }
            k += 1;
        }
        proof {
            assert(ends@.take(ends@.len() as int) =~= ends@);
            assert(out@ =~= TransModel {
                base: t1.base + ints_of(ends@).map_values(
                    |e: int| (e, Option::<char>::None, latest as int + 1),
                ),
                negated: t1.negated,
            });
        }
        Ok((out, join))
    }

    /// The quantifier-free lowering of this node.
    fn to_transition_without_mod(&self, start: State, next: State) -> (r: Result<
        (Transition, State),
        CompileError,
    >)
        ensures
            compile_matches(spec_compile_base(self@, start as int, next as int), r),
        decreases self, 2int,
    {
        match self {
            PatternSection::And(list, _) => {
                let r = self.to_transition_and(list, start, next);
                proof {
                    assert(match self@ {
                        PatternModel::And(children, _) => children =~= models_of(list@),
                        _ => false,
                    });
                }
                r
            },
            PatternSection::Or(list, _) => {
                let r = self.to_transition_or(list, start, next);
                proof {
                    assert(match self@ {
                        PatternModel::Or(children, _) => children =~= models_of(list@),
                        _ => false,
                    });
                }
                r
            },
            PatternSection::Char(c, _) => self.to_transition_char(*c, start, next),
            PatternSection::CharGroup(cs, _, neg) => self.to_transition_char_group(
                cs,
                *neg,
                start,
                next,
            ),
        }
    }

    /// Lowers this node into a transition table: the quantifier-free lowering
    /// followed by the extra edges its quantifier asks for. Returns the table
    /// and the end state; state numbers are a pure function of the tree.
    #[verifier::loop_isolation(false)]
    pub fn to_transition(&self, start: State, next: State) -> (r: Result<
        (Transition, State),
        CompileError,
    >)
        ensures
            compile_matches(spec_compile(self@, start as int, next as int), r),
        decreases self, 4int,
    {
        let mut out = Transition::new();
        let (states, new_end) = match self.to_transition_without_mod(start, next) {
            Ok(x) => x,
            Err(e) => {
                return Err(e);
            },
        };
        out.merge(states);
        let ghost t0 = out@;
        let mut end = new_end;
        let m = *self.get_mod();
        match m {
            Mod::One => {},
            Mod::ZeroOrOne => {
                out.insert_base((start, None), end);
            },
            Mod::OneOrMore => {
                out.insert_base((end, None), start);
            },
            Mod::Any => {
                if end == usize::MAX {
                    return Err(CompileError::TooManyStates);
                }
                out.insert_base((end, None), start);
                out.insert_base((start, None), end + 1);
                end = end + 1;
            },
            Mod::Range(mn, mx) => {
                if mx < 1 || mn > mx {
                    return Err(CompileError::InvalidRange);
                }
                let mut skip_list: Vec<State> = Vec::new();
                if mn == 0 {
                    skip_list.push(start);
                }
                proof {
                    assert(ints_of(skip_list@) =~= (if mn == 0 {
                        seq![start as int]
                    } else {
                        Seq::<int>::empty()
                    }));
                }
                let ghost goal = spec_range_reps(
                    self@,
                    t0,
                    end as int,
                    1,
                    mn as int,
                    mx as int,
                    ints_of(skip_list@),
                );
                let mut i: usize = 1;
                while i < mx
                    invariant
                        1 <= i <= mx,
                        mx >= 1,
                        spec_range_reps(
                            self@,
                            out@,
                            end as int,
                            i as int,
                            mn as int,
                            mx as int,
                            ints_of(skip_list@),
                        ) == goal,
                    decreases mx - i,
                {
                    let ghost out0 = out@;
                    let ghost end0 = end as int;
                    let ghost skips0 = ints_of(skip_list@);
                    if i >= mn {
                        skip_list.push(end);
                        proof {
                            assert(ints_of(skip_list@) =~= skips0.push(end as int));
                        }
                    }
                    if end == usize::MAX {
                        return Err(CompileError::TooManyStates);
                    }
                    let (states, new_end) = match self.to_transition_without_mod(end, end + 1) {
                        Ok(x) => x,
                        Err(e) => {
                            return Err(e);
                        },
                    };
                    out.merge(states);
                    end = new_end;
                    i += 1;
                    proof {
                        assert(spec_range_reps(
                            self@,
                            out@,
                            end as int,
                            i as int,
                            mn as int,
                            mx as int,
                            ints_of(skip_list@),
                        ) == spec_range_reps(
                            self@,
                            out0,
                            end0,
                            i - 1,
                            mn as int,
                            mx as int,
                            skips0,
                        ));
                    }
                }
                let ghost t2 = out@;
                let mut k: usize = 0;
                while k < skip_list.len()
                    invariant
                        0 <= k <= skip_list@.len(),
                        out@.base =~= t2.base + ints_of(skip_list@.take(k as int)).map_values(
                            |s: int| (s, Option::<char>::None, end as int),
                        ),
                        out@.negated =~= t2.negated,
                    decreases skip_list@.len() - k,
                {
                    out.insert_base((skip_list[k], None), end);
                    proof {
                        assert(skip_list@.take(k + 1) =~= skip_list@.take(k as int).push(
                            skip_list@[k as int],
                        ));
                        assert(ints_of(skip_list@.take(k + 1)) =~= ints_of(
                            skip_list@.take(k as int),
                        ).push(skip_list@[k as int] as int));
                        assert(out@.base =~= t2.base + ints_of(skip_list@.take(k + 1)).map_values(
                            |s: int| (s, Option::<char>::None, end as int),
                        ));
                    }
                    k += 1;
                }
                proof {
                    assert(skip_list@.take(skip_list@.len() as int) =~= skip_list@);
                    assert(out@ =~= add_skips(t2, ints_of(skip_list@), end as int));
                }
            },
        }
        Ok((out, end))
    }
}

} // verus!
