//! The automaton, its mathematical model, and the acceptance check.

use vstd::prelude::*;
use crate::text::{chars_of, clean_line, copy_range, is_space, is_word, same_chars, views};

verus! {

/// What an automaton is, mathematically.
pub struct Dfa {
    pub states: Set<Seq<char>>,
    pub initial: Seq<char>,
    pub finals: Set<Seq<char>>,
    pub alphabet: Set<char>,
    /// For each state that has a transition table, that table: symbol to next state.
    pub delta: Map<Seq<char>, Map<char, Seq<char>>>,
}

/// Where a walk over a token ends.
pub enum Walk {
    /// Every symbol was consumed; the walk stopped in this state.
    Reached(Seq<char>),
    /// The walk came to a state without a transition table.
    NoTable(Seq<char>),
    /// The walk came to a state whose table has no entry for the next symbol.
    NoMove(Seq<char>, char),
}

/// Consumes `w` left to right from state `q`.
pub open spec fn walk(delta: Map<Seq<char>, Map<char, Seq<char>>>, q: Seq<char>, w: Seq<char>) -> Walk
    decreases w.len(),
{
    if w.len() == 0 {
        Walk::Reached(q)
    } else if !delta.contains_key(q) {
        Walk::NoTable(q)
    } else if !delta[q].contains_key(w[0]) {
        Walk::NoMove(q, w[0])
    } else {
        walk(delta, delta[q][w[0]], w.drop_first())
    }
}

/// The answer to "does `d` accept `w`".
pub enum Outcome {
    Accepted,
    Rejected,
    NoTransitions(Seq<char>),
    NoSymbolTransition(Seq<char>, char),
}

/// What the automaton answers on token `w`: accepted iff the walk from the
/// initial state consumes all of `w` and stops in a final state.
pub open spec fn outcome(d: Dfa, w: Seq<char>) -> Outcome {
    match walk(d.delta, d.initial, w) {
        Walk::Reached(q) => if d.finals.contains(q) {
            Outcome::Accepted
        } else {
            Outcome::Rejected
        },
        Walk::NoTable(q) => Outcome::NoTransitions(q),
        Walk::NoMove(q, c) => Outcome::NoSymbolTransition(q, c),
    }
}

/// A token reached a transition that the automaton does not define.
#[derive(Debug)]
pub enum TraversalError {
    /// The walk reached `state`, which has no transition table at all.
    NoTransitions { state: Vec<char> },
    /// The walk reached `state`, whose table has no entry for `symbol`.
    NoSymbolTransition { state: Vec<char>, symbol: char },
}

/// The outcome that a result of [`FiniteAutomaton::is_valid_token`] stands for.
pub open spec fn outcome_of(r: Result<bool, TraversalError>) -> Outcome {
    match r {
        Ok(true) => Outcome::Accepted,
        Ok(false) => Outcome::Rejected,
        Err(TraversalError::NoTransitions { state }) => Outcome::NoTransitions(state@),
        Err(TraversalError::NoSymbolTransition { state, symbol }) => Outcome::NoSymbolTransition(
            state@,
            symbol,
        ),
    }
}

/// The transition table of one state, in order of first definition.
#[derive(Debug)]
pub struct StateMoves {
    pub state: Vec<char>,
    pub moves: Vec<(char, Vec<char>)>,
}

/// The map that a list of (symbol, target) entries stands for.
pub open spec fn moves_view(m: Seq<(char, Vec<char>)>) -> Map<char, Seq<char>> {
    Map::new(
        |c: char| exists|i: int| 0 <= i < m.len() && m[i].0 == c,
        |c: char| m[choose|i: int| 0 <= i < m.len() && m[i].0 == c].1@,
    )
}

/// No symbol has two entries.
pub open spec fn moves_distinct(m: Seq<(char, Vec<char>)>) -> bool {
    forall|i: int, j: int| 0 <= i < j < m.len() ==> m[i].0 != m[j].0
}

/// The two-level map that a list of state tables stands for.
pub open spec fn table_view(t: Seq<StateMoves>) -> Map<Seq<char>, Map<char, Seq<char>>> {
    Map::new(
        |q: Seq<char>| exists|i: int| 0 <= i < t.len() && t[i].state@ == q,
        |q: Seq<char>| moves_view(t[choose|i: int| 0 <= i < t.len() && t[i].state@ == q].moves@),
    )
}

/// No state has two tables, and no table has two entries for one symbol.
pub open spec fn table_wf(t: Seq<StateMoves>) -> bool {
    &&& forall|i: int, j: int| 0 <= i < j < t.len() ==> t[i].state@ != t[j].state@
    &&& forall|i: int| 0 <= i < t.len() ==> moves_distinct(#[trigger] t[i].moves@)
}

/// Each symbol is a character that is not white space, and each target a word.
pub open spec fn moves_shape(m: Seq<(char, Vec<char>)>) -> bool {
    forall|j: int| 0 <= j < m.len() ==> !is_space((#[trigger] m[j]).0) && is_word(m[j].1@)
}

/// Each state of a table is a word that does not start a comment, and each
/// table has the shape above.
pub open spec fn table_shape(t: Seq<StateMoves>) -> bool {
    forall|i: int|
        0 <= i < t.len() ==> is_word((#[trigger] t[i]).state@) && t[i].state@[0] != '#'
            && moves_shape(t[i].moves@)
}

/// A non-empty list of words whose first does not start a comment.
pub open spec fn word_list(v: Seq<Vec<char>>) -> bool {
    &&& v.len() > 0
    &&& forall|i: int| 0 <= i < v.len() ==> is_word((#[trigger] v[i])@)
    &&& v[0]@[0] != '#'
}

/// No name occurs twice.
pub open spec fn names_distinct(v: Seq<Vec<char>>) -> bool {
    forall|i: int, j: int| 0 <= i < j < v.len() ==> v[i]@ != v[j]@
}

/// A deterministic finite automaton over `char` symbols, with states named by
/// character strings.
///
/// Sets are kept as vectors without repeats, in order of first appearance.
/// Nothing ties the initial state, the final states, or the transitions'
/// symbols and targets to the declared states and alphabet: a transition
/// that a token needs and the automaton lacks is reported when a walk
/// reaches it.
#[derive(Debug)]
pub struct FiniteAutomaton {
    pub states: Vec<Vec<char>>,
    pub initial_state: Vec<char>,
    pub final_states: Vec<Vec<char>>,
    pub alphabet: Vec<char>,
    pub transitions: Vec<StateMoves>,
}

impl View for FiniteAutomaton {
    type V = Dfa;

    open spec fn view(&self) -> Dfa {
        Dfa {
            states: views(self.states@).to_set(),
            initial: self.initial_state@,
            finals: views(self.final_states@).to_set(),
            alphabet: self.alphabet@.to_set(),
            delta: table_view(self.transitions@),
        }
    }
}

/// Position of the table of state `q`, if it has one.
pub(crate) fn find_table(t: &Vec<StateMoves>, q: &Vec<char>) -> (r: Option<usize>)
    ensures
        match r {
            Some(i) => i < t.len() && t@[i as int].state@ == q@,
            None => forall|i: int| 0 <= i < t.len() ==> t@[i].state@ != q@,
        },
{
    let mut i: usize = 0;
    while i < t.len()
        invariant
            i <= t.len(),
            forall|k: int| 0 <= k < i ==> t@[k].state@ != q@,
        decreases t.len() - i,
    {
        if same_chars(&t[i].state, q) {
            return Some(i);
        }
        i = i + 1;
    }
    None
}

/// Position of the entry for symbol `c`, if there is one.
pub(crate) fn find_move(m: &Vec<(char, Vec<char>)>, c: char) -> (r: Option<usize>)
    ensures
        match r {
            Some(i) => i < m.len() && m@[i as int].0 == c,
            None => forall|i: int| 0 <= i < m.len() ==> m@[i].0 != c,
        },
{
    let mut i: usize = 0;
    while i < m.len()
        invariant
            i <= m.len(),
            forall|k: int| 0 <= k < i ==> m@[k].0 != c,
        decreases m.len() - i,
    {
        if m[i].0 == c {
            return Some(i);
        }
        i = i + 1;
    }
    None
}

/// Whether `n` is one of the names in `v`.
pub fn contains_name(v: &Vec<Vec<char>>, n: &Vec<char>) -> (r: bool)
    ensures
        r == views(v@).contains(n@),
{
    let mut i: usize = 0;
    while i < v.len()
        invariant
            i <= v.len(),
            forall|k: int| 0 <= k < i ==> v@[k]@ != n@,
        decreases v.len() - i,
    {
        if same_chars(&v[i], n) {
            assert(views(v@)[i as int] == n@);
            return true;
        }
        i = i + 1;
    }
    assert(!views(v@).contains(n@)) by {
        if views(v@).contains(n@) {
            let k = choose|k: int| 0 <= k < views(v@).len() && views(v@)[k] == n@;
            assert(v@[k]@ == n@);
        }
    }
    false
}

/// The table of a listed state is the map of its entries.
pub proof fn lemma_table_lookup(t: Seq<StateMoves>, i: int)
    requires
        table_wf(t),
        0 <= i < t.len(),
    ensures
        table_view(t).contains_key(t[i].state@),
        table_view(t)[t[i].state@] == moves_view(t[i].moves@),
{
    let q = t[i].state@;
    assert(exists|k: int| 0 <= k < t.len() && t[k].state@ == q);
    let j = choose|k: int| 0 <= k < t.len() && t[k].state@ == q;
    assert(j == i);
}

/// The target of a listed symbol is the target of its entry.
pub proof fn lemma_moves_lookup(m: Seq<(char, Vec<char>)>, i: int)
    requires
        moves_distinct(m),
        0 <= i < m.len(),
    ensures
        moves_view(m).contains_key(m[i].0),
        moves_view(m)[m[i].0] == m[i].1@,
{
    let c = m[i].0;
    assert(exists|k: int| 0 <= k < m.len() && m[k].0 == c);
    let j = choose|k: int| 0 <= k < m.len() && m[k].0 == c;
    assert(j == i);
}

impl FiniteAutomaton {
    /// The invariant that the parser establishes.
    pub open spec fn wf(&self) -> bool {
        &&& names_distinct(self.states@)
        &&& names_distinct(self.final_states@)
        &&& self.alphabet@.no_duplicates()
        &&& table_wf(self.transitions@)
        &&& word_list(self.states@)
        &&& word_list(self.final_states@)
        &&& clean_line(self.initial_state@)
        &&& self.alphabet@.len() > 0
        &&& !is_space(self.alphabet@[0])
        &&& self.alphabet@[0] != '#'
        &&& !self.alphabet@.contains('\n')
        &&& table_shape(self.transitions@)
    }

    /// Runs `token` through the automaton from the initial state.
    ///
    /// `Ok(true)` when the whole token is consumed and the walk ends in a final
    /// state, `Ok(false)` when it ends elsewhere, and an error naming the gap
    /// when the walk needs a transition that is not defined.
    pub fn is_valid_token(&self, token: &str) -> (r: Result<bool, TraversalError>)
        requires
            self.wf(),
        ensures
            outcome_of(r) == outcome(self@, token@),
    {
        let w = chars_of(token);
        let n = w.len();
        let ghost delta = self@.delta;
        let mut cur: &Vec<char> = &self.initial_state;
        let mut i: usize = 0;
        assert(w@.subrange(0, n as int) =~= w@);
        while i < n
            invariant
                i <= n == w.len(),
                w@ == token@,
                self.wf(),
                delta == self@.delta,
                walk(delta, self@.initial, w@) == walk(delta, cur@, w@.subrange(i as int, n as int)),
            decreases n - i,
        {
            let c = w[i];
            let ghost rest = w@.subrange(i as int, n as int);
            assert(rest[0] == c);
            assert(rest.drop_first() =~= w@.subrange(i as int + 1, n as int));
            match find_table(&self.transitions, cur) {
                None => {
                    let state = copy_range(cur, 0, cur.len());
                    assert(state@ =~= cur@);
                    assert(!delta.contains_key(cur@));
                    assert(walk(delta, cur@, rest) == Walk::NoTable(cur@));
                    return Err(TraversalError::NoTransitions { state });
                },
                Some(ti) => {
                    proof {
                        lemma_table_lookup(self.transitions@, ti as int);
                    }
                    let moves = &self.transitions[ti].moves;
                    match find_move(moves, c) {
                        None => {
                            let state = copy_range(cur, 0, cur.len());
                            assert(state@ =~= cur@);
                            assert(!moves_view(moves@).contains_key(c));
                            assert(walk(delta, cur@, rest) == Walk::NoMove(cur@, c));
                            return Err(TraversalError::NoSymbolTransition { state, symbol: c });
                        },
                        Some(mi) => {
                            proof {
                                lemma_moves_lookup(moves@, mi as int);
                            }
                            cur = &moves[mi].1;
                        },
                    }
                },
            }
            i = i + 1;
        }
        assert(cur@.subrange(0, cur@.len() as int) =~= cur@);
        Ok(contains_name(&self.final_states, cur))
    }

    /// The states, without repeats, in order of first appearance.
    pub fn states(&self) -> (r: &Vec<Vec<char>>)
        ensures
            r == &self.states,
            views(r@).to_set() == self@.states,
    {
        &self.states
    }

    /// The alphabet, without repeats, in order of first appearance.
    pub fn alphabet(&self) -> (r: &Vec<char>)
        ensures
            r == &self.alphabet,
            r@.to_set() == self@.alphabet,
    {
        &self.alphabet
    }

    /// The transition tables, one per state that has one, in order of first
    /// definition.
    pub fn transitions(&self) -> (r: &Vec<StateMoves>)
        ensures
            r == &self.transitions,
            table_view(r@) == self@.delta,
    {
        &self.transitions
    }

    /// The initial state.
    pub fn initial_state(&self) -> (r: &Vec<char>)
        ensures
            r@ == self@.initial,
    {
        &self.initial_state
    }

    /// The final states, without repeats, in order of first appearance.
    pub fn final_states(&self) -> (r: &Vec<Vec<char>>)
        ensures
            r == &self.final_states,
            views(r@).to_set() == self@.finals,
    {
        &self.final_states
    }
}

/// The empty token is accepted exactly when the initial state is final, and
/// is never stopped by a missing transition.
pub proof fn lemma_empty_token(d: Dfa)
    ensures
        outcome(d, Seq::empty()) == (if d.finals.contains(d.initial) {
            Outcome::Accepted
        } else {
            Outcome::Rejected
        }),
{
}

/// The answer on a token depends on the automaton's model and the token
/// alone: two automata with the same model give the same answer on every
/// token, whatever other queries came before.
pub proof fn lemma_outcome_determined(a: FiniteAutomaton, b: FiniteAutomaton, w: Seq<char>)
    requires
        a@ == b@,
    ensures
        outcome(a@, w) == outcome(b@, w),
{
}

} // verus!
