//! Reading an automaton from its text description.
//!
//! The text is split at newlines; each line is trimmed, and lines that are
//! then empty or start with `#` are skipped. Of the remaining lines, the first
//! four are, in order: the states (separated by white space), the initial
//! state, the final states, and the alphabet (one symbol per character). Every
//! further line is `state symbols target symbols target ...`: each character
//! of a symbol group gets a transition from `state` to the target after it.
//! A later definition for the same state and symbol replaces an earlier one,
//! and a symbol group without a target is ignored.

use vstd::prelude::*;
use crate::automaton::{
    contains_name, moves_shape, names_distinct, table_shape, Dfa, FiniteAutomaton, find_move, find_table, lemma_moves_lookup, lemma_table_lookup, moves_distinct, moves_view,
    table_view, table_wf, StateMoves,
};
use crate::text::{lemma_lines_concat, clean_line, lemma_lines_no_newline, lemma_trim, lemma_words_are_words, lemma_words_first, significant, is_space, is_word, chars_of, copy_range, lines, split_lines, split_words, trim, trimmed, views, words};

verus! {

/// The moves of `m` after every symbol of `syms`, left to right, is sent to `target`.
pub open spec fn with_group(m: Map<char, Seq<char>>, syms: Seq<char>, target: Seq<char>) -> Map<
    char,
    Seq<char>,
>
    decreases syms.len(),
{
    if syms.len() == 0 {
        m
    } else {
        with_group(m, syms.drop_last(), target).insert(syms.last(), target)
    }
}

/// The moves of `m` after each pair (symbol group, target) of `ws`, in order;
/// a group left without a target changes nothing.
pub open spec fn with_pairs(m: Map<char, Seq<char>>, ws: Seq<Seq<char>>) -> Map<char, Seq<char>>
    decreases ws.len(),
{
    if ws.len() < 2 {
        m
    } else {
        with_pairs(with_group(m, ws[0], ws[1]), ws.subrange(2, ws.len() as int))
    }
}

/// The table `d` after the transition line whose words are `ws`.
pub open spec fn with_line(d: Map<Seq<char>, Map<char, Seq<char>>>, ws: Seq<Seq<char>>) -> Map<
    Seq<char>,
    Map<char, Seq<char>>,
> {
    if ws.len() == 0 {
        d
    } else {
        let q = ws[0];
        let base = if d.contains_key(q) {
            d[q]
        } else {
            Map::empty()
        };
        d.insert(q, with_pairs(base, ws.drop_first()))
    }
}

/// Points `target`'s copy at symbol `c`, replacing an earlier entry for `c`.
fn set_move(m: &mut Vec<(char, Vec<char>)>, c: char, target: &Vec<char>)
    requires
        moves_distinct(old(m)@),
        moves_shape(old(m)@),
        !is_space(c),
        is_word(target@),
    ensures
        moves_distinct(final(m)@),
        moves_shape(final(m)@),
        moves_view(final(m)@) == moves_view(old(m)@).insert(c, target@),
{
    let v = copy_range(target, 0, target.len());
    assert(v@ =~= target@);
    let ghost m0 = m@;
    match find_move(m, c) {
        Some(i) => {
            m[i] = (c, v);
            assert(m@ == m0.update(i as int, (c, v)));
            proof {
                lemma_moves_lookup(m@, i as int);
                assert forall|k: char| #[trigger] moves_view(m@).dom().contains(k) == moves_view(
                    m0,
                ).insert(c, target@).dom().contains(k) && (moves_view(m@).dom().contains(k)
                    ==> moves_view(m@)[k] == moves_view(m0).insert(c, target@)[k]) by {
                    if moves_view(m0).contains_key(k) {
                        let j = choose|j: int| 0 <= j < m0.len() && m0[j].0 == k;
                        lemma_moves_lookup(m0, j);
                        lemma_moves_lookup(m@, j);
                    }
                    if moves_view(m@).contains_key(k) {
                        let j = choose|j: int| 0 <= j < m@.len() && m@[j].0 == k;
                        assert(m0[j].0 == k);
                    }
                }
                assert(moves_view(m@).dom() =~= moves_view(m0).insert(c, target@).dom());
                assert(moves_view(m@) =~= moves_view(m0).insert(c, target@));
            }
        },
        None => {
            m.push((c, v));
            assert(m@ == m0.push((c, v)));
            proof {
                lemma_moves_lookup(m@, m0.len() as int);
                assert forall|k: char| #[trigger] moves_view(m@).dom().contains(k) == moves_view(
                    m0,
                ).insert(c, target@).dom().contains(k) && (moves_view(m@).dom().contains(k)
                    ==> moves_view(m@)[k] == moves_view(m0).insert(c, target@)[k]) by {
                    if moves_view(m0).contains_key(k) {
                        let j = choose|j: int| 0 <= j < m0.len() && m0[j].0 == k;
                        lemma_moves_lookup(m0, j);
                        lemma_moves_lookup(m@, j);
                    }
                    if k != c && moves_view(m@).contains_key(k) {
                        let j = choose|j: int| 0 <= j < m@.len() && m@[j].0 == k;
                        assert(j < m0.len());
                        assert(m0[j].0 == k);
                    }
                }
                assert(moves_view(m@).dom() =~= moves_view(m0).insert(c, target@).dom());
                assert(moves_view(m@) =~= moves_view(m0).insert(c, target@));
            }
        },
    }
}

proof fn lemma_table_set(t0: Seq<StateMoves>, t1: Seq<StateMoves>, i: int)
    requires
        table_wf(t0),
        0 <= i < t0.len(),
        t1.len() == t0.len(),
        t1[i].state@ == t0[i].state@,
        moves_distinct(t1[i].moves@),
        forall|j: int| 0 <= j < t0.len() && j != i ==> t1[j] == t0[j],
    ensures
        table_wf(t1),
        table_view(t1) == table_view(t0).insert(t0[i].state@, moves_view(t1[i].moves@)),
{
    let q = t0[i].state@;
    assert(table_wf(t1)) by {
        assert forall|j: int| 0 <= j < t1.len() implies moves_distinct(#[trigger] t1[j].moves@) by {
            if j != i {
                assert(moves_distinct(t0[j].moves@));
            }
        }
    }
    lemma_table_lookup(t1, i);
    assert forall|k: Seq<char>| #[trigger] table_view(t1).dom().contains(k) == table_view(
        t0,
    ).insert(q, moves_view(t1[i].moves@)).dom().contains(k) && (table_view(t1).dom().contains(k)
        ==> table_view(t1)[k] == table_view(t0).insert(q, moves_view(t1[i].moves@))[k]) by {
        if k != q && table_view(t0).contains_key(k) {
            let j = choose|j: int| 0 <= j < t0.len() && t0[j].state@ == k;
            lemma_table_lookup(t0, j);
            lemma_table_lookup(t1, j);
        }
        if k != q && table_view(t1).contains_key(k) {
            let j = choose|j: int| 0 <= j < t1.len() && t1[j].state@ == k;
            assert(t0[j].state@ == k);
        }
    }
    assert(table_view(t1).dom() =~= table_view(t0).insert(q, moves_view(t1[i].moves@)).dom());
    assert(table_view(t1) =~= table_view(t0).insert(q, moves_view(t1[i].moves@)));
}

proof fn lemma_table_push(t0: Seq<StateMoves>, e: StateMoves)
    requires
        table_wf(t0),
        forall|j: int| 0 <= j < t0.len() ==> t0[j].state@ != e.state@,
        e.moves@.len() == 0,
    ensures
        table_wf(t0.push(e)),
        table_view(t0.push(e)) == table_view(t0).insert(e.state@, Map::empty()),
{
    let t1 = t0.push(e);
    let q = e.state@;
    assert(table_wf(t1)) by {
        assert forall|j: int| 0 <= j < t1.len() implies moves_distinct(#[trigger] t1[j].moves@) by {
            if j < t0.len() {
                assert(moves_distinct(t0[j].moves@));
            }
        }
    }
    lemma_table_lookup(t1, t0.len() as int);
    assert(moves_view(e.moves@) =~= Map::empty());
    assert forall|k: Seq<char>| #[trigger] table_view(t1).dom().contains(k) == table_view(
        t0,
    ).insert(q, Map::empty()).dom().contains(k) && (table_view(t1).dom().contains(k)
        ==> table_view(t1)[k] == table_view(t0).insert(q, Map::empty())[k]) by {
        if k != q && table_view(t0).contains_key(k) {
            let j = choose|j: int| 0 <= j < t0.len() && t0[j].state@ == k;
            lemma_table_lookup(t0, j);
            lemma_table_lookup(t1, j);
        }
        if k != q && table_view(t1).contains_key(k) {
            let j = choose|j: int| 0 <= j < t1.len() && t1[j].state@ == k;
            assert(j < t0.len());
        }
    }
    assert(table_view(t1).dom() =~= table_view(t0).insert(q, Map::empty()).dom());
    assert(table_view(t1) =~= table_view(t0).insert(q, Map::empty()));
}

/// Applies one transition line, given as its words, to the table `t`.
fn add_line(t: &mut Vec<StateMoves>, ws: &Vec<Vec<char>>)
    requires
        table_wf(old(t)@),
        table_shape(old(t)@),
        forall|i: int| 0 <= i < ws.len() ==> is_word((#[trigger] ws@[i])@),
        ws.len() > 0 ==> ws@[0]@[0] != '#',
    ensures
        table_wf(final(t)@),
        table_shape(final(t)@),
        table_view(final(t)@) == with_line(table_view(old(t)@), views(ws@)),
{
    if ws.len() == 0 {
        return;
    }
    let ghost d0 = table_view(t@);
    let ghost q = ws@[0]@;
    let ghost base = if d0.contains_key(q) {
        d0[q]
    } else {
        Map::<char, Seq<char>>::empty()
    };
    let idx: usize = match find_table(t, &ws[0]) {
        Some(i) => {
            proof {
                lemma_table_lookup(t@, i as int);
            }
            i
        },
        None => {
            let e = StateMoves { state: copy_range(&ws[0], 0, ws[0].len()), moves: Vec::new() };
            let ghost t_before = t@;
            proof {
                assert(e.state@ =~= q);
                lemma_table_push(t@, e);
            }
            t.push(e);
            proof {
                lemma_table_lookup(t@, t@.len() - 1);
                assert(moves_view(e.moves@) =~= Map::<char, Seq<char>>::empty());
                assert(is_word(ws@[0]@));
                assert forall|j: int| 0 <= j < t@.len() implies is_word((#[trigger] t@[j]).state@)
                    && t@[j].state@[0] != '#' && moves_shape(t@[j].moves@) by {
                    if j < t_before.len() {
                        assert(t@[j] == t_before[j]);
                    }
                }
            }
            t.len() - 1
        },
    };
    let ghost t_full = t@;
    assert(table_view(t_full).insert(q, Map::empty()) =~= d0.insert(q, Map::empty()));
    let mut entry = StateMoves { state: Vec::new(), moves: Vec::new() };
    std::mem::swap(&mut entry, &mut t[idx]);
    assert(entry == t_full[idx as int]);
    let ghost t_mid = t@;
    let n = ws.len();
    let mut k: usize = 1;
    assert(views(ws@).drop_first() =~= views(ws@).subrange(1, n as int));
    while k < n - 1
        invariant
            1 <= k <= n == ws.len(),
            t@ == t_mid,
            entry.state@ == q,
            moves_distinct(entry.moves@),
            moves_shape(entry.moves@),
            forall|i: int| 0 <= i < ws.len() ==> is_word((#[trigger] ws@[i])@),
            with_pairs(moves_view(entry.moves@), views(ws@).subrange(k as int, n as int))
                == with_pairs(base, views(ws@).drop_first()),
        decreases n - k,
    {
        let ghost mv0 = moves_view(entry.moves@);
        let syms = &ws[k];
        let target = &ws[k + 1];
        assert(is_word(ws@[k as int]@) && is_word(ws@[k + 1]@));
        let mut j: usize = 0;
        while j < syms.len()
            invariant
                j <= syms.len(),
                entry.state@ == q,
                moves_distinct(entry.moves@),
                moves_shape(entry.moves@),
                is_word(syms@),
                is_word(target@),
                moves_view(entry.moves@) == with_group(mv0, syms@.take(j as int), target@),
            decreases syms.len() - j,
        {
            set_move(&mut entry.moves, syms[j], target);
            assert(syms@.take(j as int + 1).drop_last() =~= syms@.take(j as int));
            j = j + 1;
        }
        assert(syms@.take(syms.len() as int) =~= syms@);
        let ghost rest = views(ws@).subrange(k as int, n as int);
        assert(rest.subrange(2, rest.len() as int) =~= views(ws@).subrange(k as int + 2, n as int));
        k = k + 2;
    }
    let ghost t_pre = t@;
    t[idx] = entry;
    proof {
        assert(t@ == t_pre.update(idx as int, entry));
        lemma_table_set(t_full, t@, idx as int);
        assert forall|j: int| 0 <= j < t@.len() implies is_word((#[trigger] t@[j]).state@)
            && t@[j].state@[0] != '#' && moves_shape(t@[j].moves@) by {
            if j != idx {
                assert(t@[j] == t_full[j]);
            }
        }
        assert(table_view(t@) =~= d0.insert(q, moves_view(entry.moves@)));
    }
}

/// The trimmed lines of `ls` that carry content, in order.
pub open spec fn content_lines(ls: Seq<Seq<char>>) -> Seq<Seq<char>>
    decreases ls.len(),
{
    if ls.len() == 0 {
        Seq::empty()
    } else {
        let prev = content_lines(ls.drop_last());
        let l = trim(ls.last());
        if significant(l) {
            prev.push(l)
        } else {
            prev
        }
    }
}

proof fn lemma_content_clean(ls: Seq<Seq<char>>)
    requires
        forall|j: int| 0 <= j < ls.len() ==> !(#[trigger] ls[j]).contains('\n'),
    ensures
        forall|i: int| 0 <= i < content_lines(ls).len() ==> clean_line(#[trigger] content_lines(ls)[i]),
    decreases ls.len(),
{
    if ls.len() > 0 {
        assert forall|j: int| 0 <= j < ls.drop_last().len() implies !(#[trigger] ls.drop_last()[j]).contains('\n') by {
            assert(ls.drop_last()[j] == ls[j]);
        }
        lemma_content_clean(ls.drop_last());
        lemma_trim(ls.last());
        assert(!ls[ls.len() - 1].contains('\n'));
        assert(!trim(ls.last()).contains('\n'));
        let prev = content_lines(ls.drop_last());
        assert forall|i: int| 0 <= i < content_lines(ls).len() implies clean_line(#[trigger] content_lines(ls)[i]) by {
            if i < prev.len() {
                assert(clean_line(prev[i]));
                assert(content_lines(ls)[i] == prev[i]);
            }
        }
    }
}

/// The table `d` after the transition lines `ls`, in order.
pub open spec fn with_lines(d: Map<Seq<char>, Map<char, Seq<char>>>, ls: Seq<Seq<char>>) -> Map<
    Seq<char>,
    Map<char, Seq<char>>,
>
    decreases ls.len(),
{
    if ls.len() == 0 {
        d
    } else {
        with_lines(with_line(d, words(ls[0])), ls.drop_first())
    }
}

/// Why a text does not describe an automaton: fewer than four content lines.
#[derive(Debug, Clone, Copy, PartialEq, Eq, Structural)]
pub enum ParseError {
    /// No line of states.
    MissingStates,
    /// No line with the initial state.
    MissingInitialState,
    /// No line of final states.
    MissingFinalStates,
    /// No alphabet line.
    MissingAlphabet,
}

/// The automaton that text `t` describes.
pub open spec fn parse(t: Seq<char>) -> Result<Dfa, ParseError> {
    let ls = content_lines(lines(t));
    if ls.len() < 1 {
        Err(ParseError::MissingStates)
    } else if ls.len() < 2 {
        Err(ParseError::MissingInitialState)
    } else if ls.len() < 3 {
        Err(ParseError::MissingFinalStates)
    } else if ls.len() < 4 {
        Err(ParseError::MissingAlphabet)
    } else {
        Ok(
            Dfa {
                states: words(ls[0]).to_set(),
                initial: ls[1],
                finals: words(ls[2]).to_set(),
                alphabet: ls[3].to_set(),
                delta: with_lines(Map::empty(), ls.subrange(4, ls.len() as int)),
            },
        )
    }
}

/// The trimmed lines of `raw` that carry content.
fn content(raw: &Vec<Vec<char>>) -> (r: Vec<Vec<char>>)
    ensures
        views(r@) == content_lines(views(raw@)),
{
    let mut r: Vec<Vec<char>> = Vec::new();
    let mut i: usize = 0;
    while i < raw.len()
        invariant
            i <= raw.len(),
            views(r@) == content_lines(views(raw@).take(i as int)),
        decreases raw.len() - i,
    {
        let l = trimmed(&raw[i]);
        assert(views(raw@).take(i as int + 1).drop_last() =~= views(raw@).take(i as int));
        assert(views(raw@).take(i as int + 1).last() == raw@[i as int]@);
        if l.len() > 0 && l[0] != '#' {
            let ghost old_r = r@;
            r.push(l);
            assert(r@ == old_r.push(l));
            assert(views(r@) =~= views(old_r).push(l@));
        }
        i = i + 1;
    }
    assert(views(raw@).take(raw.len() as int) =~= views(raw@));
    r
}

/// The names of `ws` without repeats, in order of first appearance.
fn distinct_names(ws: &Vec<Vec<char>>) -> (r: Vec<Vec<char>>)
    ensures
        names_distinct(r@),
        views(r@).to_set() == views(ws@).to_set(),
        ws.len() > 0 ==> r.len() > 0 && r@[0]@ == ws@[0]@,
{
    let mut r: Vec<Vec<char>> = Vec::new();
    let mut i: usize = 0;
    assert(views(r@).to_set() =~= views(ws@).take(0).to_set());
    while i < ws.len()
        invariant
            i <= ws.len(),
            names_distinct(r@),
            views(r@).to_set() == views(ws@).take(i as int).to_set(),
            i > 0 ==> r.len() > 0 && r@[0]@ == ws@[0]@,
            i == 0 ==> r.len() == 0,
        decreases ws.len() - i,
    {
        let ghost seen = views(ws@).take(i as int);
        assert(views(ws@).take(i as int + 1) =~= seen.push(ws@[i as int]@));
        if !contains_name(&r, &ws[i]) {
            let w = copy_range(&ws[i], 0, ws[i].len());
            assert(w@ =~= ws@[i as int]@);
            let ghost old_r = r@;
            r.push(w);
            assert(r@ == old_r.push(w));
            assert(views(r@) =~= views(old_r).push(w@));
            assert forall|a: int, b: int| 0 <= a < b < r@.len() implies r@[a]@ != r@[b]@ by {
                if b == old_r.len() {
                    assert(views(old_r)[a] == old_r[a]@);
                }
            }
            assert(views(r@).to_set() =~= views(ws@).take(i as int + 1).to_set()) by {
                assert forall|x: Seq<char>| #[trigger] views(r@).contains(x) == views(ws@).take(
                    i as int + 1,
                ).contains(x) by {
                    if views(r@).contains(x) && x != w@ {
                        let k = choose|k: int| 0 <= k < views(r@).len() && views(r@)[k] == x;
                        assert(views(old_r)[k] == x);
                        assert(views(old_r).to_set().contains(x));
                    }
                    if seen.push(ws@[i as int]@).contains(x) && x != w@ {
                        let k = choose|k: int|
                            0 <= k < seen.push(ws@[i as int]@).len() && seen.push(
                                ws@[i as int]@,
                            )[k] == x;
                        assert(seen[k] == x);
                        assert(seen.to_set().contains(x));
                        assert(views(old_r).to_set().contains(x));
                        let m = choose|m: int| 0 <= m < views(old_r).len() && views(old_r)[m] == x;
                        assert(views(r@)[m] == x);
                    }
                    if x == w@ {
                        assert(views(r@)[old_r.len() as int] == x);
                        assert(seen.push(ws@[i as int]@)[i as int] == x);
                    }
                }
            }
        } else {
            assert(views(r@).to_set() =~= views(ws@).take(i as int + 1).to_set()) by {
                assert(views(r@).to_set().contains(ws@[i as int]@));
                assert forall|x: Seq<char>| #[trigger] seen.push(ws@[i as int]@).contains(x) implies seen.contains(x) || x == ws@[i as int]@ by {
                    let k = choose|k: int|
                        0 <= k < seen.push(ws@[i as int]@).len() && seen.push(ws@[i as int]@)[k] == x;
                    if k < i {
                        assert(seen[k] == x);
                    }
                }
                assert forall|x: Seq<char>| #[trigger] seen.contains(x) implies seen.push(ws@[i as int]@).contains(x) by {
                    let k = choose|k: int| 0 <= k < seen.len() && seen[k] == x;
                    assert(seen.push(ws@[i as int]@)[k] == x);
                }
            }
        }
        i = i + 1;
    }
    assert(views(ws@).take(ws.len() as int) =~= views(ws@));
    r
}

/// Whether `c` occurs in `v`.
fn has_char(v: &Vec<char>, c: char) -> (r: bool)
    ensures
        r == v@.contains(c),
{
    let mut i: usize = 0;
    while i < v.len()
        invariant
            i <= v.len(),
            forall|k: int| 0 <= k < i ==> v@[k] != c,
        decreases v.len() - i,
    {
        if v[i] == c {
            assert(v@[i as int] == c);
            return true;
        }
        i = i + 1;
    }
    false
}

/// The characters of `cs` without repeats, in order of first appearance.
fn distinct_chars(cs: &Vec<char>) -> (r: Vec<char>)
    ensures
        r@.no_duplicates(),
        r@.to_set() == cs@.to_set(),
        cs.len() > 0 ==> r.len() > 0 && r@[0] == cs@[0],
{
    let mut r: Vec<char> = Vec::new();
    let mut i: usize = 0;
    assert(r@.to_set() =~= cs@.take(0).to_set());
    while i < cs.len()
        invariant
            i <= cs.len(),
            r@.no_duplicates(),
            r@.to_set() == cs@.take(i as int).to_set(),
            i > 0 ==> r.len() > 0 && r@[0] == cs@[0],
            i == 0 ==> r.len() == 0,
        decreases cs.len() - i,
    {
        let c = cs[i];
        let ghost seen = cs@.take(i as int);
        assert(cs@.take(i as int + 1) =~= seen.push(c));
        proof {
            seen.lemma_push_to_set_commute(c);
        }
        if !has_char(&r, c) {
            let ghost old_r = r@;
            r.push(c);
            proof {
                old_r.lemma_push_to_set_commute(c);
            }
            assert(r@ == old_r.push(c));
        } else {
            assert(r@.to_set().contains(c));
            assert(r@.to_set() =~= r@.to_set().insert(c));
        }
        i = i + 1;
    }
    assert(cs@.take(cs.len() as int) =~= cs@);
    r
}

impl FiniteAutomaton {
    /// Reads an automaton from its text description; fails when the text has
    /// fewer than the four content lines that every description starts with.
    pub fn new(s: &str) -> (r: Result<FiniteAutomaton, ParseError>)
        ensures
            match r {
                Ok(a) => a.wf() && parse(s@) == Ok::<Dfa, ParseError>(a@),
                Err(e) => parse(s@) == Err::<Dfa, ParseError>(e),
            },
    {
        let text = chars_of(s);
        let raw = split_lines(&text);
        let ls = content(&raw);
        let n = ls.len();
        if n < 1 {
            return Err(ParseError::MissingStates);
        }
        if n < 2 {
            return Err(ParseError::MissingInitialState);
        }
        if n < 3 {
            return Err(ParseError::MissingFinalStates);
        }
        if n < 4 {
            return Err(ParseError::MissingAlphabet);
        }
        let ghost cl = views(ls@);
        assert(cl[0] == ls@[0]@ && cl[1] == ls@[1]@ && cl[2] == ls@[2]@ && cl[3] == ls@[3]@);
        proof {
            lemma_lines_no_newline(text@);
            lemma_content_clean(lines(text@));
            assert forall|i: int| 0 <= i < n implies clean_line(#[trigger] ls@[i]@) by {
                assert(cl[i] == ls@[i]@);
            }
        }
        let ws0 = split_words(&ls[0]);
        proof {
            lemma_words_first(ls@[0]@);
            lemma_words_are_words(ls@[0]@);
        }
        let states = distinct_names(&ws0);
        assert forall|i: int| 0 <= i < states.len() implies is_word((#[trigger] states@[i])@) by {
            assert(views(states@)[i] == states@[i]@);
            assert(views(states@).to_set().contains(states@[i]@));
            let j = choose|j: int| 0 <= j < views(ws0@).len() && views(ws0@)[j] == states@[i]@;
            assert(is_word(words(ls@[0]@)[j]));
        }
        let ws2 = split_words(&ls[2]);
        proof {
            lemma_words_first(ls@[2]@);
            lemma_words_are_words(ls@[2]@);
        }
        let initial_state = copy_range(&ls[1], 0, ls[1].len());
        assert(initial_state@ =~= ls@[1]@);
        let final_states = distinct_names(&ws2);
        assert forall|i: int| 0 <= i < final_states.len() implies is_word((#[trigger] final_states@[i])@) by {
            assert(views(final_states@)[i] == final_states@[i]@);
            assert(views(final_states@).to_set().contains(final_states@[i]@));
            let j = choose|j: int| 0 <= j < views(ws2@).len() && views(ws2@)[j] == final_states@[i]@;
            assert(is_word(words(ls@[2]@)[j]));
        }
        let alphabet = distinct_chars(&ls[3]);
        assert(!alphabet@.contains('\n')) by {
            if alphabet@.contains('\n') {
                assert(alphabet@.to_set().contains('\n'));
                assert(ls@[3]@.contains('\n'));
            }
        }
        let mut transitions: Vec<StateMoves> = Vec::new();
        assert(table_view(transitions@) =~= Map::<Seq<char>, Map<char, Seq<char>>>::empty());
        let mut i: usize = 4;
        while i < n
            invariant
                4 <= i <= n == ls.len(),
                cl == views(ls@),
                table_wf(transitions@),
                table_shape(transitions@),
                forall|j: int| 0 <= j < n ==> clean_line(#[trigger] ls@[j]@),
                with_lines(table_view(transitions@), cl.subrange(i as int, n as int)) == with_lines(
                    Map::empty(),
                    cl.subrange(4, n as int),
                ),
            decreases n - i,
        {
            let ws = split_words(&ls[i]);
            proof {
                assert(clean_line(ls@[i as int]@));
                lemma_words_first(ls@[i as int]@);
                lemma_words_are_words(ls@[i as int]@);
                assert forall|j: int| 0 <= j < ws.len() implies is_word((#[trigger] ws@[j])@) by {
                    assert(views(ws@)[j] == ws@[j]@);
                    assert(is_word(words(ls@[i as int]@)[j]));
                }
                assert(views(ws@)[0] == ws@[0]@);
            }
            assert(cl.subrange(i as int, n as int).drop_first() =~= cl.subrange(i as int + 1, n as int));
            assert(cl.subrange(i as int, n as int)[0] == ls@[i as int]@);
            add_line(&mut transitions, &ws);
            i = i + 1;
        }
        assert(cl.subrange(n as int, n as int) =~= Seq::<Seq<char>>::empty());
        Ok(FiniteAutomaton { states, initial_state, final_states, alphabet, transitions })
    }
}

proof fn lemma_with_group_hit(m: Map<char, Seq<char>>, syms: Seq<char>, target: Seq<char>, c: char)
    requires
        syms.contains(c),
    ensures
        with_group(m, syms, target).contains_key(c),
        with_group(m, syms, target)[c] == target,
    decreases syms.len(),
{
    if syms.last() != c {
        let k = choose|k: int| 0 <= k < syms.len() && syms[k] == c;
        assert(syms.drop_last()[k] == c);
        lemma_with_group_hit(m, syms.drop_last(), target, c);
    }
}

proof fn lemma_with_lines_push(
    d: Map<Seq<char>, Map<char, Seq<char>>>,
    ls: Seq<Seq<char>>,
    l: Seq<char>,
)
    ensures
        with_lines(d, ls.push(l)) == with_line(with_lines(d, ls), words(l)),
    decreases ls.len(),
{
    if ls.len() > 0 {
        assert(ls.push(l).drop_first() =~= ls.drop_first().push(l));
        assert(ls.push(l)[0] == ls[0]);
        lemma_with_lines_push(with_line(d, words(ls[0])), ls.drop_first(), l);
    } else {
        assert(ls.push(l).drop_first() =~= Seq::<Seq<char>>::empty());
        assert(ls.push(l)[0] == l);
        assert(with_lines(with_line(d, words(l)), Seq::<Seq<char>>::empty()) == with_line(d, words(l)));
        assert(with_lines(d, ls) == d);
    }
}

/// Of several definitions for one state and symbol, the last one in the
/// order of the transition lines decides: whatever lines `ls` came before, a
/// line `q syms target` with `c` among `syms` sends `q` on `c` to `target`.
pub proof fn lemma_later_definition_wins(
    d: Map<Seq<char>, Map<char, Seq<char>>>,
    ls: Seq<Seq<char>>,
    l: Seq<char>,
    c: char,
)
    requires
        words(l).len() == 3,
        words(l)[1].contains(c),
    ensures
        with_lines(d, ls.push(l)).contains_key(words(l)[0]),
        with_lines(d, ls.push(l))[words(l)[0]].contains_key(c),
        with_lines(d, ls.push(l))[words(l)[0]][c] == words(l)[2],
{
    let ws = words(l);
    lemma_with_lines_push(d, ls, l);
    let prev = with_lines(d, ls);
    let base = if prev.contains_key(ws[0]) {
        prev[ws[0]]
    } else {
        Map::empty()
    };
    let rest = ws.drop_first();
    assert(rest.subrange(2, rest.len() as int) =~= Seq::<Seq<char>>::empty());
    assert(rest[0] == ws[1] && rest[1] == ws[2]);
    let g = with_group(base, ws[1], ws[2]);
    assert(with_pairs(g, Seq::<Seq<char>>::empty()) == g);
    assert(with_pairs(base, rest) == g);
    lemma_with_group_hit(base, ws[1], ws[2], c);
}

/// Appending a transition line `q syms target` to a description makes `q`
/// go to `target` on every symbol `c` of `syms`, whatever earlier lines
/// defined for that state and symbol.
pub proof fn lemma_appended_line_wins(t: Seq<char>, l: Seq<char>, c: char)
    requires
        parse(t) is Ok,
        clean_line(l),
        words(l).len() == 3,
        words(l)[1].contains(c),
    ensures
        parse(t + seq!['\n'] + l) is Ok,
        parse(t + seq!['\n'] + l)->Ok_0.delta.contains_key(words(l)[0]),
        parse(t + seq!['\n'] + l)->Ok_0.delta[words(l)[0]].contains_key(c),
        parse(t + seq!['\n'] + l)->Ok_0.delta[words(l)[0]][c] == words(l)[2],
{
    let t1 = t + seq!['\n'];
    assert(t1.drop_last() =~= t);
    lemma_lines_concat(t1, l);
    assert(Seq::<char>::empty() + l =~= l);
    assert(lines(t1 + l) =~= lines(t).push(l));
    let ls = lines(t);
    assert(ls.push(l).drop_last() =~= ls);
    assert(trim(l) == l);
    let cl = content_lines(ls);
    assert(content_lines(ls.push(l)) == cl.push(l));
    assert(cl.push(l).subrange(4, cl.len() as int + 1) =~= cl.subrange(4, cl.len() as int).push(l));
    assert(cl.push(l)[0] == cl[0] && cl.push(l)[1] == cl[1] && cl.push(l)[2] == cl[2] && cl.push(l)[3] == cl[3]);
    lemma_later_definition_wins(Map::empty(), cl.subrange(4, cl.len() as int), l, c);
}

} // verus!
