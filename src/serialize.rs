//! Writing an automaton back out in the text format that the parser reads.

use vstd::prelude::*;
use crate::automaton::{
    moves_distinct, moves_shape, moves_view, table_shape, table_view, table_wf, FiniteAutomaton,
    StateMoves,
};
use crate::automaton::{lemma_moves_lookup, lemma_table_lookup, outcome};
use crate::parser::{content_lines, parse, with_group, with_line, with_lines, with_pairs};
use crate::text::{
    clean_line, is_space, is_word, lemma_lines_concat, lemma_trim_end, lemma_trim_fixed, lines,
    significant, trim, trim_end, trim_start, views, words,
};

verus! {

/// Words separated by single spaces.
pub open spec fn join(ns: Seq<Seq<char>>) -> Seq<char>
    decreases ns.len(),
{
    if ns.len() == 0 {
        Seq::empty()
    } else if ns.len() == 1 {
        ns[0]
    } else {
        join(ns.drop_last()) + seq![' '] + ns.last()
    }
}

/// The words that write out a list of moves: each symbol, then its target.
pub open spec fn move_words(m: Seq<(char, Vec<char>)>) -> Seq<Seq<char>>
    decreases m.len(),
{
    if m.len() == 0 {
        Seq::empty()
    } else {
        seq![seq![m[0].0], m[0].1@] + move_words(m.drop_first())
    }
}

/// The transition line of one state's table.
pub open spec fn table_line(e: StateMoves) -> Seq<char> {
    join(seq![e.state@] + move_words(e.moves@))
}

/// The lines that describe `a`, in the order the parser reads them.
pub open spec fn text_lines(a: FiniteAutomaton) -> Seq<Seq<char>> {
    seq![
        join(views(a.states@)),
        a.initial_state@,
        join(views(a.final_states@)),
        a.alphabet@,
    ] + a.transitions@.map_values(|e: StateMoves| table_line(e))
}

/// Lines, each followed by a newline.
pub open spec fn unlines(ls: Seq<Seq<char>>) -> Seq<char>
    decreases ls.len(),
{
    if ls.len() == 0 {
        Seq::empty()
    } else {
        unlines(ls.drop_last()) + ls.last() + seq!['\n']
    }
}

/// The text that describes `a`.
pub open spec fn render(a: FiniteAutomaton) -> Seq<char> {
    unlines(text_lines(a))
}

/// Appends the characters of `s` to `out`.
fn append(out: &mut Vec<char>, s: &Vec<char>)
    ensures
        final(out)@ == old(out)@ + s@,
{
    let mut i: usize = 0;
    let ghost start = out@;
    while i < s.len()
        invariant
            i <= s.len(),
            out@ == start + s@.take(i as int),
        decreases s.len() - i,
    {
        out.push(s[i]);
        assert(s@.take(i as int + 1) =~= s@.take(i as int).push(s@[i as int]));
        assert(out@ =~= start + s@.take(i as int + 1));
        i = i + 1;
    }
    assert(s@.take(s.len() as int) =~= s@);
}

/// The names of `ns`, separated by single spaces.
fn join_names(ns: &Vec<Vec<char>>) -> (r: Vec<char>)
    ensures
        r@ == join(views(ns@)),
{
    let mut r: Vec<char> = Vec::new();
    let mut i: usize = 0;
    while i < ns.len()
        invariant
            i <= ns.len(),
            r@ == join(views(ns@).take(i as int)),
        decreases ns.len() - i,
    {
        let ghost part = views(ns@).take(i as int + 1);
        assert(part.drop_last() =~= views(ns@).take(i as int));
        assert(part.last() == ns@[i as int]@);
        if i > 0 {
            r.push(' ');
        } else {
            assert(r@ =~= Seq::<char>::empty());
        }
        append(&mut r, &ns[i]);
        assert(r@ =~= join(part));
        i = i + 1;
    }
    assert(views(ns@).take(ns.len() as int) =~= views(ns@));
    r
}

proof fn lemma_move_words_push(m: Seq<(char, Vec<char>)>, x: (char, Vec<char>))
    ensures
        move_words(m.push(x)) == move_words(m) + seq![seq![x.0], x.1@],
    decreases m.len(),
{
    if m.len() == 0 {
        assert(m.push(x).drop_first() =~= Seq::<(char, Vec<char>)>::empty());
        assert(move_words(Seq::<(char, Vec<char>)>::empty()) == Seq::<Seq<char>>::empty());
        assert(move_words(m.push(x)) =~= move_words(m) + seq![seq![x.0], x.1@]);
    } else {
        assert(m.push(x).drop_first() =~= m.drop_first().push(x));
        lemma_move_words_push(m.drop_first(), x);
        assert(move_words(m.push(x)) =~= move_words(m) + seq![seq![x.0], x.1@]);
    }
}

/// The transition line of one table.
fn line_of(e: &StateMoves) -> (r: Vec<char>)
    ensures
        r@ == table_line(*e),
{
    let mut r: Vec<char> = Vec::new();
    append(&mut r, &e.state);
    assert(r@ =~= e.state@);
    let ghost q = seq![e.state@];
    assert(q + move_words(e.moves@.take(0)) =~= q);
    let mut k: usize = 0;
    while k < e.moves.len()
        invariant
            k <= e.moves.len(),
            q == seq![e.state@],
            r@ == join(q + move_words(e.moves@.take(k as int))),
        decreases e.moves.len() - k,
    {
        let ghost before = q + move_words(e.moves@.take(k as int));
        let c = e.moves[k].0;
        proof {
            assert(e.moves@.take(k as int + 1) =~= e.moves@.take(k as int).push(e.moves@[k as int]));
            lemma_move_words_push(e.moves@.take(k as int), e.moves@[k as int]);
            let after = q + move_words(e.moves@.take(k as int + 1));
            assert(after =~= before.push(seq![c]).push(e.moves@[k as int].1@));
            assert(after.drop_last() =~= before.push(seq![c]));
            assert(before.push(seq![c]).drop_last() =~= before);
        }
        r.push(' ');
        r.push(c);
        r.push(' ');
        append(&mut r, &e.moves[k].1);
        proof {
            let after = q + move_words(e.moves@.take(k as int + 1));
            assert(join(before.push(seq![c])) == join(before) + seq![' '] + seq![c]);
            assert(join(after) == join(after.drop_last()) + seq![' '] + after.last());
            assert(r@ =~= join(after));
        }
        k = k + 1;
    }
    assert(e.moves@.take(e.moves.len() as int) =~= e.moves@);
    r
}

impl FiniteAutomaton {
    /// The automaton written out in the text format: states, initial state,
    /// final states and alphabet on one line each, then one transition line
    /// per state that has a table.
    pub fn to_text(&self) -> (r: Vec<char>)
        ensures
            r@ == render(*self),
    {
        let ghost ls = text_lines(*self);
        let mut out: Vec<char> = Vec::new();
        let first = join_names(&self.states);
        append(&mut out, &first);
        out.push('\n');
        proof {
            assert(ls.take(0) =~= Seq::<Seq<char>>::empty());
            assert(ls.take(1).drop_last() =~= ls.take(0));
            assert(unlines(ls.take(0)) == Seq::<char>::empty());
            assert(out@ =~= unlines(ls.take(1)));
        }
        append(&mut out, &self.initial_state);
        out.push('\n');
        proof {
            assert(ls.take(2).drop_last() =~= ls.take(1));
            assert(out@ =~= unlines(ls.take(2)));
        }
        let finals = join_names(&self.final_states);
        append(&mut out, &finals);
        out.push('\n');
        proof {
            assert(ls.take(3).drop_last() =~= ls.take(2));
            assert(out@ =~= unlines(ls.take(3)));
        }
        append(&mut out, &self.alphabet);
        out.push('\n');
        proof {
            assert(ls.take(4).drop_last() =~= ls.take(3));
            assert(out@ =~= unlines(ls.take(4)));
        }
        let mut i: usize = 0;
        while i < self.transitions.len()
            invariant
                i <= self.transitions.len(),
                ls == text_lines(*self),
                out@ == unlines(ls.take(4 + i)),
            decreases self.transitions.len() - i,
        {
            let line = line_of(&self.transitions[i]);
            append(&mut out, &line);
            out.push('\n');
            assert(ls.take(4 + i + 1).drop_last() =~= ls.take(4 + i));
            assert(ls.take(4 + i + 1).last() == table_line(self.transitions@[i as int]));
            assert(out@ =~= unlines(ls.take(4 + i + 1)));
            i = i + 1;
        }
        assert(ls.take(4 + i) =~= ls);
        out
    }
}

proof fn lemma_lines_unlines(ls: Seq<Seq<char>>)
    requires
        forall|i: int| 0 <= i < ls.len() ==> !(#[trigger] ls[i]).contains('\n'),
    ensures
        lines(unlines(ls)) == ls.push(Seq::empty()),
    decreases ls.len(),
{
    if ls.len() == 0 {
        assert(lines(Seq::<char>::empty()) =~= ls.push(Seq::empty()));
    } else {
        let prev = ls.drop_last();
        assert forall|i: int| 0 <= i < prev.len() implies !(#[trigger] prev[i]).contains('\n') by {
            assert(prev[i] == ls[i]);
        }
        lemma_lines_unlines(prev);
        let u = unlines(prev) + ls.last();
        assert(!ls[ls.len() - 1].contains('\n'));
        lemma_lines_concat(unlines(prev), ls.last());
        assert((u + seq!['\n']).drop_last() =~= u);
        assert(Seq::<char>::empty() + ls.last() =~= ls.last());
        assert(lines(u + seq!['\n']) == lines(u).push(Seq::empty()));
        assert(lines(u) =~= ls);
    }
}

proof fn lemma_content_trimmed(ls: Seq<Seq<char>>)
    requires
        forall|i: int| 0 <= i < ls.len() ==> significant(trim(#[trigger] ls[i])),
    ensures
        content_lines(ls) == ls.map_values(|l: Seq<char>| trim(l)),
    decreases ls.len(),
{
    if ls.len() == 0 {
        assert(content_lines(ls) =~= ls.map_values(|l: Seq<char>| trim(l)));
    } else {
        let prev = ls.drop_last();
        assert forall|i: int| 0 <= i < prev.len() implies significant(trim(#[trigger] prev[i])) by {
            assert(prev[i] == ls[i]);
        }
        lemma_content_trimmed(prev);
        assert(significant(trim(ls[ls.len() - 1])));
        assert(content_lines(ls) =~= ls.map_values(|l: Seq<char>| trim(l)));
    }
}

proof fn lemma_content_blank_end(ls: Seq<Seq<char>>)
    ensures
        content_lines(ls.push(Seq::empty())) == content_lines(ls),
{
    assert(ls.push(Seq::empty()).drop_last() =~= ls);
    let e = Seq::<char>::empty();
    assert(trim_start(e) == e);
    assert(trim_end(e) == e);
}

proof fn lemma_words_append_word(s: Seq<char>, w: Seq<char>)
    requires
        is_word(w),
        s.len() == 0 || is_space(s.last()),
    ensures
        words(s + w) == words(s).push(w),
    decreases w.len(),
{
    if w.len() == 1 {
        assert((s + w).drop_last() =~= s);
        assert((s + w).last() == w[0]);
        assert(seq![w[0]] =~= w);
        if s.len() > 0 {
            assert((s + w)[(s + w).len() - 2] == s.last());
        }
    } else {
        let w0 = w.drop_last();
        assert(is_word(w0)) by {
            assert forall|i: int| 0 <= i < w0.len() implies !is_space(#[trigger] w0[i]) by {
                assert(w0[i] == w[i]);
            }
        }
        lemma_words_append_word(s, w0);
        assert((s + w).drop_last() =~= s + w0);
        assert((s + w).last() == w[w.len() - 1]);
        assert((s + w)[(s + w).len() - 2] == w[w.len() - 2]);
        assert(w0.push(w.last()) =~= w);
        assert(words(s + w) =~= words(s).push(w));
    }
}

/// Every entry is a word.
pub open spec fn all_words(ns: Seq<Seq<char>>) -> bool {
    forall|i: int| 0 <= i < ns.len() ==> is_word(#[trigger] ns[i])
}

proof fn lemma_words_join(ns: Seq<Seq<char>>)
    requires
        all_words(ns),
    ensures
        words(join(ns)) == ns,
        ns.len() > 0 ==> join(ns).len() > 0 && join(ns)[0] == ns[0][0] && join(ns).last()
            == ns.last().last() && !join(ns).contains('\n'),
    decreases ns.len(),
{
    if ns.len() == 0 {
        assert(words(Seq::<char>::empty()) =~= ns);
    } else if ns.len() == 1 {
        assert(is_word(ns[0]));
        lemma_words_append_word(Seq::empty(), ns[0]);
        assert(Seq::<char>::empty() + ns[0] =~= ns[0]);
        assert(words(Seq::<char>::empty()) == Seq::<Seq<char>>::empty());
        assert(seq![ns[0]] =~= ns);
        assert(!ns[0].contains('\n')) by {
            if ns[0].contains('\n') {
                let k = choose|k: int| 0 <= k < ns[0].len() && ns[0][k] == '\n';
                assert(!is_space(ns[0][k]));
            }
        }
    } else {
        let prev = ns.drop_last();
        assert(all_words(prev)) by {
            assert forall|i: int| 0 <= i < prev.len() implies is_word(#[trigger] prev[i]) by {
                assert(prev[i] == ns[i]);
            }
        }
        lemma_words_join(prev);
        let a = join(prev) + seq![' '];
        assert(a.drop_last() =~= join(prev));
        assert(words(a) == words(join(prev)));
        assert(is_word(ns[ns.len() - 1]));
        lemma_words_append_word(a, ns.last());
        assert(prev.push(ns.last()) =~= ns);
        let j = join(ns);
        assert(j == a + ns.last());
        assert(j[0] == join(prev)[0]);
        assert(prev[0] == ns[0]);
        assert(j.last() == ns.last().last());
        assert(!j.contains('\n')) by {
            if j.contains('\n') {
                let k = choose|k: int| 0 <= k < j.len() && j[k] == '\n';
                if k < join(prev).len() {
                    assert(join(prev)[k] == '\n');
                } else if k > join(prev).len() {
                    assert(ns.last()[k - join(prev).len() - 1] == '\n');
                    assert(!is_space(ns.last()[k - join(prev).len() - 1]));
                }
            }
        }
    }
}

proof fn lemma_move_words_shape(m: Seq<(char, Vec<char>)>)
    requires
        moves_shape(m),
    ensures
        all_words(move_words(m)),
    decreases m.len(),
{
    if m.len() > 0 {
        let rest = m.drop_first();
        assert(moves_shape(rest)) by {
            assert forall|j: int| 0 <= j < rest.len() implies !is_space((#[trigger] rest[j]).0)
                && is_word(rest[j].1@) by {
                assert(rest[j] == m[j + 1]);
            }
        }
        lemma_move_words_shape(rest);
        assert(!is_space(m[0].0) && is_word(m[0].1@));
        let mw = move_words(m);
        assert forall|i: int| 0 <= i < mw.len() implies is_word(#[trigger] mw[i]) by {
            if i == 0 {
                assert(is_word(seq![m[0].0]));
            } else if i >= 2 {
                assert(mw[i] == move_words(rest)[i - 2]);
            }
        }
    }
}

proof fn lemma_moves_view_first(m: Seq<(char, Vec<char>)>)
    requires
        moves_distinct(m),
        m.len() > 0,
    ensures
        moves_distinct(m.drop_first()),
        !moves_view(m.drop_first()).contains_key(m[0].0),
        moves_view(m) == moves_view(m.drop_first()).insert(m[0].0, m[0].1@),
{
    let rest = m.drop_first();
    let c0 = m[0].0;
    assert(moves_distinct(rest)) by {
        assert forall|i: int, j: int| 0 <= i < j < rest.len() implies rest[i].0 != rest[j].0 by {
            assert(rest[i] == m[i + 1] && rest[j] == m[j + 1]);
        }
    }
    if moves_view(rest).contains_key(c0) {
        let j = choose|j: int| 0 <= j < rest.len() && rest[j].0 == c0;
        assert(m[j + 1].0 == c0);
    }
    lemma_moves_lookup(m, 0);
    assert forall|k: char| #[trigger] moves_view(m).dom().contains(k) == moves_view(rest).insert(
        c0,
        m[0].1@,
    ).dom().contains(k) && (moves_view(m).dom().contains(k) ==> moves_view(m)[k] == moves_view(
        rest,
    ).insert(c0, m[0].1@)[k]) by {
        if k != c0 && moves_view(m).contains_key(k) {
            let j = choose|j: int| 0 <= j < m.len() && m[j].0 == k;
            assert(j > 0);
            assert(rest[j - 1] == m[j]);
            lemma_moves_lookup(m, j);
            lemma_moves_lookup(rest, j - 1);
        }
        if k != c0 && moves_view(rest).contains_key(k) {
            let j = choose|j: int| 0 <= j < rest.len() && rest[j].0 == k;
            assert(m[j + 1] == rest[j]);
        }
    }
    assert(moves_view(m).dom() =~= moves_view(rest).insert(c0, m[0].1@).dom());
    assert(moves_view(m) =~= moves_view(rest).insert(c0, m[0].1@));
}

proof fn lemma_with_pairs_moves(b: Map<char, Seq<char>>, m: Seq<(char, Vec<char>)>)
    requires
        moves_distinct(m),
    ensures
        with_pairs(b, move_words(m)) == b.union_prefer_right(moves_view(m)),
    decreases m.len(),
{
    if m.len() == 0 {
        assert(move_words(m) == Seq::<Seq<char>>::empty());
        assert(moves_view(m) =~= Map::<char, Seq<char>>::empty());
        assert(b.union_prefer_right(moves_view(m)) =~= b);
    } else {
        let rest = m.drop_first();
        let c0 = m[0].0;
        let t0 = m[0].1@;
        lemma_moves_view_first(m);
        let mw = move_words(m);
        assert(mw[0] == seq![c0] && mw[1] == t0);
        assert(mw.subrange(2, mw.len() as int) =~= move_words(rest));
        assert(seq![c0].drop_last() =~= Seq::<char>::empty());
        assert(with_group(b, Seq::<char>::empty(), t0) == b);
        assert(with_group(b, seq![c0], t0) == b.insert(c0, t0));
        lemma_with_pairs_moves(b.insert(c0, t0), rest);
        assert(b.insert(c0, t0).union_prefer_right(moves_view(rest)) =~= b.union_prefer_right(
            moves_view(m),
        ));
    }
}

proof fn lemma_table_view_first(t: Seq<StateMoves>)
    requires
        table_wf(t),
        t.len() > 0,
    ensures
        table_wf(t.drop_first()),
        !table_view(t.drop_first()).contains_key(t[0].state@),
        table_view(t) == table_view(t.drop_first()).insert(t[0].state@, moves_view(t[0].moves@)),
{
    let rest = t.drop_first();
    let q0 = t[0].state@;
    assert(table_wf(rest)) by {
        assert forall|i: int, j: int| 0 <= i < j < rest.len() implies rest[i].state@
            != rest[j].state@ by {
            assert(rest[i] == t[i + 1] && rest[j] == t[j + 1]);
        }
        assert forall|i: int| 0 <= i < rest.len() implies moves_distinct(#[trigger] rest[i].moves@) by {
            assert(rest[i] == t[i + 1]);
            assert(moves_distinct(t[i + 1].moves@));
        }
    }
    if table_view(rest).contains_key(q0) {
        let j = choose|j: int| 0 <= j < rest.len() && rest[j].state@ == q0;
        assert(t[j + 1].state@ == q0);
    }
    lemma_table_lookup(t, 0);
    let v0 = moves_view(t[0].moves@);
    assert forall|k: Seq<char>| #[trigger] table_view(t).dom().contains(k) == table_view(
        rest,
    ).insert(q0, v0).dom().contains(k) && (table_view(t).dom().contains(k) ==> table_view(t)[k]
        == table_view(rest).insert(q0, v0)[k]) by {
        if k != q0 && table_view(t).contains_key(k) {
            let j = choose|j: int| 0 <= j < t.len() && t[j].state@ == k;
            assert(j > 0);
            assert(rest[j - 1] == t[j]);
            lemma_table_lookup(t, j);
            lemma_table_lookup(rest, j - 1);
        }
        if k != q0 && table_view(rest).contains_key(k) {
            let j = choose|j: int| 0 <= j < rest.len() && rest[j].state@ == k;
            assert(t[j + 1] == rest[j]);
        }
    }
    assert(table_view(t).dom() =~= table_view(rest).insert(q0, v0).dom());
    assert(table_view(t) =~= table_view(rest).insert(q0, v0));
}

/// The transition lines of a list of tables.
pub open spec fn table_lines(t: Seq<StateMoves>) -> Seq<Seq<char>> {
    t.map_values(|e: StateMoves| table_line(e))
}

proof fn lemma_table_line(e: StateMoves)
    requires
        is_word(e.state@),
        e.state@[0] != '#',
        moves_shape(e.moves@),
    ensures
        words(table_line(e)) == seq![e.state@] + move_words(e.moves@),
        clean_line(table_line(e)),
        trim(table_line(e)) == table_line(e),
{
    let ws = seq![e.state@] + move_words(e.moves@);
    lemma_move_words_shape(e.moves@);
    assert(all_words(ws)) by {
        assert forall|i: int| 0 <= i < ws.len() implies is_word(#[trigger] ws[i]) by {
            if i > 0 {
                assert(ws[i] == move_words(e.moves@)[i - 1]);
            }
        }
    }
    lemma_words_join(ws);
    let l = table_line(e);
    assert(is_word(ws.last()));
    assert(ws.last()[ws.last().len() - 1] == ws.last().last());
    lemma_trim_fixed(l);
}

proof fn lemma_with_lines_tables(d: Map<Seq<char>, Map<char, Seq<char>>>, t: Seq<StateMoves>)
    requires
        table_wf(t),
        table_shape(t),
        forall|i: int| 0 <= i < t.len() ==> !d.contains_key(#[trigger] t[i].state@),
    ensures
        with_lines(d, table_lines(t)) == d.union_prefer_right(table_view(t)),
    decreases t.len(),
{
    if t.len() == 0 {
        assert(table_lines(t) =~= Seq::<Seq<char>>::empty());
        assert(table_view(t) =~= Map::<Seq<char>, Map<char, Seq<char>>>::empty());
        assert(d.union_prefer_right(table_view(t)) =~= d);
    } else {
        let e = t[0];
        let rest = t.drop_first();
        let q = e.state@;
        assert(is_word(e.state@) && e.state@[0] != '#' && moves_shape(e.moves@));
        lemma_table_line(e);
        lemma_table_view_first(t);
        let ws = words(table_line(e));
        assert(ws[0] == q);
        assert(ws.drop_first() =~= move_words(e.moves@));
        assert(!d.contains_key(t[0].state@));
        assert(moves_distinct(t[0].moves@));
        lemma_with_pairs_moves(Map::empty(), e.moves@);
        assert(Map::<char, Seq<char>>::empty().union_prefer_right(moves_view(e.moves@)) =~= moves_view(
            e.moves@,
        ));
        let d1 = d.insert(q, moves_view(e.moves@));
        assert(with_line(d, ws) == d1);
        assert(table_lines(t)[0] == table_line(e));
        assert(table_lines(t).drop_first() =~= table_lines(rest));
        assert(table_shape(rest)) by {
            assert forall|i: int| 0 <= i < rest.len() implies is_word((#[trigger] rest[i]).state@)
                && rest[i].state@[0] != '#' && moves_shape(rest[i].moves@) by {
                assert(rest[i] == t[i + 1]);
            }
        }
        assert forall|i: int| 0 <= i < rest.len() implies !d1.contains_key(#[trigger] rest[i].state@) by {
            assert(rest[i] == t[i + 1]);
            assert(t[0].state@ != t[i + 1].state@);
            assert(!d.contains_key(t[i + 1].state@));
        }
        lemma_with_lines_tables(d1, rest);
        assert(d1.union_prefer_right(table_view(rest)) =~= d.union_prefer_right(table_view(t)));
    }
}

/// Writing a parsed automaton out and reading the text back gives an
/// automaton with the same states, initial state, final states and
/// transitions, so it answers every token exactly as the original does.
pub proof fn lemma_round_trip(a: FiniteAutomaton, w: Seq<char>)
    requires
        a.wf(),
    ensures
        parse(render(a)) is Ok,
        parse(render(a))->Ok_0.states == a@.states,
        parse(render(a))->Ok_0.initial == a@.initial,
        parse(render(a))->Ok_0.finals == a@.finals,
        parse(render(a))->Ok_0.delta == a@.delta,
        outcome(parse(render(a))->Ok_0, w) == outcome(a@, w),
{
    let ls = text_lines(a);
    let t = a.transitions@;
    let sn = views(a.states@);
    let fnames = views(a.final_states@);
    assert(all_words(sn)) by {
        assert forall|i: int| 0 <= i < sn.len() implies is_word(#[trigger] sn[i]) by {
            assert(sn[i] == a.states@[i]@);
        }
    }
    assert(all_words(fnames)) by {
        assert forall|i: int| 0 <= i < fnames.len() implies is_word(#[trigger] fnames[i]) by {
            assert(fnames[i] == a.final_states@[i]@);
        }
    }
    lemma_words_join(sn);
    lemma_words_join(fnames);
    assert(sn[0] == a.states@[0]@ && fnames[0] == a.final_states@[0]@);
    assert(is_word(sn.last()) && is_word(fnames.last()));
    assert(sn.last()[sn.last().len() - 1] == sn.last().last());
    assert(fnames.last()[fnames.last().len() - 1] == fnames.last().last());
    lemma_trim_fixed(join(sn));
    lemma_trim_fixed(join(fnames));
    lemma_trim_fixed(a.initial_state@);
    let alpha = a.alphabet@;
    lemma_trim_end(alpha);
    assert(trim_start(alpha) == alpha);
    let alpha_ok = !alpha.contains('\n');
    assert(forall|i: int| 0 <= i < t.len() ==> clean_line(#[trigger] table_lines(t)[i])
        && trim(table_lines(t)[i]) == table_lines(t)[i]) by {
        assert forall|i: int| 0 <= i < t.len() implies clean_line(#[trigger] table_lines(t)[i])
            && trim(table_lines(t)[i]) == table_lines(t)[i] by {
            assert(is_word(t[i].state@) && t[i].state@[0] != '#' && moves_shape(t[i].moves@));
            lemma_table_line(t[i]);
        }
    }
    assert(ls == seq![join(sn), a.initial_state@, join(fnames), alpha] + table_lines(t));
    assert forall|i: int| 0 <= i < ls.len() implies !(#[trigger] ls[i]).contains('\n')
        && significant(trim(ls[i])) by {
        if i >= 4 {
            assert(ls[i] == table_lines(t)[i - 4]);
        }
    }
    lemma_lines_unlines(ls);
    lemma_content_blank_end(ls);
    lemma_content_trimmed(ls);
    let cl = content_lines(lines(render(a)));
    assert(cl == ls.map_values(|l: Seq<char>| trim(l)));
    assert(cl.len() == 4 + t.len());
    assert(cl[0] == join(sn));
    assert(cl[1] == a.initial_state@);
    assert(cl[2] == join(fnames));
    assert(cl.subrange(4, cl.len() as int) =~= table_lines(t)) by {
        assert forall|i: int| 0 <= i < t.len() implies cl[4 + i] == #[trigger] table_lines(t)[i] by {
            assert(ls[4 + i] == table_lines(t)[i]);
        }
    }
    lemma_with_lines_tables(Map::empty(), t);
    assert(Map::<Seq<char>, Map<char, Seq<char>>>::empty().union_prefer_right(table_view(t))
        =~= table_view(t));
}

} // verus!
