//! Character-level helpers: white space, line splitting, trimming and words.

use vstd::prelude::*;

verus! {

/// The characters that Rust's `char::is_whitespace` reports (Unicode `White_Space`).
pub open spec fn is_space(c: char) -> bool {
    ||| ('\u{9}' <= c && c <= '\u{d}')
    ||| c == ' '
    ||| c == '\u{85}'
    ||| c == '\u{a0}'
    ||| c == '\u{1680}'
    ||| ('\u{2000}' <= c && c <= '\u{200a}')
    ||| c == '\u{2028}'
    ||| c == '\u{2029}'
    ||| c == '\u{202f}'
    ||| c == '\u{205f}'
    ||| c == '\u{3000}'
}

/// Whether `c` is white space.
pub fn space(c: char) -> (r: bool)
    ensures
        r == is_space(c),
{
    ('\u{9}' <= c && c <= '\u{d}') || c == ' ' || c == '\u{85}' || c == '\u{a0}' || c == '\u{1680}'
        || ('\u{2000}' <= c && c <= '\u{200a}') || c == '\u{2028}' || c == '\u{2029}' || c
        == '\u{202f}' || c == '\u{205f}' || c == '\u{3000}'
}

/// The characters of a string, in order.
pub fn chars_of(s: &str) -> (r: Vec<char>)
    ensures
        r@ == s@,
{
    let mut r: Vec<char> = Vec::new();
    for c in it: s.chars()
        invariant
            r@ == it.seq().take(it.index() as int),
            it.seq() == s@,
    {
        r.push(c);
    }
    r
}

/// The character sequences held by a sequence of vectors.
pub open spec fn views(v: Seq<Vec<char>>) -> Seq<Seq<char>> {
    v.map_values(|w: Vec<char>| w@)
}

/// The pieces of `t` between newline characters, in order; an empty text
/// gives one empty piece.
pub open spec fn lines(t: Seq<char>) -> Seq<Seq<char>>
    decreases t.len(),
{
    if t.len() == 0 {
        seq![Seq::<char>::empty()]
    } else {
        let prev = lines(t.drop_last());
        if t.last() == '\n' {
            prev.push(Seq::<char>::empty())
        } else {
            prev.update(prev.len() - 1, prev.last().push(t.last()))
        }
    }
}

/// Splitting always gives at least one line.
pub proof fn lemma_lines_nonempty(t: Seq<char>)
    ensures
        lines(t).len() >= 1,
    decreases t.len(),
{
    if t.len() > 0 {
        lemma_lines_nonempty(t.drop_last());
    }
}

/// Splits `t` at each newline character.
pub fn split_lines(t: &Vec<char>) -> (r: Vec<Vec<char>>)
    ensures
        views(r@) == lines(t@),
{
    let mut r: Vec<Vec<char>> = Vec::new();
    let mut cur: Vec<char> = Vec::new();
    let mut i: usize = 0;
    while i < t.len()
        invariant
            i <= t.len(),
            views(r@).push(cur@) == lines(t@.take(i as int)),
        decreases t.len() - i,
    {
        let c = t[i];
        proof {
            lemma_lines_nonempty(t@.take(i as int));
            assert(t@.take(i as int + 1).drop_last() == t@.take(i as int));
        }
        if c == '\n' {
            let done = cur;
            cur = Vec::new();
            proof {
                assert(views(r@).push(done@) == lines(t@.take(i as int)));
            }
            let ghost old_r = r@;
            r.push(done);
            assert(r@ == old_r.push(done));
            assert(views(r@) =~= lines(t@.take(i as int)));
            assert(views(r@).push(cur@) =~= lines(t@.take(i as int + 1)));
        } else {
            let ghost before = views(r@).push(cur@);
            cur.push(c);
            assert(views(r@).push(cur@) =~= before.update(before.len() - 1, before.last().push(c)));
        }
        i = i + 1;
    }
    assert(t@.take(t.len() as int) =~= t@);
    let ghost old_r = r@;
    r.push(cur);
    assert(r@ == old_r.push(cur));
    assert(views(r@) =~= lines(t@));
    r
}

/// `s` without its leading white space.
pub open spec fn trim_start(s: Seq<char>) -> Seq<char>
    decreases s.len(),
{
    if s.len() > 0 && is_space(s[0]) {
        trim_start(s.drop_first())
    } else {
        s
    }
}

/// `s` without its trailing white space.
pub open spec fn trim_end(s: Seq<char>) -> Seq<char>
    decreases s.len(),
{
    if s.len() > 0 && is_space(s.last()) {
        trim_end(s.drop_last())
    } else {
        s
    }
}

/// `s` without leading and trailing white space.
pub open spec fn trim(s: Seq<char>) -> Seq<char> {
    trim_end(trim_start(s))
}

/// The characters of `v` from `from` up to, not including, `to`.
pub fn copy_range(v: &Vec<char>, from: usize, to: usize) -> (r: Vec<char>)
    requires
        from <= to <= v.len(),
    ensures
        r@ == v@.subrange(from as int, to as int),
{
    let mut r: Vec<char> = Vec::new();
    let mut i: usize = from;
    while i < to
        invariant
            from <= i <= to <= v.len(),
            r@ == v@.subrange(from as int, i as int),
        decreases to - i,
    {
        r.push(v[i]);
        assert(r@ =~= v@.subrange(from as int, i as int + 1));
        i = i + 1;
    }
    r
}

/// Removes leading and trailing white space.
pub fn trimmed(l: &Vec<char>) -> (r: Vec<char>)
    ensures
        r@ == trim(l@),
{
    let n = l.len();
    let mut i: usize = 0;
    assert(l@.subrange(0, n as int) =~= l@);
    while i < n && space(l[i])
        invariant
            i <= n == l.len(),
            trim_start(l@) == trim_start(l@.subrange(i as int, n as int)),
        decreases n - i,
    {
        assert(l@.subrange(i as int, n as int).drop_first() =~= l@.subrange(i as int + 1, n as int));
        i = i + 1;
    }
    let mut j: usize = n;
    while j > i && space(l[j - 1])
        invariant
            i <= j <= n == l.len(),
            trim_end(l@.subrange(i as int, n as int)) == trim_end(l@.subrange(i as int, j as int)),
        decreases j - i,
    {
        assert(l@.subrange(i as int, j as int).drop_last() =~= l@.subrange(i as int, j - 1));
        j = j - 1;
    }
    copy_range(l, i, j)
}

/// The maximal runs of characters of `s` that are not white space, in order.
pub open spec fn words(s: Seq<char>) -> Seq<Seq<char>>
    decreases s.len(),
{
    if s.len() == 0 {
        Seq::empty()
    } else {
        let prev = words(s.drop_last());
        let c = s.last();
        if is_space(c) {
            prev
        } else if s.len() >= 2 && !is_space(s[s.len() - 2]) {
            prev.update(prev.len() - 1, prev.last().push(c))
        } else {
            prev.push(seq![c])
        }
    }
}

/// A text that ends inside a word has at least one word.
pub proof fn lemma_words_open(s: Seq<char>)
    requires
        s.len() > 0,
        !is_space(s.last()),
    ensures
        words(s).len() > 0,
    decreases s.len(),
{
    if s.len() >= 2 && !is_space(s[s.len() - 2]) {
        lemma_words_open(s.drop_last());
    }
}

/// Splits `l` into its words.
pub fn split_words(l: &Vec<char>) -> (r: Vec<Vec<char>>)
    ensures
        views(r@) == words(l@),
{
    let mut r: Vec<Vec<char>> = Vec::new();
    let mut cur: Vec<char> = Vec::new();
    let mut inside: bool = false;
    let mut i: usize = 0;
    while i < l.len()
        invariant
            i <= l.len(),
            inside == (i > 0 && !is_space(l@[i - 1])),
            inside ==> cur@.len() > 0 && views(r@).push(cur@) == words(l@.take(i as int)),
            !inside ==> views(r@) == words(l@.take(i as int)),
        decreases l.len() - i,
    {
        let c = l[i];
        let ghost pre = l@.take(i as int);
        assert(l@.take(i as int + 1).drop_last() == pre);
        if space(c) {
            if inside {
                let done = cur;
                cur = Vec::new();
                let ghost old_r = r@;
                r.push(done);
                assert(r@ == old_r.push(done));
                assert(views(r@) =~= views(old_r).push(done@));
            }
            inside = false;
        } else if inside {
            let ghost before = views(r@).push(cur@);
            proof {
                lemma_words_open(pre);
            }
            cur.push(c);
            assert(views(r@).push(cur@) =~= before.update(before.len() - 1, before.last().push(c)));
        } else {
            cur = Vec::new();
            cur.push(c);
            assert(cur@ =~= seq![c]);
            inside = true;
        }
        i = i + 1;
    }
    assert(l@.take(l.len() as int) =~= l@);
    if inside {
        let ghost old_r = r@;
        r.push(cur);
        assert(r@ == old_r.push(cur));
        assert(views(r@) =~= views(old_r).push(cur@));
    }
    r
}

/// Whether two character vectors hold the same characters.
pub fn same_chars(a: &Vec<char>, b: &Vec<char>) -> (r: bool)
    ensures
        r == (a@ == b@),
{
    if a.len() != b.len() {
        return false;
    }
    let mut i: usize = 0;
    while i < a.len()
        invariant
            i <= a.len() == b.len(),
            a@.take(i as int) == b@.take(i as int),
        decreases a.len() - i,
    {
        if a[i] != b[i] {
            assert(a@[i as int] != b@[i as int]);
            return false;
        }
        assert(a@.take(i as int + 1) =~= a@.take(i as int).push(a@[i as int]));
        assert(b@.take(i as int + 1) =~= b@.take(i as int).push(b@[i as int]));
        i = i + 1;
    }
    assert(a@ =~= a@.take(i as int));
    assert(b@ =~= b@.take(i as int));
    true
}

/// A trimmed line that carries content: not empty, not a comment.
pub open spec fn significant(l: Seq<char>) -> bool {
    l.len() > 0 && l[0] != '#'
}

/// A line as the parser keeps it: with content, trimmed, and without newline.
pub open spec fn clean_line(l: Seq<char>) -> bool {
    &&& significant(l)
    &&& !is_space(l[0])
    &&& !is_space(l.last())
    &&& !l.contains('\n')
}

/// A non-empty run of characters without white space.
pub open spec fn is_word(w: Seq<char>) -> bool {
    w.len() > 0 && forall|i: int| 0 <= i < w.len() ==> !is_space(#[trigger] w[i])
}

/// Every word found is a non-empty run without white space.
pub proof fn lemma_words_are_words(s: Seq<char>)
    ensures
        forall|i: int| 0 <= i < words(s).len() ==> is_word(#[trigger] words(s)[i]),
    decreases s.len(),
{
    if s.len() > 0 {
        lemma_words_are_words(s.drop_last());
        let c = s.last();
        if !is_space(c) && s.len() >= 2 && !is_space(s[s.len() - 2]) {
            lemma_words_open(s.drop_last());
            let prev = words(s.drop_last());
            assert(is_word(prev.last()));
            assert(is_word(prev.last().push(c)));
        } else if !is_space(c) {
            assert(is_word(seq![c]));
        }
    }
}

/// A text that starts with a non-space character starts its first word.
pub proof fn lemma_words_first(s: Seq<char>)
    requires
        s.len() > 0,
        !is_space(s[0]),
    ensures
        words(s).len() > 0,
        words(s)[0].len() > 0,
        words(s)[0][0] == s[0],
    decreases s.len(),
{
    lemma_words_are_words(s);
    if s.len() > 1 {
        assert(s.drop_last()[0] == s[0]);
        lemma_words_first(s.drop_last());
        let prev = words(s.drop_last());
        let c = s.last();
        lemma_words_are_words(s.drop_last());
        if !is_space(c) && !is_space(s[s.len() - 2]) {
            assert(is_word(prev[prev.len() - 1]));
            assert(prev.last().push(c)[0] == prev.last()[0]);
            if prev.len() == 1 {
                assert(prev.last() == prev[0]);
            }
            assert(words(s) == prev.update(prev.len() - 1, prev.last().push(c)));
            assert(words(s)[0][0] == s[0]);
        } else if !is_space(c) {
            assert(words(s) == prev.push(seq![c]));
            assert(words(s)[0] == prev[0]);
        } else {
            assert(words(s) == prev);
        }
    } else {
        assert(words(s.drop_last()) == Seq::<Seq<char>>::empty());
        assert(words(s) == seq![seq![s[0]]]);
    }
}

/// No line holds a newline.
pub proof fn lemma_lines_no_newline(t: Seq<char>)
    ensures
        forall|i: int| 0 <= i < lines(t).len() ==> !(#[trigger] lines(t)[i]).contains('\n'),
    decreases t.len(),
{
    if t.len() > 0 {
        lemma_lines_no_newline(t.drop_last());
        lemma_lines_nonempty(t.drop_last());
        let prev = lines(t.drop_last());
        if t.last() != '\n' {
            let l = prev.last();
            assert(!l.contains('\n'));
            assert forall|k: int| 0 <= k < l.push(t.last()).len() implies l.push(t.last())[k] != '\n' by {
                if k < l.len() {
                    assert(l[k] != '\n');
                }
            }
        }
    }
}

/// Trimming the start keeps a suffix, which starts with a non-space character.
pub proof fn lemma_trim_start(s: Seq<char>)
    ensures
        exists|k: int| 0 <= k <= s.len() && trim_start(s) == s.subrange(k, s.len() as int),
        trim_start(s).len() > 0 ==> !is_space(trim_start(s)[0]),
    decreases s.len(),
{
    if s.len() > 0 && is_space(s[0]) {
        lemma_trim_start(s.drop_first());
        let k = choose|k: int|
            0 <= k <= s.drop_first().len() && trim_start(s.drop_first()) == s.drop_first().subrange(
                k,
                s.drop_first().len() as int,
            );
        assert(s.drop_first().subrange(k, s.drop_first().len() as int) =~= s.subrange(k + 1, s.len() as int));
    } else {
        assert(s.subrange(0, s.len() as int) =~= s);
    }
}

/// Trimming the end keeps a prefix, which ends with a non-space character.
pub proof fn lemma_trim_end(s: Seq<char>)
    ensures
        exists|k: int| 0 <= k <= s.len() && trim_end(s) == s.subrange(0, k),
        trim_end(s).len() > 0 ==> !is_space(trim_end(s).last()),
        s.len() > 0 && !is_space(s[0]) ==> trim_end(s).len() > 0 && trim_end(s)[0] == s[0],
    decreases s.len(),
{
    if s.len() > 0 && is_space(s.last()) {
        lemma_trim_end(s.drop_last());
        let k = choose|k: int|
            0 <= k <= s.drop_last().len() && trim_end(s.drop_last()) == s.drop_last().subrange(0, k);
        assert(s.drop_last().subrange(0, k) =~= s.subrange(0, k));
    } else {
        assert(s.subrange(0, s.len() as int) =~= s);
    }
}

/// Facts about a trimmed line: its ends are not white space, and it holds no
/// character that the line did not hold.
pub proof fn lemma_trim(s: Seq<char>)
    ensures
        trim(s).len() > 0 ==> !is_space(trim(s)[0]) && !is_space(trim(s).last()),
        forall|c: char| trim(s).contains(c) ==> s.contains(c),
{
    lemma_trim_start(s);
    lemma_trim_end(trim_start(s));
    let a = choose|k: int| 0 <= k <= s.len() && trim_start(s) == s.subrange(k, s.len() as int);
    let t = trim_start(s);
    let b = choose|k: int| 0 <= k <= t.len() && trim_end(t) == t.subrange(0, k);
    assert forall|c: char| trim(s).contains(c) implies s.contains(c) by {
        let i = choose|i: int| 0 <= i < trim(s).len() && trim(s)[i] == c;
        assert(s[a + i] == c);
    }
}

/// A line whose ends are not white space is its own trimmed form.
pub proof fn lemma_trim_fixed(s: Seq<char>)
    requires
        s.len() > 0,
        !is_space(s[0]),
        !is_space(s.last()),
    ensures
        trim(s) == s,
{
}

/// Characters without a newline extend the last line.
pub proof fn lemma_lines_concat(s: Seq<char>, l: Seq<char>)
    requires
        !l.contains('\n'),
    ensures
        lines(s + l) == lines(s).update(lines(s).len() - 1, lines(s).last() + l),
    decreases l.len(),
{
    lemma_lines_nonempty(s);
    if l.len() == 0 {
        assert(s + l =~= s);
        assert(lines(s).last() + l =~= lines(s).last());
        assert(lines(s).update(lines(s).len() - 1, lines(s).last() + l) =~= lines(s));
    } else {
        let l0 = l.drop_last();
        assert(!l0.contains('\n')) by {
            if l0.contains('\n') {
                let k = choose|k: int| 0 <= k < l0.len() && l0[k] == '\n';
                assert(l[k] == '\n');
            }
        }
        lemma_lines_concat(s, l0);
        assert((s + l).drop_last() =~= s + l0);
        assert((s + l).last() == l.last());
        assert(l.last() != '\n') by {
            assert(l[l.len() - 1] == l.last());
        }
        assert((lines(s).last() + l0).push(l.last()) =~= lines(s).last() + l);
        assert(lines(s + l) =~= lines(s).update(lines(s).len() - 1, lines(s).last() + l));
    }
}

} // verus!
