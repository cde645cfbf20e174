//! Character-level text handling: whitespace, and splitting a text into
//! lines, `/`-separated pieces and words.

use vstd::prelude::*;

verus! {

/// The Unicode `White_Space` property, which is what `char::is_whitespace`
/// tests and what `str::split_whitespace` splits on.
pub open spec fn is_space(c: char) -> bool {
    ||| '\u{9}' <= c <= '\u{D}'
    ||| c == ' '
    ||| c == '\u{85}'
    ||| c == '\u{A0}'
    ||| c == '\u{1680}'
    ||| '\u{2000}' <= c <= '\u{200A}'
    ||| c == '\u{2028}'
    ||| c == '\u{2029}'
    ||| c == '\u{202F}'
    ||| c == '\u{205F}'
    ||| c == '\u{3000}'
}

/// The sequences of chars held by a sequence of vectors.
pub open spec fn views(v: Seq<Vec<char>>) -> Seq<Seq<char>> {
    v.map_values(|x: Vec<char>| x@)
}

/// The pieces of `s` between occurrences of `sep`, empty pieces included,
/// in order; there is always at least one piece (what `str::split` gives for
/// a one-char pattern).
pub open spec fn split_on(s: Seq<char>, sep: char) -> Seq<Seq<char>>
    decreases s.len(),
{
    if s.len() == 0 {
        seq![Seq::empty()]
    } else {
        let p = split_on(s.drop_last(), sep);
        if s.last() == sep {
            p.push(Seq::empty())
        } else {
            p.drop_last().push(p.last().push(s.last()))
        }
    }
}

/// Drops one trailing carriage return.
pub open spec fn strip_cr(l: Seq<char>) -> Seq<char> {
    if l.len() > 0 && l.last() == '\r' {
        l.drop_last()
    } else {
        l
    }
}

/// The lines of a text, as `str::lines` gives them: split at `'\n'`, a
/// `'\r'` just before a `'\n'` removed, and no line after a final `'\n'`.
pub open spec fn text_lines(t: Seq<char>) -> Seq<Seq<char>> {
    let p = split_on(t, '\n');
    let done = p.drop_last().map_values(|l: Seq<char>| strip_cr(l));
    if p.last().len() == 0 {
        done
    } else {
        done.push(p.last())
    }
}

/// The maximal runs of non-whitespace chars of `s`, in order (what
/// `str::split_whitespace` yields). A char that is not whitespace either
/// extends the word that the previous char belongs to, or starts a new one.
pub open spec fn words(s: Seq<char>) -> Seq<Seq<char>>
    decreases s.len(),
{
    if s.len() == 0 {
        Seq::empty()
    } else {
        let w = words(s.drop_last());
        let c = s.last();
        if is_space(c) {
            w
        } else if s.len() >= 2 && !is_space(s[s.len() - 2]) {
            w.drop_last().push(w.last().push(c))
        } else {
            w.push(seq![c])
        }
    }
}

/// Whether a word begins with `#`, which opens a comment.
pub open spec fn starts_with_hash(w: Seq<char>) -> bool {
    w.len() > 0 && w[0] == '#'
}

/// The words before the first one that begins with `#`.
pub open spec fn before_comment(ws: Seq<Seq<char>>) -> Seq<Seq<char>>
    decreases ws.len(),
{
    if ws.len() == 0 {
        ws
    } else if starts_with_hash(ws[0]) {
        Seq::empty()
    } else {
        seq![ws[0]] + before_comment(ws.drop_first())
    }
}

pub proof fn lemma_split_on_nonempty(s: Seq<char>, sep: char)
    ensures
        split_on(s, sep).len() >= 1,
    decreases s.len(),
{
    if s.len() > 0 {
        lemma_split_on_nonempty(s.drop_last(), sep);
    }
}

proof fn lemma_views_push(v: Seq<Vec<char>>, x: Vec<char>)
    ensures
        views(v.push(x)) == views(v).push(x@),
{
    assert(views(v.push(x)) =~= views(v).push(x@));
}

proof fn lemma_before_comment_prefix(ws: Seq<Seq<char>>, k: int)
    requires
        0 <= k <= ws.len(),
        forall|j: int| 0 <= j < k ==> !starts_with_hash(#[trigger] ws[j]),
        k == ws.len() || starts_with_hash(ws[k]),
    ensures
        before_comment(ws) == ws.take(k),
    decreases ws.len(),
{
    if ws.len() == 0 {
        assert(ws.take(k) =~= ws);
    } else if k == 0 {
        assert(ws.take(k) =~= Seq::<Seq<char>>::empty());
    } else {
        let rest = ws.drop_first();
        assert forall|j: int| 0 <= j < k - 1 implies !starts_with_hash(#[trigger] rest[j]) by {
            assert(rest[j] == ws[j + 1]);
        }
        lemma_before_comment_prefix(rest, k - 1);
        assert(seq![ws[0]] + rest.take(k - 1) =~= ws.take(k));
    }
}

/// Splitting a concatenation: the last piece of `s` joins the first piece of
/// `t`.
pub proof fn lemma_split_on_append(s: Seq<char>, t: Seq<char>, sep: char)
    ensures
        split_on(s + t, sep) == split_on(s, sep).drop_last() + seq![
            split_on(s, sep).last() + split_on(t, sep)[0],
        ] + split_on(t, sep).drop_first(),
    decreases t.len(),
{
    lemma_split_on_nonempty(s, sep);
    lemma_split_on_nonempty(t, sep);
    let ps = split_on(s, sep);
    if t.len() == 0 {
        assert(s + t =~= s);
        assert(ps.last() + split_on(t, sep)[0] =~= ps.last());
        assert(ps.drop_last() + seq![ps.last()] + split_on(t, sep).drop_first() =~= ps);
    } else {
        let t0 = t.drop_last();
        let c = t.last();
        lemma_split_on_append(s, t0, sep);
        lemma_split_on_nonempty(t0, sep);
        assert((s + t).drop_last() =~= s + t0);
        assert((s + t).last() == c);
        let p0 = split_on(t0, sep);
        let x = ps.drop_last() + seq![ps.last() + p0[0]] + p0.drop_first();
        assert(split_on(s + t0, sep) == x);
        if c == sep {
            assert(split_on(t, sep) == p0.push(Seq::empty()));
            assert(x.push(Seq::empty()) =~= ps.drop_last() + seq![ps.last() + p0.push(Seq::empty())[0]]
                + p0.push(Seq::empty()).drop_first());
        } else {
            let pt = p0.drop_last().push(p0.last().push(c));
            assert(split_on(t, sep) == pt);
            if p0.len() == 1 {
                assert(pt[0] == p0[0].push(c));
                assert(x.last() == ps.last() + p0[0]);
                assert((ps.last() + p0[0]).push(c) =~= ps.last() + p0[0].push(c));
                assert(x.drop_last().push(x.last().push(c)) =~= ps.drop_last() + seq![
                    ps.last() + pt[0],
                ] + pt.drop_first());
            } else {
                assert(pt[0] == p0[0]);
                assert(x.last() == p0.last());
                assert(x.drop_last().push(x.last().push(c)) =~= ps.drop_last() + seq![
                    ps.last() + pt[0],
                ] + pt.drop_first());
            }
        }
    }
}

/// The lines of a concatenation are the lines of each part, when the first
/// part is empty or ends with a line break.
pub proof fn lemma_text_lines_append(t1: Seq<char>, t2: Seq<char>)
    requires
        t1.len() == 0 || t1.last() == '\n',
    ensures
        text_lines(t1 + t2) == text_lines(t1) + text_lines(t2),
{
    if t1.len() == 0 {
        assert(t1 + t2 =~= t2);
        assert(text_lines(t1) =~= Seq::<Seq<char>>::empty());
        assert(text_lines(t1) + text_lines(t2) =~= text_lines(t2));
    } else {
        lemma_split_on_append(t1, t2, '\n');
        lemma_split_on_nonempty(t2, '\n');
        lemma_split_on_nonempty(t1.drop_last(), '\n');
        let p1 = split_on(t1, '\n');
        let p2 = split_on(t2, '\n');
        assert(p1.last() =~= Seq::<char>::empty());
        assert(p1.last() + p2[0] =~= p2[0]);
        let p = split_on(t1 + t2, '\n');
        assert(p =~= p1.drop_last() + p2);
        let f = |l: Seq<char>| strip_cr(l);
        assert(p.drop_last() =~= p1.drop_last() + p2.drop_last());
        assert(p.last() == p2.last());
        assert(p.drop_last().map_values(f) =~= p1.drop_last().map_values(f) + p2.drop_last().map_values(f));
        assert(text_lines(t1) =~= p1.drop_last().map_values(f));
        if p2.last().len() == 0 {
            assert(text_lines(t1 + t2) =~= text_lines(t1) + text_lines(t2));
        } else {
            assert(text_lines(t1 + t2) =~= text_lines(t1) + text_lines(t2));
        }
    }
}

/// The words before a comment are the first words, in order: none of them
/// begins with `#`, and the word after them, if any, does.
pub proof fn lemma_before_comment_is_prefix(ws: Seq<Seq<char>>)
    ensures
        before_comment(ws).len() <= ws.len(),
        forall|i: int| 0 <= i < before_comment(ws).len() ==> #[trigger] before_comment(ws)[i] == ws[i],
        forall|i: int| 0 <= i < before_comment(ws).len() ==> !starts_with_hash(#[trigger] ws[i]),
        before_comment(ws).len() < ws.len() ==> starts_with_hash(ws[before_comment(ws).len() as int]),
    decreases ws.len(),
{
    if ws.len() > 0 && !starts_with_hash(ws[0]) {
        let rest = ws.drop_first();
        lemma_before_comment_is_prefix(rest);
        let b = before_comment(ws);
        assert(b == seq![ws[0]] + before_comment(rest));
        assert forall|i: int| 0 <= i < b.len() implies #[trigger] b[i] == ws[i] by {
            if i > 0 {
                assert(b[i] == before_comment(rest)[i - 1]);
                assert(rest[i - 1] == ws[i]);
            }
        }
        assert forall|i: int| 0 <= i < b.len() implies !starts_with_hash(#[trigger] ws[i]) by {
            if i > 0 {
                assert(rest[i - 1] == ws[i]);
            }
        }
        if b.len() < ws.len() {
            assert(rest[b.len() - 1] == ws[b.len() as int]);
        }
    }
}

/// The pieces never hold the separator; a text without the separator
/// (the empty text among them) is one piece; and splitting `a`, the
/// separator, then `b` gives the pieces of `a` followed by those of `b`.
pub proof fn law_split_on(a: Seq<char>, b: Seq<char>, sep: char)
    ensures
        (forall|j: int| 0 <= j < a.len() ==> a[j] != sep) ==> split_on(a, sep) == seq![a],
        split_on(a + seq![sep] + b, sep) == split_on(a, sep) + split_on(b, sep),
        forall|i: int, j: int|
            0 <= i < split_on(a, sep).len() && 0 <= j < split_on(a, sep)[i].len() ==> #[trigger] split_on(
                a,
                sep,
            )[i][j] != sep,
{
    lemma_split_on_nonempty(a, sep);
    lemma_split_on_nonempty(b, sep);
    let x = a + seq![sep];
    assert(x.drop_last() =~= a);
    assert(split_on(x, sep) == split_on(a, sep).push(Seq::empty()));
    lemma_split_on_append(x, b, sep);
    assert(x + b =~= a + seq![sep] + b);
    let pb = split_on(b, sep);
    assert(Seq::<char>::empty() + pb[0] =~= pb[0]);
    assert(split_on(a, sep).push(Seq::empty()).drop_last() =~= split_on(a, sep));
    assert(seq![pb[0]] + pb.drop_first() =~= pb);
    assert(split_on(a, sep) + seq![pb[0]] + pb.drop_first() =~= split_on(a, sep) + pb);
    lemma_split_on_no_sep(a, sep);
    if forall|j: int| 0 <= j < a.len() ==> a[j] != sep {
        lemma_split_on_single(a, sep);
    }
}

proof fn lemma_split_on_no_sep(a: Seq<char>, sep: char)
    ensures
        forall|i: int, j: int|
            0 <= i < split_on(a, sep).len() && 0 <= j < split_on(a, sep)[i].len() ==> #[trigger] split_on(
                a,
                sep,
            )[i][j] != sep,
    decreases a.len(),
{
    if a.len() > 0 {
        lemma_split_on_no_sep(a.drop_last(), sep);
        lemma_split_on_nonempty(a.drop_last(), sep);
        let p = split_on(a.drop_last(), sep);
        let r = split_on(a, sep);
        assert forall|i: int, j: int| 0 <= i < r.len() && 0 <= j < r[i].len() implies #[trigger] r[i][j]
            != sep by {
            if a.last() == sep {
                if i < p.len() {
                    assert(r[i] == p[i]);
                }
            } else {
                if i < p.len() - 1 {
                    assert(r[i] == p[i]);
                } else {
                    assert(r[i] == p.last().push(a.last()));
                    if j < p.last().len() {
                        assert(r[i][j] == p[p.len() - 1][j]);
                    }
                }
            }
        }
    }
}

/// Every word is a nonempty run of chars none of which is whitespace.
pub proof fn law_words_are_runs(s: Seq<char>)
    ensures
        forall|i: int| 0 <= i < words(s).len() ==> #[trigger] words(s)[i].len() > 0,
        forall|i: int, j: int|
            0 <= i < words(s).len() && 0 <= j < words(s)[i].len() ==> !is_space(
                #[trigger] words(s)[i][j],
            ),
    decreases s.len(),
{
    if s.len() > 0 {
        law_words_are_runs(s.drop_last());
        let w = words(s.drop_last());
        let r = words(s);
        let c = s.last();
        if !is_space(c) && s.len() >= 2 && !is_space(s[s.len() - 2]) {
            lemma_words_nonempty_after_word(s.drop_last());
            assert forall|i: int| 0 <= i < r.len() implies #[trigger] r[i].len() > 0 by {
                if i < w.len() - 1 {
                    assert(r[i] == w[i]);
                }
            }
            assert forall|i: int, j: int| 0 <= i < r.len() && 0 <= j < r[i].len() implies !is_space(
                #[trigger] r[i][j],
            ) by {
                if i < w.len() - 1 {
                    assert(r[i] == w[i]);
                } else if j < w.last().len() {
                    assert(r[i][j] == w[w.len() - 1][j]);
                }
            }
        } else if !is_space(c) {
            assert forall|i: int| 0 <= i < r.len() implies #[trigger] r[i].len() > 0 by {
                if i < w.len() {
                    assert(r[i] == w[i]);
                }
            }
            assert forall|i: int, j: int| 0 <= i < r.len() && 0 <= j < r[i].len() implies !is_space(
                #[trigger] r[i][j],
            ) by {
                if i < w.len() {
                    assert(r[i] == w[i]);
                }
            }
        }
    }
}

proof fn lemma_words_nonempty_after_word(s: Seq<char>)
    requires
        s.len() > 0,
        !is_space(s.last()),
    ensures
        words(s).len() > 0,
    decreases s.len(),
{
    if s.len() >= 2 && !is_space(s[s.len() - 2]) {
        assert(s.drop_last().last() == s[s.len() - 2]);
        lemma_words_nonempty_after_word(s.drop_last());
    }
}

proof fn lemma_words_after_space(x: Seq<char>, b: Seq<char>)
    requires
        x.len() > 0,
        is_space(x.last()),
    ensures
        words(x + b) == words(x) + words(b),
    decreases b.len(),
{
    if b.len() == 0 {
        assert(x + b =~= x);
        assert(words(x) + words(b) =~= words(x));
    } else {
        let b0 = b.drop_last();
        let c = b.last();
        lemma_words_after_space(x, b0);
        assert((x + b).drop_last() =~= x + b0);
        assert((x + b).last() == c);
        let w1 = words(x);
        let w2 = words(b0);
        if is_space(c) {
        } else if b0.len() == 0 {
            assert((x + b)[(x + b).len() - 2] == x.last());
            assert(b.drop_last() =~= b0);
            assert(words(b) =~= seq![seq![c]]);
            assert((w1 + w2).push(seq![c]) =~= w1 + words(b));
        } else {
            assert((x + b)[(x + b).len() - 2] == b0.last());
            assert(b[b.len() - 2] == b0.last());
            if is_space(b0.last()) {
                assert((w1 + w2).push(seq![c]) =~= w1 + w2.push(seq![c]));
            } else {
                lemma_words_nonempty_after_word(b0);
                assert((w1 + w2).drop_last().push((w1 + w2).last().push(c)) =~= w1 + w2.drop_last().push(
                    w2.last().push(c),
                ));
            }
        }
    }
}

/// A text with no whitespace in it is one word, the text itself, unless it
/// is empty; a text of whitespace only has no word.
pub proof fn law_one_word(s: Seq<char>)
    ensures
        s.len() > 0 && (forall|j: int| 0 <= j < s.len() ==> !is_space(#[trigger] s[j]))
            ==> words(s) == seq![s],
        (forall|j: int| 0 <= j < s.len() ==> is_space(#[trigger] s[j])) ==> words(s).len() == 0,
    decreases s.len(),
{
    if s.len() > 0 {
        let t = s.drop_last();
        law_one_word(t);
        if forall|j: int| 0 <= j < s.len() ==> !is_space(#[trigger] s[j]) {
            assert(!is_space(s.last()));
            if t.len() > 0 {
                assert forall|j: int| 0 <= j < t.len() implies !is_space(#[trigger] t[j]) by {
                    assert(t[j] == s[j]);
                }
                assert(!is_space(s[s.len() - 2]));
                assert(t.push(s.last()) =~= s);
                assert(words(s) =~= seq![s]);
            } else {
                assert(words(t) =~= Seq::<Seq<char>>::empty());
                assert(seq![s.last()] =~= s);
                assert(words(s) =~= seq![s]);
            }
        }
        if forall|j: int| 0 <= j < s.len() ==> is_space(#[trigger] s[j]) {
            assert(is_space(s.last()));
            assert forall|j: int| 0 <= j < t.len() implies is_space(#[trigger] t[j]) by {
                assert(t[j] == s[j]);
            }
        }
    }
}

/// The words of `a`, a whitespace char, then `b` are the words of `a`
/// followed by those of `b`.
pub proof fn law_words_split_at_space(a: Seq<char>, sp: char, b: Seq<char>)
    requires
        is_space(sp),
    ensures
        words(a + seq![sp] + b) == words(a) + words(b),
{
    let x = a + seq![sp];
    assert(x.drop_last() =~= a);
    assert(words(x) == words(a));
    lemma_words_after_space(x, b);
}

proof fn lemma_split_on_single(l: Seq<char>, sep: char)
    requires
        forall|j: int| 0 <= j < l.len() ==> l[j] != sep,
    ensures
        split_on(l, sep) == seq![l],
    decreases l.len(),
{
    if l.len() > 0 {
        lemma_split_on_single(l.drop_last(), sep);
        assert(l.last() != sep);
        assert(l.drop_last().push(l.last()) =~= l);
        assert(seq![l.drop_last()].drop_last() =~= Seq::<Seq<char>>::empty());
        assert(seq![l.drop_last()].last() == l.drop_last());
        assert(Seq::<Seq<char>>::empty().push(l) =~= seq![l]);
    } else {
        assert(l =~= Seq::<char>::empty());
    }
}

/// The lines of a text: an empty text has none; a line `l` (without line
/// breaks) followed by `\n`, or by `\r\n`, and then the text `t` gives `l`
/// followed by the lines of `t`; a last line without a line break is a line.
pub proof fn law_text_lines(l: Seq<char>, t: Seq<char>)
    requires
        forall|j: int| 0 <= j < l.len() ==> l[j] != '\n',
    ensures
        text_lines(Seq::empty()) == Seq::<Seq<char>>::empty(),
        (l.len() == 0 || l.last() != '\r') ==> text_lines(l + seq!['\n'] + t) == seq![l]
            + text_lines(t),
        text_lines(l + seq!['\r', '\n'] + t) == seq![l] + text_lines(t),
        l.len() > 0 ==> text_lines(l) == seq![l],
{
    lemma_split_on_nonempty(t, '\n');
    assert(split_on(Seq::empty(), '\n') == seq![Seq::<char>::empty()]);
    assert(text_lines(Seq::empty()) =~= Seq::<Seq<char>>::empty());
    let f = |x: Seq<char>| strip_cr(x);
    let pt = split_on(t, '\n');
    // l then '\n'
    lemma_split_on_single(l, '\n');
    law_split_on(l, t, '\n');
    let p = split_on(l + seq!['\n'] + t, '\n');
    assert(p == seq![l] + pt);
    assert(p.drop_last() =~= seq![l] + pt.drop_last());
    assert(p.last() == pt.last());
    assert(p.drop_last().map_values(f) =~= seq![strip_cr(l)] + pt.drop_last().map_values(f));
    if l.len() == 0 || l.last() != '\r' {
        assert(strip_cr(l) == l);
        if pt.last().len() == 0 {
            assert(text_lines(l + seq!['\n'] + t) =~= seq![l] + text_lines(t));
        } else {
            assert(text_lines(l + seq!['\n'] + t) =~= seq![l] + text_lines(t));
        }
    }
    // l then "\r\n"
    let lr = l.push('\r');
    assert forall|j: int| 0 <= j < lr.len() implies lr[j] != '\n' by {
        if j < l.len() {
            assert(lr[j] == l[j]);
        }
    }
    lemma_split_on_single(lr, '\n');
    law_split_on(lr, t, '\n');
    assert(lr + seq!['\n'] + t =~= l + seq!['\r', '\n'] + t);
    let q = split_on(lr + seq!['\n'] + t, '\n');
    assert(q == seq![lr] + pt);
    assert(q.drop_last() =~= seq![lr] + pt.drop_last());
    assert(q.last() == pt.last());
    assert(strip_cr(lr) =~= l);
    assert(q.drop_last().map_values(f) =~= seq![l] + pt.drop_last().map_values(f));
    if pt.last().len() == 0 {
        assert(text_lines(l + seq!['\r', '\n'] + t) =~= seq![l] + text_lines(t));
    } else {
        assert(text_lines(l + seq!['\r', '\n'] + t) =~= seq![l] + text_lines(t));
    }
    // l alone
    if l.len() > 0 {
        assert(seq![l].drop_last().map_values(f) =~= Seq::<Seq<char>>::empty());
        assert(text_lines(l) =~= seq![l]);
    }
}

/// Whether `c` is whitespace.
pub fn is_space_char(c: char) -> (r: bool)
    ensures
        r == is_space(c),
{
    ('\u{9}' <= c && c <= '\u{D}') || c == ' ' || c == '\u{85}' || c == '\u{A0}' || c
        == '\u{1680}' || ('\u{2000}' <= c && c <= '\u{200A}') || c == '\u{2028}' || c
        == '\u{2029}' || c == '\u{202F}' || c == '\u{205F}' || c == '\u{3000}'
}

/// Splits `s` at every occurrence of `sep`.
pub fn split_at_char(s: &Vec<char>, sep: char) -> (r: Vec<Vec<char>>)
    ensures
        views(r@) == split_on(s@, sep),
{
    let mut done: Vec<Vec<char>> = Vec::new();
    let mut cur: Vec<char> = Vec::new();
    let mut i: usize = 0;
    assert(s@.take(0) =~= Seq::<char>::empty());
    assert(views(done@).push(cur@) =~= split_on(s@.take(0), sep));
    while i < s.len()
        invariant
            i <= s.len(),
            views(done@).push(cur@) == split_on(s@.take(i as int), sep),
        decreases s.len() - i,
    {
        let c = s[i];
        proof {
            assert(s@.take(i + 1).drop_last() =~= s@.take(i as int));
            assert(s@.take(i + 1).last() == c);
        }
        if c == sep {
            proof {
                lemma_views_push(done@, cur);
            }
            done.push(cur);
            cur = Vec::new();
            proof {
                assert(views(done@).push(cur@) =~= split_on(s@.take(i + 1), sep));
            }
        } else {
            let ghost before = cur@;
            cur.push(c);
            proof {
                let p = split_on(s@.take(i as int), sep);
                assert(p.drop_last() =~= views(done@));
                assert(p.last() == before);
                assert(views(done@).push(cur@) =~= split_on(s@.take(i + 1), sep));
            }
        }
        i += 1;
    }
    proof {
        assert(s@.take(s@.len() as int) =~= s@);
        lemma_views_push(done@, cur);
    }
    done.push(cur);
    done
}

/// Splits a text into its lines.
pub fn split_lines(t: &Vec<char>) -> (r: Vec<Vec<char>>)
    ensures
        views(r@) == text_lines(t@),
{
    let pieces = split_at_char(t, '\n');
    proof {
        lemma_split_on_nonempty(t@, '\n');
    }
    let n = pieces.len();
    let mut out: Vec<Vec<char>> = Vec::new();
    let mut k: usize = 0;
    let ghost p = split_on(t@, '\n');
    while k + 1 < n
        invariant
            n == pieces.len(),
            views(pieces@) == p,
            p.len() >= 1,
            k + 1 <= n,
            views(out@) == p.drop_last().take(k as int).map_values(|l: Seq<char>| strip_cr(l)),
        decreases n - k,
    {
        let line = &pieces[k];
        assert(line@ == p[k as int]);
        let mut copy: Vec<char> = Vec::new();
        let mut end = line.len();
        if end > 0 && line[end - 1] == '\r' {
            end = end - 1;
        }
        let mut j: usize = 0;
        while j < end
            invariant
                j <= end,
                end <= line.len(),
                copy@ == line@.take(j as int),
            decreases end - j,
        {
            copy.push(line[j]);
            j += 1;
            assert(copy@ =~= line@.take(j as int));
        }
        proof {
            assert(copy@ =~= strip_cr(line@));
            lemma_views_push(out@, copy);
        }
        out.push(copy);
        k += 1;
        proof {
            assert(views(out@) =~= p.drop_last().take(k as int).map_values(
                |l: Seq<char>| strip_cr(l),
            ));
        }
    }
    proof {
        assert(p.drop_last().take(k as int) =~= p.drop_last());
    }
    let last = &pieces[n - 1];
    assert(last@ == p.last());
    if last.len() > 0 {
        let mut copy: Vec<char> = Vec::new();
        let mut j: usize = 0;
        while j < last.len()
            invariant
                j <= last.len(),
                copy@ == last@.take(j as int),
            decreases last.len() - j,
        {
            copy.push(last[j]);
            j += 1;
            assert(copy@ =~= last@.take(j as int));
        }
        proof {
            assert(copy@ =~= last@);
            lemma_views_push(out@, copy);
        }
        out.push(copy);
    }
    out
}

/// Splits `s` into its whitespace-separated words.
pub fn split_words(s: &Vec<char>) -> (r: Vec<Vec<char>>)
    ensures
        views(r@) == words(s@),
{
    let mut done: Vec<Vec<char>> = Vec::new();
    let mut cur: Vec<char> = Vec::new();
    let mut in_word = false;
    let mut i: usize = 0;
    assert(s@.take(0) =~= Seq::<char>::empty());
    assert(views(done@) =~= words(s@.take(0)));
    while i < s.len()
        invariant
            i <= s.len(),
            in_word == (i > 0 && !is_space(s@[i - 1])),
            in_word ==> views(done@).push(cur@) == words(s@.take(i as int)),
            !in_word ==> views(done@) == words(s@.take(i as int)) && cur@.len() == 0,
        decreases s.len() - i,
    {
        let c = s[i];
        proof {
            assert(s@.take(i + 1).drop_last() =~= s@.take(i as int));
            assert(s@.take(i + 1).last() == c);
            if i >= 1 {
                assert(s@.take(i + 1)[i - 1] == s@[i - 1]);
            }
        }
        if is_space_char(c) {
            if in_word {
                proof {
                    lemma_views_push(done@, cur);
                }
                done.push(cur);
                cur = Vec::new();
            }
            in_word = false;
        } else {
            let ghost before = cur@;
            let ghost done_before = views(done@);
            cur.push(c);
            proof {
                if in_word {
                    let w = words(s@.take(i as int));
                    assert(w.drop_last() =~= done_before);
                    assert(w.last() == before);
                    assert(done_before.push(cur@) =~= w.drop_last().push(w.last().push(c)));
                } else {
                    assert(cur@ =~= seq![c]);
                }
            }
            in_word = true;
        }
        i += 1;
    }
    proof {
        assert(s@.take(s@.len() as int) =~= s@);
    }
    if in_word {
        proof {
            lemma_views_push(done@, cur);
        }
        done.push(cur);
    }
    done
}

/// The index of the first word at or after `from` that begins with `#`, or
/// the number of words if there is none.
pub fn comment_start(ws: &Vec<Vec<char>>, from: usize) -> (k: usize)
    requires
        from <= ws.len(),
    ensures
        from <= k <= ws.len(),
        forall|j: int| from <= j < k ==> !starts_with_hash(#[trigger] ws@[j]@),
        k == ws.len() || starts_with_hash(ws@[k as int]@),
{
    let mut k = from;
    while k < ws.len()
        invariant
            from <= k <= ws.len(),
            forall|j: int| from <= j < k ==> !starts_with_hash(#[trigger] ws@[j]@),
        decreases ws.len() - k,
    {
        let w = &ws[k];
        if w.len() > 0 && w[0] == '#' {
            return k;
        }
        k += 1;
    }
    k
}

/// The words after the first one and before a trailing comment are
/// `ws[1..k]`, where `k` is the result of [`comment_start`] from 1.
pub proof fn lemma_args_range(ws: Seq<Seq<char>>, k: int)
    requires
        1 <= k <= ws.len(),
        forall|j: int| 1 <= j < k ==> !starts_with_hash(#[trigger] ws[j]),
        k == ws.len() || starts_with_hash(ws[k]),
    ensures
        before_comment(ws.drop_first()) == ws.subrange(1, k),
{
    let rest = ws.drop_first();
    assert forall|j: int| 0 <= j < k - 1 implies !starts_with_hash(#[trigger] rest[j]) by {
        assert(rest[j] == ws[j + 1]);
    }
    if k < ws.len() {
        assert(rest[k - 1] == ws[k]);
    }
    lemma_before_comment_prefix(rest, k - 1);
    assert(rest.take(k - 1) =~= ws.subrange(1, k));
}

} // verus!
