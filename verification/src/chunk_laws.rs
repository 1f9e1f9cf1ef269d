//! What holds of the chunks of every text.

use vstd::prelude::*;

use crate::chunk::{
    chunks_of, chunks_of_lines, join_lines, lemma_line_len, line_len, paragraph_text, paragraphs,
    split_lines, strip_cr,
};
use crate::text::{is_blank, is_ws, lemma_trim_not_blank, trim, trim_end, trim_start};

verus! {

/// Every paragraph has at least one line, and none of its lines is blank.
proof fn lemma_paragraphs_not_blank(lines: Seq<Seq<char>>)
    ensures
        forall|i: int|
            0 <= i < paragraphs(lines).len() ==> {
                let p = #[trigger] paragraphs(lines)[i];
                &&& p.len() > 0
                &&& forall|j: int| 0 <= j < p.len() ==> !is_blank(#[trigger] p[j])
            },
        lines.len() > 0 && !is_blank(lines.last()) ==> paragraphs(lines).len() > 0,
    decreases lines.len(),
{
    if lines.len() > 0 {
        lemma_paragraphs_not_blank(lines.drop_last());
        let before = paragraphs(lines.drop_last());
        let line = lines.last();
        if !is_blank(line) && lines.len() > 1 && !is_blank(lines[lines.len() - 2]) {
            assert(lines.drop_last().last() == lines[lines.len() - 2]);
            let q = before.last().push(line);
            assert forall|i: int| 0 <= i < paragraphs(lines).len() implies {
                let p = #[trigger] paragraphs(lines)[i];
                &&& p.len() > 0
                &&& forall|j: int| 0 <= j < p.len() ==> !is_blank(#[trigger] p[j])
            } by {
                if i == before.len() - 1 {
                    assert(paragraphs(lines)[i] == q);
                    assert forall|j: int| 0 <= j < q.len() implies !is_blank(#[trigger] q[j]) by {
                        if j < q.len() - 1 {
                            assert(q[j] == before[i][j]);
                        }
                    }
                } else {
                    assert(paragraphs(lines)[i] == before[i]);
                }
            }
        } else if !is_blank(line) {
            assert forall|i: int| 0 <= i < paragraphs(lines).len() implies {
                let p = #[trigger] paragraphs(lines)[i];
                &&& p.len() > 0
                &&& forall|j: int| 0 <= j < p.len() ==> !is_blank(#[trigger] p[j])
            } by {
                if i < before.len() {
                    assert(paragraphs(lines)[i] == before[i]);
                } else {
                    assert(paragraphs(lines)[i] == seq![line]);
                }
            }
        }
    }
}

/// Lines joined by line feeds are not blank when one of them is not.
proof fn lemma_join_not_blank(p: Seq<Seq<char>>)
    requires
        p.len() > 0,
        !is_blank(p.last()),
    ensures
        !is_blank(join_lines(p)),
{
    let l = p.last();
    let w = choose|w: int| 0 <= w < l.len() && !is_ws(l[w]);
    if p.len() == 1 {
        assert(join_lines(p) == p[0]);
        assert(!is_ws(join_lines(p)[w]));
    } else {
        let pre = join_lines(p.drop_last()) + seq!['\n'];
        assert(join_lines(p) == pre + l);
        assert(join_lines(p)[pre.len() + w] == l[w]);
    }
}

/// Every chunk of a text is non-empty, and neither starts nor ends with whitespace.
pub proof fn law_chunks_are_trimmed(text: Seq<char>)
    ensures
        forall|i: int|
            0 <= i < chunks_of(text).len() ==> {
                let c = #[trigger] chunks_of(text)[i];
                &&& c.len() > 0
                &&& !is_ws(c[0])
                &&& !is_ws(c.last())
            },
{
    let lines = split_lines(text);
    lemma_paragraphs_not_blank(lines);
    assert forall|i: int| 0 <= i < chunks_of(text).len() implies {
        let c = #[trigger] chunks_of(text)[i];
        &&& c.len() > 0
        &&& !is_ws(c[0])
        &&& !is_ws(c.last())
    } by {
        let p = paragraphs(lines)[i];
        assert(chunks_of(text)[i] == paragraph_text(p));
        assert(!is_blank(p[p.len() - 1]));
        lemma_join_not_blank(p);
        lemma_trim_not_blank(join_lines(p));
    }
}

/// `line_len(s)` counts the characters before the first line feed of `s`.
proof fn lemma_line_len_bounds(s: Seq<char>)
    ensures
        line_len(s) <= s.len(),
        forall|j: int| 0 <= j < line_len(s) ==> s[j] != '\n',
        line_len(s) < s.len() ==> s[line_len(s) as int] == '\n',
    decreases s.len(),
{
    if s.len() > 0 && s[0] != '\n' {
        lemma_line_len_bounds(s.drop_first());
        assert forall|j: int| 0 <= j < line_len(s) implies s[j] != '\n' by {
            if j > 0 {
                assert(s[j] == s.drop_first()[j - 1]);
            }
        }
        if line_len(s) < s.len() {
            assert(s[line_len(s) as int] == s.drop_first()[line_len(s) - 1]);
        }
    }
}

/// A line feed ends the lines before it: the lines of `a`, a line feed and `r` are those of
/// `a` with a line feed followed by those of `r`.
proof fn lemma_split_at_newline(a: Seq<char>, r: Seq<char>)
    ensures
        split_lines(a + seq!['\n'] + r) == split_lines(a + seq!['\n']) + split_lines(r),
    decreases a.len(),
{
    let s = a + seq!['\n'] + r;
    let t = a + seq!['\n'];
    lemma_line_len_bounds(a);
    let k = line_len(a) as int;
    assert(s[k] == '\n');
    assert(t[k] == '\n');
    lemma_line_len(s, k);
    lemma_line_len(t, k);
    assert(s.take(k) =~= t.take(k));
    if k < a.len() {
        let a2 = a.skip(k + 1);
        lemma_split_at_newline(a2, r);
        assert(s.skip(k + 1) =~= a2 + seq!['\n'] + r);
        assert(t.skip(k + 1) =~= a2 + seq!['\n']);
        assert(split_lines(s) =~= seq![strip_cr(s.take(k))] + split_lines(s.skip(k + 1)));
        assert(split_lines(t) =~= seq![strip_cr(t.take(k))] + split_lines(t.skip(k + 1)));
        assert(split_lines(s) =~= split_lines(t) + split_lines(r));
    } else {
        assert(s.skip(k + 1) =~= r);
        assert(t.skip(k + 1) =~= seq![]);
        assert(split_lines(t.skip(k + 1)) =~= seq![]);
        assert(split_lines(t) =~= seq![strip_cr(t.take(k))]);
        assert(split_lines(s) =~= split_lines(t) + split_lines(r));
    }
}

/// How one more final line feed changes the lines of a text: after nothing or after a line
/// feed it adds an empty line; otherwise it ends the last line, which loses a trailing
/// carriage return.
proof fn lemma_split_final_newline(t: Seq<char>)
    ensures
        t.len() == 0 || t.last() == '\n' ==> split_lines(t.push('\n')) == split_lines(t).push(
            seq![],
        ),
        !(t.len() == 0 || t.last() == '\n') ==> {
            let ls = split_lines(t);
            &&& ls.len() > 0
            &&& split_lines(t.push('\n')) == ls.update(ls.len() - 1, strip_cr(ls.last()))
        },
    decreases t.len(),
{
    let u = t.push('\n');
    if t.len() == 0 {
        assert(u =~= seq![] + seq!['\n'] + seq![]);
        lemma_line_len(u, 0);
        assert(u.skip(1) =~= seq![]);
        assert(u.take(0) =~= seq![]);
        assert(split_lines(u.skip(1)) =~= seq![]);
        assert(strip_cr(u.take(0)) =~= seq![]);
        assert(split_lines(u) =~= seq![seq![]]);
        assert(split_lines(t) =~= seq![]);
        assert(split_lines(u) =~= split_lines(t).push(seq![]));
    } else {
        lemma_line_len_bounds(t);
        let k = line_len(t) as int;
        if k < t.len() {
            assert(u[k] == '\n');
            lemma_line_len(u, k);
            assert(u.take(k) =~= t.take(k));
            let t2 = t.skip(k + 1);
            assert(u.skip(k + 1) =~= t2.push('\n'));
            lemma_split_final_newline(t2);
            let head = seq![strip_cr(t.take(k))];
            assert(split_lines(t) == head + split_lines(t2));
            assert(split_lines(u) == head + split_lines(t2.push('\n')));
            if t2.len() == 0 {
                assert(t.last() == '\n');
                assert(split_lines(u) =~= split_lines(t).push(seq![]));
            } else {
                assert(t2.last() == t.last());
                if t.last() == '\n' {
                    assert(split_lines(u) =~= split_lines(t).push(seq![]));
                } else {
                    let ls = split_lines(t);
                    let ls2 = split_lines(t2);
                    assert(ls.last() == ls2.last());
                    assert(split_lines(u) =~= ls.update(ls.len() - 1, strip_cr(ls.last())));
                }
            }
        } else {
            assert(t.last() != '\n');
            assert(u[k] == '\n');
            lemma_line_len(u, k);
            assert(u.take(k) =~= t);
            assert(u.skip(k + 1) =~= seq![]);
            assert(split_lines(u.skip(k + 1)) =~= seq![]);
            assert(split_lines(u) =~= seq![strip_cr(t)]);
            assert(split_lines(t) =~= seq![t]);
            let ls = split_lines(t);
            assert(split_lines(u) =~= ls.update(ls.len() - 1, strip_cr(ls.last())));
        }
    }
}

/// Whitespace after a text that is not blank stays after its leading whitespace is dropped.
proof fn lemma_trim_start_append(z: Seq<char>, e: Seq<char>)
    requires
        !is_blank(z),
    ensures
        trim_start(z + e) == trim_start(z) + e,
    decreases z.len(),
{
    assert((z + e)[0] == z[0]);
    if is_ws(z[0]) {
        assert(!is_blank(z.drop_first())) by {
            let w = choose|w: int| 0 <= w < z.len() && !is_ws(z[w]);
            assert(z.drop_first()[w - 1] == z[w]);
        }
        lemma_trim_start_append(z.drop_first(), e);
        assert((z + e).drop_first() =~= z.drop_first() + e);
    }
}

/// A trailing carriage return does not change the trimmed text of a non-blank text.
proof fn lemma_trim_trailing_cr(z: Seq<char>)
    requires
        !is_blank(z),
    ensures
        trim(z.push('\r')) == trim(z),
{
    lemma_trim_start_append(z, seq!['\r']);
    assert(z.push('\r') =~= z + seq!['\r']);
    let y = trim_start(z) + seq!['\r'];
    assert(is_ws(y.last()));
    assert(y.drop_last() =~= trim_start(z));
}

/// Dropping a trailing carriage return from the last line keeps the chunks of a sequence of
/// lines.
proof fn lemma_paragraphs_last_line(ls: Seq<Seq<char>>, y: Seq<char>)
    requires
        ls.len() > 0,
        ls.last() == y.push('\r'),
    ensures
        chunks_of_lines(ls.update(ls.len() - 1, y)) == chunks_of_lines(ls),
{
    let ms = ls.update(ls.len() - 1, y);
    let x = ls.last();
    assert(ms.drop_last() =~= ls.drop_last());
    let before = paragraphs(ls.drop_last());
    assert(is_blank(x) ==> is_blank(y)) by {
        if is_blank(x) {
            assert forall|i: int| 0 <= i < y.len() implies #[trigger] is_ws(y[i]) by {
                assert(x[i] == y[i]);
            }
        }
    }
    assert(is_blank(y) ==> is_blank(x)) by {
        if is_blank(y) {
            assert forall|i: int| 0 <= i < x.len() implies #[trigger] is_ws(x[i]) by {
                if i < y.len() {
                    assert(x[i] == y[i]);
                }
            }
        }
    }
    if is_blank(x) {
        assert(paragraphs(ms) == paragraphs(ls));
    } else {
        assert(!is_blank(y));
        if ls.len() > 1 && !is_blank(ls[ls.len() - 2]) {
            assert(ms[ms.len() - 2] == ls[ls.len() - 2]);
            lemma_paragraphs_not_blank(ls.drop_last());
            assert(ls.drop_last().last() == ls[ls.len() - 2]);
            let p = before.last();
            assert(p.len() > 0);
            let qx = p.push(x);
            let qy = p.push(y);
            assert(qx.drop_last() =~= p);
            assert(qy.drop_last() =~= p);
            assert(join_lines(qx) == join_lines(p) + seq!['\n'] + x);
            assert(join_lines(qy) == join_lines(p) + seq!['\n'] + y);
            assert(join_lines(qx) =~= join_lines(qy).push('\r'));
            lemma_join_not_blank(qy);
            lemma_trim_trailing_cr(join_lines(qy));
            assert(paragraphs(ls) == before.update(before.len() - 1, qx));
            assert(paragraphs(ms) == before.update(before.len() - 1, qy));
            assert(chunks_of_lines(ms) =~= chunks_of_lines(ls));
        } else {
            assert(ms.len() > 1 ==> ms[ms.len() - 2] == ls[ls.len() - 2]);
            assert(join_lines(seq![x]) == x);
            assert(join_lines(seq![y]) == y);
            assert(x =~= y.push('\r'));
            lemma_trim_trailing_cr(y);
            assert(paragraphs(ls) == before.push(seq![x]));
            assert(paragraphs(ms) == before.push(seq![y]));
            assert(chunks_of_lines(ms) =~= chunks_of_lines(ls));
        }
    }
}

/// The final line ending of a text is optional: one more line feed at its end gives the
/// same chunks.
pub proof fn law_final_newline_is_optional(text: Seq<char>)
    ensures
        chunks_of(text.push('\n')) == chunks_of(text),
{
    lemma_split_final_newline(text);
    let ls = split_lines(text);
    if text.len() == 0 || text.last() == '\n' {
        assert(ls.push(seq![]).drop_last() =~= ls);
        assert(is_blank(seq![]));
        assert(paragraphs(ls.push(seq![])) == paragraphs(ls));
    } else {
        let x = ls.last();
        if x.len() > 0 && x.last() == '\r' {
            assert(x =~= x.drop_last().push('\r'));
            lemma_paragraphs_last_line(ls, x.drop_last());
        } else {
            assert(ls.update(ls.len() - 1, x) =~= ls);
        }
    }
}

/// A blank line between two sequences of lines separates their paragraphs.
proof fn lemma_paragraphs_concat(l1: Seq<Seq<char>>, e: Seq<char>, l2: Seq<Seq<char>>)
    requires
        is_blank(e),
    ensures
        paragraphs(l1.push(e) + l2) == paragraphs(l1) + paragraphs(l2),
    decreases l2.len(),
{
    let s = l1.push(e) + l2;
    if l2.len() == 0 {
        assert(s =~= l1.push(e));
        assert(s.drop_last() =~= l1);
        assert(paragraphs(l2) =~= seq![]);
        assert(paragraphs(s) =~= paragraphs(l1) + paragraphs(l2));
    } else {
        let m = l2.drop_last();
        let l = l2.last();
        lemma_paragraphs_concat(l1, e, m);
        assert(s.drop_last() =~= l1.push(e) + m);
        assert(s.last() == l);
        let p1 = paragraphs(l1);
        let pm = paragraphs(m);
        if is_blank(l) {
            assert(paragraphs(s) =~= p1 + paragraphs(l2));
        } else {
            assert(s[s.len() - 2] == if m.len() > 0 { m.last() } else { e });
            if m.len() > 0 && !is_blank(m.last()) {
                lemma_paragraphs_not_blank(m);
                assert(l2[l2.len() - 2] == m.last());
                assert(paragraphs(l2) == pm.update(pm.len() - 1, pm.last().push(l)));
                assert(paragraphs(s) == (p1 + pm).update(
                    (p1 + pm).len() - 1,
                    (p1 + pm).last().push(l),
                ));
                assert(paragraphs(s) =~= p1 + paragraphs(l2));
            } else {
                assert(l2.len() > 1 ==> l2[l2.len() - 2] == m.last());
                assert(paragraphs(l2) == pm.push(seq![l]));
                assert(paragraphs(s) == (p1 + pm).push(seq![l]));
                assert(paragraphs(s) =~= p1 + paragraphs(l2));
            }
        }
    }
}

/// Two texts with a blank line between them are chunked independently: the chunks of
/// `a`, two line feeds and `b` are those of `a` followed by those of `b`.
pub proof fn law_blank_line_separates(a: Seq<char>, b: Seq<char>)
    ensures
        chunks_of(a + seq!['\n', '\n'] + b) == chunks_of(a) + chunks_of(b),
{
    let nb = seq!['\n'] + b;
    assert(a + seq!['\n', '\n'] + b =~= a + seq!['\n'] + nb);
    lemma_split_at_newline(a, nb);
    assert(nb =~= seq![] + seq!['\n'] + b);
    lemma_split_at_newline(seq![], b);
    assert(seq![] + seq!['\n'] =~= seq!['\n']);
    let nl: Seq<char> = seq!['\n'];
    lemma_line_len(nl, 0);
    assert(nl.take(0) =~= seq![]);
    assert(nl.skip(1) =~= seq![]);
    assert(split_lines(nl.skip(1)) =~= seq![]);
    assert(split_lines(nl) =~= seq![seq![]]);
    let l1 = split_lines(a + seq!['\n']);
    let l2 = split_lines(b);
    assert(split_lines(a + seq!['\n', '\n'] + b) =~= l1.push(seq![]) + l2);
    assert(is_blank(seq![]));
    lemma_paragraphs_concat(l1, seq![], l2);
    law_final_newline_is_optional(a);
    assert(a.push('\n') =~= a + seq!['\n']);
    assert(chunks_of(a + seq!['\n', '\n'] + b) =~= chunks_of_lines(l1) + chunks_of(b));
}

/// `t` with every line feed written as a carriage return and a line feed.
pub open spec fn with_crlf(t: Seq<char>) -> Seq<char>
    decreases t.len(),
{
    if t.len() == 0 {
        seq![]
    } else {
        (if t[0] == '\n' {
            seq!['\r', '\n']
        } else {
            seq![t[0]]
        }) + with_crlf(t.drop_first())
    }
}

/// Writing line feeds as carriage return and line feed distributes over concatenation.
proof fn lemma_with_crlf_concat(a: Seq<char>, b: Seq<char>)
    ensures
        with_crlf(a + b) == with_crlf(a) + with_crlf(b),
    decreases a.len(),
{
    if a.len() == 0 {
        assert(a + b =~= b);
        assert(with_crlf(a) + with_crlf(b) =~= with_crlf(b));
    } else {
        lemma_with_crlf_concat(a.drop_first(), b);
        assert((a + b).drop_first() =~= a.drop_first() + b);
        assert((a + b)[0] == a[0]);
        let h = if a[0] == '\n' { seq!['\r', '\n'] } else { seq![a[0]] };
        assert(with_crlf(a + b) =~= h + (with_crlf(a.drop_first()) + with_crlf(b)));
    }
}

/// A text without line feeds is unchanged.
proof fn lemma_with_crlf_no_newline(p: Seq<char>)
    requires
        forall|j: int| 0 <= j < p.len() ==> p[j] != '\n',
    ensures
        with_crlf(p) == p,
    decreases p.len(),
{
    if p.len() > 0 {
        lemma_with_crlf_no_newline(p.drop_first());
        assert(seq![p[0]] + p.drop_first() =~= p);
    }
}

/// Writing line feeds as carriage return and line feed keeps the lines of a text in which no
/// line ends with a carriage return.
proof fn lemma_split_with_crlf(t: Seq<char>)
    requires
        forall|j: int| 0 < j < t.len() && #[trigger] t[j] == '\n' ==> t[j - 1] != '\r',
    ensures
        split_lines(with_crlf(t)) == split_lines(t),
    decreases t.len(),
{
    if t.len() > 0 {
        lemma_line_len_bounds(t);
        let k = line_len(t) as int;
        let piece = t.take(k);
        lemma_with_crlf_no_newline(piece);
        assert(t =~= piece + t.skip(k));
        lemma_with_crlf_concat(piece, t.skip(k));
        let c = with_crlf(t);
        if k < t.len() {
            let rest = t.skip(k + 1);
            assert(t.skip(k) =~= seq!['\n'] + rest);
            assert(t.skip(k)[0] == '\n');
            assert(t.skip(k).drop_first() =~= rest);
            assert(with_crlf(t.skip(k)) == seq!['\r', '\n'] + with_crlf(rest));
            assert(c =~= piece + seq!['\r', '\n'] + with_crlf(rest));
            assert(c[k] == '\r');
            assert(c[k + 1] == '\n');
            lemma_line_len(c, k + 1);
            assert(c.take(k + 1) =~= piece.push('\r'));
            assert(strip_cr(c.take(k + 1)) =~= piece);
            assert(k > 0 ==> t[k - 1] != '\r');
            assert(strip_cr(piece) == piece);
            assert(c.skip(k + 2) =~= with_crlf(rest));
            assert forall|j: int| 0 < j < rest.len() && #[trigger] rest[j] == '\n' implies rest[j - 1]
                != '\r' by {
                assert(rest[j] == t[j + k + 1]);
                assert(rest[j - 1] == t[j + k]);
            }
            lemma_split_with_crlf(rest);
            assert(split_lines(c) =~= seq![piece] + split_lines(rest));
            assert(split_lines(t) =~= seq![strip_cr(piece)] + split_lines(rest));
        } else {
            assert(piece =~= t);
            assert(t.skip(k) =~= seq![]);
            assert(with_crlf(t.skip(k)) =~= seq![]);
            assert(c =~= t);
        }
    }
}

/// CRLF line endings give the same chunks as LF line endings: writing every line feed of a
/// text as a carriage return and a line feed keeps its chunks, provided no line of it
/// already ends with a carriage return.
pub proof fn law_crlf_same_as_lf(text: Seq<char>)
    requires
        forall|j: int| 0 < j < text.len() && #[trigger] text[j] == '\n' ==> text[j - 1] != '\r',
    ensures
        chunks_of(with_crlf(text)) == chunks_of(text),
{
    lemma_split_with_crlf(text);
}

/// A line holding neither a line feed nor a carriage return.
pub open spec fn plain_line(x: Seq<char>) -> bool {
    forall|j: int| 0 <= j < x.len() ==> #[trigger] x[j] != '\n' && x[j] != '\r'
}

/// A text holding no carriage return.
pub open spec fn no_cr(s: Seq<char>) -> bool {
    forall|j: int| 0 <= j < s.len() ==> #[trigger] s[j] != '\r'
}

/// The texts `cs` joined with a blank line between each two (as `join("\n\n")` does).
pub open spec fn join_paragraphs(cs: Seq<Seq<char>>) -> Seq<char>
    decreases cs.len(),
{
    if cs.len() == 0 {
        seq![]
    } else if cs.len() == 1 {
        cs[0]
    } else {
        join_paragraphs(cs.drop_last()) + seq!['\n', '\n'] + cs.last()
    }
}

/// The lines of a text without carriage returns hold neither line feeds nor carriage returns.
proof fn lemma_split_lines_plain(s: Seq<char>)
    requires
        no_cr(s),
    ensures
        forall|i: int| 0 <= i < split_lines(s).len() ==> plain_line(#[trigger] split_lines(s)[i]),
    decreases s.len(),
{
    if s.len() > 0 {
        lemma_line_len_bounds(s);
        let k = line_len(s) as int;
        if k < s.len() {
            let rest = s.skip(k + 1);
            assert forall|j: int| 0 <= j < rest.len() implies #[trigger] rest[j] != '\r' by {
                assert(rest[j] == s[j + k + 1]);
            }
            lemma_split_lines_plain(rest);
            let x = s.take(k);
            assert(strip_cr(x) == x) by {
                if x.len() > 0 {
                    assert(x.last() == s[k - 1]);
                }
            }
            assert forall|j: int| 0 <= j < x.len() implies #[trigger] x[j] != '\n' && x[j] != '\r' by {
                assert(x[j] == s[j]);
            }
            assert forall|i: int| 0 <= i < split_lines(s).len() implies plain_line(#[trigger] split_lines(s)[i]) by {
                if i > 0 {
                    assert(split_lines(s)[i] == split_lines(rest)[i - 1]);
                }
            }
        }
    }
}

/// The lines of paragraphs are lines of the sequence, so they stay plain.
proof fn lemma_paragraphs_plain(lines: Seq<Seq<char>>)
    requires
        forall|i: int| 0 <= i < lines.len() ==> plain_line(#[trigger] lines[i]),
    ensures
        forall|i: int, j: int|
            0 <= i < paragraphs(lines).len() && 0 <= j < paragraphs(lines)[i].len() ==> plain_line(
                #[trigger] paragraphs(lines)[i][j],
            ),
    decreases lines.len(),
{
    if lines.len() > 0 {
        let d = lines.drop_last();
        assert forall|i: int| 0 <= i < d.len() implies plain_line(#[trigger] d[i]) by {
            assert(d[i] == lines[i]);
        }
        lemma_paragraphs_plain(d);
        let before = paragraphs(d);
        let line = lines.last();
        assert(plain_line(line));
        if !is_blank(line) && lines.len() > 1 && !is_blank(lines[lines.len() - 2]) {
            lemma_paragraphs_not_blank(d);
            assert(d.last() == lines[lines.len() - 2]);
            let q = before.last().push(line);
            assert forall|i: int, j: int|
                0 <= i < paragraphs(lines).len() && 0 <= j < paragraphs(lines)[i].len() implies plain_line(
                #[trigger] paragraphs(lines)[i][j],
            ) by {
                if i == before.len() - 1 {
                    assert(paragraphs(lines)[i] == q);
                    if j < q.len() - 1 {
                        assert(q[j] == before[i][j]);
                    }
                } else {
                    assert(paragraphs(lines)[i] == before[i]);
                }
            }
        } else if !is_blank(line) {
            assert forall|i: int, j: int|
                0 <= i < paragraphs(lines).len() && 0 <= j < paragraphs(lines)[i].len() implies plain_line(
                #[trigger] paragraphs(lines)[i][j],
            ) by {
                if i < before.len() {
                    assert(paragraphs(lines)[i] == before[i]);
                } else {
                    assert(paragraphs(lines)[i] == seq![line]);
                }
            }
        }
    }
}

/// Joining lines from the front: the first line, a line feed, and the rest joined.
proof fn lemma_join_front(x: Seq<char>, rest: Seq<Seq<char>>)
    requires
        rest.len() > 0,
    ensures
        join_lines(seq![x] + rest) == x + seq!['\n'] + join_lines(rest),
    decreases rest.len(),
{
    let q = seq![x] + rest;
    if rest.len() == 1 {
        assert(q.drop_last() =~= seq![x]);
        assert(join_lines(seq![x]) == x);
        assert(join_lines(rest) == rest[0]);
    } else {
        lemma_join_front(x, rest.drop_last());
        assert(q.drop_last() =~= seq![x] + rest.drop_last());
        assert(join_lines(q) =~= x + seq!['\n'] + join_lines(rest));
    }
}

/// Splitting plain, non-empty lines joined by line feeds gives them back.
proof fn lemma_split_join(q: Seq<Seq<char>>)
    requires
        q.len() > 0,
        forall|i: int| 0 <= i < q.len() ==> plain_line(#[trigger] q[i]) && q[i].len() > 0,
    ensures
        split_lines(join_lines(q)) == q,
    decreases q.len(),
{
    let x = q[0];
    assert(plain_line(x) && x.len() > 0);
    if q.len() == 1 {
        assert(join_lines(q) == x);
        lemma_line_len(x, x.len() as int);
        assert(split_lines(x) =~= q);
    } else {
        let rest = q.skip(1);
        assert(q =~= seq![x] + rest);
        lemma_join_front(x, rest);
        assert forall|i: int| 0 <= i < rest.len() implies plain_line(#[trigger] rest[i])
            && rest[i].len() > 0 by {
            assert(rest[i] == q[i + 1]);
        }
        lemma_split_join(rest);
        lemma_split_at_newline(x, join_lines(rest));
        let t = x + seq!['\n'];
        assert(t[x.len() as int] == '\n');
        lemma_line_len(t, x.len() as int);
        assert(t.take(x.len() as int) =~= x);
        assert(t.skip(x.len() + 1int) =~= seq![]);
        assert(split_lines(t.skip(x.len() + 1int)) =~= seq![]);
        assert(x.last() == x[x.len() - 1]);
        assert(strip_cr(x) == x);
        assert(split_lines(t) =~= seq![x]);
        assert(split_lines(join_lines(q)) =~= q);
    }
}

/// Non-blank lines, all of them, make one paragraph.
proof fn lemma_one_paragraph(q: Seq<Seq<char>>)
    requires
        q.len() > 0,
        forall|i: int| 0 <= i < q.len() ==> !is_blank(#[trigger] q[i]),
    ensures
        paragraphs(q) == seq![q],
    decreases q.len(),
{
    let d = q.drop_last();
    if q.len() == 1 {
        assert(d =~= seq![]);
        assert(paragraphs(d) =~= seq![]);
        assert(seq![q.last()] =~= q);
        assert(paragraphs(q) =~= seq![q]);
    } else {
        assert forall|i: int| 0 <= i < d.len() implies !is_blank(#[trigger] d[i]) by {
            assert(d[i] == q[i]);
        }
        lemma_one_paragraph(d);
        assert(!is_blank(q[q.len() - 2]));
        assert(!is_blank(q.last()));
        assert(d.push(q.last()) =~= q);
        assert(paragraphs(q) =~= seq![q]);
    }
}

/// Trailing whitespace of a non-blank text is dropped after whatever comes before it.
proof fn lemma_trim_end_prepend(y: Seq<char>, z: Seq<char>)
    requires
        !is_blank(z),
    ensures
        trim_end(y + z) == y + trim_end(z),
    decreases z.len(),
{
    assert((y + z).last() == z.last());
    if is_ws(z.last()) {
        assert(!is_blank(z.drop_last())) by {
            let w = choose|w: int| 0 <= w < z.len() && !is_ws(z[w]);
            assert(w < z.len() - 1);
            assert(z.drop_last()[w] == z[w]);
        }
        lemma_trim_end_prepend(y, z.drop_last());
        assert((y + z).drop_last() =~= y + z.drop_last());
    }
}

/// Trimming a plain, non-blank line, at either end, leaves it plain and non-blank.
proof fn lemma_trimmed_line(x: Seq<char>)
    requires
        plain_line(x),
        !is_blank(x),
    ensures
        plain_line(trim_start(x)),
        !is_blank(trim_start(x)),
        plain_line(trim_end(x)),
        !is_blank(trim_end(x)),
{
    let w = choose|w: int| 0 <= w < x.len() && !is_ws(x[w]);
    crate::text::lemma_trim_start(x);
    let k = choose|k: int|
        0 <= k <= x.len() && trim_start(x) == x.skip(k) && forall|j: int|
            0 <= j < k ==> #[trigger] is_ws(x[j]);
    let a = trim_start(x);
    assert(w >= k);
    assert(a[w - k] == x[w]);
    assert forall|j: int| 0 <= j < a.len() implies #[trigger] a[j] != '\n' && a[j] != '\r' by {
        assert(a[j] == x[j + k]);
    }
    crate::text::lemma_trim_end(x);
    let m = choose|m: int|
        0 <= m <= x.len() && trim_end(x) == x.take(m) && forall|j: int|
            m <= j < x.len() ==> #[trigger] is_ws(x[j]);
    let b = trim_end(x);
    assert(w < m);
    assert(b[w] == x[w]);
    assert forall|j: int| 0 <= j < b.len() implies #[trigger] b[j] != '\n' && b[j] != '\r' by {
        assert(b[j] == x[j]);
    }
}

/// Dropping the leading whitespace of lines joined by line feeds drops it from the first line.
proof fn lemma_trim_start_join(p: Seq<Seq<char>>)
    requires
        p.len() > 0,
        !is_blank(p[0]),
    ensures
        trim_start(join_lines(p)) == join_lines(p.update(0, trim_start(p[0]))),
{
    let p1 = p.update(0, trim_start(p[0]));
    if p.len() == 1 {
        assert(join_lines(p) == p[0]);
        assert(join_lines(p1) == p1[0]);
    } else {
        let rest = p.skip(1);
        assert(p =~= seq![p[0]] + rest);
        assert(p1 =~= seq![trim_start(p[0])] + rest);
        lemma_join_front(p[0], rest);
        lemma_join_front(trim_start(p[0]), rest);
        lemma_trim_start_append(p[0], seq!['\n'] + join_lines(rest));
        assert(p[0] + seq!['\n'] + join_lines(rest) =~= p[0] + (seq!['\n'] + join_lines(rest)));
        assert(trim_start(p[0]) + (seq!['\n'] + join_lines(rest)) =~= trim_start(p[0]) + seq![
            '\n',
        ] + join_lines(rest));
    }
}

/// Dropping the trailing whitespace of lines joined by line feeds drops it from the last line.
proof fn lemma_trim_end_join(p: Seq<Seq<char>>)
    requires
        p.len() > 0,
        !is_blank(p.last()),
    ensures
        trim_end(join_lines(p)) == join_lines(p.update(p.len() - 1, trim_end(p.last()))),
{
    let p2 = p.update(p.len() - 1, trim_end(p.last()));
    if p.len() == 1 {
        assert(join_lines(p) == p[0]);
        assert(join_lines(p2) == p2[0]);
    } else {
        assert(p2.drop_last() =~= p.drop_last());
        lemma_trim_end_prepend(join_lines(p.drop_last()) + seq!['\n'], p.last());
    }
}

/// A paragraph of plain lines gives a chunk that is its own only chunk.
proof fn lemma_paragraph_text_is_one_chunk(p: Seq<Seq<char>>)
    requires
        p.len() > 0,
        forall|j: int| 0 <= j < p.len() ==> !is_blank(#[trigger] p[j]) && plain_line(p[j]),
    ensures
        chunks_of(paragraph_text(p)) == seq![paragraph_text(p)],
{
    let n = p.len();
    assert(!is_blank(p[0]) && plain_line(p[0]));
    lemma_trimmed_line(p[0]);
    let p1 = p.update(0, trim_start(p[0]));
    lemma_trim_start_join(p);
    assert(!is_blank(p1.last()) && plain_line(p1.last())) by {
        assert(!is_blank(p[n - 1]) && plain_line(p[n - 1]));
    }
    lemma_trimmed_line(p1.last());
    let p2 = p1.update(n - 1, trim_end(p1.last()));
    lemma_trim_end_join(p1);
    let c = join_lines(p2);
    assert(paragraph_text(p) == c);
    assert forall|i: int| 0 <= i < n implies !is_blank(#[trigger] p2[i]) && plain_line(p2[i])
        && p2[i].len() > 0 by {
        if i == n - 1 {
            assert(p2[i] == trim_end(p1.last()));
        } else if i == 0 {
            assert(p2[i] == trim_start(p[0]));
        } else {
            assert(p2[i] == p[i]);
        }
        assert(!is_blank(p2[i]));
        if p2[i].len() == 0 {
            assert(is_blank(p2[i]));
        }
    }
    lemma_split_join(p2);
    lemma_one_paragraph(p2);
    assert(chunks_of(c) =~= seq![paragraph_text(p2)]);
    // The chunk is already trimmed.
    lemma_join_not_blank(p);
    lemma_trim_not_blank(join_lines(p));
    assert(trim_start(c) == c);
    assert(trim_end(c) == c) by {
        assert(c.len() > 0);
    }
}

/// Texts that are each their own only chunk, joined with a blank line between each two,
/// chunk back into those texts.
proof fn lemma_join_paragraphs(cs: Seq<Seq<char>>)
    requires
        forall|i: int| 0 <= i < cs.len() ==> chunks_of(#[trigger] cs[i]) == seq![cs[i]],
    ensures
        chunks_of(join_paragraphs(cs)) == cs,
    decreases cs.len(),
{
    if cs.len() == 0 {
        assert(split_lines(seq![]) =~= seq![]);
        assert(paragraphs(seq![]) =~= seq![]);
        assert(chunks_of(join_paragraphs(cs)) =~= cs);
    } else if cs.len() == 1 {
        assert(chunks_of(cs[0]) == seq![cs[0]]);
        assert(seq![cs[0]] =~= cs);
    } else {
        let d = cs.drop_last();
        assert forall|i: int| 0 <= i < d.len() implies chunks_of(#[trigger] d[i]) == seq![d[i]] by {
            assert(d[i] == cs[i]);
        }
        lemma_join_paragraphs(d);
        law_blank_line_separates(join_paragraphs(d), cs.last());
        assert(chunks_of(cs.last()) == seq![cs[cs.len() - 1]]);
        assert(chunks_of(join_paragraphs(cs)) =~= cs);
    }
}

/// Chunking is idempotent across a blank-line join: the chunks of a text without carriage
/// returns, joined with a blank line between each two, chunk back into the same chunks.
pub proof fn law_rechunking_joined_chunks(text: Seq<char>)
    requires
        no_cr(text),
    ensures
        chunks_of(join_paragraphs(chunks_of(text))) == chunks_of(text),
{
    let lines = split_lines(text);
    lemma_split_lines_plain(text);
    lemma_paragraphs_plain(lines);
    lemma_paragraphs_not_blank(lines);
    let cs = chunks_of(text);
    assert forall|i: int| 0 <= i < cs.len() implies chunks_of(#[trigger] cs[i]) == seq![cs[i]] by {
        let p = paragraphs(lines)[i];
        assert(cs[i] == paragraph_text(p));
        assert forall|j: int| 0 <= j < p.len() implies !is_blank(#[trigger] p[j]) && plain_line(
            p[j],
        ) by {
            assert(plain_line(paragraphs(lines)[i][j]));
        }
        lemma_paragraph_text_is_one_chunk(p);
    }
    lemma_join_paragraphs(cs);
}

} // verus!
