//! Splitting note text into paragraph chunks.

use vstd::prelude::*;

use crate::text::{chars_of, is_blank, is_blank_chars, is_ws, trim, trimmed};

verus! {

/// The number of characters of `s` before its first line feed (all of them when it has none).
pub open spec fn line_len(s: Seq<char>) -> nat
    decreases s.len(),
{
    if s.len() == 0 || s[0] == '\n' {
        0
    } else {
        1 + line_len(s.drop_first())
    }
}

/// `line` without one trailing carriage return.
pub open spec fn strip_cr(line: Seq<char>) -> Seq<char> {
    if line.len() > 0 && line.last() == '\r' {
        line.drop_last()
    } else {
        line
    }
}

/// The lines of `s`, as `str::lines` yields them: `s` is split at each line feed, a carriage
/// return just before a line feed goes with it, and a final line feed ends the last line
/// rather than starting an empty one.
pub open spec fn split_lines(s: Seq<char>) -> Seq<Seq<char>>
    decreases s.len(),
{
    if s.len() == 0 {
        seq![]
    } else {
        let k = line_len(s);
        if k < s.len() {
            seq![strip_cr(s.take(k as int))] + split_lines(s.skip((k + 1) as int))
        } else {
            seq![s]
        }
    }
}

/// The maximal runs of consecutive non-blank lines of `lines`, in order: each line either is
/// blank and belongs to no run, or continues the run of the line before it, or starts a run.
pub open spec fn paragraphs(lines: Seq<Seq<char>>) -> Seq<Seq<Seq<char>>>
    decreases lines.len(),
{
    if lines.len() == 0 {
        seq![]
    } else {
        let before = paragraphs(lines.drop_last());
        let line = lines.last();
        if is_blank(line) {
            before
        } else if lines.len() > 1 && !is_blank(lines[lines.len() - 2]) {
            before.update(before.len() - 1, before.last().push(line))
        } else {
            before.push(seq![line])
        }
    }
}

/// The lines of `p` joined by line feeds.
pub open spec fn join_lines(p: Seq<Seq<char>>) -> Seq<char>
    decreases p.len(),
{
    if p.len() == 0 {
        seq![]
    } else if p.len() == 1 {
        p[0]
    } else {
        join_lines(p.drop_last()) + seq!['\n'] + p.last()
    }
}

/// The chunk a paragraph gives: its lines joined by line feeds, trimmed.
pub open spec fn paragraph_text(p: Seq<Seq<char>>) -> Seq<char> {
    trim(join_lines(p))
}

/// The chunks of a sequence of lines: one per paragraph, in order.
pub open spec fn chunks_of_lines(lines: Seq<Seq<char>>) -> Seq<Seq<char>> {
    paragraphs(lines).map_values(|p: Seq<Seq<char>>| paragraph_text(p))
}

/// The paragraph chunks of a text.
pub open spec fn chunks_of(text: Seq<char>) -> Seq<Seq<char>> {
    chunks_of_lines(split_lines(text))
}

/// The texts of a sequence of strings.
pub open spec fn texts(v: Seq<String>) -> Seq<Seq<char>> {
    v.map_values(|s: String| s@)
}

/// The character sequences of a sequence of character vectors.
pub open spec fn char_seqs(v: Seq<Vec<char>>) -> Seq<Seq<char>> {
    v.map_values(|x: Vec<char>| x@)
}

/// A line of `k` characters without a line feed, ended by one or by the end of `s`, has
/// `line_len` `k`.
pub proof fn lemma_line_len(s: Seq<char>, k: int)
    requires
        0 <= k <= s.len(),
        forall|j: int| 0 <= j < k ==> s[j] != '\n',
        k == s.len() || s[k] == '\n',
    ensures
        line_len(s) == k,
    decreases k,
{
    if k > 0 {
        lemma_line_len(s.drop_first(), k - 1);
    }
}

/// The lines of the characters `v`, as `str::lines` yields them.
fn lines_of(v: &Vec<char>) -> (lines: Vec<Vec<char>>)
    ensures
        char_seqs(lines@) == split_lines(v@),
{
    let n = v.len();
    let mut lines: Vec<Vec<char>> = Vec::new();
    let mut line: Vec<char> = Vec::new();
    let mut start: usize = 0;
    assert(v@.skip(0) =~= v@);
    assert(char_seqs(lines@) =~= seq![]);
    for i in 0..n
        invariant
            n == v.len(),
            start <= i,
            line@ == v@.subrange(start as int, i as int),
            forall|j: int| start <= j < i ==> v@[j] != '\n',
            char_seqs(lines@) + split_lines(v@.skip(start as int)) == split_lines(v@),
    {
        if v[i] == '\n' {
            let ghost t = v@.skip(start as int);
            proof {
                lemma_line_len(t, i - start);
                assert(t.take(i - start) =~= line@);
                assert(t.skip(i - start + 1) =~= v@.skip(i + 1));
            }
            let len = line.len();
            if len > 0 && line[len - 1] == '\r' {
                line.pop();
            }
            let ghost before = char_seqs(lines@);
            lines.push(line);
            assert(char_seqs(lines@) =~= before.push(strip_cr(t.take(i - start))));
            assert(before.push(strip_cr(t.take(i - start))) + split_lines(v@.skip(i + 1))
                =~= before + split_lines(t));
            line = Vec::new();
            start = i + 1;
        } else {
            line.push(v[i]);
            assert(line@ =~= v@.subrange(start as int, i + 1));
        }
    }
    let ghost t = v@.skip(start as int);
    assert(t =~= line@);
    if line.len() > 0 {
        proof {
            lemma_line_len(t, t.len() as int);
        }
        let ghost before = char_seqs(lines@);
        lines.push(line);
        assert(char_seqs(lines@) =~= before.push(t));
        assert(before + split_lines(t) =~= before.push(t));
    } else {
        assert(char_seqs(lines@) + split_lines(t) =~= char_seqs(lines@));
    }
    lines
}

/// Whether the line before position `i` of `lines` exists and is not blank: then a
/// paragraph is open after the first `i` lines.
pub open spec fn open_after(lines: Seq<Seq<char>>, i: int) -> bool {
    0 < i && !is_blank(lines[i - 1])
}

/// Split raw text into paragraph-level chunks, separated by one or more blank lines: the
/// text's lines are grouped into runs of consecutive non-blank lines, and each run, joined
/// by line feeds and trimmed, is a chunk.
pub fn chunk_text(content: &str) -> (chunks: Vec<String>)
    ensures
        texts(chunks@) == chunks_of(content@),
{
    let chars = chars_of(content);
    let lines = lines_of(&chars);
    let ghost all = split_lines(content@);
    let n = lines.len();
    let mut chunks: Vec<String> = Vec::new();
    let mut current: Vec<char> = Vec::new();
    assert(all.take(0) =~= seq![]);
    assert(texts(chunks@) =~= seq![]);
    for i in 0..n
        invariant
            n == lines.len() == all.len(),
            char_seqs(lines@) == all,
            open_after(all, i as int) ==> {
                let p = paragraphs(all.take(i as int));
                &&& p.len() > 0
                &&& p.last().len() > 0
                &&& current@ == join_lines(p.last())
                &&& !is_blank(current@)
                &&& texts(chunks@) == chunks_of_lines(all.take(i as int)).drop_last()
            },
            !open_after(all, i as int) ==> {
                &&& current@.len() == 0
                &&& texts(chunks@) == chunks_of_lines(all.take(i as int))
            },
    {
        let ghost before = all.take(i as int);
        let ghost after = all.take(i + 1);
        let ghost p = paragraphs(before);
        let ghost line = all[i as int];
        assert(after.drop_last() =~= before);
        assert(after.last() == line);
        assert(lines@[i as int]@ == line);
        if is_blank_chars(&lines[i]) {
            assert(paragraphs(after) == p);
            if current.len() > 0 {
                let ghost old_texts = texts(chunks@);
                let t = trimmed(&current);
                chunks.push(t);
                assert(texts(chunks@) =~= old_texts.push(paragraph_text(p.last())));
                assert(chunks_of_lines(before) =~= chunks_of_lines(before).drop_last().push(
                    paragraph_text(p.last()),
                ));
            }
            current.clear();
            assert(!open_after(all, i + 1));
        } else {
            let ghost old_current = current@;
            let was_open = current.len() > 0;
            if was_open {
                current.push('\n');
            }
            let line_ref = &lines[i];
            let mut j: usize = 0;
            let ghost base = current@;
            while j < line_ref.len()
                invariant
                    j <= line_ref.len(),
                    current@ == base + line_ref@.take(j as int),
                decreases line_ref.len() - j,
            {
                current.push(line_ref[j]);
                assert(line_ref@.take(j + 1) =~= line_ref@.take(j as int).push(line_ref@[j as int]));
                j = j + 1;
            }
            assert(line_ref@.take(j as int) =~= line);
            let ghost w = choose|k: int| 0 <= k < line.len() && !is_ws(line[k]);
            assert(current@[base.len() + w] == line[w]);
            assert(open_after(all, i + 1));
            if was_open {
                assert(open_after(all, i as int));
                assert(after[after.len() - 2] == all[i - 1]);
                let ghost q = p.last().push(line);
                assert(paragraphs(after) == p.update(p.len() - 1, q));
                assert(paragraphs(after).last() == q);
                assert(q.drop_last() =~= p.last());
                assert(join_lines(q) == join_lines(p.last()) + seq!['\n'] + line);
                assert(current@ =~= join_lines(q));
                assert(chunks_of_lines(after).drop_last() =~= chunks_of_lines(before).drop_last());
            } else {
                assert(!open_after(all, i as int));
                assert(paragraphs(after) == p.push(seq![line]));
                assert(current@ =~= line);
                assert(join_lines(seq![line]) == line);
                assert(chunks_of_lines(after).drop_last() =~= chunks_of_lines(before));
            }
        }
    }
    assert(all.take(n as int) =~= all);
    if current.len() > 0 {
        let ghost p = paragraphs(all);
        let ghost old_texts = texts(chunks@);
        let t = trimmed(&current);
        chunks.push(t);
        assert(texts(chunks@) =~= old_texts.push(paragraph_text(p.last())));
        assert(chunks_of_lines(all) =~= chunks_of_lines(all).drop_last().push(paragraph_text(p.last())));
    }
    chunks
}

} // verus!
