//! The document scanner: walks a text line by line, hands maximal runs of
//! pipe-containing lines to the table formatter, splices formatted tables
//! back in, and copies every other line through unchanged.

use vstd::prelude::*;

use crate::table::{table_ok, table_output, TableFormatter};
use crate::text::{
    chars_of, clone_chars, has_char, join_char, split_lines, string_of, text_lines, trim_chars,
    trimmed,
};

verus! {

/// Whether the line's trimmed form starts with the triple-backtick fence
/// marker.
pub open spec fn fence_line(l: Seq<char>) -> bool {
    trimmed(l).len() >= 3 && trimmed(l)[0] == '`' && trimmed(l)[1] == '`' && trimmed(l)[2] == '`'
}

/// Whether a line may start a table block: it begins with a pipe once
/// trimmed, or contains a pipe and is not a fence delimiter line.
pub open spec fn line_candidate(l: Seq<char>) -> bool {
    (trimmed(l).len() > 0 && trimmed(l)[0] == '|') || (l.contains('|') && !fence_line(l))
}

/// The first index at or after `i` whose line contains no pipe (or the end
/// of the document).
pub open spec fn span_end(ls: Seq<Seq<char>>, i: int) -> int
    decreases ls.len() - i,
{
    if i < 0 || i >= ls.len() {
        i
    } else if ls[i].contains('|') {
        span_end(ls, i + 1)
    } else {
        i
    }
}

/// The candidate block starting at line `i`: the pipe-containing run joined
/// back with newlines.
pub open spec fn span_block(ls: Seq<Seq<char>>, i: int) -> Seq<char> {
    join_char(ls.subrange(i, span_end(ls, i)), '\n')
}

/// The scanner's output from line `i` on: formatted table blocks where a
/// candidate run formats successfully, every other line verbatim with its
/// newline.
pub open spec fn doc_pieces(ls: Seq<Seq<char>>, i: int) -> Seq<char>
    decreases ls.len() - i,
{
    if i < 0 || i >= ls.len() {
        Seq::empty()
    } else {
        let end = span_end(ls, i);
        if line_candidate(ls[i]) && i < end && end <= ls.len() && table_ok(span_block(ls, i)) {
            table_output(span_block(ls, i)) + doc_pieces(ls, end)
        } else {
            ls[i] + seq!['\n'] + doc_pieces(ls, i + 1)
        }
    }
}

/// Whether a text ends in a newline.
pub open spec fn ends_newline(s: Seq<char>) -> bool {
    s.len() > 0 && s.last() == '\n'
}

/// What `format_document` returns: the scanner's output, with a trailing
/// newline removed when the source document did not end in one.
pub open spec fn document_output(d: Seq<char>) -> Seq<char> {
    let o = doc_pieces(text_lines(d), 0);
    if !ends_newline(d) && ends_newline(o) {
        o.drop_last()
    } else {
        o
    }
}

/// `span_end` stays within the document and never runs backward.
pub proof fn lemma_span_end_props(ls: Seq<Seq<char>>, i: int)
    requires
        0 <= i <= ls.len(),
    ensures
        i <= span_end(ls, i) <= ls.len(),
        forall|k: int| i <= k < span_end(ls, i) ==> (#[trigger] ls[k]).contains('|'),
    decreases ls.len() - i,
{
    if i < ls.len() && ls[i].contains('|') {
        lemma_span_end_props(ls, i + 1);
    }
}

impl TableFormatter {
    /// Attempts to extract and format a table starting at the given line
    /// index. Returns the number of lines consumed and the formatted text,
    /// or `None` when the run at `start` is not a well-formed table.
    fn try_format_table_at(&mut self, lines: &Vec<Vec<char>>, start: usize) -> (r: Option<
        (usize, String),
    >)
        ensures
            (r is Some <==> (start < lines.deep_view().len() && span_end(
                lines.deep_view(),
                start as int,
            ) > start && table_ok(span_block(lines.deep_view(), start as int)))),
            (r matches Some(p) ==> p.0 as int == span_end(lines.deep_view(), start as int)
                - start && p.1@ == table_output(span_block(lines.deep_view(), start as int))),
    {
        let ghost ls = lines.deep_view();
        proof {
            crate::text::lemma_rows_view(lines);
        }
        if start >= lines.len() {
            return None;
        }
        let mut end = start;
        while end < lines.len() && has_char(&lines[end], '|')
            invariant
                start <= end <= lines@.len(),
                ls == lines.deep_view(),
                ls.len() == lines@.len(),
                forall|t: int| 0 <= t < ls.len() ==> #[trigger] ls[t] == lines@[t]@,
                span_end(ls, start as int) == span_end(ls, end as int),
            decreases lines@.len() - end,
        {
            proof {
                assert(ls[end as int].contains('|'));
                assert(span_end(ls, end as int) == span_end(ls, end + 1 as int));
            }
            end = end + 1;
        }
        proof {
            if end < lines@.len() {
                assert(!ls[end as int].contains('|'));
            }
            assert(span_end(ls, end as int) == end);
        }
        if end == start {
            return None;
        }
        let mut block_lines: Vec<Vec<char>> = Vec::new();
        let mut t: usize = start;
        proof {
            assert(block_lines.deep_view() =~~= ls.subrange(start as int, start as int));
        }
        while t < end
            invariant
                start <= t <= end <= lines@.len(),
                ls == lines.deep_view(),
                ls.len() == lines@.len(),
                forall|k: int| 0 <= k < ls.len() ==> #[trigger] ls[k] == lines@[k]@,
                block_lines.deep_view() == ls.subrange(start as int, t as int),
            decreases end - t,
        {
            let ghost pre = block_lines.deep_view();
            block_lines.push(clone_chars(&lines[t]));
            proof {
                assert(block_lines.deep_view() =~~= pre.push(ls[t as int]));
                assert(ls.subrange(start as int, t + 1 as int) =~~= ls.subrange(
                    start as int,
                    t as int,
                ).push(ls[t as int]));
            }
            t = t + 1;
        }
        let block = crate::text::join_with(&block_lines, '\n');
        proof {
            assert(block@ == span_block(ls, start as int));
        }
        match self.format_table_chars(&block) {
            Ok(formatted) => Some((end - start, formatted)),
            Err(_) => None,
        }
    }

    /// Formats tables within a Markdown document, preserving all other
    /// content: every line outside a successfully formatted table block is
    /// copied through unchanged, and the document's own trailing-newline
    /// state is kept.
    pub fn format_document(&mut self, document: &str) -> (r: String)
        ensures
            r@ == document_output(document@),
    {
        let chars = chars_of(document);
        let lines = split_lines(&chars);
        let ghost ls = lines.deep_view();
        proof {
            crate::text::lemma_rows_view(&lines);
        }
        let mut out: Vec<char> = Vec::new();
        let mut i: usize = 0;
        while i < lines.len()
            invariant
                0 <= i <= lines@.len(),
                ls == lines.deep_view(),
                ls.len() == lines@.len(),
                forall|t: int| 0 <= t < ls.len() ==> #[trigger] ls[t] == lines@[t]@,
                out@ + doc_pieces(ls, i as int) == doc_pieces(ls, 0),
            decreases lines@.len() - i,
        {
            let ghost i0 = i as int;
            let ghost outpre = out@;
            proof {
                lemma_span_end_props(ls, i0);
            }
            let line = &lines[i];
            let tl = trim_chars(line);
            let is_fence = tl.len() >= 3 && tl[0] == '`' && tl[1] == '`' && tl[2] == '`';
            let is_cand = (tl.len() > 0 && tl[0] == '|') || (has_char(line, '|') && !is_fence);
            proof {
                assert(tl@ == trimmed(ls[i0]));
                assert(is_fence == fence_line(ls[i0]));
                assert(is_cand == line_candidate(ls[i0]));
            }
            let mut handled = false;
            if is_cand {
                proof {
                    if trimmed(ls[i0]).len() > 0 && trimmed(ls[i0])[0] == '|' {
                        crate::text::lemma_trimmed_props(ls[i0]);
                        assert(trimmed(ls[i0]).contains('|'));
                        assert(ls[i0].contains('|'));
                    }
                    assert(span_end(ls, i0) == span_end(ls, i0 + 1));
                    lemma_span_end_props(ls, i0 + 1);
                    assert(span_end(ls, i0) > i0);
                }
                match self.try_format_table_at(&lines, i) {
                    Some(pair) => {
                        let (consumed, formatted) = pair;
                        let mut fchars = chars_of(formatted.as_str());
                        out.append(&mut fchars);
                        proof {
                            assert(doc_pieces(ls, i0) == table_output(span_block(ls, i0))
                                + doc_pieces(ls, span_end(ls, i0)));
                            assert(outpre + (table_output(span_block(ls, i0)) + doc_pieces(
                                ls,
                                span_end(ls, i0),
                            )) =~= (outpre + table_output(span_block(ls, i0))) + doc_pieces(
                                ls,
                                span_end(ls, i0),
                            ));
                        }
                        i = i + consumed;
                        handled = true;
                    },
                    None => {},
                }
            }
            if !handled {
                proof {
                    if is_cand {
                        assert(!table_ok(span_block(ls, i0)));
                    }
                    assert(doc_pieces(ls, i0) == ls[i0] + seq!['\n'] + doc_pieces(ls, i0 + 1));
                }
                let mut lcopy = clone_chars(line);
                out.append(&mut lcopy);
                out.push('\n');
                proof {
                    assert(out@ =~= outpre + (ls[i0] + seq!['\n']));
                    assert(outpre + (ls[i0] + seq!['\n'] + doc_pieces(ls, i0 + 1)) =~= (outpre + (
                    ls[i0] + seq!['\n'])) + doc_pieces(ls, i0 + 1));
                }
                i = i + 1;
            }
        }
        proof {
            assert(doc_pieces(ls, ls.len() as int) == Seq::<char>::empty());
            assert(out@ + Seq::<char>::empty() =~= out@);
            assert(out@ == doc_pieces(text_lines(document@), 0));
        }
        let src_nl = chars.len() > 0 && chars[chars.len() - 1] == '\n';
        let out_nl = out.len() > 0 && out[out.len() - 1] == '\n';
        if !src_nl && out_nl {
            let _ = out.pop();
            proof {
                assert(out@ =~= doc_pieces(text_lines(document@), 0).drop_last());
            }
        }
        string_of(&out)
    }
}

} // verus!
