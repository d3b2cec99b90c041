use vstd::prelude::*;
use vstd::string::StrSliceExecFns;
use vstd::string::StringExecFns;

use crate::text::dec_str;
use crate::text::join_nl;
use crate::text::lemma_join_nl_push;
use crate::text::lines_of;
use crate::text::lower_of;
use crate::text::pad_left;
use crate::text::padded_dec;
use crate::text::split_lines;
use crate::text::usize_to_dec;

verus! {

/// A single document stored as a path and its lines, with a precomputed
/// lowercase mirror of the lines for case-insensitive search.
#[derive(Debug, Clone)]
pub struct Document {
    pub path: String,
    pub lines: Vec<String>,
    pub lines_lower: Vec<String>,
}

impl Document {
    /// The lowercase mirror is in step with the lines.
    pub open spec fn wf(self) -> bool {
        &&& self.lines_lower@.len() == self.lines@.len()
        &&& forall|i: int|
            0 <= i < self.lines@.len() ==> self.lines_lower@[i]@ == lower_of(self.lines@[i]@)
    }

    pub fn new(path: String, content: &str) -> (r: Self)
        ensures
            r.wf(),
            r.path@ == path@,
            r.lines.deep_view() == lines_of(content@),
    {
        let lines = split_lines(content);
        let mut lines_lower: Vec<String> = Vec::new();
        let mut i: usize = 0;
        while i < lines.len()
            invariant
                0 <= i <= lines@.len(),
                lines_lower@.len() == i,
                forall|k: int| 0 <= k < i ==> lines_lower@[k]@ == lower_of(lines@[k]@),
            decreases lines@.len() - i,
        {
            lines_lower.push(lines[i].as_str().to_lowercase());
            i += 1;
        }
        Document { path, lines, lines_lower }
    }

    pub fn total_lines(&self) -> (r: usize)
        ensures
            r == self.lines@.len(),
    {
        self.lines.len()
    }

    /// Reads lines starting at the 1-indexed `offset` (default 1), at most
    /// `limit` of them (default: to the end), formatted with right-aligned
    /// line numbers. An offset beyond the end yields an empty string.
    pub fn read(&self, offset: Option<usize>, limit: Option<usize>) -> (r: String)
        ensures
            r@ == format_read(self.lines.deep_view(), offset, limit),
    {
        let start: usize = match offset {
            Some(o) => if o >= 1 {
                o - 1
            } else {
                0
            },
            None => 0,
        };
        if start >= self.lines.len() {
            return String::new();
        }
        let end: usize = match limit {
            Some(l) => {
                let e = if l > usize::MAX - start {
                    usize::MAX
                } else {
                    start + l
                };
                if e < self.lines.len() {
                    e
                } else {
                    self.lines.len()
                }
            },
            None => self.lines.len(),
        };
        let mut width: usize = usize_to_dec(end).as_str().unicode_len();
        if width < 3 {
            width = 3;
        }
        let ghost pieces = read_pieces(self.lines.deep_view(), start as int, end as int,
            width as int);
        let mut out = String::new();
        let mut i: usize = start;
        proof {
            assert(pieces.take(0) =~= Seq::<Seq<char>>::empty());
        }
        while i < end
            invariant
                start <= i <= end,
                end <= self.lines@.len(),
                width >= 3,
                pieces == read_pieces(self.lines.deep_view(), start as int, end as int,
                    width as int),
                out@ == join_nl(pieces.take(i - start)),
            decreases end - i,
        {
            let padded = padded_dec(i + 1, width);
            if i > start {
                out.append("\n");
            }
            out.append(padded.as_str());
            out.append("  ");
            out.append(self.lines[i].as_str());
            proof {
                reveal_strlit("\n");
                reveal_strlit("  ");
                assert("\n"@ =~= seq!['\n']);
                assert("  "@ =~= seq![' ', ' ']);
                let k = i - start;
                assert(pieces[k] == format_line(i + 1, width as int, self.lines.deep_view()[i
                    as int]));
                lemma_join_nl_push(pieces.take(k), pieces[k]);
                assert(pieces.take(k).push(pieces[k]) =~= pieces.take(k + 1));
                if i > start {
                    assert(out@ =~= join_nl(pieces.take(k)) + seq!['\n'] + pieces[k]);
                } else {
                    assert(out@ =~= pieces[k]);
                }
            }
            i += 1;
        }
        proof {
            assert(pieces.take(end - start) =~= pieces);
        }
        out
    }
}

/// One formatted output line: the right-aligned line number, two spaces, and
/// the raw content.
pub open spec fn format_line(num: int, width: int, content: Seq<char>) -> Seq<char> {
    pad_left(dec_str(num), width) + seq![' ', ' '] + content
}

/// The formatted pieces for lines `start..end` (0-indexed), numbered from
/// `start + 1`.
pub open spec fn read_pieces(lines: Seq<Seq<char>>, start: int, end: int, width: int) -> Seq<
    Seq<char>,
> {
    Seq::new((end - start) as nat, |i: int| format_line(start + i + 1, width, lines[start + i]))
}

/// A full read (no offset, no limit) renders every stored line: one piece
/// per line, the `i`-th carrying line number `i + 1`, joined by newlines.
pub proof fn lemma_read_full_renders_all_lines(lines: Seq<Seq<char>>)
    ensures
        lines.len() == 0 ==> format_read(lines, None, None) == Seq::<char>::empty(),
        lines.len() > 0 ==> {
            let width: int = if dec_str(lines.len() as int).len() < 3 {
                3
            } else {
                dec_str(lines.len() as int).len() as int
            };
            &&& format_read(lines, None, None) == join_nl(
                read_pieces(lines, 0, lines.len() as int, width),
            )
            &&& read_pieces(lines, 0, lines.len() as int, width).len() == lines.len()
            &&& forall|i: int|
                0 <= i < lines.len() ==> read_pieces(lines, 0, lines.len() as int, width)[i]
                    == format_line(i + 1, width, lines[i])
        },
{
}

/// An offset beyond the last line yields empty output; reading never fails.
pub proof fn lemma_read_past_end_empty(lines: Seq<Seq<char>>, o: usize, limit: Option<usize>)
    requires
        o >= 1,
        o - 1 >= lines.len(),
    ensures
        format_read(lines, Some(o), limit) == Seq::<char>::empty(),
{
}

/// The whole output of a range read: lines `start..end` are formatted with a
/// number column wide enough for the last emitted number (at least 3), and
/// joined by newlines. An offset past the end gives an empty result.
pub open spec fn format_read(
    lines: Seq<Seq<char>>,
    offset: Option<usize>,
    limit: Option<usize>,
) -> Seq<char> {
    let start: int = match offset {
        Some(o) => if o >= 1 {
            o - 1
        } else {
            0
        },
        None => 0,
    };
    if start >= lines.len() {
        Seq::empty()
    } else {
        let end: int = match limit {
            Some(l) => if start + l < lines.len() {
                start + l
            } else {
                lines.len() as int
            },
            None => lines.len() as int,
        };
        let width: int = if dec_str(end).len() < 3 {
            3
        } else {
            dec_str(end).len() as int
        };
        join_nl(read_pieces(lines, start, end, width))
    }
}

} // verus!
