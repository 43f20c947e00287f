//! The bookkeeping of a conversion: one text per page, the document's own
//! words where it had them and the recognised lines where it did not, with
//! the counts the summary reports.

use vstd::prelude::*;
use crate::export::{summarize, Summary};

verus! {

/// Lines joined with a newline between each two.
pub open spec fn joined_lines(lines: Seq<Seq<char>>) -> Seq<char>
    decreases lines.len(),
{
    if lines.len() == 0 {
        seq![]
    } else if lines.len() == 1 {
        lines[0]
    } else {
        joined_lines(lines.drop_last()) + "\n"@ + lines.last()
    }
}

/// The contents of a list of strings.
pub open spec fn line_views(v: Seq<String>) -> Seq<Seq<char>> {
    v.map_values(|s: String| s@)
}

/// The recognised lines of a page as one text, a newline between each two.
pub fn join_lines(lines: &Vec<String>) -> (s: String)
    ensures
        s@ == joined_lines(line_views(lines@)),
{
    let ghost views = line_views(lines@);
    let mut s = String::new();
    let mut i: usize = 0;
    while i < lines.len()
        invariant
            views == line_views(lines@),
            i <= lines@.len(),
            s@ == joined_lines(views.take(i as int)),
        decreases lines@.len() - i,
    {
        let ghost before = s@;
        if i > 0 {
            s.append("\n");
        }
        s.append(lines[i].as_str());
        proof {
            reveal_strlit("\n");
            let next = views.take(i + 1);
            assert(next.drop_last() =~= views.take(i as int));
            assert(next.last() == lines@[i as int]@);
            if i == 0 {
                assert(before =~= seq![]);
                assert(s@ =~= next[0]);
            } else {
                assert(s@ =~= joined_lines(next.drop_last()) + "\n"@ + next.last());
            }
        }
        i = i + 1;
    }
    proof {
        assert(views.take(lines@.len() as int) =~= views);
    }
    s
}

/// A conversion in progress.
pub struct Conversion {
    /// Text per page so far.
    pub page_text: Vec<String>,
    /// Pages that were recognised.
    pub pages_ocr: usize,
    /// Pages that kept their own text.
    pub pages_skipped: usize,
    /// Lines recognised over all pages.
    pub lines: usize,
}

impl Conversion {
    /// Every page so far was either recognised or kept: one text each.
    pub open spec fn consistent(&self) -> bool {
        self.page_text@.len() == self.pages_ocr + self.pages_skipped
    }

    /// A conversion that has seen no page yet.
    pub fn new() -> (c: Conversion)
        ensures
            c.page_text@.len() == 0,
            c.pages_ocr == 0,
            c.pages_skipped == 0,
            c.lines == 0,
            c.consistent(),
    {
        Conversion { page_text: Vec::new(), pages_ocr: 0, pages_skipped: 0, lines: 0 }
    }

    /// A page that already carried text keeps its own words.
    pub fn keep_own_text(&mut self, own: String)
        requires
            old(self).pages_skipped < usize::MAX,
        ensures
            final(self).page_text@ == old(self).page_text@.push(own),
            final(self).pages_skipped == old(self).pages_skipped + 1,
            final(self).pages_ocr == old(self).pages_ocr,
            final(self).lines == old(self).lines,
            old(self).consistent() ==> final(self).consistent(),
    {
        self.page_text.push(own);
        self.pages_skipped = self.pages_skipped + 1;
    }

    /// A page that was recognised into `lines`: its text is the lines, one
    /// per row.
    pub fn add_recognised(&mut self, lines: &Vec<String>)
        requires
            old(self).pages_ocr < usize::MAX,
            old(self).lines + lines@.len() <= usize::MAX,
        ensures
            final(self).page_text@.len() == old(self).page_text@.len() + 1,
            forall|i: int|
                0 <= i < old(self).page_text@.len() ==> #[trigger] final(self).page_text@[i]
                    == old(self).page_text@[i],
            final(self).page_text@.last()@ == joined_lines(line_views(lines@)),
            final(self).pages_ocr == old(self).pages_ocr + 1,
            final(self).lines == old(self).lines + lines@.len(),
            final(self).pages_skipped == old(self).pages_skipped,
            old(self).consistent() ==> final(self).consistent(),
    {
        let text = join_lines(lines);
        self.page_text.push(text);
        self.pages_ocr = self.pages_ocr + 1;
        self.lines = self.lines + lines.len();
    }

    /// What the finished conversion of a document of `total` pages reports.
    pub fn summary(&self, total: usize, is_pdf: bool) -> (s: Summary)
        ensures
            s.pages_total == total,
            s.pages_ocr == self.pages_ocr,
            s.pages_skipped == self.pages_skipped,
            s.lines == self.lines,
            s.kind@ == (if is_pdf {
                "pdf"@
            } else {
                "image"@
            }),
            s.already_searchable == (self.pages_ocr == 0 && self.pages_skipped > 0),
    {
        summarize(total, self.pages_ocr, self.pages_skipped, self.lines, is_pdf)
    }
}

} // verus!
