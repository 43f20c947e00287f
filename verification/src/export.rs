//! What a finished job exports: the plain-text rendering of its pages, the
//! numbers reported about it, and the test that decides which pages of a PDF
//! need recognising at all.

use vstd::prelude::*;
use crate::text::{chars_of, decimal, is_space, is_whitespace, push_char, push_decimal};

verus! {

/// A page whose own text layer holds at least this many characters is born
/// digital and is not recognised again.
pub const TEXT_CHARS_THRESHOLD: usize = 10;

/// Whether a page with `text_chars` characters of its own text keeps them
/// rather than being recognised.
pub fn page_has_own_text(text_chars: usize) -> (r: bool)
    ensures
        r == (text_chars >= TEXT_CHARS_THRESHOLD),
{
    text_chars >= TEXT_CHARS_THRESHOLD
}

/// The line that introduces page `n` of a PDF in the text export.
pub open spec fn separator_text(n: nat) -> Seq<char> {
    "\n\n--- Page "@ + decimal(n) + " ---\n\n"@
}

/// The separator written before page `n` (counted from one) of a PDF.
pub fn page_separator(n: usize) -> (s: String)
    ensures
        s@ == separator_text(n as nat),
{
    let mut s = String::from_str("\n\n--- Page ");
    push_decimal(&mut s, n as u64);
    s.append(" ---\n\n");
    s
}

/// `s` without its leading white space.
pub open spec fn trim_start(s: Seq<char>) -> Seq<char>
    decreases s.len(),
{
    if s.len() > 0 && is_space(s[0]) {
        trim_start(s.drop_first())
    } else {
        s
    }
}

/// `s` without its trailing white space.
pub open spec fn trim_end(s: Seq<char>) -> Seq<char>
    decreases s.len(),
{
    if s.len() > 0 && is_space(s.last()) {
        trim_end(s.drop_last())
    } else {
        s
    }
}

/// `s` without leading and trailing white space (`str::trim`).
pub open spec fn trimmed(s: Seq<char>) -> Seq<char> {
    trim_end(trim_start(s))
}

/// How many line feeds `s` holds.
pub open spec fn newline_count(s: Seq<char>) -> nat
    decreases s.len(),
{
    if s.len() == 0 {
        0
    } else {
        newline_count(s.drop_last()) + if s.last() == '\n' {
            1nat
        } else {
            0nat
        }
    }
}

/// How many lines `str::lines` yields: one per line feed, plus an
/// unterminated last line.
pub open spec fn line_count(s: Seq<char>) -> nat {
    if s.len() == 0 {
        0
    } else if s.last() == '\n' {
        newline_count(s)
    } else {
        newline_count(s) + 1
    }
}

/// The text export of a job's pages: each page trimmed, introduced by its
/// separator when the job was a PDF.
pub open spec fn export_text(pages: Seq<Seq<char>>, is_pdf: bool) -> Seq<char>
    decreases pages.len(),
{
    if pages.len() == 0 {
        seq![]
    } else {
        export_text(pages.drop_last(), is_pdf) + (if is_pdf {
            separator_text(pages.len())
        } else {
            seq![]
        }) + trimmed(pages.last())
    }
}

/// The line total reported for an export: every page counts at least one.
pub open spec fn export_lines(pages: Seq<Seq<char>>) -> nat
    decreases pages.len(),
{
    if pages.len() == 0 {
        0
    } else {
        export_lines(pages.drop_last()) + if line_count(pages.last()) == 0 {
            1nat
        } else {
            line_count(pages.last())
        }
    }
}

/// The contents of a list of strings.
pub open spec fn string_views(v: Seq<String>) -> Seq<Seq<char>> {
    v.map_values(|s: String| s@)
}

/// The text export of a converted document.
pub struct TextResult {
    pub text: String,
    pub pages: usize,
    pub lines: usize,
    pub chars: usize,
}

/// What a conversion reports back.
pub struct Summary {
    pub pages_total: usize,
    pub pages_ocr: usize,
    pub pages_skipped: usize,
    pub lines: usize,
    /// "pdf" or "image".
    pub kind: String,
    /// Every page already carried a text layer: there was nothing to do.
    pub already_searchable: bool,
}

/// The summary of a conversion of `total` pages, `ocr` of them recognised
/// into `lines` lines and `skipped` kept for their own text.
pub fn summarize(total: usize, ocr: usize, skipped: usize, lines: usize, is_pdf: bool) -> (s: Summary)
    ensures
        s.pages_total == total,
        s.pages_ocr == ocr,
        s.pages_skipped == skipped,
        s.lines == lines,
        s.kind@ == (if is_pdf {
            "pdf"@
        } else {
            "image"@
        }),
        s.already_searchable == (ocr == 0 && skipped > 0),
{
    Summary {
        pages_total: total,
        pages_ocr: ocr,
        pages_skipped: skipped,
        lines,
        kind: if is_pdf {
            String::from_str("pdf")
        } else {
            String::from_str("image")
        },
        already_searchable: ocr == 0 && skipped > 0,
    }
}

proof fn lemma_trim_start_at(s: Seq<char>, a: int)
    requires
        0 <= a <= s.len(),
        forall|i: int| 0 <= i < a ==> is_space(#[trigger] s[i]),
        a == s.len() || !is_space(s[a]),
    ensures
        trim_start(s) == s.skip(a),
    decreases a,
{
    if a > 0 {
        assert forall|i: int| 0 <= i < a - 1 implies is_space(#[trigger] s.drop_first()[i]) by {
            assert(s.drop_first()[i] == s[i + 1]);
        }
        if a < s.len() {
            assert(s.drop_first()[a - 1] == s[a]);
        }
        lemma_trim_start_at(s.drop_first(), a - 1);
        assert(s.drop_first().skip(a - 1) =~= s.skip(a));
    } else {
        assert(s.skip(0) =~= s);
    }
}

proof fn lemma_trim_end_at(s: Seq<char>, b: int)
    requires
        0 <= b <= s.len(),
        forall|i: int| b <= i < s.len() ==> is_space(#[trigger] s[i]),
        b == 0 || !is_space(s[b - 1]),
    ensures
        trim_end(s) == s.take(b),
    decreases s.len() - b,
{
    if b < s.len() {
        assert forall|i: int| b <= i < s.len() - 1 implies is_space(#[trigger] s.drop_last()[i]) by {
            assert(s.drop_last()[i] == s[i]);
        }
        if b > 0 {
            assert(s.drop_last()[b - 1] == s[b - 1]);
        }
        lemma_trim_end_at(s.drop_last(), b);
        assert(s.drop_last().take(b) =~= s.take(b));
    } else {
        assert(s.take(b) =~= s);
    }
}

/// The trimmed characters of one page, appended to `out`, and the page's
/// line count.
fn append_trimmed(out: &mut String, page: &String) -> (lines: usize)
    ensures
        final(out)@ == old(out)@ + trimmed(page@),
        lines == line_count(page@),
{
    let cs = chars_of(page.as_str());
    let n = cs.len();
    let mut newlines: usize = 0;
    let mut i: usize = 0;
    while i < n
        invariant
            n == cs@.len(),
            cs@ == page@,
            i <= n,
            newlines == newline_count(cs@.take(i as int)),
            newlines <= i,
            i > 0 && cs@[i - 1] != '\n' ==> newlines < i,
        decreases n - i,
    {
        proof {
            assert(cs@.take(i + 1).drop_last() =~= cs@.take(i as int));
        }
        if cs[i] == '\n' {
            newlines = newlines + 1;
        }
        i = i + 1;
    }
    proof {
        assert(cs@.take(n as int) =~= cs@);
    }
    let lines = if n == 0 {
        0
    } else if cs[n - 1] == '\n' {
        newlines
    } else {
        newlines + 1
    };
    let mut a: usize = 0;
    while a < n && is_whitespace(cs[a])
        invariant
            a <= n,
            n == cs@.len(),
            forall|j: int| 0 <= j < a ==> is_space(#[trigger] cs@[j]),
        decreases n - a,
    {
        a = a + 1;
    }
    let mut b: usize = n;
    while b > a && is_whitespace(cs[b - 1])
        invariant
            a <= b <= n,
            n == cs@.len(),
            forall|j: int| b <= j < n ==> is_space(#[trigger] cs@[j]),
        decreases b,
    {
        b = b - 1;
    }
    proof {
        lemma_trim_start_at(cs@, a as int);
        let t = cs@.skip(a as int);
        assert forall|j: int| b - a <= j < t.len() implies is_space(#[trigger] t[j]) by {
            assert(t[j] == cs@[j + a]);
        }
        if b > a {
            assert(t[b - a - 1] == cs@[b - 1]);
        }
        lemma_trim_end_at(t, b - a);
        assert(trimmed(page@) =~= cs@.subrange(a as int, b as int));
    }
    let mut k: usize = a;
    while k < b
        invariant
            a <= k <= b <= n,
            n == cs@.len(),
            out@ == old(out)@ + cs@.subrange(a as int, k as int),
        decreases b - k,
    {
        push_char(out, cs[k]);
        proof {
            assert(cs@.subrange(a as int, k + 1) =~= cs@.subrange(a as int, k as int).push(cs@[k as int]));
        }
        k = k + 1;
    }
    lines
}

/// The text of a converted document: each page's text trimmed, behind a
/// page separator when the document was a PDF, with the page, line and
/// character counts the export reports.
pub fn export_txt(page_text: &Vec<String>, is_pdf: bool) -> (r: TextResult)
    requires
        export_lines(string_views(page_text@)) <= usize::MAX,
    ensures
        r.text@ == export_text(string_views(page_text@), is_pdf),
        r.pages == page_text@.len(),
        r.lines == export_lines(string_views(page_text@)),
        r.chars == r.text@.len(),
{
    let ghost pages = string_views(page_text@);
    let mut text = String::new();
    let mut lines: usize = 0;
    let mut i: usize = 0;
    while i < page_text.len()
        invariant
            pages == string_views(page_text@),
            export_lines(pages) <= usize::MAX,
            i <= page_text@.len(),
            text@ == export_text(pages.take(i as int), is_pdf),
            lines == export_lines(pages.take(i as int)),
        decreases page_text@.len() - i,
    {
        proof {
            assert(pages.take(i + 1).drop_last() =~= pages.take(i as int));
            assert(pages.take(i + 1).last() == page_text@[i as int]@);
            lemma_export_lines_prefix(pages, i + 1);
        }
        if is_pdf {
            let sep = page_separator(i + 1);
            text.append(sep.as_str());
        }
        let n = append_trimmed(&mut text, &page_text[i]);
        lines = lines + if n == 0 {
            1
        } else {
            n
        };
        i = i + 1;
    }
    proof {
        assert(pages.take(page_text@.len() as int) =~= pages);
    }
    let chars = text.as_str().unicode_len();
    TextResult { text, pages: page_text.len(), lines, chars }
}

proof fn lemma_export_lines_prefix(pages: Seq<Seq<char>>, i: int)
    requires
        0 <= i <= pages.len(),
    ensures
        export_lines(pages.take(i)) <= export_lines(pages),
    decreases pages.len(),
{
    if i < pages.len() {
        assert(pages.drop_last().take(i) =~= pages.take(i));
        lemma_export_lines_prefix(pages.drop_last(), i);
    } else {
        assert(pages.take(i) =~= pages);
    }
}


/// Trimming keeps exactly the stretch from the first to the last
/// non-white-space character: whenever everything before `a` and from `b`
/// on is white space, and the stretch `a..b` starts and ends on a
/// character that is not, the trimmed text is `s[a..b]` (and an all-space
/// text trims to nothing).
pub proof fn lemma_trimmed_is_inner_stretch(s: Seq<char>, a: int, b: int)
    requires
        0 <= a <= b <= s.len(),
        forall|i: int| 0 <= i < a ==> is_space(#[trigger] s[i]),
        forall|i: int| b <= i < s.len() ==> is_space(#[trigger] s[i]),
        a < b ==> !is_space(s[a]) && !is_space(s[b - 1]),
    ensures
        trimmed(s) == s.subrange(a, b),
{
    if a < b {
        lemma_trim_start_at(s, a);
        let t = s.skip(a);
        assert forall|i: int| b - a <= i < t.len() implies is_space(#[trigger] t[i]) by {
            assert(t[i] == s[i + a]);
        }
        assert(t[b - a - 1] == s[b - 1]);
        lemma_trim_end_at(t, b - a);
        assert(t.take(b - a) =~= s.subrange(a, b));
    } else {
        assert forall|i: int| 0 <= i < s.len() implies is_space(#[trigger] s[i]) by {
            if i >= a {
                assert(b <= i);
            }
        }
        lemma_trim_start_at(s, s.len() as int);
        assert(s.skip(s.len() as int) =~= Seq::<char>::empty());
        assert(trim_end(Seq::<char>::empty()) == Seq::<char>::empty());
        assert(s.subrange(a, b) =~= Seq::<char>::empty());
    }
}

} // verus!
