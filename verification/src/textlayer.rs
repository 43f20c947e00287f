//! The code tables of the invisible text layer: Helvetica advance widths,
//! the code units the font must describe, its ToUnicode CMap, the hex
//! strings words are shown with, and the operators that show text.

use vstd::prelude::*;
use crate::text::{
    chars_of, decimal, encode_utf16, hex4, is_space, is_whitespace, push_decimal, push_hex4,
    utf16, utf16_units,
};

verus! {

/// Helvetica advance widths in 1/1000 em for ASCII 32..=126, as measured
/// against the reader the layer is written for.
pub const WIDTHS: [u16; 95] = [
    312, 278, 500, 556, 556, 889, 500, 500, 333, 333, 389, 584, 278, 333, 278, 278, 556, 556, 556,
    556, 556, 556, 556, 556, 556, 556, 278, 278, 500, 584, 500, 556, 1015, 667, 667, 722, 722, 667,
    611, 778, 722, 278, 500, 667, 556, 833, 722, 778, 667, 778, 722, 667, 611, 722, 667, 944, 667,
    667, 611, 278, 278, 278, 469, 556, 333, 556, 556, 500, 556, 556, 278, 556, 556, 222, 222, 500,
    222, 833, 556, 556, 556, 556, 333, 500, 278, 556, 500, 722, 500, 500, 500, 334, 260, 334, 584,
];

/// The advance width of code point `c`: the table for printable ASCII, 500
/// for everything else.
pub open spec fn code_width(c: int) -> int {
    if 32 <= c <= 126 {
        WIDTHS@[c - 32] as int
    } else {
        500
    }
}

/// The advance width of a character in 1/1000 em.
pub fn char_width(ch: char) -> (w: u16)
    ensures
        w == code_width(ch as int),
        w <= 1015,
{
    let c = ch as u32;
    if 32 <= c && c <= 126 {
        let w = WIDTHS[(c - 32) as usize];
        assert(forall|i: int| 0 <= i < 95 ==> WIDTHS@[i] <= 1015);
        w
    } else {
        500
    }
}

/// The total advance of a character sequence in 1/1000 em.
pub open spec fn units_of(s: Seq<char>) -> int
    decreases s.len(),
{
    if s.len() == 0 {
        0
    } else {
        units_of(s.drop_last()) + code_width(s.last() as int)
    }
}

/// The advance of a word in 1/1000 em.
pub fn word_units(word: &str) -> (u: u128)
    ensures
        u == units_of(word@),
{
    let cs = chars_of(word);
    let mut total: u128 = 0;
    let mut i: usize = 0;
    while i < cs.len()
        invariant
            cs@ == word@,
            i <= cs@.len(),
            total == units_of(cs@.take(i as int)),
            total <= 1015 * i,
        decreases cs@.len() - i,
    {
        proof {
            assert(cs@.take(i + 1).drop_last() =~= cs@.take(i as int));
        }
        let w = char_width(cs[i]);
        total = total + w as u128;
        i = i + 1;
    }
    proof {
        assert(cs@.take(cs@.len() as int) =~= cs@);
    }
    total
}

/// The width of font code `c` (a UTF-16 code unit) as the font's /W array
/// lists it.
pub fn cid_width(c: u16) -> (w: u16)
    ensures
        w == code_width(c as int),
{
    if 32 <= c && c <= 126 {
        WIDTHS[(c - 32) as usize]
    } else {
        500
    }
}

/// Whether a content-stream operator puts glyphs on the page: `Tj`, `TJ`,
/// `'` and `"`.
pub fn is_text_showing(op: &str) -> (r: bool)
    ensures
        r == (op@ == "Tj"@ || op@ == "TJ"@ || op@ == "'"@ || op@ == "\""@),
{
    proof {
        reveal_strlit("Tj");
        reveal_strlit("TJ");
        reveal_strlit("'");
        reveal_strlit("\"");
    }
    let cs = chars_of(op);
    if cs.len() == 1 {
        let r = cs[0] == '\'' || cs[0] == '"';
        proof {
            if !r {
                assert(op@ != "'"@);
                assert(op@ != "\""@);
            } else {
                assert(op@ =~= "'"@ || op@ =~= "\""@);
            }
        }
        r
    } else if cs.len() == 2 {
        let r = cs[0] == 'T' && (cs[1] == 'j' || cs[1] == 'J');
        proof {
            if !r {
                assert(op@ != "Tj"@ && op@ != "TJ"@);
            } else {
                assert(op@ =~= "Tj"@ || op@ =~= "TJ"@);
            }
        }
        r
    } else {
        false
    }
}

/// Four hex digits per code unit.
pub open spec fn hex_units(us: Seq<u16>) -> Seq<char>
    decreases us.len(),
{
    if us.len() == 0 {
        seq![]
    } else {
        hex_units(us.drop_last()) + hex4(us.last())
    }
}

/// The hex string a word is shown with under Identity-H: its UTF-16 code
/// units, four uppercase hex digits each.
pub fn utf16_hex(word: &str) -> (s: String)
    ensures
        s@ == hex_units(utf16(word@)),
{
    let cs = chars_of(word);
    let mut s = String::new();
    let mut i: usize = 0;
    while i < cs.len()
        invariant
            cs@ == word@,
            i <= cs@.len(),
            s@ == hex_units(utf16(cs@.take(i as int))),
        decreases cs@.len() - i,
    {
        let units = encode_utf16(cs[i]);
        let ghost before = utf16(cs@.take(i as int));
        let mut k: usize = 0;
        while k < units.len()
            invariant
                units@ == utf16_units(cs@[i as int]),
                k <= units@.len(),
                s@ == hex_units(before + units@.take(k as int)),
            decreases units@.len() - k,
        {
            push_hex4(&mut s, units[k]);
            proof {
                let next = before + units@.take(k + 1);
                assert(next.drop_last() =~= before + units@.take(k as int));
                assert(next.last() == units@[k as int]);
            }
            k = k + 1;
        }
        proof {
            assert(cs@.take(i + 1).drop_last() =~= cs@.take(i as int));
            assert(units@.take(units@.len() as int) =~= units@);
        }
        i = i + 1;
    }
    proof {
        assert(cs@.take(cs@.len() as int) =~= cs@);
    }
    s
}

/// Code unit `u` is used by a non-white-space character among the first
/// `upto` characters of `s`.
pub open spec fn text_uses(s: Seq<char>, u: u16, upto: int) -> bool {
    exists|i: int| 0 <= i < upto && !is_space(s[i]) && #[trigger] utf16_units(s[i]).contains(u)
}

/// The code units a character is shown with: none for white space, which
/// only separates words.
pub open spec fn shown_units(c: char) -> Seq<u16> {
    if is_space(c) {
        seq![]
    } else {
        utf16_units(c)
    }
}

/// Code unit `u` is used by one of the first `upto` texts.
pub open spec fn texts_use(texts: Seq<Seq<char>>, u: u16, upto: int) -> bool {
    exists|t: int| 0 <= t < upto && #[trigger] text_uses(texts[t], u, texts[t].len() as int)
}

/// `s` holds a white-space character.
pub open spec fn has_space(s: Seq<char>) -> bool {
    exists|i: int| 0 <= i < s.len() && #[trigger] is_space(s[i])
}

/// One of the first `upto` texts holds white space.
pub open spec fn any_space(texts: Seq<Seq<char>>, upto: int) -> bool {
    exists|t: int| 0 <= t < upto && #[trigger] has_space(texts[t])
}

/// Code unit `u` is one the font must describe for the first `upto` texts:
/// a unit of one of their characters, or the space U+0020 that joins words
/// when some text holds white space.
pub open spec fn font_uses(texts: Seq<Seq<char>>, u: u16, upto: int) -> bool {
    texts_use(texts, u, upto) || (u == 0x20 && any_space(texts, upto))
}

/// The contents of a list of strings.
pub open spec fn text_views(v: Seq<String>) -> Seq<Seq<char>> {
    v.map_values(|s: String| s@)
}

/// Whether a text holds a white-space character.
fn contains_space(s: &str) -> (r: bool)
    ensures
        r == has_space(s@),
{
    let cs = chars_of(s);
    let mut i: usize = 0;
    while i < cs.len()
        invariant
            cs@ == s@,
            i <= cs@.len(),
            forall|j: int| 0 <= j < i ==> !is_space(#[trigger] cs@[j]),
        decreases cs@.len() - i,
    {
        if is_whitespace(cs[i]) {
            return true;
        }
        i = i + 1;
    }
    false
}

/// Every code unit the text layer will show, ascending and without repeats:
/// the UTF-16 units of the words of every text given (the block texts and
/// the measured word texts), and the space U+0020 that joins the words of a
/// line drawn as one run, whenever some text holds white space. Other white
/// space only separates words and gets no code.
pub fn collect_cids(texts: &Vec<String>) -> (cids: Vec<u16>)
    ensures
        forall|i: int, j: int| 0 <= i < j < cids@.len() ==> cids@[i] < cids@[j],
        forall|u: u16| cids@.contains(u) <==> font_uses(text_views(texts@), u, texts@.len() as int),
{
    let ghost views = text_views(texts@);
    let mut present: Vec<bool> = Vec::new();
    let mut z: usize = 0;
    while z < 65536
        invariant
            z <= 65536,
            present@.len() == z,
            forall|u: int| 0 <= u < z ==> !present@[u],
        decreases 65536 - z,
    {
        present.push(false);
        z = z + 1;
    }
    let mut t: usize = 0;
    while t < texts.len()
        invariant
            views == text_views(texts@),
            t <= texts@.len(),
            present@.len() == 65536,
            forall|u: u16| #[trigger] present@[u as int] <==> texts_use(views, u, t as int),
        decreases texts@.len() - t,
    {
        let cs = chars_of(texts[t].as_str());
        assert(cs@ == views[t as int]);
        let mut i: usize = 0;
        while i < cs.len()
            invariant
                views == text_views(texts@),
                t < texts@.len(),
                cs@ == views[t as int],
                i <= cs@.len(),
                present@.len() == 65536,
                forall|u: u16|
                    #[trigger] present@[u as int] <==> texts_use(views, u, t as int) || text_uses(
                        cs@,
                        u,
                        i as int,
                    ),
            decreases cs@.len() - i,
        {
            let c = cs[i];
            let units = if is_whitespace(c) {
                Vec::new()
            } else {
                encode_utf16(c)
            };
            let mut k: usize = 0;
            while k < units.len()
                invariant
                    units@ == shown_units(c),
                    c == cs@[i as int],
                    i < cs@.len(),
                    k <= units@.len(),
                    present@.len() == 65536,
                    forall|u: u16|
                        #[trigger] present@[u as int] <==> texts_use(views, u, t as int) || text_uses(
                            cs@,
                            u,
                            i as int,
                        ) || units@.take(k as int).contains(u),
                decreases units@.len() - k,
            {
                let ghost before = present@;
                present.set(units[k] as usize, true);
                proof {
                    assert forall|u: u16|
                        #[trigger] present@[u as int] <==> texts_use(views, u, t as int) || text_uses(
                            cs@,
                            u,
                            i as int,
                        ) || units@.take(k + 1).contains(u) by {
                        if u == units@[k as int] {
                            assert(units@.take(k + 1)[k as int] == u);
                        } else {
                            assert(present@[u as int] == before[u as int]);
                            let t1 = units@.take(k + 1);
                            let t0 = units@.take(k as int);
                            if t1.contains(u) {
                                let j = choose|j: int| 0 <= j < t1.len() && #[trigger] t1[j] == u;
                                assert(t0[j] == u);
                            }
                            if t0.contains(u) {
                                let j = choose|j: int| 0 <= j < t0.len() && #[trigger] t0[j] == u;
                                assert(t1[j] == u);
                            }
                        }
                    }
                }
                k = k + 1;
            }
            proof {
                assert(units@.take(units@.len() as int) =~= units@);
                assert forall|u: u16|
                    #[trigger] present@[u as int] <==> texts_use(views, u, t as int) || text_uses(
                        cs@,
                        u,
                        i + 1,
                    ) by {
                    if units@.contains(u) {
                        assert(!is_space(cs@[i as int]));
                        assert(utf16_units(cs@[i as int]).contains(u));
                    }
                    if text_uses(cs@, u, i + 1) && !text_uses(cs@, u, i as int) {
                        let j = choose|j: int|
                            0 <= j < i + 1 && !is_space(cs@[j]) && #[trigger] utf16_units(
                                cs@[j],
                            ).contains(u);
                        assert(j == i);
                    }
                    if text_uses(cs@, u, i as int) {
                        let j = choose|j: int|
                            0 <= j < i && !is_space(cs@[j]) && #[trigger] utf16_units(
                                cs@[j],
                            ).contains(u);
                        assert(0 <= j < i + 1);
                    }
                }
            }
            i = i + 1;
        }
        proof {
            assert forall|u: u16| #[trigger] present@[u as int] <==> texts_use(views, u, t + 1) by {
                if text_uses(cs@, u, cs@.len() as int) {
                    assert(text_uses(views[t as int], u, views[t as int].len() as int));
                }
                if texts_use(views, u, t + 1) && !texts_use(views, u, t as int) {
                    let tt = choose|tt: int|
                        0 <= tt < t + 1 && #[trigger] text_uses(views[tt], u, views[tt].len() as int);
                    assert(tt == t);
                }
                if texts_use(views, u, t as int) {
                    let tt = choose|tt: int|
                        0 <= tt < t && #[trigger] text_uses(views[tt], u, views[tt].len() as int);
                    assert(0 <= tt < t + 1);
                }
            }
        }
        t = t + 1;
    }
    // The space joining the words of a line drawn as one run.
    let mut spaced = false;
    let mut t2: usize = 0;
    while t2 < texts.len()
        invariant
            views == text_views(texts@),
            t2 <= texts@.len(),
            spaced == any_space(views, t2 as int),
        decreases texts@.len() - t2,
    {
        let here = contains_space(texts[t2].as_str());
        proof {
            assert(views[t2 as int] == texts@[t2 as int]@);
            if any_space(views, t2 + 1) && !any_space(views, t2 as int) {
                let tt = choose|tt: int| 0 <= tt < t2 + 1 && #[trigger] has_space(views[tt]);
                assert(tt == t2);
            }
            if any_space(views, t2 as int) {
                let tt = choose|tt: int| 0 <= tt < t2 && #[trigger] has_space(views[tt]);
                assert(0 <= tt < t2 + 1);
            }
            if here {
                assert(has_space(views[t2 as int]));
            }
        }
        spaced = spaced || here;
        t2 = t2 + 1;
    }
    if spaced {
        let ghost before = present@;
        present.set(0x20, true);
        proof {
            assert forall|u: u16| #[trigger] present@[u as int] <==> font_uses(views, u, texts@.len() as int) by {
                if u != 0x20 {
                    assert(present@[u as int] == before[u as int]);
                }
            }
        }
    } else {
        proof {
            assert forall|u: u16| #[trigger] present@[u as int] <==> font_uses(views, u, texts@.len() as int) by {
            }
        }
    }
    let mut cids: Vec<u16> = Vec::new();
    let mut v: usize = 0;
    while v < 65536
        invariant
            v <= 65536,
            present@.len() == 65536,
            forall|i: int| 0 <= i < cids@.len() ==> #[trigger] cids@[i] < v,
            forall|i: int, j: int| 0 <= i < j < cids@.len() ==> cids@[i] < cids@[j],
            forall|u: u16| u < v ==> (cids@.contains(u) <==> #[trigger] present@[u as int]),
            forall|u: u16| u >= v ==> !#[trigger] cids@.contains(u),
        decreases 65536 - v,
    {
        let ghost before = cids@;
        if present[v] {
            cids.push(v as u16);
        }
        proof {
            assert forall|u: u16| u < v + 1 implies (cids@.contains(u) <==> #[trigger] present@[u as int]) by {
                if u < v {
                    if cids@.contains(u) && !before.contains(u) {
                        let cc = cids@;
                        let j = choose|j: int| 0 <= j < cc.len() && #[trigger] cc[j] == u;
                        assert(j == before.len());
                    }
                    if before.contains(u) {
                        let j = choose|j: int| 0 <= j < before.len() && #[trigger] before[j] == u;
                        assert(cids@[j] == u);
                    }
                } else if present@[u as int] {
                    assert(cids@[cids@.len() - 1] == u);
                } else {
                    assert(!before.contains(u));
                }
            }
            assert forall|u: u16| u >= v + 1 implies !#[trigger] cids@.contains(u) by {
                if cids@.contains(u) {
                    let cc = cids@;
                    let j = choose|j: int| 0 <= j < cc.len() && #[trigger] cc[j] == u;
                    if j < before.len() {
                        assert(before[j] == u);
                    }
                }
            }
        }
        v = v + 1;
    }
    proof {
        assert forall|u: u16|
            cids@.contains(u) <==> font_uses(text_views(texts@), u, texts@.len() as int) by {
            assert(u < v);
            assert(cids@.contains(u) <==> present@[u as int]);
        }
    }
    cids
}

/// The fixed opening of the ToUnicode CMap.
pub open spec fn cmap_head() -> Seq<char> {
    "/CIDInit /ProcSet findresource begin\n12 dict begin\nbegincmap\n\
     /CIDSystemInfo << /Registry (Adobe) /Ordering (UCS) /Supplement 0 >> def\n\
     /CMapName /Adobe-Identity-UCS def\n/CMapType 2 def\n\
     1 begincodespacerange\n<0000> <FFFF>\nendcodespacerange\n"@
}

/// Every code unit a word is shown with is one the font describes: when
/// `a..b` is a run of non-space characters of text `t`, every unit of its
/// UTF-16 encoding (what `utf16_hex` writes for the word) is one
/// `collect_cids` of the texts holds.
pub proof fn lemma_shown_codes_described(texts: Seq<Seq<char>>, t: int, a: int, b: int, u: u16)
    requires
        0 <= t < texts.len(),
        0 <= a <= b <= texts[t].len(),
        forall|i: int| a <= i < b ==> !is_space(#[trigger] texts[t][i]),
        utf16(texts[t].subrange(a, b)).contains(u),
    ensures
        font_uses(texts, u, texts.len() as int),
    decreases b - a,
{
    let w = texts[t].subrange(a, b);
    assert(w.len() > 0);
    assert(w.drop_last() =~= texts[t].subrange(a, b - 1));
    assert(w.last() == texts[t][b - 1]);
    let front = utf16(w.drop_last());
    let back = utf16_units(w.last());
    assert(utf16(w) == front + back);
    let k = choose|k: int| 0 <= k < utf16(w).len() && utf16(w)[k] == u;
    if k < front.len() {
        assert(front[k] == u);
        lemma_shown_codes_described(texts, t, a, b - 1, u);
    } else {
        assert(back[k - front.len()] == u);
        assert(back.contains(u));
        assert(text_uses(texts[t], u, texts[t].len() as int));
    }
}

/// The words of a line drawn as one run are joined by U+0020, and the font
/// describes it: a text with two words holds white space between them.
pub proof fn lemma_joining_space_described(texts: Seq<Seq<char>>, t: int, i: int, j: int, k: int)
    requires
        0 <= t < texts.len(),
        0 <= i < j < k < texts[t].len(),
        !is_space(texts[t][i]),
        is_space(texts[t][j]),
        !is_space(texts[t][k]),
    ensures
        font_uses(texts, 0x20, texts.len() as int),
{
    assert(has_space(texts[t]));
}

/// The fixed closing of the ToUnicode CMap.
pub open spec fn cmap_tail() -> Seq<char> {
    "endbfchar\nendcmap\nCMapName currentdict /CMap defineresource pop\nend\nend\n"@
}

/// One `bfchar` line per code, mapping it to itself.
pub open spec fn cmap_entries(cids: Seq<u16>) -> Seq<char>
    decreases cids.len(),
{
    if cids.len() == 0 {
        seq![]
    } else {
        cmap_entries(cids.drop_last()) + "<"@ + hex4(cids.last()) + "> <"@ + hex4(cids.last())
            + ">\n"@
    }
}

/// The ToUnicode CMap of the hidden-text font: every code maps back to the
/// UTF-16 unit it is.
pub open spec fn cmap_text(cids: Seq<u16>) -> Seq<char> {
    cmap_head() + decimal(cids.len()) + " beginbfchar\n"@ + cmap_entries(cids) + cmap_tail()
}

/// The ToUnicode CMap for the given codes.
pub fn tounicode_cmap(cids: &Vec<u16>) -> (s: String)
    ensures
        s@ == cmap_text(cids@),
{
    let mut s = String::from_str(
        "/CIDInit /ProcSet findresource begin\n12 dict begin\nbegincmap\n\
         /CIDSystemInfo << /Registry (Adobe) /Ordering (UCS) /Supplement 0 >> def\n\
         /CMapName /Adobe-Identity-UCS def\n/CMapType 2 def\n\
         1 begincodespacerange\n<0000> <FFFF>\nendcodespacerange\n",
    );
    push_decimal(&mut s, cids.len() as u64);
    s.append(" beginbfchar\n");
    let ghost prefix = s@;
    let mut i: usize = 0;
    while i < cids.len()
        invariant
            i <= cids@.len(),
            s@ == prefix + cmap_entries(cids@.take(i as int)),
        decreases cids@.len() - i,
    {
        s.append("<");
        push_hex4(&mut s, cids[i]);
        s.append("> <");
        push_hex4(&mut s, cids[i]);
        s.append(">\n");
        proof {
            let next = cids@.take(i + 1);
            assert(next.drop_last() =~= cids@.take(i as int));
            assert(next.last() == cids@[i as int]);
            assert(s@ =~= prefix + cmap_entries(next));
        }
        i = i + 1;
    }
    proof {
        assert(cids@.take(cids@.len() as int) =~= cids@);
    }
    s.append("endbfchar\nendcmap\nCMapName currentdict /CMap defineresource pop\nend\nend\n");
    proof {
        assert(s@ =~= cmap_text(cids@));
    }
    s
}

} // verus!
