//! Grouping of a recognised line's characters into words, the first step of
//! per-word boxes: CJK characters go into runs of their own script, latin
//! characters into runs of theirs, and a wide gap between the network columns
//! of two consecutive characters starts a new word.

use vstd::prelude::*;

verus! {

/// The characters of the CJK Unified Ideographs block, U+4E00..=U+9FFF.
pub open spec fn cjk(c: char) -> bool {
    0x4e00 <= (c as int) <= 0x9fff
}

/// The script-class name of a group that starts with `c`.
pub open spec fn state_name(c: char) -> Seq<char> {
    if cjk(c) {
        seq!['c', 'n']
    } else {
        seq!['e', 'n', '&', 'n', 'u', 'm']
    }
}

/// A new word starts at character `i` (for `i >= 1`): the script class
/// changes, or the decoded column jumps by more than four steps.
pub open spec fn breaks_at(text: Seq<char>, selection: Seq<usize>, i: int) -> bool {
    cjk(text[i]) != cjk(text[i - 1]) || selection[i] - selection[i - 1] > 4
}

/// Where group `k` starts: the total length of the groups before it.
pub open spec fn group_start<T>(groups: Seq<Seq<T>>, k: int) -> int
    decreases k,
{
    if k <= 0 {
        0
    } else {
        group_start(groups, k - 1) + groups[k - 1].len()
    }
}

/// `g` (with columns `c`) is the run of `text` starting at `start`, with no
/// break inside it.
pub open spec fn is_run_at(
    text: Seq<char>,
    selection: Seq<usize>,
    g: Seq<char>,
    c: Seq<usize>,
    start: int,
) -> bool {
    &&& c.len() == g.len()
    &&& 0 <= start && start + g.len() <= text.len()
    &&& forall|j: int|
        0 <= j < g.len() ==> #[trigger] g[j] == text[start + j] && c[j] == selection[start + j] && (j
            > 0 ==> !breaks_at(text, selection, start + j))
}

/// `words` cuts `text` into consecutive non-empty groups exactly at the
/// breaks, and `cols` carries each character's column alongside.
pub open spec fn is_word_grouping(
    text: Seq<char>,
    selection: Seq<usize>,
    words: Seq<Seq<char>>,
    cols: Seq<Seq<usize>>,
) -> bool {
    &&& words.len() == cols.len()
    &&& text.len() <= selection.len()
    &&& group_start(words, words.len() as int) == text.len()
    &&& forall|k: int| 0 <= k < words.len() ==> #[trigger] words[k].len() > 0
    &&& forall|k: int|
        0 <= k < words.len() ==> #[trigger] is_run_at(
            text,
            selection,
            words[k],
            cols[k],
            group_start(words, k),
        )
    &&& forall|k: int|
        0 < k < words.len() ==> #[trigger] breaks_at(text, selection, group_start(words, k))
}

/// A recognised line's words, as the per-word box computation takes them.
pub struct WordInfo {
    /// Total network steps for this line (the cell-count denominator).
    pub col_num: usize,
    /// Groups of characters: CJK runs per character class, latin runs per word.
    pub word_list: Vec<Vec<char>>,
    /// Network column index of each character in each group.
    pub word_col_list: Vec<Vec<usize>>,
    /// "cn" or "en&num" per group.
    pub state_list: Vec<String>,
}

/// Whether `c` is a CJK unified ideograph (U+4E00..=U+9FFF).
pub fn is_cjk(c: char) -> (r: bool)
    ensures
        r == cjk(c),
{
    '\u{4e00}' <= c && c <= '\u{9fff}'
}

fn state_string(c: char) -> (s: String)
    ensures
        s@ == state_name(c),
{
    if is_cjk(c) {
        proof {
            reveal_strlit("cn");
        }
        String::from_str("cn")
    } else {
        proof {
            reveal_strlit("en&num");
        }
        String::from_str("en&num")
    }
}

proof fn lemma_group_start_push<T>(groups: Seq<Seq<T>>, g: Seq<T>, k: int)
    requires
        0 <= k <= groups.len(),
    ensures
        group_start(groups.push(g), k) == group_start(groups, k),
    decreases k,
{
    if k > 0 {
        lemma_group_start_push(groups, g, k - 1);
        assert(groups.push(g)[k - 1] == groups[k - 1]);
    }
}

/// The grouping of a recognised line: characters in `text` with the network
/// column each was decoded at in `selection`. Returns the groups, their
/// columns, and each group's class, `"cn"` or `"en&num"`.
///
/// An empty selection yields no groups.
pub fn get_word_info(text: &[char], selection: &[usize]) -> (res: (
    Vec<Vec<char>>,
    Vec<Vec<usize>>,
    Vec<String>,
))
    requires
        selection@.len() > 0 ==> text@.len() <= selection@.len(),
        forall|i: int, j: int| 0 <= i <= j < selection@.len() ==> selection@[i] <= selection@[j],
    ensures
        selection@.len() == 0 ==> res.0@.len() == 0 && res.1@.len() == 0 && res.2@.len() == 0,
        selection@.len() > 0 ==> is_word_grouping(
            text@,
            selection@,
            res.0@.map_values(|g: Vec<char>| g@),
            res.1@.map_values(|g: Vec<usize>| g@),
        ),
        res.2@.len() == res.0@.len(),
        forall|k: int|
            0 <= k < res.0@.len() ==> #[trigger] res.2@[k]@ == state_name(res.0@[k]@[0]),
{
    let mut word_list: Vec<Vec<char>> = Vec::new();
    let mut word_col_list: Vec<Vec<usize>> = Vec::new();
    let mut state_list: Vec<String> = Vec::new();
    if selection.len() == 0 {
        return (word_list, word_col_list, state_list);
    }
    let mut word_content: Vec<char> = Vec::new();
    let mut word_col_content: Vec<usize> = Vec::new();
    let mut cur: char = 'a';
    let ghost mut ws: Seq<Seq<char>> = seq![];
    let ghost mut cs: Seq<Seq<usize>> = seq![];
    let mut ci: usize = 0;
    while ci < text.len()
        invariant
            ci <= text@.len(),
            text@.len() <= selection@.len(),
            forall|i: int, j: int| 0 <= i <= j < selection@.len() ==> selection@[i] <= selection@[j],
            ws == word_list@.map_values(|g: Vec<char>| g@),
            cs == word_col_list@.map_values(|g: Vec<usize>| g@),
            ws.len() == cs.len(),
            state_list@.len() == ws.len(),
            forall|k: int| 0 <= k < ws.len() ==> #[trigger] state_list@[k]@ == state_name(ws[k][0]),
            group_start(ws, ws.len() as int) + word_content@.len() == ci,
            word_col_content@.len() == word_content@.len(),
            (word_content@.len() > 0) == (ci > 0),
            ci == 0 ==> ws.len() == 0,
            ci > 0 ==> cur == text@[ci - 1] || cjk(cur) == cjk(text@[ci - 1]),
            ci > 0 ==> word_content@[0] == text@[group_start(ws, ws.len() as int)],
            ci > 0 ==> cjk(cur) == cjk(word_content@[0]),
            is_run_at(
                text@,
                selection@,
                word_content@,
                word_col_content@,
                group_start(ws, ws.len() as int),
            ),
            ws.len() > 0 && word_content@.len() > 0 ==> breaks_at(
                text@,
                selection@,
                group_start(ws, ws.len() as int),
            ),
            forall|k: int| 0 <= k < ws.len() ==> #[trigger] ws[k].len() > 0,
            forall|k: int|
                0 <= k < ws.len() ==> #[trigger] is_run_at(
                    text@,
                    selection@,
                    ws[k],
                    cs[k],
                    group_start(ws, k),
                ),
            forall|k: int|
                0 < k < ws.len() ==> #[trigger] breaks_at(text@, selection@, group_start(ws, k)),
        decreases text@.len() - ci,
    {
        let ch = text[ci];
        let c_cjk = is_cjk(ch);
        if ci == 0 {
            cur = ch;
        }
        let brk = ci > 0 && (is_cjk(cur) != c_cjk || selection[ci] - selection[ci - 1] > 4);
        if brk {
            let ghost g = word_content@;
            let ghost gc = word_col_content@;
            let ghost old_ws = ws;
            let st = state_string(cur);
            word_list.push(word_content);
            word_col_list.push(word_col_content);
            state_list.push(st);
            proof {
                ws = ws.push(g);
                cs = cs.push(gc);
                assert(ws =~= word_list@.map_values(|g: Vec<char>| g@));
                assert(cs =~= word_col_list@.map_values(|g: Vec<usize>| g@));
                assert forall|k: int| 0 <= k <= old_ws.len() implies group_start(ws, k) == group_start(
                    old_ws,
                    k,
                ) by {
                    lemma_group_start_push(old_ws, g, k);
                }
                assert(group_start(ws, ws.len() as int) == ci);
                assert forall|k: int|
                    0 <= k < ws.len() implies #[trigger] is_run_at(
                    text@,
                    selection@,
                    ws[k],
                    cs[k],
                    group_start(ws, k),
                ) by {
                    lemma_group_start_push(old_ws, g, k);
                    if k == old_ws.len() {
                        assert(ws[k] == g);
                        assert(cs[k] == gc);
                    }
                }
                assert forall|k: int|
                    0 < k < ws.len() implies #[trigger] breaks_at(
                    text@,
                    selection@,
                    group_start(ws, k),
                ) by {
                    lemma_group_start_push(old_ws, g, k);
                }
                assert(state_list@[old_ws.len() as int]@ == state_name(ws[old_ws.len() as int][0]));
            }
            word_content = Vec::new();
            word_col_content = Vec::new();
            cur = ch;
        }
        let ghost start = group_start(ws, ws.len() as int);
        let ghost prev = word_content@;
        let ghost prev_cols = word_col_content@;
        proof {
            if prev.len() > 0 {
                assert(!brk);
                assert(!breaks_at(text@, selection@, ci as int));
            } else if ws.len() > 0 {
                assert(brk);
                assert(start == ci);
                assert(breaks_at(text@, selection@, ci as int));
            }
        }
        word_content.push(ch);
        word_col_content.push(selection[ci]);
        proof {
            assert forall|j: int|
                0 <= j < word_content@.len() implies #[trigger] word_content@[j] == text@[start + j]
                && word_col_content@[j] == selection@[start + j] && (j > 0 ==> !breaks_at(
                text@,
                selection@,
                start + j,
            )) by {
                if j < prev.len() {
                    assert(word_content@[j] == prev[j]);
                    assert(word_col_content@[j] == prev_cols[j]);
                }
            }
        }
        ci = ci + 1;
    }
    if word_content.len() > 0 {
        let ghost g = word_content@;
        let ghost gc = word_col_content@;
        let ghost old_ws = ws;
        let st = state_string(cur);
        word_list.push(word_content);
        word_col_list.push(word_col_content);
        state_list.push(st);
        proof {
            ws = ws.push(g);
            cs = cs.push(gc);
            assert(ws =~= word_list@.map_values(|g: Vec<char>| g@));
            assert(cs =~= word_col_list@.map_values(|g: Vec<usize>| g@));
            assert forall|k: int|
                0 <= k < ws.len() implies #[trigger] is_run_at(
                text@,
                selection@,
                ws[k],
                cs[k],
                group_start(ws, k),
            ) by {
                lemma_group_start_push(old_ws, g, k);
                if k == old_ws.len() {
                    assert(ws[k] == g);
                    assert(cs[k] == gc);
                }
            }
            assert forall|k: int|
                0 < k < ws.len() implies #[trigger] breaks_at(text@, selection@, group_start(ws, k)) by {
                lemma_group_start_push(old_ws, g, k);
            }
            lemma_group_start_push(old_ws, g, old_ws.len() as int);
            assert(state_list@[old_ws.len() as int]@ == state_name(ws[old_ws.len() as int][0]));
        }
    }
    (word_list, word_col_list, state_list)
}

/// The groups of a grouping laid end to end.
pub open spec fn joined<T>(groups: Seq<Seq<T>>) -> Seq<T>
    decreases groups.len(),
{
    if groups.len() == 0 {
        seq![]
    } else {
        joined(groups.drop_last()) + groups.last()
    }
}

proof fn lemma_joined_prefix(
    text: Seq<char>,
    selection: Seq<usize>,
    words: Seq<Seq<char>>,
    cols: Seq<Seq<usize>>,
    k: int,
)
    requires
        is_word_grouping(text, selection, words, cols),
        0 <= k <= words.len(),
    ensures
        joined(words.take(k)) == text.take(group_start(words, k)),
        joined(cols.take(k)) == selection.take(group_start(words, k)),
        0 <= group_start(words, k) <= group_start(words, words.len() as int),
    decreases k,
{
    if k > 0 {
        lemma_joined_prefix(text, selection, words, cols, k - 1);
        lemma_group_start_mono(words, k, words.len() as int);
        assert(words.take(k).drop_last() =~= words.take(k - 1));
        assert(cols.take(k).drop_last() =~= cols.take(k - 1));
        assert(is_run_at(text, selection, words[k - 1], cols[k - 1], group_start(words, k - 1)));
        let st = group_start(words, k - 1);
        assert(text.take(group_start(words, k)) =~= text.take(st) + words[k - 1]);
        let ck = cols[k - 1];
        assert forall|j: int| 0 <= j < ck.len() implies #[trigger] ck[j] == selection[st + j] by {
            assert(words[k - 1][j] == text[st + j]);
        }
        assert(selection.take(group_start(words, k)) =~= selection.take(st) + cols[k - 1]);
    } else {
        assert(words.take(0) =~= Seq::<Seq<char>>::empty());
        assert(cols.take(0) =~= Seq::<Seq<usize>>::empty());
        assert(text.take(0) =~= Seq::<char>::empty());
        assert(selection.take(0) =~= Seq::<usize>::empty());
        lemma_group_start_mono(words, 0, words.len() as int);
    }
}

proof fn lemma_group_start_nonneg<T>(groups: Seq<Seq<T>>, a: int)
    ensures
        0 <= group_start(groups, a),
    decreases a,
{
    if a > 0 {
        lemma_group_start_nonneg(groups, a - 1);
    }
}

proof fn lemma_group_start_mono<T>(groups: Seq<Seq<T>>, a: int, b: int)
    requires
        0 <= a <= b <= groups.len(),
    ensures
        0 <= group_start(groups, a) <= group_start(groups, b),
    decreases b,
{
    if a < b {
        lemma_group_start_mono(groups, a, b - 1);
    } else {
        lemma_group_start_nonneg(groups, a);
    }
}

/// Laid end to end, the words give back the text, and their columns the
/// selection the text was decoded at.
pub proof fn lemma_grouping_round_trip(
    text: Seq<char>,
    selection: Seq<usize>,
    words: Seq<Seq<char>>,
    cols: Seq<Seq<usize>>,
)
    requires
        is_word_grouping(text, selection, words, cols),
    ensures
        joined(words) == text,
        joined(cols) == selection.take(text.len() as int),
{
    lemma_joined_prefix(text, selection, words, cols, words.len() as int);
    assert(words.take(words.len() as int) =~= words);
    assert(cols.take(words.len() as int) =~= cols);
    assert(text.take(text.len() as int) =~= text);
}

/// Every word is all CJK or all latin: a change of script always breaks.
pub proof fn lemma_word_single_script(
    text: Seq<char>,
    selection: Seq<usize>,
    words: Seq<Seq<char>>,
    cols: Seq<Seq<usize>>,
    k: int,
    j: int,
)
    requires
        is_word_grouping(text, selection, words, cols),
        0 <= k < words.len(),
        0 <= j < words[k].len(),
    ensures
        cjk(words[k][j]) == cjk(words[k][0]),
    decreases j,
{
    if j > 0 {
        lemma_word_single_script(text, selection, words, cols, k, j - 1);
        assert(is_run_at(text, selection, words[k], cols[k], group_start(words, k)));
        let st = group_start(words, k);
        assert(words[k][j] == text[st + j]);
        assert(words[k][j - 1] == text[st + j - 1]);
        assert(!breaks_at(text, selection, st + j));
    }
}


/// Inside a word: character `j > 0` of word `k` is the text's character at
/// the word's start plus `j`, has the script of the character before it,
/// and sits at most four columns after it.
proof fn lemma_inside_word(
    text: Seq<char>,
    selection: Seq<usize>,
    words: Seq<Seq<char>>,
    cols: Seq<Seq<usize>>,
    k: int,
    j: int,
)
    requires
        is_word_grouping(text, selection, words, cols),
        0 <= k < words.len(),
        0 < j < words[k].len(),
    ensures
        words[k][j] == text[group_start(words, k) + j],
        (0x4e00 <= (text[group_start(words, k) + j] as int) <= 0x9fff) == (0x4e00 <= (text[group_start(
            words,
            k,
        ) + j - 1] as int) <= 0x9fff),
        selection[group_start(words, k) + j] <= selection[group_start(words, k) + j - 1] + 4,
{
    let st = group_start(words, k);
    assert(is_run_at(text, selection, words[k], cols[k], st));
    assert(words[k][j] == text[st + j] && (j > 0 ==> !breaks_at(text, selection, st + j)));
}

/// Stated on the characters themselves: inside a word, each character has
/// the script of the one before it (both in U+4E00..=U+9FFF or both outside)
/// and its column is at most four steps after the previous one; where a new
/// word starts, the script changes or the column jumps by more than four.
pub proof fn lemma_words_split_at_script_or_gap(
    text: Seq<char>,
    selection: Seq<usize>,
    words: Seq<Seq<char>>,
    cols: Seq<Seq<usize>>,
)
    requires
        is_word_grouping(text, selection, words, cols),
    ensures
        forall|k: int, j: int|
            0 <= k < words.len() && 0 < j < words[k].len() ==> #[trigger] words[k][j] == text[group_start(
                words,
                k,
            ) + j] && (0x4e00 <= (text[group_start(words, k) + j] as int) <= 0x9fff) == (0x4e00 <= (text[group_start(
                words,
                k,
            ) + j - 1] as int) <= 0x9fff) && selection[group_start(words, k) + j] <= selection[group_start(
                words,
                k,
            ) + j - 1] + 4,
        forall|k: int|
            0 < k < words.len() ==> (0x4e00 <= (text[#[trigger] group_start(words, k)] as int) <= 0x9fff)
                != (0x4e00 <= (text[group_start(words, k) - 1] as int) <= 0x9fff) || selection[group_start(
                words,
                k,
            )] > selection[group_start(words, k) - 1] + 4,
{
    assert forall|k: int, j: int|
        0 <= k < words.len() && 0 < j < words[k].len() implies #[trigger] words[k][j] == text[group_start(
        words,
        k,
    ) + j] && (0x4e00 <= (text[group_start(words, k) + j] as int) <= 0x9fff) == (0x4e00 <= (text[group_start(
        words,
        k,
    ) + j - 1] as int) <= 0x9fff) && selection[group_start(words, k) + j] <= selection[group_start(
        words,
        k,
    ) + j - 1] + 4 by {
        lemma_inside_word(text, selection, words, cols, k, j);
    }
    assert forall|k: int| 0 < k < words.len() implies (0x4e00 <= (text[#[trigger] group_start(words, k)] as int)
        <= 0x9fff) != (0x4e00 <= (text[group_start(words, k) - 1] as int) <= 0x9fff) || selection[group_start(
        words,
        k,
    )] > selection[group_start(words, k) - 1] + 4 by {
        assert(breaks_at(text, selection, group_start(words, k)));
    }
}

/// A group's class name is "cn" when its first character is a CJK
/// ideograph (U+4E00..=U+9FFF) and "en&num" otherwise.
pub proof fn lemma_state_names(c: char)
    ensures
        (0x4e00 <= (c as int) <= 0x9fff) ==> state_name(c) == "cn"@,
        !(0x4e00 <= (c as int) <= 0x9fff) ==> state_name(c) == "en&num"@,
{
    reveal_strlit("cn");
    reveal_strlit("en&num");
    assert(seq!['c', 'n'] =~= "cn"@);
    assert(seq!['e', 'n', '&', 'n', 'u', 'm'] =~= "en&num"@);
}

} // verus!
