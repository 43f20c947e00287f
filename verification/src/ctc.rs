//! Greedy CTC decoding of the recogniser's best path: repeated classes
//! collapse, the blank (class 0) drops out, and what remains maps through the
//! alphabet.

use vstd::prelude::*;
use crate::text::{chars_of, push_char};

verus! {

/// The class the decoder compares step `t` with: the previous step's, or a
/// value no class has before the first step.
pub open spec fn previous_class(best: Seq<usize>, t: int) -> int {
    if t == 0 {
        usize::MAX as int
    } else {
        best[t - 1] as int
    }
}

/// Step `t` of the best path yields a character: its class is not the
/// blank, differs from the previous step's, and has an alphabet entry.
pub open spec fn kept_step(best: Seq<usize>, alphabet_len: int, t: int) -> bool {
    best[t] != 0 && best[t] as int != previous_class(best, t) && (best[t] as int) < alphabet_len
}

/// The kept steps among the first `n`, in order.
pub open spec fn kept_steps(best: Seq<usize>, alphabet_len: int, n: int) -> Seq<usize>
    decreases n,
{
    if n <= 0 {
        seq![]
    } else if kept_step(best, alphabet_len, n - 1) {
        kept_steps(best, alphabet_len, n - 1).push((n - 1) as usize)
    } else {
        kept_steps(best, alphabet_len, n - 1)
    }
}

/// The text the first `n` steps decode to: the alphabet entries of the kept
/// steps' classes, concatenated.
pub open spec fn decoded_text(best: Seq<usize>, alphabet: Seq<Seq<char>>, n: int) -> Seq<char>
    decreases n,
{
    if n <= 0 {
        seq![]
    } else if kept_step(best, alphabet.len() as int, n - 1) {
        decoded_text(best, alphabet, n - 1) + alphabet[best[n - 1] as int]
    } else {
        decoded_text(best, alphabet, n - 1)
    }
}

/// Decode a best path (the argmax class of every network step) through the
/// alphabet. Returns the text and the steps that produced it.
pub fn ctc_decode(best: &Vec<usize>, alphabet: &Vec<String>) -> (res: (String, Vec<usize>))
    ensures
        res.0@ == decoded_text(best@, alphabet@.map_values(|s: String| s@), best@.len() as int),
        res.1@ == kept_steps(best@, alphabet@.len() as int, best@.len() as int),
{
    let ghost views = alphabet@.map_values(|s: String| s@);
    let mut last: usize = usize::MAX;
    let mut text = String::new();
    let mut selection: Vec<usize> = Vec::new();
    let mut t: usize = 0;
    while t < best.len()
        invariant
            views == alphabet@.map_values(|s: String| s@),
            t <= best@.len(),
            last as int == previous_class(best@, t as int),
            text@ == decoded_text(best@, views, t as int),
            selection@ == kept_steps(best@, alphabet@.len() as int, t as int),
        decreases best@.len() - t,
    {
        let bi = best[t];
        if bi == 0 || bi == last {
            last = bi;
        } else {
            last = bi;
            if bi < alphabet.len() {
                text.append(alphabet[bi].as_str());
                selection.push(t);
            }
        }
        t = t + 1;
    }
    (text, selection)
}

/// The pieces of `s` between line feeds (`str::split('\n')`): one more
/// piece than there are line feeds, empty ones included.
pub open spec fn split_lines(s: Seq<char>) -> Seq<Seq<char>>
    decreases s.len(),
{
    if s.len() == 0 {
        seq![seq![]]
    } else {
        let p = split_lines(s.drop_last());
        if s.last() == '\n' {
            p.push(seq![])
        } else {
            p.update(p.len() - 1, p.last().push(s.last()))
        }
    }
}

proof fn lemma_split_lines_nonempty(s: Seq<char>)
    ensures
        split_lines(s).len() > 0,
    decreases s.len(),
{
    if s.len() > 0 {
        lemma_split_lines_nonempty(s.drop_last());
    }
}

/// The decoder alphabet carried in the model's `character` metadata: the
/// listed entries (a trailing empty line dropped), then a space, behind the
/// blank at index zero.
pub open spec fn alphabet_spec(raw: Seq<char>) -> Seq<Seq<char>> {
    let pieces = split_lines(raw);
    let entries = if pieces.last().len() == 0 {
        pieces.drop_last()
    } else {
        pieces
    };
    seq!["blank"@] + entries + seq![" "@]
}

/// The decoder alphabet from the model's `character` metadata.
pub fn alphabet_from_metadata(raw: &str) -> (chars: Vec<String>)
    ensures
        chars@.map_values(|s: String| s@) == alphabet_spec(raw@),
{
    let cs = chars_of(raw);
    let mut chars: Vec<String> = Vec::new();
    chars.push(String::from_str("blank"));
    let mut cur = String::new();
    let mut i: usize = 0;
    while i < cs.len()
        invariant
            cs@ == raw@,
            i <= cs@.len(),
            chars@.map_values(|s: String| s@) + seq![cur@] == seq!["blank"@] + split_lines(
                cs@.take(i as int),
            ),
        decreases cs@.len() - i,
    {
        let ghost before = cs@.take(i as int);
        let ghost p = split_lines(before);
        let ghost old_views = chars@.map_values(|s: String| s@);
        let ghost old_cur = cur@;
        proof {
            assert(cs@.take(i + 1).drop_last() =~= before);
            assert(cs@.take(i + 1).last() == cs@[i as int]);
            lemma_split_lines_nonempty(before);
            assert(old_views + seq![old_cur] == seq!["blank"@] + p);
            assert((old_views + seq![old_cur]).len() == (seq!["blank"@] + p).len());
            assert(old_views.len() == p.len());
            assert((old_views + seq![old_cur])[old_views.len() as int] == old_cur);
            assert((seq!["blank"@] + p)[old_views.len() as int] == p.last());
            assert(p.last() == old_cur);
            assert forall|j: int| 0 <= j < old_views.len() implies old_views[j] == (seq!["blank"@]
                + p)[j] by {
                assert((old_views + seq![old_cur])[j] == old_views[j]);
            }
        }
        if cs[i] == '\n' {
            let done = cur;
            chars.push(done);
            cur = String::new();
            proof {
                assert(chars@.map_values(|s: String| s@) =~= old_views.push(old_cur));
                assert(split_lines(cs@.take(i + 1)) == p.push(seq![]));
                assert(chars@.map_values(|s: String| s@) + seq![cur@] =~= seq!["blank"@]
                    + split_lines(cs@.take(i + 1)));
            }
        } else {
            push_char(&mut cur, cs[i]);
            proof {
                assert(chars@.map_values(|s: String| s@) =~= old_views);
                assert(split_lines(cs@.take(i + 1)) == p.update(p.len() - 1, old_cur.push(cs@[i as int])));
                assert(chars@.map_values(|s: String| s@) + seq![cur@] =~= seq!["blank"@]
                    + split_lines(cs@.take(i + 1)));
            }
        }
        i = i + 1;
    }
    proof {
        assert(cs@.take(cs@.len() as int) =~= cs@);
        lemma_split_lines_nonempty(cs@);
    }
    let ghost p = split_lines(raw@);
    let ghost views = chars@.map_values(|s: String| s@);
    proof {
        assert(views + seq![cur@] == seq!["blank"@] + p);
        assert((views + seq![cur@]).len() == (seq!["blank"@] + p).len());
        assert(views.len() == p.len());
        assert((views + seq![cur@])[views.len() as int] == cur@);
        assert((seq!["blank"@] + p)[views.len() as int] == p.last());
        assert forall|j: int| 0 <= j < views.len() implies views[j] == (seq!["blank"@] + p)[j] by {
            assert((views + seq![cur@])[j] == views[j]);
        }
    }
    if cur.as_str().unicode_len() > 0 {
        chars.push(cur);
        proof {
            assert(chars@.map_values(|s: String| s@) =~= seq!["blank"@] + p);
        }
    } else {
        proof {
            assert(chars@.map_values(|s: String| s@) =~= seq!["blank"@] + p.drop_last());
        }
    }
    let ghost mid = chars@.map_values(|s: String| s@);
    chars.push(String::from_str(" "));
    proof {
        assert(chars@.map_values(|s: String| s@) =~= mid.push(" "@));
        assert(chars@.map_values(|s: String| s@) =~= alphabet_spec(raw@));
    }
    chars
}

/// Every kept step is a real step whose class is not the blank, has an
/// alphabet entry and differs from the step before it; the kept steps
/// ascend.
pub proof fn lemma_kept_steps_shape(best: Seq<usize>, alphabet_len: int, n: int)
    requires
        0 <= n <= best.len(),
        best.len() <= usize::MAX,
    ensures
        forall|i: int|
            0 <= i < kept_steps(best, alphabet_len, n).len() ==> {
                let t = #[trigger] kept_steps(best, alphabet_len, n)[i] as int;
                &&& 0 <= t < n
                &&& best[t] != 0
                &&& (best[t] as int) < alphabet_len
                &&& (t > 0 ==> best[t] != best[t - 1])
            },
        forall|i: int, j: int|
            0 <= i < j < kept_steps(best, alphabet_len, n).len() ==> kept_steps(best, alphabet_len, n)[i]
                < kept_steps(best, alphabet_len, n)[j],
    decreases n,
{
    if n > 0 {
        lemma_kept_steps_shape(best, alphabet_len, n - 1);
        let prev = kept_steps(best, alphabet_len, n - 1);
        let cur = kept_steps(best, alphabet_len, n);
        if kept_step(best, alphabet_len, n - 1) {
            assert(cur == prev.push((n - 1) as usize));
            assert forall|i: int|
                0 <= i < cur.len() implies {
                let t = #[trigger] cur[i] as int;
                &&& 0 <= t < n
                &&& best[t] != 0
                &&& (best[t] as int) < alphabet_len
                &&& (t > 0 ==> best[t] != best[t - 1])
            } by {
                if i < prev.len() {
                    assert(cur[i] == prev[i]);
                } else {
                    assert(cur[i] as int == n - 1);
                }
            }
            assert forall|i: int, j: int| 0 <= i < j < cur.len() implies cur[i] < cur[j] by {
                assert(cur[i] == prev[i]);
                assert(prev[i] < n - 1);
                if j < prev.len() {
                    assert(cur[j] == prev[j]);
                }
            }
        } else {
            assert(cur == prev);
        }
    }
}


/// A step is kept exactly when its class is not the blank, has an alphabet
/// entry, and differs from the class of the step before it (the first step
/// has none before it): no such step is skipped and no other is kept.
pub proof fn lemma_kept_steps_complete(best: Seq<usize>, alphabet_len: int, n: int, t: int)
    requires
        0 <= t < n <= best.len(),
        best.len() <= usize::MAX,
        alphabet_len <= usize::MAX,
    ensures
        kept_steps(best, alphabet_len, n).contains(t as usize) <==> (best[t] != 0 && (best[t] as int)
            < alphabet_len && (t == 0 || best[t] != best[t - 1])),
    decreases n,
{
    let cur = kept_steps(best, alphabet_len, n);
    let prev = kept_steps(best, alphabet_len, n - 1);
    lemma_kept_steps_bound(best, alphabet_len, n - 1);
    if t < n - 1 {
        lemma_kept_steps_complete(best, alphabet_len, n - 1, t);
        if kept_step(best, alphabet_len, n - 1) {
            assert(cur == prev.push((n - 1) as usize));
            if cur.contains(t as usize) {
                let i = choose|i: int| 0 <= i < cur.len() && cur[i] == t as usize;
                if i < prev.len() {
                    assert(prev[i] == t as usize);
                }
            }
            if prev.contains(t as usize) {
                let i = choose|i: int| 0 <= i < prev.len() && prev[i] == t as usize;
                assert(cur[i] == t as usize);
            }
        }
    } else {
        if kept_step(best, alphabet_len, n - 1) {
            assert(cur == prev.push((n - 1) as usize));
            assert(cur[prev.len() as int] == t as usize);
        } else {
            if cur.contains(t as usize) {
                let i = choose|i: int| 0 <= i < cur.len() && cur[i] == t as usize;
                assert(prev[i] < n - 1);
            }
        }
    }
}

proof fn lemma_kept_steps_bound(best: Seq<usize>, alphabet_len: int, n: int)
    requires
        n <= usize::MAX + 1,
    ensures
        forall|i: int| 0 <= i < kept_steps(best, alphabet_len, n).len() ==> #[trigger] kept_steps(best, alphabet_len, n)[i] < n,
    decreases n,
{
    if n > 0 {
        lemma_kept_steps_bound(best, alphabet_len, n - 1);
        let prev = kept_steps(best, alphabet_len, n - 1);
        if kept_step(best, alphabet_len, n - 1) {
            assert(kept_steps(best, alphabet_len, n) == prev.push((n - 1) as usize));
            assert forall|i: int| 0 <= i < prev.len() + 1 implies #[trigger] prev.push((n - 1) as usize)[i] < n by {
                if i < prev.len() {
                    assert(prev.push((n - 1) as usize)[i] == prev[i]);
                }
            }
        }
    }
}

/// The decoded text is the alphabet entries of the kept steps' classes,
/// laid end to end in step order, whatever each entry holds (the space
/// entry included): nothing else is added and no entry is dropped.
pub proof fn lemma_decoded_text_is_kept_entries(best: Seq<usize>, alphabet: Seq<Seq<char>>, n: int)
    requires
        0 <= n <= best.len(),
        best.len() <= usize::MAX,
    ensures
        decoded_text(best, alphabet, n) == kept_steps(best, alphabet.len() as int, n).map_values(
            |t: usize| alphabet[best[t as int] as int],
        ).flatten_alt(),
    decreases n,
{
    let f = |t: usize| alphabet[best[t as int] as int];
    if n > 0 {
        lemma_decoded_text_is_kept_entries(best, alphabet, n - 1);
        let prev = kept_steps(best, alphabet.len() as int, n - 1);
        let cur = kept_steps(best, alphabet.len() as int, n);
        if kept_step(best, alphabet.len() as int, n - 1) {
            assert(cur == prev.push((n - 1) as usize));
            let m = cur.map_values(f);
            assert(m.drop_last() =~= prev.map_values(f));
            assert(cur[cur.len() - 1] == (n - 1) as usize);
            assert(((n - 1) as usize) as int == n - 1);
            assert(m[m.len() - 1] == f(cur[cur.len() - 1]));
            assert(m.last() == alphabet[best[n - 1] as int]);
        }
    } else {
        assert(kept_steps(best, alphabet.len() as int, n).map_values(f) =~= Seq::<Seq<char>>::empty());
    }
}


/// Lines joined back with a line feed between each two.
pub open spec fn joined_with_newlines(p: Seq<Seq<char>>) -> Seq<char>
    decreases p.len(),
{
    if p.len() == 0 {
        seq![]
    } else if p.len() == 1 {
        p[0]
    } else {
        joined_with_newlines(p.drop_last()) + seq!['\n'] + p.last()
    }
}

proof fn lemma_join_extend_last(p: Seq<Seq<char>>, c: char)
    requires
        p.len() > 0,
    ensures
        joined_with_newlines(p.update(p.len() - 1, p.last().push(c))) == joined_with_newlines(p).push(c),
{
    let q = p.update(p.len() - 1, p.last().push(c));
    if p.len() == 1 {
        assert(q[0] == p[0].push(c));
    } else {
        assert(q.drop_last() =~= p.drop_last());
        assert(q.last() == p.last().push(c));
        assert(joined_with_newlines(q) =~= joined_with_newlines(p).push(c));
    }
}

/// The pieces hold no line feed, and joined back with line feeds they give
/// the text again.
pub proof fn lemma_split_lines_round_trip(s: Seq<char>)
    ensures
        joined_with_newlines(split_lines(s)) == s,
        forall|i: int| 0 <= i < split_lines(s).len() ==> !(#[trigger] split_lines(s)[i]).contains('\n'),
    decreases s.len(),
{
    if s.len() > 0 {
        let p = split_lines(s.drop_last());
        lemma_split_lines_round_trip(s.drop_last());
        lemma_split_lines_nonempty(s.drop_last());
        if s.last() == '\n' {
            let q = p.push(seq![]);
            assert(q.drop_last() =~= p);
            assert(joined_with_newlines(q) =~= s);
            assert forall|i: int| 0 <= i < q.len() implies !(#[trigger] q[i]).contains('\n') by {
                if i < p.len() {
                    assert(q[i] == p[i]);
                }
            }
        } else {
            lemma_join_extend_last(p, s.last());
            assert(s =~= s.drop_last().push(s.last()));
            let q = p.update(p.len() - 1, p.last().push(s.last()));
            assert forall|i: int| 0 <= i < q.len() implies !(#[trigger] q[i]).contains('\n') by {
                if i < p.len() - 1 {
                    assert(q[i] == p[i]);
                } else {
                    let e = p.last().push(s.last());
                    assert(!p[p.len() - 1].contains('\n'));
                    if e.contains('\n') {
                        let j = choose|j: int| 0 <= j < e.len() && e[j] == '\n';
                        assert(p.last()[j] == '\n');
                    }
                }
            }
        }
    }
}

/// The alphabet starts with the blank and ends with the space; the entries
/// between hold no line feed and, joined back with line feeds (and the
/// metadata's final line feed, if it has one), give the metadata again.
pub proof fn lemma_alphabet_layout(raw: Seq<char>)
    ensures
        alphabet_spec(raw).len() >= 2,
        alphabet_spec(raw)[0] == "blank"@,
        alphabet_spec(raw).last() == " "@,
        forall|i: int|
            1 <= i < alphabet_spec(raw).len() - 1 ==> !(#[trigger] alphabet_spec(raw)[i]).contains('\n'),
        joined_with_newlines(alphabet_spec(raw).subrange(1, alphabet_spec(raw).len() - 1)) + (if raw.len()
            > 0 && raw.last() == '\n' {
            seq!['\n']
        } else {
            seq![]
        }) == raw,
{
    let a = alphabet_spec(raw);
    let pieces = split_lines(raw);
    lemma_split_lines_round_trip(raw);
    lemma_split_lines_nonempty(raw);
    let entries = if pieces.last().len() == 0 {
        pieces.drop_last()
    } else {
        pieces
    };
    assert(a.subrange(1, a.len() - 1) =~= entries);
    assert forall|i: int| 1 <= i < a.len() - 1 implies !(#[trigger] a[i]).contains('\n') by {
        assert(a[i] == entries[i - 1]);
        assert(entries[i - 1] == pieces[i - 1]);
    }
    if raw.len() > 0 {
        lemma_split_lines_round_trip(raw.drop_last());
        lemma_split_lines_nonempty(raw.drop_last());
    }
    if pieces.last().len() == 0 {
        if raw.len() == 0 {
            assert(entries =~= Seq::<Seq<char>>::empty());
        } else if raw.last() == '\n' {
            let p = split_lines(raw.drop_last());
            assert(pieces == p.push(seq![]));
            assert(entries =~= p);
            assert(raw =~= raw.drop_last() + seq!['\n']);
        } else {
            let p = split_lines(raw.drop_last());
            assert(pieces.last() == p.last().push(raw.last()));
        }
    } else {
        if raw.len() > 0 && raw.last() == '\n' {
            let p = split_lines(raw.drop_last());
            assert(pieces == p.push(seq![]));
        }
        assert(joined_with_newlines(entries) + seq![] =~= raw);
    }
}

} // verus!
