//! Which form XObjects a page reaches. Text can hide in forms as well as in
//! the page's own content, and forms can draw further forms through their
//! own resources; every form reachable from the page is visited exactly
//! once, whatever cycles or shared references the document holds.

use vstd::prelude::*;

verus! {

/// A PDF object id: object number and generation.
pub type Oid = (u32, u16);

/// One form XObject of a document: its id, and the XObject entries its own
/// resources name (`None` for an entry stored inline rather than by
/// reference).
pub type FormEntry = (Oid, Vec<Option<Oid>>);

/// No id is listed twice.
pub open spec fn ids_distinct(forms: Seq<FormEntry>) -> bool {
    forall|i: int, j: int| 0 <= i < j < forms.len() ==> #[trigger] forms[i].0 != #[trigger] forms[j].0
}

/// `id` is one of the listed forms.
pub open spec fn is_form(forms: Seq<FormEntry>, id: Oid) -> bool {
    exists|k: int| 0 <= k < forms.len() && #[trigger] forms[k].0 == id
}

/// The form `id` names `n` among its own XObjects.
pub open spec fn names_nested(forms: Seq<FormEntry>, id: Oid, n: Oid) -> bool {
    exists|k: int| 0 <= k < forms.len() && #[trigger] forms[k].0 == id && forms[k].1@.contains(Some(n))
}

/// A chain of references: the page names the first, and each form in the
/// chain names the next.
pub open spec fn ref_path(entries: Seq<Option<Oid>>, forms: Seq<FormEntry>, p: Seq<Oid>) -> bool {
    &&& p.len() >= 1
    &&& entries.contains(Some(p[0]))
    &&& forall|i: int| 0 <= i < p.len() - 1 ==> names_nested(forms, #[trigger] p[i], p[i + 1])
}

/// The page reaches `id` through some chain of references.
pub open spec fn reachable(entries: Seq<Option<Oid>>, forms: Seq<FormEntry>, id: Oid) -> bool {
    exists|p: Seq<Oid>| #[trigger] ref_path(entries, forms, p) && p.last() == id
}

/// No id occurs twice.
pub open spec fn no_repeats(s: Seq<Oid>) -> bool {
    forall|i: int, j: int| 0 <= i < j < s.len() ==> #[trigger] s[i] != #[trigger] s[j]
}

/// How many listed forms are not among `visited`.
spec fn unvisited(forms: Seq<FormEntry>, visited: Seq<Oid>) -> nat
    decreases forms.len(),
{
    if forms.len() == 0 {
        0
    } else {
        unvisited(forms.drop_last(), visited) + if visited.contains(forms.last().0) {
            0nat
        } else {
            1nat
        }
    }
}

proof fn lemma_unvisited_push(forms: Seq<FormEntry>, visited: Seq<Oid>, x: Oid)
    requires
        ids_distinct(forms),
        !visited.contains(x),
    ensures
        is_form(forms, x) ==> unvisited(forms, visited.push(x)) + 1 == unvisited(forms, visited),
        !is_form(forms, x) ==> unvisited(forms, visited.push(x)) == unvisited(forms, visited),
    decreases forms.len(),
{
    if forms.len() > 0 {
        let init = forms.drop_last();
        assert(ids_distinct(init)) by {
            assert forall|i: int, j: int| 0 <= i < j < init.len() implies #[trigger] init[i].0
                != #[trigger] init[j].0 by {
                assert(forms[i].0 != forms[j].0);
            }
        }
        lemma_unvisited_push(init, visited, x);
        let last = forms.last().0;
        assert(visited.push(x).contains(last) <==> (visited.contains(last) || last == x)) by {
            if visited.push(x).contains(last) {
                let t = choose|t: int| 0 <= t < visited.len() + 1 && visited.push(x)[t] == last;
                if t < visited.len() {
                    assert(visited[t] == last);
                }
            }
            if visited.contains(last) {
                let t = choose|t: int| 0 <= t < visited.len() && visited[t] == last;
                assert(visited.push(x)[t] == last);
            }
            if last == x {
                assert(visited.push(x)[visited.len() as int] == last);
            }
        }
        if is_form(forms, x) {
            let k = choose|k: int| 0 <= k < forms.len() && #[trigger] forms[k].0 == x;
            if k < forms.len() - 1 {
                assert(init[k].0 == x);
                assert(is_form(init, x));
                assert(forms[k].0 != forms[forms.len() - 1].0);
            } else {
                if is_form(init, x) {
                    let k2 = choose|k2: int| 0 <= k2 < init.len() && #[trigger] init[k2].0 == x;
                    assert(forms[k2].0 == x);
                }
            }
        } else {
            assert forall|k: int| 0 <= k < init.len() implies #[trigger] init[k].0 != x by {
                assert(forms[k].0 == init[k].0);
            }
            assert(forms[forms.len() - 1].0 != x);
        }
    }
}

proof fn lemma_reach_entry(entries: Seq<Option<Oid>>, forms: Seq<FormEntry>, x: Oid)
    requires
        entries.contains(Some(x)),
    ensures
        reachable(entries, forms, x),
{
    let p = seq![x];
    assert(ref_path(entries, forms, p));
}

proof fn lemma_reach_nested(entries: Seq<Option<Oid>>, forms: Seq<FormEntry>, id: Oid, n: Oid)
    requires
        reachable(entries, forms, id),
        names_nested(forms, id, n),
    ensures
        reachable(entries, forms, n),
{
    let p = choose|p: Seq<Oid>| #[trigger] ref_path(entries, forms, p) && p.last() == id;
    let q = p.push(n);
    assert forall|i: int| 0 <= i < q.len() - 1 implies names_nested(forms, #[trigger] q[i], q[i + 1]) by {
        if i < p.len() - 1 {
            assert(names_nested(forms, p[i], p[i + 1]));
        }
    }
    assert(ref_path(entries, forms, q));
}

/// Along a chain of references, every id was visited, once the visited set
/// holds the page's entries and is closed under what visited forms name.
proof fn lemma_path_visited(
    entries: Seq<Option<Oid>>,
    forms: Seq<FormEntry>,
    visited: Seq<Oid>,
    p: Seq<Oid>,
    i: int,
)
    requires
        ref_path(entries, forms, p),
        0 <= i < p.len(),
        forall|x: Oid| entries.contains(Some(x)) ==> visited.contains(x),
        forall|v: Oid, n: Oid| #[trigger]
            visited.contains(v) && #[trigger] names_nested(forms, v, n) ==> visited.contains(n),
    ensures
        visited.contains(p[i]),
    decreases i,
{
    if i > 0 {
        lemma_path_visited(entries, forms, visited, p, i - 1);
        assert(names_nested(forms, p[i - 1], p[i]));
    }
}

fn contains_oid(v: &Vec<Oid>, id: Oid) -> (r: bool)
    ensures
        r == v@.contains(id),
{
    let mut i: usize = 0;
    while i < v.len()
        invariant
            i <= v@.len(),
            forall|t: int| 0 <= t < i ==> v@[t] != id,
        decreases v@.len() - i,
    {
        let x = v[i];
        if x.0 == id.0 && x.1 == id.1 {
            assert(v@[i as int] == id);
            return true;
        }
        i = i + 1;
    }
    false
}

fn find_form(forms: &Vec<FormEntry>, id: Oid) -> (r: Option<usize>)
    ensures
        match r {
            Some(k) => k < forms@.len() && forms@[k as int].0 == id,
            None => !is_form(forms@, id),
        },
{
    let mut i: usize = 0;
    while i < forms.len()
        invariant
            i <= forms@.len(),
            forall|t: int| 0 <= t < i ==> #[trigger] forms@[t].0 != id,
        decreases forms@.len() - i,
    {
        let x = forms[i].0;
        if x.0 == id.0 && x.1 == id.1 {
            return Some(i);
        }
        i = i + 1;
    }
    None
}

/// The forms to strip, in the order a depth-first walk from the page's
/// XObject entries meets them: every listed form that the page reaches
/// through references, each once; entries stored inline, ids that are no
/// listed form, and repeated references are passed over.
pub fn forms_to_strip(entries: &Vec<Option<Oid>>, forms: &Vec<FormEntry>) -> (out: Vec<Oid>)
    requires
        ids_distinct(forms@),
    ensures
        no_repeats(out@),
        forall|t: int|
            0 <= t < out@.len() ==> is_form(forms@, #[trigger] out@[t]) && reachable(
                entries@,
                forms@,
                out@[t],
            ),
        forall|id: Oid| is_form(forms@, id) && reachable(entries@, forms@, id) ==> out@.contains(id),
{
    let mut stack: Vec<Oid> = Vec::new();
    let mut i: usize = entries.len();
    while i > 0
        invariant
            i <= entries@.len(),
            forall|t: int| 0 <= t < stack@.len() ==> entries@.contains(Some(#[trigger] stack@[t])),
            forall|a: int|
                i <= a < entries@.len() && #[trigger] entries@[a] is Some ==> stack@.contains(
                    entries@[a]->0,
                ),
        decreases i,
    {
        i = i - 1;
        let ghost s0 = stack@;
        match entries[i] {
            Some(x) => {
                stack.push(x);
                proof {
                    assert(entries@[i as int] == Some(x));
                    assert(stack@[stack@.len() - 1] == x);
                    assert forall|a: int|
                        i <= a < entries@.len() && #[trigger] entries@[a] is Some implies stack@.contains(
                        entries@[a]->0,
                    ) by {
                        if a > i {
                            let y = entries@[a]->0;
                            assert(s0.contains(y));
                            let t = choose|t: int| 0 <= t < s0.len() && s0[t] == y;
                            assert(stack@[t] == y);
                        }
                    }
                }
            },
            None => {
                proof {
                    assert forall|a: int|
                        i <= a < entries@.len() && #[trigger] entries@[a] is Some implies stack@.contains(
                        entries@[a]->0,
                    ) by {
                        assert(a != i);
                    }
                }
            },
        }
    }
    proof {
        assert forall|x: Oid| entries@.contains(Some(x)) implies stack@.contains(x) by {
            let a = choose|a: int| 0 <= a < entries@.len() && entries@[a] == Some(x);
            assert(entries@[a] is Some);
        }
        assert forall|t: int| 0 <= t < stack@.len() implies reachable(
            entries@,
            forms@,
            #[trigger] stack@[t],
        ) by {
            lemma_reach_entry(entries@, forms@, stack@[t]);
        }
    }
    let mut visited: Vec<Oid> = Vec::new();
    let mut out: Vec<Oid> = Vec::new();
    while stack.len() > 0
        invariant
            ids_distinct(forms@),
            no_repeats(visited@),
            no_repeats(out@),
            forall|x: Oid| out@.contains(x) <==> visited@.contains(x) && is_form(forms@, x),
            forall|t: int| 0 <= t < stack@.len() ==> reachable(entries@, forms@, #[trigger] stack@[t]),
            forall|t: int| 0 <= t < visited@.len() ==> reachable(entries@, forms@, #[trigger] visited@[t]),
            forall|x: Oid| entries@.contains(Some(x)) ==> visited@.contains(x) || stack@.contains(x),
            forall|v: Oid, n: Oid| #[trigger]
                visited@.contains(v) && #[trigger] names_nested(forms@, v, n) ==> visited@.contains(n)
                    || stack@.contains(n),
        decreases unvisited(forms@, visited@), stack@.len(),
    {
        let ghost st0 = stack@;
        let ghost vis0 = visited@;
        let ghost out0 = out@;
        let id = match stack.pop() {
            Some(x) => x,
            None => {
                return out;
            },
        };
        proof {
            assert(st0[st0.len() - 1] == id);
            assert(stack@ == st0.drop_last());
            assert forall|x: Oid| st0.contains(x) implies stack@.contains(x) || x == id by {
                let t = choose|t: int| 0 <= t < st0.len() && st0[t] == x;
                if t < st0.len() - 1 {
                    assert(stack@[t] == x);
                }
            }
            assert(reachable(entries@, forms@, id));
        }
        if contains_oid(&visited, id) {
            proof {
                assert forall|x: Oid| entries@.contains(Some(x)) implies visited@.contains(x)
                    || stack@.contains(x) by {
                    if !visited@.contains(x) {
                        assert(st0.contains(x));
                    }
                }
                assert forall|v: Oid, n: Oid| #[trigger]
                    visited@.contains(v) && #[trigger] names_nested(forms@, v, n) implies visited@.contains(
                    n,
                ) || stack@.contains(n) by {
                    if !visited@.contains(n) {
                        assert(st0.contains(n));
                    }
                }
            }
        } else {
            visited.push(id);
            proof {
                lemma_unvisited_push(forms@, vis0, id);
                assert(visited@[visited@.len() - 1] == id);
                assert forall|x: Oid| vis0.contains(x) implies visited@.contains(x) by {
                    let t = choose|t: int| 0 <= t < vis0.len() && vis0[t] == x;
                    assert(visited@[t] == x);
                }
                assert forall|x: Oid| visited@.contains(x) implies vis0.contains(x) || x == id by {
                    let t = choose|t: int| 0 <= t < visited@.len() && visited@[t] == x;
                    if t < vis0.len() {
                        assert(vis0[t] == x);
                    }
                }
            }
            match find_form(forms, id) {
                Some(k) => {
                    out.push(id);
                    let ghost st1 = stack@;
                    let nested = &forms[k].1;
                    let mut j: usize = nested.len();
                    while j > 0
                        invariant
                            j <= nested@.len(),
                            nested@ == forms@[k as int].1@,
                            forms@[k as int].0 == id,
                            k < forms@.len(),
                            stack@.len() >= st1.len(),
                            forall|t: int| 0 <= t < st1.len() ==> #[trigger] stack@[t] == st1[t],
                            forall|t: int|
                                st1.len() <= t < stack@.len() ==> nested@.contains(
                                    Some(#[trigger] stack@[t]),
                                ),
                            forall|a: int|
                                j <= a < nested@.len() && #[trigger] nested@[a] is Some
                                    ==> stack@.contains(nested@[a]->0),
                        decreases j,
                    {
                        j = j - 1;
                        let ghost s2 = stack@;
                        match nested[j] {
                            Some(n) => {
                                stack.push(n);
                                proof {
                                    assert(nested@[j as int] == Some(n));
                                    assert(stack@[stack@.len() - 1] == n);
                                    assert forall|a: int|
                                        j <= a < nested@.len() && #[trigger] nested@[a] is Some implies stack@.contains(
                                        nested@[a]->0,
                                    ) by {
                                        if a > j {
                                            let y = nested@[a]->0;
                                            assert(s2.contains(y));
                                            let t = choose|t: int|
                                                0 <= t < s2.len() && s2[t] == y;
                                            assert(stack@[t] == y);
                                        }
                                    }
                                }
                            },
                            None => {
                                proof {
                                    assert forall|a: int|
                                        j <= a < nested@.len() && #[trigger] nested@[a] is Some implies stack@.contains(
                                        nested@[a]->0,
                                    ) by {
                                        assert(a != j);
                                    }
                                }
                            },
                        }
                    }
                    proof {
                        assert(is_form(forms@, id));
                        assert(out@[out@.len() - 1] == id);
                        assert forall|x: Oid| out@.contains(x) <==> visited@.contains(x) && is_form(
                            forms@,
                            x,
                        ) by {
                            if out@.contains(x) {
                                let t = choose|t: int| 0 <= t < out@.len() && out@[t] == x;
                                if t < out0.len() {
                                    assert(out0.contains(x));
                                }
                            }
                            if visited@.contains(x) && is_form(forms@, x) {
                                if x != id {
                                    assert(out0.contains(x));
                                    let t = choose|t: int| 0 <= t < out0.len() && out0[t] == x;
                                    assert(out@[t] == x);
                                }
                            }
                        }
                        assert(!out0.contains(id));
                        assert forall|a: int, b: int| 0 <= a < b < out@.len() implies #[trigger] out@[a]
                            != #[trigger] out@[b] by {
                            if b == out@.len() - 1 {
                                assert(out0.contains(out0[a]));
                            }
                        }
                        assert forall|t: int| 0 <= t < stack@.len() implies reachable(
                            entries@,
                            forms@,
                            #[trigger] stack@[t],
                        ) by {
                            if t < st1.len() {
                                assert(stack@[t] == st1[t]);
                            } else {
                                let n = stack@[t];
                                assert(names_nested(forms@, id, n));
                                lemma_reach_nested(entries@, forms@, id, n);
                            }
                        }
                        assert forall|x: Oid| st1.contains(x) implies stack@.contains(x) by {
                            let t = choose|t: int| 0 <= t < st1.len() && st1[t] == x;
                            assert(stack@[t] == x);
                        }
                        assert forall|x: Oid| entries@.contains(Some(x)) implies visited@.contains(x)
                            || stack@.contains(x) by {
                            if !vis0.contains(x) && x != id {
                                assert(st0.contains(x));
                                assert(st1.contains(x));
                            }
                        }
                        assert forall|v: Oid, n: Oid| #[trigger]
                            visited@.contains(v) && #[trigger] names_nested(forms@, v, n) implies visited@.contains(
                            n,
                        ) || stack@.contains(n) by {
                            if v == id {
                                let k2 = choose|k2: int|
                                    0 <= k2 < forms@.len() && #[trigger] forms@[k2].0 == v
                                        && forms@[k2].1@.contains(Some(n));
                                if k2 != k {
                                    assert(forms@[k2].0 != forms@[k as int].0);
                                }
                                let a = choose|a: int| 0 <= a < nested@.len() && nested@[a] == Some(n);
                                assert(nested@[a] is Some);
                            } else if !visited@.contains(n) {
                                assert(vis0.contains(v));
                                assert(st0.contains(n));
                                assert(st1.contains(n));
                            }
                        }
                    }
                },
                None => {
                    proof {
                        assert forall|x: Oid| out@.contains(x) <==> visited@.contains(x) && is_form(
                            forms@,
                            x,
                        ) by {
                            if visited@.contains(x) && is_form(forms@, x) {
                                assert(x != id);
                            }
                        }
                        assert forall|x: Oid| entries@.contains(Some(x)) implies visited@.contains(x)
                            || stack@.contains(x) by {
                            if !vis0.contains(x) && x != id {
                                assert(st0.contains(x));
                            }
                        }
                        assert forall|v: Oid, n: Oid| #[trigger]
                            visited@.contains(v) && #[trigger] names_nested(forms@, v, n) implies visited@.contains(
                            n,
                        ) || stack@.contains(n) by {
                            if v == id {
                                let k2 = choose|k2: int|
                                    0 <= k2 < forms@.len() && #[trigger] forms@[k2].0 == v
                                        && forms@[k2].1@.contains(Some(n));
                                assert(is_form(forms@, id));
                            } else if !visited@.contains(n) {
                                assert(vis0.contains(v));
                                assert(st0.contains(n));
                            }
                        }
                    }
                },
            }
            proof {
                assert forall|a: int, b: int| 0 <= a < b < visited@.len() implies #[trigger] visited@[a]
                    != #[trigger] visited@[b] by {
                    if b == visited@.len() - 1 {
                        assert(vis0.contains(vis0[a]));
                    }
                }
                assert forall|t: int| 0 <= t < visited@.len() implies reachable(
                    entries@,
                    forms@,
                    #[trigger] visited@[t],
                ) by {
                    if t < vis0.len() {
                        assert(visited@[t] == vis0[t]);
                    }
                }
            }
        }
    }
    proof {
        assert forall|x: Oid| entries@.contains(Some(x)) implies visited@.contains(x) by {
            if stack@.contains(x) {
                let t = choose|t: int| 0 <= t < stack@.len() && stack@[t] == x;
            }
        }
        assert forall|v: Oid, n: Oid| #[trigger]
            visited@.contains(v) && #[trigger] names_nested(forms@, v, n) implies visited@.contains(n) by {
            if stack@.contains(n) {
                let t = choose|t: int| 0 <= t < stack@.len() && stack@[t] == n;
            }
        }
        assert forall|id: Oid| is_form(forms@, id) && reachable(entries@, forms@, id) implies out@.contains(
            id,
        ) by {
            let p = choose|p: Seq<Oid>| #[trigger] ref_path(entries@, forms@, p) && p.last() == id;
            lemma_path_visited(entries@, forms@, visited@, p, p.len() - 1);
        }
        assert forall|t: int| 0 <= t < out@.len() implies is_form(forms@, #[trigger] out@[t])
            && reachable(entries@, forms@, out@[t]) by {
            assert(out@.contains(out@[t]));
            let u = choose|u: int| 0 <= u < visited@.len() && visited@[u] == out@[t];
            assert(reachable(entries@, forms@, visited@[u]));
        }
    }
    out
}

} // verus!
