//! The order in which plugin scripts are loaded.
//!
//! Every plugin and every name that a plugin requires is a node; a plugin
//! waits for each name it requires. Nodes are taken one at a time, always the
//! least name (see [`chars_le`]) among those whose requirements have all been
//! taken. A required name that no plugin has is taken like any other node, but
//! only plugins are loaded. Plugins that are never taken (they sit on, or wait
//! for, a circular requirement) are loaded last, in name order.

use vstd::prelude::*;
use crate::text::{chars_le, chars_lt, chars_le_exec, chars_eq, string_of, chars_of};
use crate::text::{lemma_chars_le_total, lemma_chars_le_transitive, lemma_chars_le_reflexive};
use crate::requirements::{char_vec_views, string_views, requirements_of, requirement_chars};

verus! {

/// A plugin script as the loader finds it: its file name and, where the file
/// could be read, its text.
pub struct PluginSource {
    pub name: String,
    pub content: Option<String>,
}

/// The names a plugin requires (none where its text could not be read).
pub open spec fn source_requirements(p: PluginSource) -> Seq<Seq<char>> {
    match p.content {
        Some(c) => requirements_of(c@),
        None => seq![],
    }
}

/// The plugin names of `sources`.
pub open spec fn source_names(sources: Seq<PluginSource>) -> Seq<Seq<char>> {
    sources.map_values(|p: PluginSource| p.name@)
}

/// The requirements of each of `sources`.
pub open spec fn source_requirement_lists(sources: Seq<PluginSource>) -> Seq<Seq<Seq<char>>> {
    sources.map_values(|p: PluginSource| source_requirements(p))
}

/// The views of a sequence of requirement lists.
pub open spec fn list_views(v: Seq<Vec<Vec<char>>>) -> Seq<Seq<Seq<char>>> {
    v.map_values(|x: Vec<Vec<char>>| char_vec_views(x@))
}

/// No name occurs twice in `s`.
pub open spec fn distinct(s: Seq<Seq<char>>) -> bool {
    forall|i: int, j: int| 0 <= i < j < s.len() ==> s[i] != s[j]
}

/// `n` is a plugin or a name that some plugin requires.
pub open spec fn is_node(files: Seq<Seq<char>>, reqs: Seq<Seq<Seq<char>>>, n: Seq<char>) -> bool {
    files.contains(n) || exists|i: int| 0 <= i < reqs.len() && #[trigger] reqs[i].contains(n)
}

/// `n` has not been taken yet and everything that any plugin named `n`
/// requires has been taken.
pub open spec fn ready(
    files: Seq<Seq<char>>,
    reqs: Seq<Seq<Seq<char>>>,
    taken: Seq<Seq<char>>,
    n: Seq<char>,
) -> bool {
    &&& is_node(files, reqs, n)
    &&& !taken.contains(n)
    &&& forall|i: int, j: int|
        0 <= i < files.len() && i < reqs.len() && files[i] == n && 0 <= j < reqs[i].len()
            ==> taken.contains(#[trigger] reqs[i][j])
}

/// `r` is the sequence of nodes that the loader takes: each is ready when it
/// is taken and is the least of the nodes ready then, and once `r` is taken
/// no node is ready.
pub open spec fn resolves(files: Seq<Seq<char>>, reqs: Seq<Seq<Seq<char>>>, r: Seq<Seq<char>>) -> bool {
    &&& forall|k: int| 0 <= k < r.len() ==> ready(files, reqs, r.take(k), #[trigger] r[k])
    &&& forall|k: int, n: Seq<char>|
        #![trigger r[k], ready(files, reqs, r.take(k), n)]
        0 <= k < r.len() && ready(files, reqs, r.take(k), n) ==> chars_le(r[k], n)
    &&& forall|n: Seq<char>| !ready(files, reqs, r, n)
}

/// The plugins among the nodes `r`, in the order of `r`.
pub open spec fn plugins_in(files: Seq<Seq<char>>, r: Seq<Seq<char>>) -> Seq<Seq<char>>
    decreases r.len(),
{
    if r.len() == 0 {
        seq![]
    } else if files.contains(r.last()) {
        plugins_in(files, r.drop_last()).push(r.last())
    } else {
        plugins_in(files, r.drop_last())
    }
}

/// Every name in `s` is ordered strictly before the names after it.
pub open spec fn strictly_sorted(s: Seq<Seq<char>>) -> bool {
    forall|i: int, j: int| 0 <= i < j < s.len() ==> chars_lt(s[i], s[j])
}

/// `out` loads the plugins taken in `r`, in that order, and then every other
/// plugin in name order.
pub open spec fn load_order_from(files: Seq<Seq<char>>, r: Seq<Seq<char>>, out: Seq<Seq<char>>) -> bool {
    let head = plugins_in(files, r);
    &&& head.len() <= out.len()
    &&& out.take(head.len() as int) == head
    &&& strictly_sorted(out.skip(head.len() as int))
    &&& forall|n: Seq<char>|
        out.skip(head.len() as int).contains(n) <==> (files.contains(n) && !r.contains(n))
}

/// `out` is the load order of the plugins `files` whose requirements are `reqs`.
pub open spec fn is_load_order(files: Seq<Seq<char>>, reqs: Seq<Seq<Seq<char>>>, out: Seq<Seq<char>>) -> bool {
    exists|r: Seq<Seq<char>>| #[trigger] resolves(files, reqs, r) && load_order_from(files, r, out)
}

/// `out` is the load order of `files` with requirement lists `reqs`, and its
/// first `in_order` plugins are the ones loaded in dependency order.
pub open spec fn is_load_plan(
    files: Seq<Seq<char>>,
    reqs: Seq<Seq<Seq<char>>>,
    out: Seq<Seq<char>>,
    in_order: nat,
) -> bool {
    exists|r: Seq<Seq<char>>|
        #[trigger] resolves(files, reqs, r) && load_order_from(files, r, out) && plugins_in(files, r).len()
            == in_order
}

/// The order in which to load the plugins, and how many of them, from the
/// front, are loaded in dependency order; the rest sit on, or wait for,
/// circular requirements.
pub struct LoadPlan {
    pub order: Vec<String>,
    pub in_dependency_order: usize,
}

/// The position of `x` among `nodes`, if it is there.
fn find_node(nodes: &Vec<Vec<char>>, x: &Vec<char>) -> (r: Option<usize>)
    ensures
        match r {
            Some(k) => k < nodes.len() && nodes@[k as int]@ == x@,
            None => !char_vec_views(nodes@).contains(x@),
        },
{
    let mut k: usize = 0;
    while k < nodes.len()
        invariant
            k <= nodes.len(),
            forall|j: int| 0 <= j < k ==> nodes@[j]@ != x@,
        decreases nodes.len() - k,
    {
        if chars_eq(&nodes[k], x) {
            return Some(k);
        }
        k = k + 1;
    }
    proof {
        if char_vec_views(nodes@).contains(x@) {
            let j = choose|j: int| 0 <= j < char_vec_views(nodes@).len() && char_vec_views(nodes@)[j] == x@;
            assert(nodes@[j]@ == x@);
        }
    }
    None
}

/// Adds `x` to the distinct names `nodes` unless it is there already.
fn add_node(nodes: &mut Vec<Vec<char>>, x: &Vec<char>)
    requires
        distinct(char_vec_views(old(nodes)@)),
    ensures
        distinct(char_vec_views(final(nodes)@)),
        forall|n: Seq<char>|
            char_vec_views(final(nodes)@).contains(n) <==> (char_vec_views(old(nodes)@).contains(n)
                || n == x@),
{
    match find_node(nodes, x) {
        Some(k) => {
            assert(char_vec_views(nodes@)[k as int] == x@);
        },
        None => {
            let ghost before = char_vec_views(nodes@);
            let copy = x.clone();
            assert(copy@ == x@);
            nodes.push(copy);
            proof {
                assert(char_vec_views(nodes@) =~= before.push(x@));
                assert forall|n: Seq<char>|
                    char_vec_views(nodes@).contains(n) <==> (before.contains(n) || n == x@) by {
                    if before.contains(n) {
                        let j = choose|j: int| 0 <= j < before.len() && before[j] == n;
                        assert(char_vec_views(nodes@)[j] == n);
                    }
                    if n == x@ {
                        assert(char_vec_views(nodes@)[before.len() as int] == n);
                    }
                }
            }
        },
    }
}

/// Some of the first `i` requirement lists, or the first `j` names of list
/// `i`, hold `n`.
spec fn required_within(reqs: Seq<Seq<Seq<char>>>, i: int, j: int, n: Seq<char>) -> bool {
    (exists|a: int| 0 <= a < i && #[trigger] reqs[a].contains(n)) || (0 <= i < reqs.len()
        && reqs[i].take(j).contains(n))
}

/// The distinct nodes of the plugins `files` with requirement lists `reqs`.
fn collect_nodes(files: &Vec<Vec<char>>, reqs: &Vec<Vec<Vec<char>>>) -> (nodes: Vec<Vec<char>>)
    ensures
        distinct(char_vec_views(nodes@)),
        forall|n: Seq<char>|
            char_vec_views(nodes@).contains(n) <==> is_node(
                char_vec_views(files@),
                list_views(reqs@),
                n,
            ),
{
    let ghost fv = char_vec_views(files@);
    let ghost rv = list_views(reqs@);
    let mut nodes: Vec<Vec<char>> = Vec::new();
    let mut i: usize = 0;
    while i < files.len()
        invariant
            i <= files.len(),
            fv == char_vec_views(files@),
            distinct(char_vec_views(nodes@)),
            forall|n: Seq<char>| #[trigger] char_vec_views(nodes@).contains(n) <==> fv.take(i as int).contains(n),
        decreases files.len() - i,
    {
        add_node(&mut nodes, &files[i]);
        proof {
            assert(fv.take(i + 1) =~= fv.take(i as int).push(fv[i as int]));
            assert forall|n: Seq<char>| char_vec_views(nodes@).contains(n) <==> fv.take(i + 1).contains(n) by {
                if n == fv[i as int] {
                    assert(fv.take(i + 1)[i as int] == n);
                }
                let t = fv.take(i + 1);
                if t.contains(n) && n != fv[i as int] {
                    let k = choose|k: int| 0 <= k < t.len() && t[k] == n;
                    assert(fv.take(i as int)[k] == n);
                }
            }
        }
        i = i + 1;
    }
    assert(fv.take(files.len() as int) =~= fv);
    let mut a: usize = 0;
    while a < reqs.len()
        invariant
            a <= reqs.len(),
            fv == char_vec_views(files@),
            rv == list_views(reqs@),
            distinct(char_vec_views(nodes@)),
            forall|n: Seq<char>|
                #[trigger] char_vec_views(nodes@).contains(n) <==> (fv.contains(n) || required_within(rv, a as int, 0, n)),
        decreases reqs.len() - a,
    {
        let list = &reqs[a];
        let mut b: usize = 0;
        assert(rv[a as int] == char_vec_views(list@));
        while b < list.len()
            invariant
                a < reqs.len(),
                b <= list.len(),
                list == reqs@[a as int],
                fv == char_vec_views(files@),
                rv == list_views(reqs@),
                rv[a as int] == char_vec_views(list@),
                distinct(char_vec_views(nodes@)),
                forall|n: Seq<char>|
                    #[trigger] char_vec_views(nodes@).contains(n) <==> (fv.contains(n) || required_within(rv, a as int, b as int, n)),
            decreases list.len() - b,
        {
            let ghost before = char_vec_views(nodes@);
            add_node(&mut nodes, &list[b]);
            proof {
                let lv = rv[a as int];
                assert(lv[b as int] == list@[b as int]@);
                assert(lv.take(b + 1) =~= lv.take(b as int).push(lv[b as int]));
                assert forall|n: Seq<char>|
                    char_vec_views(nodes@).contains(n) <==> (fv.contains(n) || required_within(rv, a as int, b + 1, n)) by {
                    let t = lv.take(b + 1);
                    let e = exists|c: int| 0 <= c < a && #[trigger] rv[c].contains(n);
                    assert(required_within(rv, a as int, b as int, n) == (e || lv.take(b as int).contains(n)));
                    assert(required_within(rv, a as int, b + 1, n) == (e || t.contains(n)));
                    if n == lv[b as int] {
                        assert(t[b as int] == n);
                    }
                    if lv.take(b as int).contains(n) {
                        let k = choose|k: int| 0 <= k < b && lv.take(b as int)[k] == n;
                        assert(t[k] == n);
                    }
                    if t.contains(n) && n != lv[b as int] {
                        let k = choose|k: int| 0 <= k < t.len() && t[k] == n;
                        assert(lv.take(b as int)[k] == n);
                    }
                    assert(t.contains(n) <==> (lv.take(b as int).contains(n) || n == lv[b as int]));
                    assert(char_vec_views(nodes@).contains(n) <==> (before.contains(n) || n == list@[b as int]@));
                    assert(before.contains(n) <==> (fv.contains(n) || required_within(rv, a as int, b as int, n)));
                }
            }
            b = b + 1;
        }
        proof {
            let lv = rv[a as int];
            assert(lv.take(b as int) =~= lv);
            assert forall|n: Seq<char>|
                required_within(rv, a as int, b as int, n) <==> required_within(rv, a + 1, 0, n) by {
                if a + 1 < rv.len() {
                    assert(rv[a + 1].take(0) =~= Seq::<Seq<char>>::empty());
                }
                if lv.contains(n) {
                    assert(rv[a as int].contains(n));
                }
                if required_within(rv, a + 1, 0, n) {
                    let c = choose|c: int| 0 <= c < a + 1 && #[trigger] rv[c].contains(n);
                    if c == a {
                        assert(lv.take(b as int).contains(n));
                    } else {
                        assert(rv[c].contains(n));
                    }
                }
            }
        }
        a = a + 1;
    }
    proof {
        assert forall|n: Seq<char>|
            char_vec_views(nodes@).contains(n) <==> is_node(fv, rv, n) by {
            if is_node(fv, rv, n) && !fv.contains(n) {
                let c = choose|c: int| 0 <= c < rv.len() && #[trigger] rv[c].contains(n);
                assert(required_within(rv, a as int, 0, n));
            }
        }
    }
    nodes
}

/// The number of `false` entries in `s`.
pub open spec fn count_false(s: Seq<bool>) -> nat
    decreases s.len(),
{
    if s.len() == 0 {
        0
    } else {
        count_false(s.drop_last()) + if s.last() {
            0nat
        } else {
            1nat
        }
    }
}

/// Setting a `false` entry to `true` removes one `false` entry.
proof fn lemma_count_false_set(s: Seq<bool>, b: int)
    requires
        0 <= b < s.len(),
        !s[b],
    ensures
        count_false(s.update(b, true)) + 1 == count_false(s),
    decreases s.len(),
{
    let t = s.update(b, true);
    if b == s.len() - 1 {
        assert(t.drop_last() =~= s.drop_last());
    } else {
        assert(t.drop_last() =~= s.drop_last().update(b, true));
        lemma_count_false_set(s.drop_last(), b);
    }
}

/// `file_idx` and `req_idx` locate every plugin and every requirement among `nodes`.
spec fn indices_ok(
    nodes: Seq<Vec<char>>,
    fv: Seq<Seq<char>>,
    rv: Seq<Seq<Seq<char>>>,
    file_idx: Seq<usize>,
    req_idx: Seq<Vec<usize>>,
) -> bool {
    &&& fv.len() == rv.len()
    &&& file_idx.len() == fv.len()
    &&& req_idx.len() == rv.len()
    &&& forall|i: int|
        0 <= i < file_idx.len() ==> #[trigger] file_idx[i] < nodes.len() && nodes[file_idx[i] as int]@
            == fv[i]
    &&& forall|i: int| 0 <= i < req_idx.len() ==> #[trigger] req_idx[i]@.len() == rv[i].len()
    &&& forall|i: int, j: int|
        0 <= i < req_idx.len() && 0 <= j < req_idx[i]@.len() ==> #[trigger] req_idx[i]@[j]
            < nodes.len() && nodes[req_idx[i]@[j] as int]@ == rv[i][j]
}

/// Node `v` is not done and everything that the plugins at node `v` require is done.
spec fn idx_ready(done: Seq<bool>, file_idx: Seq<usize>, req_idx: Seq<Vec<usize>>, v: int) -> bool {
    &&& !done[v]
    &&& forall|i: int, j: int|
        0 <= i < file_idx.len() && i < req_idx.len() && file_idx[i] == v && 0 <= j
            < req_idx[i]@.len() ==> done[#[trigger] req_idx[i]@[j] as int]
}

/// The positions of every plugin and every requirement among `nodes`.
fn node_indices(nodes: &Vec<Vec<char>>, files: &Vec<Vec<char>>, reqs: &Vec<Vec<Vec<char>>>) -> (r: (
    Vec<usize>,
    Vec<Vec<usize>>,
))
    requires
        files.len() == reqs.len(),
        forall|n: Seq<char>|
            is_node(char_vec_views(files@), list_views(reqs@), n) ==> char_vec_views(nodes@).contains(n),
    ensures
        indices_ok(nodes@, char_vec_views(files@), list_views(reqs@), r.0@, r.1@),
{
    let ghost fv = char_vec_views(files@);
    let ghost rv = list_views(reqs@);
    let mut file_idx: Vec<usize> = Vec::new();
    let mut req_idx: Vec<Vec<usize>> = Vec::new();
    let mut i: usize = 0;
    while i < files.len()
        invariant
            i <= files.len(),
            files.len() == reqs.len(),
            fv == char_vec_views(files@),
            rv == list_views(reqs@),
            forall|n: Seq<char>| is_node(fv, rv, n) ==> char_vec_views(nodes@).contains(n),
            file_idx@.len() == i,
            req_idx@.len() == i,
            forall|k: int|
                0 <= k < i ==> #[trigger] file_idx@[k] < nodes.len() && nodes@[file_idx@[k] as int]@
                    == fv[k],
            forall|k: int| 0 <= k < i ==> #[trigger] req_idx@[k]@.len() == rv[k].len(),
            forall|k: int, j: int|
                0 <= k < i && 0 <= j < req_idx@[k]@.len() ==> #[trigger] req_idx@[k]@[j] < nodes.len()
                    && nodes@[req_idx@[k]@[j] as int]@ == rv[k][j],
        decreases files.len() - i,
    {
        assert(fv[i as int] == files@[i as int]@);
        assert(fv.contains(fv[i as int]));
        assert(is_node(fv, rv, fv[i as int]));
        let fi = match find_node(nodes, &files[i]) {
            Some(k) => k,
            None => {
                assert(false);
                0
            },
        };
        let list = &reqs[i];
        assert(rv[i as int] == char_vec_views(list@));
        let mut row: Vec<usize> = Vec::new();
        let mut j: usize = 0;
        while j < list.len()
            invariant
                i < files.len(),
                files.len() == reqs.len(),
                list == reqs@[i as int],
                fv == char_vec_views(files@),
                rv == list_views(reqs@),
                rv[i as int] == char_vec_views(list@),
                forall|n: Seq<char>| is_node(fv, rv, n) ==> char_vec_views(nodes@).contains(n),
                j <= list.len(),
                row@.len() == j,
                forall|b: int|
                    0 <= b < j ==> #[trigger] row@[b] < nodes.len() && nodes@[row@[b] as int]@ == rv[i as int][b],
            decreases list.len() - j,
        {
            assert(rv[i as int][j as int] == list@[j as int]@);
            assert(rv[i as int].contains(rv[i as int][j as int]));
            assert(is_node(fv, rv, rv[i as int][j as int]));
            let rj = match find_node(nodes, &list[j]) {
                Some(k) => k,
                None => {
                    assert(false);
                    0
                },
            };
            row.push(rj);
            j = j + 1;
        }
        file_idx.push(fi);
        req_idx.push(row);
        i = i + 1;
    }
    (file_idx, req_idx)
}

/// Whether node `v` is ready (see [`idx_ready`]).
fn idx_ready_exec(done: &Vec<bool>, file_idx: &Vec<usize>, req_idx: &Vec<Vec<usize>>, v: usize) -> (r: bool)
    requires
        v < done.len(),
        file_idx.len() == req_idx.len(),
        forall|i: int, j: int|
            0 <= i < req_idx.len() && 0 <= j < req_idx@[i]@.len() ==> #[trigger] req_idx@[i]@[j] < done.len(),
    ensures
        r == idx_ready(done@, file_idx@, req_idx@, v as int),
{
    if done[v] {
        return false;
    }
    let mut i: usize = 0;
    while i < file_idx.len()
        invariant
            v < done.len(),
            !done@[v as int],
            file_idx.len() == req_idx.len(),
            i <= file_idx.len(),
            forall|a: int, j: int|
                0 <= a < req_idx.len() && 0 <= j < req_idx@[a]@.len() ==> #[trigger] req_idx@[a]@[j] < done.len(),
            forall|a: int, j: int|
                0 <= a < i && file_idx@[a] == v && 0 <= j < req_idx@[a]@.len() ==> done@[#[trigger] req_idx@[a]@[j] as int],
        decreases file_idx.len() - i,
    {
        if file_idx[i] == v {
            let row = &req_idx[i];
            let mut j: usize = 0;
            while j < row.len()
                invariant
                    i < file_idx.len(),
                    file_idx.len() == req_idx.len(),
                    row == req_idx@[i as int],
                    file_idx@[i as int] == v,
                    j <= row.len(),
                    forall|a: int, b: int|
                        0 <= a < req_idx.len() && 0 <= b < req_idx@[a]@.len() ==> #[trigger] req_idx@[a]@[b] < done.len(),
                    forall|b: int| 0 <= b < j ==> done@[#[trigger] row@[b] as int],
                decreases row.len() - j,
            {
                assert(row@[j as int] == req_idx@[i as int]@[j as int]);
                if !done[row[j]] {
                    assert(file_idx@[i as int] == v);
                    assert(!done@[req_idx@[i as int]@[j as int] as int]);
                    return false;
                }
                j = j + 1;
            }
            assert forall|b: int| 0 <= b < req_idx@[i as int]@.len() implies done@[#[trigger] req_idx@[i as int]@[b] as int] by {
                assert(row@[b] == req_idx@[i as int]@[b]);
            }
        }
        i = i + 1;
    }
    true
}

/// `done` marks exactly the nodes taken in `r`.
spec fn done_matches(nodes: Seq<Vec<char>>, done: Seq<bool>, r: Seq<Seq<char>>) -> bool {
    &&& done.len() == nodes.len()
    &&& forall|u: int| 0 <= u < nodes.len() ==> (#[trigger] done[u] <==> r.contains(nodes[u]@))
}

/// The readiness of node `v` computed on positions agrees with [`ready`].
proof fn lemma_idx_ready(
    nodes: Seq<Vec<char>>,
    fv: Seq<Seq<char>>,
    rv: Seq<Seq<Seq<char>>>,
    file_idx: Seq<usize>,
    req_idx: Seq<Vec<usize>>,
    done: Seq<bool>,
    r: Seq<Seq<char>>,
    v: int,
)
    requires
        distinct(char_vec_views(nodes)),
        0 <= v < nodes.len(),
        is_node(fv, rv, nodes[v]@),
        done_matches(nodes, done, r),
        indices_ok(nodes, fv, rv, file_idx, req_idx),
    ensures
        idx_ready(done, file_idx, req_idx, v) <==> ready(fv, rv, r, nodes[v]@),
{
    let n = nodes[v]@;
    let views = char_vec_views(nodes);
    assert forall|i: int| 0 <= i < fv.len() implies (fv[i] == n <==> file_idx[i] == v) by {
        let f = file_idx[i] as int;
        assert(nodes[f]@ == fv[i]);
        if fv[i] == n && f != v {
            assert(views[f] == views[v]);
            if f < v {
                assert(views[f] != views[v]);
            } else {
                assert(views[v] != views[f]);
            }
        }
    }
    if idx_ready(done, file_idx, req_idx, v) {
        assert forall|i: int, j: int|
            0 <= i < fv.len() && i < rv.len() && fv[i] == n && 0 <= j < rv[i].len() implies r.contains(
                #[trigger] rv[i][j],
            ) by {
            let u = req_idx[i]@[j] as int;
            assert(done[u]);
            assert(nodes[u]@ == rv[i][j]);
        }
    }
    if ready(fv, rv, r, n) {
        assert forall|i: int, j: int|
            0 <= i < file_idx.len() && i < req_idx.len() && file_idx[i] == v && 0 <= j
                < req_idx[i]@.len() implies done[#[trigger] req_idx[i]@[j] as int] by {
            let u = req_idx[i]@[j] as int;
            assert(nodes[u]@ == rv[i][j]);
            assert(r.contains(rv[i][j]));
        }
    }
}

/// The names of the nodes at positions `order`.
spec fn picked(nodes: Seq<Vec<char>>, order: Seq<usize>) -> Seq<Seq<char>> {
    order.map_values(|v: usize| nodes[v as int]@)
}

/// The first `len` nodes of `r` are taken as [`resolves`] demands.
spec fn resolves_prefix(fv: Seq<Seq<char>>, rv: Seq<Seq<Seq<char>>>, r: Seq<Seq<char>>) -> bool {
    &&& forall|k: int| 0 <= k < r.len() ==> ready(fv, rv, r.take(k), #[trigger] r[k])
    &&& forall|k: int, n: Seq<char>|
        #![trigger r[k], ready(fv, rv, r.take(k), n)]
        0 <= k < r.len() && ready(fv, rv, r.take(k), n) ==> chars_le(r[k], n)
}

/// Takes nodes, least ready name first, until none is ready.
fn take_nodes(
    nodes: &Vec<Vec<char>>,
    file_idx: &Vec<usize>,
    req_idx: &Vec<Vec<usize>>,
    Ghost(fv): Ghost<Seq<Seq<char>>>,
    Ghost(rv): Ghost<Seq<Seq<Seq<char>>>>,
) -> (res: (Vec<usize>, Vec<bool>))
    requires
        distinct(char_vec_views(nodes@)),
        forall|n: Seq<char>| char_vec_views(nodes@).contains(n) <==> is_node(fv, rv, n),
        indices_ok(nodes@, fv, rv, file_idx@, req_idx@),
    ensures
        resolves(fv, rv, picked(nodes@, res.0@)),
        forall|k: int| 0 <= k < res.0@.len() ==> #[trigger] res.0@[k] < nodes.len(),
        done_matches(nodes@, res.1@, picked(nodes@, res.0@)),
{
    let mut order: Vec<usize> = Vec::new();
    let mut done: Vec<bool> = Vec::new();
    let mut u: usize = 0;
    while u < nodes.len()
        invariant
            u <= nodes.len(),
            done@.len() == u,
            forall|w: int| 0 <= w < u ==> !#[trigger] done@[w],
        decreases nodes.len() - u,
    {
        done.push(false);
        u = u + 1;
    }
    assert(picked(nodes@, order@) =~= Seq::<Seq<char>>::empty());
    loop
        invariant
            distinct(char_vec_views(nodes@)),
            forall|n: Seq<char>| char_vec_views(nodes@).contains(n) <==> is_node(fv, rv, n),
            indices_ok(nodes@, fv, rv, file_idx@, req_idx@),
            forall|k: int| 0 <= k < order@.len() ==> #[trigger] order@[k] < nodes.len(),
            done_matches(nodes@, done@, picked(nodes@, order@)),
            resolves_prefix(fv, rv, picked(nodes@, order@)),
        ensures
            resolves(fv, rv, picked(nodes@, order@)),
        decreases count_false(done@),
    {
        let ghost r = picked(nodes@, order@);
        let mut best: Option<usize> = None;
        let mut w: usize = 0;
        while w < nodes.len()
            invariant
                w <= nodes.len(),
                done@.len() == nodes.len(),
                indices_ok(nodes@, fv, rv, file_idx@, req_idx@),
                match best {
                    Some(b) => b < w && idx_ready(done@, file_idx@, req_idx@, b as int) && forall|x: int|
                        0 <= x < w && idx_ready(done@, file_idx@, req_idx@, x) ==> chars_le(
                            nodes@[b as int]@,
                            #[trigger] nodes@[x]@,
                        ),
                    None => forall|x: int| 0 <= x < w ==> !idx_ready(done@, file_idx@, req_idx@, x),
                },
            decreases nodes.len() - w,
        {
            if idx_ready_exec(&done, file_idx, req_idx, w) {
                match best {
                    None => {
                        best = Some(w);
                        proof {
                            lemma_chars_le_reflexive(nodes@[w as int]@);
                        }
                    },
                    Some(b) => {
                        if !chars_le_exec(&nodes[b], &nodes[w]) {
                            proof {
                                lemma_chars_le_total(nodes@[b as int]@, nodes@[w as int]@);
                                assert forall|x: int|
                                    0 <= x < w + 1 && idx_ready(done@, file_idx@, req_idx@, x) implies chars_le(
                                    nodes@[w as int]@,
                                    #[trigger] nodes@[x]@,
                                ) by {
                                    if x < w {
                                        lemma_chars_le_transitive(nodes@[w as int]@, nodes@[b as int]@, nodes@[x]@);
                                    } else {
                                        lemma_chars_le_reflexive(nodes@[w as int]@);
                                    }
                                }
                            }
                            best = Some(w);
                        }
                    },
                }
            }
            w = w + 1;
        }
        match best {
            None => {
                proof {
                    assert forall|n: Seq<char>| !ready(fv, rv, r, n) by {
                        if ready(fv, rv, r, n) {
                            let views = char_vec_views(nodes@);
                            assert(views.contains(n));
                            let x = choose|x: int| 0 <= x < views.len() && views[x] == n;
                            lemma_idx_ready(nodes@, fv, rv, file_idx@, req_idx@, done@, r, x);
                        }
                    }
                }
                break;
            },
            Some(b) => {
                proof {
                    let views = char_vec_views(nodes@);
                    assert(views.contains(views[b as int]));
                    lemma_idx_ready(nodes@, fv, rv, file_idx@, req_idx@, done@, r, b as int);
                    lemma_count_false_set(done@, b as int);
                }
                let ghost old_done = done@;
                order.push(b);
                done.set(b, true);
                proof {
                    let r2 = picked(nodes@, order@);
                    let n = nodes@[b as int]@;
                    let views = char_vec_views(nodes@);
                    assert(r2 =~= r.push(n));
                    assert(r2.take(r.len() as int) =~= r);
                    assert forall|k: int| 0 <= k < r.len() implies #[trigger] r2.take(k) == r.take(k) by {
                        assert(r2.take(k) =~= r.take(k));
                    }
                    assert forall|m: Seq<char>| ready(fv, rv, r, m) implies chars_le(n, m) by {
                        assert(views.contains(m));
                        let x = choose|x: int| 0 <= x < views.len() && views[x] == m;
                        lemma_idx_ready(nodes@, fv, rv, file_idx@, req_idx@, old_done, r, x);
                    }
                    assert(resolves_prefix(fv, rv, r2)) by {
                        assert forall|k: int| 0 <= k < r2.len() implies ready(fv, rv, r2.take(k), #[trigger] r2[k]) by {
                            if k < r.len() {
                                assert(r2[k] == r[k]);
                            }
                        }
                        assert forall|k: int, m: Seq<char>|
                            #![trigger r2[k], ready(fv, rv, r2.take(k), m)]
                            0 <= k < r2.len() && ready(fv, rv, r2.take(k), m) implies chars_le(
                            r2[k],
                            m,
                        ) by {
                            if k < r.len() {
                                assert(r2[k] == r[k]);
                                assert(ready(fv, rv, r.take(k), m));
                            }
                        }
                    }
                    assert forall|x: int| 0 <= x < nodes.len() implies (#[trigger] done@[x] <==> r2.contains(nodes@[x]@)) by {
                        if x == b {
                            assert(r2[r.len() as int] == n);
                        } else {
                            assert(done@[x] == old_done[x]);
                            if r2.contains(nodes@[x]@) {
                                let k = choose|k: int| 0 <= k < r2.len() && r2[k] == nodes@[x]@;
                                if k == r.len() {
                                    assert(views[x] == views[b as int]);
                                    if x < b {
                                        assert(views[x] != views[b as int]);
                                    } else {
                                        assert(views[b as int] != views[x]);
                                    }
                                } else {
                                    assert(r[k] == nodes@[x]@);
                                }
                            }
                            if r.contains(nodes@[x]@) {
                                let k = choose|k: int| 0 <= k < r.len() && r[k] == nodes@[x]@;
                                assert(r2[k] == nodes@[x]@);
                            }
                        }
                    }
                }
            },
        }
    }
    (order, done)
}

/// Whether `x` is one of `list`.
fn contains_name(list: &Vec<Vec<char>>, x: &Vec<char>) -> (r: bool)
    ensures
        r == char_vec_views(list@).contains(x@),
{
    match find_node(list, x) {
        Some(k) => {
            assert(char_vec_views(list@)[k as int] == x@);
            true
        },
        None => false,
    }
}

/// For each node, whether it is a plugin.
fn plugin_flags(nodes: &Vec<Vec<char>>, files: &Vec<Vec<char>>) -> (flags: Vec<bool>)
    ensures
        flags@.len() == nodes.len(),
        forall|v: int|
            0 <= v < nodes.len() ==> (#[trigger] flags@[v] <==> char_vec_views(files@).contains(nodes@[v]@)),
{
    let mut flags: Vec<bool> = Vec::new();
    let mut v: usize = 0;
    while v < nodes.len()
        invariant
            v <= nodes.len(),
            flags@.len() == v,
            forall|x: int|
                0 <= x < v ==> (#[trigger] flags@[x] <==> char_vec_views(files@).contains(nodes@[x]@)),
        decreases nodes.len() - v,
    {
        let f = contains_name(files, &nodes[v]);
        flags.push(f);
        v = v + 1;
    }
    flags
}

/// The plugins among the taken nodes, in the order they were taken.
fn taken_plugins(nodes: &Vec<Vec<char>>, order: &Vec<usize>, flags: &Vec<bool>, Ghost(fv): Ghost<
    Seq<Seq<char>>,
>) -> (out: Vec<Vec<char>>)
    requires
        flags@.len() == nodes.len(),
        forall|v: int| 0 <= v < nodes.len() ==> (#[trigger] flags@[v] <==> fv.contains(nodes@[v]@)),
        forall|k: int| 0 <= k < order@.len() ==> #[trigger] order@[k] < nodes.len(),
    ensures
        char_vec_views(out@) == plugins_in(fv, picked(nodes@, order@)),
{
    let ghost r = picked(nodes@, order@);
    let mut out: Vec<Vec<char>> = Vec::new();
    let mut k: usize = 0;
    assert(r.take(0) =~= Seq::<Seq<char>>::empty());
    while k < order.len()
        invariant
            k <= order.len(),
            r == picked(nodes@, order@),
            flags@.len() == nodes.len(),
            forall|v: int| 0 <= v < nodes.len() ==> (#[trigger] flags@[v] <==> fv.contains(nodes@[v]@)),
            forall|j: int| 0 <= j < order@.len() ==> #[trigger] order@[j] < nodes.len(),
            char_vec_views(out@) == plugins_in(fv, r.take(k as int)),
        decreases order.len() - k,
    {
        let v = order[k];
        assert(r.take(k + 1).drop_last() =~= r.take(k as int));
        assert(r.take(k + 1).last() == nodes@[v as int]@);
        if flags[v] {
            let copy = nodes[v].clone();
            assert(copy@ == nodes@[v as int]@);
            let ghost before = out@;
            out.push(copy);
            assert(char_vec_views(out@) =~= char_vec_views(before).push(copy@));
        }
        k = k + 1;
    }
    assert(r.take(order.len() as int) =~= r);
    out
}

/// The plugins never taken, in name order.
fn untaken_plugins(nodes: &Vec<Vec<char>>, done: &Vec<bool>, flags: &Vec<bool>, Ghost(fv): Ghost<
    Seq<Seq<char>>,
>, Ghost(r): Ghost<Seq<Seq<char>>>) -> (out: Vec<Vec<char>>)
    requires
        distinct(char_vec_views(nodes@)),
        forall|n: Seq<char>| fv.contains(n) ==> char_vec_views(nodes@).contains(n),
        flags@.len() == nodes.len(),
        forall|v: int| 0 <= v < nodes.len() ==> (#[trigger] flags@[v] <==> fv.contains(nodes@[v]@)),
        done_matches(nodes@, done@, r),
    ensures
        strictly_sorted(char_vec_views(out@)),
        forall|n: Seq<char>| char_vec_views(out@).contains(n) <==> (fv.contains(n) && !r.contains(n)),
{
    let mut taken = done.clone();
    let mut out: Vec<Vec<char>> = Vec::new();
    assert(taken@ == done@);
    loop
        invariant
            distinct(char_vec_views(nodes@)),
            forall|n: Seq<char>| fv.contains(n) ==> char_vec_views(nodes@).contains(n),
            flags@.len() == nodes.len(),
            forall|v: int| 0 <= v < nodes.len() ==> (#[trigger] flags@[v] <==> fv.contains(nodes@[v]@)),
            done_matches(nodes@, done@, r),
            taken@.len() == nodes.len(),
            strictly_sorted(char_vec_views(out@)),
            forall|v: int|
                0 <= v < nodes.len() ==> (#[trigger] taken@[v] <==> (done@[v] || char_vec_views(
                    out@,
                ).contains(nodes@[v]@))),
            forall|n: Seq<char>| #[trigger] char_vec_views(out@).contains(n) ==> (fv.contains(n) && !r.contains(n)),
            forall|i: int, v: int|
                0 <= i < out@.len() && 0 <= v < nodes.len() && !taken@[v] && flags@[v] ==> chars_le(
                    #[trigger] char_vec_views(out@)[i],
                    #[trigger] nodes@[v]@,
                ),
        ensures
            strictly_sorted(char_vec_views(out@)),
            forall|n: Seq<char>| char_vec_views(out@).contains(n) <==> (fv.contains(n) && !r.contains(n)),
        decreases count_false(taken@),
    {
        let ghost tail = char_vec_views(out@);
        let mut best: Option<usize> = None;
        let mut w: usize = 0;
        while w < nodes.len()
            invariant
                w <= nodes.len(),
                taken@.len() == nodes.len(),
                flags@.len() == nodes.len(),
                match best {
                    Some(b) => b < w && !taken@[b as int] && flags@[b as int] && forall|x: int|
                        0 <= x < w && !taken@[x] && flags@[x] ==> chars_le(
                            nodes@[b as int]@,
                            #[trigger] nodes@[x]@,
                        ),
                    None => forall|x: int| 0 <= x < w ==> (taken@[x] || !flags@[x]),
                },
            decreases nodes.len() - w,
        {
            if !taken[w] && flags[w] {
                match best {
                    None => {
                        best = Some(w);
                        proof {
                            lemma_chars_le_reflexive(nodes@[w as int]@);
                        }
                    },
                    Some(b) => {
                        if !chars_le_exec(&nodes[b], &nodes[w]) {
                            proof {
                                lemma_chars_le_total(nodes@[b as int]@, nodes@[w as int]@);
                                assert forall|x: int|
                                    0 <= x < w + 1 && !taken@[x] && flags@[x] implies chars_le(
                                    nodes@[w as int]@,
                                    #[trigger] nodes@[x]@,
                                ) by {
                                    if x < w {
                                        lemma_chars_le_transitive(nodes@[w as int]@, nodes@[b as int]@, nodes@[x]@);
                                    } else {
                                        lemma_chars_le_reflexive(nodes@[w as int]@);
                                    }
                                }
                            }
                            best = Some(w);
                        }
                    },
                }
            }
            w = w + 1;
        }
        match best {
            None => {
                proof {
                    assert forall|n: Seq<char>| fv.contains(n) && !r.contains(n) implies tail.contains(n) by {
                        let views = char_vec_views(nodes@);
                        assert(views.contains(n));
                        let x = choose|x: int| 0 <= x < views.len() && views[x] == n;
                        assert(flags@[x]);
                        assert(!done@[x]);
                        assert(taken@[x]);
                    }
                }
                break;
            },
            Some(b) => {
                let ghost old_taken = taken@;
                let copy = nodes[b].clone();
                assert(copy@ == nodes@[b as int]@);
                let ghost n = copy@;
                proof {
                    lemma_count_false_set(taken@, b as int);
                }
                out.push(copy);
                taken.set(b, true);
                proof {
                    let views = char_vec_views(nodes@);
                    let tail2 = char_vec_views(out@);
                    assert(tail2 =~= tail.push(n));
                    assert(!tail.contains(n));
                    assert(!done@[b as int]);
                    assert(fv.contains(n) && !r.contains(n));
                    assert forall|i: int, j: int| 0 <= i < j < tail2.len() implies chars_lt(tail2[i], tail2[j]) by {
                        if j == tail.len() {
                            assert(chars_le(tail[i], nodes@[b as int]@));
                            assert(tail.contains(tail[i]));
                        } else {
                            assert(tail2[i] == tail[i] && tail2[j] == tail[j]);
                        }
                    }
                    assert forall|m: Seq<char>| #[trigger] tail2.contains(m) implies (fv.contains(m) && !r.contains(m)) by {
                        let k = choose|k: int| 0 <= k < tail2.len() && tail2[k] == m;
                        if k < tail.len() {
                            assert(tail[k] == m);
                            assert(tail.contains(m));
                        }
                    }
                    assert forall|x: int| 0 <= x < nodes.len() implies (#[trigger] taken@[x] <==> (done@[x]
                        || tail2.contains(nodes@[x]@))) by {
                        if x == b {
                            assert(tail2[tail.len() as int] == n);
                        } else {
                            assert(taken@[x] == old_taken[x]);
                            if tail2.contains(nodes@[x]@) {
                                let k = choose|k: int| 0 <= k < tail2.len() && tail2[k] == nodes@[x]@;
                                if k == tail.len() {
                                    assert(views[x] == views[b as int]);
                                    if x < b {
                                        assert(views[x] != views[b as int]);
                                    } else {
                                        assert(views[b as int] != views[x]);
                                    }
                                } else {
                                    assert(tail[k] == nodes@[x]@);
                                }
                            }
                            if tail.contains(nodes@[x]@) {
                                let k = choose|k: int| 0 <= k < tail.len() && tail[k] == nodes@[x]@;
                                assert(tail2[k] == nodes@[x]@);
                            }
                        }
                    }
                    assert forall|i: int, v: int|
                        0 <= i < tail2.len() && 0 <= v < nodes.len() && !taken@[v] && flags@[v] implies chars_le(
                        #[trigger] tail2[i],
                        #[trigger] nodes@[v]@,
                    ) by {
                        assert(old_taken[v]== taken@[v]);
                        if i < tail.len() {
                            assert(tail2[i] == tail[i]);
                        }
                    }
                }
            },
        }
    }
    out
}

/// Appends the strings holding `v`'s character vectors to `out`.
fn push_strings(out: &mut Vec<String>, v: &Vec<Vec<char>>)
    ensures
        string_views(final(out)@) == string_views(old(out)@) + char_vec_views(v@),
{
    let ghost start = string_views(out@);
    let mut i: usize = 0;
    while i < v.len()
        invariant
            i <= v.len(),
            string_views(out@) == start + char_vec_views(v@).take(i as int),
        decreases v.len() - i,
    {
        let s = string_of(&v[i]);
        let ghost before = out@;
        out.push(s);
        assert(string_views(out@) =~= string_views(before).push(v@[i as int]@));
        assert(string_views(out@) =~= start + char_vec_views(v@).take(i + 1));
        i = i + 1;
    }
    assert(char_vec_views(v@).take(v.len() as int) =~= char_vec_views(v@));
}

/// The load order of plugins named `files` whose requirement lists are `reqs`.
fn order_plugins(files: &Vec<Vec<char>>, reqs: &Vec<Vec<Vec<char>>>) -> (plan: LoadPlan)
    requires
        files.len() == reqs.len(),
    ensures
        is_load_order(char_vec_views(files@), list_views(reqs@), string_views(plan.order@)),
        is_load_plan(
            char_vec_views(files@),
            list_views(reqs@),
            string_views(plan.order@),
            plan.in_dependency_order as nat,
        ),
{
    let ghost fv = char_vec_views(files@);
    let ghost rv = list_views(reqs@);
    let nodes = collect_nodes(files, reqs);
    let (file_idx, req_idx) = node_indices(&nodes, files, reqs);
    let (order, done) = take_nodes(&nodes, &file_idx, &req_idx, Ghost(fv), Ghost(rv));
    let ghost r = picked(nodes@, order@);
    let flags = plugin_flags(&nodes, files);
    let head = taken_plugins(&nodes, &order, &flags, Ghost(fv));
    proof {
        assert forall|n: Seq<char>| fv.contains(n) implies char_vec_views(nodes@).contains(n) by {
            assert(is_node(fv, rv, n));
        }
    }
    let tail = untaken_plugins(&nodes, &done, &flags, Ghost(fv), Ghost(r));
    let mut out: Vec<String> = Vec::new();
    push_strings(&mut out, &head);
    push_strings(&mut out, &tail);
    proof {
        let o = string_views(out@);
        let h = char_vec_views(head@);
        let t = char_vec_views(tail@);
        assert(o =~= h + t);
        assert(o.take(h.len() as int) =~= h);
        assert(o.skip(h.len() as int) =~= t);
        assert(load_order_from(fv, r, o));
        assert(resolves(fv, rv, r));
    }
    LoadPlan { order: out, in_dependency_order: head.len() }
}

/// The requirement lists of `plugins`, as character vectors.
fn requirement_lists(plugins: &Vec<PluginSource>) -> (reqs: Vec<Vec<Vec<char>>>)
    ensures
        list_views(reqs@) == source_requirement_lists(plugins@),
{
    let mut reqs: Vec<Vec<Vec<char>>> = Vec::new();
    let mut i: usize = 0;
    while i < plugins.len()
        invariant
            i <= plugins.len(),
            list_views(reqs@) == source_requirement_lists(plugins@).take(i as int),
        decreases plugins.len() - i,
    {
        let list = match &plugins[i].content {
            Some(c) => {
                let chars = chars_of(c.as_str());
                requirement_chars(&chars)
            },
            None => {
                let empty: Vec<Vec<char>> = Vec::new();
                assert(char_vec_views(empty@) =~= Seq::<Seq<char>>::empty());
                empty
            },
        };
        assert(char_vec_views(list@) == source_requirements(plugins@[i as int]));
        let ghost before = reqs@;
        reqs.push(list);
        assert(list_views(reqs@) =~= list_views(before).push(char_vec_views(list@)));
        assert(list_views(reqs@) =~= source_requirement_lists(plugins@).take(i + 1));
        i = i + 1;
    }
    assert(source_requirement_lists(plugins@).take(plugins.len() as int) =~= source_requirement_lists(plugins@));
    reqs
}

/// The order in which to load the plugin scripts `plugins`: a plugin comes
/// after every plugin it requires where that can be had, ties go to the least
/// name, and plugins caught in circular requirements come last in name order;
/// with the number of plugins loaded in dependency order.
pub fn resolve_load_order(plugins: &Vec<PluginSource>) -> (plan: LoadPlan)
    ensures
        is_load_order(source_names(plugins@), source_requirement_lists(plugins@), string_views(plan.order@)),
        is_load_plan(
            source_names(plugins@),
            source_requirement_lists(plugins@),
            string_views(plan.order@),
            plan.in_dependency_order as nat,
        ),
{
    let mut files: Vec<Vec<char>> = Vec::new();
    let mut i: usize = 0;
    while i < plugins.len()
        invariant
            i <= plugins.len(),
            char_vec_views(files@) == source_names(plugins@).take(i as int),
        decreases plugins.len() - i,
    {
        let name = chars_of(plugins[i].name.as_str());
        let ghost before = files@;
        files.push(name);
        assert(char_vec_views(files@) =~= char_vec_views(before).push(name@));
        assert(char_vec_views(files@) =~= source_names(plugins@).take(i + 1));
        i = i + 1;
    }
    assert(source_names(plugins@).take(plugins.len() as int) =~= source_names(plugins@));
    let reqs = requirement_lists(plugins);
    assert(files@.len() == char_vec_views(files@).len());
    assert(reqs@.len() == list_views(reqs@).len());
    order_plugins(&files, &reqs)
}

} // verus!
