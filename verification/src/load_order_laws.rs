//! What every load order computed by [`resolve_load_order`](crate::load_order::resolve_load_order)
//! satisfies: it is determined by the plugins, it loads every plugin exactly
//! once, a plugin taken in dependency order comes after the plugins it
//! requires, and without circular requirements every plugin is taken so.

use vstd::prelude::*;
use crate::text::{chars_le, chars_lt, lemma_chars_le_antisymmetric};
use crate::load_order::{
    distinct, is_node, ready, resolves, plugins_in, strictly_sorted, load_order_from, is_load_order,
    is_load_plan,
};

verus! {

/// `p` is a prefix of `s`.
pub open spec fn is_prefix(p: Seq<Seq<char>>, s: Seq<Seq<char>>) -> bool {
    p.len() <= s.len() && s.take(p.len() as int) == p
}

/// The plugins among `r` are the names that are both plugins and in `r`.
pub proof fn lemma_plugins_in_contains(files: Seq<Seq<char>>, r: Seq<Seq<char>>, n: Seq<char>)
    ensures
        plugins_in(files, r).contains(n) <==> (r.contains(n) && files.contains(n)),
    decreases r.len(),
{
    if r.len() > 0 {
        let d = r.drop_last();
        lemma_plugins_in_contains(files, d, n);
        let p = plugins_in(files, r);
        let pd = plugins_in(files, d);
        if d.contains(n) {
            let k = choose|k: int| 0 <= k < d.len() && d[k] == n;
            assert(r[k] == n);
        }
        if r.contains(n) && n != r.last() {
            let k = choose|k: int| 0 <= k < r.len() && r[k] == n;
            assert(d[k] == n);
        }
        if files.contains(r.last()) {
            assert(p =~= pd.push(r.last()));
            if pd.contains(n) {
                let k = choose|k: int| 0 <= k < pd.len() && pd[k] == n;
                assert(p[k] == n);
            }
            if p.contains(n) && n != r.last() {
                let k = choose|k: int| 0 <= k < p.len() && p[k] == n;
                assert(pd[k] == n);
            }
            if n == r.last() {
                assert(p[pd.len() as int] == n);
                assert(r[r.len() - 1] == n);
            }
        } else {
            if n == r.last() && files.contains(n) {
                assert(false);
            }
        }
    }
}

/// The plugins among a prefix of `r` are a prefix of the plugins among `r`.
pub proof fn lemma_plugins_in_prefix(files: Seq<Seq<char>>, r: Seq<Seq<char>>, k: int)
    requires
        0 <= k <= r.len(),
    ensures
        is_prefix(plugins_in(files, r.take(k)), plugins_in(files, r)),
    decreases r.len() - k,
{
    if k == r.len() {
        assert(r.take(k) =~= r);
        assert(plugins_in(files, r).take(plugins_in(files, r).len() as int) =~= plugins_in(files, r));
    } else {
        lemma_plugins_in_prefix(files, r, k + 1);
        let a = plugins_in(files, r.take(k));
        let b = plugins_in(files, r.take(k + 1));
        let c = plugins_in(files, r);
        assert(r.take(k + 1).drop_last() =~= r.take(k));
        assert(r.take(k + 1).last() == r[k]);
        if files.contains(r[k]) {
            assert(b =~= a.push(r[k]));
            assert(b.take(a.len() as int) =~= a);
        } else {
            assert(b == a);
            assert(b.take(a.len() as int) =~= a);
        }
        assert(is_prefix(a, b));
        assert(c.take(a.len() as int) =~= b.take(a.len() as int));
    }
}

/// The plugins among names that occur once occur once.
pub proof fn lemma_plugins_in_distinct(files: Seq<Seq<char>>, r: Seq<Seq<char>>)
    requires
        distinct(r),
    ensures
        distinct(plugins_in(files, r)),
    decreases r.len(),
{
    if r.len() > 0 {
        let d = r.drop_last();
        assert(distinct(d));
        lemma_plugins_in_distinct(files, d);
        if files.contains(r.last()) {
            let pd = plugins_in(files, d);
            let p = plugins_in(files, r);
            assert(p =~= pd.push(r.last()));
            lemma_plugins_in_contains(files, d, r.last());
            assert(!d.contains(r.last())) by {
                if d.contains(r.last()) {
                    let k = choose|k: int| 0 <= k < d.len() && d[k] == r.last();
                    assert(r[k] == r[r.len() - 1]);
                }
            }
            assert forall|i: int, j: int| 0 <= i < j < p.len() implies p[i] != p[j] by {
                if j == pd.len() {
                    assert(pd.contains(pd[i]));
                }
            }
        }
    }
}

/// The nodes taken in a resolution occur once each.
pub proof fn lemma_resolution_distinct(files: Seq<Seq<char>>, reqs: Seq<Seq<Seq<char>>>, r: Seq<Seq<char>>)
    requires
        resolves(files, reqs, r),
    ensures
        distinct(r),
{
    assert forall|i: int, j: int| 0 <= i < j < r.len() implies r[i] != r[j] by {
        assert(ready(files, reqs, r.take(j), r[j]));
        assert(r.take(j)[i] == r[i]);
    }
}

/// Two resolutions of the same plugins agree on their first `k` nodes.
proof fn lemma_resolutions_agree(
    files: Seq<Seq<char>>,
    reqs: Seq<Seq<Seq<char>>>,
    r1: Seq<Seq<char>>,
    r2: Seq<Seq<char>>,
    k: int,
)
    requires
        resolves(files, reqs, r1),
        resolves(files, reqs, r2),
        0 <= k <= r1.len(),
        k <= r2.len(),
    ensures
        r1.take(k) == r2.take(k),
    decreases k,
{
    if k == 0 {
        assert(r1.take(0) =~= r2.take(0));
    } else {
        let m = k - 1;
        lemma_resolutions_agree(files, reqs, r1, r2, m);
        assert(ready(files, reqs, r1.take(m), r1[m]));
        assert(ready(files, reqs, r2.take(m), r2[m]));
        assert(chars_le(r1[m], r2[m]));
        assert(chars_le(r2[m], r1[m]));
        lemma_chars_le_antisymmetric(r1[m], r2[m]);
        assert(r1.take(k) =~= r1.take(m).push(r1[m]));
        assert(r2.take(k) =~= r2.take(m).push(r2[m]));
    }
}

/// The order in which nodes are taken is determined by the plugins: two
/// resolutions of the same plugins are equal.
pub proof fn lemma_resolution_unique(
    files: Seq<Seq<char>>,
    reqs: Seq<Seq<Seq<char>>>,
    r1: Seq<Seq<char>>,
    r2: Seq<Seq<char>>,
)
    requires
        resolves(files, reqs, r1),
        resolves(files, reqs, r2),
    ensures
        r1 == r2,
{
    let k = if r1.len() < r2.len() { r1.len() as int } else { r2.len() as int };
    lemma_resolutions_agree(files, reqs, r1, r2, k);
    if k < r1.len() {
        assert(r2.take(k) =~= r2);
        assert(ready(files, reqs, r1.take(k), r1[k]));
        assert(!ready(files, reqs, r2, r1[k]));
    }
    if k < r2.len() {
        assert(r1.take(k) =~= r1);
        assert(ready(files, reqs, r2.take(k), r2[k]));
        assert(!ready(files, reqs, r1, r2[k]));
    }
    assert(r1 =~= r1.take(k));
    assert(r2 =~= r2.take(k));
}

/// Two strictly sorted sequences with the same names are equal.
pub proof fn lemma_sorted_unique(s: Seq<Seq<char>>, t: Seq<Seq<char>>)
    requires
        strictly_sorted(s),
        strictly_sorted(t),
        forall|n: Seq<char>| s.contains(n) <==> t.contains(n),
    ensures
        s == t,
    decreases s.len(),
{
    if s.len() == 0 {
        if t.len() > 0 {
            assert(t.contains(t[0]));
        }
        assert(s =~= t);
    } else {
        assert(s.contains(s[0]));
        assert(t.len() > 0);
        assert(t.contains(t[0]));
        let a = choose|a: int| 0 <= a < t.len() && t[a] == s[0];
        let b = choose|b: int| 0 <= b < s.len() && s[b] == t[0];
        if a > 0 {
            assert(chars_lt(t[0], t[a]));
        }
        if b > 0 {
            assert(chars_lt(s[0], s[b]));
        }
        if a > 0 && b > 0 {
            lemma_chars_le_antisymmetric(s[0], t[0]);
        }
        assert(s[0] == t[0]);
        let s1 = s.drop_first();
        let t1 = t.drop_first();
        assert forall|n: Seq<char>| s1.contains(n) <==> t1.contains(n) by {
            if s1.contains(n) {
                let i = choose|i: int| 0 <= i < s1.len() && s1[i] == n;
                assert(s[i + 1] == n);
                assert(chars_lt(s[0], s[i + 1]));
                assert(t.contains(n));
                let j = choose|j: int| 0 <= j < t.len() && t[j] == n;
                assert(j != 0);
                assert(t1[j - 1] == n);
            }
            if t1.contains(n) {
                let i = choose|i: int| 0 <= i < t1.len() && t1[i] == n;
                assert(t[i + 1] == n);
                assert(chars_lt(t[0], t[i + 1]));
                assert(s.contains(n));
                let j = choose|j: int| 0 <= j < s.len() && s[j] == n;
                assert(j != 0);
                assert(s1[j - 1] == n);
            }
        }
        lemma_sorted_unique(s1, t1);
        assert(s =~= seq![s[0]] + s1);
        assert(t =~= seq![t[0]] + t1);
    }
}

/// The load order is determined by the plugins and their requirements: two
/// load orders of the same plugins are equal.
pub proof fn lemma_load_order_unique(
    files: Seq<Seq<char>>,
    reqs: Seq<Seq<Seq<char>>>,
    out1: Seq<Seq<char>>,
    out2: Seq<Seq<char>>,
)
    requires
        is_load_order(files, reqs, out1),
        is_load_order(files, reqs, out2),
    ensures
        out1 == out2,
{
    let r1 = choose|r: Seq<Seq<char>>| #[trigger] resolves(files, reqs, r) && load_order_from(files, r, out1);
    let r2 = choose|r: Seq<Seq<char>>| #[trigger] resolves(files, reqs, r) && load_order_from(files, r, out2);
    lemma_resolution_unique(files, reqs, r1, r2);
    let h = plugins_in(files, r1);
    let t1 = out1.skip(h.len() as int);
    let t2 = out2.skip(h.len() as int);
    assert(load_order_from(files, r1, out1));
    assert(load_order_from(files, r1, out2));
    assert forall|n: Seq<char>| t1.contains(n) <==> t2.contains(n) by {
        assert(t1.contains(n) <==> (files.contains(n) && !r1.contains(n)));
        assert(t2.contains(n) <==> (files.contains(n) && !r1.contains(n)));
    }
    lemma_sorted_unique(t1, t2);
    assert(out1 =~= h + t1);
    assert(out2 =~= h + t2);
}

/// Every plugin is loaded exactly once: the load order holds each plugin name
/// once and nothing else.
pub proof fn lemma_load_order_is_permutation(
    files: Seq<Seq<char>>,
    reqs: Seq<Seq<Seq<char>>>,
    out: Seq<Seq<char>>,
)
    requires
        is_load_order(files, reqs, out),
    ensures
        distinct(out),
        forall|n: Seq<char>| out.contains(n) <==> files.contains(n),
{
    let r = choose|r: Seq<Seq<char>>| #[trigger] resolves(files, reqs, r) && load_order_from(files, r, out);
    lemma_resolution_distinct(files, reqs, r);
    lemma_plugins_in_distinct(files, r);
    let h = plugins_in(files, r);
    let t = out.skip(h.len() as int);
    assert(out =~= h + t);
    assert forall|n: Seq<char>| out.contains(n) <==> files.contains(n) by {
        lemma_plugins_in_contains(files, r, n);
        if out.contains(n) {
            let i = choose|i: int| 0 <= i < out.len() && out[i] == n;
            if i < h.len() {
                assert(h[i] == n);
                assert(h.contains(n));
            } else {
                assert(t[i - h.len()] == n);
                assert(t.contains(n));
            }
        }
        if files.contains(n) {
            if r.contains(n) {
                assert(h.contains(n));
                let i = choose|i: int| 0 <= i < h.len() && h[i] == n;
                assert(out[i] == n);
            } else {
                assert(t.contains(n));
                let i = choose|i: int| 0 <= i < t.len() && t[i] == n;
                assert(out[i + h.len()] == n);
            }
        }
    }
    assert forall|i: int, j: int| 0 <= i < j < out.len() implies out[i] != out[j] by {
        if j < h.len() {
            assert(out[i] == h[i] && out[j] == h[j]);
        } else if i >= h.len() {
            assert(out[i] == t[i - h.len()] && out[j] == t[j - h.len()]);
            assert(chars_lt(t[i - h.len()], t[j - h.len()]));
        } else {
            assert(out[i] == h[i] && out[j] == t[j - h.len()]);
            assert(h.contains(h[i]));
            lemma_plugins_in_contains(files, r, h[i]);
            assert(t.contains(t[j - h.len()]));
        }
    }
}

/// A plugin loaded in dependency order (before the name-ordered plugins that
/// sit on circular requirements) comes after every plugin that it requires.
pub proof fn lemma_taken_plugin_after_requirements(
    files: Seq<Seq<char>>,
    reqs: Seq<Seq<Seq<char>>>,
    r: Seq<Seq<char>>,
    out: Seq<Seq<char>>,
    a: int,
    i: int,
    j: int,
)
    requires
        resolves(files, reqs, r),
        load_order_from(files, r, out),
        0 <= a < plugins_in(files, r).len(),
        0 <= i < files.len(),
        i < reqs.len(),
        files[i] == out[a],
        0 <= j < reqs[i].len(),
        files.contains(reqs[i][j]),
    ensures
        exists|b: int| 0 <= b < a && out[b] == reqs[i][j],
{
    let h = plugins_in(files, r);
    let x = h[a];
    let q = reqs[i][j];
    assert(out.take(h.len() as int)[a] == out[a]);
    assert(x == out[a]);
    assert(h.contains(x));
    lemma_plugins_in_contains(files, r, x);
    let k = choose|k: int| 0 <= k < r.len() && r[k] == x;
    assert(ready(files, reqs, r.take(k), r[k]));
    assert(r.take(k).contains(q));
    let p = plugins_in(files, r.take(k));
    lemma_plugins_in_contains(files, r.take(k), q);
    lemma_plugins_in_contains(files, r.take(k), x);
    lemma_plugins_in_prefix(files, r, k);
    assert(p.contains(q));
    assert(!p.contains(x));
    if a < p.len() {
        assert(p[a] == h.take(p.len() as int)[a]);
        assert(p[a] == x);
    }
    let b = choose|b: int| 0 <= b < p.len() && p[b] == q;
    assert(h.take(p.len() as int)[b] == h[b]);
    assert(out.take(h.len() as int)[b] == out[b]);
    assert(out[b] == q);
}

/// `t` lists every node and puts each required name before every plugin that
/// requires it: the requirements hold no circle.
pub open spec fn requirements_come_first(
    files: Seq<Seq<char>>,
    reqs: Seq<Seq<Seq<char>>>,
    t: Seq<Seq<char>>,
) -> bool {
    &&& forall|n: Seq<char>| is_node(files, reqs, n) ==> t.contains(n)
    &&& forall|i: int, j: int, b: int|
        #![trigger reqs[i][j], t[b]]
        0 <= i < files.len() && i < reqs.len() && 0 <= j < reqs[i].len() && 0 <= b < t.len() && t[b]
            == files[i] ==> exists|c: int| 0 <= c < b && t[c] == reqs[i][j]
}

/// The nodes among the first `k` of `t` are all taken.
proof fn lemma_taken_upto(
    files: Seq<Seq<char>>,
    reqs: Seq<Seq<Seq<char>>>,
    t: Seq<Seq<char>>,
    r: Seq<Seq<char>>,
    k: int,
)
    requires
        requirements_come_first(files, reqs, t),
        resolves(files, reqs, r),
        0 <= k <= t.len(),
    ensures
        forall|c: int| 0 <= c < k && is_node(files, reqs, #[trigger] t[c]) ==> r.contains(t[c]),
    decreases k,
{
    if k > 0 {
        let m = k - 1;
        lemma_taken_upto(files, reqs, t, r, m);
        let x = t[m];
        if is_node(files, reqs, x) && !r.contains(x) {
            assert forall|i: int, j: int|
                0 <= i < files.len() && i < reqs.len() && files[i] == x && 0 <= j < reqs[i].len() implies r.contains(
                #[trigger] reqs[i][j],
            ) by {
                let q = reqs[i][j];
                let c = choose|c: int| 0 <= c < m && t[c] == q;
                assert(reqs[i].contains(q));
                assert(is_node(files, reqs, q));
                assert(is_node(files, reqs, t[c]));
            }
            assert(ready(files, reqs, r, x));
        }
    }
}

/// Without circular requirements every node is taken.
pub proof fn lemma_acyclic_all_taken(
    files: Seq<Seq<char>>,
    reqs: Seq<Seq<Seq<char>>>,
    t: Seq<Seq<char>>,
    r: Seq<Seq<char>>,
)
    requires
        requirements_come_first(files, reqs, t),
        resolves(files, reqs, r),
    ensures
        forall|n: Seq<char>| is_node(files, reqs, n) ==> r.contains(n),
{
    lemma_taken_upto(files, reqs, t, r, t.len() as int);
    assert forall|n: Seq<char>| is_node(files, reqs, n) implies r.contains(n) by {
        assert(t.contains(n));
        let c = choose|c: int| 0 <= c < t.len() && t[c] == n;
        assert(is_node(files, reqs, t[c]));
    }
}

/// Without circular requirements every plugin is loaded after every plugin
/// that it requires.
pub proof fn lemma_acyclic_requirements_first(
    files: Seq<Seq<char>>,
    reqs: Seq<Seq<Seq<char>>>,
    t: Seq<Seq<char>>,
    out: Seq<Seq<char>>,
    a: int,
    i: int,
    j: int,
)
    requires
        is_load_order(files, reqs, out),
        requirements_come_first(files, reqs, t),
        0 <= a < out.len(),
        0 <= i < files.len(),
        i < reqs.len(),
        files[i] == out[a],
        0 <= j < reqs[i].len(),
        files.contains(reqs[i][j]),
    ensures
        exists|b: int| 0 <= b < a && out[b] == reqs[i][j],
{
    let r = choose|r: Seq<Seq<char>>| #[trigger] resolves(files, reqs, r) && load_order_from(files, r, out);
    lemma_acyclic_all_taken(files, reqs, t, r);
    let h = plugins_in(files, r);
    let tail = out.skip(h.len() as int);
    if tail.len() > 0 {
        assert(tail.contains(tail[0]));
        assert(files.contains(tail[0]));
        assert(is_node(files, reqs, tail[0]));
    }
    assert(out.len() == h.len());
    lemma_taken_plugin_after_requirements(files, reqs, r, out, a, i, j);
}

/// Without circular requirements every plugin is loaded in dependency order:
/// nothing falls back to name order.
pub proof fn lemma_acyclic_no_fallback(
    files: Seq<Seq<char>>,
    reqs: Seq<Seq<Seq<char>>>,
    t: Seq<Seq<char>>,
    out: Seq<Seq<char>>,
    in_order: nat,
)
    requires
        is_load_plan(files, reqs, out, in_order),
        requirements_come_first(files, reqs, t),
    ensures
        in_order == out.len(),
{
    let r = choose|r: Seq<Seq<char>>|
        #[trigger] resolves(files, reqs, r) && load_order_from(files, r, out) && plugins_in(files, r).len()
            == in_order;
    lemma_acyclic_all_taken(files, reqs, t, r);
    let h = plugins_in(files, r);
    let tail = out.skip(h.len() as int);
    if tail.len() > 0 {
        assert(tail.contains(tail[0]));
        assert(is_node(files, reqs, tail[0]));
    }
}

/// Every plugin entry of the first listing, with its requirement list,
/// occurs in the second.
pub open spec fn listed_in(
    files1: Seq<Seq<char>>,
    reqs1: Seq<Seq<Seq<char>>>,
    files2: Seq<Seq<char>>,
    reqs2: Seq<Seq<Seq<char>>>,
) -> bool {
    forall|i: int|
        0 <= i < files1.len() && i < reqs1.len() ==> exists|j: int|
            0 <= j < files2.len() && j < reqs2.len() && #[trigger] files1[i] == files2[j] && reqs1[i] == reqs2[j]
}

/// Readiness in the first listing implies readiness in the second when every
/// entry of the second occurs in the first.
proof fn lemma_ready_transfer(
    files1: Seq<Seq<char>>,
    reqs1: Seq<Seq<Seq<char>>>,
    files2: Seq<Seq<char>>,
    reqs2: Seq<Seq<Seq<char>>>,
    taken: Seq<Seq<char>>,
    n: Seq<char>,
)
    requires
        files1.len() == reqs1.len(),
        files2.len() == reqs2.len(),
        listed_in(files1, reqs1, files2, reqs2),
        listed_in(files2, reqs2, files1, reqs1),
        ready(files1, reqs1, taken, n),
    ensures
        ready(files2, reqs2, taken, n),
{
    if files1.contains(n) {
        let i = choose|i: int| 0 <= i < files1.len() && files1[i] == n;
        let j = choose|j: int| 0 <= j < files2.len() && j < reqs2.len() && #[trigger] files1[i] == files2[j] && reqs1[i] == reqs2[j];
        assert(files2[j] == n);
    } else {
        let i = choose|i: int| 0 <= i < reqs1.len() && #[trigger] reqs1[i].contains(n);
        let j = choose|j: int| 0 <= j < files2.len() && j < reqs2.len() && #[trigger] files1[i] == files2[j] && reqs1[i] == reqs2[j];
        assert(reqs2[j].contains(n));
    }
    assert forall|j: int, k: int|
        0 <= j < files2.len() && j < reqs2.len() && files2[j] == n && 0 <= k < reqs2[j].len() implies taken.contains(
        #[trigger] reqs2[j][k],
    ) by {
        let i = choose|i: int| 0 <= i < files1.len() && i < reqs1.len() && #[trigger] files2[j] == files1[i] && reqs2[j] == reqs1[i];
        assert(reqs1[i][k] == reqs2[j][k]);
    }
}

/// The load order does not depend on the order in which the plugins are
/// listed (the order a directory listing happens to give): two listings of
/// the same plugin entries have the same load order.
pub proof fn lemma_load_order_ignores_listing_order(
    files1: Seq<Seq<char>>,
    reqs1: Seq<Seq<Seq<char>>>,
    files2: Seq<Seq<char>>,
    reqs2: Seq<Seq<Seq<char>>>,
    out1: Seq<Seq<char>>,
    out2: Seq<Seq<char>>,
)
    requires
        files1.len() == reqs1.len(),
        files2.len() == reqs2.len(),
        listed_in(files1, reqs1, files2, reqs2),
        listed_in(files2, reqs2, files1, reqs1),
        is_load_order(files1, reqs1, out1),
        is_load_order(files2, reqs2, out2),
    ensures
        out1 == out2,
{
    let r = choose|r: Seq<Seq<char>>| #[trigger] resolves(files1, reqs1, r) && load_order_from(files1, r, out1);
    assert forall|taken: Seq<Seq<char>>, n: Seq<char>|
        ready(files1, reqs1, taken, n) == #[trigger] ready(files2, reqs2, taken, n) by {
        if ready(files1, reqs1, taken, n) {
            lemma_ready_transfer(files1, reqs1, files2, reqs2, taken, n);
        }
        if ready(files2, reqs2, taken, n) {
            lemma_ready_transfer(files2, reqs2, files1, reqs1, taken, n);
        }
    }
    assert forall|n: Seq<char>| files1.contains(n) == #[trigger] files2.contains(n) by {
        if files1.contains(n) {
            let i = choose|i: int| 0 <= i < files1.len() && files1[i] == n;
            let j = choose|j: int| 0 <= j < files2.len() && j < reqs2.len() && #[trigger] files1[i] == files2[j] && reqs1[i] == reqs2[j];
            assert(files2[j] == n);
        }
        if files2.contains(n) {
            let j = choose|j: int| 0 <= j < files2.len() && files2[j] == n;
            let i = choose|i: int| 0 <= i < files1.len() && i < reqs1.len() && #[trigger] files2[j] == files1[i] && reqs2[j] == reqs1[i];
            assert(files1[i] == n);
        }
    }
    lemma_plugins_in_same_files(files1, files2, r);
    assert(resolves(files2, reqs2, r));
    assert(load_order_from(files2, r, out1));
    lemma_load_order_unique(files2, reqs2, out1, out2);
}

/// The plugins among `r` depend only on which names are plugins.
proof fn lemma_plugins_in_same_files(files1: Seq<Seq<char>>, files2: Seq<Seq<char>>, r: Seq<Seq<char>>)
    requires
        forall|n: Seq<char>| files1.contains(n) == #[trigger] files2.contains(n),
    ensures
        plugins_in(files1, r) == plugins_in(files2, r),
    decreases r.len(),
{
    if r.len() > 0 {
        lemma_plugins_in_same_files(files1, files2, r.drop_last());
        assert(files1.contains(r.last()) == files2.contains(r.last()));
    }
}

/// The plugins among `r` are all of `r` when every name in `r` is a plugin.
proof fn lemma_plugins_in_all(files: Seq<Seq<char>>, r: Seq<Seq<char>>)
    requires
        forall|k: int| 0 <= k < r.len() ==> files.contains(#[trigger] r[k]),
    ensures
        plugins_in(files, r) == r,
    decreases r.len(),
{
    if r.len() > 0 {
        let d = r.drop_last();
        assert forall|k: int| 0 <= k < d.len() implies files.contains(#[trigger] d[k]) by {
            assert(d[k] == r[k]);
        }
        lemma_plugins_in_all(files, d);
        assert(files.contains(r[r.len() - 1]));
        assert(d.push(r.last()) =~= r);
    }
}

/// Plugins that require nothing load in name order: the load order is the
/// plugin names, each once, strictly sorted by [`chars_le`].
pub proof fn lemma_independent_plugins_sorted(
    files: Seq<Seq<char>>,
    reqs: Seq<Seq<Seq<char>>>,
    out: Seq<Seq<char>>,
)
    requires
        is_load_order(files, reqs, out),
        forall|i: int| 0 <= i < reqs.len() ==> #[trigger] reqs[i].len() == 0,
    ensures
        strictly_sorted(out),
        forall|n: Seq<char>| out.contains(n) <==> files.contains(n),
{
    lemma_load_order_is_permutation(files, reqs, out);
    let r = choose|r: Seq<Seq<char>>| #[trigger] resolves(files, reqs, r) && load_order_from(files, r, out);
    lemma_resolution_distinct(files, reqs, r);
    assert forall|n: Seq<char>| is_node(files, reqs, n) implies files.contains(n) by {
        if !files.contains(n) {
            let i = choose|i: int| 0 <= i < reqs.len() && #[trigger] reqs[i].contains(n);
            assert(reqs[i].len() == 0);
        }
    }
    assert forall|k: int| 0 <= k < r.len() implies files.contains(#[trigger] r[k]) by {
        assert(ready(files, reqs, r.take(k), r[k]));
    }
    lemma_plugins_in_all(files, r);
    let h = plugins_in(files, r);
    let tail = out.skip(h.len() as int);
    if tail.len() > 0 {
        let n = tail[0];
        assert(tail.contains(n));
        assert(files.contains(n) && !r.contains(n));
        assert(ready(files, reqs, r, n));
    }
    assert(out =~= r);
    assert forall|i: int, j: int| 0 <= i < j < out.len() implies chars_lt(out[i], out[j]) by {
        let t = r.take(i);
        assert(!t.contains(r[j])) by {
            if t.contains(r[j]) {
                let m = choose|m: int| 0 <= m < t.len() && t[m] == r[j];
                assert(r[m] == r[j]);
            }
        }
        assert(ready(files, reqs, t, r[j]));
        assert(chars_le(r[i], r[j]));
        assert(r[i] != r[j]);
    }
}

} // verus!
