//! Reading the `;; @require: <name>` header lines of a plugin script.
//!
//! A plugin declares that it must be loaded after another plugin by a line
//! that starts with `;; @require:`; the rest of the line, with every leading
//! repetition of that marker removed and surrounding whitespace trimmed, names
//! the plugin it needs.

use vstd::prelude::*;


verus! {

/// The Unicode `White_Space` property, which `str::trim` removes.
pub open spec fn is_white_space(c: char) -> bool {
    ||| ('\u{9}' <= c && c <= '\u{d}')
    ||| c == ' '
    ||| c == '\u{85}'
    ||| c == '\u{a0}'
    ||| c == '\u{1680}'
    ||| ('\u{2000}' <= c && c <= '\u{200a}')
    ||| c == '\u{2028}'
    ||| c == '\u{2029}'
    ||| c == '\u{202f}'
    ||| c == '\u{205f}'
    ||| c == '\u{3000}'
}

/// Whether `c` is Unicode whitespace.
pub fn is_white_space_exec(c: char) -> (r: bool)
    ensures
        r == is_white_space(c),
{
    ('\u{9}' <= c && c <= '\u{d}') || c == ' ' || c == '\u{85}' || c == '\u{a0}' || c == '\u{1680}'
        || ('\u{2000}' <= c && c <= '\u{200a}') || c == '\u{2028}' || c == '\u{2029}' || c
        == '\u{202f}' || c == '\u{205f}' || c == '\u{3000}'
}

/// `s` without its leading whitespace.
pub open spec fn trim_start(s: Seq<char>) -> Seq<char>
    decreases s.len(),
{
    if s.len() > 0 && is_white_space(s[0]) {
        trim_start(s.drop_first())
    } else {
        s
    }
}

/// `s` without its trailing whitespace.
pub open spec fn trim_end(s: Seq<char>) -> Seq<char>
    decreases s.len(),
{
    if s.len() > 0 && is_white_space(s.last()) {
        trim_end(s.drop_last())
    } else {
        s
    }
}

/// `s` without leading and trailing whitespace (`str::trim`).
pub open spec fn trim(s: Seq<char>) -> Seq<char> {
    trim_end(trim_start(s))
}

/// Whether `s` begins with `p`.
pub open spec fn starts_with(s: Seq<char>, p: Seq<char>) -> bool {
    p.len() <= s.len() && s.take(p.len() as int) == p
}

/// `s` with every leading repetition of a non-empty `p` removed
/// (`str::trim_start_matches`).
pub open spec fn strip_prefixes(s: Seq<char>, p: Seq<char>) -> Seq<char>
    decreases s.len(),
{
    if p.len() > 0 && starts_with(s, p) {
        strip_prefixes(s.skip(p.len() as int), p)
    } else {
        s
    }
}

/// The marker that opens a requirement line.
pub open spec fn require_marker() -> Seq<char> {
    seq![';', ';', ' ', '@', 'r', 'e', 'q', 'u', 'i', 'r', 'e', ':']
}

/// The plugin name that a requirement line names.
pub open spec fn requirement_value(line: Seq<char>) -> Seq<char> {
    trim(strip_prefixes(line, require_marker()))
}

/// The pieces of `s` between line feeds, the first of them prefixed by `cur`.
pub open spec fn split_lines_from(s: Seq<char>, cur: Seq<char>) -> Seq<Seq<char>>
    decreases s.len(),
{
    if s.len() == 0 {
        seq![cur]
    } else if s[0] == '\n' {
        seq![cur] + split_lines_from(s.drop_first(), seq![])
    } else {
        split_lines_from(s.drop_first(), cur.push(s[0]))
    }
}

/// The lines of `s`: the pieces between line feeds. Unlike `str::lines`, a
/// final empty piece after a trailing line feed is kept and a carriage return
/// before a line feed stays in its line; neither changes which lines are
/// requirement lines, nor, after trimming, what they name.
pub open spec fn split_lines(s: Seq<char>) -> Seq<Seq<char>> {
    split_lines_from(s, seq![])
}

/// The names that the requirement lines among `lines` give, in order.
pub open spec fn requirement_values(lines: Seq<Seq<char>>) -> Seq<Seq<char>>
    decreases lines.len(),
{
    if lines.len() == 0 {
        seq![]
    } else if starts_with(lines.last(), require_marker()) {
        requirement_values(lines.drop_last()).push(requirement_value(lines.last()))
    } else {
        requirement_values(lines.drop_last())
    }
}

/// The plugins that a script with text `content` requires, in the order of
/// their lines.
pub open spec fn requirements_of(content: Seq<char>) -> Seq<Seq<char>> {
    requirement_values(split_lines(content))
}

/// The views of a sequence of character vectors.
pub open spec fn char_vec_views(v: Seq<Vec<char>>) -> Seq<Seq<char>> {
    v.map_values(|x: Vec<char>| x@)
}

/// The views of a sequence of strings.
pub open spec fn string_views(v: Seq<String>) -> Seq<Seq<char>> {
    v.map_values(|x: String| x@)
}

/// What [`trim_start`] leaves is empty or starts with a non-whitespace character.
proof fn lemma_trim_start_result(s: Seq<char>)
    ensures
        trim_start(s).len() > 0 ==> !is_white_space(trim_start(s)[0]),
    decreases s.len(),
{
    if s.len() > 0 && is_white_space(s[0]) {
        lemma_trim_start_result(s.drop_first());
    }
}

/// What [`trim_end`] leaves is empty or a prefix of `s` ending in a
/// non-whitespace character.
proof fn lemma_trim_end_result(s: Seq<char>)
    ensures
        trim_end(s).len() <= s.len(),
        trim_end(s) == s.take(trim_end(s).len() as int),
        trim_end(s).len() > 0 ==> !is_white_space(trim_end(s).last()),
    decreases s.len(),
{
    if s.len() > 0 && is_white_space(s.last()) {
        lemma_trim_end_result(s.drop_last());
        let t = trim_end(s.drop_last());
        assert(s.drop_last().take(t.len() as int) =~= s.take(t.len() as int));
    } else {
        assert(s.take(s.len() as int) =~= s);
    }
}

/// A trimmed text neither begins nor ends with whitespace.
pub proof fn lemma_trim_has_no_outer_whitespace(s: Seq<char>)
    ensures
        trim(s).len() > 0 ==> !is_white_space(trim(s)[0]) && !is_white_space(trim(s).last()),
{
    lemma_trim_start_result(s);
    lemma_trim_end_result(trim_start(s));
    let t = trim(s);
    if t.len() > 0 {
        assert(t[0] == trim_start(s).take(t.len() as int)[0]);
    }
}

/// `s` neither begins nor ends with whitespace.
pub open spec fn is_trimmed(s: Seq<char>) -> bool {
    s.len() > 0 ==> !is_white_space(s[0]) && !is_white_space(s.last())
}

/// Every name that [`requirement_values`] gives is trimmed.
proof fn lemma_requirement_values_trimmed(lines: Seq<Seq<char>>)
    ensures
        forall|k: int| 0 <= k < requirement_values(lines).len() ==> is_trimmed(#[trigger] requirement_values(lines)[k]),
    decreases lines.len(),
{
    if lines.len() > 0 {
        lemma_requirement_values_trimmed(lines.drop_last());
        let prev = requirement_values(lines.drop_last());
        let cur = requirement_values(lines);
        if starts_with(lines.last(), require_marker()) {
            lemma_trim_has_no_outer_whitespace(strip_prefixes(lines.last(), require_marker()));
            assert forall|k: int| 0 <= k < cur.len() implies is_trimmed(#[trigger] cur[k]) by {
                if k < prev.len() {
                    assert(cur[k] == prev[k]);
                }
            }
        }
    }
}

/// No name that a script requires begins or ends with whitespace.
pub proof fn lemma_requirements_trimmed(content: Seq<char>)
    ensures
        forall|k: int| 0 <= k < requirements_of(content).len() ==> is_trimmed(#[trigger] requirements_of(content)[k]),
{
    lemma_requirement_values_trimmed(split_lines(content));
}

/// The requirement marker as characters.
fn require_marker_exec() -> (m: Vec<char>)
    ensures
        m@ == require_marker(),
{
    let m = vec![';', ';', ' ', '@', 'r', 'e', 'q', 'u', 'i', 'r', 'e', ':'];
    assert(m@ =~= require_marker());
    m
}

/// Whether `v[lo..hi]` begins with `p`.
fn starts_with_at(v: &Vec<char>, lo: usize, hi: usize, p: &Vec<char>) -> (r: bool)
    requires
        lo <= hi <= v.len(),
    ensures
        r == starts_with(v@.subrange(lo as int, hi as int), p@),
{
    if p.len() > hi - lo {
        return false;
    }
    let mut k: usize = 0;
    while k < p.len()
        invariant
            p.len() <= hi - lo,
            lo <= hi <= v.len(),
            k <= p.len(),
            forall|j: int| 0 <= j < k ==> v@[lo + j] == p@[j],
        decreases p.len() - k,
    {
        if v[lo + k] != p[k] {
            assert(v@.subrange(lo as int, hi as int).take(p.len() as int)[k as int] != p@[k as int]);
            return false;
        }
        k = k + 1;
    }
    assert(v@.subrange(lo as int, hi as int).take(p.len() as int) =~= p@);
    true
}

/// The start of `v[lo..hi]` once every leading repetition of `p` is removed.
fn strip_prefixes_at(v: &Vec<char>, lo: usize, hi: usize, p: &Vec<char>) -> (r: usize)
    requires
        lo <= hi <= v.len(),
        p.len() > 0,
    ensures
        lo <= r <= hi,
        v@.subrange(r as int, hi as int) == strip_prefixes(v@.subrange(lo as int, hi as int), p@),
{
    let mut s: usize = lo;
    while starts_with_at(v, s, hi, p)
        invariant
            lo <= s <= hi <= v.len(),
            p.len() > 0,
            strip_prefixes(v@.subrange(s as int, hi as int), p@) == strip_prefixes(
                v@.subrange(lo as int, hi as int),
                p@,
            ),
        decreases hi - s,
    {
        assert(v@.subrange(s as int, hi as int).skip(p.len() as int) =~= v@.subrange(
            s + p.len(),
            hi as int,
        ));
        s = s + p.len();
    }
    s
}

/// The bounds of `v[lo..hi]` once leading and trailing whitespace is removed.
fn trim_at(v: &Vec<char>, lo: usize, hi: usize) -> (r: (usize, usize))
    requires
        lo <= hi <= v.len(),
    ensures
        lo <= r.0 <= r.1 <= hi,
        v@.subrange(r.0 as int, r.1 as int) == trim(v@.subrange(lo as int, hi as int)),
{
    let mut s: usize = lo;
    while s < hi && is_white_space_exec(v[s])
        invariant
            lo <= s <= hi <= v.len(),
            trim_start(v@.subrange(s as int, hi as int)) == trim_start(
                v@.subrange(lo as int, hi as int),
            ),
        decreases hi - s,
    {
        assert(v@.subrange(s as int, hi as int).drop_first() =~= v@.subrange(s + 1, hi as int));
        s = s + 1;
    }
    let mut e: usize = hi;
    while e > s && is_white_space_exec(v[e - 1])
        invariant
            lo <= s <= e <= hi <= v.len(),
            trim_end(v@.subrange(s as int, e as int)) == trim(v@.subrange(lo as int, hi as int)),
        decreases e - s,
    {
        assert(v@.subrange(s as int, e as int).drop_last() =~= v@.subrange(s as int, e - 1));
        e = e - 1;
    }
    (s, e)
}

/// The characters `v[lo..hi]`.
fn chars_between(v: &Vec<char>, lo: usize, hi: usize) -> (r: Vec<char>)
    requires
        lo <= hi <= v.len(),
    ensures
        r@ == v@.subrange(lo as int, hi as int),
{
    let mut r: Vec<char> = Vec::new();
    let mut i: usize = lo;
    while i < hi
        invariant
            lo <= i <= hi <= v.len(),
            r@ == v@.subrange(lo as int, i as int),
        decreases hi - i,
    {
        r.push(v[i]);
        assert(v@.subrange(lo as int, i + 1) =~= v@.subrange(lo as int, i as int).push(v@[i as int]));
        i = i + 1;
    }
    r
}

/// The names that the requirement lines of a script give, in order, as
/// character vectors.
pub fn requirement_chars(content: &Vec<char>) -> (out: Vec<Vec<char>>)
    ensures
        char_vec_views(out@) == requirements_of(content@),
{
    let marker = require_marker_exec();
    let mut out: Vec<Vec<char>> = Vec::new();
    let mut ls: usize = 0;
    let mut i: usize = 0;
    let ghost mut done: Seq<Seq<char>> = seq![];
    assert(content@.skip(0) =~= content@);
    assert(content@.subrange(0, 0) =~= Seq::<char>::empty());
    while i < content.len()
        invariant
            ls <= i <= content.len(),
            marker@ == require_marker(),
            done + split_lines_from(content@.skip(i as int), content@.subrange(ls as int, i as int))
                == split_lines(content@),
            char_vec_views(out@) == requirement_values(done),
        decreases content.len() - i,
    {
        let ghost rest = content@.skip(i as int);
        let ghost cur = content@.subrange(ls as int, i as int);
        assert(rest.drop_first() =~= content@.skip(i + 1));
        if content[i] == '\n' {
            let ghost line = cur;
            if starts_with_at(content, ls, i, &marker) {
                let start = strip_prefixes_at(content, ls, i, &marker);
                let (a, b) = trim_at(content, start, i);
                let value = chars_between(content, a, b);
                out.push(value);
            }
            proof {
                assert(done.push(line).drop_last() =~= done);
                assert(char_vec_views(out@) =~= requirement_values(done.push(line)));
                assert(seq![line] + split_lines_from(content@.skip(i + 1), seq![]) == split_lines_from(
                    rest,
                    cur,
                ));
                assert(content@.subrange(i + 1, i + 1) =~= Seq::<char>::empty());
                assert(done + (seq![line] + split_lines_from(content@.skip(i + 1), seq![]))
                    =~= done.push(line) + split_lines_from(content@.skip(i + 1), seq![]));
                done = done.push(line);
            }
            ls = i + 1;
        } else {
            assert(cur.push(content@[i as int]) =~= content@.subrange(ls as int, i + 1));
        }
        i = i + 1;
    }
    let ghost line = content@.subrange(ls as int, i as int);
    if starts_with_at(content, ls, i, &marker) {
        let start = strip_prefixes_at(content, ls, i, &marker);
        let (a, b) = trim_at(content, start, i);
        let value = chars_between(content, a, b);
        out.push(value);
    }
    proof {
        assert(content@.skip(i as int) =~= Seq::<char>::empty());
        assert(done.push(line) =~= split_lines(content@));
        assert(done.push(line).drop_last() =~= done);
        assert(char_vec_views(out@) =~= requirement_values(done.push(line)));
    }
    out
}

/// The names of the plugins that a script requires, in the order of its
/// `;; @require:` lines.
pub fn parse_requirements(content: &str) -> (out: Vec<String>)
    ensures
        string_views(out@) == requirements_of(content@),
{
    let chars = crate::text::chars_of(content);
    let values = requirement_chars(&chars);
    let mut out: Vec<String> = Vec::new();
    let mut i: usize = 0;
    while i < values.len()
        invariant
            i <= values.len(),
            string_views(out@) == char_vec_views(values@).take(i as int),
        decreases values.len() - i,
    {
        let s = crate::text::string_of(&values[i]);
        let ghost before = out@;
        out.push(s);
        assert(out@ == before.push(s));
        assert(string_views(out@) =~= string_views(before).push(values@[i as int]@));
        assert(string_views(out@) =~= char_vec_views(values@).take(i + 1));
        i = i + 1;
    }
    assert(char_vec_views(values@).take(values.len() as int) =~= char_vec_views(values@));
    out
}

} // verus!
