//! Which files in the plugin directory are plugin scripts, and the Lisp
//! expression that loads one.

use vstd::prelude::*;
use crate::text::{push_char, push_chars, chars_of};

verus! {

/// `s` ends with `p`.
pub open spec fn ends_with(s: Seq<char>, p: Seq<char>) -> bool {
    p.len() <= s.len() && s.skip(s.len() - p.len()) == p
}

/// A file named `name` has the extension `scm` the way `Path::extension`
/// reads it: the text after the last `.`, where that `.` is not the first
/// character of the name.
pub open spec fn is_plugin_file(name: Seq<char>) -> bool {
    name.len() > 4 && ends_with(name, seq!['.', 's', 'c', 'm'])
}

/// A name is a plugin script exactly when it is a non-empty stem followed by
/// `.scm`.
pub proof fn lemma_plugin_file_names(stem: Seq<char>, name: Seq<char>)
    ensures
        stem.len() >= 1 ==> is_plugin_file(stem + seq!['.', 's', 'c', 'm']),
        is_plugin_file(name) <==> (name.len() >= 5 && name == name.take(name.len() - 4) + seq![
            '.',
            's',
            'c',
            'm',
        ]),
{
    let ext = seq!['.', 's', 'c', 'm'];
    let n = stem + ext;
    assert(n.skip(n.len() - 4) =~= ext);
    if name.len() >= 5 {
        assert(name =~= name.take(name.len() - 4) + name.skip(name.len() - 4));
        if name == name.take(name.len() - 4) + ext {
            assert(name.skip(name.len() - 4) =~= ext);
        }
    }
}

/// Whether a directory entry named `name` is a plugin script.
pub fn is_plugin_file_name(name: &str) -> (r: bool)
    ensures
        r == is_plugin_file(name@),
{
    let c = chars_of(name);
    let n = c.len();
    if n <= 4 {
        return false;
    }
    let r = c[n - 4] == '.' && c[n - 3] == 's' && c[n - 2] == 'c' && c[n - 1] == 'm';
    let ghost tail = c@.skip(n - 4);
    assert(tail[0] == c@[n - 4] && tail[1] == c@[n - 3] && tail[2] == c@[n - 2] && tail[3] == c@[n - 1]);
    if r {
        assert(tail =~= seq!['.', 's', 'c', 'm']);
    }
    r
}

/// `path` with every backslash turned into a slash.
pub open spec fn forward_slashes(path: Seq<char>) -> Seq<char> {
    path.map_values(|c: char| if c == '\\' { '/' } else { c })
}

/// Turning backslashes into slashes keeps the length and every other
/// character, whatever else the path holds, and leaves no backslash.
pub proof fn lemma_forward_slashes(path: Seq<char>)
    ensures
        forward_slashes(path).len() == path.len(),
        forall|k: int|
            0 <= k < path.len() ==> #[trigger] forward_slashes(path)[k] == (if path[k] == '\\' {
                '/'
            } else {
                path[k]
            }),
        !forward_slashes(path).contains('\\'),
{
    let f = forward_slashes(path);
    if f.contains('\\') {
        let k = choose|k: int| 0 <= k < f.len() && f[k] == '\\';
        assert(f[k] == (if path[k] == '\\' { '/' } else { path[k] }));
    }
}

/// `(load "<path>")`, the path written between quotes as it is.
pub open spec fn load_call(path: Seq<char>) -> Seq<char> {
    seq!['(', 'l', 'o', 'a', 'd', ' ', '"'] + path + seq!['"', ')']
}

/// `path` with every backslash turned into a slash.
pub fn forward_slash_path(path: &str) -> (out: String)
    ensures
        out@ == forward_slashes(path@),
{
    let mut s = String::new();
    let p = chars_of(path);
    let mut i: usize = 0;
    while i < p.len()
        invariant
            i <= p.len(),
            s@ == forward_slashes(p@.take(i as int)),
        decreases p.len() - i,
    {
        let c = p[i];
        if c == '\\' {
            push_char(&mut s, '/');
        } else {
            push_char(&mut s, c);
        }
        assert(forward_slashes(p@.take(i + 1)) =~= forward_slashes(p@.take(i as int)).push(
            if c == '\\' { '/' } else { c },
        ));
        i = i + 1;
    }
    assert(p@.take(p.len() as int) =~= p@);
    s
}

/// The Lisp expression that loads the plugin at `path`, with the path's
/// separators written as forward slashes.
pub fn load_expression(path: &str) -> (expr: String)
    ensures
        expr@ == load_call(forward_slashes(path@)),
{
    let mut s = String::new();
    let head = chars_of("(load \"");
    proof {
        reveal_strlit("(load \"");
    }
    push_chars(&mut s, &head, 0, head.len());
    assert(head@.subrange(0, head.len() as int) =~= head@);
    let normalized = forward_slash_path(path);
    let p = chars_of(normalized.as_str());
    push_chars(&mut s, &p, 0, p.len());
    assert(p@.subrange(0, p.len() as int) =~= p@);
    push_char(&mut s, '"');
    push_char(&mut s, ')');
    assert(s@ =~= load_call(forward_slashes(path@)));
    s
}

} // verus!
