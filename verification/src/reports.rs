//! The console lines that the OSC receiver and the Lisp print host function
//! write.

use vstd::prelude::*;
use crate::text::{push_char, push_chars, chars_of};
use crate::osc::{decimal_digits, push_decimal};
use crate::requirements::string_views;

verus! {

/// The line for argument number `i`, shown as `text`.
pub open spec fn argument_line(i: nat, text: Seq<char>) -> Seq<char> {
    "  Arg "@ + decimal_digits(i) + ": "@ + text + seq!['\n']
}

/// The lines for the arguments shown as `texts`, numbered from 0.
pub open spec fn argument_lines(texts: Seq<Seq<char>>) -> Seq<char>
    decreases texts.len(),
{
    if texts.len() == 0 {
        seq![]
    } else {
        argument_lines(texts.drop_last()) + argument_line((texts.len() - 1) as nat, texts.last())
    }
}

/// The report of a message: its address on the first line, then one line per
/// argument.
pub open spec fn message_report_text(address: Seq<char>, arg_texts: Seq<Seq<char>>) -> Seq<char> {
    "OSC address: "@ + address + seq!['\n'] + argument_lines(arg_texts)
}

/// Appends all of `s`.
fn push_str(out: &mut String, s: &str)
    ensures
        final(out)@ == old(out)@ + s@,
{
    let c = chars_of(s);
    push_chars(out, &c, 0, c.len());
    assert(c@.subrange(0, c.len() as int) =~= c@);
}

/// The report of a message with address `address` whose arguments are shown
/// as `arg_texts`.
pub fn message_report(address: &str, arg_texts: &Vec<String>) -> (out: String)
    ensures
        out@ == message_report_text(address@, string_views(arg_texts@)),
{
    let mut out = String::new();
    push_str(&mut out, "OSC address: ");
    push_str(&mut out, address);
    push_char(&mut out, '\n');
    let ghost head = out@;
    let ghost texts = string_views(arg_texts@);
    let mut i: usize = 0;
    assert(texts.take(0) =~= Seq::<Seq<char>>::empty());
    assert(head + argument_lines(texts.take(0)) =~= head);
    while i < arg_texts.len()
        invariant
            i <= arg_texts.len(),
            texts == string_views(arg_texts@),
            out@ == head + argument_lines(texts.take(i as int)),
        decreases arg_texts.len() - i,
    {
        let ghost before = out@;
        push_str(&mut out, "  Arg ");
        push_decimal(&mut out, i as u64);
        push_str(&mut out, ": ");
        push_str(&mut out, arg_texts[i].as_str());
        push_char(&mut out, '\n');
        proof {
            let t = texts.take(i + 1);
            assert(t.drop_last() =~= texts.take(i as int));
            assert(t.last() == arg_texts@[i as int]@);
            assert(out@ =~= before + argument_line(i as nat, arg_texts@[i as int]@));
            assert(out@ =~= head + argument_lines(t));
        }
        i = i + 1;
    }
    assert(texts.take(arg_texts.len() as int) =~= texts);
    assert(out@ =~= message_report_text(address@, texts));
    out
}

/// The report of a bundle shown as `bundle_text`.
pub fn bundle_report(bundle_text: &str) -> (out: String)
    ensures
        out@ == "OSC Bundle: "@ + bundle_text@ + seq!['\n'],
{
    let mut out = String::new();
    push_str(&mut out, "OSC Bundle: ");
    push_str(&mut out, bundle_text);
    push_char(&mut out, '\n');
    assert(out@ =~= "OSC Bundle: "@ + bundle_text@ + seq!['\n']);
    out
}

/// The line that the Lisp print host function writes for `text`.
pub fn lisp_says_line(text: &str) -> (out: String)
    ensures
        out@ == "[Rust] Lisp says: "@ + text@ + seq!['\n'],
{
    let mut out = String::new();
    push_str(&mut out, "[Rust] Lisp says: ");
    push_str(&mut out, text);
    push_char(&mut out, '\n');
    assert(out@ =~= "[Rust] Lisp says: "@ + text@ + seq!['\n']);
    out
}

} // verus!
