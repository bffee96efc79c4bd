//! OSC messages arriving over UDP, and the Lisp expression that hands each
//! one to the script's `on-osc-event` handler.

use vstd::prelude::*;
use crate::text::{push_char, push_chars, chars_of};
use crate::requirements::string_views;

verus! {

/// The longest datagram decoded: `rosc::decoder::MTU`, the most the engine
/// reads at once. Arrays in a message nest one level per type-tag byte, and
/// both the conversion of a decoded packet and the dropping of its model
/// recurse once per level, so the bound also bounds that depth.
pub const MAX_DATAGRAM: usize = 1536;

/// An argument of an OSC message, as far as the event handler reads it: an
/// integer, a float (held as the bit pattern of its 32-bit IEEE 754 value),
/// or any other kind of argument.
#[derive(Clone, Copy, Debug, PartialEq, Eq, Structural)]
pub enum OscArgument {
    Int(i32),
    Float(u32),
    Other,
}

/// An OSC message as the event handler reads it: its address pattern and its
/// arguments.
#[derive(Debug)]
pub struct OscEvent {
    pub address: String,
    pub arguments: Vec<OscArgument>,
}

/// An argument of a decoded OSC message, every kind of it, as plain values.
/// Floats are held as the bit patterns of their IEEE 754 values; a time tag
/// as its seconds and fraction; a colour as red, green, blue and alpha; a MIDI
/// message as port, status and its two data bytes.
#[derive(Debug)]
pub enum ArgumentModel {
    Int(i32),
    Float(u32),
    Str(String),
    Blob(Vec<u8>),
    Time(u32, u32),
    Long(i64),
    Double(u64),
    Char(char),
    Color(u8, u8, u8, u8),
    Midi(u8, u8, u8, u8),
    Bool(bool),
    Array(Vec<ArgumentModel>),
    Nil,
    Inf,
}

/// A decoded OSC message: its address pattern and its arguments.
#[derive(Debug)]
pub struct MessageModel {
    pub address: String,
    pub arguments: Vec<ArgumentModel>,
}

/// A decoded OSC packet: a message, or a bundle with its time tag (seconds
/// and fraction) and the packets it holds.
#[derive(Debug)]
pub enum PacketModel {
    Message(MessageModel),
    Bundle(u32, u32, Vec<PacketModel>),
}

#[verifier::external_type_specification]
#[verifier::external_body]
pub struct ExOscError(rosc::OscError);

#[verifier::external_type_specification]
#[verifier::external_body]
pub struct ExOscType(rosc::OscType);

#[verifier::external_type_specification]
#[verifier::external_body]
pub struct ExOscPacket(rosc::OscPacket);

/// Converts a `rosc` argument field for field; nothing is stated. The
/// fourteen kinds are shared between this function and
/// [`model_of_compound_argument`] so that each body stays short: this one
/// converts the ten kinds whose payload is a single value and hands the
/// time tag, colour, MIDI and array kinds to the other.
#[verifier::external_body]
fn model_of_argument(a: rosc::OscType) -> ArgumentModel {
    match a {
        rosc::OscType::Int(i) => ArgumentModel::Int(i),
        rosc::OscType::Float(f) => ArgumentModel::Float(f.to_bits()),
        rosc::OscType::String(t) => ArgumentModel::Str(t),
        rosc::OscType::Blob(b) => ArgumentModel::Blob(b),
        rosc::OscType::Long(l) => ArgumentModel::Long(l),
        rosc::OscType::Double(d) => ArgumentModel::Double(d.to_bits()),
        rosc::OscType::Char(c) => ArgumentModel::Char(c),
        rosc::OscType::Bool(b) => ArgumentModel::Bool(b),
        rosc::OscType::Nil => ArgumentModel::Nil,
        rosc::OscType::Inf => ArgumentModel::Inf,
        compound => model_of_compound_argument(compound),
    }
}

/// Converts a `rosc` time tag, colour, MIDI or array argument field for
/// field; nothing is stated. [`model_of_argument`] hands it only these four
/// kinds; any other goes back to that function, which converts it directly.
#[verifier::external_body]
fn model_of_compound_argument(a: rosc::OscType) -> ArgumentModel {
    match a {
        rosc::OscType::Time(t) => ArgumentModel::Time(t.seconds, t.fractional),
        rosc::OscType::Color(c) => ArgumentModel::Color(c.red, c.green, c.blue, c.alpha),
        rosc::OscType::Midi(m) => ArgumentModel::Midi(m.port, m.status, m.data1, m.data2),
        rosc::OscType::Array(x) => ArgumentModel::Array(x.content.into_iter().map(model_of_argument).collect()),
        single => model_of_argument(single),
    }
}

/// Converts a `rosc` packet field for field; nothing is stated.
#[verifier::external_body]
fn model_of_packet(p: rosc::OscPacket) -> PacketModel {
    match p {
        rosc::OscPacket::Message(m) => PacketModel::Message(MessageModel {
            address: m.addr,
            arguments: m.args.into_iter().map(model_of_argument).collect(),
        }),
        rosc::OscPacket::Bundle(b) => PacketModel::Bundle(
            b.timetag.seconds,
            b.timetag.fractional,
            b.content.into_iter().map(model_of_packet).collect(),
        ),
    }
}

/// What `rosc::decoder::decode_udp` decodes the datagram `bytes` to, as a
/// [`PacketModel`], or `None` where it reports an error.
pub uninterp spec fn decoded_model(bytes: Seq<u8>) -> Option<PacketModel>;

/// Decodes a UDP datagram with `rosc::decoder::decode_udp` and converts the
/// packet to a [`PacketModel`]. The result, a function of the bytes alone, is
/// named [`decoded_model`]; the bytes after the packet are dropped.
#[verifier::external_body]
fn decode_udp_model(bytes: &[u8]) -> (res: Result<PacketModel, rosc::OscError>)
    requires
        bytes@.len() <= MAX_DATAGRAM,
    ensures
        res matches Ok(p) ==> decoded_model(bytes@) == Some(p),
        res is Err ==> decoded_model(bytes@) is None,
{
    match rosc::decoder::decode_udp(bytes) {
        Ok((_, p)) => Ok(model_of_packet(p)),
        Err(e) => Err(e),
    }
}

/// A datagram that does not decode, with the decoder's own error.
#[derive(Debug)]
pub struct OscDecodeError {
    pub error: rosc::OscError,
}

/// The OSC packet in the datagram `bytes`, every argument kept; an error,
/// carrying the decoder's, where the datagram does not decode.
pub fn decode_datagram(bytes: &[u8]) -> (res: Result<PacketModel, OscDecodeError>)
    requires
        bytes@.len() <= MAX_DATAGRAM,
    ensures
        match res {
            Ok(p) => decoded_model(bytes@) == Some(p),
            Err(_) => decoded_model(bytes@) is None,
        },
{
    match decode_udp_model(bytes) {
        Ok(p) => Ok(p),
        Err(e) => Err(OscDecodeError { error: e }),
    }
}

/// How the event handler reads an argument.
pub open spec fn handler_argument(a: ArgumentModel) -> OscArgument {
    match a {
        ArgumentModel::Int(i) => OscArgument::Int(i),
        ArgumentModel::Float(b) => OscArgument::Float(b),
        _ => OscArgument::Other,
    }
}

/// `event` is the message `m` as the event handler reads it.
pub open spec fn event_of_message(event: OscEvent, m: MessageModel) -> bool {
    &&& event.address@ == m.address@
    &&& event.arguments@ == m.arguments@.map_values(|a: ArgumentModel| handler_argument(a))
}

/// The handler sees a message's arguments one for one: an integer as that
/// integer, a float as its bit pattern, every other kind as `Other`.
pub proof fn lemma_event_keeps_arguments(event: OscEvent, m: MessageModel)
    requires
        event_of_message(event, m),
    ensures
        event.address@ == m.address@,
        event.arguments@.len() == m.arguments@.len(),
        forall|k: int|
            0 <= k < m.arguments@.len() ==> match m.arguments@[k] {
                ArgumentModel::Int(i) => #[trigger] event.arguments@[k] == OscArgument::Int(i),
                ArgumentModel::Float(b) => event.arguments@[k] == OscArgument::Float(b),
                _ => event.arguments@[k] == OscArgument::Other,
            },
{
}

/// `event` is the message that the decoded datagram `p` holds, if it holds one.
pub open spec fn event_of(event: Option<OscEvent>, p: Option<PacketModel>) -> bool {
    match p {
        Some(PacketModel::Message(m)) => event matches Some(e) && event_of_message(e, m),
        _ => event is None,
    }
}

/// How the event handler reads an argument.
fn handler_argument_of(a: &ArgumentModel) -> (r: OscArgument)
    ensures
        r == handler_argument(*a),
{
    match a {
        ArgumentModel::Int(i) => OscArgument::Int(*i),
        ArgumentModel::Float(b) => OscArgument::Float(*b),
        _ => OscArgument::Other,
    }
}

/// The message that a decoded packet holds, as the event handler reads it;
/// `None` for a bundle.
pub fn event_of_packet(packet: PacketModel) -> (event: Option<OscEvent>)
    ensures
        event_of(event, Some(packet)),
{
    match packet {
        PacketModel::Message(m) => {
            let mut arguments: Vec<OscArgument> = Vec::new();
            let mut k: usize = 0;
            while k < m.arguments.len()
                invariant
                    k <= m.arguments.len(),
                    arguments@ == m.arguments@.take(k as int).map_values(
                        |a: ArgumentModel| handler_argument(a),
                    ),
                decreases m.arguments.len() - k,
            {
                let x = handler_argument_of(&m.arguments[k]);
                arguments.push(x);
                assert(m.arguments@.take(k + 1).map_values(|a: ArgumentModel| handler_argument(a))
                    =~= m.arguments@.take(k as int).map_values(|a: ArgumentModel| handler_argument(a)).push(x));
                k = k + 1;
            }
            assert(m.arguments@.take(m.arguments.len() as int) =~= m.arguments@);
            Some(OscEvent { address: m.address, arguments })
        },
        PacketModel::Bundle(..) => None,
    }
}

/// The OSC message in the datagram `bytes`, as the event handler reads it;
/// `None` where the datagram does not decode or holds a bundle.
pub fn decode_event(bytes: &[u8]) -> (event: Option<OscEvent>)
    requires
        bytes@.len() <= MAX_DATAGRAM,
    ensures
        event_of(event, decoded_model(bytes@)),
{
    match decode_datagram(bytes) {
        Ok(packet) => event_of_packet(packet),
        Err(_) => None,
    }
}

// ---------------------------------------------------------------------------
// Decimal rendering
// ---------------------------------------------------------------------------

/// The decimal digit character for `d`.
pub open spec fn digit_char(d: int) -> char {
    (d + 48) as char
}

/// The decimal digits of `n`, without leading zeros.
pub open spec fn decimal_digits(n: nat) -> Seq<char>
    decreases n,
{
    if n < 10 {
        seq![digit_char(n as int)]
    } else {
        decimal_digits(n / 10).push(digit_char((n % 10) as int))
    }
}

/// The decimal text of `i`, with a leading `-` when it is negative
/// (`i32::to_string`).
pub open spec fn int_text(i: int) -> Seq<char> {
    if i < 0 {
        seq!['-'] + decimal_digits((-i) as nat)
    } else {
        decimal_digits(i as nat)
    }
}

/// Appends the decimal digits of `n`.
pub(crate) fn push_decimal(out: &mut String, n: u64)
    ensures
        final(out)@ == old(out)@ + decimal_digits(n as nat),
    decreases n,
{
    if n >= 10 {
        push_decimal(out, n / 10);
    }
    let d: u64 = n % 10;
    let c = ((d + 48) as u8) as char;
    assert(c == digit_char(d as int));
    push_char(out, c);
    if n < 10 {
        assert(decimal_digits(n as nat) =~= seq![digit_char(n as int)]);
    }
}

/// The decimal text of `i` (`i32::to_string`).
pub fn int_to_text(i: i32) -> (s: String)
    ensures
        s@ == int_text(i as int),
{
    let mut s = String::new();
    if i < 0 {
        push_char(&mut s, '-');
        let n: u64 = if i == i32::MIN {
            2147483648u64
        } else {
            (-i) as u64
        };
        push_decimal(&mut s, n);
    } else {
        push_decimal(&mut s, i as u64);
    }
    s
}

// ---------------------------------------------------------------------------
// The event expression
// ---------------------------------------------------------------------------

/// `texts` joined by single spaces.
pub open spec fn join_spaced(texts: Seq<Seq<char>>) -> Seq<char>
    decreases texts.len(),
{
    if texts.len() == 0 {
        seq![]
    } else if texts.len() == 1 {
        texts[0]
    } else {
        join_spaced(texts.drop_last()) + seq![' '] + texts.last()
    }
}

/// How an argument is written in the handler call: an integer in decimal, a
/// float as `float_text` (its rendering, made outside this library), anything
/// else as `0`.
pub open spec fn argument_text(arg: OscArgument, float_text: Seq<char>) -> Seq<char> {
    match arg {
        OscArgument::Int(i) => int_text(i as int),
        OscArgument::Float(_) => float_text,
        OscArgument::Other => seq!['0'],
    }
}

/// The texts of `args`, the floats among them rendered as in `float_texts`.
pub open spec fn argument_texts(args: Seq<OscArgument>, float_texts: Seq<Seq<char>>) -> Seq<Seq<char>> {
    Seq::new(args.len(), |k: int| argument_text(args[k], float_texts[k]))
}

/// `(on-osc-event "<address>" '(<arguments>))`: the call of the script's
/// handler for a message; the address is written between quotes as it is.
pub open spec fn event_call(address: Seq<char>, args: Seq<Seq<char>>) -> Seq<char> {
    seq!['(', 'o', 'n', '-', 'o', 's', 'c', '-', 'e', 'v', 'e', 'n', 't', ' ', '"'] + address + seq![
        '"',
        ' ',
        '\'',
        '(',
    ] + join_spaced(args) + seq![')', ')']
}

/// The Lisp expression that passes `event` to the script's `on-osc-event`
/// handler. `float_texts[k]` is the rendering of argument `k` where it is a
/// float, and is not read otherwise.
pub fn event_expression(event: &OscEvent, float_texts: &Vec<String>) -> (expr: String)
    requires
        float_texts.len() == event.arguments.len(),
    ensures
        expr@ == event_call(
            event.address@,
            argument_texts(event.arguments@, string_views(float_texts@)),
        ),
{
    let ghost texts = argument_texts(event.arguments@, string_views(float_texts@));
    let mut s = String::new();
    let head = chars_of("(on-osc-event \"");
    proof {
        reveal_strlit("(on-osc-event \"");
    }
    push_chars(&mut s, &head, 0, head.len());
    let addr = chars_of(event.address.as_str());
    push_chars(&mut s, &addr, 0, addr.len());
    push_char(&mut s, '"');
    push_char(&mut s, ' ');
    push_char(&mut s, '\'');
    push_char(&mut s, '(');
    let ghost before_args = s@;
    let mut k: usize = 0;
    assert(texts.take(0) =~= Seq::<Seq<char>>::empty());
    assert(head@.subrange(0, head.len() as int) =~= head@);
    assert(addr@.subrange(0, addr.len() as int) =~= addr@);
    while k < event.arguments.len()
        invariant
            k <= event.arguments.len(),
            float_texts.len() == event.arguments.len(),
            texts == argument_texts(event.arguments@, string_views(float_texts@)),
            s@ == before_args + join_spaced(texts.take(k as int)),
        decreases event.arguments.len() - k,
    {
        let ghost prev = s@;
        if k > 0 {
            push_char(&mut s, ' ');
        }
        let ghost mid = s@;
        match event.arguments[k] {
            OscArgument::Int(i) => {
                let t = int_to_text(i);
                let tc = chars_of(t.as_str());
                push_chars(&mut s, &tc, 0, tc.len());
                assert(tc@.subrange(0, tc.len() as int) =~= tc@);
            },
            OscArgument::Float(_) => {
                let tc = chars_of(float_texts[k].as_str());
                push_chars(&mut s, &tc, 0, tc.len());
                assert(tc@.subrange(0, tc.len() as int) =~= tc@);
                assert(string_views(float_texts@)[k as int] == float_texts@[k as int]@);
            },
            OscArgument::Other => {
                push_char(&mut s, '0');
                assert(mid.push('0') =~= mid + seq!['0']);
            },
        }
        proof {
            let t = texts.take(k + 1);
            assert(t.drop_last() =~= texts.take(k as int));
            assert(t.last() == texts[k as int]);
            assert(texts[k as int] == argument_text(event.arguments@[k as int], string_views(float_texts@)[k as int]));
            if k == 0 {
                assert(t.len() == 1);
                assert(join_spaced(texts.take(0)) =~= Seq::<char>::empty());
                assert(s@ =~= before_args + join_spaced(t));
            } else {
                assert(prev.push(' ') =~= prev + seq![' ']);
                assert(s@ =~= before_args + join_spaced(t));
            }
        }
        k = k + 1;
    }
    push_char(&mut s, ')');
    push_char(&mut s, ')');
    proof {
        assert(texts.take(event.arguments.len() as int) =~= texts);
        assert(s@ =~= event_call(event.address@, texts));
    }
    s
}

} // verus!
