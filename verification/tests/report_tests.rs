use largo_core::osc::{decode_datagram, event_of_packet, ArgumentModel, MessageModel, OscArgument, PacketModel};
use largo_core::reports::{bundle_report, lisp_says_line, message_report};
use rosc::{encoder, OscArray, OscBundle, OscColor, OscMessage, OscMidiMessage, OscPacket, OscTime, OscType};

#[test]
fn message_report_numbers_arguments_from_zero() {
    let texts = vec!["Int(3)".to_string(), "Float(0.5)".to_string()];
    assert_eq!(
        message_report("/demo/freq", &texts),
        "OSC address: /demo/freq\n  Arg 0: Int(3)\n  Arg 1: Float(0.5)\n"
    );
}

#[test]
fn message_report_without_arguments() {
    assert_eq!(message_report("/go", &vec![]), "OSC address: /go\n");
}

#[test]
fn message_report_counts_past_nine() {
    let texts: Vec<String> = (0..12).map(|k| format!("v{}", k)).collect();
    let out = message_report("/many", &texts);
    assert!(out.ends_with("  Arg 10: v10\n  Arg 11: v11\n"));
    assert_eq!(out.lines().count(), 13);
}

#[test]
fn bundle_report_is_one_line() {
    assert_eq!(bundle_report("OscBundle { .. }"), "OSC Bundle: OscBundle { .. }\n");
}

#[test]
fn lisp_says_line_prefixes_text() {
    assert_eq!(lisp_says_line("Hello from Steel Lisp!"), "[Rust] Lisp says: Hello from Steel Lisp!\n");
    assert_eq!(lisp_says_line(""), "[Rust] Lisp says: \n");
}

#[test]
fn every_argument_kind_is_kept() {
    let args = vec![
        OscType::Int(-7),
        OscType::Float(1.5),
        OscType::String("hi".to_string()),
        OscType::Blob(vec![1, 2, 3]),
        OscType::Time(OscTime { seconds: 5, fractional: 6 }),
        OscType::Long(-9_000_000_000),
        OscType::Double(2.25),
        OscType::Char('x'),
        OscType::Color(OscColor { red: 1, green: 2, blue: 3, alpha: 4 }),
        OscType::Midi(OscMidiMessage { port: 9, status: 8, data1: 7, data2: 6 }),
        OscType::Bool(true),
        OscType::Array(OscArray { content: vec![OscType::Int(1), OscType::Nil] }),
        OscType::Nil,
        OscType::Inf,
    ];
    let bytes = encoder::encode(&OscPacket::Message(OscMessage { addr: "/all".to_string(), args })).unwrap();
    match decode_datagram(&bytes) {
        Ok(PacketModel::Message(m)) => {
            assert_eq!(m.address, "/all");
            let a = &m.arguments;
            assert_eq!(a.len(), 14);
            assert!(matches!(a[0], ArgumentModel::Int(-7)));
            assert!(matches!(a[1], ArgumentModel::Float(b) if b == 1.5f32.to_bits()));
            assert!(matches!(&a[2], ArgumentModel::Str(s) if s == "hi"));
            assert!(matches!(&a[3], ArgumentModel::Blob(b) if b == &vec![1u8, 2, 3]));
            assert!(matches!(a[4], ArgumentModel::Time(5, 6)));
            assert!(matches!(a[5], ArgumentModel::Long(-9_000_000_000)));
            assert!(matches!(a[6], ArgumentModel::Double(b) if b == 2.25f64.to_bits()));
            assert!(matches!(a[7], ArgumentModel::Char('x')));
            assert!(matches!(a[8], ArgumentModel::Color(1, 2, 3, 4)));
            assert!(matches!(a[9], ArgumentModel::Midi(9, 8, 7, 6)));
            assert!(matches!(a[10], ArgumentModel::Bool(true)));
            match &a[11] {
                ArgumentModel::Array(c) => {
                    assert_eq!(c.len(), 2);
                    assert!(matches!(c[0], ArgumentModel::Int(1)));
                    assert!(matches!(c[1], ArgumentModel::Nil));
                }
                other => panic!("not an array: {:?}", other),
            }
            assert!(matches!(a[12], ArgumentModel::Nil));
            assert!(matches!(a[13], ArgumentModel::Inf));
        }
        other => panic!("not a message: {:?}", other),
    }
}

#[test]
fn bundle_keeps_time_tag_and_content() {
    let bytes = encoder::encode(&OscPacket::Bundle(OscBundle {
        timetag: OscTime { seconds: 11, fractional: 12 },
        content: vec![OscPacket::Message(OscMessage { addr: "/in".to_string(), args: vec![OscType::Int(4)] })],
    }))
    .unwrap();
    match decode_datagram(&bytes) {
        Ok(PacketModel::Bundle(11, 12, content)) => {
            assert_eq!(content.len(), 1);
            match &content[0] {
                PacketModel::Message(m) => {
                    assert_eq!(m.address, "/in");
                    assert!(matches!(m.arguments[0], ArgumentModel::Int(4)));
                }
                other => panic!("not a message: {:?}", other),
            }
        }
        other => panic!("not the bundle: {:?}", other),
    }
}

#[test]
fn undecodable_datagram_gives_nothing() {
    assert!(decode_datagram(&[0, 1, 2]).is_err());
    assert!(decode_datagram(&[]).is_err());
}

#[test]
fn deepest_array_within_the_bound_decodes() {
    let depth = 765;
    let mut bytes = b"/\0\0\0".to_vec();
    bytes.push(b',');
    bytes.extend(std::iter::repeat(b'[').take(depth));
    bytes.extend(std::iter::repeat(b']').take(depth));
    bytes.push(0);
    while bytes.len() % 4 != 0 {
        bytes.push(0);
    }
    assert!(bytes.len() <= largo_core::osc::MAX_DATAGRAM);
    let mut level = 0;
    match decode_datagram(&bytes) {
        Ok(PacketModel::Message(m)) => {
            let mut args = &m.arguments;
            while let Some(ArgumentModel::Array(inner)) = args.first() {
                level += 1;
                args = inner;
            }
        }
        other => panic!("not a message: {:?}", other.is_ok()),
    }
    assert_eq!(level, depth);
}

#[test]
fn packet_to_event() {
    let m = MessageModel {
        address: "/x".to_string(),
        arguments: vec![ArgumentModel::Int(2), ArgumentModel::Float(9), ArgumentModel::Str("s".to_string())],
    };
    let e = event_of_packet(PacketModel::Message(m)).unwrap();
    assert_eq!(e.address, "/x");
    assert_eq!(e.arguments, vec![OscArgument::Int(2), OscArgument::Float(9), OscArgument::Other]);
    assert!(event_of_packet(PacketModel::Bundle(0, 1, vec![])).is_none());
}
