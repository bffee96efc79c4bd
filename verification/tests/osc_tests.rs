use largo_core::osc::{decode_event, event_expression, int_to_text, OscArgument, OscEvent};
use largo_core::scripts::{is_plugin_file_name, load_expression};
use rosc::{encoder, OscBundle, OscMessage, OscPacket, OscTime, OscType};

fn encode(packet: &OscPacket) -> Vec<u8> {
    encoder::encode(packet).unwrap()
}

#[test]
fn integers_render_in_decimal() {
    assert_eq!(int_to_text(0), "0");
    assert_eq!(int_to_text(7), "7");
    assert_eq!(int_to_text(120), "120");
    assert_eq!(int_to_text(-45), "-45");
    assert_eq!(int_to_text(i32::MAX), "2147483647");
    assert_eq!(int_to_text(i32::MIN), "-2147483648");
}

#[test]
fn message_decodes_to_event() {
    let bytes = encode(&OscPacket::Message(OscMessage {
        addr: "/demo/freq".to_string(),
        args: vec![OscType::Int(3), OscType::Float(0.25), OscType::String("x".to_string())],
    }));
    let event = decode_event(&bytes).unwrap();
    assert_eq!(event.address, "/demo/freq");
    assert_eq!(
        event.arguments,
        vec![OscArgument::Int(3), OscArgument::Float(0.25f32.to_bits()), OscArgument::Other]
    );
}

#[test]
fn bundle_is_not_an_event() {
    let bytes = encode(&OscPacket::Bundle(OscBundle {
        timetag: OscTime { seconds: 0, fractional: 1 },
        content: vec![OscPacket::Message(OscMessage { addr: "/a".to_string(), args: vec![] })],
    }));
    assert!(decode_event(&bytes).is_none());
}

#[test]
fn garbage_is_not_an_event() {
    assert!(decode_event(&[1, 2, 3]).is_none());
    assert!(decode_event(&[]).is_none());
}

#[test]
fn event_expression_lists_arguments() {
    let event = OscEvent {
        address: "/demo/amp".to_string(),
        arguments: vec![OscArgument::Float(0.8f32.to_bits()), OscArgument::Int(-2), OscArgument::Other],
    };
    let texts = vec![0.8f32.to_string(), String::new(), String::new()];
    assert_eq!(event_expression(&event, &texts), "(on-osc-event \"/demo/amp\" '(0.8 -2 0))");
}

#[test]
fn event_without_arguments() {
    let event = OscEvent { address: "/go".to_string(), arguments: vec![] };
    assert_eq!(event_expression(&event, &vec![]), "(on-osc-event \"/go\" '())");
}

#[test]
fn decoded_message_gives_expression() {
    let bytes = encode(&OscPacket::Message(OscMessage {
        addr: "/k".to_string(),
        args: vec![OscType::Int(42), OscType::Long(9)],
    }));
    let event = decode_event(&bytes).unwrap();
    let texts = vec![String::new(); event.arguments.len()];
    assert_eq!(event_expression(&event, &texts), "(on-osc-event \"/k\" '(42 0))");
}

#[test]
fn load_expression_uses_forward_slashes() {
    assert_eq!(load_expression("scripts\\plugins\\a.scm"), "(load \"scripts/plugins/a.scm\")");
    assert_eq!(load_expression("core/scripts/plugins/b.scm"), "(load \"core/scripts/plugins/b.scm\")");
}

#[test]
fn plugin_files_have_the_scm_extension() {
    assert!(is_plugin_file_name("synth.scm"));
    assert!(is_plugin_file_name("a.b.scm"));
    assert!(!is_plugin_file_name(".scm"));
    assert!(!is_plugin_file_name("scm"));
    assert!(!is_plugin_file_name("notes.scm.txt"));
    assert!(!is_plugin_file_name("x.SCM"));
}
