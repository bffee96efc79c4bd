use largo_core::command_queue::command_channel;
use largo_core::commands::{block_length, parameter_command, plan_block, AudioCommand, ParamUpdate, BLOCK_SIZE};

#[test]
fn plan_applies_updates_in_order() {
    let cmds = vec![
        AudioCommand::SetRnboParam { index: 2, value_bits: 7 },
        AudioCommand::SetRnboParam { index: 0, value_bits: 9 },
    ];
    let plan = plan_block(&cmds);
    assert_eq!(
        plan.updates,
        vec![ParamUpdate { index: 2, value_bits: 7 }, ParamUpdate { index: 0, value_bits: 9 }]
    );
    assert!(!plan.stop);
}

#[test]
fn stop_anywhere_stops_but_keeps_updates() {
    let cmds = vec![
        AudioCommand::SetRnboParam { index: 1, value_bits: 1 },
        AudioCommand::Stop,
        AudioCommand::SetRnboParam { index: 3, value_bits: 4 },
    ];
    let plan = plan_block(&cmds);
    assert!(plan.stop);
    assert_eq!(
        plan.updates,
        vec![ParamUpdate { index: 1, value_bits: 1 }, ParamUpdate { index: 3, value_bits: 4 }]
    );
}

#[test]
fn empty_plan() {
    let plan = plan_block(&vec![]);
    assert!(!plan.stop);
    assert!(plan.updates.is_empty());
}

#[test]
fn batches_concatenate() {
    let a = vec![AudioCommand::SetRnboParam { index: 1, value_bits: 1 }];
    let b = vec![AudioCommand::Stop, AudioCommand::SetRnboParam { index: 2, value_bits: 2 }];
    let mut ab = a.clone();
    ab.extend(b.iter().copied());
    let mut split = plan_block(&a).updates;
    split.extend(plan_block(&b).updates);
    assert_eq!(plan_block(&ab).updates, split);
}

#[test]
fn known_parameter_gives_command() {
    let bits = 0.5f32.to_bits();
    assert_eq!(parameter_command(4, bits), Some(AudioCommand::SetRnboParam { index: 4, value_bits: bits }));
    assert_eq!(parameter_command(0, 0), Some(AudioCommand::SetRnboParam { index: 0, value_bits: 0 }));
}

#[test]
fn unknown_parameter_gives_nothing() {
    assert_eq!(parameter_command(-1, 123), None);
    assert_eq!(parameter_command(i32::MIN, 0), None);
}

#[test]
fn block_length_is_capped() {
    assert_eq!(block_length(0), 0);
    assert_eq!(block_length(100), 100);
    assert_eq!(block_length(256), 256);
    assert_eq!(block_length(1024), BLOCK_SIZE);
}

#[test]
fn channel_delivers_in_order() {
    let (mut tx, mut rx) = command_channel(4);
    assert_eq!(tx.try_send(AudioCommand::SetRnboParam { index: 1, value_bits: 2 }), Ok(()));
    assert_eq!(tx.try_send(AudioCommand::Stop), Ok(()));
    assert_eq!(rx.drain(), vec![AudioCommand::SetRnboParam { index: 1, value_bits: 2 }, AudioCommand::Stop]);
    assert!(rx.drain().is_empty());
}

#[test]
fn full_channel_hands_the_command_back() {
    let (mut tx, mut rx) = command_channel(1);
    assert_eq!(tx.try_send(AudioCommand::Stop), Ok(()));
    let cmd = AudioCommand::SetRnboParam { index: 5, value_bits: 6 };
    assert_eq!(tx.try_send(cmd), Err(cmd));
    assert_eq!(rx.drain(), vec![AudioCommand::Stop]);
    assert_eq!(tx.try_send(cmd), Ok(()));
    assert_eq!(rx.drain(), vec![cmd]);
}

#[test]
fn drain_takes_everything_waiting() {
    let (mut tx, mut rx) = command_channel(8);
    for k in 0..5 {
        assert_eq!(tx.try_send(AudioCommand::SetRnboParam { index: k, value_bits: 0 }), Ok(()));
    }
    let got = rx.drain();
    assert_eq!(got.len(), 5);
    assert_eq!(got[4], AudioCommand::SetRnboParam { index: 4, value_bits: 0 });
    assert!(rx.drain().is_empty());
}
