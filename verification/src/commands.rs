//! Commands sent from the control side (the Lisp engine) to the audio side,
//! and what one audio block does with the commands that arrived before it.

use vstd::prelude::*;

verus! {

/// The number of samples the audio engine processes per block.
pub const BLOCK_SIZE: usize = 256;

/// A command for the audio thread. A parameter value is carried as the bit
/// pattern of its 32-bit IEEE 754 float.
#[derive(Clone, Copy, Debug, PartialEq, Eq, Structural)]
pub enum AudioCommand {
    SetRnboParam { index: i32, value_bits: u32 },
    Stop,
}

/// A parameter update: the parameter index and the bit pattern of its value.
#[derive(Clone, Copy, Debug, PartialEq, Eq, Structural)]
pub struct ParamUpdate {
    pub index: i32,
    pub value_bits: u32,
}

/// What one audio block does with the commands that arrived before it.
#[derive(Debug)]
pub struct BlockPlan {
    /// The parameter updates to apply, in the order the commands arrived.
    pub updates: Vec<ParamUpdate>,
    /// Whether a stop was requested: the block is then silent and the engine stops.
    pub stop: bool,
}

/// The parameter updates among `cmds`, in order.
pub open spec fn parameter_updates(cmds: Seq<AudioCommand>) -> Seq<ParamUpdate>
    decreases cmds.len(),
{
    if cmds.len() == 0 {
        seq![]
    } else {
        match cmds.last() {
            AudioCommand::SetRnboParam { index, value_bits } => parameter_updates(cmds.drop_last()).push(
                ParamUpdate { index, value_bits },
            ),
            AudioCommand::Stop => parameter_updates(cmds.drop_last()),
        }
    }
}

/// Some command among `cmds` is a stop.
pub open spec fn stop_requested(cmds: Seq<AudioCommand>) -> bool {
    exists|k: int| 0 <= k < cmds.len() && cmds[k] == AudioCommand::Stop
}

/// Commands handled over two blocks give the updates and the stop that they
/// give handled in one block: splitting the commands between blocks neither
/// loses nor reorders an update.
pub proof fn lemma_plans_concatenate(a: Seq<AudioCommand>, b: Seq<AudioCommand>)
    ensures
        parameter_updates(a + b) == parameter_updates(a) + parameter_updates(b),
        stop_requested(a + b) == (stop_requested(a) || stop_requested(b)),
    decreases b.len(),
{
    if b.len() == 0 {
        assert(a + b =~= a);
        assert(parameter_updates(a) + parameter_updates(b) =~= parameter_updates(a));
    } else {
        lemma_plans_concatenate(a, b.drop_last());
        assert((a + b).drop_last() =~= a + b.drop_last());
        assert((a + b).last() == b.last());
        match b.last() {
            AudioCommand::SetRnboParam { index, value_bits } => {
                let u = ParamUpdate { index, value_bits };
                assert(parameter_updates(a) + parameter_updates(b.drop_last()).push(u) =~= (
                parameter_updates(a) + parameter_updates(b.drop_last())).push(u));
            },
            AudioCommand::Stop => {},
        }
    }
    let ab = a + b;
    if stop_requested(ab) {
        let k = choose|k: int| 0 <= k < ab.len() && ab[k] == AudioCommand::Stop;
        if k < a.len() {
            assert(a[k] == AudioCommand::Stop);
        } else {
            assert(b[k - a.len()] == AudioCommand::Stop);
        }
    }
    if stop_requested(a) {
        let k = choose|k: int| 0 <= k < a.len() && a[k] == AudioCommand::Stop;
        assert(ab[k] == AudioCommand::Stop);
    }
    if stop_requested(b) {
        let k = choose|k: int| 0 <= k < b.len() && b[k] == AudioCommand::Stop;
        assert(ab[k + a.len()] == AudioCommand::Stop);
    }
}

/// A single parameter command gives exactly its own update, and a stop
/// gives none.
pub proof fn lemma_single_command_update(index: i32, value_bits: u32)
    ensures
        parameter_updates(seq![(AudioCommand::SetRnboParam { index, value_bits })]) == seq![
            (ParamUpdate { index, value_bits }),
        ],
        parameter_updates(seq![AudioCommand::Stop]) == Seq::<ParamUpdate>::empty(),
{
    let one = seq![AudioCommand::SetRnboParam { index, value_bits }];
    let none = Seq::<AudioCommand>::empty();
    assert(one.drop_last() =~= none);
    assert(one.last() == AudioCommand::SetRnboParam { index, value_bits });
    assert(parameter_updates(none) == Seq::<ParamUpdate>::empty());
    assert(parameter_updates(one) == parameter_updates(none).push(ParamUpdate { index, value_bits }));
    assert(parameter_updates(one) =~= seq![ParamUpdate { index, value_bits }]);
    let stop = seq![AudioCommand::Stop];
    assert(stop.drop_last() =~= none);
    assert(stop.last() == AudioCommand::Stop);
}

/// Without a stop, the updates are the commands themselves, one for one and
/// in order, each with the command's own index and value.
pub proof fn lemma_updates_follow_commands(cmds: Seq<AudioCommand>)
    requires
        !stop_requested(cmds),
    ensures
        parameter_updates(cmds).len() == cmds.len(),
        forall|k: int|
            0 <= k < cmds.len() ==> #[trigger] cmds[k] == (AudioCommand::SetRnboParam {
                index: parameter_updates(cmds)[k].index,
                value_bits: parameter_updates(cmds)[k].value_bits,
            }),
    decreases cmds.len(),
{
    if cmds.len() > 0 {
        let d = cmds.drop_last();
        assert(!stop_requested(d)) by {
            if stop_requested(d) {
                let k = choose|k: int| 0 <= k < d.len() && d[k] == AudioCommand::Stop;
                assert(cmds[k] == AudioCommand::Stop);
            }
        }
        lemma_updates_follow_commands(d);
        if cmds.last() == AudioCommand::Stop {
            assert(cmds[cmds.len() - 1] == AudioCommand::Stop);
        }
        let u = parameter_updates(cmds);
        assert forall|k: int| 0 <= k < cmds.len() implies #[trigger] cmds[k] == AudioCommand::SetRnboParam {
            index: u[k].index,
            value_bits: u[k].value_bits,
        } by {
            if k < d.len() {
                assert(cmds[k] == d[k]);
            }
        }
    }
}

/// The plan for a block given the commands that arrived before it: every
/// parameter update is applied, in order, and a stop anywhere among them
/// silences the block and stops the engine.
pub fn plan_block(cmds: &Vec<AudioCommand>) -> (plan: BlockPlan)
    ensures
        plan.updates@ == parameter_updates(cmds@),
        plan.stop == stop_requested(cmds@),
{
    let mut updates: Vec<ParamUpdate> = Vec::new();
    let mut stop = false;
    let mut i: usize = 0;
    assert(cmds@.take(0) =~= Seq::<AudioCommand>::empty());
    while i < cmds.len()
        invariant
            i <= cmds.len(),
            updates@ == parameter_updates(cmds@.take(i as int)),
            stop == stop_requested(cmds@.take(i as int)),
        decreases cmds.len() - i,
    {
        let ghost prefix = cmds@.take(i + 1);
        assert(prefix.drop_last() =~= cmds@.take(i as int));
        assert(prefix.last() == cmds@[i as int]);
        match cmds[i] {
            AudioCommand::SetRnboParam { index, value_bits } => {
                updates.push(ParamUpdate { index, value_bits });
            },
            AudioCommand::Stop => {
                stop = true;
                assert(prefix[i as int] == AudioCommand::Stop);
            },
        }
        proof {
            if stop_requested(prefix) {
                let k = choose|k: int| 0 <= k < prefix.len() && prefix[k] == AudioCommand::Stop;
                if k < i {
                    assert(cmds@.take(i as int)[k] == AudioCommand::Stop);
                }
            }
            if stop_requested(cmds@.take(i as int)) {
                let k = choose|k: int| 0 <= k < i && cmds@.take(i as int)[k] == AudioCommand::Stop;
                assert(prefix[k] == AudioCommand::Stop);
            }
        }
        i = i + 1;
    }
    assert(cmds@.take(cmds.len() as int) =~= cmds@);
    BlockPlan { updates, stop }
}

/// The command that sets parameter `param_index` to the value with bit
/// pattern `value_bits`, or `None` where the engine knows no such parameter
/// (its index lookup gave a negative index).
pub fn parameter_command(param_index: i32, value_bits: u32) -> (cmd: Option<AudioCommand>)
    ensures
        param_index >= 0 ==> cmd == Some(AudioCommand::SetRnboParam { index: param_index, value_bits }),
        param_index < 0 ==> cmd is None,
{
    if param_index >= 0 {
        Some(AudioCommand::SetRnboParam { index: param_index, value_bits })
    } else {
        None
    }
}

/// The number of samples processed for an output buffer of `output_len`
/// samples: the buffer's length, at most one block.
pub fn block_length(output_len: usize) -> (n: usize)
    ensures
        n == if output_len < BLOCK_SIZE { output_len } else { BLOCK_SIZE },
{
    if output_len < BLOCK_SIZE {
        output_len
    } else {
        BLOCK_SIZE
    }
}

} // verus!
