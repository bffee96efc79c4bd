//! The lock-free channel that carries [`AudioCommand`]s from the control
//! thread to the audio thread, a `ringbuf` shared ring buffer split into its
//! producer and consumer halves.
//!
//! The two halves are used from different threads, so what one half finds in
//! the buffer depends on what the other thread has done meanwhile: the
//! contracts below state what holds whatever the other thread did.

use vstd::prelude::*;
use crate::commands::AudioCommand;
use ringbuf::traits::{Consumer, Observer, Producer, Split};

verus! {

/// The sending half of the command channel (a `ringbuf::HeapProd`).
#[verifier::external_body]
pub struct CommandSender {
    inner: ringbuf::HeapProd<AudioCommand>,
}

/// The receiving half of the command channel (a `ringbuf::HeapCons`).
#[verifier::external_body]
pub struct CommandReceiver {
    inner: ringbuf::HeapCons<AudioCommand>,
}

/// The commands that a sender has put into its channel so far, oldest first:
/// each `Producer::try_push` that succeeds appends the item it was given.
pub uninterp spec fn sent_commands(s: CommandSender) -> Seq<AudioCommand>;

/// The commands that a receiver has taken out of its channel so far, oldest
/// first: each successful `Consumer::try_pop` appends the item it returns.
pub uninterp spec fn taken_commands(r: CommandReceiver) -> Seq<AudioCommand>;

/// How many commands the receiver has seen waiting in its channel and not
/// yet taken. Only the receiver removes commands, so every command it has
/// seen waiting stays there until it takes it. A fresh look
/// (`Observer::occupied_len`, which re-reads the sender's write index) sets
/// the count; each command taken lowers it by one.
pub uninterp spec fn seen_waiting(r: CommandReceiver) -> nat;

/// A channel holding up to `capacity` commands: `ringbuf::SharedRb::new`
/// followed by `split`. `SharedRb::new` panics on a zero capacity, which
/// `requires` rules out. Neither half has moved a command yet, and the
/// receiver has seen none waiting; nothing more is stated of the halves.
#[verifier::external_body]
pub fn command_channel(capacity: usize) -> (res: (CommandSender, CommandReceiver))
    requires
        capacity > 0,
    ensures
        sent_commands(res.0) == Seq::<AudioCommand>::empty(),
        taken_commands(res.1) == Seq::<AudioCommand>::empty(),
        seen_waiting(res.1) == 0,
{
    let (inner_prod, inner_cons) = ringbuf::HeapRb::<AudioCommand>::new(capacity).split();
    (CommandSender { inner: inner_prod }, CommandReceiver { inner: inner_cons })
}

impl CommandSender {
    /// Appends `cmd` to the channel (`Producer::try_push`), which then counts
    /// among [`sent_commands`]. Where the buffer is full the source hands the
    /// same command back in `Err` and appends nothing; whether it is full
    /// depends on the receiving thread and is not stated.
    #[verifier::external_body]
    pub fn try_send(&mut self, cmd: AudioCommand) -> (res: Result<(), AudioCommand>)
        ensures
            match res {
                Ok(()) => sent_commands(*final(self)) == sent_commands(*old(self)).push(cmd),
                Err(c) => c == cmd && sent_commands(*final(self)) == sent_commands(*old(self)),
            },
    {
            self.inner.try_push(cmd)
    }
}

impl CommandReceiver {
    /// Removes the oldest command from the channel (`Consumer::try_pop`), or
    /// `None` when it is empty. A command returned is added to
    /// [`taken_commands`], and `None` takes nothing. Where the receiver has
    /// seen a command waiting, one is there to take (`try_pop` reads its
    /// cached indices, which already show it), and the count drops by one;
    /// `None` comes only when it has seen none, and it then still sees none.
    /// Which command comes back depends on the sending thread and is not
    /// stated.
    #[verifier::external_body]
    fn try_receive(&mut self) -> (res: Option<AudioCommand>)
        ensures
            seen_waiting(*old(self)) > 0 ==> res is Some,
            match res {
                Some(c) => {
                    &&& taken_commands(*final(self)) == taken_commands(*old(self)).push(c)
                    &&& seen_waiting(*old(self)) > 0 ==> seen_waiting(*final(self)) == seen_waiting(
                        *old(self),
                    ) - 1
                },
                None => {
                    &&& taken_commands(*final(self)) == taken_commands(*old(self))
                    &&& seen_waiting(*final(self)) == 0
                },
            },
    {
            self.inner.try_pop()
    }

    /// The number of commands waiting in the channel (`Observer::occupied_len`,
    /// which re-reads the sender's write index). The sending thread may add
    /// more at any moment, but none of these leaves until the receiver takes
    /// it: the count becomes what the receiver has seen waiting, and is no
    /// less than what it had seen before. Nothing is taken.
    #[verifier::external_body]
    fn pending(&mut self) -> (n: usize)
        ensures
            seen_waiting(*final(self)) == n,
            n >= seen_waiting(*old(self)),
            taken_commands(*final(self)) == taken_commands(*old(self)),
    {
            self.inner.occupied_len()
    }

    /// Takes the commands that are waiting in the channel when the call
    /// begins, oldest first; commands that arrive meanwhile stay for the next
    /// call. The result is exactly the commands taken out of the channel
    /// during the call, in the order they were taken; it holds at least every
    /// command the receiver had already seen waiting, and afterwards the
    /// receiver has taken every command it has seen waiting.
    pub fn drain(&mut self) -> (cmds: Vec<AudioCommand>)
        ensures
            taken_commands(*final(self)) == taken_commands(*old(self)) + cmds@,
            cmds@.len() >= seen_waiting(*old(self)),
            seen_waiting(*final(self)) == 0,
    {
        let ghost start = taken_commands(*self);
        let ghost seen_before = seen_waiting(*self);
        let n = self.pending();
        let mut cmds: Vec<AudioCommand> = Vec::new();
        let mut k: usize = 0;
        assert(start + cmds@ =~= start);
        while k < n
            invariant
                k <= n,
                n >= seen_before,
                cmds@.len() == k,
                taken_commands(*self) == start + cmds@,
                seen_waiting(*self) == n - k,
            ensures
                cmds@.len() == n,
                n >= seen_before,
                taken_commands(*self) == start + cmds@,
                seen_waiting(*self) == 0,
            decreases n - k,
        {
            match self.try_receive() {
                Some(cmd) => {
                    let ghost before = cmds@;
                    cmds.push(cmd);
                    assert(start + cmds@ =~= (start + before).push(cmd));
                },
                None => {
                    break;
                },
            }
            k = k + 1;
        }
        cmds
    }
}

} // verus!
