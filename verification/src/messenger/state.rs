//! The state machine that represents one end of a conversation.
//!
//! Times are nanoseconds on a monotonic clock; the distributions that the
//! transitions sample from are supplied by the caller.
use vstd::prelude::*;

use crate::messenger::message::{blocks_size, construct_message, construct_receipt};
use crate::wire::{
    lemma_size_constants, header_wire, utf8, HeaderFields, MessageBody, MessageHeader, SerializedMessage,
    MAX_BLOCKS_IN_BODY, PADDING_BLOCK_SIZE,
};

verus! {

/// The distributions a conversation samples its decisions and timings from.
///
/// `R` is the source of randomness. The deadlines are absolute times:
/// now, plus a duration sampled from the distribution.
pub trait ConversationDists<R> {
    /// Whether sending a message while idle makes the user active (distribution S).
    fn sample_s(&self, rng: &mut R) -> bool;

    /// Whether receiving a message while idle makes the user active (distribution R).
    fn sample_r(&self, rng: &mut R) -> bool;

    /// The size of the next message in padding blocks, before clamping (distribution M).
    fn sample_m(&self, rng: &mut R) -> u64;

    /// When an idle user next sends a message (distribution I).
    fn deadline_i(&self, rng: &mut R) -> u64;

    /// When an active user without traffic turns idle (distribution W).
    fn deadline_w(&self, rng: &mut R) -> u64;

    /// When an active user next sends after sending (distribution A_s).
    fn deadline_a_s(&self, rng: &mut R) -> u64;

    /// When an active user next sends after receiving (distribution A_r).
    fn deadline_a_r(&self, rng: &mut R) -> u64;
}

/// The state of a conversation: its distributions, when it next acts, and the
/// id its next message gets.
pub struct Conversation<D, S> {
    pub dists: D,
    pub delay: u64,
    pub next_id: u32,
    pub state: S,
}

/// The Idle state.
pub struct Idle {}

/// The Active state: `wait` is when the user turns idle if nothing happens.
pub struct Active {
    pub wait: u64,
}

/// All possible Conversation state machine states.
pub enum StateMachine<D> {
    Idle(Conversation<D, Idle>),
    Active(Conversation<D, Active>),
}

impl<D> StateMachine<D> {
    /// The id the conversation's next message gets.
    pub open spec fn next_id(self) -> u32 {
        match self {
            StateMachine::Idle(c) => c.next_id,
            StateMachine::Active(c) => c.next_id,
        }
    }

    /// The conversation's distributions.
    pub open spec fn dists(self) -> D {
        match self {
            StateMachine::Idle(c) => c.dists,
            StateMachine::Active(c) => c.dists,
        }
    }

    /// Start a conversation: idle, with no message sent.
    pub fn start<R>(dists: D, rng: &mut R) -> (res: StateMachine<D>)
        where D: ConversationDists<R>,
        ensures
            res matches StateMachine::Idle(c) && c.next_id == 0 && c.dists == dists,
            res matches StateMachine::Idle(c) && exists|r: &mut R|
                *r == *old(rng) && *final(r) == *final(rng) && call_ensures(
                    D::deadline_i,
                    (&dists, r),
                    c.delay,
                ),
    {
        StateMachine::Idle(Conversation::<D, Idle>::start(dists, rng))
    }

    /// The name of the current state, for logs.
    pub fn name(&self) -> (res: &'static str)
        ensures
            res@ == (match self {
                StateMachine::Idle(_) => <Idle as State<D>>::state_name(),
                StateMachine::Active(_) => <Active as State<D>>::state_name(),
            }),
    {
        match self {
            StateMachine::Idle(_) => <Idle as State<D>>::name(),
            StateMachine::Active(_) => <Active as State<D>>::name(),
        }
    }
}

/// A conversation state and its transitions.
pub trait State<D>: Sized {
    /// Which transitions sending a message may take from this state.
    spec fn sent_ok(before: Conversation<D, Self>, after: StateMachine<D>) -> bool;

    /// Which transitions receiving a message may take from this state.
    spec fn received_ok(before: Conversation<D, Self>, after: StateMachine<D>) -> bool;

    /// The machine that is in this state.
    spec fn machine(c: Conversation<D, Self>) -> StateMachine<D>;

    /// The state's name.
    spec fn state_name() -> Seq<char>;

    /// The state's name, for logs.
    fn name() -> (res: &'static str)
        ensures
            res@ == Self::state_name(),
    ;

    /// The transition after this end sent a message.
    fn sent<R>(conversation: Conversation<D, Self>, rng: &mut R) -> (res:
        StateMachine<D>)
        where D: ConversationDists<R>,
        requires
            conversation.next_id < u32::MAX,
        ensures
            Self::sent_ok(conversation, res),
    ;

    /// The transition after this end received a message.
    fn received<R>(conversation: Conversation<D, Self>, rng: &mut R) -> (res:
        StateMachine<D>)
        where D: ConversationDists<R>,
        ensures
            Self::received_ok(conversation, res),
    ;

    /// The machine in this state.
    fn to_machine(conversation: Conversation<D, Self>) -> (res: StateMachine<D>)
        ensures
            res == Self::machine(conversation),
    ;
}

impl<D> State<D> for Idle {
    open spec fn sent_ok(before: Conversation<D, Idle>, after: StateMachine<D>) -> bool {
        &&& after.next_id() == before.next_id + 1
        &&& after.dists() == before.dists
    }

    open spec fn received_ok(before: Conversation<D, Idle>, after: StateMachine<D>) -> bool {
        ||| after == StateMachine::Idle(before)
        ||| (after matches StateMachine::Active(c) && c.next_id == before.next_id && c.dists
            == before.dists)
    }

    open spec fn machine(c: Conversation<D, Idle>) -> StateMachine<D> {
        StateMachine::Idle(c)
    }

    open spec fn state_name() -> Seq<char> {
        "Idle"@
    }

    fn name() -> (res: &'static str) {
        "Idle"
    }

    /// Draw from S whether the user turns active. If so: Active, the next
    /// send at a draw from A_s, then idle at a draw from W; if not: Idle, the
    /// next send at a draw from I. Either way the next id.
    fn sent<R>(conversation: Conversation<D, Idle>, rng: &mut R) -> (res:
        StateMachine<D>)
        where D: ConversationDists<R>,
        ensures
            exists|r1: &mut R, active: bool|
                *r1 == *old(rng) && call_ensures(D::sample_s, (&conversation.dists, r1), active)
                    && if active {
                    exists|r2: &mut R, r3: &mut R, delay: u64, wait: u64|
                        *r2 == *final(r1) && call_ensures(
                            D::deadline_a_s,
                            (&conversation.dists, r2),
                            delay,
                        ) && *r3 == *final(r2) && call_ensures(
                            D::deadline_w,
                            (&conversation.dists, r3),
                            wait,
                        ) && *final(r3) == *final(rng) && res == StateMachine::Active(
                            (Conversation {
                                dists: conversation.dists,
                                delay,
                                next_id: (conversation.next_id + 1) as u32,
                                state: Active { wait },
                            }),
                        )
                } else {
                    exists|r2: &mut R, delay: u64|
                        *r2 == *final(r1) && call_ensures(
                            D::deadline_i,
                            (&conversation.dists, r2),
                            delay,
                        ) && *final(r2) == *final(rng) && res == StateMachine::Idle(
                            (Conversation {
                                dists: conversation.dists,
                                delay,
                                next_id: (conversation.next_id + 1) as u32,
                                state: Idle {  },
                            }),
                        )
                },
    {
        let draw_s = D::sample_s;
        let active = draw_s(&conversation.dists, rng);
        if active {
            let draw_a_s = D::deadline_a_s;
            let delay: u64 = draw_a_s(&conversation.dists, rng);
            let draw_w = D::deadline_w;
            let wait: u64 = draw_w(&conversation.dists, rng);
            conversation.after_send(true, delay, wait)
        } else {
            let draw_i = D::deadline_i;
            let delay: u64 = draw_i(&conversation.dists, rng);
            conversation.after_send(false, delay, 0)
        }
    }

    /// Draw from R whether the user turns active. If so: Active, idle at a
    /// draw from W, then the next send at a draw from A_r; if not: unchanged.
    fn received<R>(conversation: Conversation<D, Idle>, rng: &mut R) -> (res:
        StateMachine<D>)
        where D: ConversationDists<R>,
        ensures
            exists|r1: &mut R, active: bool|
                *r1 == *old(rng) && call_ensures(D::sample_r, (&conversation.dists, r1), active)
                    && if active {
                    exists|r2: &mut R, r3: &mut R, wait: u64, delay: u64|
                        *r2 == *final(r1) && call_ensures(
                            D::deadline_w,
                            (&conversation.dists, r2),
                            wait,
                        ) && *r3 == *final(r2) && call_ensures(
                            D::deadline_a_r,
                            (&conversation.dists, r3),
                            delay,
                        ) && *final(r3) == *final(rng) && res == StateMachine::Active(
                            (Conversation {
                                dists: conversation.dists,
                                delay,
                                next_id: conversation.next_id,
                                state: Active { wait },
                            }),
                        )
                } else {
                    *final(r1) == *final(rng) && res == StateMachine::Idle(conversation)
                },
    {
        let draw_r = D::sample_r;
        let active = draw_r(&conversation.dists, rng);
        if active {
            let draw_w = D::deadline_w;
            let wait: u64 = draw_w(&conversation.dists, rng);
            let draw_a_r = D::deadline_a_r;
            let delay: u64 = draw_a_r(&conversation.dists, rng);
            conversation.after_receive(true, delay, wait)
        } else {
            conversation.after_receive(false, 0, 0)
        }
    }

    fn to_machine(conversation: Conversation<D, Idle>) -> (res: StateMachine<D>) {
        StateMachine::Idle(conversation)
    }
}

impl<D> State<D> for Active {
    open spec fn sent_ok(before: Conversation<D, Active>, after: StateMachine<D>) -> bool {
        after matches StateMachine::Active(c) && c.next_id == before.next_id + 1 && c.dists
            == before.dists && c.state == before.state
    }

    open spec fn received_ok(before: Conversation<D, Active>, after: StateMachine<D>) -> bool {
        after matches StateMachine::Active(c) && c.next_id == before.next_id && c.dists
            == before.dists && c.state == before.state
    }

    open spec fn machine(c: Conversation<D, Active>) -> StateMachine<D> {
        StateMachine::Active(c)
    }

    open spec fn state_name() -> Seq<char> {
        "Active"@
    }

    fn name() -> (res: &'static str) {
        "Active"
    }

    /// Stay Active, with the next id, the same idle deadline, and the next
    /// send at the deadline that one draw from A_s gave.
    fn sent<R>(conversation: Conversation<D, Active>, rng: &mut R) -> (res:
        StateMachine<D>)
        where D: ConversationDists<R>,
        ensures
            exists|r: &mut R, delay: u64|
                *r == *old(rng) && *final(r) == *final(rng) && call_ensures(
                    D::deadline_a_s,
                    (&conversation.dists, r),
                    delay,
                ) && res == StateMachine::Active(
                    (Conversation {
                        dists: conversation.dists,
                        delay,
                        next_id: (conversation.next_id + 1) as u32,
                        state: conversation.state,
                    }),
                ),
    {
        let draw = D::deadline_a_s;
        let delay: u64 = draw(&conversation.dists, rng);
        StateMachine::Active(
            Conversation::<D, Active> {
                dists: conversation.dists,
                delay,
                next_id: conversation.next_id + 1,
                state: conversation.state,
            },
        )
    }

    /// Stay Active, with the same id and idle deadline, and the next send at
    /// the deadline that one draw from A_r gave.
    fn received<R>(conversation: Conversation<D, Active>, rng: &mut R) -> (res:
        StateMachine<D>)
        where D: ConversationDists<R>,
        ensures
            exists|r: &mut R, delay: u64|
                *r == *old(rng) && *final(r) == *final(rng) && call_ensures(
                    D::deadline_a_r,
                    (&conversation.dists, r),
                    delay,
                ) && res == StateMachine::Active(
                    (Conversation {
                        dists: conversation.dists,
                        delay,
                        next_id: conversation.next_id,
                        state: conversation.state,
                    }),
                ),
    {
        let draw = D::deadline_a_r;
        let delay: u64 = draw(&conversation.dists, rng);
        StateMachine::Active(
            Conversation::<D, Active> {
                dists: conversation.dists,
                delay,
                next_id: conversation.next_id,
                state: conversation.state,
            },
        )
    }

    fn to_machine(conversation: Conversation<D, Active>) -> (res: StateMachine<D>) {
        StateMachine::Active(conversation)
    }
}

impl<D> Conversation<D, Idle> {
    /// A new idle conversation with no message sent.
    pub fn start<R>(dists: D, rng: &mut R) -> (res: Self)
        where D: ConversationDists<R>,
        ensures
            res.next_id == 0,
            res.dists == dists,
            exists|r: &mut R|
                *r == *old(rng) && *final(r) == *final(rng) && call_ensures(
                    D::deadline_i,
                    (&dists, r),
                    res.delay,
                ),
    {
        let draw = D::deadline_i;
        let delay: u64 = draw(&dists, rng);
        Conversation { dists, delay, next_id: 0, state: Idle {  } }
    }
}

impl<D> Conversation<D, Idle> {
    /// The conversation after this end sent a message while idle, where S came
    /// out `active`: Active, sending next at `delay` and turning idle at
    /// `wait`; otherwise Idle, sending next at `delay`. Either way the next
    /// message gets the next id.
    pub fn after_send(self, active: bool, delay: u64, wait: u64) -> (res: StateMachine<D>)
        requires
            self.next_id < u32::MAX,
        ensures
            res == (if active {
                StateMachine::Active(
                    (Conversation { dists: self.dists, delay, next_id: (self.next_id + 1) as u32, state: Active { wait } }),
                )
            } else {
                StateMachine::Idle(
                    (Conversation { dists: self.dists, delay, next_id: (self.next_id + 1) as u32, state: Idle {  } }),
                )
            }),
    {
        let next_id: u32 = self.next_id + 1;
        if active {
            StateMachine::Active(Conversation::<D, Active> { dists: self.dists, delay, next_id, state: Active { wait } })
        } else {
            StateMachine::Idle(Conversation::<D, Idle> { dists: self.dists, delay, next_id, state: Idle {  } })
        }
    }

    /// The conversation after this end received a message while idle, where R
    /// came out `active`: Active, sending next at `delay` and turning idle at
    /// `wait`; otherwise unchanged.
    pub fn after_receive(self, active: bool, delay: u64, wait: u64) -> (res: StateMachine<D>)
        ensures
            res == (if active {
                StateMachine::Active(
                    (Conversation { dists: self.dists, delay, next_id: self.next_id, state: Active { wait } }),
                )
            } else {
                StateMachine::Idle(self)
            }),
    {
        if active {
            StateMachine::Active(
                Conversation::<D, Active> { dists: self.dists, delay, next_id: self.next_id, state: Active { wait } },
            )
        } else {
            StateMachine::Idle(self)
        }
    }
}

impl<D> Conversation<D, Active> {
    /// The conversation turned idle after waiting without traffic.
    pub fn waited<R>(self, rng: &mut R) -> (res: Conversation<D, Idle>)
        where D: ConversationDists<R>,
        ensures
            res.next_id == self.next_id,
            res.dists == self.dists,
            exists|r: &mut R|
                *r == *old(rng) && *final(r) == *final(rng) && call_ensures(
                    D::deadline_i,
                    (&self.dists, r),
                    res.delay,
                ),
    {
        let draw = D::deadline_i;
        let delay: u64 = draw(&self.dists, rng);
        Conversation::<D, Idle> { dists: self.dists, delay, next_id: self.next_id, state: Idle {  } }
    }
}

} // verus!

verus! {

/// The serialized receipt of message `id`, from `sender` to `recipient`.
pub open spec fn receipt_wire(sender: Seq<char>, recipient: Seq<char>, id: u32) -> Seq<u8> {
    header_wire(HeaderFields { sender, group: recipient, id, body: MessageBody::Receipt })
}

/// Whether `m` is the message `id` from `sender` to `group` with a body of `blocks` padding blocks.
pub open spec fn is_message(
    m: SerializedMessage,
    sender: Seq<char>,
    group: Seq<char>,
    id: u32,
    blocks: u32,
) -> bool {
    &&& m.body is Size
    &&& m.body.spec_total_size() == blocks_size(blocks)
    &&& m.header@ == header_wire(HeaderFields { sender, group, id, body: m.body })
}

/// Who the receipt of a message goes to: in peer-to-peer conversations
/// (no group name given) the message's group, which names this peer's
/// conversation; through a server, the message's sender.
pub open spec fn receipt_recipient(msg: MessageHeader, group: Option<&str>) -> Seq<char> {
    if group is None {
        msg.group@
    } else {
        msg.sender@
    }
}

/// What a step of the conversation sends.
pub enum Effect {
    /// Send this message, of `blocks` padding blocks and with this id, on every
    /// stream of the conversation.
    Broadcast { message: SerializedMessage, blocks: u32, id: u32 },
    /// Send this receipt on the stream to the named user.
    Reply { to: String, receipt: SerializedMessage },
    /// Send nothing.
    Nothing,
}

/// The result of a step: the next state and what to send.
pub struct Step<D> {
    pub machine: StateMachine<D>,
    pub effect: Effect,
}

/// A sampled message size in padding blocks, capped at `MAX_BLOCKS_IN_BODY`.
pub fn clamp_blocks(raw: u64) -> (res: u32)
    ensures
        res == (if raw < MAX_BLOCKS_IN_BODY as u64 {
            raw
        } else {
            MAX_BLOCKS_IN_BODY as u64
        }),
{
    if raw < MAX_BLOCKS_IN_BODY as u64 {
        raw as u32
    } else {
        MAX_BLOCKS_IN_BODY
    }
}

/// Send the conversation's next message, of `raw` padding blocks as drawn
/// (capped at `MAX_BLOCKS_IN_BODY`): construct it with the conversation's
/// next id, and take the transition for sending.
pub fn send_step<D, R, T: State<D>>(
    conversation: Conversation<D, T>,
    our_id: &str,
    group: &str,
    raw: u64,
    rng: &mut R,
) -> (res: Step<D>)
    where D: ConversationDists<R>,
    requires
        conversation.next_id < u32::MAX,
        20 + utf8(our_id@).len() + utf8(group@).len() <= u32::MAX,
    ensures
        T::sent_ok(conversation, res.machine),
        ({
            &&& res.effect matches Effect::Broadcast { message, blocks, id }
            &&& id == conversation.next_id
            &&& blocks == (if raw < MAX_BLOCKS_IN_BODY as u64 {
                raw
            } else {
                MAX_BLOCKS_IN_BODY as u64
            })
            &&& 1 <= blocks_size(blocks) / PADDING_BLOCK_SIZE as nat <= MAX_BLOCKS_IN_BODY
            &&& is_message(message, our_id@, group@, id, blocks)
        }),
{
    let blocks: u32 = clamp_blocks(raw);
    let id: u32 = conversation.next_id;
    proof {
        lemma_size_constants();
    }
    let message = construct_message(our_id.to_string(), group.to_string(), id, blocks);
    let machine = T::sent(conversation, rng);
    proof {
        let b: nat = if blocks >= 1 { blocks as nat } else { 1nat };
        assert(blocks_size(blocks) / 160 == b) by (nonlinear_arith)
            requires
                blocks_size(blocks) == b * 160,
        ;
    }
    Step { machine, effect: Effect::Broadcast { message, blocks, id } }
}

/// Send the conversation's next message: draw its size from M, then take
/// `send_step` with it; the message has as many blocks as that draw gave,
/// capped at `MAX_BLOCKS_IN_BODY`.
pub fn send_action<D, R, T: State<D>>(
    conversation: Conversation<D, T>,
    our_id: &str,
    group: &str,
    rng: &mut R,
) -> (res: Step<D>)
    where D: ConversationDists<R>,
    requires
        conversation.next_id < u32::MAX,
        20 + utf8(our_id@).len() + utf8(group@).len() <= u32::MAX,
    ensures
        T::sent_ok(conversation, res.machine),
        ({
            &&& res.effect matches Effect::Broadcast { message, blocks, id }
            &&& id == conversation.next_id
            &&& 1 <= blocks_size(blocks) / PADDING_BLOCK_SIZE as nat <= MAX_BLOCKS_IN_BODY
            &&& is_message(message, our_id@, group@, id, blocks)
        }),
        exists|r: &mut R, raw: u64|
            *r == *old(rng) && call_ensures(D::sample_m, (&conversation.dists, r), raw) && (
            res.effect matches Effect::Broadcast { blocks, .. } && blocks == (if raw
                < MAX_BLOCKS_IN_BODY as u64 {
                raw
            } else {
                MAX_BLOCKS_IN_BODY as u64
            })),
{
    let draw = D::sample_m;
    let raw: u64 = draw(&conversation.dists, rng);
    send_step::<D, R, T>(conversation, our_id, group, raw, rng)
}

/// Handle a received message: a message is answered with a receipt on the
/// sender's stream and takes the transition for receiving; a receipt changes nothing.
pub fn receive_action<D, R, T: State<D>>(
    msg: MessageHeader,
    conversation: Conversation<D, T>,
    our_id: &str,
    group: Option<&str>,
    rng: &mut R,
) -> (res: Step<D>)
    where D: ConversationDists<R>,
    requires
        msg.body is Size ==> 20 + utf8(our_id@).len() + utf8(receipt_recipient(msg, group)).len()
            <= u32::MAX,
    ensures
        msg.body is Size ==> {
            &&& T::received_ok(conversation, res.machine)
            &&& res.effect matches Effect::Reply { to, receipt }
            &&& to@ == msg.sender@
            &&& receipt.body == MessageBody::Receipt
            &&& receipt.header@ == receipt_wire(our_id@, receipt_recipient(msg, group), msg.id)
        },
        msg.body is Receipt ==> res.machine == T::machine(conversation) && res.effect is Nothing,
{
    match msg.body {
        MessageBody::Size(_) => {
            let machine = T::received(conversation, rng);
            let to = msg.sender.clone();
            let recipient = if group.is_none() {
                msg.group
            } else {
                msg.sender
            };
            let receipt = construct_receipt(our_id.to_string(), recipient, msg.id);
            Step { machine, effect: Effect::Reply { to, receipt } }
        },
        MessageBody::Receipt => Step { machine: T::to_machine(conversation), effect: Effect::Nothing },
    }
}

/// What an idle conversation waited for: its time to send, or a message.
pub enum IdleGroupActions {
    Send,
    Receive(MessageHeader),
}

/// What an active conversation waited for: its time to send, a message,
/// or its time to turn idle.
pub enum ActiveGroupActions {
    Send,
    Receive(MessageHeader),
    Idle,
}

impl<D> Conversation<D, Active> {
    /// What an active conversation waits for if no message comes: until
    /// `delay` to send, unless `wait`, when it turns idle, comes first.
    pub fn sleep(delay: u64, wait: u64) -> (res: (u64, ActiveGroupActions))
        ensures
            delay < wait ==> res.0 == delay && res.1 is Send,
            delay >= wait ==> res.0 == wait && res.1 is Idle,
    {
        if delay < wait {
            (delay, ActiveGroupActions::Send)
        } else {
            (wait, ActiveGroupActions::Idle)
        }
    }
}

/// Take a step from Idle after the event the conversation waited for.
/// Peer-to-peer conversations (`P2P`) answer receipts to the message's group.
pub fn manage_idle_conversation<const P2P: bool, D, R>(
    conversation: Conversation<D, Idle>,
    action: IdleGroupActions,
    our_id: &str,
    group: &str,
    rng: &mut R,
) -> (res: Step<D>)
    where D: ConversationDists<R>,
    requires
        action is Send ==> conversation.next_id < u32::MAX && 20 + utf8(our_id@).len() + utf8(
            group@,
        ).len() <= u32::MAX,
        action matches IdleGroupActions::Receive(msg) ==> (msg.body is Size ==> 20 + utf8(
            our_id@,
        ).len() + utf8(if P2P { msg.group@ } else { msg.sender@ }).len() <= u32::MAX),
    ensures
        action is Send ==> {
            &&& res.machine.next_id() == conversation.next_id + 1
            &&& res.machine.dists() == conversation.dists
            &&& res.effect matches Effect::Broadcast { message, blocks, id }
            &&& id == conversation.next_id
            &&& is_message(message, our_id@, group@, id, blocks)
        },
        action matches IdleGroupActions::Receive(msg) ==> {
            &&& msg.body is Size ==> {
                &&& <Idle as State<D>>::received_ok(conversation, res.machine)
                &&& res.effect matches Effect::Reply { to, receipt }
                &&& to@ == msg.sender@
                &&& receipt.header@ == receipt_wire(
                    our_id@,
                    if P2P { msg.group@ } else { msg.sender@ },
                    msg.id,
                )
            }
            &&& msg.body is Receipt ==> res.machine == StateMachine::Idle(conversation)
                && res.effect is Nothing
        },
{
    match action {
        IdleGroupActions::Send => send_action::<D, R, Idle>(conversation, our_id, group, rng),
        IdleGroupActions::Receive(msg) => {
            let group = if P2P {
                None
            } else {
                Some(group)
            };
            receive_action::<D, R, Idle>(msg, conversation, our_id, group, rng)
        },
    }
}

/// Take a step from Active after the event the conversation waited for.
/// Peer-to-peer conversations (`p2p`) answer receipts to the message's group.
pub fn manage_active_conversation<D, R>(
    conversation: Conversation<D, Active>,
    action: ActiveGroupActions,
    our_id: &str,
    group: &str,
    p2p: bool,
    rng: &mut R,
) -> (res: Step<D>)
    where D: ConversationDists<R>,
    requires
        action is Send ==> conversation.next_id < u32::MAX && 20 + utf8(our_id@).len() + utf8(
            group@,
        ).len() <= u32::MAX,
        action matches ActiveGroupActions::Receive(msg) ==> (msg.body is Size ==> 20 + utf8(
            our_id@,
        ).len() + utf8(if p2p { msg.group@ } else { msg.sender@ }).len() <= u32::MAX),
    ensures
        action is Send ==> {
            &&& <Active as State<D>>::sent_ok(conversation, res.machine)
            &&& res.effect matches Effect::Broadcast { message, blocks, id }
            &&& id == conversation.next_id
            &&& is_message(message, our_id@, group@, id, blocks)
        },
        action matches ActiveGroupActions::Receive(msg) ==> {
            &&& msg.body is Size ==> {
                &&& <Active as State<D>>::received_ok(conversation, res.machine)
                &&& res.effect matches Effect::Reply { to, receipt }
                &&& to@ == msg.sender@
                &&& receipt.header@ == receipt_wire(
                    our_id@,
                    if p2p { msg.group@ } else { msg.sender@ },
                    msg.id,
                )
            }
            &&& msg.body is Receipt ==> res.machine == StateMachine::Active(conversation)
                && res.effect is Nothing
        },
        action is Idle ==> {
            &&& res.machine matches StateMachine::Idle(c)
            &&& c.next_id == conversation.next_id
            &&& c.dists == conversation.dists
            &&& res.effect is Nothing
        },
        action is Idle ==> (res.machine matches StateMachine::Idle(c) && exists|r: &mut R|
            *r == *old(rng) && *final(r) == *final(rng) && call_ensures(
                D::deadline_i,
                (&conversation.dists, r),
                c.delay,
            )),
{
    match action {
        ActiveGroupActions::Send => send_action::<D, R, Active>(conversation, our_id, group, rng),
        ActiveGroupActions::Receive(msg) => {
            let group = if p2p {
                None
            } else {
                Some(group)
            };
            receive_action::<D, R, Active>(msg, conversation, our_id, group, rng)
        },
        ActiveGroupActions::Idle => Step {
            machine: StateMachine::Idle(conversation.waited(rng)),
            effect: Effect::Nothing,
        },
    }
}

} // verus!
