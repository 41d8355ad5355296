//! Constructing the common messages of the messengers.
use vstd::prelude::*;

use crate::nonzero::{lemma_nonzero_get_new, NonZeroU32};
use crate::wire::{
    header_fits, header_wire, utf8, HeaderFields, MessageBody, MessageHeader, SerializedMessage,
    PADDING_BLOCK_SIZE,
};

verus! {

/// The body size in bytes of a message of `blocks` padding blocks: at least one block.
pub open spec fn blocks_size(blocks: u32) -> nat {
    (if blocks >= 1 { blocks as nat } else { 1nat }) * PADDING_BLOCK_SIZE as nat
}

/// Construct and serialize a message from the sender to the recipients with the given number of blocks.
pub fn construct_message(sender: String, group: String, id: u32, blocks: u32) -> (res:
    SerializedMessage)
    requires
        blocks <= u32::MAX / PADDING_BLOCK_SIZE,
        20 + utf8(sender@).len() + utf8(group@).len() <= u32::MAX,
    ensures
        res.body is Size,
        res.body.spec_total_size() == blocks_size(blocks),
        res.header@ == header_wire(
            HeaderFields { sender: sender@, group: group@, id, body: res.body },
        ),
{
    let b: u32 = if blocks >= 1 { blocks } else { 1 };
    proof {
        broadcast use lemma_nonzero_get_new;

        assert(1 <= b * 160 <= u32::MAX) by (nonlinear_arith)
            requires
                1 <= b <= u32::MAX / 160,
        ;
    }
    let size: u32 = b * PADDING_BLOCK_SIZE;
    let body = match NonZeroU32::new(size) {
        Some(s) => MessageBody::Size(s),
        None => MessageBody::Receipt,
    };
    let m = MessageHeader { sender, group, id, body };
    m.serialize()
}

/// Construct and serialize the receipt of message `id` from `sender` to `recipient`.
pub fn construct_receipt(sender: String, recipient: String, id: u32) -> (res: SerializedMessage)
    requires
        20 + utf8(sender@).len() + utf8(recipient@).len() <= u32::MAX,
    ensures
        res.body == MessageBody::Receipt,
        res.header@ == header_wire(
            HeaderFields { sender: sender@, group: recipient@, id, body: MessageBody::Receipt },
        ),
{
    let m = MessageHeader { sender, group: recipient, id, body: MessageBody::Receipt };
    m.serialize()
}

} // verus!

verus! {

/// Every message body is a whole number of padding blocks, at least one:
/// what `construct_message` gives has a size that is a positive multiple of
/// `PADDING_BLOCK_SIZE`, and so has a receipt.
pub proof fn lemma_padded_sizes(blocks: u32)
    ensures
        blocks_size(blocks) % (PADDING_BLOCK_SIZE as nat) == 0,
        blocks_size(blocks) >= PADDING_BLOCK_SIZE,
        MessageBody::Receipt.spec_total_size() == PADDING_BLOCK_SIZE,
{
    let b: nat = if blocks >= 1 { blocks as nat } else { 1nat };
    assert((b * 160) % 160 == 0 && b * 160 >= 160) by (nonlinear_arith)
        requires
            b >= 1,
    ;
}

} // verus!
