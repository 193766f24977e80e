//! The partition writer's batching and drain state machine.
//!
//! One writer owns one partition's durability pipeline. Inbound messages
//! accumulate in a pending batch; when the pending count reaches the topic's
//! advisory `batch_size` (1 when unset), the batch is encoded and handed back
//! as bytes to append to the partition's segment file. On cancellation the
//! writer drains: any pending messages are flushed as one final batch and the
//! writer is closed for good.
//!
//! Batching policy (observable, and part of this broker's contract): a flush
//! is triggered exactly when the pending batch reaches `batch_size` messages;
//! draining flushes whatever is pending as a final, smaller batch.
//!
//! The caller owns the actual file handle; the writer accounts for every
//! byte it has handed out, so that the segment's decoded contents are pinned:
//! they are exactly the flushed batches, whose concatenation is exactly the
//! accepted messages in arrival order.

use vstd::prelude::*;

use crate::codec::{
    all_batches_valid, batch_records_valid, encode_batch, lemma_decode_all_round_trip,
    lemma_encode_batches_snoc, lemma_encode_body_snoc, lemma_encode_message_len, msg_valid,
    spec_decode_all, spec_encode_batch, spec_encode_batches, spec_encode_body,
    spec_encode_message,
};
use crate::models::{messages_view, Batch, Message, MessageView, PartitionInfo};

verus! {

/// The number of messages that trigger a flush, drawn from the topic's
/// advisory `batch_size`: at least 1, so a lone message is never stuck.
pub open spec fn spec_batch_capacity(batch_size: Option<u32>) -> int {
    match batch_size {
        Option::Some(b) => if b >= 1 {
            b as int
        } else {
            1
        },
        Option::None => 1,
    }
}

/// Per-partition writer state: the owning partition, the flush threshold,
/// the pending not-yet-written messages, and (as ghost bookkeeping) every
/// batch flushed so far.
pub struct PartitionWriter {
    pub info: PartitionInfo,
    pub capacity: usize,
    pub pending: Vec<Message>,
    pub pending_bytes: u64,
    pub closed: bool,
    pub flushed: Ghost<Seq<Seq<MessageView>>>,
}

impl PartitionWriter {
    /// The pending batch is accounted for exactly: the byte count matches its
    /// encoding, which fits one batch, and every pending message is
    /// encodable.
    pub open spec fn pending_wf(self) -> bool {
        &&& self.pending_bytes == spec_encode_body(messages_view(self.pending@)).len()
        &&& spec_encode_body(messages_view(self.pending@)).len() < 0x1_0000_0000
        &&& (forall|i: int| 0 <= i < self.pending@.len() ==> msg_valid(self.pending@[i]@))
    }

    /// Well-formedness: the flush threshold is positive and the pending batch
    /// is strictly below it; the pending batch is accounted for; every
    /// flushed batch was encodable; a closed writer holds nothing pending.
    pub open spec fn wf(self) -> bool {
        &&& self.capacity >= 1
        &&& self.pending@.len() < self.capacity
        &&& self.pending_wf()
        &&& all_batches_valid(self.flushed@)
        &&& (self.closed ==> self.pending@.len() == 0)
    }

    /// The bytes this writer has handed out for appending so far: the
    /// concatenated encodings of its flushed batches — the contents of the
    /// partition's segment file.
    pub open spec fn segment(self) -> Seq<u8> {
        spec_encode_batches(self.flushed@)
    }

    /// Every message this writer has accepted, in arrival order: the flushed
    /// ones followed by the pending ones.
    pub open spec fn accepted(self) -> Seq<MessageView> {
        self.flushed@.flatten() + messages_view(self.pending@)
    }

    /// Construct the writer for one partition, drawing the flush threshold
    /// from the topic's advisory `batch_size`.
    pub fn new(info: PartitionInfo) -> (r: Self)
        ensures
            r.wf(),
            r.info == info,
            !r.closed,
            r.capacity as int == spec_batch_capacity(info.topic.batch_size),
            r.flushed@ =~= Seq::<Seq<MessageView>>::empty(),
            r.pending@.len() == 0,
    {
        let capacity: usize = match info.topic.batch_size {
            Option::Some(b) => if b >= 1 {
                b as usize
            } else {
                1
            },
            Option::None => 1,
        };
        let r = PartitionWriter {
            info,
            capacity,
            pending: Vec::new(),
            pending_bytes: 0,
            closed: false,
            flushed: Ghost(Seq::empty()),
        };
        proof {
            assert(messages_view(r.pending@) =~= Seq::<MessageView>::empty());
        }
        r
    }

    /// Whether one more message can join the pending batch without the
    /// encoded body outgrowing the format's 32-bit length field.
    pub fn can_accept(&self, m: &Message) -> (r: bool)
        requires
            self.wf(),
        ensures
            r == (msg_valid(m@) && spec_encode_body(messages_view(self.pending@).push(m@)).len()
                < 0x1_0000_0000),
    {
        proof {
            lemma_encode_body_snoc(messages_view(self.pending@), m@);
            lemma_encode_message_len(m@);
        }
        let plen = m.payload.len() as u64;
        if plen >= 0x1_0000_0000u64 {
            return false;
        }
        let kpart: u64 = match &m.key {
            Option::None => 1,
            Option::Some(k) => {
                let klen = k.as_str().as_bytes().len() as u64;
                if klen >= 0x1_0000_0000u64 {
                    return false;
                }
                5 + klen
            },
        };
        let tpart: u64 = match m.timestamp {
            Option::None => 1,
            Option::Some(_) => 9,
        };
        let mlen: u64 = 4 + plen + kpart + tpart;
        self.pending_bytes + mlen < 0x1_0000_0000u64
    }

    /// Encoded length of one message, in bytes.
    fn encoded_message_len(m: &Message) -> (r: u64)
        requires
            msg_valid(m@),
        ensures
            r == spec_encode_message(m@).len(),
    {
        proof {
            lemma_encode_message_len(m@);
        }
        let plen = m.payload.len() as u64;
        let kpart: u64 = match &m.key {
            Option::None => 1,
            Option::Some(k) => 5 + k.as_str().as_bytes().len() as u64,
        };
        let tpart: u64 = match m.timestamp {
            Option::None => 1,
            Option::Some(_) => 9,
        };
        4 + plen + kpart + tpart
    }

    /// Move the pending messages out as one batch, encode it, and record it
    /// as flushed.
    fn flush_pending(&mut self) -> (bytes: Vec<u8>)
        requires
            old(self).pending_wf(),
            all_batches_valid(old(self).flushed@),
            old(self).pending@.len() > 0,
        ensures
            final(self).pending_wf(),
            all_batches_valid(final(self).flushed@),
            final(self).capacity == old(self).capacity,
            final(self).info == old(self).info,
            final(self).closed == old(self).closed,
            final(self).pending@.len() == 0,
            final(self).flushed@ == old(self).flushed@.push(messages_view(old(self).pending@)),
            bytes@ == spec_encode_batch(messages_view(old(self).pending@)),
            final(self).segment() == old(self).segment() + bytes@,
    {
        let ghost pv = messages_view(self.pending@);
        let mut records: Vec<Message> = Vec::new();
        records.append(&mut self.pending);
        let b = Batch { records };
        proof {
            assert(batch_records_valid(b@));
        }
        let bytes = encode_batch(&b);
        self.pending_bytes = 0;
        proof {
            lemma_encode_batches_snoc(self.flushed@, b@);
        }
        self.flushed = Ghost(self.flushed@.push(b@));
        proof {
            assert(messages_view(self.pending@) =~= Seq::<MessageView>::empty());
            assert(forall|i: int|
                0 <= i < self.flushed@.len() ==> batch_records_valid(#[trigger] self.flushed@[i]));
        }
        bytes
    }

    /// Append one message to the pending batch and account for its bytes.
    fn queue_message(&mut self, m: Message)
        requires
            old(self).pending_wf(),
            msg_valid(m@),
            spec_encode_body(messages_view(old(self).pending@).push(m@)).len() < 0x1_0000_0000,
        ensures
            final(self).pending_wf(),
            messages_view(final(self).pending@) == messages_view(old(self).pending@).push(m@),
            final(self).pending@.len() == old(self).pending@.len() + 1,
            final(self).flushed@ == old(self).flushed@,
            final(self).capacity == old(self).capacity,
            final(self).info == old(self).info,
            final(self).closed == old(self).closed,
    {
        let ghost mv = m@;
        let ghost pv0 = messages_view(self.pending@);
        proof {
            lemma_encode_body_snoc(pv0, mv);
        }
        let mlen = Self::encoded_message_len(&m);
        self.pending.push(m);
        self.pending_bytes = self.pending_bytes + mlen;
        proof {
            assert(messages_view(self.pending@) =~= pv0.push(mv));
        }
    }

    /// Accept one inbound message. When it fills the pending batch to the
    /// flush threshold, the batch — the earlier pending messages then this
    /// one, in arrival order — is encoded and returned for appending to the
    /// segment file; otherwise the message is only queued.
    #[verifier::rlimit(100)]
    pub fn on_message(&mut self, m: Message) -> (out: Option<Vec<u8>>)
        requires
            old(self).wf(),
            !old(self).closed,
            msg_valid(m@),
            spec_encode_body(messages_view(old(self).pending@).push(m@)).len() < 0x1_0000_0000,
        ensures
            final(self).wf(),
            !final(self).closed,
            final(self).capacity == old(self).capacity,
            final(self).info == old(self).info,
            final(self).accepted() == old(self).accepted().push(m@),
            (out is Some) <==> old(self).pending@.len() + 1 == old(self).capacity,
            match out {
                Option::Some(bytes) => {
                    &&& final(self).flushed@ == old(self).flushed@.push(
                        messages_view(old(self).pending@).push(m@),
                    )
                    &&& final(self).pending@.len() == 0
                    &&& bytes@ == spec_encode_batch(messages_view(old(self).pending@).push(m@))
                    &&& final(self).segment() == old(self).segment() + bytes@
                },
                Option::None => {
                    &&& final(self).flushed@ == old(self).flushed@
                    &&& messages_view(final(self).pending@) == messages_view(
                        old(self).pending@,
                    ).push(m@)
                    &&& final(self).segment() == old(self).segment()
                },
            },
    {
        let ghost mv = m@;
        let ghost pv0 = messages_view(self.pending@);
        self.queue_message(m);
        if self.pending.len() == self.capacity {
            let bytes = self.flush_pending();
            proof {
                old(self).flushed@.lemma_flatten_push(pv0.push(mv));
                assert(messages_view(self.pending@) =~= Seq::<MessageView>::empty());
                assert(self.accepted() =~= old(self).accepted().push(mv));
            }
            Option::Some(bytes)
        } else {
            proof {
                assert(self.accepted() =~= old(self).accepted().push(mv));
            }
            Option::None
        }
    }

    /// Drain on cancellation: flush any pending messages as one final batch
    /// and close the writer. Every message accepted before the drain is then
    /// flushed — none is silently discarded.
    pub fn drain(&mut self) -> (out: Option<Vec<u8>>)
        requires
            old(self).wf(),
            !old(self).closed,
        ensures
            final(self).wf(),
            final(self).closed,
            final(self).capacity == old(self).capacity,
            final(self).info == old(self).info,
            final(self).pending@.len() == 0,
            final(self).accepted() == old(self).accepted(),
            final(self).flushed@.flatten() == old(self).accepted(),
            (out is Some) <==> old(self).pending@.len() > 0,
            match out {
                Option::Some(bytes) => {
                    &&& final(self).flushed@ == old(self).flushed@.push(
                        messages_view(old(self).pending@),
                    )
                    &&& bytes@ == spec_encode_batch(messages_view(old(self).pending@))
                    &&& final(self).segment() == old(self).segment() + bytes@
                },
                Option::None => {
                    &&& final(self).flushed@ == old(self).flushed@
                    &&& final(self).segment() == old(self).segment()
                },
            },
    {
        let ghost pv0 = messages_view(self.pending@);
        if self.pending.len() == 0 {
            self.closed = true;
            proof {
                assert(pv0 =~= Seq::<MessageView>::empty());
                assert(self.accepted() =~= old(self).accepted());
                assert(self.flushed@.flatten() =~= old(self).accepted());
            }
            Option::None
        } else {
            let bytes = self.flush_pending();
            self.closed = true;
            proof {
                old(self).flushed@.lemma_flatten_push(pv0);
                assert(messages_view(self.pending@) =~= Seq::<MessageView>::empty());
                assert(self.flushed@.flatten() =~= old(self).accepted());
                assert(self.accepted() =~= old(self).accepted());
            }
            Option::Some(bytes)
        }
    }
}

/// Law (per-partition ordering and drain-on-shutdown): a well-formed writer's
/// segment bytes decode to exactly the batches it flushed, in flush order;
/// and once the writer has been drained, the concatenation of those batches
/// is exactly every message it accepted, in arrival order — so messages sent
/// before cancellation are all present, none reordered and none dropped.
pub proof fn lemma_segment_decodes_in_order(w: PartitionWriter)
    requires
        w.wf(),
    ensures
        spec_decode_all(w.segment()) == Some(w.flushed@),
        w.closed ==> w.flushed@.flatten() == w.accepted(),
{
    lemma_decode_all_round_trip(w.flushed@);
    if w.closed {
        assert(messages_view(w.pending@) =~= Seq::<MessageView>::empty());
        assert(w.flushed@.flatten() + messages_view(w.pending@) =~= w.flushed@.flatten());
    }
}

} // verus!
