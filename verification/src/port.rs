//! Ports: single-slot channels between processors with explicit
//! flow-control signals.

use vstd::prelude::*;
use crate::datavalues::DataBlock;
use crate::error::ErrorCode;

verus! {

/// One partition's rows, tagged with the partition they were routed to.
#[derive(Clone, Debug, PartialEq, Eq)]
pub struct PartitionBlock {
    pub partition_id: usize,
    pub block: DataBlock,
}

/// What travels through a port: rows, or a control payload of
/// pre-partitioned buckets.
#[derive(Clone, Debug, PartialEq, Eq)]
pub enum Batch {
    Rows(DataBlock),
    Partitions(Vec<PartitionBlock>),
}

impl Batch {
    /// Every block carried is well formed.
    pub open spec fn well_formed(&self) -> bool {
        match self {
            Batch::Rows(b) => b.well_formed(),
            Batch::Partitions(parts) => forall|i: int| 0 <= i < parts@.len() ==> (#[trigger] parts@[i]).block.well_formed(),
        }
    }

    /// The number of rows carried, over all blocks.
    pub open spec fn row_count(&self) -> nat {
        match self {
            Batch::Rows(b) => b.num_rows as nat,
            Batch::Partitions(parts) => partitions_row_count(parts@),
        }
    }
}

/// The number of rows in a list of partition blocks.
pub open spec fn partitions_row_count(parts: Seq<PartitionBlock>) -> nat
    decreases parts.len(),
{
    if parts.len() == 0 {
        0
    } else {
        partitions_row_count(parts.drop_last()) + parts.last().block.num_rows as nat
    }
}

/// What a port may hold in flight: a batch or an error.
pub type Packet = Result<Batch, ErrorCode>;

/// The flow-control state of a port.
#[derive(Clone, Copy, Debug, PartialEq, Eq, Structural)]
pub enum PortState {
    /// Empty, and the consumer has not asked for data.
    Idle,
    /// A packet is in flight.
    HasData,
    /// Empty, and the consumer has asked for data.
    NeedData,
    /// Closed for good.
    Finished,
}

/// A unidirectional channel that holds at most one packet.
#[derive(Debug)]
pub struct Port {
    pub state: PortState,
    pub slot: Option<Packet>,
}

impl Port {
    /// A packet is held exactly in state `HasData`.
    pub open spec fn well_formed(&self) -> bool {
        self.slot.is_some() <==> self.state == PortState::HasData
    }

    pub open spec fn spec_can_push(&self) -> bool {
        self.state == PortState::NeedData
    }

    pub open spec fn spec_has_data(&self) -> bool {
        self.state == PortState::HasData
    }

    pub open spec fn spec_is_finished(&self) -> bool {
        self.state == PortState::Finished
    }

    /// A fresh port: empty, nothing asked for.
    pub fn create() -> (p: Port)
        ensures
            p.well_formed(),
            p.state == PortState::Idle,
            p.slot.is_none(),
    {
        Port { state: PortState::Idle, slot: None }
    }

    /// Whether the producer may push: the consumer asked for data and the
    /// slot is empty.
    pub fn can_push(&self) -> (b: bool)
        ensures
            b == self.spec_can_push(),
    {
        match self.state {
            PortState::NeedData => true,
            _ => false,
        }
    }

    pub fn has_data(&self) -> (b: bool)
        ensures
            b == self.spec_has_data(),
    {
        match self.state {
            PortState::HasData => true,
            _ => false,
        }
    }

    pub fn is_finished(&self) -> (b: bool)
        ensures
            b == self.spec_is_finished(),
    {
        match self.state {
            PortState::Finished => true,
            _ => false,
        }
    }

    /// The consumer asks for data. Only an idle port changes: a full or
    /// finished port stays as it is.
    pub fn set_need_data(&mut self)
        requires
            old(self).well_formed(),
        ensures
            final(self).well_formed(),
            final(self).slot == old(self).slot,
            final(self).state == (if old(self).state == PortState::Idle {
                PortState::NeedData
            } else {
                old(self).state
            }),
    {
        match self.state {
            PortState::Idle => {
                self.state = PortState::NeedData;
            },
            _ => {},
        }
    }

    /// Puts a packet in flight. The producer may push only when `can_push`
    /// holds.
    pub fn push_data(&mut self, packet: Packet)
        requires
            old(self).well_formed(),
            old(self).spec_can_push(),
        ensures
            final(self).well_formed(),
            final(self).state == PortState::HasData,
            final(self).slot == Some(packet),
    {
        self.state = PortState::HasData;
        self.slot = Some(packet);
    }

    /// Takes the packet in flight, leaving the port idle. A port without
    /// data yields nothing and is left unchanged.
    pub fn pull_data(&mut self) -> (packet: Option<Packet>)
        requires
            old(self).well_formed(),
        ensures
            final(self).well_formed(),
            packet == old(self).slot,
            final(self).slot.is_none(),
            final(self).state == (if old(self).spec_has_data() {
                PortState::Idle
            } else {
                old(self).state
            }),
    {
        match self.state {
            PortState::HasData => {
                self.state = PortState::Idle;
                self.slot.take()
            },
            _ => None,
        }
    }

    /// Closes the port. Closing discards a packet still in flight, is
    /// idempotent, and no operation reopens a closed port.
    pub fn finish(&mut self)
        ensures
            final(self).well_formed(),
            final(self).state == PortState::Finished,
            final(self).slot.is_none(),
    {
        self.state = PortState::Finished;
        self.slot = None;
    }

    /// Carries signals across a link whose producer end is `upstream` and
    /// whose consumer end is `downstream`: a finish on either end closes the
    /// other, a packet moves downstream when the consumer end is empty, and
    /// the consumer's request for data is passed upstream.
    pub fn transfer(upstream: &mut Port, downstream: &mut Port)
        requires
            old(upstream).well_formed(),
            old(downstream).well_formed(),
        ensures
            final(upstream).well_formed(),
            final(downstream).well_formed(),
            link_after(*old(upstream), *old(downstream)) == (*final(upstream), *final(downstream)),
    {
        if downstream.is_finished() {
            upstream.finish();
        } else if upstream.is_finished() {
            if !downstream.has_data() {
                downstream.finish();
            }
        } else if upstream.has_data() {
            if !downstream.has_data() {
                let packet = upstream.slot.take();
                upstream.state = PortState::Idle;
                downstream.slot = packet;
                downstream.state = PortState::HasData;
            }
        } else if downstream.can_push() {
            upstream.set_need_data();
        }
    }
}

/// The two ends of a link after one `transfer`.
pub open spec fn link_after(up: Port, down: Port) -> (Port, Port) {
    if down.spec_is_finished() {
        (Port { state: PortState::Finished, slot: None }, down)
    } else if up.spec_is_finished() {
        if down.spec_has_data() {
            (up, down)
        } else {
            (up, Port { state: PortState::Finished, slot: None })
        }
    } else if up.spec_has_data() {
        if down.spec_has_data() {
            (up, down)
        } else {
            (Port { state: PortState::Idle, slot: None }, Port { state: PortState::HasData, slot: up.slot })
        }
    } else if down.spec_can_push() {
        (Port { state: PortState::NeedData, slot: up.slot }, down)
    } else {
        (up, down)
    }
}

/// A finished port stays finished under every port operation and under
/// `transfer` on either end.
pub proof fn lemma_finish_is_irreversible(up: Port, down: Port)
    requires
        up.well_formed(),
        down.well_formed(),
    ensures
        up.spec_is_finished() ==> link_after(up, down).0.spec_is_finished(),
        down.spec_is_finished() ==> link_after(up, down).1.spec_is_finished(),
        down.spec_is_finished() ==> link_after(up, down).0.spec_is_finished(),
        up.spec_is_finished() && !down.spec_has_data() ==> link_after(up, down).1.spec_is_finished(),
{
}

/// What a processor reports when polled.
#[derive(Clone, Copy, Debug, PartialEq, Eq, Structural)]
pub enum Event {
    /// Blocked until an input port has data.
    NeedData,
    /// Blocked until an output port is consumed.
    NeedConsume,
    /// Buffered work is ready: run the synchronous step now.
    Sync,
    /// Waiting on a shared condition that another party resolves.
    Async,
    /// Done; the processor is not polled again.
    Finished,
}

} // verus!
