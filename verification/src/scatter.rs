//! The scatter operator: redistributes the rows of each incoming block over
//! a fixed number of logical partitions by a hash of the key columns, and
//! hands the partitions round-robin to the output channels.

use vstd::prelude::*;
use std::collections::VecDeque;
use crate::datavalues::{DataBlock, Scalar};
use crate::hashing::{hash_rows, key_of_row, row_hash};
use crate::error::ErrorCode;
use crate::port::{partitions_row_count, Batch, Event, PartitionBlock, Port, PortState};
use crate::selection::{
    collect_positions, count_of, counts, lemma_count_below_total, lemma_positions,
    lemma_sum_below_total, lemma_picked_concat, lemma_total_counts, picked, positions, sum_at, sum_below, };

verus! {

/// The logical partition of a key: its hash modulo the partition count.
pub open spec fn partition_of(seed: u64, key: Seq<Scalar>, partitions: usize) -> usize
    recommends
        partitions > 0,
{
    (row_hash(seed, key) % (partitions as u64)) as usize
}

/// The partition of every row of a block, by the row's key.
pub open spec fn partition_tags(block: DataBlock, keys: Seq<usize>, seed: u64, partitions: usize) -> Seq<usize> {
    Seq::new(block.num_rows as nat, |r: int| partition_of(seed, key_of_row(block, keys, r), partitions))
}

/// The channel of every partition: partitions go round-robin to channels.
pub open spec fn channel_tags(partitions: usize, channels: usize) -> Seq<usize>
    recommends
        channels > 0,
{
    Seq::new(partitions as nat, |p: int| (p % (channels as int)) as usize)
}

/// The partitions that channel `c` receives, in ascending order.
pub open spec fn channel_partitions(partitions: usize, channels: usize, c: usize) -> Seq<usize> {
    positions(channel_tags(partitions, channels), c)
}

/// The rows of `block` that carry tag `p`, in input order.
pub open spec fn selected_rows(block: DataBlock, tags: Seq<usize>, p: usize) -> Seq<Seq<Scalar>> {
    Seq::new(count_of(tags, p), |i: int| block.rows()[positions(tags, p)[i] as int])
}

/// The number of rows over all channels.
pub open spec fn channels_row_count(channels: Seq<Vec<PartitionBlock>>) -> nat
    decreases channels.len(),
{
    if channels.len() == 0 {
        0
    } else {
        channels_row_count(channels.drop_last()) + partitions_row_count(channels.last()@)
    }
}

/// What one channel must hold after scattering `block` by `tags`: one block
/// per partition of the channel, in ascending partition order, each with
/// exactly the rows tagged with that partition.
pub open spec fn is_channel_output(
    block: DataBlock,
    tags: Seq<usize>,
    partitions: usize,
    channels: usize,
    c: usize,
    parts: Seq<PartitionBlock>,
) -> bool {
    &&& parts.len() == channel_partitions(partitions, channels, c).len()
    &&& forall|i: int| 0 <= i < parts.len() ==> {
        &&& (#[trigger] parts[i]).partition_id == channel_partitions(partitions, channels, c)[i]
        &&& parts[i].block.well_formed()
        &&& parts[i].block.types() == block.types()
        &&& parts[i].block.rows() == selected_rows(block, tags, parts[i].partition_id)
    }
}

/// Two rows with equal keys get the same partition, whatever the partition
/// count, and therefore the same channel, whatever the channel count.
pub proof fn lemma_equal_keys_same_partition(
    block: DataBlock,
    keys: Seq<usize>,
    seed: u64,
    partitions: usize,
    channels: usize,
    r1: int,
    r2: int,
)
    requires
        0 <= r1 < block.num_rows,
        0 <= r2 < block.num_rows,
        key_of_row(block, keys, r1) == key_of_row(block, keys, r2),
    ensures
        partition_tags(block, keys, seed, partitions)[r1] == partition_tags(block, keys, seed, partitions)[r2],
        partition_tags(block, keys, seed, partitions)[r1] % channels == partition_tags(
            block,
            keys,
            seed,
            partitions,
        )[r2] % channels,
{
}

/// The partition assignment depends on nothing but the key, the seed and
/// the partition count: two blocks that agree on a row's key agree on its
/// partition.
pub proof fn lemma_partition_is_deterministic(
    a: DataBlock,
    b: DataBlock,
    keys: Seq<usize>,
    seed: u64,
    partitions: usize,
    ra: int,
    rb: int,
)
    requires
        0 <= ra < a.num_rows,
        0 <= rb < b.num_rows,
        key_of_row(a, keys, ra) == key_of_row(b, keys, rb),
    ensures
        partition_tags(a, keys, seed, partitions)[ra] == partition_tags(b, keys, seed, partitions)[rb],
{
}

/// Where a block is cut does not show in its partitions: when the rows of
/// `whole` are the rows of `head` followed by the rows of `tail`, every
/// partition of `whole` is the same partition of `head` followed by the same
/// partition of `tail`. So the same keys, cut into batches at whatever
/// places, give every partition the same rows in the same order.
pub proof fn lemma_partitions_of_a_cut(whole: DataBlock, head: DataBlock, tail: DataBlock, keys: Seq<usize>, seed: u64, partitions: usize, p: usize)
    requires
        whole.rows() == head.rows() + tail.rows(),
        whole.num_rows == head.num_rows + tail.num_rows,
        whole.columns@.len() == head.columns@.len(),
        whole.columns@.len() == tail.columns@.len(),
        forall|k: int| 0 <= k < keys.len() ==> (#[trigger] keys[k]) < whole.columns@.len(),
    ensures
        selected_rows(whole, partition_tags(whole, keys, seed, partitions), p) == selected_rows(
            head,
            partition_tags(head, keys, seed, partitions),
            p,
        ) + selected_rows(tail, partition_tags(tail, keys, seed, partitions), p),
{
    let all = partition_tags(whole, keys, seed, partitions);
    let first = partition_tags(head, keys, seed, partitions);
    let second = partition_tags(tail, keys, seed, partitions);
    let n = head.num_rows as int;
    assert forall|r: int| 0 <= r < whole.num_rows implies all[r] == (first + second)[r] by {
        if r < n {
            assert(whole.rows()[r] == head.rows()[r]);
            assert forall|k: int| 0 <= k < keys.len() implies key_of_row(whole, keys, r)[k] == key_of_row(head, keys, r)[k] by {
                assert(whole.row(r)[keys[k] as int] == head.row(r)[keys[k] as int]);
            }
            assert(key_of_row(whole, keys, r) =~= key_of_row(head, keys, r));
        } else {
            assert(whole.rows()[r] == tail.rows()[r - n]);
            assert forall|k: int| 0 <= k < keys.len() implies key_of_row(whole, keys, r)[k] == key_of_row(tail, keys, r - n)[k] by {
                assert(whole.row(r)[keys[k] as int] == tail.row(r - n)[keys[k] as int]);
            }
            assert(key_of_row(whole, keys, r) =~= key_of_row(tail, keys, r - n));
        }
    }
    assert(all =~= first + second);
    lemma_picked_concat(head.rows(), first, tail.rows(), second, p);
    assert(selected_rows(whole, all, p) =~= picked(whole.rows(), positions(all, p)));
    assert(selected_rows(head, first, p) =~= picked(head.rows(), positions(first, p)));
    assert(selected_rows(tail, second, p) =~= picked(tail.rows(), positions(second, p)));
}

/// Regrouping partitions into channels keeps every tagged row: the rows per
/// partition, summed channel by channel, are all the rows.
pub proof fn lemma_scatter_conserves_rows(tags: Seq<usize>, partitions: usize, channels: usize)
    requires
        channels > 0,
        tags.len() <= usize::MAX,
        forall|r: int| 0 <= r < tags.len() ==> (#[trigger] tags[r]) < partitions,
    ensures
        sum_below(counts(tags, partitions), channel_tags(partitions, channels), channels) == tags.len(),
{
    let chan = channel_tags(partitions, channels);
    assert forall|p: int| 0 <= p < chan.len() implies (#[trigger] chan[p]) < channels by {
        assert(0 <= p % (channels as int) < channels);
    }
    lemma_sum_below_total(counts(tags, partitions), chan, channels);
    lemma_total_counts(tags, partitions);
    lemma_count_below_total(tags, partitions);
}

/// The partition of every row of `block` under `seed`.
pub fn partition_indices(block: &DataBlock, keys: &Vec<usize>, seed: u64, partitions: usize) -> (tags: Vec<usize>)
    requires
        block.well_formed(),
        partitions > 0,
        forall|k: int| 0 <= k < keys@.len() ==> (#[trigger] keys@[k]) < block.columns@.len(),
    ensures
        tags@ == partition_tags(*block, keys@, seed, partitions),
        forall|r: int| 0 <= r < tags@.len() ==> (#[trigger] tags@[r]) < partitions,
{
    let hashes = hash_rows(block, keys, seed);
    let mut tags: Vec<usize> = Vec::with_capacity(hashes.len());
    let mut r: usize = 0;
    while r < hashes.len()
        invariant
            r <= hashes@.len(),
            hashes@.len() == block.num_rows,
            partitions > 0,
            tags@.len() == r,
            forall|q: int| 0 <= q < block.num_rows ==> (#[trigger] hashes@[q]) == row_hash(seed, key_of_row(*block, keys@, q)),
            forall|q: int| 0 <= q < r ==> (#[trigger] tags@[q]) == partition_of(seed, key_of_row(*block, keys@, q), partitions),
            forall|q: int| 0 <= q < r ==> (#[trigger] tags@[q]) < partitions,
        decreases hashes@.len() - r,
    {
        let tag = (hashes[r] % (partitions as u64)) as usize;
        tags.push(tag);
        r += 1;
    }
    assert(tags@ =~= partition_tags(*block, keys@, seed, partitions));
    tags
}

/// The channel of every partition.
pub fn channel_indices(partitions: usize, channels: usize) -> (chan: Vec<usize>)
    requires
        channels > 0,
    ensures
        chan@ == channel_tags(partitions, channels),
{
    let mut chan: Vec<usize> = Vec::with_capacity(partitions);
    let mut p: usize = 0;
    while p < partitions
        invariant
            p <= partitions,
            channels > 0,
            chan@.len() == p,
            forall|q: int| 0 <= q < p ==> (#[trigger] chan@[q]) == (q % (channels as int)) as usize,
        decreases partitions - p,
    {
        chan.push(p % channels);
        p += 1;
    }
    assert(chan@ =~= channel_tags(partitions, channels));
    chan
}

/// The blocks of channel `c`: one per partition of the channel, in
/// ascending partition order.
pub fn scatter_channel(block: &DataBlock, tags: &Vec<usize>, chan: &Vec<usize>, partitions: usize, channels: usize, c: usize) -> (parts: Vec<PartitionBlock>)
    requires
        block.well_formed(),
        chan@ == channel_tags(partitions, channels),
        tags@.len() == block.num_rows,
    ensures
        is_channel_output(*block, tags@, partitions, channels, c, parts@),
        partitions_row_count(parts@) == sum_at(counts(tags@, partitions), channel_partitions(partitions, channels, c)),
{
    let mine = collect_positions(chan, c);
    proof {
        lemma_positions(chan@, c);
    }
    let ghost vals = counts(tags@, partitions);
    let mut parts: Vec<PartitionBlock> = Vec::with_capacity(mine.len());
    let mut i: usize = 0;
    while i < mine.len()
        invariant
            i <= mine@.len(),
            block.well_formed(),
            chan@.len() == partitions,
            mine@ == positions(chan@, c),
            forall|k: int| 0 <= k < mine@.len() ==> (#[trigger] mine@[k]) < partitions,
            tags@.len() == block.num_rows,
            vals == counts(tags@, partitions),
            parts@.len() == i,
            forall|k: int| 0 <= k < i ==> {
                &&& (#[trigger] parts@[k]).partition_id == mine@[k]
                &&& parts@[k].block.well_formed()
                &&& parts@[k].block.types() == block.types()
                &&& parts@[k].block.rows() == selected_rows(*block, tags@, parts@[k].partition_id)
                &&& parts@[k].block.num_rows == count_of(tags@, mine@[k])
            },
            partitions_row_count(parts@) == sum_at(vals, mine@.subrange(0, i as int)),
        decreases mine@.len() - i,
    {
        let p = mine[i];
        let sel = collect_positions(tags, p);
        proof {
            lemma_positions(tags@, p);
        }
        let piece = block.take(&sel);
        assert(piece.rows() =~= selected_rows(*block, tags@, p));
        proof {
            assert(mine@.subrange(0, i + 1).drop_last() =~= mine@.subrange(0, i as int));
            assert(parts@.push(PartitionBlock { partition_id: p, block: piece }).drop_last() =~= parts@);
        }
        parts.push(PartitionBlock { partition_id: p, block: piece });
        i += 1;
    }
    proof {
        assert(mine@.subrange(0, mine@.len() as int) =~= mine@);
    }
    parts
}

/// Splits `block` by the partition tag of each row and groups the
/// partitions by channel. No row is dropped or repeated: the blocks of all
/// channels together hold as many rows as `block`.
pub fn scatter_to_channels(block: &DataBlock, tags: &Vec<usize>, partitions: usize, channels: usize) -> (out: Vec<
    Vec<PartitionBlock>,
>)
    requires
        block.well_formed(),
        channels > 0,
        tags@.len() == block.num_rows,
        forall|r: int| 0 <= r < tags@.len() ==> (#[trigger] tags@[r]) < partitions,
    ensures
        out@.len() == channels,
        forall|c: int| 0 <= c < channels ==> is_channel_output(*block, tags@, partitions, channels, c as usize, (#[trigger] out@[c])@),
        channels_row_count(out@) == block.num_rows,
{
    let chan = channel_indices(partitions, channels);
    let mut out: Vec<Vec<PartitionBlock>> = Vec::with_capacity(channels);
    let mut c: usize = 0;
    while c < channels
        invariant
            c <= channels,
            block.well_formed(),
            chan@ == channel_tags(partitions, channels),
            tags@.len() == block.num_rows,
            out@.len() == c,
            forall|d: int| 0 <= d < c ==> is_channel_output(*block, tags@, partitions, channels, d as usize, (#[trigger] out@[d])@),
            channels_row_count(out@) == sum_below(counts(tags@, partitions), chan@, c),
        decreases channels - c,
    {
        let parts = scatter_channel(block, tags, &chan, partitions, channels, c);
        proof {
            assert(out@.push(parts).drop_last() =~= out@);
        }
        out.push(parts);
        c += 1;
    }
    proof {
        lemma_scatter_conserves_rows(tags@, partitions, channels);
    }
    out
}

/// The state of a scatter processor, as the protocol sees it.
pub struct ScatterState {
    pub input: Port,
    pub outputs: Seq<Port>,
    pub pending_input: Seq<DataBlock>,
    pub pending_output: Seq<Seq<Batch>>,
    pub initialized: bool,
}

/// A port after the consumer's request for data.
pub open spec fn asked(port: Port) -> Port {
    if port.state == PortState::Idle {
        Port { state: PortState::NeedData, slot: port.slot }
    } else {
        port
    }
}

/// A closed port.
pub open spec fn closed_port() -> Port {
    Port { state: PortState::Finished, slot: None }
}

/// An output port after the processor offered it the head of its queue:
/// the head goes in flight when the port can take it.
pub open spec fn offered_port(port: Port, queue: Seq<Batch>) -> Port {
    if port.spec_can_push() && queue.len() > 0 {
        Port { state: PortState::HasData, slot: Some(Ok(queue[0])) }
    } else {
        port
    }
}

/// An output queue after its head was offered to the port.
pub open spec fn offered_queue(port: Port, queue: Seq<Batch>) -> Seq<Batch> {
    if port.spec_can_push() && queue.len() > 0 {
        queue.subrange(1, queue.len() as int)
    } else {
        queue
    }
}

/// Whether output `i` keeps the processor waiting for its consumer: the
/// port is open and either cannot take a packet or has one queued.
pub open spec fn output_waits(port: Port, queue: Seq<Batch>) -> bool {
    !port.spec_is_finished() && (!port.spec_can_push() || queue.len() > 0)
}

impl ScatterState {
    pub open spec fn all_outputs_finished(self) -> bool {
        forall|i: int| 0 <= i < self.outputs.len() ==> (#[trigger] self.outputs[i]).spec_is_finished()
    }

    pub open spec fn some_output_waits(self) -> bool {
        exists|i: int| 0 <= i < self.outputs.len() && output_waits(#[trigger] self.outputs[i], self.pending_output[i])
    }

    /// The state after every output was offered the head of its queue.
    pub open spec fn offered(self) -> ScatterState {
        ScatterState {
            outputs: Seq::new(self.outputs.len(), |i: int| offered_port(self.outputs[i], self.pending_output[i])),
            pending_output: Seq::new(
                self.outputs.len(),
                |i: int| offered_queue(self.outputs[i], self.pending_output[i]),
            ),
            ..self
        }
    }

    /// The state after all ports were closed.
    pub open spec fn closed(self) -> ScatterState {
        ScatterState {
            input: closed_port(),
            outputs: Seq::new(self.outputs.len(), |i: int| closed_port()),
            ..self
        }
    }

    /// One poll: the next state and the event reported.
    pub open spec fn poll(self) -> (ScatterState, Result<Event, ErrorCode>) {
        if !self.initialized {
            (ScatterState { initialized: true, input: asked(self.input), ..self }, Ok(Event::NeedData))
        } else if self.all_outputs_finished() {
            (self.closed(), Ok(Event::Finished))
        } else if self.some_output_waits() {
            (self.offered(), Ok(Event::NeedConsume))
        } else if self.input.spec_has_data() {
            let idle = Port { state: PortState::Idle, slot: None };
            match self.input.slot {
                Some(Ok(Batch::Rows(block))) => (
                    ScatterState { input: idle, pending_input: self.pending_input.push(block), ..self },
                    Ok(Event::Sync),
                ),
                Some(Ok(Batch::Partitions(_))) => (
                    ScatterState { input: idle, ..self },
                    Err(ErrorCode::InternalInvariantViolation),
                ),
                Some(Err(e)) => (ScatterState { input: idle, ..self }, Err(e)),
                None => (self, Err(ErrorCode::InternalInvariantViolation)),
            }
        } else if self.input.spec_is_finished() {
            (self.closed(), Ok(Event::Finished))
        } else {
            (ScatterState { input: asked(self.input), ..self }, Ok(Event::NeedData))
        }
    }

    /// The state is consistent: one queue per output, at most one packet
    /// per port.
    pub open spec fn well_formed(self) -> bool {
        &&& self.outputs.len() == self.pending_output.len()
        &&& self.input.well_formed()
        &&& forall|i: int| 0 <= i < self.outputs.len() ==> (#[trigger] self.outputs[i]).well_formed()
    }
}

/// The rows in the batches that stand last in each queue.
pub open spec fn appended_row_count(queues: Seq<Seq<Batch>>) -> nat
    decreases queues.len(),
{
    if queues.len() == 0 {
        0
    } else {
        appended_row_count(queues.drop_last()) + if queues.last().len() > 0 {
            queues.last().last().row_count()
        } else {
            0
        }
    }
}

/// The scatter processor: one input, `num_processors` outputs.
#[derive(Debug)]
pub struct TransformWindowPartitionScatter {
    pub input_port: Port,
    pub output_ports: Vec<Port>,
    pub input_data_blocks: VecDeque<DataBlock>,
    pub output_data_blocks: Vec<VecDeque<Batch>>,
    pub is_initialized: bool,
    pub hash_keys: Vec<usize>,
    pub num_processors: usize,
    pub num_partitions: usize,
    pub hash_seed: u64,
}

impl View for TransformWindowPartitionScatter {
    type V = ScatterState;

    open spec fn view(&self) -> ScatterState {
        ScatterState {
            input: self.input_port,
            outputs: self.output_ports@,
            pending_input: self.input_data_blocks@,
            pending_output: Seq::new(self.output_data_blocks@.len(), |i: int| self.output_data_blocks@[i]@),
            initialized: self.is_initialized,
        }
    }
}

impl TransformWindowPartitionScatter {
    /// The configuration is usable and the protocol state is consistent.
    pub open spec fn well_formed(&self) -> bool {
        &&& self@.well_formed()
        &&& self.num_processors > 0
        &&& self.num_partitions > 0
        &&& self.output_ports@.len() == self.num_processors
        &&& self.output_data_blocks@.len() == self.num_processors
    }

    /// Whether `block` can be scattered: it is well formed and every key
    /// column exists in it.
    pub open spec fn keys_in_range(&self, block: DataBlock) -> bool {
        &&& block.well_formed()
        &&& forall|k: int| 0 <= k < self.hash_keys@.len() ==> (#[trigger] self.hash_keys@[k]) < block.columns@.len()
    }

    /// A scatter processor with `num_processors` output channels and
    /// `num_partitions` logical partitions, hashing the columns at
    /// `hash_keys` under seed 0. Both counts must be positive.
    pub fn new(num_processors: usize, num_partitions: usize, hash_keys: Vec<usize>) -> (r: Result<Self, ErrorCode>)
        ensures
            r.is_ok() <==> num_processors > 0 && num_partitions > 0,
            r matches Err(e) ==> e == ErrorCode::ConfigurationError,
            r matches Ok(t) ==> {
                &&& t.well_formed()
                &&& t.num_processors == num_processors
                &&& t.num_partitions == num_partitions
                &&& t.hash_keys == hash_keys
                &&& t.hash_seed == 0
                &&& !t.is_initialized
                &&& t.input_port.state == PortState::Idle
                &&& t.input_data_blocks@.len() == 0
                &&& forall|i: int| 0 <= i < num_processors ==> (#[trigger] t.output_ports@[i]).state == PortState::Idle
                &&& forall|i: int| 0 <= i < num_processors ==> (#[trigger] t.output_data_blocks@[i])@.len() == 0
            },
    {
        if num_processors == 0 || num_partitions == 0 {
            return Err(ErrorCode::ConfigurationError);
        }
        let mut output_ports: Vec<Port> = Vec::with_capacity(num_processors);
        let mut output_data_blocks: Vec<VecDeque<Batch>> = Vec::with_capacity(num_processors);
        let mut i: usize = 0;
        while i < num_processors
            invariant
                i <= num_processors,
                output_ports@.len() == i,
                output_data_blocks@.len() == i,
                forall|j: int| 0 <= j < i ==> (#[trigger] output_ports@[j]) == (Port { state: PortState::Idle, slot: None }),
                forall|j: int| 0 <= j < i ==> (#[trigger] output_data_blocks@[j])@.len() == 0,
            decreases num_processors - i,
        {
            output_ports.push(Port::create());
            output_data_blocks.push(VecDeque::new());
            i += 1;
        }
        Ok(
            TransformWindowPartitionScatter {
                input_port: Port::create(),
                output_ports,
                input_data_blocks: VecDeque::new(),
                output_data_blocks,
                is_initialized: false,
                hash_keys,
                num_processors,
                num_partitions,
                hash_seed: 0,
            },
        )
    }

    /// The same processor hashing under `seed`.
    pub fn with_hash_seed(self, seed: u64) -> (t: Self)
        ensures
            t.hash_seed == seed,
            t@ == self@,
            t.hash_keys == self.hash_keys,
            t.num_processors == self.num_processors,
            t.num_partitions == self.num_partitions,
            self.well_formed() ==> t.well_formed(),
    {
        let mut t = self;
        t.hash_seed = seed;
        t
    }

    pub fn name(&self) -> (n: String)
        ensures
            n@ == "TransformWindowPartitionScatter"@,
    {
        "TransformWindowPartitionScatter".to_owned()
    }

    /// Closes the input and every output.
    pub fn finish(&mut self) -> (r: Result<Event, ErrorCode>)
        requires
            old(self).well_formed(),
        ensures
            final(self).well_formed(),
            r == Ok::<Event, ErrorCode>(Event::Finished),
            final(self)@ == old(self)@.closed(),
            final(self).hash_keys == old(self).hash_keys,
            final(self).hash_seed == old(self).hash_seed,
            final(self).num_processors == old(self).num_processors,
            final(self).num_partitions == old(self).num_partitions,
    {
        self.input_port.finish();
        let mut i: usize = 0;
        while i < self.output_ports.len()
            invariant
                i <= self.output_ports@.len(),
                self.output_ports@.len() == old(self).output_ports@.len(),
                self.input_port == closed_port(),
                self.input_data_blocks == old(self).input_data_blocks,
                self.output_data_blocks == old(self).output_data_blocks,
                self.is_initialized == old(self).is_initialized,
                self.hash_keys == old(self).hash_keys,
                self.hash_seed == old(self).hash_seed,
                self.num_processors == old(self).num_processors,
                self.num_partitions == old(self).num_partitions,
                forall|j: int| 0 <= j < i ==> (#[trigger] self.output_ports@[j]) == closed_port(),
            decreases self.output_ports@.len() - i,
        {
            self.output_ports[i].finish();
            i += 1;
        }
        assert(self@.outputs =~= old(self)@.closed().outputs);
        assert(self@.pending_output =~= old(self)@.closed().pending_output);
        Ok(Event::Finished)
    }

    /// Polls the processor: offers queued batches to the outputs, then
    /// looks at the input, and reports what it waits for.
    pub fn event(&mut self) -> (r: Result<Event, ErrorCode>)
        requires
            old(self).well_formed(),
        ensures
            final(self).well_formed(),
            (final(self)@, r) == old(self)@.poll(),
            final(self).hash_keys == old(self).hash_keys,
            final(self).hash_seed == old(self).hash_seed,
            final(self).num_processors == old(self).num_processors,
            final(self).num_partitions == old(self).num_partitions,
    {
        if !self.is_initialized {
            self.is_initialized = true;
            self.input_port.set_need_data();
            assert(self@.pending_output =~= old(self)@.pending_output);
            return Ok(Event::NeedData);
        }
        let mut all_output_finished = true;
        let mut need_consume = false;
        let mut i: usize = 0;
        while i < self.output_ports.len()
            invariant
                i <= self.output_ports@.len(),
                old(self).well_formed(),
                self.output_ports@.len() == old(self).output_ports@.len(),
                self.output_data_blocks@.len() == old(self).output_data_blocks@.len(),
                self.input_port == old(self).input_port,
                self.input_data_blocks == old(self).input_data_blocks,
                self.is_initialized == old(self).is_initialized,
                self.hash_keys == old(self).hash_keys,
                self.hash_seed == old(self).hash_seed,
                self.num_processors == old(self).num_processors,
                self.num_partitions == old(self).num_partitions,
                forall|j: int| 0 <= j < i ==> (#[trigger] self.output_ports@[j]) == offered_port(old(self).output_ports@[j], old(self).output_data_blocks@[j]@),
                forall|j: int| 0 <= j < i ==> (#[trigger] self.output_data_blocks@[j])@ == offered_queue(old(self).output_ports@[j], old(self).output_data_blocks@[j]@),
                forall|j: int| i <= j < self.output_ports@.len() ==> (#[trigger] self.output_ports@[j]) == old(self).output_ports@[j],
                forall|j: int| i <= j < self.output_ports@.len() ==> (#[trigger] self.output_data_blocks@[j]) == old(self).output_data_blocks@[j],
                all_output_finished <==> (forall|j: int| 0 <= j < i ==> (#[trigger] old(self).output_ports@[j]).spec_is_finished()),
                need_consume <==> (exists|j: int| 0 <= j < i && output_waits(#[trigger] old(self).output_ports@[j], old(self).output_data_blocks@[j]@)),
            decreases self.output_ports@.len() - i,
        {
            assert(old(self)@.outputs[i as int].well_formed());
            if !self.output_ports[i].is_finished() {
                all_output_finished = false;
                if !self.output_ports[i].can_push() {
                    need_consume = true;
                } else {
                    match self.output_data_blocks[i].pop_front() {
                        Some(batch) => {
                            self.output_ports[i].push_data(Ok(batch));
                            need_consume = true;
                        },
                        None => {},
                    }
                }
            }
            assert(output_waits(old(self).output_ports@[i as int], old(self).output_data_blocks@[i as int]@) ==> need_consume);
            i += 1;
        }
        proof {
            assert(self@.outputs =~= old(self)@.offered().outputs);
            assert(self@.pending_output =~= old(self)@.offered().pending_output);
            assert(all_output_finished == old(self)@.all_outputs_finished());
            assert(need_consume == old(self)@.some_output_waits());
            if !need_consume {
                assert(old(self)@.offered().outputs =~= old(self)@.outputs);
                assert(old(self)@.offered().pending_output =~= old(self)@.pending_output);
            }
            if all_output_finished {
                assert(old(self)@.offered().outputs =~= old(self)@.outputs);
                assert(old(self)@.offered().pending_output =~= old(self)@.pending_output);
            }
        }
        if all_output_finished {
            return self.finish();
        }
        if need_consume {
            return Ok(Event::NeedConsume);
        }
        if self.input_port.has_data() {
            let packet = self.input_port.pull_data();
            match packet {
                Some(Ok(Batch::Rows(block))) => {
                    self.input_data_blocks.push_back(block);
                    return Ok(Event::Sync);
                },
                Some(Ok(Batch::Partitions(_))) => {
                    return Err(ErrorCode::InternalInvariantViolation);
                },
                Some(Err(e)) => {
                    return Err(e);
                },
                None => {
                    return Err(ErrorCode::InternalInvariantViolation);
                },
            }
        }
        if self.input_port.is_finished() {
            return self.finish();
        }
        self.input_port.set_need_data();
        Ok(Event::NeedData)
    }

    /// Whether the configuration is that of `other`.
    pub open spec fn same_config(&self, other: &Self) -> bool {
        &&& self.hash_keys == other.hash_keys
        &&& self.hash_seed == other.hash_seed
        &&& self.num_processors == other.num_processors
        &&& self.num_partitions == other.num_partitions
    }

    /// What the synchronous step makes of the state `before`, with the
    /// outcome `r`: with nothing buffered, nothing changes. Otherwise the
    /// oldest buffered block leaves the input queue; a block that can be
    /// scattered gives every channel's queue one more batch, which holds
    /// the channel's partitions of the block, and all of the block's rows
    /// are in those batches; a block that cannot be scattered is rejected
    /// and the output queues stay. The ports and the configuration are
    /// not touched.
    pub open spec fn processed_from(&self, before: &Self, r: Result<(), ErrorCode>) -> bool {
        &&& self.hash_keys == before.hash_keys
        &&& self.hash_seed == before.hash_seed
        &&& self.num_processors == before.num_processors
        &&& self.num_partitions == before.num_partitions
        &&& self@.input == before@.input
        &&& self@.outputs == before@.outputs
        &&& self@.initialized == before@.initialized
        &&& before@.pending_input.len() == 0 ==> r.is_ok() && self@ == before@
        &&& before@.pending_input.len() > 0 ==> {
            let block = before@.pending_input[0];
            let tags = partition_tags(block, before.hash_keys@, before.hash_seed, before.num_partitions);
            &&& self@.pending_input == before@.pending_input.subrange(1, before@.pending_input.len() as int)
            &&& r.is_ok() <==> before.keys_in_range(block)
            &&& r matches Err(e) ==> e == ErrorCode::ConfigurationError && self@.pending_output == before@.pending_output
            &&& r.is_ok() ==> {
                &&& forall|c: int| 0 <= c < before.num_processors ==> {
                    &&& (#[trigger] self@.pending_output[c]).drop_last() == before@.pending_output[c]
                    &&& self@.pending_output[c].len() == before@.pending_output[c].len() + 1
                    &&& self@.pending_output[c].last() matches Batch::Partitions(parts)
                    &&& is_channel_output(block, tags, before.num_partitions, before.num_processors, c as usize, parts@)
                }
                &&& appended_row_count(self@.pending_output) == block.num_rows
            }
        }
    }

    /// The synchronous step: takes the oldest buffered block, routes each
    /// row to the partition of its key, and queues for every channel one
    /// batch that holds the channel's partitions. Every row of the block
    /// ends up in exactly one queued partition.
    pub fn process(&mut self) -> (r: Result<(), ErrorCode>)
        requires
            old(self).well_formed(),
        ensures
            final(self).well_formed(),
            final(self).hash_keys == old(self).hash_keys,
            final(self).hash_seed == old(self).hash_seed,
            final(self).num_processors == old(self).num_processors,
            final(self).num_partitions == old(self).num_partitions,
            final(self)@.input == old(self)@.input,
            final(self)@.outputs == old(self)@.outputs,
            final(self)@.initialized == old(self)@.initialized,
            old(self)@.pending_input.len() == 0 ==> r.is_ok() && final(self)@ == old(self)@,
            old(self)@.pending_input.len() > 0 ==> {
                let block = old(self)@.pending_input[0];
                let tags = partition_tags(block, old(self).hash_keys@, old(self).hash_seed, old(self).num_partitions);
                &&& final(self)@.pending_input == old(self)@.pending_input.subrange(1, old(self)@.pending_input.len() as int)
                &&& r.is_ok() <==> old(self).keys_in_range(block)
                &&& r matches Err(e) ==> e == ErrorCode::ConfigurationError && final(self)@.pending_output == old(self)@.pending_output
                &&& r.is_ok() ==> {
                    &&& forall|c: int| 0 <= c < old(self).num_processors ==> {
                        &&& (#[trigger] final(self)@.pending_output[c]).drop_last() == old(self)@.pending_output[c]
                        &&& final(self)@.pending_output[c].len() == old(self)@.pending_output[c].len() + 1
                        &&& final(self)@.pending_output[c].last() matches Batch::Partitions(parts)
                        &&& is_channel_output(block, tags, old(self).num_partitions, old(self).num_processors, c as usize, parts@)
                    }
                    &&& appended_row_count(final(self)@.pending_output) == block.num_rows
                }
            },
    {
        let head = self.input_data_blocks.pop_front();
        match head {
            None => {
                assert(self@.pending_output =~= old(self)@.pending_output);
                assert(self@.pending_input =~= old(self)@.pending_input);
                Ok(())
            },
            Some(block) => {
                assert(block == old(self)@.pending_input[0]);
                if !block.is_well_formed() {
                    assert(self@.pending_output =~= old(self)@.pending_output);
                    return Err(ErrorCode::ConfigurationError);
                }
                let mut k: usize = 0;
                while k < self.hash_keys.len()
                    invariant
                        k <= self.hash_keys@.len(),
                        old(self).well_formed(),
                        old(self).input_data_blocks@.len() > 0,
                        block == old(self).input_data_blocks@[0],
                        block.well_formed(),
                        self.hash_keys == old(self).hash_keys,
                        self.output_data_blocks == old(self).output_data_blocks,
                        self.output_ports == old(self).output_ports,
                        self.input_port == old(self).input_port,
                        self.is_initialized == old(self).is_initialized,
                        self.hash_seed == old(self).hash_seed,
                        self.num_processors == old(self).num_processors,
                        self.num_partitions == old(self).num_partitions,
                        self.input_data_blocks@ == old(self).input_data_blocks@.subrange(1, old(self).input_data_blocks@.len() as int),
                        forall|j: int| 0 <= j < k ==> (#[trigger] self.hash_keys@[j]) < block.columns@.len(),
                    decreases self.hash_keys@.len() - k,
                {
                    if self.hash_keys[k] >= block.num_columns() {
                        assert(self@.pending_output =~= old(self)@.pending_output);
                        return Err(ErrorCode::ConfigurationError);
                    }
                    k += 1;
                }
                let tags = partition_indices(&block, &self.hash_keys, self.hash_seed, self.num_partitions);
                let chan = channel_indices(self.num_partitions, self.num_processors);
                let ghost vals = counts(tags@, self.num_partitions);
                let mut c: usize = 0;
                while c < self.num_processors
                    invariant
                        c <= self.num_processors,
                        old(self).well_formed(),
                        old(self).input_data_blocks@.len() > 0,
                        block == old(self).input_data_blocks@[0],
                        block.well_formed(),
                        self.hash_keys == old(self).hash_keys,
                        self.output_ports == old(self).output_ports,
                        self.input_port == old(self).input_port,
                        self.is_initialized == old(self).is_initialized,
                        self.hash_seed == old(self).hash_seed,
                        self.num_processors == old(self).num_processors,
                        self.num_partitions == old(self).num_partitions,
                        self.input_data_blocks@ == old(self).input_data_blocks@.subrange(1, old(self).input_data_blocks@.len() as int),
                        self.output_data_blocks@.len() == self.num_processors,
                        tags@ == partition_tags(block, self.hash_keys@, self.hash_seed, self.num_partitions),
                        forall|r: int| 0 <= r < tags@.len() ==> (#[trigger] tags@[r]) < self.num_partitions,
                        chan@ == channel_tags(self.num_partitions, self.num_processors),
                        vals == counts(tags@, self.num_partitions),
                        forall|d: int| c <= d < self.num_processors ==> (#[trigger] self.output_data_blocks@[d]) == old(self).output_data_blocks@[d],
                        forall|d: int| 0 <= d < c ==> {
                            &&& (#[trigger] self.output_data_blocks@[d])@.drop_last() == old(self).output_data_blocks@[d]@
                            &&& self.output_data_blocks@[d]@.len() == old(self).output_data_blocks@[d]@.len() + 1
                            &&& self.output_data_blocks@[d]@.last() matches Batch::Partitions(parts)
                            &&& is_channel_output(block, tags@, self.num_partitions, self.num_processors, d as usize, parts@)
                        },
                        appended_row_count(self@.pending_output.subrange(0, c as int)) == sum_below(vals, chan@, c),
                    decreases self.num_processors - c,
                {
                    let parts = scatter_channel(&block, &tags, &chan, self.num_partitions, self.num_processors, c);
                    let ghost before = self@.pending_output;
                    self.output_data_blocks[c].push_back(Batch::Partitions(parts));
                    proof {
                        let after = self@.pending_output;
                        assert(after[c as int].drop_last() =~= before[c as int]);
                        assert(after.subrange(0, c + 1).drop_last() =~= before.subrange(0, c as int));
                        assert(after.subrange(0, c + 1).last() == after[c as int]);
                    }
                    c += 1;
                }
                proof {
                    lemma_scatter_conserves_rows(tags@, self.num_partitions, self.num_processors);
                    assert(self@.pending_output.subrange(0, self.num_processors as int) =~= self@.pending_output);
                }
                Ok(())
            },
        }
    }
}

/// Polling settles: with no change from outside, an initialized processor
/// that reports `NeedData` or `NeedConsume` is blocked on the port named in
/// the event and a further poll changes nothing; `Sync` is reported only
/// after a packet left the input port, so it cannot be reported twice in a
/// row; `Finished` is reported with every port closed; `Async` is never
/// reported.
pub proof fn lemma_poll_settles(s: ScatterState)
    requires
        s.well_formed(),
        s.initialized,
    ensures
        ({
            let (s1, e1) = s.poll();
            let (s2, e2) = s1.poll();
            &&& s1.initialized
            &&& e1 != Ok::<Event, ErrorCode>(Event::Async)
            &&& e1 == Ok::<Event, ErrorCode>(Event::NeedData) ==> {
                &&& s1.input.state == PortState::NeedData
                &&& (s2, e2) == (s1, e1)
            }
            &&& e1 == Ok::<Event, ErrorCode>(Event::NeedConsume) ==> {
                &&& exists|i: int| 0 <= i < s1.outputs.len() && !(#[trigger] s1.outputs[i]).spec_is_finished() && !s1.outputs[i].spec_can_push()
                &&& (s2, e2) == (s1, e1)
            }
            &&& e1 == Ok::<Event, ErrorCode>(Event::Sync) ==> {
                &&& s.input.spec_has_data()
                &&& !s1.input.spec_has_data()
                &&& s1.pending_input.len() == s.pending_input.len() + 1
                &&& e2 != Ok::<Event, ErrorCode>(Event::Sync)
            }
            &&& e1 == Ok::<Event, ErrorCode>(Event::Finished) ==> {
                &&& s1.input.spec_is_finished()
                &&& s1.all_outputs_finished()
                &&& (s2, e2) == (s1, e1)
            }
        }),
{
    let (s1, e1) = s.poll();
    let (s2, e2) = s1.poll();
    if e1 == Ok::<Event, ErrorCode>(Event::NeedConsume) {
        let i = choose|i: int| 0 <= i < s.outputs.len() && output_waits(#[trigger] s.outputs[i], s.pending_output[i]);
        assert(!s1.outputs[i].spec_is_finished() && !s1.outputs[i].spec_can_push());
        assert(output_waits(s1.outputs[i], s1.pending_output[i]));
        assert(s1.offered().outputs =~= s1.outputs);
        assert(s1.offered().pending_output =~= s1.pending_output);
    }
    if e1 == Ok::<Event, ErrorCode>(Event::Finished) {
        assert(s1.closed().outputs =~= s1.outputs);
    }
    if e1 == Ok::<Event, ErrorCode>(Event::NeedData) {
        assert(forall|i: int| 0 <= i < s.outputs.len() ==> !output_waits(#[trigger] s.outputs[i], s.pending_output[i]));
    }
}

} // verus!
