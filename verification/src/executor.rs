//! The scheduler: polls the processors of a graph, runs their synchronous
//! steps, carries packets and signals across the links between them, and
//! stops when every processor has finished or one has failed.

use vstd::prelude::*;
use std::collections::VecDeque;
use crate::datavalues::DataBlock;
use crate::error::ErrorCode;
use crate::pipeline::{PipeItem, ProcessorDesc, ProcessorKind};
use crate::port::{Batch, Event, Port, PortState};
use crate::scatter::{closed_port, TransformWindowPartitionScatter};

verus! {

/// A source: hands out the blocks it was given, one at a time.
#[derive(Debug)]
pub struct SourceProcessor {
    pub output: Port,
    pub pending: VecDeque<DataBlock>,
}

impl SourceProcessor {
    pub open spec fn well_formed(&self) -> bool {
        self.output.well_formed()
    }

    /// A source that will hand out `blocks` in order.
    pub fn create(blocks: Vec<DataBlock>) -> (s: SourceProcessor)
        ensures
            s.well_formed(),
            s.pending@ == blocks@,
            s.output.state == PortState::Idle,
    {
        let mut pending: VecDeque<DataBlock> = VecDeque::new();
        let mut blocks = blocks;
        let mut rest: Vec<DataBlock> = Vec::new();
        let ghost all = blocks@;
        while blocks.len() > 0
            invariant
                rest@.len() + blocks@.len() == all.len(),
                blocks@ == all.subrange(0, blocks@.len() as int),
                forall|i: int| 0 <= i < rest@.len() ==> (#[trigger] rest@[i]) == all[all.len() - 1 - i],
            decreases blocks@.len(),
        {
            let b = blocks.pop().unwrap();
            rest.push(b);
            assert(blocks@ =~= all.subrange(0, blocks@.len() as int));
        }
        while rest.len() > 0
            invariant
                rest@.len() + pending@.len() == all.len(),
                forall|i: int| 0 <= i < rest@.len() ==> (#[trigger] rest@[i]) == all[all.len() - 1 - i],
                pending@ == all.subrange(0, pending@.len() as int),
            decreases rest@.len(),
        {
            let b = rest.pop().unwrap();
            pending.push_back(b);
            assert(pending@ =~= all.subrange(0, pending@.len() as int));
        }
        assert(all.subrange(0, all.len() as int) =~= all);
        SourceProcessor { output: Port::create(), pending }
    }

    /// What a poll makes of the source `before`, with the event `r`: a
    /// source whose output is closed has finished; one whose output holds
    /// a packet or was not asked for one waits for its consumer; otherwise
    /// it pushes its next block and waits for the consumer, or closes its
    /// output and has finished when no block is left.
    pub open spec fn polled_from(&self, before: &SourceProcessor, r: Result<Event, ErrorCode>) -> bool {
        if before.output.spec_is_finished() {
            r == Ok::<Event, ErrorCode>(Event::Finished) && *self == *before
        } else if !before.output.spec_can_push() {
            r == Ok::<Event, ErrorCode>(Event::NeedConsume) && *self == *before
        } else if before.pending@.len() > 0 {
            &&& r == Ok::<Event, ErrorCode>(Event::NeedConsume)
            &&& self.output == (Port { state: PortState::HasData, slot: Some(Ok(Batch::Rows(before.pending@[0]))) })
            &&& self.pending@ == before.pending@.subrange(1, before.pending@.len() as int)
        } else {
            &&& r == Ok::<Event, ErrorCode>(Event::Finished)
            &&& self.output == closed_port()
            &&& self.pending@ == before.pending@
        }
    }

    /// Polls the source.
    pub fn event(&mut self) -> (r: Result<Event, ErrorCode>)
        requires
            old(self).well_formed(),
        ensures
            final(self).well_formed(),
            final(self).polled_from(old(self), r),
    {
        if self.output.is_finished() {
            return Ok(Event::Finished);
        }
        if !self.output.can_push() {
            return Ok(Event::NeedConsume);
        }
        match self.pending.pop_front() {
            Some(block) => {
                self.output.push_data(Ok(Batch::Rows(block)));
                Ok(Event::NeedConsume)
            },
            None => {
                self.output.finish();
                Ok(Event::Finished)
            },
        }
    }
}

/// A sink: keeps every batch that reaches it.
#[derive(Debug)]
pub struct SinkProcessor {
    pub input: Port,
    pub received: Vec<Batch>,
}

impl SinkProcessor {
    pub open spec fn well_formed(&self) -> bool {
        self.input.well_formed()
    }

    pub fn create() -> (s: SinkProcessor)
        ensures
            s.well_formed(),
            s.received@.len() == 0,
            s.input.state == PortState::Idle,
    {
        SinkProcessor { input: Port::create(), received: Vec::new() }
    }

    /// What a poll makes of the sink `before`, with the event `r`: a
    /// packet that has arrived is taken; a batch is kept and more data
    /// asked for, an error is handed on. Without a packet the sink has
    /// finished when its input is closed, and asks for data otherwise.
    pub open spec fn polled_from(&self, before: &SinkProcessor, r: Result<Event, ErrorCode>) -> bool {
        match before.input.slot {
            Some(Ok(batch)) => {
                &&& r == Ok::<Event, ErrorCode>(Event::NeedData)
                &&& self.received@ == before.received@.push(batch)
                &&& self.input == (Port { state: PortState::NeedData, slot: None })
            },
            Some(Err(e)) => {
                &&& r == Err::<Event, ErrorCode>(e)
                &&& self.received@ == before.received@
                &&& self.input == (Port { state: PortState::Idle, slot: None })
            },
            None => if before.input.spec_is_finished() {
                r == Ok::<Event, ErrorCode>(Event::Finished) && *self == *before
            } else {
                &&& r == Ok::<Event, ErrorCode>(Event::NeedData)
                &&& self.received@ == before.received@
                &&& self.input == (Port { state: PortState::NeedData, slot: None })
            },
        }
    }

    /// Polls the sink.
    pub fn event(&mut self) -> (r: Result<Event, ErrorCode>)
        requires
            old(self).well_formed(),
        ensures
            final(self).well_formed(),
            final(self).polled_from(old(self), r),
    {
        if self.input.has_data() {
            match self.input.pull_data() {
                Some(Ok(batch)) => {
                    self.received.push(batch);
                    self.input.set_need_data();
                    return Ok(Event::NeedData);
                },
                Some(Err(e)) => {
                    return Err(e);
                },
                None => {
                    return Err(ErrorCode::InternalInvariantViolation);
                },
            }
        }
        if self.input.is_finished() {
            return Ok(Event::Finished);
        }
        self.input.set_need_data();
        Ok(Event::NeedData)
    }
}

/// A processor of a graph.
#[derive(Debug)]
pub enum Processor {
    Source(SourceProcessor),
    Scatter(TransformWindowPartitionScatter),
    Sink(SinkProcessor),
}

impl Processor {
    pub open spec fn well_formed(&self) -> bool {
        match self {
            Processor::Source(s) => s.well_formed(),
            Processor::Scatter(s) => s.well_formed(),
            Processor::Sink(s) => s.well_formed(),
        }
    }

    /// The number of input ports.
    pub open spec fn inputs(&self) -> nat {
        match self {
            Processor::Source(_) => 0,
            Processor::Scatter(_) => 1,
            Processor::Sink(_) => 1,
        }
    }

    /// The number of output ports.
    pub open spec fn outputs(&self) -> nat {
        match self {
            Processor::Source(_) => 1,
            Processor::Scatter(s) => s.output_ports@.len(),
            Processor::Sink(_) => 0,
        }
    }

    /// Input port `i`.
    pub open spec fn input(&self, i: int) -> Port {
        match self {
            Processor::Source(s) => s.output,
            Processor::Scatter(s) => s.input_port,
            Processor::Sink(s) => s.input,
        }
    }

    /// Output port `i`.
    pub open spec fn output(&self, i: int) -> Port {
        match self {
            Processor::Source(s) => s.output,
            Processor::Scatter(s) => s.output_ports@[i],
            Processor::Sink(s) => s.input,
        }
    }

    /// What a poll makes of the processor `before`, with the event `r`.
    pub open spec fn polled_from(&self, before: &Processor, r: Result<Event, ErrorCode>) -> bool {
        match (*before, *self) {
            (Processor::Source(b), Processor::Source(a)) => a.polled_from(&b, r),
            (Processor::Scatter(b), Processor::Scatter(a)) => (a@, r) == b@.poll() && a.same_config(&b),
            (Processor::Sink(b), Processor::Sink(a)) => a.polled_from(&b, r),
            _ => false,
        }
    }

    /// What the synchronous step makes of the processor `before`, with the
    /// outcome `r`. Only a scatter has such a step; a source and a sink do
    /// all their work when polled.
    pub open spec fn processed_from(&self, before: &Processor, r: Result<(), ErrorCode>) -> bool {
        match (*before, *self) {
            (Processor::Scatter(b), Processor::Scatter(a)) => a.processed_from(&b, r),
            (Processor::Source(_), Processor::Source(_)) => *self == *before && r == Ok::<(), ErrorCode>(()),
            (Processor::Sink(_), Processor::Sink(_)) => *self == *before && r == Ok::<(), ErrorCode>(()),
            _ => false,
        }
    }

    /// The processor `before` with every port closed and nothing else
    /// touched.
    pub open spec fn closed_from(&self, before: &Processor) -> bool {
        match (*before, *self) {
            (Processor::Source(b), Processor::Source(a)) => a.output == closed_port() && a.pending == b.pending,
            (Processor::Scatter(b), Processor::Scatter(a)) => a@ == b@.closed() && a.same_config(&b),
            (Processor::Sink(b), Processor::Sink(a)) => a.input == closed_port() && a.received == b.received,
            _ => false,
        }
    }

    /// The processor `before` with `port` as its output port `i` and
    /// nothing else touched.
    pub open spec fn output_set_from(&self, before: &Processor, i: int, port: Port) -> bool {
        match (*before, *self) {
            (Processor::Source(b), Processor::Source(a)) => a.output == port && a.pending == b.pending,
            (Processor::Scatter(b), Processor::Scatter(a)) => {
                &&& a.output_ports@ == b.output_ports@.update(i, port)
                &&& a.input_port == b.input_port
                &&& a.input_data_blocks == b.input_data_blocks
                &&& a.output_data_blocks == b.output_data_blocks
                &&& a.is_initialized == b.is_initialized
                &&& a.same_config(&b)
            },
            (Processor::Sink(b), Processor::Sink(a)) => a == b,
            _ => false,
        }
    }

    /// The processor `before` with `port` as its input port and nothing
    /// else touched.
    pub open spec fn input_set_from(&self, before: &Processor, port: Port) -> bool {
        match (*before, *self) {
            (Processor::Source(b), Processor::Source(a)) => a == b,
            (Processor::Scatter(b), Processor::Scatter(a)) => {
                &&& a.input_port == port
                &&& a.output_ports == b.output_ports
                &&& a.input_data_blocks == b.input_data_blocks
                &&& a.output_data_blocks == b.output_data_blocks
                &&& a.is_initialized == b.is_initialized
                &&& a.same_config(&b)
            },
            (Processor::Sink(b), Processor::Sink(a)) => a.input == port && a.received == b.received,
            _ => false,
        }
    }

    /// Whether every port is closed.
    pub open spec fn all_ports_finished(&self) -> bool {
        &&& forall|i: int| 0 <= i < self.inputs() ==> self.input(i).spec_is_finished()
        &&& forall|i: int| 0 <= i < self.outputs() ==> self.output(i).spec_is_finished()
    }

    pub fn input_count(&self) -> (n: usize)
        ensures
            n == self.inputs(),
    {
        match self {
            Processor::Source(_) => 0,
            Processor::Scatter(_) => 1,
            Processor::Sink(_) => 1,
        }
    }

    pub fn output_count(&self) -> (n: usize)
        ensures
            n == self.outputs(),
    {
        match self {
            Processor::Source(_) => 1,
            Processor::Scatter(s) => s.output_ports.len(),
            Processor::Sink(_) => 0,
        }
    }

    /// Polls the processor.
    pub fn event(&mut self) -> (r: Result<Event, ErrorCode>)
        requires
            old(self).well_formed(),
        ensures
            final(self).well_formed(),
            final(self).inputs() == old(self).inputs(),
            final(self).outputs() == old(self).outputs(),
            final(self).polled_from(old(self), r),
            r == Ok::<Event, ErrorCode>(Event::Finished) ==> final(self).all_ports_finished(),
            r != Ok::<Event, ErrorCode>(Event::Async),
    {
        match self {
            Processor::Source(s) => s.event(),
            Processor::Scatter(s) => {
                let r = s.event();
                proof {
                    if r == Ok::<Event, ErrorCode>(Event::Finished) {
                        assert(s@ == old(self)->Scatter_0@.closed());
                    }
                }
                r
            },
            Processor::Sink(s) => s.event(),
        }
    }

    /// Runs the synchronous step. Only a scatter has one: it scatters its
    /// oldest buffered block. A source and a sink do all their work when
    /// polled, so their step changes nothing and succeeds.
    pub fn process(&mut self) -> (r: Result<(), ErrorCode>)
        requires
            old(self).well_formed(),
        ensures
            final(self).well_formed(),
            final(self).inputs() == old(self).inputs(),
            final(self).outputs() == old(self).outputs(),
            final(self).processed_from(old(self), r),
    {
        match self {
            Processor::Source(_) => Ok(()),
            Processor::Scatter(s) => s.process(),
            Processor::Sink(_) => Ok(()),
        }
    }

    /// The scheduler's visit to a processor: polls it and, when it asks
    /// for that, runs its synchronous step. Tells whether the processor has
    /// finished.
    pub fn poll(&mut self) -> (r: Result<bool, ErrorCode>)
        requires
            old(self).well_formed(),
        ensures
            final(self).well_formed(),
            final(self).inputs() == old(self).inputs(),
            final(self).outputs() == old(self).outputs(),
            poll_step(*old(self), *final(self), r),
            r == Ok::<bool, ErrorCode>(true) ==> final(self).all_ports_finished(),
    {
        let polled = self.event();
        let ghost mid = *self;
        match polled {
            Ok(Event::Finished) => {
                assert(mid.polled_from(old(self), polled));
                Ok(true)
            },
            Ok(Event::Sync) => {
                let stepped = self.process();
                assert(mid.polled_from(old(self), polled));
                match stepped {
                    Ok(()) => Ok(false),
                    Err(e) => Err(e),
                }
            },
            Ok(_) => {
                assert(mid.polled_from(old(self), polled));
                Ok(false)
            },
            Err(e) => {
                assert(mid.polled_from(old(self), polled));
                Err(e)
            },
        }
    }

    /// Closes every port.
    pub fn finish_all(&mut self)
        requires
            old(self).well_formed(),
        ensures
            final(self).well_formed(),
            final(self).inputs() == old(self).inputs(),
            final(self).outputs() == old(self).outputs(),
            final(self).all_ports_finished(),
            final(self).closed_from(old(self)),
    {
        match self {
            Processor::Source(s) => {
                s.output.finish();
            },
            Processor::Scatter(s) => {
                let _ = s.finish();
            },
            Processor::Sink(s) => {
                s.input.finish();
            },
        }
    }

    /// Exchanges input port `i` with `port`.
    pub fn swap_input(&mut self, i: usize, port: &mut Port)
        requires
            old(self).well_formed(),
            old(port).well_formed(),
            i < old(self).inputs(),
        ensures
            final(self).well_formed(),
            final(self).inputs() == old(self).inputs(),
            final(self).outputs() == old(self).outputs(),
            *final(port) == old(self).input(i as int),
            final(self).input(i as int) == *old(port),
            final(self).input_set_from(old(self), *old(port)),
            forall|j: int| 0 <= j < old(self).outputs() ==> final(self).output(j) == old(self).output(j),
    {
        match self {
            Processor::Source(_) => {},
            Processor::Scatter(s) => {
                std::mem::swap(&mut s.input_port, port);
            },
            Processor::Sink(s) => {
                std::mem::swap(&mut s.input, port);
            },
        }
    }

    /// Exchanges output port `i` with `port`.
    pub fn swap_output(&mut self, i: usize, port: &mut Port)
        requires
            old(self).well_formed(),
            old(port).well_formed(),
            i < old(self).outputs(),
        ensures
            final(self).well_formed(),
            final(self).inputs() == old(self).inputs(),
            final(self).outputs() == old(self).outputs(),
            *final(port) == old(self).output(i as int),
            final(self).output(i as int) == *old(port),
            final(self).output_set_from(old(self), i as int, *old(port)),
            forall|j: int| 0 <= j < old(self).outputs() && j != i ==> final(self).output(j) == old(self).output(j),
            forall|j: int| 0 <= j < old(self).inputs() ==> final(self).input(j) == old(self).input(j),
    {
        match self {
            Processor::Source(s) => {
                std::mem::swap(&mut s.output, port);
            },
            Processor::Scatter(s) => {
                std::mem::swap(&mut s.output_ports[i], port);
            },
            Processor::Sink(_) => {},
        }
    }
}

/// What the scheduler's visit makes of the processor `before`: the
/// processor is polled; after `Sync` its synchronous step runs. The visit
/// tells `true` after `Finished` and `false` after any other event; an error
/// of the poll or of the step is the visit's error.
pub open spec fn poll_step(before: Processor, after: Processor, r: Result<bool, ErrorCode>) -> bool {
    exists|mid: Processor, ev: Result<Event, ErrorCode>|
        #![trigger mid.polled_from(&before, ev)]
        mid.polled_from(&before, ev) && (match ev {
            Ok(Event::Finished) => after == mid && r == Ok::<bool, ErrorCode>(true),
            Ok(Event::Sync) => match r {
                Ok(finished) => !finished && after.processed_from(&mid, Ok(())),
                Err(e) => after.processed_from(&mid, Err(e)),
            },
            Ok(_) => after == mid && r == Ok::<bool, ErrorCode>(false),
            Err(e) => after == mid && r == Err::<bool, ErrorCode>(e),
        })
}

/// A link from an output port of one processor to an input port of
/// another.
#[derive(Clone, Copy, Debug, PartialEq, Eq, Structural)]
pub struct Link {
    pub from: usize,
    pub output: usize,
    pub to: usize,
    pub input: usize,
}

/// Drives the processors of a graph.
#[derive(Debug)]
pub struct PipelineExecutor {
    pub processors: Vec<Processor>,
    pub links: Vec<Link>,
    /// Per processor, whether it has reported `Finished`.
    pub finished: Vec<bool>,
    /// The error that ended the run, if any.
    pub error: Option<ErrorCode>,
}

/// Whether a link joins two ports that exist, of two different
/// processors.
pub open spec fn link_valid(processors: Seq<Processor>, link: Link) -> bool {
    &&& link.from < processors.len()
    &&& link.to < processors.len()
    &&& link.from != link.to
    &&& link.output < processors[link.from as int].outputs()
    &&& link.input < processors[link.to as int].inputs()
}

/// What serving one link makes of the processors: the two ports of the
/// link become what `link_after` says, and nothing else is touched.
pub open spec fn link_served(before: Seq<Processor>, after: Seq<Processor>, link: Link) -> bool {
    let moved = crate::port::link_after(
        before[link.from as int].output(link.output as int),
        before[link.to as int].input(link.input as int),
    );
    &&& after.len() == before.len()
    &&& forall|q: int| 0 <= q < before.len() && q != link.from && q != link.to ==> #[trigger] after[q] == before[q]
    &&& after[link.from as int].output_set_from(&before[link.from as int], link.output as int, moved.0)
    &&& after[link.to as int].input_set_from(&before[link.to as int], moved.1)
}

/// What serving the first `n` links, in order, makes of the processors.
pub open spec fn links_served(before: Seq<Processor>, after: Seq<Processor>, links: Seq<Link>, n: nat) -> bool
    decreases n,
{
    if n == 0 {
        after == before
    } else {
        exists|mid: Seq<Processor>|
            #![trigger link_served(mid, after, links[n - 1])]
            links_served(before, mid, links, (n - 1) as nat) && link_served(mid, after, links[n - 1])
    }
}

/// What visiting the first `n` processors makes of the executor `before`,
/// where none of the visits fails: a processor that had finished is left
/// alone; every other is visited once, and its flag says whether it has
/// finished now. The processors from `n` on are as they were.
pub open spec fn polled_upto(before: PipelineExecutor, processors: Seq<Processor>, finished: Seq<bool>, n: int) -> bool {
    &&& processors.len() == before.processors@.len()
    &&& finished.len() == before.processors@.len()
    &&& forall|q: int| 0 <= q < n && q < processors.len() ==> (if before.finished@[q] {
        #[trigger] processors[q] == before.processors@[q] && finished[q]
    } else {
        poll_step(before.processors@[q], processors[q], Ok(finished[q]))
    })
    &&& forall|q: int| n <= q < processors.len() ==> #[trigger] processors[q] == before.processors@[q] && finished[q] == before.finished@[q]
}

/// Every processor of `after` is the processor of `before` with its ports
/// closed.
pub open spec fn closed_all(before: Seq<Processor>, after: Seq<Processor>) -> bool {
    &&& after.len() == before.len()
    &&& forall|q: int| 0 <= q < before.len() ==> (#[trigger] after[q]).closed_from(&before[q])
}

/// What one round makes of the executor `before`, with the outcome `r`.
/// After an error nothing is done and the error is handed out again.
/// Otherwise the processors that have not finished are visited in order.
/// When no visit fails, every link is then served in order, and the round
/// tells whether every processor has finished. When a visit fails, the
/// processors behind it are not visited, every port of every processor is
/// closed, and the error is kept and handed out.
pub open spec fn is_round(before: PipelineExecutor, after: PipelineExecutor, r: Result<bool, ErrorCode>) -> bool {
    let n = before.processors@.len() as int;
    match before.error {
        Some(e) => after == before && r == Err::<bool, ErrorCode>(e),
        None => match r {
            Ok(done) => {
                &&& after.error.is_none()
                &&& after.links == before.links
                &&& done == after.all_finished()
                &&& exists|polled: Seq<Processor>|
                    #![trigger polled_upto(before, polled, after.finished@, n)]
                    polled_upto(before, polled, after.finished@, n) && links_served(
                        polled,
                        after.processors@,
                        before.links@,
                        before.links@.len(),
                    )
            },
            Err(e) => {
                &&& after.error == Some(e)
                &&& after.links == before.links
                &&& after.all_finished()
                &&& exists|polled: Seq<Processor>, finished: Seq<bool>, p: int|
                    #![trigger polled_upto(before, polled.update(p, before.processors@[p]), finished, p)]
                    polled_upto(before, polled.update(p, before.processors@[p]), finished, p) && 0 <= p < n && !before.finished@[p]
                        && poll_step(before.processors@[p], polled[p], Err(e)) && closed_all(polled, after.processors@)
            },
        },
    }
}

/// What `k` rounds that each tell that not every processor has finished
/// make of the executor `before`.
pub open spec fn continued(before: PipelineExecutor, after: PipelineExecutor, k: nat) -> bool
    decreases k,
{
    if k == 0 {
        after == before
    } else {
        exists|mid: PipelineExecutor|
            #![trigger is_round(mid, after, Ok(false))]
            continued(before, mid, (k - 1) as nat) && is_round(mid, after, Ok(false))
    }
}

/// What a run of at most `max_rounds` rounds makes of the executor
/// `before`, with the outcome `r`. After an error nothing is done. A run
/// that tells that not every processor has finished has made all of its
/// rounds; any other run has stopped at the round that told that every
/// processor has finished, or that failed.
pub open spec fn is_run(before: PipelineExecutor, after: PipelineExecutor, max_rounds: nat, r: Result<bool, ErrorCode>) -> bool {
    match before.error {
        Some(e) => after == before && r == Err::<bool, ErrorCode>(e),
        None => if r == Ok::<bool, ErrorCode>(false) {
            continued(before, after, max_rounds)
        } else {
            exists|k: nat, mid: PipelineExecutor|
                #![trigger continued(before, mid, k)]
                continued(before, mid, k) && k < max_rounds && is_round(mid, after, r)
        },
    }
}

/// One more link served.
proof fn lemma_links_served_next(before: Seq<Processor>, mid: Seq<Processor>, after: Seq<Processor>, links: Seq<Link>, n: nat)
    requires
        links_served(before, mid, links, n),
        link_served(mid, after, links[n as int]),
    ensures
        links_served(before, after, links, n + 1),
{
    assert(((n + 1) - 1) as nat == n);
    assert(links[(n + 1) - 1] == links[n as int]);
    assert(link_served(mid, after, links[(n + 1) - 1]));
}

/// One more round made.
proof fn lemma_continued_next(before: PipelineExecutor, mid: PipelineExecutor, after: PipelineExecutor, k: nat)
    requires
        continued(before, mid, k),
        is_round(mid, after, Ok(false)),
    ensures
        continued(before, after, k + 1),
{
    assert(((k + 1) - 1) as nat == k);
    assert(is_round(mid, after, Ok(false)));
}

/// Setting an output port twice is setting it to the second port.
proof fn lemma_output_set_twice(a: Processor, b: Processor, c: Processor, i: int, first: Port, second: Port)
    requires
        0 <= i < a.outputs(),
        b.output_set_from(&a, i, first),
        c.output_set_from(&b, i, second),
    ensures
        c.output_set_from(&a, i, second),
{
    match (a, b, c) {
        (Processor::Scatter(x), Processor::Scatter(y), Processor::Scatter(z)) => {
            assert(z.output_ports@ =~= x.output_ports@.update(i, second));
        },
        _ => {},
    }
}

/// Setting the input port twice is setting it to the second port.
proof fn lemma_input_set_twice(a: Processor, b: Processor, c: Processor, first: Port, second: Port)
    requires
        b.input_set_from(&a, first),
        c.input_set_from(&b, second),
    ensures
        c.input_set_from(&a, second),
{
}

impl PipelineExecutor {
    /// Every processor is well formed, every link is valid, a processor
    /// that has finished has all its ports closed, and after an error
    /// every port of every processor is closed.
    pub open spec fn well_formed(&self) -> bool {
        &&& self.finished@.len() == self.processors@.len()
        &&& forall|p: int| 0 <= p < self.processors@.len() ==> (#[trigger] self.processors@[p]).well_formed()
        &&& forall|l: int| 0 <= l < self.links@.len() ==> link_valid(self.processors@, #[trigger] self.links@[l])
        &&& forall|p: int| 0 <= p < self.processors@.len() && self.finished@[p] ==> (#[trigger] self.processors@[p]).all_ports_finished()
        &&& self.error.is_some() ==> forall|p: int| 0 <= p < self.processors@.len() ==> (#[trigger] self.finished@[p])
    }

    /// Whether every processor has finished.
    pub open spec fn all_finished(&self) -> bool {
        forall|p: int| 0 <= p < self.finished@.len() ==> (#[trigger] self.finished@[p])
    }

    /// The shape of the graph: how many ports each processor has, and the
    /// links.
    pub open spec fn same_shape(&self, before: &PipelineExecutor) -> bool {
        &&& self.processors@.len() == before.processors@.len()
        &&& self.links == before.links
        &&& forall|p: int| 0 <= p < self.processors@.len() ==> {
            &&& (#[trigger] self.processors@[p]).inputs() == before.processors@[p].inputs()
            &&& self.processors@[p].outputs() == before.processors@[p].outputs()
        }
    }

    /// An executor for the given processors and links. A link must join
    /// an existing output port with an existing input port of another
    /// processor.
    pub fn create(processors: Vec<Processor>, links: Vec<Link>) -> (r: Result<PipelineExecutor, ErrorCode>)
        requires
            forall|p: int| 0 <= p < processors@.len() ==> (#[trigger] processors@[p]).well_formed(),
        ensures
            r.is_ok() <==> (forall|l: int| 0 <= l < links@.len() ==> link_valid(processors@, #[trigger] links@[l])),
            r matches Err(e) ==> e == ErrorCode::ConfigurationError,
            r matches Ok(x) ==> {
                &&& x.well_formed()
                &&& x.processors == processors
                &&& x.links == links
                &&& x.error.is_none()
                &&& forall|p: int| 0 <= p < processors@.len() ==> !(#[trigger] x.finished@[p])
            },
    {
        let n = processors.len();
        let mut l: usize = 0;
        while l < links.len()
            invariant
                l <= links@.len(),
                n == processors@.len(),
                forall|k: int| 0 <= k < l ==> link_valid(processors@, #[trigger] links@[k]),
            decreases links@.len() - l,
        {
            let link = links[l];
            if link.from >= n || link.to >= n || link.from == link.to {
                return Err(ErrorCode::ConfigurationError);
            }
            if link.output >= processors[link.from].output_count() || link.input >= processors[link.to].input_count() {
                return Err(ErrorCode::ConfigurationError);
            }
            l += 1;
        }
        let mut finished: Vec<bool> = Vec::with_capacity(n);
        let mut p: usize = 0;
        while p < n
            invariant
                p <= n,
                finished@.len() == p,
                forall|q: int| 0 <= q < p ==> !(#[trigger] finished@[q]),
            decreases n - p,
        {
            finished.push(false);
            p += 1;
        }
        Ok(PipelineExecutor { processors, links, finished, error: None })
    }

    /// Carries packets and signals across link `l`.
    pub fn transfer_link(&mut self, l: usize)
        requires
            old(self).well_formed(),
            l < old(self).links@.len(),
        ensures
            final(self).well_formed(),
            final(self).same_shape(old(self)),
            final(self).finished == old(self).finished,
            final(self).error == old(self).error,
            link_served(old(self).processors@, final(self).processors@, old(self).links@[l as int]),
            ({
                let link = old(self).links@[l as int];
                (final(self).processors@[link.from as int].output(link.output as int), final(self).processors@[link.to as int].input(
                    link.input as int,
                )) == crate::port::link_after(
                    old(self).processors@[link.from as int].output(link.output as int),
                    old(self).processors@[link.to as int].input(link.input as int),
                )
            }),
    {
        let link = self.links[l];
        assert(link_valid(self.processors@, self.links@[l as int]));
        let mut up = Port::create();
        let mut down = Port::create();
        let ghost first = up;
        let ghost second = down;
        let ghost s0 = self.processors@;
        self.processors[link.from].swap_output(link.output, &mut up);
        let ghost s1 = self.processors@;
        self.processors[link.to].swap_input(link.input, &mut down);
        let ghost s2 = self.processors@;
        Port::transfer(&mut up, &mut down);
        let ghost moved = (up, down);
        self.processors[link.from].swap_output(link.output, &mut up);
        let ghost s3 = self.processors@;
        self.processors[link.to].swap_input(link.input, &mut down);
        proof {
            let s4 = self.processors@;
            let f = link.from as int;
            let t = link.to as int;
            assert(s1[t] == s0[t] && s2[f] == s1[f] && s3[t] == s2[t] && s4[f] == s3[f]);
            lemma_output_set_twice(s0[f], s1[f], s3[f], link.output as int, first, moved.0);
            lemma_input_set_twice(s0[t], s2[t], s4[t], second, moved.1);
            assert forall|q: int| 0 <= q < s0.len() && q != link.from && q != link.to implies #[trigger] s4[q] == s0[q] by {
                assert(s1[q] == s0[q] && s2[q] == s1[q] && s3[q] == s2[q] && s4[q] == s3[q]);
            }
            assert(link_served(s0, s4, link));
        }
        proof {
            assert forall|k: int| 0 <= k < self.links@.len() implies link_valid(self.processors@, #[trigger] self.links@[k]) by {
                assert(link_valid(old(self).processors@, old(self).links@[k]));
            }
            assert forall|p: int| 0 <= p < self.processors@.len() && self.finished@[p] implies (#[trigger] self.processors@[p]).all_ports_finished() by {
                assert(old(self).processors@[p].all_ports_finished());
                if p == link.from {
                    assert(old(self).processors@[p].output(link.output as int).spec_is_finished());
                } else if p == link.to {
                    assert(old(self).processors@[p].input(link.input as int).spec_is_finished());
                }
            }
        }
    }

    /// Ends the run with an error: every port of every processor is
    /// closed at once, and the error is kept.
    pub fn abort(&mut self, e: ErrorCode)
        requires
            old(self).well_formed(),
        ensures
            final(self).well_formed(),
            final(self).same_shape(old(self)),
            final(self).error == Some(e),
            final(self).all_finished(),
            closed_all(old(self).processors@, final(self).processors@),
            forall|p: int| 0 <= p < final(self).processors@.len() ==> (#[trigger] final(self).processors@[p]).all_ports_finished(),
    {
        let n = self.processors.len();
        let mut p: usize = 0;
        while p < n
            invariant
                p <= n,
                n == self.processors@.len(),
                self.finished@.len() == n,
                self.links == old(self).links,
                self.error == old(self).error,
                old(self).well_formed(),
                old(self).processors@.len() == n,
                forall|q: int| 0 <= q < n ==> (#[trigger] self.processors@[q]).well_formed(),
                forall|q: int| 0 <= q < n ==> {
                    &&& (#[trigger] self.processors@[q]).inputs() == old(self).processors@[q].inputs()
                    &&& self.processors@[q].outputs() == old(self).processors@[q].outputs()
                },
                forall|q: int| 0 <= q < p ==> (#[trigger] self.processors@[q]).all_ports_finished(),
                forall|q: int| 0 <= q < p ==> (#[trigger] self.processors@[q]).closed_from(&old(self).processors@[q]),
                forall|q: int| p <= q < n ==> (#[trigger] self.processors@[q]) == old(self).processors@[q],
                forall|q: int| 0 <= q < p ==> (#[trigger] self.finished@[q]),
            decreases n - p,
        {
            self.processors[p].finish_all();
            self.finished.set(p, true);
            p += 1;
        }
        self.error = Some(e);
        proof {
            assert forall|k: int| 0 <= k < self.links@.len() implies link_valid(self.processors@, #[trigger] self.links@[k]) by {
                assert(link_valid(old(self).processors@, old(self).links@[k]));
            }
        }
    }

    /// One round of the scheduler.
    pub fn run_round(&mut self) -> (r: Result<bool, ErrorCode>)
        requires
            old(self).well_formed(),
        ensures
            final(self).well_formed(),
            final(self).same_shape(old(self)),
            is_round(*old(self), *final(self), r),
            r matches Err(e) ==> {
                &&& final(self).error == Some(e)
                &&& final(self).all_finished()
                &&& forall|p: int| 0 <= p < final(self).processors@.len() ==> (#[trigger] final(self).processors@[p]).all_ports_finished()
            },
            r matches Ok(done) ==> {
                &&& final(self).error.is_none()
                &&& done == final(self).all_finished()
                &&& forall|p: int| 0 <= p < old(self).finished@.len() && old(self).finished@[p] ==> (#[trigger] final(self).finished@[p])
            },
    {
        match self.error {
            Some(e) => {
                return Err(e);
            },
            None => {},
        }
        let n = self.processors.len();
        let ghost start = *self;
        let mut p: usize = 0;
        while p < n
            invariant
                p <= n,
                n == self.processors@.len(),
                n == old(self).finished@.len(),
                start == *old(self),
                self.links == start.links,
                self.well_formed(),
                self.same_shape(old(self)),
                self.error.is_none(),
                old(self).error.is_none(),
                polled_upto(start, self.processors@, self.finished@, p as int),
                forall|q: int| 0 <= q < n && old(self).finished@[q] ==> (#[trigger] self.finished@[q]),
            decreases n - p,
        {
            if !self.finished[p] {
                let ghost before = *self;
                assert(self.processors@[p as int] == start.processors@[p as int]);
                assert(self.finished@[p as int] == start.finished@[p as int]);
                let visited = self.processors[p].poll();
                proof {
                    assert forall|k: int| 0 <= k < self.links@.len() implies link_valid(self.processors@, #[trigger] self.links@[k]) by {
                        assert(link_valid(before.processors@, before.links@[k]));
                    }
                    assert forall|q: int| 0 <= q < n && q != p implies #[trigger] self.processors@[q] == before.processors@[q] by {}
                }
                match visited {
                    Ok(finished) => {
                        if finished {
                            self.finished.set(p, true);
                        }
                        proof {
                            assert forall|q: int| 0 <= q < p + 1 && q < self.processors@.len() implies (if start.finished@[q] {
                                #[trigger] self.processors@[q] == start.processors@[q] && self.finished@[q]
                            } else {
                                poll_step(start.processors@[q], self.processors@[q], Ok(self.finished@[q]))
                            }) by {
                                if q < p {
                                    assert(self.processors@[q] == before.processors@[q]);
                                    assert(self.finished@[q] == before.finished@[q]);
                                }
                            }
                            assert forall|q: int| p + 1 <= q < self.processors@.len() implies #[trigger] self.processors@[q] == start.processors@[q]
                                && self.finished@[q] == start.finished@[q] by {
                                assert(self.processors@[q] == before.processors@[q]);
                            }
                        }
                    },
                    Err(e) => {
                        let ghost polled = self.processors@;
                        let ghost flags = self.finished@;
                        self.abort(e);
                        proof {
                            let rest = polled.update(p as int, start.processors@[p as int]);
                            assert forall|q: int| 0 <= q < p && q < rest.len() implies (if start.finished@[q] {
                                #[trigger] rest[q] == start.processors@[q] && flags[q]
                            } else {
                                poll_step(start.processors@[q], rest[q], Ok(flags[q]))
                            }) by {
                                assert(rest[q] == before.processors@[q]);
                            }
                            assert forall|q: int| p <= q < rest.len() implies #[trigger] rest[q] == start.processors@[q] && flags[q] == start.finished@[q] by {
                                if q > p {
                                    assert(rest[q] == before.processors@[q]);
                                }
                            }
                            assert(polled_upto(start, polled.update(p as int, start.processors@[p as int]), flags, p as int));
                        }
                        return Err(e);
                    },
                }
            } else {
                assert(self.finished@[p as int] == start.finished@[p as int]);
            }
            p += 1;
        }
        let ghost polled = self.processors@;
        let mut l: usize = 0;
        while l < self.links.len()
            invariant
                l <= self.links@.len(),
                n == self.processors@.len(),
                n == old(self).finished@.len(),
                start == *old(self),
                self.links == start.links,
                self.well_formed(),
                self.same_shape(old(self)),
                self.error.is_none(),
                old(self).error.is_none(),
                polled_upto(start, polled, self.finished@, n as int),
                links_served(polled, self.processors@, self.links@, l as nat),
                forall|q: int| 0 <= q < n && old(self).finished@[q] ==> (#[trigger] self.finished@[q]),
            decreases self.links@.len() - l,
        {
            let ghost earlier = self.processors@;
            self.transfer_link(l);
            proof {
                lemma_links_served_next(polled, earlier, self.processors@, self.links@, l as nat);
            }
            l += 1;
        }
        let mut done = true;
        let mut q: usize = 0;
        while q < n
            invariant
                q <= n,
                n == self.finished@.len(),
                done == (forall|k: int| 0 <= k < q ==> (#[trigger] self.finished@[k])),
            decreases n - q,
        {
            if !self.finished[q] {
                done = false;
            }
            q += 1;
        }
        proof {
            assert(polled_upto(start, polled, self.finished@, n as int) && links_served(
                polled,
                self.processors@,
                start.links@,
                start.links@.len(),
            ));
        }
        Ok(done)
    }

    /// Runs rounds until every processor has finished, an error ends the
    /// run, or `max_rounds` rounds have passed. Tells whether every
    /// processor has finished.
    pub fn run(&mut self, max_rounds: usize) -> (r: Result<bool, ErrorCode>)
        requires
            old(self).well_formed(),
        ensures
            final(self).well_formed(),
            final(self).same_shape(old(self)),
            is_run(*old(self), *final(self), max_rounds as nat, r),
            r matches Err(e) ==> {
                &&& final(self).error == Some(e)
                &&& forall|p: int| 0 <= p < final(self).processors@.len() ==> (#[trigger] final(self).processors@[p]).all_ports_finished()
            },
            r matches Ok(done) ==> final(self).error.is_none() && old(self).error.is_none() && (done ==> final(self).all_finished()),
    {
        match self.error {
            Some(e) => {
                assert forall|p: int| 0 <= p < self.processors@.len() implies (#[trigger] self.processors@[p]).all_ports_finished() by {
                    assert(self.finished@[p]);
                }
                return Err(e);
            },
            None => {},
        }
        let ghost start = *self;
        let mut round: usize = 0;
        while round < max_rounds
            invariant
                round <= max_rounds,
                start == *old(self),
                start.error.is_none(),
                self.well_formed(),
                self.same_shape(old(self)),
                self.error.is_none(),
                continued(start, *self, round as nat),
            decreases max_rounds - round,
        {
            let ghost before = *self;
            let outcome = self.run_round();
            match outcome {
                Ok(true) => {
                    assert(continued(start, before, round as nat) && round < max_rounds && is_round(before, *self, outcome));
                    return Ok(true);
                },
                Ok(false) => {
                    proof {
                        lemma_continued_next(start, before, *self, round as nat);
                    }
                },
                Err(e) => {
                    assert(continued(start, before, round as nat) && round < max_rounds && is_round(before, *self, outcome));
                    return Err(e);
                },
            }
            round += 1;
        }
        Ok(false)
    }
}

impl TransformWindowPartitionScatter {
    /// The scatter as an item of a pipeline layer: the processor, with one
    /// input and one output per channel.
    pub fn into_pipe_item(self) -> (item: (PipeItem, Processor))
        ensures
            item.0 == (PipeItem {
                processor: ProcessorDesc { kind: ProcessorKind::Scatter, plan_id: 0, profiled: false, spilling: false },
                inputs: 1,
                outputs: self.output_ports@.len() as usize,
            }),
            item.1 == Processor::Scatter(self),
    {
        let outputs = self.output_ports.len();
        let processor = ProcessorDesc { kind: ProcessorKind::Scatter, plan_id: 0, profiled: false, spilling: false };
        (PipeItem::create(processor, 1, outputs), Processor::Scatter(self))
    }
}

} // verus!
