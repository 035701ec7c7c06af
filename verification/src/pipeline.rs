//! Pipelines: processors arranged in sequential layers ("pipes"), each
//! layer's outputs feeding the next layer's inputs.

use vstd::prelude::*;
use crate::error::ErrorCode;

verus! {

/// What a processor of the graph does.
#[derive(Clone, Copy, Debug, PartialEq, Eq, Structural)]
pub enum ProcessorKind {
    Source,
    Resize,
    Duplicate,
    Scatter,
    RangeJoinLeft,
    RangeJoinRight,
    HashJoinBuild,
    HashJoinProbe,
    ProfileStub,
    CastSchema,
    AddConstColumns,
    AppendTable,
    CommitSink,
}

/// A processor of the graph: its kind, the plan node it serves, whether
/// its work is profiled, and whether it may spill.
#[derive(Clone, Copy, Debug, PartialEq, Eq, Structural)]
pub struct ProcessorDesc {
    pub kind: ProcessorKind,
    pub plan_id: u32,
    pub profiled: bool,
    pub spilling: bool,
}

/// A processor with the number of its input and output ports.
#[derive(Clone, Copy, Debug, PartialEq, Eq, Structural)]
pub struct PipeItem {
    pub processor: ProcessorDesc,
    pub inputs: usize,
    pub outputs: usize,
}

impl PipeItem {
    pub fn create(processor: ProcessorDesc, inputs: usize, outputs: usize) -> (item: PipeItem)
        ensures
            item == (PipeItem { processor, inputs, outputs }),
    {
        PipeItem { processor, inputs, outputs }
    }
}

/// The number of input ports over a list of items.
pub open spec fn total_inputs(items: Seq<PipeItem>) -> nat
    decreases items.len(),
{
    if items.len() == 0 {
        0
    } else {
        total_inputs(items.drop_last()) + items.last().inputs as nat
    }
}

/// The number of output ports over a list of items.
pub open spec fn total_outputs(items: Seq<PipeItem>) -> nat
    decreases items.len(),
{
    if items.len() == 0 {
        0
    } else {
        total_outputs(items.drop_last()) + items.last().outputs as nat
    }
}

/// One layer of a pipeline.
#[derive(Debug)]
pub struct Pipe {
    pub items: Vec<PipeItem>,
    pub input_length: usize,
    pub output_length: usize,
}

impl Pipe {
    /// The recorded widths are the sums over the items.
    pub open spec fn well_formed(&self) -> bool {
        &&& self.input_length == total_inputs(self.items@)
        &&& self.output_length == total_outputs(self.items@)
    }

    /// A layer of `count` copies of one item.
    pub fn uniform(item: PipeItem, count: usize) -> (r: Result<Pipe, ErrorCode>)
        ensures
            r.is_ok() <==> count * item.inputs <= usize::MAX && count * item.outputs <= usize::MAX,
            r matches Err(e) ==> e == ErrorCode::ResourceExhausted,
            r matches Ok(pipe) ==> {
                &&& pipe.well_formed()
                &&& pipe.items@ == Seq::new(count as nat, |i: int| item)
                &&& pipe.input_length == count * item.inputs
                &&& pipe.output_length == count * item.outputs
            },
    {
        let input_length = match count.checked_mul(item.inputs) {
            Some(n) => n,
            None => {
                return Err(ErrorCode::ResourceExhausted);
            },
        };
        let output_length = match count.checked_mul(item.outputs) {
            Some(n) => n,
            None => {
                return Err(ErrorCode::ResourceExhausted);
            },
        };
        let mut items: Vec<PipeItem> = Vec::with_capacity(count);
        let mut i: usize = 0;
        while i < count
            invariant
                i <= count,
                items@ == Seq::new(i as nat, |k: int| item),
                total_inputs(items@) == i * item.inputs,
                total_outputs(items@) == i * item.outputs,
                count * item.inputs <= usize::MAX,
                count * item.outputs <= usize::MAX,
            decreases count - i,
        {
            proof {
                assert(items@.push(item).drop_last() =~= items@);
                assert((i + 1) * item.inputs == i * item.inputs + item.inputs) by (nonlinear_arith);
                assert((i + 1) * item.outputs == i * item.outputs + item.outputs) by (nonlinear_arith);
            }
            items.push(item);
            i += 1;
            assert(items@ =~= Seq::new(i as nat, |k: int| item));
        }
        Ok(Pipe { items, input_length, output_length })
    }

    /// A layer of one item.
    pub fn single(item: PipeItem) -> (pipe: Pipe)
        ensures
            pipe.well_formed(),
            pipe.items@ == seq![item],
            pipe.input_length == item.inputs,
            pipe.output_length == item.outputs,
    {
        let mut items: Vec<PipeItem> = Vec::with_capacity(1);
        items.push(item);
        proof {
            assert(items@ =~= seq![item]);
            assert(items@.drop_last() =~= Seq::<PipeItem>::empty());
            reveal_with_fuel(total_inputs, 2);
            reveal_with_fuel(total_outputs, 2);
        }
        Pipe { items, input_length: item.inputs, output_length: item.outputs }
    }
}

/// What is to be done once a pipeline has run.
#[derive(Clone, Copy, Debug, PartialEq, Eq, Structural)]
pub enum FinishHook {
    /// A copy has committed `copied_files` files; `purge` asks for the
    /// copied files to be removed from the stage.
    CopyCommitted { copied_files: usize, purge: bool },
}

/// A sequence of layers, with the hook to call when the run is over.
#[derive(Debug)]
pub struct Pipeline {
    pub pipes: Vec<Pipe>,
    pub on_finished: Option<FinishHook>,
}

impl Pipeline {
    /// Every layer is well formed and takes as many inputs as the layer
    /// before it has outputs.
    pub open spec fn well_formed(&self) -> bool {
        &&& forall|i: int| 0 <= i < self.pipes@.len() ==> (#[trigger] self.pipes@[i]).well_formed()
        &&& forall|i: int| 0 < i < self.pipes@.len() ==> (#[trigger] self.pipes@[i]).input_length == self.pipes@[i - 1].output_length
    }

    /// The number of outputs of the last layer; 0 without layers.
    pub open spec fn spec_output_len(&self) -> usize {
        if self.pipes@.len() == 0 {
            0
        } else {
            self.pipes@.last().output_length
        }
    }

    /// A pipeline that starts at sources and still has open outputs.
    pub open spec fn spec_is_pulling(&self) -> bool {
        self.pipes@.len() > 0 && self.pipes@[0].input_length == 0 && self.spec_output_len() != 0
    }

    /// A pipeline that starts at sources and ends in sinks.
    pub open spec fn spec_is_complete(&self) -> bool {
        self.pipes@.len() > 0 && self.pipes@[0].input_length == 0 && self.spec_output_len() == 0
    }

    pub fn create() -> (p: Pipeline)
        ensures
            p.well_formed(),
            p.pipes@.len() == 0,
            p.on_finished.is_none(),
    {
        Pipeline { pipes: Vec::new(), on_finished: None }
    }

    /// Registers the hook to call once the run is over; a hook registered
    /// before is replaced.
    pub fn set_on_finished(&mut self, hook: FinishHook)
        ensures
            final(self).pipes == old(self).pipes,
            final(self).on_finished == Some(hook),
    {
        self.on_finished = Some(hook);
    }

    pub fn output_len(&self) -> (n: usize)
        ensures
            n == self.spec_output_len(),
    {
        if self.pipes.len() == 0 {
            0
        } else {
            self.pipes[self.pipes.len() - 1].output_length
        }
    }

    /// Whether the pipeline starts at sources and has open outputs. A
    /// pipeline without layers is neither pulling nor pushing.
    pub fn is_pulling_pipeline(&self) -> (r: Result<bool, ErrorCode>)
        ensures
            self.pipes@.len() == 0 ==> r == Err::<bool, ErrorCode>(ErrorCode::InternalInvariantViolation),
            self.pipes@.len() > 0 ==> r == Ok::<bool, ErrorCode>(self.spec_is_pulling()),
    {
        if self.pipes.len() == 0 {
            Err(ErrorCode::InternalInvariantViolation)
        } else {
            Ok(self.pipes[0].input_length == 0 && self.output_len() != 0)
        }
    }

    /// Whether the pipeline starts at sources and ends in sinks.
    pub fn is_complete_pipeline(&self) -> (r: Result<bool, ErrorCode>)
        ensures
            self.pipes@.len() == 0 ==> r == Err::<bool, ErrorCode>(ErrorCode::InternalInvariantViolation),
            self.pipes@.len() > 0 ==> r == Ok::<bool, ErrorCode>(self.spec_is_complete()),
    {
        if self.pipes.len() == 0 {
            Err(ErrorCode::InternalInvariantViolation)
        } else {
            Ok(self.pipes[0].input_length == 0 && self.output_len() == 0)
        }
    }

    /// Appends a layer whose input width matches the pipeline's outputs.
    pub fn add_pipe(&mut self, pipe: Pipe)
        requires
            old(self).well_formed(),
            pipe.well_formed(),
            old(self).pipes@.len() > 0 ==> pipe.input_length == old(self).spec_output_len(),
        ensures
            final(self).well_formed(),
            final(self).pipes@ == old(self).pipes@.push(pipe),
    {
        self.pipes.push(pipe);
    }

    /// Starts the pipeline with `count` sources of one output each.
    pub fn add_source(&mut self, processor: ProcessorDesc, count: usize) -> (r: Result<(), ErrorCode>)
        requires
            old(self).well_formed(),
        ensures
            final(self).well_formed(),
            r.is_ok() <==> old(self).pipes@.len() == 0,
            r matches Err(e) ==> e == ErrorCode::ConfigurationError && final(self).pipes == old(self).pipes,
            r.is_ok() ==> {
                &&& final(self).pipes@.len() == 1
                &&& final(self).pipes@[0].items@ == Seq::new(count as nat, |i: int| PipeItem { processor, inputs: 0, outputs: 1 })
                &&& final(self).pipes@[0].input_length == 0
                &&& final(self).pipes@[0].output_length == count
            },
    {
        if self.pipes.len() != 0 {
            return Err(ErrorCode::ConfigurationError);
        }
        let item = PipeItem::create(processor, 0, 1);
        assert(count * 0 == 0 && count * 1 == count) by (nonlinear_arith);
        match Pipe::uniform(item, count) {
            Ok(pipe) => {
                self.add_pipe(pipe);
                Ok(())
            },
            Err(_) => Err(ErrorCode::ConfigurationError),
        }
    }

    /// Appends a layer with one processor of one input and one output per
    /// open output.
    pub fn add_transform(&mut self, processor: ProcessorDesc) -> (r: Result<(), ErrorCode>)
        requires
            old(self).well_formed(),
        ensures
            final(self).well_formed(),
            r.is_ok(),
            final(self).pipes@.len() == old(self).pipes@.len() + 1,
            final(self).pipes@.drop_last() == old(self).pipes@,
            final(self).pipes@.last().items@ == Seq::new(
                old(self).spec_output_len() as nat,
                |i: int| PipeItem { processor, inputs: 1, outputs: 1 },
            ),
            final(self).spec_output_len() == old(self).spec_output_len(),
            final(self).pipes@.last().input_length == old(self).spec_output_len(),
    {
        let n = self.output_len();
        let item = PipeItem::create(processor, 1, 1);
        assert(n * 1 == n) by (nonlinear_arith);
        match Pipe::uniform(item, n) {
            Ok(pipe) => {
                if self.pipes.len() == 0 {
                    assert(n == 0);
                }
                self.push_layer(pipe);
                Ok(())
            },
            Err(e) => Err(e),
        }
    }

    /// Appends a layer with one sink of one input per open output.
    pub fn add_sink(&mut self, processor: ProcessorDesc) -> (r: Result<(), ErrorCode>)
        requires
            old(self).well_formed(),
        ensures
            final(self).well_formed(),
            r.is_ok(),
            final(self).pipes@.len() == old(self).pipes@.len() + 1,
            final(self).pipes@.drop_last() == old(self).pipes@,
            final(self).pipes@.last().items@ == Seq::new(
                old(self).spec_output_len() as nat,
                |i: int| PipeItem { processor, inputs: 1, outputs: 0 },
            ),
            final(self).spec_output_len() == 0,
            final(self).pipes@.last().input_length == old(self).spec_output_len(),
    {
        let n = self.output_len();
        let item = PipeItem::create(processor, 1, 0);
        assert(n * 1 == n && n * 0 == 0) by (nonlinear_arith);
        match Pipe::uniform(item, n) {
            Ok(pipe) => {
                self.push_layer(pipe);
                Ok(())
            },
            Err(e) => Err(e),
        }
    }

    /// Appends a layer that hands every open output on to two outputs.
    pub fn duplicate(&mut self, plan_id: u32) -> (r: Result<(), ErrorCode>)
        requires
            old(self).well_formed(),
        ensures
            final(self).well_formed(),
            r.is_ok() <==> 2 * old(self).spec_output_len() <= usize::MAX,
            r matches Err(e) ==> e == ErrorCode::ResourceExhausted && final(self).pipes == old(self).pipes,
            r.is_ok() ==> {
                &&& final(self).pipes@.len() == old(self).pipes@.len() + 1
                &&& final(self).pipes@.drop_last() == old(self).pipes@
                &&& final(self).pipes@.last().items@ == Seq::new(
                    old(self).spec_output_len() as nat,
                    |i: int| PipeItem { processor: duplicate_desc(plan_id), inputs: 1, outputs: 2 },
                )
                &&& final(self).spec_output_len() == 2 * old(self).spec_output_len()
            },
    {
        let n = self.output_len();
        let processor = ProcessorDesc { kind: ProcessorKind::Duplicate, plan_id, profiled: false, spilling: false };
        let item = PipeItem::create(processor, 1, 2);
        assert(n * 1 == n && n * 2 == 2 * n) by (nonlinear_arith);
        match Pipe::uniform(item, n) {
            Ok(pipe) => {
                self.push_layer(pipe);
                Ok(())
            },
            Err(e) => Err(e),
        }
    }

    /// Brings the pipeline to `new_size` open outputs. When the width
    /// already fits nothing is added; otherwise one redistribution stage
    /// takes all outputs in and hands `new_size` out. A pipeline without
    /// open outputs cannot be resized, nor can any be resized to nothing.
    pub fn try_resize(&mut self, new_size: usize) -> (r: Result<(), ErrorCode>)
        requires
            old(self).well_formed(),
        ensures
            final(self).well_formed(),
            r.is_ok() <==> old(self).spec_output_len() != 0 && new_size != 0,
            r matches Err(e) ==> e == ErrorCode::ConfigurationError && final(self).pipes == old(self).pipes,
            r.is_ok() && old(self).spec_output_len() == new_size ==> final(self).pipes == old(self).pipes,
            r.is_ok() && old(self).spec_output_len() != new_size ==> {
                &&& final(self).pipes@.len() == old(self).pipes@.len() + 1
                &&& final(self).pipes@.drop_last() == old(self).pipes@
                &&& final(self).pipes@.last().items@ == seq![
                    PipeItem { processor: resize_desc(), inputs: old(self).spec_output_len(), outputs: new_size },
                ]
            },
            r.is_ok() ==> final(self).spec_output_len() == new_size,
    {
        let n = self.output_len();
        if n == 0 || new_size == 0 {
            return Err(ErrorCode::ConfigurationError);
        }
        if n == new_size {
            return Ok(());
        }
        let processor = ProcessorDesc { kind: ProcessorKind::Resize, plan_id: 0, profiled: false, spilling: false };
        let pipe = Pipe::single(PipeItem::create(processor, n, new_size));
        self.push_layer(pipe);
        Ok(())
    }

    /// Appends a layer and records what that means for the layer list.
    fn push_layer(&mut self, pipe: Pipe)
        requires
            old(self).well_formed(),
            pipe.well_formed(),
            pipe.input_length == old(self).spec_output_len(),
        ensures
            final(self).well_formed(),
            final(self).pipes@ == old(self).pipes@.push(pipe),
            final(self).pipes@.len() == old(self).pipes@.len() + 1,
            final(self).pipes@.drop_last() == old(self).pipes@,
            final(self).pipes@.last() == pipe,
            final(self).spec_output_len() == pipe.output_length,
    {
        self.pipes.push(pipe);
        assert(self.pipes@.drop_last() =~= old(self).pipes@);
    }
}

/// The descriptor of a redistribution stage.
pub open spec fn resize_desc() -> ProcessorDesc {
    ProcessorDesc { kind: ProcessorKind::Resize, plan_id: 0, profiled: false, spilling: false }
}

/// The descriptor of a duplicating stage.
pub open spec fn duplicate_desc(plan_id: u32) -> ProcessorDesc {
    ProcessorDesc { kind: ProcessorKind::Duplicate, plan_id, profiled: false, spilling: false }
}

} // verus!
