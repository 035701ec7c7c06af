use query_pipeline::datavalues::{DataBlock, DataColumn, DataType, DataValue};
use query_pipeline::error::ErrorCode;
use query_pipeline::executor::{Link, PipelineExecutor, Processor, SinkProcessor, SourceProcessor};
use query_pipeline::pipeline::ProcessorKind;
use query_pipeline::port::{Batch, Event};
use query_pipeline::scatter::TransformWindowPartitionScatter;

fn block(keys: &[u64]) -> DataBlock {
    let col = DataColumn::new(DataType::UInt64, keys.iter().map(|k| DataValue::UInt(*k)).collect()).unwrap();
    DataBlock::new(vec![col]).unwrap()
}

fn link(from: usize, output: usize, to: usize, input: usize) -> Link {
    Link { from, output, to, input }
}

fn graph(blocks: Vec<DataBlock>, channels: usize, partitions: usize) -> PipelineExecutor {
    let mut processors = vec![
        Processor::Source(SourceProcessor::create(blocks)),
        Processor::Scatter(TransformWindowPartitionScatter::new(channels, partitions, vec![0]).unwrap()),
    ];
    let mut links = vec![link(0, 0, 1, 0)];
    for c in 0..channels {
        processors.push(Processor::Sink(SinkProcessor::create()));
        links.push(link(1, c, 2 + c, 0));
    }
    PipelineExecutor::create(processors, links).unwrap()
}

fn received(x: &PipelineExecutor, sink: usize) -> &Vec<Batch> {
    match &x.processors[sink] {
        Processor::Sink(s) => &s.received,
        _ => panic!("not a sink"),
    }
}

fn rows_received(x: &PipelineExecutor, sink: usize) -> Vec<(usize, u64)> {
    let mut rows = Vec::new();
    for batch in received(x, sink) {
        match batch {
            Batch::Partitions(parts) => {
                for part in parts {
                    for v in part.block.columns[0].values.iter() {
                        match v {
                            DataValue::UInt(k) => rows.push((part.partition_id, *k)),
                            _ => panic!("unexpected value"),
                        }
                    }
                }
            }
            Batch::Rows(_) => panic!("unexpected rows"),
        }
    }
    rows
}

#[test]
fn pipeline_runs_to_completion_and_keeps_every_row() {
    let a: Vec<u64> = (0..500).collect();
    let b: Vec<u64> = (500..1000).map(|k| k * 7919).collect();
    let mut x = graph(vec![block(&a), block(&b), block(&[])], 2, 4);
    assert_eq!(x.run(1000), Ok(true));
    assert!(x.finished.iter().all(|f| *f));
    assert!(x.error.is_none());
    let left = rows_received(&x, 2);
    let right = rows_received(&x, 3);
    assert!(!left.is_empty() && !right.is_empty());
    assert!(left.iter().all(|(p, _)| p % 2 == 0));
    assert!(right.iter().all(|(p, _)| p % 2 == 1));
    let mut keys: Vec<u64> = left.iter().chain(right.iter()).map(|(_, k)| *k).collect();
    keys.sort();
    let mut want: Vec<u64> = a.iter().chain(b.iter()).cloned().collect();
    want.sort();
    assert_eq!(keys, want);
    // one batch per block and channel, in the order the blocks were pushed
    assert_eq!(received(&x, 2).len(), 3);
    assert_eq!(received(&x, 3).len(), 3);
    // a finished run stays finished
    assert_eq!(x.run_round(), Ok(true));
}

#[test]
fn pipeline_run_is_deterministic() {
    let keys: Vec<u64> = (0..1000).map(|k: u64| k.wrapping_mul(0x9e37_79b9_7f4a_7c15)).collect();
    let mut first = graph(vec![block(&keys)], 2, 4);
    let mut second = graph(vec![block(&keys[..400]), block(&keys[400..])], 2, 4);
    assert_eq!(first.run(1000), Ok(true));
    assert_eq!(second.run(1000), Ok(true));
    for sink in [2usize, 3] {
        let mut a = rows_received(&first, sink);
        let mut b = rows_received(&second, sink);
        a.sort();
        b.sort();
        assert_eq!(a, b);
    }
}

#[test]
fn pipeline_stops_after_the_given_rounds() {
    let mut x = graph(vec![block(&[1, 2, 3])], 1, 1);
    assert_eq!(x.run(1), Ok(false));
    assert_eq!(x.run(0), Ok(false));
    assert_eq!(x.run(100), Ok(true));
}

#[test]
fn an_error_closes_every_port_and_is_handed_out_once_and_again() {
    // the scatter's key column does not exist in the source's blocks
    let processors = vec![
        Processor::Source(SourceProcessor::create(vec![block(&[1, 2, 3])])),
        Processor::Scatter(TransformWindowPartitionScatter::new(1, 2, vec![3]).unwrap()),
        Processor::Sink(SinkProcessor::create()),
    ];
    let mut x = PipelineExecutor::create(processors, vec![link(0, 0, 1, 0), link(1, 0, 2, 0)]).unwrap();
    assert_eq!(x.run(100), Err(ErrorCode::ConfigurationError));
    assert_eq!(x.error, Some(ErrorCode::ConfigurationError));
    assert!(x.finished.iter().all(|f| *f));
    match &x.processors[0] {
        Processor::Source(s) => assert!(s.output.is_finished()),
        _ => panic!(),
    }
    match &x.processors[1] {
        Processor::Scatter(s) => {
            assert!(s.input_port.is_finished());
            assert!(s.output_ports.iter().all(|p| p.is_finished()));
        }
        _ => panic!(),
    }
    match &x.processors[2] {
        Processor::Sink(s) => assert!(s.input.is_finished()),
        _ => panic!(),
    }
    assert_eq!(x.run_round(), Err(ErrorCode::ConfigurationError));
    assert_eq!(x.run(5), Err(ErrorCode::ConfigurationError));
}

#[test]
fn executor_rejects_bad_links() {
    let make = || {
        vec![
            Processor::Source(SourceProcessor::create(vec![])),
            Processor::Sink(SinkProcessor::create()),
        ]
    };
    assert!(PipelineExecutor::create(make(), vec![link(0, 0, 1, 0)]).is_ok());
    for bad in [link(0, 1, 1, 0), link(0, 0, 1, 1), link(0, 0, 2, 0), link(2, 0, 1, 0), link(1, 0, 0, 0), link(0, 0, 0, 0)] {
        assert_eq!(PipelineExecutor::create(make(), vec![bad]).err(), Some(ErrorCode::ConfigurationError));
    }
}

#[test]
fn source_and_sink_events() {
    let mut s = SourceProcessor::create(vec![block(&[1]), block(&[2])]);
    assert_eq!(s.event(), Ok(Event::NeedConsume));
    s.output.set_need_data();
    assert_eq!(s.event(), Ok(Event::NeedConsume));
    assert_eq!(s.output.pull_data(), Some(Ok(Batch::Rows(block(&[1])))));
    assert_eq!(s.event(), Ok(Event::NeedConsume));
    s.output.set_need_data();
    assert_eq!(s.event(), Ok(Event::NeedConsume));
    assert_eq!(s.output.pull_data(), Some(Ok(Batch::Rows(block(&[2])))));
    s.output.set_need_data();
    assert_eq!(s.event(), Ok(Event::Finished));
    assert!(s.output.is_finished());
    assert_eq!(s.event(), Ok(Event::Finished));

    let mut k = SinkProcessor::create();
    assert_eq!(k.event(), Ok(Event::NeedData));
    assert!(k.input.can_push());
    k.input.push_data(Ok(Batch::Rows(block(&[5]))));
    assert_eq!(k.event(), Ok(Event::NeedData));
    assert_eq!(k.received, vec![Batch::Rows(block(&[5]))]);
    k.input.push_data(Err(ErrorCode::IOError));
    assert_eq!(k.event(), Err(ErrorCode::IOError));
    k.input.finish();
    assert_eq!(k.event(), Ok(Event::Finished));
}

#[test]
fn scatter_as_a_pipe_item() {
    let t = TransformWindowPartitionScatter::new(3, 8, vec![0]).unwrap();
    let (item, processor) = t.into_pipe_item();
    assert_eq!((item.inputs, item.outputs), (1, 3));
    assert_eq!(item.processor.kind, ProcessorKind::Scatter);
    assert_eq!(processor.input_count(), 1);
    assert_eq!(processor.output_count(), 3);
}

#[test]
fn a_round_visits_each_processor_once_and_then_serves_the_links() {
    let mut x = graph(vec![block(&[1, 2, 3])], 1, 1);
    // round 1: the source waits (nobody asked), the scatter and the sink ask for data;
    // the links then pass the requests upstream
    assert_eq!(x.run_round(), Ok(false));
    match &x.processors[0] {
        Processor::Source(s) => {
            assert!(s.output.can_push());
            assert_eq!(s.pending.len(), 1);
        }
        _ => panic!(),
    }
    // round 2: the source pushes its block, and the link carries it to the scatter
    assert_eq!(x.run_round(), Ok(false));
    match &x.processors[1] {
        Processor::Scatter(s) => assert!(s.input_port.has_data()),
        _ => panic!(),
    }
    match &x.processors[0] {
        Processor::Source(s) => assert_eq!(s.pending.len(), 0),
        _ => panic!(),
    }
    assert!(received(&x, 2).is_empty());
    // a visit polls and runs the synchronous step in one go
    let mut p = Processor::Source(SourceProcessor::create(vec![]));
    assert_eq!(p.poll(), Ok(false));
    assert_eq!(p.process(), Ok(()));
}
