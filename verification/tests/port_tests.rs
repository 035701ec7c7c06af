use query_pipeline::barrier::{Barrier, BarrierWait};
use query_pipeline::datavalues::{DataBlock, DataColumn, DataType, DataValue};
use query_pipeline::error::ErrorCode;
use query_pipeline::port::{Batch, Event, Port, PortState};

fn one_row_block(x: u64) -> DataBlock {
    let col = DataColumn::new(DataType::UInt64, vec![DataValue::UInt(x)]).unwrap();
    DataBlock::new(vec![col]).unwrap()
}

#[test]
fn fresh_port_is_idle() {
    let p = Port::create();
    assert_eq!(p.state, PortState::Idle);
    assert!(!p.can_push());
    assert!(!p.has_data());
    assert!(!p.is_finished());
}

#[test]
fn port_push_then_pull_returns_the_batch() {
    let mut p = Port::create();
    p.set_need_data();
    assert!(p.can_push());
    p.push_data(Ok(Batch::Rows(one_row_block(7))));
    assert!(p.has_data());
    assert!(!p.can_push());
    let got = p.pull_data();
    assert_eq!(got, Some(Ok(Batch::Rows(one_row_block(7)))));
    assert_eq!(p.state, PortState::Idle);
    assert_eq!(p.pull_data(), None);
}

#[test]
fn port_carries_an_error() {
    let mut p = Port::create();
    p.set_need_data();
    p.push_data(Err(ErrorCode::IOError));
    assert_eq!(p.pull_data(), Some(Err(ErrorCode::IOError)));
}

#[test]
fn finish_is_idempotent_and_irreversible() {
    let mut p = Port::create();
    p.set_need_data();
    p.push_data(Ok(Batch::Rows(one_row_block(1))));
    p.finish();
    assert!(p.is_finished());
    assert!(!p.has_data());
    p.finish();
    assert!(p.is_finished());
    p.set_need_data();
    assert!(p.is_finished());
    assert!(!p.can_push());
    assert_eq!(p.pull_data(), None);
    assert!(p.is_finished());
}

#[test]
fn set_need_data_leaves_a_full_port_alone() {
    let mut p = Port::create();
    p.set_need_data();
    p.push_data(Ok(Batch::Rows(one_row_block(1))));
    p.set_need_data();
    assert!(p.has_data());
}

#[test]
fn transfer_moves_a_packet_downstream() {
    let mut up = Port::create();
    let mut down = Port::create();
    down.set_need_data();
    Port::transfer(&mut up, &mut down);
    assert!(up.can_push());
    up.push_data(Ok(Batch::Rows(one_row_block(3))));
    Port::transfer(&mut up, &mut down);
    assert_eq!(up.state, PortState::Idle);
    assert!(down.has_data());
    assert_eq!(down.pull_data(), Some(Ok(Batch::Rows(one_row_block(3)))));
}

#[test]
fn transfer_propagates_finish_both_ways() {
    let mut up = Port::create();
    let mut down = Port::create();
    down.finish();
    Port::transfer(&mut up, &mut down);
    assert!(up.is_finished());

    let mut up = Port::create();
    let mut down = Port::create();
    up.finish();
    Port::transfer(&mut up, &mut down);
    assert!(down.is_finished());
}

#[test]
fn transfer_lets_the_consumer_take_the_last_packet_before_closing() {
    let mut up = Port::create();
    let mut down = Port::create();
    down.set_need_data();
    Port::transfer(&mut up, &mut down);
    up.push_data(Ok(Batch::Rows(one_row_block(9))));
    Port::transfer(&mut up, &mut down);
    up.finish();
    Port::transfer(&mut up, &mut down);
    assert!(down.has_data());
    assert!(down.pull_data().is_some());
    Port::transfer(&mut up, &mut down);
    assert!(down.is_finished());
}

#[test]
fn barrier_releases_on_last_arrival() {
    assert!(Barrier::new(0).is_none());
    let mut b = Barrier::new(3).unwrap();
    assert_eq!(b.missing(), 3);
    assert_eq!(b.arrive(), BarrierWait::Waiting);
    assert_eq!(b.arrive(), BarrierWait::Waiting);
    assert_eq!(b.generation, 0);
    assert_eq!(b.missing(), 1);
    assert_eq!(b.arrive(), BarrierWait::Leader);
    assert_eq!(b.generation, 1);
    assert_eq!(b.arrived, 0);
    // reusable
    assert_eq!(b.arrive(), BarrierWait::Waiting);
}

#[test]
fn error_labels() {
    assert_eq!(ErrorCode::ConfigurationError.label(), "ConfigurationError");
    assert_eq!(ErrorCode::IOError.label(), "IOError");
    assert_eq!(ErrorCode::ResourceExhausted.label(), "ResourceExhausted");
    assert_eq!(ErrorCode::InternalInvariantViolation.label(), "InternalInvariantViolation");
}

#[test]
fn a_wait_at_a_barrier_is_reported_as_an_event() {
    assert_eq!(BarrierWait::Waiting.as_event(), Event::Async);
    assert_eq!(BarrierWait::Leader.as_event(), Event::Sync);
}
