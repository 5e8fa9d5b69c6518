use monitor::monitor::{
    collect_step, BoundedBuffer, BufferState, Collected, Monitor, MonitorBuilder, Msg, NotEmpty,
    NotFull,
};

fn msg(content: &str) -> Msg {
    Msg { content: content.to_string() }
}

#[test]
fn simple_monitor() {
    let mut buffer = BufferState::new(3);

    assert!(buffer.try_push(Msg { content: "Hello".to_string() }).is_ok());
    assert!(buffer.try_push(Msg { content: "World".to_string() }).is_ok());

    assert_eq!(buffer.len(), 2);

    assert!(buffer.try_push(Msg { content: "Message".to_string() }).is_ok());

    assert_eq!(buffer.len(), 3);

    let _ = buffer.try_pop().unwrap();

    let msg1 = buffer.try_pop().unwrap();
    assert_eq!(msg1.content, "World");

    let msg2 = buffer.try_pop().unwrap();
    assert_eq!(msg2.content, "Message");

    assert!(buffer.is_empty());
}

#[test]
fn msg_new_keeps_content() {
    let m = Msg::new("Data 3".to_string());
    assert_eq!(m.content, "Data 3");
    let copy = m.clone();
    assert_eq!(copy.content, "Data 3");
}

#[test]
fn push_into_full_buffer_gives_message_back() {
    let mut buffer = BufferState::new(1);
    assert!(buffer.try_push(msg("first")).is_ok());
    assert!(buffer.is_full());
    let refused = buffer.try_push(msg("second"));
    match refused {
        Err(back) => assert_eq!(back.content, "second"),
        Ok(()) => panic!("a full buffer accepted a message"),
    }
    assert_eq!(buffer.len(), 1);
    assert_eq!(buffer.try_pop().unwrap().content, "first");
}

#[test]
fn pop_from_empty_buffer_gives_nothing() {
    let mut buffer = BufferState::new(2);
    assert!(buffer.try_pop().is_none());
    assert!(buffer.is_empty());
    assert!(!buffer.is_full());
    assert_eq!(buffer.capacity(), 2);
}

#[test]
fn zero_capacity_buffer_refuses_everything() {
    let mut buffer = BufferState::new(0);
    assert!(buffer.is_full());
    assert!(buffer.try_push(msg("x")).is_err());
    assert!(buffer.is_empty());
}

#[test]
fn messages_leave_in_arrival_order() {
    let mut buffer = BufferState::new(4);
    for name in ["a", "b", "c", "d"] {
        assert!(buffer.try_push(msg(name)).is_ok());
    }
    let mut out = Vec::new();
    while let Some(m) = buffer.try_pop() {
        out.push(m.content);
    }
    assert_eq!(out, vec!["a", "b", "c", "d"]);
}

#[test]
fn push_and_pop_commute_on_non_empty_buffer() {
    let mut first = BufferState::new(3);
    assert!(first.try_push(msg("old")).is_ok());
    assert!(first.try_push(msg("new")).is_ok());
    let taken = first.try_pop().unwrap();

    let mut second = BufferState::new(3);
    assert!(second.try_push(msg("old")).is_ok());
    let taken_before = second.try_pop().unwrap();
    assert!(second.try_push(msg("new")).is_ok());

    assert_eq!(taken.content, taken_before.content);
    assert_eq!(first.try_pop().unwrap().content, second.try_pop().unwrap().content);
}

#[test]
fn freed_slot_can_be_refilled() {
    let mut buffer = BufferState::new(2);
    assert!(buffer.try_push(msg("1")).is_ok());
    assert!(buffer.try_push(msg("2")).is_ok());
    assert!(buffer.try_push(msg("3")).is_err());
    assert_eq!(buffer.try_pop().unwrap().content, "1");
    assert!(buffer.try_push(msg("3")).is_ok());
    assert_eq!(buffer.len(), 2);
}

#[test]
fn collect_step_stops_on_finish() {
    assert!(matches!(collect_step(Some(msg("Finish"))), Collected::Finished));
}

#[test]
fn collect_step_hands_on_other_messages() {
    match collect_step(Some(msg("Data 1"))) {
        Collected::Received(m) => assert_eq!(m.content, "Data 1"),
        _ => panic!("an ordinary message was not handed on"),
    }
    assert!(matches!(collect_step(Some(msg("finish"))), Collected::Received(_)));
}

#[test]
fn collect_step_idles_on_nothing() {
    assert!(matches!(collect_step(None), Collected::Idle));
}

#[test]
fn bounded_buffer_keeps_capacity() {
    let buffer = BoundedBuffer::new(3);
    assert_eq!(buffer.capacity(), 3);
    assert_eq!(buffer.monitor().conditions().len(), 2);
}

#[test]
fn monitor_builder_registers_conditions() {
    let monitor = MonitorBuilder::new(5u32)
        .with_condition::<NotEmpty>()
        .with_condition::<NotFull>()
        .build();
    assert_eq!(monitor.conditions().len(), 2);
    assert_eq!(*monitor.data().lock(), 5);
}

#[test]
fn monitor_builder_keeps_one_condition_per_key() {
    let monitor = MonitorBuilder::new(())
        .with_condition::<NotEmpty>()
        .with_condition::<NotEmpty>()
        .build();
    assert_eq!(monitor.conditions().len(), 1);
}

#[test]
fn monitor_new_keeps_its_parts() {
    let monitor = Monitor::new(parking_lot::Mutex::new(vec![1, 2]), std::collections::HashMap::new());
    assert_eq!(monitor.data().lock().len(), 2);
    assert!(monitor.conditions().is_empty());
}

#[test]
fn bounded_buffer_new_of_zero_capacity() {
    let buffer = BoundedBuffer::new(0);
    assert_eq!(buffer.capacity(), 0);
    let state = buffer.monitor().data().lock();
    assert!(state.is_empty());
    assert_eq!(state.capacity(), 0);
}

#[test]
fn bounded_buffer_new_guards_empty_state_of_its_capacity() {
    let buffer = BoundedBuffer::new(3);
    let state = buffer.monitor().data().lock();
    assert!(state.is_empty());
    assert_eq!(state.capacity(), 3);
}

#[test]
fn monitor_without_conditions_has_no_keys() {
    let monitor = MonitorBuilder::new(1u8).build();
    assert!(monitor.conditions().is_empty());
}

#[test]
fn builder_registers_given_key() {
    let monitor = MonitorBuilder::new(())
        .with_condition_key(std::any::TypeId::of::<NotFull>())
        .build();
    assert!(monitor.conditions().contains_key(&std::any::TypeId::of::<NotFull>()));
}

#[test]
fn bounded_buffer_has_both_conditions() {
    let buffer = BoundedBuffer::new(2);
    let conditions = buffer.monitor().conditions();
    assert!(conditions.contains_key(&std::any::TypeId::of::<NotEmpty>()));
    assert!(conditions.contains_key(&std::any::TypeId::of::<NotFull>()));
}
