use node_engine::context::BlockContext;
use node_engine::events::{Event, EventKind, EventSource, EventWindowing};
use node_engine::nodes::new_node_engine;
use node_engine::MAX_BLOCK_SIZE;

fn note_on(offs: usize) -> Event {
    Event { offs, channel: 0, kind: EventKind::NoteOn { note: 60, vel: 100 } }
}

fn dispatch_for_block(total: usize, events: Vec<Event>) -> Vec<(usize, Event)> {
    let (_conf, mut exec, _ch) = new_node_engine(44100);
    let mut ctx = BlockContext::for_block(vec![0; total]);
    let mut src = EventSource::from_events(events);
    let mut dispatched: Vec<(usize, Event)> = Vec::new();
    exec.process_buffer(&mut ctx, &mut src, &mut dispatched);
    dispatched
}

#[test]
fn event_placement_single_sub_block() {
    let total = MAX_BLOCK_SIZE;
    let evts = vec![note_on(0), note_on(1), note_on(total - 1)];
    let dispatched = dispatch_for_block(total, evts.clone());
    assert_eq!(dispatched.len(), 3);
    for (k, e) in dispatched.iter().enumerate() {
        assert_eq!(e.1, evts[k]);
        assert_eq!(e.0, 0);
    }
}

#[test]
fn event_placement_across_sub_blocks() {
    let total = 2 * MAX_BLOCK_SIZE + 10;
    let evts = vec![
        note_on(0),
        note_on(1),
        note_on(MAX_BLOCK_SIZE),
        note_on(2 * MAX_BLOCK_SIZE + 3),
        note_on(total - 1),
    ];
    let dispatched = dispatch_for_block(total, evts.clone());
    assert_eq!(dispatched.len(), evts.len());
    for (k, pair) in dispatched.iter().enumerate() {
        assert_eq!(pair.1, evts[k]);
        // each event lands in the sub-block covering its offset, and no other
        assert_eq!(pair.0, (evts[k].offs / MAX_BLOCK_SIZE) * MAX_BLOCK_SIZE);
    }
}

#[test]
fn event_past_the_block_stays_pending() {
    let total = MAX_BLOCK_SIZE;
    let late = note_on(total + 5);
    let dispatched = dispatch_for_block(total, vec![note_on(2), late]);
    assert_eq!(dispatched.len(), 1);
    assert_eq!(dispatched[0].1.offs, 2);
}

#[test]
fn windowing_holds_an_early_event_for_the_next_range() {
    let mut wnd = EventWindowing::new();
    let mut src = EventSource::from_events(vec![note_on(10), note_on(70)]);
    // first range covers the first event only; the second is pulled and held
    assert_eq!(wnd.next_event_in_range(&mut src, 0, 64).map(|e| e.offs), Some(10));
    assert!(wnd.next_event_in_range(&mut src, 0, 64).is_none());
    assert!(!src.ready());
    // re-offered on the next range
    assert_eq!(wnd.next_event_in_range(&mut src, 64, 128).map(|e| e.offs), Some(70));
    assert!(wnd.next_event_in_range(&mut src, 64, 128).is_none());
}

#[test]
fn event_source_pulls_in_order() {
    let mut src = EventSource::from_events(vec![note_on(3), note_on(8)]);
    assert!(src.ready());
    assert_eq!(src.pull().map(|e| e.offs), Some(3));
    assert_eq!(src.pull().map(|e| e.offs), Some(8));
    assert!(!src.ready());
    assert!(src.pull().is_none());
}

#[test]
fn event_kinds_round_trip_through_dispatch() {
    let total = MAX_BLOCK_SIZE;
    let evts = vec![
        Event { offs: 4, channel: 1, kind: EventKind::NoteOff { note: 61 } },
        Event { offs: 9, channel: 2, kind: EventKind::CtrlChange { ctrl: 7, value: 93 } },
    ];
    let dispatched = dispatch_for_block(total, evts.clone());
    assert_eq!(dispatched.len(), 2);
    assert_eq!(dispatched[0].1, evts[0]);
    assert_eq!(dispatched[1].1, evts[1]);
}
