use brainfuck::analyzer::Position;
use brainfuck::debug_interpreter::{
    BrainfuckDebugInterpreter, OutputCategoryEnum, StoppedReasonEnum,
};

#[test]
fn breakpoint_hit_count_matches_iterations() {
    // a loop whose body runs three times, with a breakpoint on the body
    let mut session = BrainfuckDebugInterpreter::new("+++[-]".to_string());
    let bp = session.add_and_validate_breakpoint(0, Some(4)).unwrap();
    assert_eq!(bp.position, Position::new(0, 4));
    session.launch().unwrap();

    let mut continues = 0;
    loop {
        session.run().unwrap();
        continues += 1;
        let events = session.stopped_events();
        if events
            .iter()
            .any(|e| e.reason == StoppedReasonEnum::Complete)
        {
            break;
        }
        assert!(continues < 100);
    }
    // three breakpoint stops, then completion on the fourth continue
    assert_eq!(continues, 3 + 1);
    let events = session.stopped_events();
    assert_eq!(events.len(), 4);
    for hit in &events[0..3] {
        assert_eq!(hit.reason, StoppedReasonEnum::Breakpoint);
        assert_eq!(hit.position, Some(Position::new(0, 4)));
        assert_eq!(hit.breakpoint_id, Some(bp.id));
    }
    assert_eq!(events[3].reason, StoppedReasonEnum::Complete);
}

#[test]
fn step_through_pauses_at_each_token() {
    let mut session = BrainfuckDebugInterpreter::new(">+.".to_string());
    session.launch().unwrap();

    session.next();
    session.next();
    session.next();
    {
        let events = session.stopped_events();
        assert_eq!(events.len(), 3);
        assert_eq!(events[0].reason, StoppedReasonEnum::Step);
        assert_eq!(events[0].position, Some(Position::new(0, 0)));
        assert_eq!(events[1].position, Some(Position::new(0, 1)));
        assert_eq!(events[2].position, Some(Position::new(0, 2)));
        assert!(session.output_events().is_empty());
    }

    session.next();
    let events = session.stopped_events();
    assert_eq!(events.len(), 4);
    assert_eq!(events[3].reason, StoppedReasonEnum::Complete);
    let outputs = session.output_events();
    assert_eq!(outputs.len(), 1);
    assert_eq!(outputs[0].category, OutputCategoryEnum::StdOut);
    assert_eq!(outputs[0].text, "\u{1}");
}

#[test]
fn updated_breakpoints_take_effect_on_continue() {
    let mut session = BrainfuckDebugInterpreter::new("+++[-]+".to_string());
    session.add_and_validate_breakpoint(0, Some(0)).unwrap();
    session.launch().unwrap();

    session.run().unwrap();
    assert_eq!(session.stopped_events().len(), 1);
    assert_eq!(
        session.stopped_events()[0].position,
        Some(Position::new(0, 0))
    );

    // ship a new table while stopped; the next continue honours it
    let late = session.add_and_validate_breakpoint(0, Some(6)).unwrap();
    session.update_runtime_breakpoints();
    session.run().unwrap();
    let events = session.stopped_events();
    let last = &events[events.len() - 1];
    assert_eq!(last.reason, StoppedReasonEnum::Breakpoint);
    assert_eq!(last.position, Some(Position::new(0, 6)));
    assert_eq!(last.breakpoint_id, Some(late.id));
}

#[test]
fn input_blocks_until_evaluate() {
    let mut session = BrainfuckDebugInterpreter::new(",.".to_string());
    session.launch().unwrap();
    session.run().unwrap();

    // blocked on input: a console notice, no stop yet
    assert!(session.stopped_events().is_empty());
    assert_eq!(session.output_events().len(), 1);
    assert_eq!(session.output_events()[0].category, OutputCategoryEnum::Console);
    assert_eq!(session.output_events()[0].text, "Waiting for user input");

    session.evaluate("A".to_string());
    let events = session.stopped_events();
    assert_eq!(events.len(), 1);
    assert_eq!(events[0].reason, StoppedReasonEnum::Complete);
    let outputs = session.output_events();
    assert_eq!(outputs.len(), 2);
    assert_eq!(outputs[1].category, OutputCategoryEnum::StdOut);
    assert_eq!(outputs[1].text, "A");
}

#[test]
fn pointer_underflow_terminates_session() {
    let mut session = BrainfuckDebugInterpreter::new("<".to_string());
    session.launch().unwrap();
    session.run().unwrap();
    let events = session.stopped_events();
    assert_eq!(events.len(), 1);
    assert_eq!(events[0].reason, StoppedReasonEnum::Terminated);
    assert_eq!(events[0].position, Some(Position::new(0, 0)));
    assert!(session.run().is_err());
}

#[test]
fn terminate_delivers_final_stop() {
    let mut session = BrainfuckDebugInterpreter::new("+[+]".to_string());
    session.add_and_validate_breakpoint(0, Some(0)).unwrap();
    session.launch().unwrap();
    session.run().unwrap();
    session.terminate();
    let events = session.stopped_events();
    assert_eq!(events.len(), 2);
    assert_eq!(events[1].reason, StoppedReasonEnum::Terminated);
    assert!(session.run().is_err());
}

#[test]
fn get_position_reports_paused_token() {
    let mut session = BrainfuckDebugInterpreter::new(">+.".to_string());
    session.launch().unwrap();
    assert!(session.get_position().is_err());
    session.next();
    assert_eq!(session.get_position().unwrap(), Position::new(0, 0));
    session.next();
    assert_eq!(session.get_position().unwrap(), Position::new(0, 1));
}

#[test]
fn stack_frame_is_one_based() {
    let mut session = BrainfuckDebugInterpreter::new("\n+".to_string());
    session.launch().unwrap();
    assert!(session.get_stack_frame().is_none());
    session.next();
    let (name, line, column) = session.get_stack_frame().unwrap();
    assert_eq!(name, "unknown");
    assert_eq!(line, 2);
    assert_eq!(column, 1);
}

#[test]
fn breakpoint_without_column_picks_first_token_of_line() {
    let mut session = BrainfuckDebugInterpreter::new("+\n>>\n-".to_string());
    let bp = session.add_and_validate_breakpoint(1, None).unwrap();
    assert_eq!(bp.position, Position::new(1, 0));
    assert_eq!(bp.id, 0);
    let second = session.add_and_validate_breakpoint(2, None).unwrap();
    assert_eq!(second.position, Position::new(2, 0));
    assert_eq!(second.id, 1);
    assert!(session.add_and_validate_breakpoint(7, None).is_none());
    assert!(session.add_and_validate_breakpoint(0, Some(1)).is_none());
}

#[test]
fn read_memory_window_after_run() {
    let mut session = BrainfuckDebugInterpreter::new("+>++".to_string());
    session.launch().unwrap();
    session.run().unwrap();
    assert_eq!(session.read_memory(0, 3), vec![1, 2, 0]);
}

#[test]
fn relaunch_starts_fresh() {
    let mut session = BrainfuckDebugInterpreter::new("+".to_string());
    session.launch().unwrap();
    session.run().unwrap();
    assert_eq!(session.stopped_events().len(), 1);
    session.launch().unwrap();
    assert!(session.stopped_events().is_empty());
    session.run().unwrap();
    assert_eq!(session.stopped_events().len(), 1);
}

#[test]
fn launch_rejects_invalid_source() {
    let mut session = BrainfuckDebugInterpreter::new("[".to_string());
    let err = session.launch().unwrap_err();
    assert_eq!(err.error_message, "More [ found");
}
