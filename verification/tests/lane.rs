use mega_bench_reporter::lane::Lane;

#[test]
fn test_metric_field_is_the_serialized_event_marker() {
    // The exact byte contract the event JSON depends on: absent for
    // walltime, "instructions" for the instructions lane.
    assert_eq!(Lane::Walltime.metric_field(), None);
    assert_eq!(Lane::Instructions.metric_field(), Some("instructions"));
}

#[test]
fn test_display_name() {
    assert_eq!(Lane::Walltime.display_name(), "walltime");
    assert_eq!(Lane::Instructions.display_name(), "instructions");
}
