use candy_cane::sync::WriterIntent;

#[test]
fn nobody_announced_nobody_waits() {
    let intent = WriterIntent::new();
    intent.wait_for_writer();
    intent.broadcast();
    intent.wait_for_writer();
}

#[test]
fn withdrawn_announcement_lets_readers_pass() {
    let intent = WriterIntent::new();
    intent.begin_writer_intent();
    intent.clear_writer_intent();
    intent.wait_for_writer();
    // Withdrawing twice is withdrawing.
    intent.clear_writer_intent();
    intent.wait_for_writer();
}
