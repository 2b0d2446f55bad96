use staging_log::runtime::{render, Level, Logger, LoggerInternal, SinkRecord};
use staging_log::staging_buffer::{ReserveError, StagingBuffer};

#[test]
fn log_output() {
    let mut internal = LoggerInternal::new();
    let handle = internal.append_log_buffer(StagingBuffer::new(1));
    let logger = Logger;
    assert!(logger.enabled(Level::Info));
    logger
        .log(&mut internal, handle, Level::Info, "hello world")
        .expect("set logger error");
    logger.flush();
    let records = internal.drain_pass(0);
    assert_eq!(records, vec![SinkRecord::Text("hello world".to_string())]);
    assert_eq!(records[0].to_line(), "hello world");
}

#[test]
fn levels_up_to_info_are_enabled() {
    let logger = Logger;
    assert!(logger.enabled(Level::Error));
    assert!(logger.enabled(Level::Warn));
    assert!(logger.enabled(Level::Info));
    assert!(!logger.enabled(Level::Debug));
    assert!(!logger.enabled(Level::Trace));
}

#[test]
fn filtered_record_leaves_the_buffer_untouched() {
    let mut internal = LoggerInternal::new();
    let handle = internal.append_log_buffer(StagingBuffer::with_capacity(1, 64));
    assert_eq!(Logger.log(&mut internal, handle, Level::Debug, "quiet"), Ok(()));
    assert_eq!(Logger.log(&mut internal, handle, Level::Trace, "quiet"), Ok(()));
    assert_eq!(internal.drain_step(handle), (None, 0));
}

#[test]
fn hello_then_world_reach_the_sink_as_one_line() {
    let mut internal = LoggerInternal::new();
    let handle = internal.append_log_buffer(StagingBuffer::with_capacity(1, 1024));
    assert_eq!(Logger.log(&mut internal, handle, Level::Info, "hello"), Ok(()));
    assert_eq!(Logger.log(&mut internal, handle, Level::Warn, "world"), Ok(()));
    let records = internal.drain_pass(0);
    assert_eq!(records.len(), 1);
    assert_eq!(records[0], SinkRecord::Text("helloworld".to_string()));
    assert_eq!(records[0].to_line(), "helloworld");
    assert_eq!(internal.drain_pass(0), Vec::<SinkRecord>::new());
}

#[test]
fn invalid_bytes_reach_the_sink_as_placeholder() {
    let mut internal = LoggerInternal::new();
    let handle = internal.append_log_buffer(StagingBuffer::with_capacity(1, 64));
    let raw = [0xffu8, 0xfe, 0x80];
    let pos = internal.reserve_alloc(handle, raw.len()).unwrap();
    internal.write_alloc(handle, pos, &raw);
    internal.finish_alloc(handle, raw.len());
    let (record, next) = internal.drain_step(handle);
    assert_eq!(record, Some(SinkRecord::InvalidData));
    assert_eq!(record.unwrap().to_line(), "Invalid data");
    assert_eq!(next, 0);
    assert_eq!(internal.drain_step(handle), (None, 0));
    assert_eq!(Logger.log(&mut internal, handle, Level::Error, "after"), Ok(()));
    assert_eq!(
        internal.drain_step(handle),
        (Some(SinkRecord::Text("after".to_string())), 0)
    );
}

#[test]
fn render_decodes_text_and_flags_the_rest() {
    assert_eq!(render(b"plain".to_vec()), SinkRecord::Text("plain".to_string()));
    assert_eq!(
        render(vec![0xc3, 0xa9, 0xe2, 0x82, 0xac]),
        SinkRecord::Text("\u{e9}\u{20ac}".to_string())
    );
    assert_eq!(render(Vec::new()), SinkRecord::Text(String::new()));
    assert_eq!(render(vec![0xc3]), SinkRecord::InvalidData);
    assert_eq!(render(vec![b'a', 0xff]), SinkRecord::InvalidData);
    assert_eq!(render(vec![0xed, 0xa0, 0x80]), SinkRecord::InvalidData);
}

#[test]
fn record_lines() {
    assert_eq!(SinkRecord::Text("abc".to_string()).to_line(), "abc");
    assert_eq!(SinkRecord::InvalidData.to_line(), "Invalid data");
}

#[test]
fn registration_hands_out_handles_in_order() {
    let mut internal = LoggerInternal::new();
    assert_eq!(internal.len(), 0);
    assert_eq!(internal.drain_pass(0), Vec::<SinkRecord>::new());
    assert_eq!(internal.append_log_buffer(StagingBuffer::with_capacity(10, 64)), 0);
    assert_eq!(internal.append_log_buffer(StagingBuffer::with_capacity(11, 64)), 1);
    assert_eq!(internal.append_log_buffer(StagingBuffer::with_capacity(12, 64)), 2);
    assert_eq!(internal.len(), 3);
}

#[test]
fn drain_pass_visits_round_robin_from_the_cursor() {
    let mut internal = LoggerInternal::new();
    for id in 0..4 {
        internal.append_log_buffer(StagingBuffer::with_capacity(id, 64));
    }
    assert_eq!(Logger.log(&mut internal, 0, Level::Info, "zero"), Ok(()));
    assert_eq!(Logger.log(&mut internal, 1, Level::Info, "one"), Ok(()));
    assert_eq!(Logger.log(&mut internal, 3, Level::Info, "three"), Ok(()));
    let records = internal.drain_pass(1);
    assert_eq!(
        records,
        vec![
            SinkRecord::Text("one".to_string()),
            SinkRecord::Text("three".to_string()),
            SinkRecord::Text("zero".to_string()),
        ]
    );
    assert_eq!(internal.drain_pass(1), Vec::<SinkRecord>::new());
}

#[test]
fn drain_step_advances_the_cursor_modulo_the_count() {
    let mut internal = LoggerInternal::new();
    for id in 0..3 {
        internal.append_log_buffer(StagingBuffer::with_capacity(id, 64));
    }
    assert_eq!(Logger.log(&mut internal, 2, Level::Info, "last"), Ok(()));
    assert_eq!(internal.drain_step(0), (None, 1));
    assert_eq!(internal.drain_step(1), (None, 2));
    assert_eq!(
        internal.drain_step(2),
        (Some(SinkRecord::Text("last".to_string())), 0)
    );
}

#[test]
fn oversized_message_is_rejected() {
    let mut internal = LoggerInternal::new();
    let handle = internal.append_log_buffer(StagingBuffer::with_capacity(1, 8));
    assert_eq!(
        Logger.log(&mut internal, handle, Level::Info, "123456789"),
        Err(ReserveError::OverCapacityRequest)
    );
    assert_eq!(
        Logger.log(&mut internal, handle, Level::Info, "12345678"),
        Err(ReserveError::Stalled)
    );
    assert_eq!(Logger.log(&mut internal, handle, Level::Info, "1234567"), Ok(()));
    assert_eq!(
        internal.drain_pass(0),
        vec![SinkRecord::Text("1234567".to_string())]
    );
}

#[test]
fn stalled_message_is_accepted_after_a_drain() {
    let mut internal = LoggerInternal::new();
    let handle = internal.append_log_buffer(StagingBuffer::with_capacity(1, 16));
    assert_eq!(Logger.log(&mut internal, handle, Level::Info, "0123456789"), Ok(()));
    assert_eq!(
        Logger.log(&mut internal, handle, Level::Info, "abcdefgh"),
        Err(ReserveError::Stalled)
    );
    assert_eq!(
        internal.drain_pass(0),
        vec![SinkRecord::Text("0123456789".to_string())]
    );
    assert_eq!(Logger.log(&mut internal, handle, Level::Info, "abcdefgh"), Ok(()));
    assert_eq!(
        internal.drain_pass(0),
        vec![SinkRecord::Text("abcdefgh".to_string())]
    );
}

#[test]
fn two_producers_deliver_every_record_in_their_own_order() {
    let mut internal = LoggerInternal::new();
    let first = internal.append_log_buffer(StagingBuffer::with_capacity(1, 1000));
    let second = internal.append_log_buffer(StagingBuffer::with_capacity(2, 1000));
    let mut sent = [String::new(), String::new()];
    let mut received = [String::new(), String::new()];
    let mut cursor = 0;
    for n in 0..1000 {
        for (slot, handle) in [(0usize, first), (1usize, second)] {
            let tag = if slot == 0 { 'a' } else { 'b' };
            let record = format!("{}{:063}", tag, n);
            assert_eq!(record.len(), 64);
            let mut tries = 0;
            while Logger.log(&mut internal, handle, Level::Info, &record).is_err() {
                let visited = cursor;
                let (forwarded, next) = internal.drain_step(cursor);
                cursor = next;
                if let Some(SinkRecord::Text(text)) = forwarded {
                    received[visited].push_str(&text);
                }
                tries += 1;
                assert!(tries <= 8);
            }
            sent[slot].push_str(&record);
        }
    }
    for _ in 0..4 {
        for handle in [first, second] {
            if let (Some(SinkRecord::Text(text)), _) = internal.drain_step(handle) {
                received[handle].push_str(&text);
            }
        }
    }
    assert_eq!(received[0].len() + received[1].len(), 1000 * 64 * 2);
    assert_eq!(received[0], sent[0]);
    assert_eq!(received[1], sent[1]);
}

#[test]
fn empty_message_is_accepted_and_forwards_nothing() {
    let mut internal = LoggerInternal::new();
    let handle = internal.append_log_buffer(StagingBuffer::with_capacity(1, 8));
    assert_eq!(Logger.log(&mut internal, handle, Level::Info, ""), Ok(()));
    assert_eq!(internal.drain_pass(0), Vec::<SinkRecord>::new());
}
