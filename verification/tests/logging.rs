use buflog::FlushJob;
use buflog::LogTimeStamp;
use buflog::Logger;

#[test]
fn test_destructor() {
    let mut logger = Logger::new("logs".to_owned());
    let _ = logger.add("Here is a log");
    if true {
        let mut logg = Logger::new("logs1".to_owned());
        let _ = logg.add("Here is a different log");
        let _ = logg.close();
    }
    println!("Here something is happening");
    let _ = logger.close();
}

#[test]
fn test_too_big_log() {
    let mut logger = Logger::new("logs".to_owned());
    let mut s = "".to_owned();
    let mut i: usize = 0;
    while i < 2000 {
        s.push('a');
        i += 1;
    }
    let _ = logger.add(&s);
}

#[test]
fn threshold_flush_resets_buffer() {
    let head = LogTimeStamp::from_secs(0);
    let stamp = LogTimeStamp::from_secs(0);
    let mut logger = Logger::new_at("d".to_owned(), head);
    let entry = "a".repeat(500);
    let stamped = format!("1.1.1970 - 0:0:0;{}", entry);

    // 517 bytes: under the threshold, nothing flushed.
    assert!(logger.add_at(&stamp, &entry).is_none());
    assert_eq!(logger.log_size, 517);

    // 1034 bytes: past the threshold, the whole buffer goes out once.
    let job = logger.add_at(&stamp, &entry).expect("should flush");
    assert_eq!(logger.log_size, 1034);
    assert_eq!(job.path, "d/1.1.1970 - 0:0:0.txt");
    assert_eq!(job.content, format!("{}{}", stamped, stamped));

    // The buffer is empty again: a close carries no content.
    let closing = logger.close_at(&LogTimeStamp::from_secs(1));
    assert_eq!(closing.content, "");
}

#[test]
fn repeated_flushes_share_the_head_path() {
    let head = LogTimeStamp::from_secs(7);
    let stamp = LogTimeStamp::from_secs(0);
    let mut logger = Logger::new_at("d".to_owned(), head);
    let entry = "a".repeat(600);

    let mut jobs: Vec<FlushJob> = Vec::new();
    for _ in 0..4 {
        if let Some(job) = logger.add_at(&stamp, &entry) {
            jobs.push(job);
        }
    }
    assert_eq!(jobs.len(), 2);
    assert_eq!(jobs[0].path, "d/1.1.1970 - 0:0:7.txt");
    assert_eq!(jobs[1].path, jobs[0].path);
    // The second flush replaces the first: it carries only what accumulated
    // after the first flush.
    let stamped = format!("1.1.1970 - 0:0:0;{}", entry);
    assert_eq!(jobs[0].content, format!("{}{}", stamped, stamped));
    assert_eq!(jobs[1].content, format!("{}{}", stamped, stamped));
}

#[test]
fn close_uses_the_fresh_timestamp() {
    let head = LogTimeStamp::from_secs(0);
    let mut logger = Logger::new_at("d".to_owned(), head);
    let stamp = LogTimeStamp::from_secs(0);
    assert!(logger.add_at(&stamp, "pending").is_none());

    // A logger that lived into the next second closes under a path that
    // differs from the head-timestamp path of the threshold flushes.
    let fresh = LogTimeStamp::from_secs(1);
    let job = logger.close_at(&fresh);
    assert_eq!(job.path, "d/1.1.1970 - 0:0:1.txt");
    assert_ne!(job.path, "d/1.1.1970 - 0:0:0.txt");
    assert_eq!(job.content, "1.1.1970 - 0:0:0;pending");
}

#[test]
fn close_writes_even_when_empty() {
    let logger = Logger::new_at("d".to_owned(), LogTimeStamp::from_secs(0));
    let job = logger.close_at(&LogTimeStamp::from_secs(2));
    assert_eq!(job.path, "d/1.1.1970 - 0:0:2.txt");
    assert_eq!(job.content, "");
}

#[test]
fn oversized_entry_keeps_warning_then_entry() {
    let mut logger = Logger::new("logs".to_owned());
    let big = "a".repeat(2000);
    let jobs = logger.add(&big);

    // From an empty buffer the diagnostic entry fits, so only the oversized
    // append itself flushes: one job, holding both entries in order.
    assert_eq!(jobs.len(), 1);
    let content = &jobs[0].content;
    let warning_at = content
        .find("Attempted to log an entry larger than 1024 bytes")
        .expect("warning entry present");
    let entry_at = content.find(&big).expect("oversized entry present");
    assert!(warning_at < entry_at);
    assert!(content.ends_with(&big));
    // Each of the two entries sits behind its own timestamp and separator.
    assert_eq!(content.matches(';').count(), 2);
}

#[test]
fn threshold_counts_bytes_not_chars() {
    let stamp = LogTimeStamp::from_secs(0);
    let mut logger = Logger::new_at("d".to_owned(), stamp);
    // 400 three-byte characters: 417 chars in the buffer, 1217 bytes.
    let entry = "\u{20ac}".repeat(400);
    let job = logger.add_at(&stamp, &entry).expect("bytes, not chars, cross the threshold");
    assert_eq!(logger.log_size, 1217);
    assert!(job.content.chars().count() < 1024);
}
