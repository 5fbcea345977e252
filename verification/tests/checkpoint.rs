use ratio::chart::PostingRecord;
use ratio::checkpoint::{
    accept_for, blob_verdict, capture, content_digest, decode_checks, head_digest, load, plan_resume, restore, should_publish,
    tail_start, Resume,
    CheckpointBench, CheckpointMiss, CheckpointPin, CheckpointTelemetry, FORMAT_VERSION,
};
use ratio::projection::Projection;
use ratio::relief::Method;
use ratio::rules::UNDECLARED_VIEW;
use ratio::shadow::JournalEntry;

#[test]
fn telemetry_line_carries_no_journal_content() {
    let tel = CheckpointTelemetry {
        hit: true,
        miss: None,
        checkpoint_prefix: 100,
        journal_height: 110,
        tail_length: 10,
    };
    let line = tel.line();
    assert_eq!(
        line,
        format!(
            "projection_checkpoint hit=1 miss=0 checkpoint_prefix={} journal_height={} tail_length={}",
            tel.checkpoint_prefix, tel.journal_height, tel.tail_length
        )
    );
    assert!(!line.contains("memo"));
    assert!(!line.contains("posting"));
    assert!(!line.contains('{'));
}

#[test]
fn a_miss_names_its_reason_and_nothing_else() {
    let tel = CheckpointTelemetry {
        hit: false,
        miss: Some(CheckpointMiss::DigestMismatch),
        checkpoint_prefix: 0,
        journal_height: 7,
        tail_length: 7,
    };
    assert_eq!(
        tel.line(),
        "projection_checkpoint hit=0 miss=1 reason=digest_mismatch checkpoint_prefix=0 journal_height=7 tail_length=7"
    );
}

#[test]
fn every_miss_has_a_stable_name() {
    assert_eq!(CheckpointMiss::Missing.as_str(), "missing");
    assert_eq!(CheckpointMiss::Corrupt.as_str(), "corrupt");
    assert_eq!(CheckpointMiss::DigestMismatch.as_str(), "digest_mismatch");
    assert_eq!(CheckpointMiss::VersionRefused.as_str(), "version_refused");
    assert_eq!(CheckpointMiss::PrefixMismatch.as_str(), "prefix_mismatch");
}

#[test]
fn the_bench_line_reports_cold_load_and_tail() {
    let b = CheckpointBench {
        entries: 10_000,
        cold_full_replay_ms: 1234,
        checkpoint_load_ms: 56,
        tail_replay_ms: 7,
        tail_entries: 100,
    };
    assert_eq!(
        b.report_line(),
        "projection_checkpoint_bench entries=10000 cold_full_replay_ms=1234 checkpoint_load_ms=56 tail_replay_ms=7 tail_entries=100"
    );
}

fn entries(n: usize) -> Vec<JournalEntry> {
    (0..n)
        .map(|i| JournalEntry {
            id: format!("e{i}"),
            memo: format!("m{i}"),
            config: "cfg".to_string(),
            postings: vec![PostingRecord::new(1, 100), PostingRecord::new(1, -100)],
            trade_date: Some("2024-01-02".to_string()),
            announcement: None,
            identified_lots: None,
        })
        .collect()
}

/// The content address of a journal prefix, over its entries' ids, one per
/// line.
fn prefix_digest(js: &[JournalEntry]) -> String {
    let lines: String = js.iter().map(|e| format!("{}\n", e.id)).collect();
    content_digest(lines.as_bytes())
}

fn pin(prefix: usize) -> CheckpointPin {
    CheckpointPin { prefix, digest: prefix_digest(&entries(prefix)) }
}

#[test]
fn a_checkpoint_names_the_exact_journal_height_and_digest() {
    let p = Projection::rebuild(&entries(5), Method::Fifo);
    let cp = capture(&p, &pin(5)).unwrap();
    assert_eq!(cp.pin().prefix, 5);
    assert_eq!(cp.pin().digest, pin(5).digest);
    assert_eq!(cp.pin().digest.len(), 64);
    assert_eq!(capture(&p, &pin(4)).err(), Some(CheckpointMiss::PrefixMismatch), "a pin for another prefix");
}

#[test]
fn accepting_a_checkpoint_for_the_wrong_prefix_fails() {
    let p = Projection::rebuild(&entries(3), Method::Fifo);
    let cp = capture(&p, &pin(3)).unwrap();
    let wrong = CheckpointPin { prefix: 2, digest: pin(3).digest };
    assert_eq!(accept_for(cp.pin(), &wrong), Err(CheckpointMiss::PrefixMismatch));
    let wrong_digest = CheckpointPin { prefix: 3, digest: "f".repeat(64) };
    assert_eq!(accept_for(cp.pin(), &wrong_digest), Err(CheckpointMiss::PrefixMismatch));
    assert!(accept_for(cp.pin(), &pin(3)).is_ok());
}

/// An envelope's header, decoded and checked.
fn envelope_checks(text: &str) -> Result<(), CheckpointMiss> {
    let v: serde_json::Value = serde_json::from_str(text).map_err(|_| CheckpointMiss::Corrupt)?;
    let version = v.get("version").and_then(|x| x.as_u64()).ok_or(CheckpointMiss::Corrupt)?;
    let prefix = v.get("prefix").and_then(|x| x.as_u64()).ok_or(CheckpointMiss::Corrupt)?;
    let digest = v.get("digest").and_then(|x| x.as_str()).ok_or(CheckpointMiss::Corrupt)?;
    let at = v.get("body").and_then(|b| b.get("at")).and_then(|x| x.as_u64()).ok_or(CheckpointMiss::Corrupt)?;
    decode_checks(version, digest, prefix, at)
}

fn envelope(version: u64) -> String {
    format!(
        "{{\"version\": {version}, \"prefix\": 0, \"digest\": \"{}\", \"read_to\": 0, \"body\": {{\"views\": {{}}, \"actions\": {{\"announced\": [], \"rewritten\": []}}, \"at\": 0, \"terms\": {{}}, \"view_defs\": {{}}}}}}",
        "0".repeat(64)
    )
}

#[test]
fn an_unknown_format_version_is_refused() {
    assert_eq!(envelope_checks(&envelope(99)), Err(CheckpointMiss::VersionRefused));
    assert_eq!(envelope_checks(&envelope(FORMAT_VERSION)), Ok(()));
    assert_eq!(envelope_checks("{not-json"), Err(CheckpointMiss::Corrupt));
}

#[test]
fn a_digest_that_is_not_a_content_address_or_a_body_from_another_prefix_is_corrupt() {
    assert_eq!(decode_checks(FORMAT_VERSION, &"0".repeat(63), 0, 0), Err(CheckpointMiss::Corrupt));
    assert_eq!(decode_checks(FORMAT_VERSION, &"g".repeat(64), 0, 0), Err(CheckpointMiss::Corrupt));
    assert_eq!(decode_checks(FORMAT_VERSION, &"0".repeat(64), 4, 3), Err(CheckpointMiss::Corrupt));
}

#[test]
fn checkpoint_then_tail_matches_full_replay() {
    let mut js = entries(6);
    let first = Projection::rebuild(&js, Method::Fifo);
    assert_eq!(first.prefix(), 6);
    let cp = capture(&first, &pin(6)).unwrap();

    js.push(JournalEntry {
        id: "tail".to_string(),
        memo: "tail".to_string(),
        config: "cfg".to_string(),
        postings: vec![PostingRecord::new(1, 50), PostingRecord::new(1, -50)],
        trade_date: Some("2024-01-03".to_string()),
        announcement: None,
        identified_lots: None,
    });
    assert_eq!(tail_start(cp.pin(), js.len()), Ok(6));
    let mut warm = restore(&cp);
    let folded = warm.advance(&js, Method::Fifo);
    let tel = CheckpointTelemetry::resumed(6, js.len(), folded);
    assert!(tel.hit);
    assert_eq!(tel.tail_length, 1);
    assert_eq!(warm.prefix(), 7);
    assert!(should_publish(warm.prefix(), js.len()));

    let cold = Projection::rebuild(&js, Method::Fifo);
    assert_eq!(warm.balances(UNDECLARED_VIEW).unwrap().value, cold.balances(UNDECLARED_VIEW).unwrap().value);
}

#[test]
fn a_checkpoint_claiming_more_than_the_journal_holds_replays() {
    assert_eq!(tail_start(&pin(8), 7), Err(CheckpointMiss::PrefixMismatch));
    let tel = CheckpointTelemetry::replayed(CheckpointMiss::PrefixMismatch, 8, 7);
    assert!(!tel.hit);
    assert_eq!(tel.tail_length, 7);
    assert!(!should_publish(6, 7));
}

#[test]
fn a_blob_is_trusted_only_under_its_own_content_address() {
    let bytes = b"abc";
    let d = content_digest(bytes);
    assert_eq!(d, "ba7816bf8f01cfea414140de5dae2223b00361a396177a9cb410ff61f20015ad");
    assert_eq!(blob_verdict(&format!("{d}\n"), bytes), Ok(()));
    assert_eq!(blob_verdict(&d, b"abd"), Err(CheckpointMiss::DigestMismatch));
    assert_eq!(blob_verdict("not a digest", bytes), Err(CheckpointMiss::Corrupt));
    assert_eq!(head_digest(&format!("  {d} ")), Ok(d.clone()));
}

#[test]
fn a_load_resumes_only_from_its_own_prefix_and_otherwise_replays() {
    let mut js = entries(6);
    let first = Projection::rebuild(&js, Method::Fifo);
    let cp = capture(&first, &pin(6)).unwrap();
    js.extend(entries(8).into_iter().skip(6));

    assert_eq!(plan_resume(Err(CheckpointMiss::Missing), 8, None), Resume::FullReplay { miss: CheckpointMiss::Missing, checkpoint_prefix: 0 });
    assert_eq!(plan_resume(Ok(&cp), 5, None), Resume::FullReplay { miss: CheckpointMiss::PrefixMismatch, checkpoint_prefix: 6 });
    assert_eq!(plan_resume(Ok(&cp), 8, None), Resume::FullReplay { miss: CheckpointMiss::Corrupt, checkpoint_prefix: 6 });
    let other = prefix_digest(&js[1..7]);
    assert_eq!(plan_resume(Ok(&cp), 8, Some(&other)), Resume::FullReplay { miss: CheckpointMiss::PrefixMismatch, checkpoint_prefix: 6 });
    let ours = prefix_digest(&js[..6]);
    let plan = plan_resume(Ok(&cp), 8, Some(&ours));
    assert_eq!(plan, Resume::FromCheckpoint { prefix: 6 });

    let (warm, tel, publish) = load(plan, Some(&cp), &js, Method::Fifo);
    assert!(tel.hit);
    assert_eq!((tel.checkpoint_prefix, tel.journal_height, tel.tail_length), (6, 8, 2));
    assert!(publish);
    let (cold, tel, _) = load(Resume::FullReplay { miss: CheckpointMiss::DigestMismatch, checkpoint_prefix: 6 }, None, &js, Method::Fifo);
    assert!(!tel.hit);
    assert_eq!(tel.miss, Some(CheckpointMiss::DigestMismatch));
    assert_eq!(tel.tail_length, 8);
    assert_eq!(warm.prefix(), cold.prefix());
    assert_eq!(warm.balances(UNDECLARED_VIEW).unwrap().value, cold.balances(UNDECLARED_VIEW).unwrap().value);
}
