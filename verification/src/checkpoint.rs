//! What a projection checkpoint reports about itself.
//!
//! Production telemetry may name why a load fell back to a full replay, and
//! how far the checkpoint reached; it never carries journal or customer
//! content: no digest, no entry ids, no memos.
//!
//! A checkpoint is disposable acceleration: the journal stays authoritative.
//! A blob whose bytes do not match the content address its head names, an
//! unknown format, or a pin for another prefix of the journal is refused, and
//! the reader falls back to a full replay.

use vstd::prelude::*;
use vstd::string::*;
use crate::text::{digits, push_digits, str_eq, trim, chars_of, trimmed, string_of};
use sha2::{Digest, Sha256};
use crate::projection::{agrees, Projection, ProjectionView, empty_view, fold_range, journal_view, postings_in, terms_under};
use crate::project::Terms;
use crate::relief::Method;
use crate::shadow::JournalEntry;

verus! {

/// Why a load fell back to a full replay.
#[derive(Clone, Copy, Debug, PartialEq, Eq, Structural)]
pub enum CheckpointMiss {
    Missing,
    Corrupt,
    DigestMismatch,
    VersionRefused,
    PrefixMismatch,
}

/// How a miss is named in telemetry.
pub open spec fn miss_text(m: CheckpointMiss) -> Seq<char> {
    match m {
        CheckpointMiss::Missing => "missing"@,
        CheckpointMiss::Corrupt => "corrupt"@,
        CheckpointMiss::DigestMismatch => "digest_mismatch"@,
        CheckpointMiss::VersionRefused => "version_refused"@,
        CheckpointMiss::PrefixMismatch => "prefix_mismatch"@,
    }
}

impl CheckpointMiss {
    /// How the miss is named in telemetry.
    pub fn as_str(self) -> (r: &'static str)
        ensures
            r@ == miss_text(self),
    {
        match self {
            CheckpointMiss::Missing => "missing",
            CheckpointMiss::Corrupt => "corrupt",
            CheckpointMiss::DigestMismatch => "digest_mismatch",
            CheckpointMiss::VersionRefused => "version_refused",
            CheckpointMiss::PrefixMismatch => "prefix_mismatch",
        }
    }
}

/// Hit or miss, and the tail length, for production logs.
#[derive(Clone, Copy, Debug, PartialEq, Eq, Structural)]
pub struct CheckpointTelemetry {
    pub hit: bool,
    pub miss: Option<CheckpointMiss>,
    pub checkpoint_prefix: usize,
    pub journal_height: usize,
    pub tail_length: usize,
}

/// The telemetry line: counts and a reason, nothing from the journal.
pub open spec fn telemetry_text(t: CheckpointTelemetry) -> Seq<char> {
    let tail = " checkpoint_prefix="@ + digits(t.checkpoint_prefix as nat) + " journal_height="@
        + digits(t.journal_height as nat) + " tail_length="@ + digits(t.tail_length as nat);
    match t.miss {
        None => "projection_checkpoint hit=1 miss=0"@ + tail,
        Some(m) => "projection_checkpoint hit=0 miss=1 reason="@ + miss_text(m) + tail,
    }
}

impl CheckpointTelemetry {
    /// The line a load reports.
    pub fn line(&self) -> (r: String)
        ensures
            r@ == telemetry_text(*self),
    {
        let mut s = String::new();
        match self.miss {
            None => s.append("projection_checkpoint hit=1 miss=0"),
            Some(m) => {
                s.append("projection_checkpoint hit=0 miss=1 reason=");
                s.append(m.as_str());
            },
        }
        let ghost head = s@;
        s.append(" checkpoint_prefix=");
        push_digits(&mut s, self.checkpoint_prefix as u128);
        s.append(" journal_height=");
        push_digits(&mut s, self.journal_height as u128);
        s.append(" tail_length=");
        push_digits(&mut s, self.tail_length as u128);
        assert(s@ =~= telemetry_text(*self));
        s
    }
}

/// The pin a checkpoint claims: the height and content address of a prefix.
#[derive(Clone, Debug, PartialEq, Eq)]
pub struct CheckpointPin {
    pub prefix: usize,
    pub digest: String,
}

/// Timings of a checkpoint benchmark.
#[derive(Clone, Debug)]
pub struct CheckpointBench {
    pub entries: usize,
    pub cold_full_replay_ms: u128,
    pub checkpoint_load_ms: u128,
    pub tail_replay_ms: u128,
    pub tail_entries: usize,
}

/// The benchmark's report line.
pub open spec fn bench_text(b: CheckpointBench) -> Seq<char> {
    "projection_checkpoint_bench entries="@ + digits(b.entries as nat)
        + " cold_full_replay_ms="@ + digits(b.cold_full_replay_ms as nat)
        + " checkpoint_load_ms="@ + digits(b.checkpoint_load_ms as nat)
        + " tail_replay_ms="@ + digits(b.tail_replay_ms as nat)
        + " tail_entries="@ + digits(b.tail_entries as nat)
}

impl CheckpointBench {
    /// The benchmark's timings on one line.
    pub fn report_line(&self) -> (r: String)
        ensures
            r@ == bench_text(*self),
    {
        let mut s = String::from_str("projection_checkpoint_bench entries=");
        push_digits(&mut s, self.entries as u128);
        s.append(" cold_full_replay_ms=");
        push_digits(&mut s, self.cold_full_replay_ms);
        s.append(" checkpoint_load_ms=");
        push_digits(&mut s, self.checkpoint_load_ms);
        s.append(" tail_replay_ms=");
        push_digits(&mut s, self.tail_replay_ms);
        s.append(" tail_entries=");
        push_digits(&mut s, self.tail_entries as u128);
        assert(s@ =~= bench_text(*self));
        s
    }
}

/// Whether a character is an ASCII hexadecimal digit.
pub open spec fn is_hex(c: char) -> bool {
    ('0' <= c && c <= '9') || ('a' <= c && c <= 'f') || ('A' <= c && c <= 'F')
}

/// Whether a store's head names a checkpoint: sixty-four hexadecimal digits,
/// a SHA-256 content digest. Anything else is a corrupt head, not a miss.
pub open spec fn names_a_checkpoint(s: Seq<char>) -> bool {
    s.len() == 64 && forall|i: int| 0 <= i < s.len() ==> #[trigger] is_hex(s[i])
}

/// Whether a head, already trimmed, names a checkpoint.
pub fn head_names_a_checkpoint(digest: &str) -> (r: bool)
    ensures
        r == names_a_checkpoint(digest@),
{
    let cs = crate::text::chars_of(digest);
    if cs.len() != 64 {
        return false;
    }
    let mut i: usize = 0;
    while i < cs.len()
        invariant
            0 <= i <= cs@.len(),
            cs@ == digest@,
            forall|j: int| 0 <= j < i ==> #[trigger] is_hex(cs@[j]),
        decreases cs@.len() - i,
    {
        let c = cs[i];
        if !(('0' <= c && c <= '9') || ('a' <= c && c <= 'f') || ('A' <= c && c <= 'F')) {
            assert(!is_hex(cs@[i as int]));
            return false;
        }
        i = i + 1;
    }
    true
}

/// The format a checkpoint is written in. Another version is refused, never
/// migrated in place.
pub const FORMAT_VERSION: u64 = 1;

/// The checks a decoded envelope must pass before its body is trusted: its
/// format is this one, its digest is a content address, and its body was
/// folded from exactly the prefix it claims.
pub open spec fn decode_verdict(version: u64, digest: Seq<char>, prefix: u64, body_at: u64) -> Result<(), CheckpointMiss> {
    if version != FORMAT_VERSION {
        Err(CheckpointMiss::VersionRefused)
    } else if !names_a_checkpoint(digest) {
        Err(CheckpointMiss::Corrupt)
    } else if body_at != prefix {
        Err(CheckpointMiss::Corrupt)
    } else {
        Ok(())
    }
}

/// Check a decoded envelope's version, digest and body position.
pub fn decode_checks(version: u64, digest: &str, prefix: u64, body_at: u64) -> (r: Result<(), CheckpointMiss>)
    ensures
        r == decode_verdict(version, digest@, prefix, body_at),
{
    if version != FORMAT_VERSION {
        return Err(CheckpointMiss::VersionRefused);
    }
    if !head_names_a_checkpoint(digest) {
        return Err(CheckpointMiss::Corrupt);
    }
    if body_at != prefix {
        return Err(CheckpointMiss::Corrupt);
    }
    Ok(())
}

/// A checkpoint is accepted for a journal only at the same height and the
/// same content address: anything else is somebody else's book.
pub fn accept_for(pin: &CheckpointPin, expected: &CheckpointPin) -> (r: Result<(), CheckpointMiss>)
    ensures
        r is Ok <==> (pin.prefix == expected.prefix && pin.digest@ == expected.digest@),
        r is Err ==> r == Err::<(), CheckpointMiss>(CheckpointMiss::PrefixMismatch),
{
    if pin.prefix != expected.prefix || !str_eq(pin.digest.as_str(), expected.digest.as_str()) {
        return Err(CheckpointMiss::PrefixMismatch);
    }
    Ok(())
}

/// The SHA-256 digest of some bytes, in lower-case hexadecimal.
pub uninterp spec fn sha256_hex(b: Seq<u8>) -> Seq<char>;

/// `sha2::Sha256` over the bytes, formatted as lower-case hexadecimal: the
/// contract names the result and says nothing more of it.
#[verifier::external_body]
pub(crate) fn sha256_of(bytes: &[u8]) -> (r: String)
    ensures
        r@ == sha256_hex(bytes@),
{
    let mut h = Sha256::new();
    h.update(bytes);
    format!("{:x}", h.finalize())
}

/// The content address a blob is stored and named under.
pub fn content_digest(bytes: &[u8]) -> (r: String)
    ensures
        r@ == sha256_hex(bytes@),
{
    sha256_of(bytes)
}

/// Whether a blob read under a head can be trusted: the head, trimmed, must
/// be a content address, and the bytes must hash to it.
pub open spec fn blob_ok(head: Seq<char>, bytes: Seq<u8>) -> Result<(), CheckpointMiss> {
    if !names_a_checkpoint(trim(head)) {
        Err(CheckpointMiss::Corrupt)
    } else if sha256_hex(bytes) != trim(head) {
        Err(CheckpointMiss::DigestMismatch)
    } else {
        Ok(())
    }
}

/// The content address a store's head names, trimmed, or a corrupt head.
pub fn head_digest(head: &str) -> (r: Result<String, CheckpointMiss>)
    ensures
        match r {
            Ok(d) => d@ == trim(head@) && names_a_checkpoint(d@),
            Err(m) => m == CheckpointMiss::Corrupt && !names_a_checkpoint(trim(head@)),
        },
{
    let cs = chars_of(head);
    let t = trimmed(&cs);
    let d = string_of(&t);
    if !head_names_a_checkpoint(d.as_str()) {
        return Err(CheckpointMiss::Corrupt);
    }
    Ok(d)
}

/// Whether the bytes of a blob may be trusted under the head that named it.
pub fn blob_verdict(head: &str, bytes: &[u8]) -> (r: Result<(), CheckpointMiss>)
    ensures
        r == blob_ok(head@, bytes@),
{
    let d = match head_digest(head) {
        Ok(d) => d,
        Err(m) => return Err(m),
    };
    let actual = content_digest(bytes);
    if !str_eq(actual.as_str(), d.as_str()) {
        return Err(CheckpointMiss::DigestMismatch);
    }
    Ok(())
}

// ------------------------------------------------------------ capture and restore

/// A projection captured at a journal pin: the height and content address of
/// the prefix it was folded from, and the projection itself.
pub struct CheckpointBody {
    pin: CheckpointPin,
    snapshot: Projection,
}

impl CheckpointBody {
    #[verifier::type_invariant]
    spec fn inv(self) -> bool {
        &&& self.snapshot.wf()
        &&& self.snapshot@.at == self.pin.prefix
    }

    /// The projection captured, as a value.
    pub closed spec fn captured(self) -> ProjectionView {
        self.snapshot@
    }

    /// The postings the captured projection had handed its fold.
    pub closed spec fn captured_postings(self) -> int {
        self.snapshot.postings_seen()
    }

    /// The pin captured, as a height and a content address.
    pub closed spec fn pin_view(self) -> (int, Seq<char>) {
        (self.pin.prefix as int, self.pin.digest@)
    }

    /// The pin this body claims.
    pub fn pin(&self) -> (r: &CheckpointPin)
        ensures
            (r.prefix as int, r.digest@) == self.pin_view(),
    {
        &self.pin
    }

    /// How far into the journal's file the captured projection had read.
    pub fn read_to(&self) -> (r: u64)
        ensures
            r == self.captured().read_to,
    {
        self.snapshot.read_to()
    }
}

/// Capture a projection at a pin. Refused unless the projection has folded
/// exactly the prefix the pin names.
pub fn capture(p: &Projection, pin: &CheckpointPin) -> (r: Result<CheckpointBody, CheckpointMiss>)
    requires
        p.wf(),
    ensures
        match r {
            Ok(b) => {
                &&& p@.at == pin.prefix
                &&& agrees(b.captured(), p@)
                &&& b.captured_postings() == p.postings_seen()
                &&& b.pin_view() == (pin.prefix as int, pin.digest@)
            },
            Err(m) => p@.at != pin.prefix && m == CheckpointMiss::PrefixMismatch,
        },
{
    if p.prefix() != pin.prefix {
        return Err(CheckpointMiss::PrefixMismatch);
    }
    Ok(CheckpointBody { pin: CheckpointPin { prefix: pin.prefix, digest: pin.digest.clone() }, snapshot: p.copy() })
}

/// The projection a body holds, ready to advance over the journal's tail.
pub fn restore(b: &CheckpointBody) -> (r: Projection)
    ensures
        r.wf(),
        agrees(r@, b.captured()),
        r.postings_seen() == b.captured_postings(),
        r@.at == b.pin_view().0,
{
    proof {
        use_type_invariant(b);
    }
    b.snapshot.copy()
}

// ------------------------------------------------------------ resuming

/// Where the tail a checkpoint leaves begins: its prefix, unless it claims
/// more entries than the journal holds.
pub fn tail_start(claimed: &CheckpointPin, height: usize) -> (r: Result<usize, CheckpointMiss>)
    ensures
        claimed.prefix <= height ==> r == Ok::<usize, CheckpointMiss>(claimed.prefix),
        claimed.prefix > height ==> r == Err::<usize, CheckpointMiss>(CheckpointMiss::PrefixMismatch),
{
    if claimed.prefix > height {
        Err(CheckpointMiss::PrefixMismatch)
    } else {
        Ok(claimed.prefix)
    }
}

impl CheckpointTelemetry {
    /// A load that fell back to replaying the whole journal.
    pub fn replayed(miss: CheckpointMiss, checkpoint_prefix: usize, height: usize) -> (r: CheckpointTelemetry)
        ensures
            r == (CheckpointTelemetry { hit: false, miss: Some(miss), checkpoint_prefix, journal_height: height, tail_length: height }),
    {
        CheckpointTelemetry { hit: false, miss: Some(miss), checkpoint_prefix, journal_height: height, tail_length: height }
    }

    /// A load that resumed from a checkpoint and folded only the tail.
    pub fn resumed(checkpoint_prefix: usize, height: usize, folded: usize) -> (r: CheckpointTelemetry)
        ensures
            r == (CheckpointTelemetry { hit: true, miss: None, checkpoint_prefix, journal_height: height, tail_length: folded }),
    {
        CheckpointTelemetry { hit: true, miss: None, checkpoint_prefix, journal_height: height, tail_length: folded }
    }
}

/// Whether a projection is worth publishing as the newest checkpoint: only
/// one that has folded the whole journal.
pub fn should_publish(folded_to: usize, height: usize) -> (r: bool)
    ensures
        r == (folded_to == height),
{
    folded_to == height
}

// ------------------------------------------------------------ loading

/// How a load goes: replay the whole journal, and why, or resume from the
/// checkpoint at a prefix.
#[derive(Clone, Copy, Debug, PartialEq, Eq, Structural)]
pub enum Resume {
    FullReplay { miss: CheckpointMiss, checkpoint_prefix: usize },
    FromCheckpoint { prefix: usize },
}

/// Decide how to load a journal of `height` entries from the newest
/// checkpoint, given the digest of the journal's prefix that checkpoint
/// claims (none where it could not be computed). A checkpoint is used only
/// for exactly its own prefix of this journal; anything else falls back to a
/// full replay, naming why.
pub fn plan_resume(latest: Result<&CheckpointBody, CheckpointMiss>, height: usize, prefix_digest: Option<&str>) -> (r: Resume)
    ensures
        match latest {
            Err(m) => r == (Resume::FullReplay { miss: m, checkpoint_prefix: 0 }),
            Ok(b) => if b.pin_view().0 > height {
                r == (Resume::FullReplay { miss: CheckpointMiss::PrefixMismatch, checkpoint_prefix: b.pin_view().0 as usize })
            } else {
                match prefix_digest {
                    None => r == (Resume::FullReplay { miss: CheckpointMiss::Corrupt, checkpoint_prefix: b.pin_view().0 as usize }),
                    Some(d) => if d@ == b.pin_view().1 {
                        r == (Resume::FromCheckpoint { prefix: b.pin_view().0 as usize })
                    } else {
                        r == (Resume::FullReplay { miss: CheckpointMiss::PrefixMismatch, checkpoint_prefix: b.pin_view().0 as usize })
                    },
                }
            },
        },
{
    let b = match latest {
        Err(m) => return Resume::FullReplay { miss: m, checkpoint_prefix: 0 },
        Ok(b) => b,
    };
    let claimed = b.pin();
    let prefix = match tail_start(claimed, height) {
        Err(m) => return Resume::FullReplay { miss: m, checkpoint_prefix: claimed.prefix },
        Ok(p) => p,
    };
    let d = match prefix_digest {
        None => return Resume::FullReplay { miss: CheckpointMiss::Corrupt, checkpoint_prefix: prefix },
        Some(d) => d,
    };
    let expected = CheckpointPin { prefix, digest: String::from_str(d) };
    match accept_for(claimed, &expected) {
        Err(m) => Resume::FullReplay { miss: m, checkpoint_prefix: prefix },
        Ok(()) => Resume::FromCheckpoint { prefix },
    }
}

/// Whether a body is a capture of the projection rebuilt over a journal's
/// first `prefix` entries.
pub open spec fn captured_from(b: CheckpointBody, journal: Seq<crate::shadow::EntryView>, prefix: int,
    terms: Result<Terms, Seq<char>>) -> bool {
    &&& agrees(b.captured(), ProjectionView { at: prefix, ..fold_range(empty_view(), journal, 0, prefix, terms) })
    &&& b.captured_postings() == postings_in(journal, 0, prefix)
}

/// What a load reports.
pub open spec fn load_telemetry(plan: Resume, height: usize) -> CheckpointTelemetry {
    match plan {
        Resume::FullReplay { miss, checkpoint_prefix } =>
            CheckpointTelemetry { hit: false, miss: Some(miss), checkpoint_prefix, journal_height: height, tail_length: height },
        Resume::FromCheckpoint { prefix } =>
            CheckpointTelemetry { hit: true, miss: None, checkpoint_prefix: prefix, journal_height: height, tail_length: (height - prefix) as usize },
    }
}

/// Load a journal as planned: replay it whole, or restore the checkpoint
/// and fold only the tail. Either way the projection is the one rebuilding
/// the whole journal gives; the telemetry says which way it went, and the
/// flag whether the result is worth publishing as the newest checkpoint.
pub fn load(plan: Resume, body: Option<&CheckpointBody>, journal: &[JournalEntry], method: Method)
    -> (r: (Projection, CheckpointTelemetry, bool))
    requires
        forall|i: int| 0 <= i < journal@.len() ==> crate::lotbook::lots_computable((#[trigger] journal@[i])@,
            Ok::<Terms, Seq<char>>(terms_under(method))),
        postings_in(journal_view(journal@), 0, journal@.len() as int) < i64::MAX,
        match plan {
            Resume::FromCheckpoint { prefix } => match body {
                Some(b) => prefix <= journal@.len() && b.pin_view().0 == prefix
                    && captured_from(*b, journal_view(journal@), prefix as int, Ok::<Terms, Seq<char>>(terms_under(method))),
                None => false,
            },
            Resume::FullReplay { .. } => true,
        },
    ensures
        r.0.wf(),
        agrees(r.0@, ProjectionView {
            at: journal@.len() as int,
            ..fold_range(empty_view(), journal_view(journal@), 0, journal@.len() as int, Ok::<Terms, Seq<char>>(terms_under(method)))
        }),
        r.1 == load_telemetry(plan, journal@.len() as usize),
        r.2 == (r.0@.at == journal@.len()),
{
    let ghost es = journal_view(journal@);
    let ghost tv = Ok::<Terms, Seq<char>>(terms_under(method));
    let ghost n = journal@.len() as int;
    match plan {
        Resume::FullReplay { miss, checkpoint_prefix } => {
            let p = Projection::rebuild(journal, method);
            proof {
                crate::projection::lemma_agrees_itself(p@);
            }
            let tel = CheckpointTelemetry::replayed(miss, checkpoint_prefix, journal.len());
            let publish = should_publish(p.prefix(), journal.len());
            (p, tel, publish)
        },
        Resume::FromCheckpoint { prefix } => {
            let b = match body {
                Some(b) => b,
                None => {
                    assert(false);
                    return (Projection::rebuild(journal, method), CheckpointTelemetry::replayed(CheckpointMiss::Missing, 0, 0), false);
                },
            };
            let mut p = restore(b);
            let ghost k = prefix as int;
            let ghost s = ProjectionView { at: k, ..fold_range(empty_view(), es, 0, k, tv) };
            proof {
                crate::projection::law_restoring_a_capture_gives_the_projection_back(s, b.captured(), p@);
                crate::projection::lemma_postings_in_split(es, 0, k, n);
                crate::projection::lemma_fold_range_agree(empty_view(), es.take(k), es, 0, k, tv);
            }
            let ghost p0 = p@;
            let folded = p.advance(journal, method);
            proof {
                crate::projection::law_resuming_from_a_checkpoint_is_rebuilding(es.take(k), es, tv, p0);
            }
            let tel = CheckpointTelemetry::resumed(prefix, journal.len(), folded);
            let publish = should_publish(p.prefix(), journal.len());
            (p, tel, publish)
        },
    }
}

} // verus!
