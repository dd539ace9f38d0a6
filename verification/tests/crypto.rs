//! The envelope: key derivation, sealing and opening.

use zolal_core::crypto::envelope::{
    current_params, kdf_candidates, params_for_version, InnerHeader, Suite,
};
use zolal_core::crypto::kdf::{derive_key, judge_derivation, KdfFailure, KdfParams};
use zolal_core::crypto::secret::Key;
use zolal_core::crypto::stream::{
    judge_draw, judge_first_chunk, open_stream, random_preamble, seal_stream, seal_with, sealed_so_far, OpenReader,
    Sealer,
};
use zolal_core::crypto::{
    ciphertext_len, overhead_for, region_len, CHUNK_SIZE, SEALED_CHUNK_LEN,
};
use zolal_core::error::{IoError, IoErrorKind, ZolalError};
use zolal_core::io::{copy_all, BytesReader, Read};
use zolal_core::ops::weigh_attempt;
use zolal_core::progress::{AtomicProgress, NoProgress, Progress};

const FAST: KdfParams = KdfParams {
    memory_kib: 8,
    iterations: 1,
    parallelism: 1,
};
const CHUNK: usize = CHUNK_SIZE;
const SEALED: usize = SEALED_CHUNK_LEN as usize;
const PREAMBLE_LEN: usize = 35;

#[test]
fn deterministic_and_salt_sensitive() {
    let a = derive_key("correct horse", &[1; 16], FAST).unwrap();
    let b = derive_key("correct horse", &[1; 16], FAST).unwrap();
    let c = derive_key("correct horse", &[2; 16], FAST).unwrap();
    assert_eq!(a, b);
    assert_ne!(a, c);
}

#[test]
fn rejects_impossible_params() {
    let bad = KdfParams {
        memory_kib: 1,
        ..FAST
    };
    let err = derive_key("x", &[0; 16], bad).unwrap_err();
    assert!(matches!(err, ZolalError::InvalidRequest(_)));
    assert_eq!(
        err.message(),
        "invalid request: invalid Argon2 parameters: memory cost is too small"
    );
}

#[test]
fn every_impossible_cost_has_its_text() {
    for (params, text) in [
        (KdfParams { iterations: 0, ..FAST }, "time cost is too small"),
        (KdfParams { parallelism: 0, ..FAST }, "not enough threads"),
        (KdfParams { parallelism: 0x0100_0000, ..FAST }, "too many threads"),
        (
            KdfParams {
                memory_kib: 15,
                parallelism: 2,
                ..FAST
            },
            "memory cost is too small",
        ),
    ] {
        let err = derive_key("x", &[0; 16], params).unwrap_err();
        assert_eq!(
            err.message(),
            format!("invalid request: invalid Argon2 parameters: {text}"),
            "{params:?}"
        );
    }
    let err = derive_key("x", &[0; 7], FAST).unwrap_err();
    assert!(matches!(err, ZolalError::InvalidRequest(_)), "{err:?}");
}

/// Deterministic filler, so failures reproduce.
fn data(len: usize) -> Vec<u8> {
    let mut x = 0x9E37_79B9_7F4A_7C15u64;
    (0..len)
        .map(|_| {
            x ^= x << 13;
            x ^= x >> 7;
            x ^= x << 17;
            x as u8
        })
        .collect()
}

fn seal(plain: &[u8]) -> Vec<u8> {
    let mut out = Vec::new();
    let n = seal_stream(
        BytesReader::new(plain.to_vec()),
        plain.len() as u64,
        &mut out,
        "pw",
        FAST,
        &NoProgress,
    )
    .unwrap();
    assert_eq!(n, out.len() as u64);
    out
}

fn open(region: &[u8], pw: &str) -> Result<Vec<u8>, ZolalError> {
    let mut out = Vec::new();
    open_stream(
        BytesReader::new(region.to_vec()),
        region.len() as u64,
        &mut out,
        pw,
        FAST,
        &NoProgress,
    )?;
    Ok(out)
}

/// Offset of sealed chunk `i` inside a region.
fn chunk_at(i: usize) -> usize {
    PREAMBLE_LEN + i * SEALED
}

#[test]
fn roundtrip_across_chunk_boundaries() {
    // The inner header takes 2 bytes of chunk 0, so boundaries sit at CHUNK - 2.
    for len in [
        0,
        1,
        CHUNK - 3,
        CHUNK - 2,
        CHUNK - 1,
        2 * CHUNK - 2,
        3 * CHUNK + 5,
    ] {
        let plain = data(len);
        let region = seal(&plain);
        assert_eq!(region.len() as u64, region_len(len as u64), "len {len}");
        assert_eq!(open(&region, "pw").unwrap(), plain, "len {len}");
    }
}

#[test]
fn wrong_passphrase_is_reported_as_such() {
    let region = seal(&data(3 * CHUNK));
    assert!(matches!(
        open(&region, "nope"),
        Err(ZolalError::WrongPassphrase)
    ));
}

#[test]
fn truncation_is_damage_not_success() {
    let plain = data(3 * CHUNK); // chunks: 0, 1, 2, 3 (3 holds the 2 header bytes' spill)
    let region = seal(&plain);
    let cuts = [
        region.len() - 1,  // one byte short
        chunk_at(3),       // exactly the last chunk removed
        chunk_at(2) + 100, // mid-chunk
        chunk_at(1),       // only chunk 0 left: the retry path
    ];
    for cut in cuts {
        let err = open(&region[..cut], "pw").unwrap_err();
        assert!(
            matches!(err, ZolalError::DamagedPayload),
            "cut {cut}: {err:?}"
        );
    }
}

#[test]
fn truncation_inside_chunk_zero_cannot_be_told_from_a_wrong_key() {
    // Documented limitation: without a marker, a half chunk 0 is unverifiable.
    let region = seal(&data(3 * CHUNK));
    let err = open(&region[..chunk_at(0) + 1000], "pw").unwrap_err();
    assert!(matches!(err, ZolalError::WrongPassphrase));
}

#[test]
fn reordering_and_tampering_fail() {
    let region = seal(&data(3 * CHUNK));
    let swap = |a: usize, b: usize| {
        let mut r = region.clone();
        let (ca, cb) = (chunk_at(a), chunk_at(b));
        let tmp = r[ca..ca + SEALED].to_vec();
        r.copy_within(cb..cb + SEALED, ca);
        r[cb..cb + SEALED].copy_from_slice(&tmp);
        r
    };
    assert!(matches!(
        open(&swap(1, 2), "pw"),
        Err(ZolalError::DamagedPayload)
    ));
    // Chunk 0 out of place looks exactly like a wrong key.
    assert!(matches!(
        open(&swap(0, 1), "pw"),
        Err(ZolalError::WrongPassphrase)
    ));

    let mut flipped = region.clone();
    *flipped.last_mut().unwrap() ^= 1;
    assert!(matches!(
        open(&flipped, "pw"),
        Err(ZolalError::DamagedPayload)
    ));

    let mut extended = region.clone();
    extended.push(0);
    assert!(matches!(
        open(&extended, "pw"),
        Err(ZolalError::DamagedPayload)
    ));
}

#[test]
fn no_plaintext_released_from_a_failing_chunk() {
    let plain = data(3 * CHUNK);
    let mut region = seal(&plain);
    region[chunk_at(1) + 5] ^= 0x80;
    let mut out = Vec::new();
    let err = open_stream(
        BytesReader::new(region.clone()),
        region.len() as u64,
        &mut out,
        "pw",
        FAST,
        &NoProgress,
    )
    .unwrap_err();
    assert!(matches!(err, ZolalError::DamagedPayload));
    // Only chunk 0's verified bytes got through; nothing from the forged chunk.
    assert_eq!(out, plain[..CHUNK - 2]);
}

#[test]
fn short_or_long_source_is_rejected() {
    let plain = data(1000);
    let mut out = Vec::new();
    let short = seal_stream(
        BytesReader::new(plain.clone()),
        2000,
        &mut out,
        "pw",
        FAST,
        &NoProgress,
    );
    assert!(matches!(short, Err(ZolalError::Io(e)) if e.kind() == IoErrorKind::UnexpectedEof));
    let long = seal_stream(
        BytesReader::new(plain),
        10,
        &mut Vec::new(),
        "pw",
        FAST,
        &NoProgress,
    );
    assert!(matches!(long, Err(ZolalError::InvalidRequest(_))));
}

#[test]
fn cancellation_stops_sealing() {
    let progress = AtomicProgress::new();
    progress.cancel();
    let plain = data(10);
    let err = seal_stream(
        BytesReader::new(plain),
        10,
        &mut Vec::new(),
        "pw",
        FAST,
        &progress,
    )
    .unwrap_err();
    assert!(matches!(err, ZolalError::Cancelled));
}

#[test]
fn preamble_never_looks_like_a_jpeg() {
    for _ in 0..1000 {
        assert_ne!(random_preamble().unwrap()[..2], [0xFF, 0xD8]);
    }
}

#[test]
fn preambles_differ() {
    assert_ne!(random_preamble().unwrap(), random_preamble().unwrap());
    assert_eq!(random_preamble().unwrap().len(), PREAMBLE_LEN);
}

#[test]
fn sizes_follow_the_chunks() {
    assert_eq!(ciphertext_len(0), 18);
    assert_eq!(region_len(0), 53);
    assert_eq!(overhead_for(0), 53);
    assert_eq!(region_len(65534), 35 + 65536 + 16);
    assert_eq!(region_len(65535), 35 + 65537 + 32);
}

#[test]
fn an_opened_envelope_tells_its_header() {
    let region = seal(b"hello");
    let n = region.len() as u64;
    let reader = OpenReader::new(BytesReader::new(region), n, "pw", FAST, &NoProgress).unwrap();
    let header = reader.header();
    assert_eq!(header.to_bytes(), [1, 1]);
    assert_eq!(InnerHeader::from_bytes([1, 1]), Some(header));
    assert_eq!(header.suite, Suite::XChaCha20Poly1305Argon2id);
    assert_eq!(InnerHeader::from_bytes([1, 9]), None);
}

#[test]
fn versions_imply_costs() {
    assert_eq!(params_for_version(1), Some(KdfParams::default()));
    assert_eq!(params_for_version(2), None);
    assert_eq!(current_params(), KdfParams::default());
    assert_eq!(kdf_candidates(), vec![KdfParams::default()]);
}

/// A progress that asks to stop once it has been polled often enough.
struct StopAfter(std::sync::atomic::AtomicU64);

impl Progress for StopAfter {
    fn update(&self, _done: u64, _total: u64) {}

    fn is_cancelled(&self) -> bool {
        let left = self.0.load(std::sync::atomic::Ordering::Relaxed);
        if left == 0 {
            return true;
        }
        self.0.store(left - 1, std::sync::atomic::Ordering::Relaxed);
        false
    }
}

/// A source that fails with the given kind after some bytes.
struct Failing(Vec<u8>, IoErrorKind);

impl Read for Failing {
    fn read(&mut self, max: usize) -> Result<Vec<u8>, IoError> {
        if self.0.is_empty() {
            return Err(IoError::new(self.1, "gone"));
        }
        let n = self.0.len().min(max);
        Ok(self.0.drain(..n).collect())
    }
}

#[test]
fn cancelling_stops_at_the_next_chunk() {
    let plain = data(3 * CHUNK);
    let mut out = Vec::new();
    let progress = StopAfter(std::sync::atomic::AtomicU64::new(2));
    let err = seal_stream(
        BytesReader::new(plain.clone()),
        plain.len() as u64,
        &mut out,
        "pw",
        FAST,
        &progress,
    )
    .unwrap_err();
    assert!(matches!(err, ZolalError::Cancelled));
    assert_eq!(out.len(), PREAMBLE_LEN + 2 * SEALED);

    let region = seal(&plain);
    let n = region.len() as u64;
    // One poll before the key is derived, one before the second chunk.
    let progress = StopAfter(std::sync::atomic::AtomicU64::new(2));
    let mut reader = OpenReader::new(BytesReader::new(region.clone()), n, "pw", FAST, &progress).unwrap();
    let mut got = 0;
    let err = loop {
        match reader.read(CHUNK) {
            Ok(bytes) => got += bytes.len(),
            Err(e) => break ZolalError::from(e),
        }
    };
    assert!(matches!(err, ZolalError::Cancelled));
    assert_eq!(got, 2 * CHUNK - 2);
    // Cancelling is no damage: asked again, the reader still stops for the same reason.
    assert!(matches!(ZolalError::from(reader.read(1).unwrap_err()), ZolalError::Cancelled));

    let stopped = StopAfter(std::sync::atomic::AtomicU64::new(0));
    let err = OpenReader::new(BytesReader::new(region), n, "pw", FAST, &stopped).err().unwrap();
    assert!(matches!(err, ZolalError::Cancelled));
    let err = OpenReader::new(BytesReader::new(vec![0; 52]), 52, "pw", FAST, &stopped).err().unwrap();
    assert!(matches!(err, ZolalError::WrongPassphrase));
}

#[test]
fn a_failed_reader_stays_failed() {
    let plain = data(3 * CHUNK);
    let mut region = seal(&plain);
    let n = region.len() as u64;
    region[PREAMBLE_LEN + SEALED + 5] ^= 1;
    let mut reader = OpenReader::new(BytesReader::new(region), n, "pw", FAST, &NoProgress).unwrap();
    assert_eq!(reader.read(2 * CHUNK).unwrap().len(), CHUNK - 2);
    for _ in 0..3 {
        let err = ZolalError::from(reader.read(10).unwrap_err());
        assert!(matches!(err, ZolalError::DamagedPayload));
    }
    // Any other failure has the same effect.
    let region = seal(&plain);
    let cut = region[..PREAMBLE_LEN + SEALED + 100].to_vec();
    let mut reader = OpenReader::new(
        Failing(cut, IoErrorKind::PermissionDenied),
        n,
        "pw",
        FAST,
        &NoProgress,
    )
    .unwrap();
    reader.read(2 * CHUNK).unwrap();
    let err = ZolalError::from(reader.read(10).unwrap_err());
    assert!(matches!(err, ZolalError::Io(e) if e.kind() == IoErrorKind::PermissionDenied));
    // However much is asked for.
    for max in [10, 0, 1] {
        let err = ZolalError::from(reader.read(max).unwrap_err());
        assert!(matches!(err, ZolalError::DamagedPayload));
    }
}

#[test]
fn a_draw_is_kept_drawn_again_or_an_error() {
    let mut draw = vec![7; PREAMBLE_LEN];
    assert_eq!(judge_draw(Ok(draw.clone())).unwrap(), Some(draw.clone()));
    draw[0] = 0xFF;
    assert_eq!(judge_draw(Ok(draw.clone())).unwrap(), Some(draw.clone()));
    draw[1] = 0xD8;
    assert_eq!(judge_draw(Ok(draw.clone())).unwrap(), None);
    draw[0] = 0xFE;
    assert_eq!(judge_draw(Ok(draw.clone())).unwrap(), Some(draw));
    let err = judge_draw(Err("no entropy".to_string())).unwrap_err();
    assert_eq!(err.message(), "io error: OS random source failed: no entropy");
    assert!(matches!(err, ZolalError::Io(e) if e.kind() == IoErrorKind::Other));
}

/// A progress that keeps what it is told.
struct Recording(std::sync::Mutex<Vec<(u64, u64)>>);

impl Progress for Recording {
    fn update(&self, done: u64, total: u64) {
        self.0.lock().unwrap().push((done, total));
    }

    fn is_cancelled(&self) -> bool {
        false
    }
}

#[test]
fn progress_goes_from_nothing_to_all() {
    for len in [0, 1, CHUNK - 2, CHUNK - 1, 3 * CHUNK] {
        let n = len as u64;
        let progress = Recording(std::sync::Mutex::new(Vec::new()));
        let mut region = Vec::new();
        seal_stream(
            BytesReader::new(data(len)),
            n,
            &mut region,
            "pw",
            FAST,
            &progress,
        )
        .unwrap();
        let chunks = (n + 2).div_ceil(CHUNK as u64);
        let expected: Vec<(u64, u64)> = (0..=chunks).map(|k| (sealed_so_far(n, k), n)).collect();
        assert_eq!(*progress.0.lock().unwrap(), expected);
        assert_eq!((expected[0], expected[chunks as usize]), ((0, n), (n, n)));

        let progress = Recording(std::sync::Mutex::new(Vec::new()));
        let total = region.len() as u64;
        let mut out = Vec::new();
        open_stream(
            BytesReader::new(region),
            total,
            &mut out,
            "pw",
            FAST,
            &progress,
        )
        .unwrap();
        let seen = progress.0.lock().unwrap().clone();
        let expected: Vec<(u64, u64)> = (1..=chunks)
            .map(|k| (total.min(PREAMBLE_LEN as u64 + k * SEALED_CHUNK_LEN), total))
            .collect();
        assert_eq!(seen, expected);
    }
}

#[test]
fn sealed_lengths_follow_the_chunks() {
    let n = 2 * CHUNK as u64;
    assert_eq!(sealed_so_far(n, 0), 0);
    assert_eq!(sealed_so_far(n, 1), CHUNK as u64 - 2);
    assert_eq!(sealed_so_far(n, 2), 2 * CHUNK as u64 - 2);
    assert_eq!(sealed_so_far(n, 3), n);
    assert_eq!(sealed_so_far(0, 1), 0);
}

#[test]
fn a_source_that_ends_early_is_damage() {
    let region = seal(&data(3 * CHUNK));
    let n = region.len() as u64;
    for kept in [10, PREAMBLE_LEN + 10] {
        let src = Failing(region[..kept].to_vec(), IoErrorKind::UnexpectedEof);
        let err = OpenReader::new(src, n, "pw", FAST, &NoProgress).err().unwrap();
        assert!(matches!(err, ZolalError::DamagedPayload));
    }
    let src = Failing(region[..10].to_vec(), IoErrorKind::NotFound);
    let err = OpenReader::new(src, n, "pw", FAST, &NoProgress).err().unwrap();
    assert!(matches!(err, ZolalError::Io(e) if e.kind() == IoErrorKind::NotFound));
}

#[test]
fn a_key_opens_what_it_sealed() {
    let plain = data(CHUNK + 7);
    let preamble: Vec<u8> = (0..35).collect();
    let sealer = Sealer::with_preamble(
        BytesReader::new(plain.clone()),
        plain.len() as u64,
        preamble.clone(),
        "pw",
        FAST,
        &NoProgress,
    )
    .unwrap();
    let mut region = Vec::new();
    let n = seal_with(sealer, &mut region).unwrap();
    assert_eq!(n, region_len(plain.len() as u64));
    assert_eq!(region.len() as u64, n);
    assert_eq!(region[..35], preamble[..]);

    let key = derive_key("pw", &preamble[..16], FAST).unwrap();
    let behind = BytesReader::new(region[35..].to_vec());
    let mut reader = OpenReader::with_key(behind, n, preamble[16..].to_vec(), key, &NoProgress).unwrap();
    let mut got = Vec::new();
    copy_all(&mut reader, &mut got).unwrap();
    assert_eq!(got, plain);

    let key = derive_key("pw", &preamble[..16], FAST).unwrap();
    let sealer = Sealer::with_key(
        BytesReader::new(plain.clone()),
        plain.len() as u64,
        preamble.clone(),
        key,
        &NoProgress,
    )
    .unwrap();
    let mut again = Vec::new();
    seal_with(sealer, &mut again).unwrap();
    assert_eq!(again, region);

    let other = Key::new([7; 32]);
    let behind = BytesReader::new(region[35..].to_vec());
    let err = OpenReader::with_key(behind, n, preamble[16..].to_vec(), other, &NoProgress).err().unwrap();
    assert!(matches!(err, ZolalError::WrongPassphrase));
}

#[test]
fn an_attempt_is_kept_passed_over_or_final() {
    let region = seal(b"something");
    let n = region.len() as u64;
    let opened = OpenReader::new(BytesReader::new(region.clone()), n, "pw", FAST, &NoProgress);
    let mut reader = weigh_attempt(opened).unwrap().unwrap();
    assert_eq!(reader.read(100).unwrap(), b"something");
    let wrong = OpenReader::new(BytesReader::new(region.clone()), n, "no", FAST, &NoProgress);
    assert!(weigh_attempt(wrong).unwrap().is_none());
    let stop = AtomicProgress::new();
    stop.cancel();
    let stopped = OpenReader::new(BytesReader::new(region), n, "pw", FAST, &stop);
    assert!(matches!(weigh_attempt(stopped), Err(ZolalError::Cancelled)));
}

#[test]
fn a_derivation_gives_the_key_or_says_why_not() {
    assert_eq!(judge_derivation(Key::new([7; 32]), Ok(())).unwrap(), Key::new([7; 32]));
    for (failure, text) in [
        (KdfFailure::Costs("x".to_string()), "invalid request: invalid Argon2 parameters: x"),
        (KdfFailure::Inputs("y".to_string()), "invalid request: key derivation failed: y"),
        (KdfFailure::OutOfMemory, "io error: out of memory"),
    ] {
        let err = judge_derivation(Key::new([7; 32]), Err(failure)).unwrap_err();
        assert_eq!(err.message(), text);
    }
}

#[test]
fn the_first_chunk_tells_a_wrong_key_from_damage() {
    let header = judge_first_chunk(&vec![1, 1, 5], true, false).unwrap();
    assert_eq!(header, InnerHeader { version: 1, suite: Suite::XChaCha20Poly1305Argon2id });
    let err = judge_first_chunk(&vec![1, 9], true, false).unwrap_err();
    assert!(matches!(err, ZolalError::CorruptBundle(m) if m == "unknown envelope cipher suite"));
    let err = judge_first_chunk(&vec![2, 1], true, false).unwrap_err();
    assert!(matches!(err, ZolalError::CorruptBundle(m)
        if m == "envelope version 2 is newer than this build understands"));
    let err = judge_first_chunk(&vec![1, 1], false, true).unwrap_err();
    assert!(matches!(err, ZolalError::DamagedPayload));
    let err = judge_first_chunk(&vec![1, 1], false, false).unwrap_err();
    assert!(matches!(err, ZolalError::WrongPassphrase));
}
