//! Manifests, names and bundles.

use zolal_core::error::{IoError, IoErrorKind, ZolalError};
use zolal_core::io::{copy_all, BytesReader, Read};
use zolal_core::payload::bundle::{
    plan, read_bundle, BundleReader, MemoryFolder, MemoryPayloads, PayloadFile,
};
use zolal_core::payload::manifest::{mime_for, Entry, Manifest, MAX_MANIFEST_LEN};
use zolal_core::payload::names::{numbered_name, unique_name, MAX_NAME_BYTES};

fn entry(name: &str, len: u64) -> Entry {
    Entry {
        name: name.into(),
        mime: mime_for(name).into(),
        len,
    }
}

#[test]
fn encode_decode_roundtrip() {
    let m = Manifest {
        entries: vec![entry("clip.mp4", 5_000_000), entry("notes – é.txt", 0)],
    };
    let bytes = m.encode().unwrap();
    assert_eq!(bytes.len() as u64, m.encoded_len());
    assert_eq!(Manifest::decode(&bytes).unwrap(), m);
}

#[test]
fn decode_rejects_garbage_without_allocating_from_it() {
    assert!(Manifest::decode(&[]).is_err());
    assert!(Manifest::decode(&u32::MAX.to_le_bytes()).is_err());
    let mut bytes = Manifest {
        entries: vec![entry("a", 1)],
    }
    .encode()
    .unwrap();
    bytes.push(0);
    assert!(Manifest::decode(&bytes).is_err());
    let overflow = Manifest {
        entries: vec![entry("a", u64::MAX), entry("b", 1)],
    };
    assert!(Manifest::decode(&overflow.encode().unwrap()).is_err());
}

#[test]
fn safe_name_strips_traversal_and_disguises() {
    let cases = [
        ("../../etc/passwd", Some("passwd")),
        ("..\\..\\boot.ini", Some("boot.ini")),
        ("/abs/path/photo.jpg", Some("photo.jpg")),
        ("..", None),
        ("dir/..", None),
        ("dir/", None),
        ("  ", None),
        ("a\0b\nc.txt", Some("abc.txt")),
        ("photo\u{202E}gpj.exe", Some("photogpj.exe")),
        ("normal name.pdf", Some("normal name.pdf")),
    ];
    for (input, want) in cases {
        assert_eq!(Manifest::safe_name(input).as_deref(), want, "{input:?}");
    }
}

#[test]
fn long_names_keep_their_extension() {
    let long = format!("{}.jpg", "é".repeat(200));
    let safe = Manifest::safe_name(&long).unwrap();
    assert!(safe.len() <= MAX_NAME_BYTES);
    assert!(safe.ends_with(".jpg"));
}

#[test]
fn a_manifest_is_laid_out_as_counts_and_texts() {
    let m = Manifest {
        entries: vec![Entry {
            name: "a".into(),
            mime: "b/c".into(),
            len: 0x0102,
        }],
    };
    assert_eq!(
        m.encode().unwrap(),
        [
            1, 0, 0, 0, 1, 0, b'a', 3, b'b', b'/', b'c', 2, 1, 0, 0, 0, 0, 0, 0
        ]
    );
    assert_eq!(m.total_len(), 0x0102);
    assert_eq!(m.bundle_len(), 4 + 19 + 0x0102);
}

#[test]
fn types_follow_the_extension() {
    assert_eq!(mime_for("a.JPG"), "image/jpeg");
    assert_eq!(mime_for("a.txt"), "text/plain");
    assert_eq!(mime_for("a"), "application/octet-stream");
}

#[test]
fn clashing_names_are_numbered_before_the_extension() {
    assert_eq!(numbered_name("photo.jpg", 2), "photo (2).jpg");
    assert_eq!(numbered_name("README", 12), "README (12)");
    let taken = ["x.txt", "x (2).txt"];
    let name = unique_name("x.txt", |n: &str| taken.contains(&n)).unwrap();
    assert_eq!(name, "x (3).txt");
}

fn bundle_bytes(manifest: &Manifest, bodies: &[&[u8]]) -> Vec<u8> {
    let encoded = manifest.encode().unwrap();
    let mut out = (encoded.len() as u32).to_le_bytes().to_vec();
    out.extend_from_slice(&encoded);
    for body in bodies {
        out.extend_from_slice(body);
    }
    out
}

fn plain_entry(name: &str, len: usize) -> Entry {
    Entry {
        name: name.into(),
        mime: "application/octet-stream".into(),
        len: len as u64,
    }
}

fn described(name: &str, len: usize) -> PayloadFile {
    PayloadFile {
        label: format!("dir/{name}"),
        name: Some(name.to_string()),
        is_file: true,
        len: len as u64,
    }
}

fn labels(files: &[PayloadFile]) -> Vec<String> {
    files.iter().map(|f| f.label.clone()).collect()
}

#[test]
fn reader_output_matches_plan_and_reads_back() {
    let payloads = MemoryPayloads {
        files: vec![vec![7u8; 100_000], Vec::new()],
    };
    let files = vec![described("a.bin", 100_000), described("b.txt", 0)];

    let manifest = plan(&files).unwrap();
    let mut reader = BundleReader::new(labels(&files), &payloads, manifest.clone()).unwrap();
    let mut bytes = Vec::new();
    copy_all(&mut reader, &mut bytes).unwrap();
    assert_eq!(bytes.len() as u64, manifest.bundle_len());

    let mut out = MemoryFolder::new();
    let got = read_bundle(&mut BytesReader::new(bytes), &mut out).unwrap();
    assert_eq!(got.total_bytes, 100_000);
    assert_eq!(out.files[0], ("a.bin".to_string(), vec![7u8; 100_000]));
    assert_eq!(out.files[1], ("b.txt".to_string(), Vec::new()));
}

#[test]
fn a_payload_that_changes_size_is_an_error() {
    let files = vec![described("a.bin", 10)];
    let manifest = plan(&files).unwrap();

    let shrunk = MemoryPayloads {
        files: vec![vec![1u8; 5]],
    };
    let mut reader = BundleReader::new(labels(&files), &shrunk, manifest.clone()).unwrap();
    let err = copy_all(&mut reader, &mut Vec::new()).unwrap_err();
    assert!(matches!(err, ZolalError::InvalidRequest(m) if m.contains("shrank")));

    let grown = MemoryPayloads {
        files: vec![vec![1u8; 20]],
    };
    let mut reader = BundleReader::new(labels(&files), &grown, manifest).unwrap();
    let err = copy_all(&mut reader, &mut Vec::new()).unwrap_err();
    assert!(matches!(err, ZolalError::InvalidRequest(m) if m.contains("grew")));
}

#[test]
fn hostile_names_stay_inside_the_output_dir() {
    let manifest = Manifest {
        entries: vec![
            plain_entry("../../escape.txt", 1),
            plain_entry("/etc/passwd", 1),
            plain_entry("..", 1),
            plain_entry("C:\\Windows\\evil.dll", 1),
            plain_entry("Same.txt", 1),
            plain_entry("same.TXT", 1),
        ],
    };
    let bytes = bundle_bytes(&manifest, &[b"1", b"2", b"3", b"4", b"5", b"6"]);
    let mut out = MemoryFolder::new();

    let got = read_bundle(&mut BytesReader::new(bytes), &mut out).unwrap();
    assert_eq!(
        got.files,
        [
            "escape.txt",
            "passwd",
            "file-3",
            "evil.dll",
            "Same.txt",
            "same (2).TXT"
        ]
    );
    let names: Vec<String> = out.files.iter().map(|f| f.0.clone()).collect();
    assert_eq!(names, got.files, "nothing outside out/");
    for (i, file) in out.files.iter().enumerate() {
        assert!(!file.0.contains('/') && !file.0.contains('\\'), "{} escaped", file.0);
        assert_eq!(file.1, [b'1' + i as u8]);
    }
}

#[test]
fn framing_errors_are_corrupt_bundle() {
    let manifest = Manifest {
        entries: vec![plain_entry("a", 10)],
    };
    let short = bundle_bytes(&manifest, &[b"12345"]);
    assert!(matches!(
        read_bundle(&mut BytesReader::new(short), &mut MemoryFolder::new()),
        Err(ZolalError::CorruptBundle(_))
    ));

    let long = bundle_bytes(&manifest, &[b"0123456789", b"extra"]);
    assert!(matches!(
        read_bundle(&mut BytesReader::new(long), &mut MemoryFolder::new()),
        Err(ZolalError::CorruptBundle(_))
    ));

    let huge = (MAX_MANIFEST_LEN + 1).to_le_bytes().to_vec();
    assert!(matches!(
        read_bundle(&mut BytesReader::new(huge), &mut MemoryFolder::new()),
        Err(ZolalError::CorruptBundle(_))
    ));
}

#[test]
fn impossible_payloads_are_refused() {
    assert!(matches!(plan(&Vec::new()), Err(ZolalError::InvalidRequest(_))));
    let folder = PayloadFile {
        label: "dir".into(),
        name: Some("dir".into()),
        is_file: false,
        len: 0,
    };
    assert!(matches!(plan(&vec![folder]), Err(ZolalError::InvalidRequest(_))));
    let nameless = PayloadFile {
        label: "..".into(),
        name: None,
        is_file: true,
        len: 0,
    };
    assert!(matches!(plan(&vec![nameless]), Err(ZolalError::InvalidRequest(_))));
}

#[test]
fn an_error_of_a_source_comes_through() {
    struct Broken;
    impl zolal_core::io::Read for Broken {
        fn read(&mut self, _max: usize) -> Result<Vec<u8>, IoError> {
            Err(ZolalError::DamagedPayload.into_io())
        }
    }
    let err = read_bundle(&mut Broken, &mut MemoryFolder::new()).unwrap_err();
    assert!(matches!(err, ZolalError::DamagedPayload));
}

/// A source that says it ended too early.
struct EndsEarly(Vec<u8>, IoErrorKind);

impl Read for EndsEarly {
    fn read(&mut self, max: usize) -> Result<Vec<u8>, IoError> {
        if self.0.is_empty() {
            return Err(IoError::new(self.1, "gone"));
        }
        let n = self.0.len().min(max);
        Ok(self.0.drain(..n).collect())
    }
}

#[test]
fn a_source_that_ends_inside_the_manifest_is_corrupt() {
    for front in [vec![], vec![9, 0, 0, 0, 1]] {
        let mut out = MemoryFolder::new();
        let mut src = EndsEarly(front.clone(), IoErrorKind::UnexpectedEof);
        let err = read_bundle(&mut src, &mut out).unwrap_err();
        assert_eq!(err.message(), ZolalError::CorruptBundle("payload ends inside the manifest".to_string()).message());
        let mut src = EndsEarly(front, IoErrorKind::NotFound);
        let err = read_bundle(&mut src, &mut out).unwrap_err();
        assert!(matches!(err, ZolalError::Io(e) if e.kind() == IoErrorKind::NotFound));
    }
}
