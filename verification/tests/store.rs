use infinite_worlds::bytes::{parse_number, push_decimal, push_le, read_le};
use infinite_worlds::order::{comes_before, stable_order};
use infinite_worlds::phase::Phase;
use infinite_worlds::store::{
    checkpoint_tag, frame_checkpoint, frame_snapshot, history_version, open_checkpoint,
    read_header, validate_header, FilePath, FileStore, HistFile, HistoryStore, SavedFile,
    StoreError, HIST_HEADER_LEN, PLANET_HEADER_LEN,
};

fn store() -> FileStore {
    FileStore::new("saves".to_string())
}

fn small_planet() -> Vec<u8> {
    (0..200u8).chain(0..200).collect()
}

fn written() -> Vec<u8> {
    store().save("test", &small_planet()).unwrap().bytes
}

fn joined(p: &FilePath) -> String {
    let mut s = p.root.clone();
    for step in &p.steps {
        s.push('/');
        s.push_str(step);
    }
    s
}

#[test]
fn round_trip_planet() {
    let planet = small_planet();
    let plan = store().save("test", &planet).unwrap();
    assert_eq!(&plan.bytes[..8], b"IWPLANET");
    assert_eq!(&plan.bytes[8..16], &[5, 0, 0, 0, 0, 0, 0, 0]);
    // The body is compressed, not the bytes themselves.
    assert_ne!(&plan.bytes[PLANET_HEADER_LEN..], &planet[..]);
    assert_eq!(store().load(&plan.bytes), Ok(planet));
    // So is an empty one.
    let empty = store().save("empty", &[]).unwrap();
    assert_eq!(store().load(&empty.bytes), Ok(vec![]));
}

#[test]
fn corrupted_magic_errors() {
    let mut buf = written();
    buf[0] = b'X';
    assert!(store().load(&buf).is_err());
    assert_eq!(store().load(&buf), Err(StoreError::BadMagic));
}

#[test]
fn truncated_file_errors() {
    assert!(store().load(b"short").is_err());
    assert_eq!(store().load(b"short"), Err(StoreError::Truncated));
}

#[test]
fn version_mismatch_errors() {
    let mut buf = written();
    buf[8..12].copy_from_slice(&99u32.to_le_bytes());
    assert!(store().load(&buf).is_err());
    assert_eq!(store().load(&buf), Err(StoreError::Version { found: 99 }));
}

#[test]
fn a_body_that_is_no_frame_errors() {
    let mut buf = written();
    buf.truncate(PLANET_HEADER_LEN);
    buf.extend_from_slice(b"this is not compressed");
    assert_eq!(store().load(&buf), Err(StoreError::Decompress));
}

#[test]
fn save_is_atomic() {
    let plan = store().save("test", &small_planet()).unwrap();
    assert_eq!(joined(&plan.scratch), "saves/test.iwp.tmp");
    assert_eq!(joined(&plan.target), "saves/test.iwp");
    // What is half written is not listed.
    assert_eq!(checkpoint_tag("test.iwp.tmp"), None);
    assert_eq!(checkpoint_tag("test.iwp"), Some("test".to_string()));
}

#[test]
fn list_sorted_by_mtime_then_name() {
    let at = |tag: &str, modified: i128| SavedFile {
        tag: tag.to_string(),
        modified,
    };
    assert_eq!(
        store().list(&vec![at("a", 60), at("b", 10)]),
        vec!["b".to_string(), "a".to_string()]
    );
    // Names decide where times are the same, shorter ones first.
    assert_eq!(
        store().list(&vec![at("ab", 5), at("b", 5), at("a", 5), at("z", -1)]),
        vec![
            "z".to_string(),
            "a".to_string(),
            "ab".to_string(),
            "b".to_string()
        ]
    );
}

#[test]
fn names_with_other_endings_are_no_checkpoints() {
    assert_eq!(checkpoint_tag("phase-drift.iwp"), Some("phase-drift".to_string()));
    assert_eq!(checkpoint_tag("a.b.iwp"), Some("a.b".to_string()));
    assert_eq!(checkpoint_tag("a.iwh"), None);
    assert_eq!(checkpoint_tag("iwp"), None);
    assert_eq!(checkpoint_tag(".iwp"), None);
    assert_eq!(checkpoint_tag(""), None);
}

#[test]
fn history_round_trip() {
    let hs = HistoryStore::new("saves".to_string(), u64::MAX);
    let body = vec![7u8; 300];
    let plan = hs
        .write_snapshot(1, 3.5f64.to_bits(), Phase::Drift, &body)
        .unwrap();
    assert_eq!(joined(&plan.target), "saves/history/1.iwh");
    assert_eq!(joined(&plan.scratch), "saves/history/1.iwh.tmp");
    assert_eq!(joined(&hs.folder()), "saves/history");
    let (version, time) = read_header(&plan.bytes[..HIST_HEADER_LEN]).unwrap();
    assert_eq!(version, 1);
    assert_eq!(f64::from_bits(time), 3.5);
    assert_eq!(plan.bytes[24], 1);
    assert_eq!(hs.load(&plan.bytes), Ok(body));
}

#[test]
fn history_headers_are_checked() {
    let buf = frame_snapshot(2, 0, Phase::RecentPast, &[1, 2, 3]);
    assert_eq!(buf.len(), HIST_HEADER_LEN + 3);
    assert_eq!(buf[24], 3);
    assert_eq!(validate_header(&buf), Ok(()));
    assert_eq!(validate_header(&buf[..24]), Err(StoreError::Truncated));
    let mut wrong = buf.clone();
    wrong[7] = 1;
    assert_eq!(validate_header(&wrong), Err(StoreError::BadMagic));
    assert_eq!(read_header(&wrong), Err(StoreError::BadMagic));
    let hs = HistoryStore::new("saves".to_string(), 1);
    assert_eq!(hs.load(&wrong), Err(StoreError::BadMagic));
    // Three bytes are no compressed body.
    assert_eq!(hs.load(&buf), Err(StoreError::Decompress));
}

#[test]
fn history_cap_enforced() {
    let n = 2000;
    // Probe a single snapshot's size, then size the cap for ~5.
    let probe = HistoryStore::new("probe".to_string(), u64::MAX);
    let body = |v: u64| -> Vec<u8> { (0..n as u64).map(|i| (i * 31 + v) as u8).collect() };
    let one_size = probe
        .write_snapshot(0, 0, Phase::Drift, &body(0))
        .unwrap()
        .bytes
        .len() as u64;
    let cap = one_size * 5;

    let hs = HistoryStore::new("saves".to_string(), cap);
    let mut on_disk: Vec<HistFile> = Vec::new();
    for v in 0..20u64 {
        let plan = hs
            .write_snapshot(v, (v as f64).to_bits(), Phase::Drift, &body(v))
            .unwrap();
        on_disk.push(HistFile {
            version: v,
            size_bytes: plan.bytes.len() as u64,
        });
        let gone = hs.enforce_cap(&on_disk);
        let mut i = 0;
        on_disk.retain(|_| {
            i += 1;
            !gone.contains(&(i - 1))
        });
    }
    let list: Vec<u64> = hs.list(&on_disk).iter().map(|i| on_disk[*i].version).collect();
    for w in list.windows(2) {
        assert!(w[0] < w[1]);
    }
    assert!(!list.iter().any(|v| *v == 0));
    assert!(list.iter().any(|v| *v == 19));
    assert!(
        list.len() <= 8,
        "expected roughly 5 kept, got {}",
        list.len()
    );
}

#[test]
fn the_oldest_go_first_and_one_always_stays() {
    let file = |version: u64, size_bytes: u64| HistFile {
        version,
        size_bytes,
    };
    let files = vec![file(9, 10), file(2, 10), file(10, 10), file(5, 10)];
    let hs = |cap: u64| HistoryStore::new("saves".to_string(), cap);
    assert_eq!(hs(40).enforce_cap(&files), Vec::<usize>::new());
    assert_eq!(hs(39).enforce_cap(&files), vec![1]);
    assert_eq!(hs(20).enforce_cap(&files), vec![1, 3]);
    // The last one stays even where it is too large.
    assert_eq!(hs(0).enforce_cap(&files), vec![1, 3, 0]);
    assert_eq!(hs(0).enforce_cap(&vec![]), Vec::<usize>::new());
    assert_eq!(hs(0).list(&files), vec![1, 3, 0, 2]);
    // Sizes beyond 64 bits in all are counted right.
    let huge = vec![file(0, u64::MAX), file(1, u64::MAX)];
    assert_eq!(hs(u64::MAX).enforce_cap(&huge), vec![0]);
}

#[test]
fn versions_are_read_from_names() {
    assert_eq!(history_version("12.iwh"), Some(12));
    assert_eq!(history_version("0.iwh"), Some(0));
    assert_eq!(history_version("007.iwh"), Some(7));
    assert_eq!(history_version("+7.iwh"), Some(7));
    assert_eq!(history_version("18446744073709551615.iwh"), Some(u64::MAX));
    assert_eq!(history_version("18446744073709551616.iwh"), None);
    assert_eq!(history_version("-1.iwh"), None);
    assert_eq!(history_version("1.iwh.tmp"), None);
    assert_eq!(history_version("x.iwh"), None);
    assert_eq!(history_version(".iwh"), None);
    assert_eq!(history_version("1.iwp"), None);
    let hs = HistoryStore::new("saves".to_string(), 0);
    for v in [0u64, 9, 10, 1234567890, u64::MAX] {
        let name = hs.path_for(v).steps[1].clone();
        assert_eq!(name, format!("{v}.iwh"));
        assert_eq!(history_version(&name), Some(v));
    }
}

#[test]
fn frames_open_as_they_were_made() {
    let frame = frame_checkpoint(&[9, 8, 7]);
    assert_eq!(open_checkpoint(&frame), Ok(&[9u8, 8, 7][..]));
    assert_eq!(open_checkpoint(&frame[..15]), Err(StoreError::Truncated));
    assert_eq!(open_checkpoint(&frame[..16]), Ok(&[][..]));
}

#[test]
fn numbers_survive_bytes_and_digits() {
    for v in [0u64, 1, 255, 256, 0xdead_beef, u64::MAX] {
        let mut b = vec![1u8];
        push_le(&mut b, v, 8);
        assert_eq!(&b[1..], &v.to_le_bytes());
        assert_eq!(read_le(&b, 1, 8), v);
        let mut s = String::new();
        push_decimal(&mut s, v);
        assert_eq!(s, v.to_string());
        let chars: Vec<char> = s.chars().collect();
        assert_eq!(parse_number(&chars), Some(v));
    }
    assert_eq!(parse_number(&['+']), None);
    assert_eq!(parse_number(&[]), None);
    assert_eq!(parse_number(&['1', 'a']), None);
}

#[test]
fn equal_keys_keep_their_order() {
    let keys: Vec<Vec<i128>> = vec![vec![2], vec![1, 5], vec![1], vec![2], vec![1]];
    assert_eq!(stable_order(&keys), vec![2, 4, 1, 0, 3]);
    assert!(comes_before(&[1], &[1, 0]));
    assert!(!comes_before(&[1, 0], &[1]));
    assert!(!comes_before(&[1], &[1]));
}
