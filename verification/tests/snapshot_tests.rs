use galax::snapshot::{decode_snapshot, encode_snapshot, SnapshotBodies, SnapshotError, SNAPSHOT_VERSION};

fn bits(v: &[f64]) -> Vec<u64> {
    v.iter().map(|x| x.to_bits()).collect()
}

fn floats(v: &[u64]) -> Vec<f64> {
    v.iter().map(|&b| f64::from_bits(b)).collect()
}

fn column(n: usize, scale: f64, offset: f64) -> Vec<f64> {
    (0..n).map(|_| fastrand::f64() * scale + offset).collect()
}

#[test]
fn test_snapshot_round_trip() {
    let n = 100;
    let x = column(n, 100.0, -50.0);
    let y = column(n, 100.0, -50.0);
    let vx = column(n, 10.0, -5.0);
    let vy = column(n, 10.0, -5.0);
    let mass = column(n, 10.0, 0.1);
    let ax = column(n, 2.0, -1.0);
    let ay = column(n, 2.0, -1.0);
    let bodies = SnapshotBodies {
        x: bits(&x),
        y: bits(&y),
        vx: bits(&vx),
        vy: bits(&vy),
        mass: bits(&mass),
        ax: bits(&ax),
        ay: bits(&ay),
    };
    let buf = encode_snapshot(&bodies, 1_700_000_000_000);
    let restored = decode_snapshot(&buf).unwrap();
    assert_eq!(restored.x.len(), n);
    let (rx, ry, rvx, rvy) = (floats(&restored.x), floats(&restored.y), floats(&restored.vx), floats(&restored.vy));
    let (rm, rax, ray) = (floats(&restored.mass), floats(&restored.ax), floats(&restored.ay));
    for i in 0..n {
        assert!((rx[i] - x[i]).abs() < 1e-14);
        assert!((ry[i] - y[i]).abs() < 1e-14);
        assert!((rvx[i] - vx[i]).abs() < 1e-14);
        assert!((rvy[i] - vy[i]).abs() < 1e-14);
        assert!((rm[i] - mass[i]).abs() < 1e-14);
        assert!((rax[i] - ax[i]).abs() < 1e-14);
        assert!((ray[i] - ay[i]).abs() < 1e-14);
    }
}

#[test]
fn test_snapshot_bad_magic() {
    let bad_data = b"BADXsomejunkdata";
    let result = decode_snapshot(&bad_data[..]);
    assert!(matches!(result, Err(SnapshotError::BadMagic)));
}

fn one_body() -> SnapshotBodies {
    SnapshotBodies {
        x: vec![1.5f64.to_bits()],
        y: vec![(-2.0f64).to_bits()],
        vx: vec![0],
        vy: vec![0],
        mass: vec![1.0f64.to_bits()],
        ax: vec![0],
        ay: vec![0],
    }
}

#[test]
fn snapshot_layout_matches_format() {
    let buf = encode_snapshot(&one_body(), 0x0102_0304_0506_0708);
    assert_eq!(buf.len(), 24 + 7 * 8);
    assert_eq!(&buf[0..4], b"GALX");
    assert_eq!(&buf[4..8], &SNAPSHOT_VERSION.to_le_bytes());
    assert_eq!(&buf[8..16], &1u64.to_le_bytes());
    assert_eq!(&buf[16..24], &[8, 7, 6, 5, 4, 3, 2, 1]);
    assert_eq!(&buf[24..32], &1.5f64.to_le_bytes());
    assert_eq!(&buf[32..40], &(-2.0f64).to_le_bytes());
    assert_eq!(&buf[56..64], &1.0f64.to_le_bytes());
}

#[test]
fn empty_snapshot_round_trips() {
    let empty = SnapshotBodies { x: vec![], y: vec![], vx: vec![], vy: vec![], mass: vec![], ax: vec![], ay: vec![] };
    let buf = encode_snapshot(&empty, 7);
    assert_eq!(buf.len(), 24);
    let back = decode_snapshot(&buf).unwrap();
    assert!(back.x.is_empty() && back.ay.is_empty());
}

#[test]
fn unsupported_version_is_reported() {
    let mut buf = encode_snapshot(&one_body(), 0);
    buf[4] = 2;
    assert!(matches!(decode_snapshot(&buf), Err(SnapshotError::UnsupportedVersion(2))));
}

#[test]
fn truncated_snapshots_end_early() {
    let buf = encode_snapshot(&one_body(), 0);
    for cut in [0, 3, 4, 7, 8, 23, 24, 79] {
        assert!(
            matches!(decode_snapshot(&buf[..cut]), Err(SnapshotError::UnexpectedEof)),
            "cut at {}",
            cut
        );
    }
    assert!(decode_snapshot(&buf[..80]).is_ok());
    // Short data with the wrong magic is refused for its magic.
    assert!(matches!(decode_snapshot(b"GALY"), Err(SnapshotError::BadMagic)));
}

#[test]
fn trailing_bytes_are_ignored() {
    let mut buf = encode_snapshot(&one_body(), 0);
    buf.extend_from_slice(&[1, 2, 3]);
    let back = decode_snapshot(&buf).unwrap();
    assert_eq!(f64::from_bits(back.x[0]), 1.5);
    assert_eq!(f64::from_bits(back.mass[0]), 1.0);
}

#[test]
fn huge_count_does_not_allocate() {
    let mut buf = encode_snapshot(&one_body(), 0);
    buf[8..16].copy_from_slice(&u64::MAX.to_le_bytes());
    assert!(matches!(decode_snapshot(&buf), Err(SnapshotError::UnexpectedEof)));
}

#[test]
fn snapshot_error_messages() {
    assert_eq!(SnapshotError::BadMagic.message(), "Invalid magic bytes (not a galax snapshot)");
    assert_eq!(SnapshotError::UnsupportedVersion(7).message(), "Unsupported version: 7");
    assert_eq!(SnapshotError::UnsupportedVersion(1234).message(), "Unsupported version: 1234");
    assert_eq!(SnapshotError::UnsupportedVersion(0).message(), "Unsupported version: 0");
    assert_eq!(SnapshotError::UnexpectedEof.message(), "Unexpected end of file");
    assert_eq!(SnapshotError::Io("disk full".to_string()).message(), "I/O error: disk full");
}
