//! Binary snapshot format: the magic `GALX`, a little-endian `u32`
//! version (1), a `u64` body count, a `u64` timestamp, then seven columns
//! of `count` little-endian `f64` values each (x, y, vx, vy, mass, ax, ay).
//! Values are carried as their IEEE-754 bit patterns, so a snapshot is
//! framed and read back bit for bit.
use vstd::prelude::*;
use vstd::bytes::{
    spec_u32_from_le_bytes,
    spec_u32_to_le_bytes,
    spec_u64_from_le_bytes,
    spec_u64_to_le_bytes,
    u32_from_le_bytes,
    u32_to_le_bytes,
    u64_from_le_bytes,
    u64_to_le_bytes,
};

verus! {

/// Why a snapshot could not be read.
#[derive(Debug)]
pub enum SnapshotError {
    /// The underlying stream failed, with its message.
    Io(String),
    /// The first four bytes are not `GALX`.
    BadMagic,
    /// The version field holds a version other than 1.
    UnsupportedVersion(u32),
    /// The data ends before the header or the columns it announces.
    UnexpectedEof,
}

/// Bodies as the bit patterns of their `f64` coordinates, one column per
/// quantity.
#[derive(Debug)]
pub struct SnapshotBodies {
    pub x: Vec<u64>,
    pub y: Vec<u64>,
    pub vx: Vec<u64>,
    pub vy: Vec<u64>,
    pub mass: Vec<u64>,
    pub ax: Vec<u64>,
    pub ay: Vec<u64>,
}

/// The format version written and accepted.
pub const SNAPSHOT_VERSION: u32 = 1;

/// The four magic bytes, `GALX`.
pub open spec fn magic() -> Seq<u8> {
    seq![71u8, 65u8, 76u8, 88u8]
}

/// The columns in file order.
pub open spec fn columns(b: SnapshotBodies) -> Seq<Seq<u64>> {
    seq![b.x@, b.y@, b.vx@, b.vy@, b.mass@, b.ax@, b.ay@]
}

/// Seven columns of one common length.
pub open spec fn well_formed(cols: Seq<Seq<u64>>) -> bool {
    &&& cols.len() == 7
    &&& forall|c: int| 0 <= c < 7 ==> (#[trigger] cols[c]).len() == cols[0].len()
}

/// Words as consecutive little-endian groups of eight bytes.
pub open spec fn words_le(s: Seq<u64>) -> Seq<u8>
    decreases s.len(),
{
    if s.len() == 0 {
        Seq::empty()
    } else {
        words_le(s.drop_last()) + spec_u64_to_le_bytes(s.last())
    }
}

/// The `count` words stored little-endian from byte `start` on.
pub open spec fn words_at(bytes: Seq<u8>, start: int, count: int) -> Seq<u64> {
    Seq::new(
        count as nat,
        |k: int| spec_u64_from_le_bytes(bytes.subrange(start + 8 * k, start + 8 * k + 8)),
    )
}

/// Header: magic, version, body count, timestamp.
pub open spec fn header(n: u64, timestamp: u64) -> Seq<u8> {
    magic() + spec_u32_to_le_bytes(1) + spec_u64_to_le_bytes(n) + spec_u64_to_le_bytes(timestamp)
}

/// The bytes of a snapshot of `cols` taken at `timestamp`.
pub open spec fn snapshot_bytes(cols: Seq<Seq<u64>>, timestamp: u64) -> Seq<u8> {
    header(cols[0].len() as u64, timestamp) + words_le(cols[0]) + words_le(cols[1]) + words_le(
        cols[2],
    ) + words_le(cols[3]) + words_le(cols[4]) + words_le(cols[5]) + words_le(cols[6])
}

/// What reading `bytes` gives: the seven columns, or the first problem
/// met in file order.
pub open spec fn decode_spec(bytes: Seq<u8>) -> Result<Seq<Seq<u64>>, SnapshotError> {
    if bytes.len() < 4 {
        Err(SnapshotError::UnexpectedEof)
    } else if bytes.subrange(0, 4) != magic() {
        Err(SnapshotError::BadMagic)
    } else if bytes.len() < 8 {
        Err(SnapshotError::UnexpectedEof)
    } else if spec_u32_from_le_bytes(bytes.subrange(4, 8)) != 1 {
        Err(SnapshotError::UnsupportedVersion(spec_u32_from_le_bytes(bytes.subrange(4, 8))))
    } else if bytes.len() < 24 {
        Err(SnapshotError::UnexpectedEof)
    } else {
        let n: int = spec_u64_from_le_bytes(bytes.subrange(8, 16)) as int;
        if bytes.len() < 24 + 56 * n {
            Err(SnapshotError::UnexpectedEof)
        } else {
            Ok(
                seq![
                    words_at(bytes, 24, n),
                    words_at(bytes, 24 + 8 * n, n),
                    words_at(bytes, 24 + 16 * n, n),
                    words_at(bytes, 24 + 24 * n, n),
                    words_at(bytes, 24 + 32 * n, n),
                    words_at(bytes, 24 + 40 * n, n),
                    words_at(bytes, 24 + 48 * n, n),
                ],
            )
        }
    }
}

/// `words_le` takes eight bytes per word, and word `k` sits at `8 * k`.
proof fn lemma_words_le(s: Seq<u64>)
    ensures
        words_le(s).len() == 8 * s.len(),
        forall|k: int|
            0 <= k < s.len() ==> #[trigger] words_le(s).subrange(8 * k, 8 * k + 8)
                == spec_u64_to_le_bytes(s[k]),
    decreases s.len(),
{
    vstd::bytes::lemma_auto_spec_u64_to_from_le_bytes();
    if s.len() > 0 {
        let init = s.drop_last();
        lemma_words_le(init);
        assert forall|k: int| 0 <= k < s.len() implies #[trigger] words_le(s).subrange(
            8 * k,
            8 * k + 8,
        ) == spec_u64_to_le_bytes(s[k]) by {
            if k < init.len() {
                assert(words_le(s).subrange(8 * k, 8 * k + 8) =~= words_le(init).subrange(
                    8 * k,
                    8 * k + 8,
                ));
            } else {
                assert(words_le(s).subrange(8 * k, 8 * k + 8) =~= spec_u64_to_le_bytes(s.last()));
            }
        }
    }
}

/// Reading back the words of a column gives the column.
proof fn lemma_read_column(bytes: Seq<u8>, start: int, s: Seq<u64>)
    requires
        0 <= start,
        start + 8 * s.len() <= bytes.len(),
        bytes.subrange(start, start + 8 * s.len()) == words_le(s),
    ensures
        words_at(bytes, start, s.len() as int) == s,
{
    vstd::bytes::lemma_auto_spec_u64_to_from_le_bytes();
    lemma_words_le(s);
    assert forall|k: int| 0 <= k < s.len() implies #[trigger] words_at(
        bytes,
        start,
        s.len() as int,
    )[k] == s[k] by {
        assert(bytes.subrange(start + 8 * k, start + 8 * k + 8) =~= words_le(s).subrange(
            8 * k,
            8 * k + 8,
        ));
    }
    assert(words_at(bytes, start, s.len() as int) =~= s);
}

/// Reading a snapshot gives back the columns it was written from.
pub proof fn law_snapshot_round_trip(cols: Seq<Seq<u64>>, timestamp: u64)
    requires
        well_formed(cols),
        cols[0].len() <= usize::MAX,
    ensures
        decode_spec(snapshot_bytes(cols, timestamp)) == Ok::<Seq<Seq<u64>>, SnapshotError>(cols),
{
    vstd::bytes::lemma_auto_spec_u64_to_from_le_bytes();
    vstd::bytes::lemma_auto_spec_u32_to_from_le_bytes();
    let n: int = cols[0].len() as int;
    let bytes = snapshot_bytes(cols, timestamp);
    let h = header(n as u64, timestamp);
    assert(h.len() == 24);
    assert forall|c: int| 0 <= c < 7 implies #[trigger] words_le(cols[c]).len() == 8 * n by {
        lemma_words_le(cols[c]);
    }
    assert(bytes.len() == 24 + 56 * n);
    assert(bytes.subrange(0, 4) =~= magic());
    assert(bytes.subrange(4, 8) =~= spec_u32_to_le_bytes(1));
    assert(bytes.subrange(8, 16) =~= spec_u64_to_le_bytes(n as u64));
    let w0 = words_le(cols[0]);
    let w1 = words_le(cols[1]);
    let w2 = words_le(cols[2]);
    let w3 = words_le(cols[3]);
    let w4 = words_le(cols[4]);
    let w5 = words_le(cols[5]);
    let w6 = words_le(cols[6]);
    assert(bytes =~= h + w0 + w1 + w2 + w3 + w4 + w5 + w6);
    assert(bytes.subrange(24, 24 + 8 * n) =~= w0);
    assert(bytes.subrange(24 + 8 * n, 24 + 16 * n) =~= w1);
    assert(bytes.subrange(24 + 16 * n, 24 + 24 * n) =~= w2);
    assert(bytes.subrange(24 + 24 * n, 24 + 32 * n) =~= w3);
    assert(bytes.subrange(24 + 32 * n, 24 + 40 * n) =~= w4);
    assert(bytes.subrange(24 + 40 * n, 24 + 48 * n) =~= w5);
    assert(bytes.subrange(24 + 48 * n, 24 + 56 * n) =~= w6);
    lemma_read_column(bytes, 24, cols[0]);
    lemma_read_column(bytes, 24 + 8 * n, cols[1]);
    lemma_read_column(bytes, 24 + 16 * n, cols[2]);
    lemma_read_column(bytes, 24 + 24 * n, cols[3]);
    lemma_read_column(bytes, 24 + 32 * n, cols[4]);
    lemma_read_column(bytes, 24 + 40 * n, cols[5]);
    lemma_read_column(bytes, 24 + 48 * n, cols[6]);
    match decode_spec(bytes) {
        Ok(got) => {
            assert(got =~= cols);
        },
        Err(_) => {},
    }
}

/// The eight bytes of each word of a column sit at its place in the
/// column's run.
proof fn lemma_column_bytes(bytes: Seq<u8>, start: int, s: Seq<u64>)
    requires
        0 <= start,
        start + 8 * s.len() <= bytes.len(),
        bytes.subrange(start, start + 8 * s.len()) == words_le(s),
    ensures
        forall|i: int|
            0 <= i < s.len() ==> bytes.subrange(start + 8 * i, start + 8 * i + 8)
                == spec_u64_to_le_bytes(#[trigger] s[i]),
{
    lemma_words_le(s);
    assert forall|i: int| 0 <= i < s.len() implies bytes.subrange(start + 8 * i, start + 8 * i + 8)
        == spec_u64_to_le_bytes(#[trigger] s[i]) by {
        assert(bytes.subrange(start + 8 * i, start + 8 * i + 8) =~= words_le(s).subrange(
            8 * i,
            8 * i + 8,
        ));
    }
}

/// The byte layout of a snapshot of `b` with `n` bodies: `GALX`, version 1
/// (`u32`), `n` and the timestamp (`u64`), then the columns x, y, vx, vy,
/// mass, ax, ay, one after the other, body `i`'s value of the `c`-th column
/// (counting from 0) in the eight little-endian bytes at
/// `24 + 8 * c * n + 8 * i`.
pub proof fn law_snapshot_layout(b: SnapshotBodies, timestamp: u64)
    requires
        well_formed(columns(b)),
    ensures
        ({
            let bytes = snapshot_bytes(columns(b), timestamp);
            let n = b.x.len() as int;
            &&& bytes.len() == 24 + 56 * n
            &&& bytes.subrange(0, 4) == seq![71u8, 65u8, 76u8, 88u8]
            &&& bytes.subrange(4, 8) == spec_u32_to_le_bytes(1)
            &&& bytes.subrange(8, 16) == spec_u64_to_le_bytes(n as u64)
            &&& bytes.subrange(16, 24) == spec_u64_to_le_bytes(timestamp)
        &&& forall|i: int|
            0 <= i < n ==> bytes.subrange(24 + 8 * i, 24 + 8 * i + 8) == spec_u64_to_le_bytes(
                #[trigger] b.x@[i],
            )
        &&& forall|i: int|
            0 <= i < n ==> bytes.subrange(24 + 8 * n + 8 * i, 24 + 8 * n + 8 * i + 8) == spec_u64_to_le_bytes(
                #[trigger] b.y@[i],
            )
        &&& forall|i: int|
            0 <= i < n ==> bytes.subrange(24 + 16 * n + 8 * i, 24 + 16 * n + 8 * i + 8) == spec_u64_to_le_bytes(
                #[trigger] b.vx@[i],
            )
        &&& forall|i: int|
            0 <= i < n ==> bytes.subrange(24 + 24 * n + 8 * i, 24 + 24 * n + 8 * i + 8) == spec_u64_to_le_bytes(
                #[trigger] b.vy@[i],
            )
        &&& forall|i: int|
            0 <= i < n ==> bytes.subrange(24 + 32 * n + 8 * i, 24 + 32 * n + 8 * i + 8) == spec_u64_to_le_bytes(
                #[trigger] b.mass@[i],
            )
        &&& forall|i: int|
            0 <= i < n ==> bytes.subrange(24 + 40 * n + 8 * i, 24 + 40 * n + 8 * i + 8) == spec_u64_to_le_bytes(
                #[trigger] b.ax@[i],
            )
        &&& forall|i: int|
            0 <= i < n ==> bytes.subrange(24 + 48 * n + 8 * i, 24 + 48 * n + 8 * i + 8) == spec_u64_to_le_bytes(
                #[trigger] b.ay@[i],
            )
        }),
{
    vstd::bytes::lemma_auto_spec_u64_to_from_le_bytes();
    vstd::bytes::lemma_auto_spec_u32_to_from_le_bytes();
    let cols = columns(b);
    let n: int = b.x.len() as int;
    let bytes = snapshot_bytes(cols, timestamp);
    assert(cols[0] == b.x@);
    assert(cols[2] == b.vx@);
    assert forall|c: int| 0 <= c < 7 implies #[trigger] words_le(cols[c]).len() == 8 * n by {
        lemma_words_le(cols[c]);
    }
    let h = header(n as u64, timestamp);
    assert(h.len() == 24);
    assert(bytes =~= h + words_le(b.x@) + words_le(b.y@) + words_le(b.vx@) + words_le(b.vy@)
        + words_le(b.mass@) + words_le(b.ax@) + words_le(b.ay@));
    assert(bytes.subrange(0, 4) =~= seq![71u8, 65u8, 76u8, 88u8]);
    assert(bytes.subrange(4, 8) =~= spec_u32_to_le_bytes(1));
    assert(bytes.subrange(8, 16) =~= spec_u64_to_le_bytes(n as u64));
    assert(bytes.subrange(16, 24) =~= spec_u64_to_le_bytes(timestamp));
    assert(bytes.subrange(24, 24 + 8 * n) =~= words_le(b.x@));
    lemma_column_bytes(bytes, 24, b.x@);
    assert(bytes.subrange(24 + 8 * n, 24 + 16 * n) =~= words_le(b.y@));
    lemma_column_bytes(bytes, 24 + 8 * n, b.y@);
    assert(bytes.subrange(24 + 16 * n, 24 + 24 * n) =~= words_le(b.vx@));
    lemma_column_bytes(bytes, 24 + 16 * n, b.vx@);
    assert(bytes.subrange(24 + 24 * n, 24 + 32 * n) =~= words_le(b.vy@));
    lemma_column_bytes(bytes, 24 + 24 * n, b.vy@);
    assert(bytes.subrange(24 + 32 * n, 24 + 40 * n) =~= words_le(b.mass@));
    lemma_column_bytes(bytes, 24 + 32 * n, b.mass@);
    assert(bytes.subrange(24 + 40 * n, 24 + 48 * n) =~= words_le(b.ax@));
    lemma_column_bytes(bytes, 24 + 40 * n, b.ax@);
    assert(bytes.subrange(24 + 48 * n, 24 + 56 * n) =~= words_le(b.ay@));
    lemma_column_bytes(bytes, 24 + 48 * n, b.ay@);
}

/// What a successful read takes from the bytes: with `n` the count in
/// bytes 8..16, body `i`'s value of the `c`-th column (x, y, vx, vy, mass,
/// ax, ay, counting from 0) is the little-endian word in the eight bytes at
/// `24 + 8 * c * n + 8 * i`.
pub proof fn law_decode_layout(bytes: Seq<u8>)
    requires
        decode_spec(bytes) is Ok,
    ensures
        ({
            let cols = decode_spec(bytes)->Ok_0;
            let n = spec_u64_from_le_bytes(bytes.subrange(8, 16)) as int;
            &&& bytes.subrange(0, 4) == seq![71u8, 65u8, 76u8, 88u8]
            &&& cols.len() == 7
            &&& forall|c: int| 0 <= c < 7 ==> (#[trigger] cols[c]).len() == n
        &&& forall|i: int|
            0 <= i < n ==> #[trigger] cols[0][i] == spec_u64_from_le_bytes(
                bytes.subrange(24 + 8 * i, 24 + 8 * i + 8),
            )
        &&& forall|i: int|
            0 <= i < n ==> #[trigger] cols[1][i] == spec_u64_from_le_bytes(
                bytes.subrange(24 + 8 * n + 8 * i, 24 + 8 * n + 8 * i + 8),
            )
        &&& forall|i: int|
            0 <= i < n ==> #[trigger] cols[2][i] == spec_u64_from_le_bytes(
                bytes.subrange(24 + 16 * n + 8 * i, 24 + 16 * n + 8 * i + 8),
            )
        &&& forall|i: int|
            0 <= i < n ==> #[trigger] cols[3][i] == spec_u64_from_le_bytes(
                bytes.subrange(24 + 24 * n + 8 * i, 24 + 24 * n + 8 * i + 8),
            )
        &&& forall|i: int|
            0 <= i < n ==> #[trigger] cols[4][i] == spec_u64_from_le_bytes(
                bytes.subrange(24 + 32 * n + 8 * i, 24 + 32 * n + 8 * i + 8),
            )
        &&& forall|i: int|
            0 <= i < n ==> #[trigger] cols[5][i] == spec_u64_from_le_bytes(
                bytes.subrange(24 + 40 * n + 8 * i, 24 + 40 * n + 8 * i + 8),
            )
        &&& forall|i: int|
            0 <= i < n ==> #[trigger] cols[6][i] == spec_u64_from_le_bytes(
                bytes.subrange(24 + 48 * n + 8 * i, 24 + 48 * n + 8 * i + 8),
            )
        }),
{
    let cols = decode_spec(bytes)->Ok_0;
    let n = spec_u64_from_le_bytes(bytes.subrange(8, 16)) as int;
    assert forall|i: int| 0 <= i < n implies #[trigger] cols[0][i] == spec_u64_from_le_bytes(
        bytes.subrange(24 + 8 * i, 24 + 8 * i + 8),
    ) by {}
    assert forall|i: int| 0 <= i < n implies #[trigger] cols[1][i] == spec_u64_from_le_bytes(
        bytes.subrange(24 + 8 * n + 8 * i, 24 + 8 * n + 8 * i + 8),
    ) by {}
    assert forall|i: int| 0 <= i < n implies #[trigger] cols[2][i] == spec_u64_from_le_bytes(
        bytes.subrange(24 + 16 * n + 8 * i, 24 + 16 * n + 8 * i + 8),
    ) by {}
    assert forall|i: int| 0 <= i < n implies #[trigger] cols[3][i] == spec_u64_from_le_bytes(
        bytes.subrange(24 + 24 * n + 8 * i, 24 + 24 * n + 8 * i + 8),
    ) by {}
    assert forall|i: int| 0 <= i < n implies #[trigger] cols[4][i] == spec_u64_from_le_bytes(
        bytes.subrange(24 + 32 * n + 8 * i, 24 + 32 * n + 8 * i + 8),
    ) by {}
    assert forall|i: int| 0 <= i < n implies #[trigger] cols[5][i] == spec_u64_from_le_bytes(
        bytes.subrange(24 + 40 * n + 8 * i, 24 + 40 * n + 8 * i + 8),
    ) by {}
    assert forall|i: int| 0 <= i < n implies #[trigger] cols[6][i] == spec_u64_from_le_bytes(
        bytes.subrange(24 + 48 * n + 8 * i, 24 + 48 * n + 8 * i + 8),
    ) by {}
}

/// Appends the little-endian bytes of every word of `words`.
fn push_words(out: &mut Vec<u8>, words: &Vec<u64>)
    ensures
        final(out)@ == old(out)@ + words_le(words@),
{
    let ghost start: Seq<u8> = out@;
    for k in 0..words.len()
        invariant
            out@ == start + words_le(words@.subrange(0, k as int)),
    {
        let mut le: Vec<u8> = u64_to_le_bytes(words[k]);
        proof {
            let next = words@.subrange(0, k + 1);
            assert(next.drop_last() =~= words@.subrange(0, k as int));
            assert(next.last() == words@[k as int]);
        }
        out.append(&mut le);
        proof {
            assert(out@ =~= start + words_le(words@.subrange(0, k + 1)));
        }
    }
    proof {
        assert(words@.subrange(0, words@.len() as int) =~= words@);
    }
}

/// Writes a snapshot of `bodies` with the given timestamp.
pub fn encode_snapshot(bodies: &SnapshotBodies, timestamp: u64) -> (bytes: Vec<u8>)
    requires
        well_formed(columns(*bodies)),
    ensures
        bytes@ == snapshot_bytes(columns(*bodies), timestamp),
{
    let n: u64 = bodies.x.len() as u64;
    let mut out: Vec<u8> = Vec::new();
    out.push(71u8);
    out.push(65u8);
    out.push(76u8);
    out.push(88u8);
    let mut version: Vec<u8> = u32_to_le_bytes(SNAPSHOT_VERSION);
    out.append(&mut version);
    let mut count: Vec<u8> = u64_to_le_bytes(n);
    out.append(&mut count);
    let mut stamp: Vec<u8> = u64_to_le_bytes(timestamp);
    out.append(&mut stamp);
    proof {
        assert(out@ =~= header(n, timestamp));
    }
    push_words(&mut out, &bodies.x);
    push_words(&mut out, &bodies.y);
    push_words(&mut out, &bodies.vx);
    push_words(&mut out, &bodies.vy);
    push_words(&mut out, &bodies.mass);
    push_words(&mut out, &bodies.ax);
    push_words(&mut out, &bodies.ay);
    proof {
        let cols = columns(*bodies);
        assert(cols[0] == bodies.x@);
        assert(n as int == cols[0].len());
    }
    out
}

/// The `count` words stored little-endian from byte `start` on.
fn read_words(bytes: &[u8], start: usize, count: usize) -> (words: Vec<u64>)
    requires
        start + 8 * count <= bytes@.len(),
    ensures
        words@ == words_at(bytes@, start as int, count as int),
{
    let total: usize = bytes.len();
    let mut words: Vec<u64> = Vec::new();
    for k in 0..count
        invariant
            total == bytes@.len(),
            start + 8 * count <= bytes@.len(),
            words.len() == k,
            forall|q: int|
                0 <= q < k ==> #[trigger] words@[q] == words_at(bytes@, start as int, count as int)[q],
    {
        let at: usize = start + 8 * k;
        let word: u64 = u64_from_le_bytes(vstd::slice::slice_subrange(bytes, at, at + 8));
        words.push(word);
    }
    proof {
        assert(words@ =~= words_at(bytes@, start as int, count as int));
    }
    words
}

/// Reads a snapshot from its bytes; bytes after the last column are
/// ignored.
pub fn decode_snapshot(bytes: &[u8]) -> (res: Result<SnapshotBodies, SnapshotError>)
    ensures
        match (res, decode_spec(bytes@)) {
            (Ok(b), Ok(cols)) => columns(b) == cols,
            (Err(e), Err(f)) => e == f,
            _ => false,
        },
{
    if bytes.len() < 4 {
        return Err(SnapshotError::UnexpectedEof);
    }
    if bytes[0] != 71u8 || bytes[1] != 65u8 || bytes[2] != 76u8 || bytes[3] != 88u8 {
        proof {
            if bytes@.subrange(0, 4) == magic() {
                assert(bytes@.subrange(0, 4)[0] == 71u8);
                assert(bytes@.subrange(0, 4)[1] == 65u8);
                assert(bytes@.subrange(0, 4)[2] == 76u8);
                assert(bytes@.subrange(0, 4)[3] == 88u8);
            }
        }
        return Err(SnapshotError::BadMagic);
    }
    proof {
        assert(bytes@.subrange(0, 4) =~= magic());
    }
    if bytes.len() < 8 {
        return Err(SnapshotError::UnexpectedEof);
    }
    let version: u32 = u32_from_le_bytes(vstd::slice::slice_subrange(bytes, 4, 8));
    if version != SNAPSHOT_VERSION {
        return Err(SnapshotError::UnsupportedVersion(version));
    }
    if bytes.len() < 24 {
        return Err(SnapshotError::UnexpectedEof);
    }
    let n64: u64 = u64_from_le_bytes(vstd::slice::slice_subrange(bytes, 8, 16));
    let room: usize = (bytes.len() - 24) / 56;
    proof {
        assert(room * 56 <= bytes.len() - 24 < room * 56 + 56);
    }
    if n64 > room as u64 {
        proof {
            assert(bytes@.len() < 24 + 56 * n64) by (nonlinear_arith)
                requires
                    n64 >= room + 1,
                    bytes@.len() - 24 < room * 56 + 56,
            ;
        }
        return Err(SnapshotError::UnexpectedEof);
    }
    let n: usize = n64 as usize;
    proof {
        assert(24 + 56 * n <= bytes@.len()) by (nonlinear_arith)
            requires
                n <= room,
                room * 56 <= bytes@.len() - 24,
        ;
    }
    let x: Vec<u64> = read_words(bytes, 24, n);
    let y: Vec<u64> = read_words(bytes, 24 + 8 * n, n);
    let vx: Vec<u64> = read_words(bytes, 24 + 16 * n, n);
    let vy: Vec<u64> = read_words(bytes, 24 + 24 * n, n);
    let mass: Vec<u64> = read_words(bytes, 24 + 32 * n, n);
    let ax: Vec<u64> = read_words(bytes, 24 + 40 * n, n);
    let ay: Vec<u64> = read_words(bytes, 24 + 48 * n, n);
    let bodies = SnapshotBodies { x, y, vx, vy, mass, ax, ay };
    proof {
        match decode_spec(bytes@) {
            Ok(cols) => {
                assert(columns(bodies) =~= cols);
            },
            Err(_) => {},
        }
    }
    Ok(bodies)
}

impl SnapshotError {
    /// The error as a sentence, as shown to a user.
    pub fn message(&self) -> (text: String)
        ensures
            match self {
                SnapshotError::Io(m) => text@ == "I/O error: "@ + m@,
                SnapshotError::BadMagic => text@ == "Invalid magic bytes (not a galax snapshot)"@,
                SnapshotError::UnsupportedVersion(v) => text@ == "Unsupported version: "@
                    + decimal(*v as nat),
                SnapshotError::UnexpectedEof => text@ == "Unexpected end of file"@,
            },
    {
        match self {
            SnapshotError::Io(m) => String::from_str("I/O error: ").concat(m.as_str()),
            SnapshotError::BadMagic => String::from_str("Invalid magic bytes (not a galax snapshot)"),
            SnapshotError::UnsupportedVersion(v) => {
                let digits: String = decimal_string(*v);
                String::from_str("Unsupported version: ").concat(digits.as_str())
            },
            SnapshotError::UnexpectedEof => String::from_str("Unexpected end of file"),
        }
    }
}

/// Decimal digits of `v`, most significant first, without leading zeros
/// ("0" for zero).
pub open spec fn decimal(v: nat) -> Seq<char>
    decreases v,
{
    if v < 10 {
        seq![digit_char(v)]
    } else {
        decimal(v / 10).push(digit_char(v % 10))
    }
}

/// The character of a digit.
pub open spec fn digit_char(d: nat) -> char {
    if d == 0 {
        '0'
    } else if d == 1 {
        '1'
    } else if d == 2 {
        '2'
    } else if d == 3 {
        '3'
    } else if d == 4 {
        '4'
    } else if d == 5 {
        '5'
    } else if d == 6 {
        '6'
    } else if d == 7 {
        '7'
    } else if d == 8 {
        '8'
    } else {
        '9'
    }
}

/// A digit as a one-character string.
fn digit_str(d: u32) -> (s: &'static str)
    requires
        d < 10,
    ensures
        s@ == seq![digit_char(d as nat)],
{
    proof {
        reveal_strlit("0");
        reveal_strlit("1");
        reveal_strlit("2");
        reveal_strlit("3");
        reveal_strlit("4");
        reveal_strlit("5");
        reveal_strlit("6");
        reveal_strlit("7");
        reveal_strlit("8");
        reveal_strlit("9");
    }
    if d == 0 {
        "0"
    } else if d == 1 {
        "1"
    } else if d == 2 {
        "2"
    } else if d == 3 {
        "3"
    } else if d == 4 {
        "4"
    } else if d == 5 {
        "5"
    } else if d == 6 {
        "6"
    } else if d == 7 {
        "7"
    } else if d == 8 {
        "8"
    } else {
        "9"
    }
}

/// `v` written in decimal.
fn decimal_string(v: u32) -> (s: String)
    ensures
        s@ == decimal(v as nat),
    decreases v,
{
    if v < 10 {
        String::from_str(digit_str(v))
    } else {
        let head: String = decimal_string(v / 10);
        head.concat(digit_str(v % 10))
    }
}

} // verus!
