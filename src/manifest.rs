use crate::tiered::TieredCompactionTask;
use vstd::prelude::*;

verus! {

/// A structural state transition of the engine, as logged in the manifest.
pub enum ManifestRecord {
    Flush(usize),
    NewMemtable(usize),
    Compaction(TieredCompactionTask, Vec<usize>),
}

/// Why a manifest's bytes cannot be replayed.
#[derive(Debug, PartialEq, Eq, Structural)]
pub enum ManifestError {
    /// The bytes end inside a frame.
    Truncated,
    /// A record's stored checksum differs from the checksum of its bytes.
    ChecksumMismatch,
}

/// The CRC32 checksum of a byte sequence.
pub uninterp spec fn crc32_of(b: Seq<u8>) -> u32;

/// Relies on crc32fast::hash: the CRC32 of the bytes, a function of the bytes alone.
#[verifier::external_body]
fn checksum(b: &[u8]) -> (r: u32)
    ensures
        r == crc32_of(b@),
{
    crc32fast::hash(b)
}

/// Big-endian encoding of a four-byte value.
pub open spec fn be32(x: u32) -> Seq<u8> {
    seq![(x >> 24u32) as u8, (x >> 16u32) as u8, (x >> 8u32) as u8, x as u8]
}

/// The four-byte big-endian value at the start of `b`.
pub open spec fn read32(b: Seq<u8>) -> u32 {
    ((b[0] as u32) << 24u32) | ((b[1] as u32) << 16u32) | ((b[2] as u32) << 8u32) | (b[3] as u32)
}

/// One frame of the manifest: length, record bytes, checksum of the record bytes.
pub open spec fn frame(payload: Seq<u8>) -> Seq<u8> {
    be32(payload.len() as u32) + payload + be32(crc32_of(payload))
}

/// The frames of the given records, back to back.
pub open spec fn frames(ps: Seq<Seq<u8>>) -> Seq<u8>
    decreases ps.len(),
{
    if ps.len() == 0 {
        Seq::empty()
    } else {
        frame(ps[0]) + frames(ps.skip(1))
    }
}

/// Each record's length fits the four-byte length field.
pub open spec fn payloads_fit(ps: Seq<Seq<u8>>) -> bool {
    forall|i: int| 0 <= i < ps.len() ==> #[trigger] ps[i].len() <= u32::MAX
}

/// The record bytes of a manifest, frame by frame, or the first fault met.
pub open spec fn parse_frames(b: Seq<u8>) -> Result<Seq<Seq<u8>>, ManifestError>
    decreases b.len(),
{
    if b.len() == 0 {
        Ok(Seq::empty())
    } else if b.len() < 4 {
        Err(ManifestError::Truncated)
    } else {
        let len = read32(b) as int;
        if b.len() < 8 + len {
            Err(ManifestError::Truncated)
        } else {
            let payload = b.subrange(4, 4 + len);
            if read32(b.subrange(4 + len, 8 + len)) != crc32_of(payload) {
                Err(ManifestError::ChecksumMismatch)
            } else {
                match parse_frames(b.skip(8 + len)) {
                    Ok(rest) => Ok(seq![payload] + rest),
                    Err(e) => Err(e),
                }
            }
        }
    }
}

/// The view of a list of byte buffers.
pub open spec fn buffers_view(v: Seq<Vec<u8>>) -> Seq<Seq<u8>> {
    v.map_values(|x: Vec<u8>| x@)
}

/// Reading back a written four-byte value gives the value.
proof fn lemma_be32_read32(x: u32)
    ensures
        read32(be32(x)) == x,
{
    let b = be32(x);
    let b0 = (x >> 24u32) as u8;
    let b1 = (x >> 16u32) as u8;
    let b2 = (x >> 8u32) as u8;
    let b3 = x as u8;
    assert(b[0] == b0 && b[1] == b1 && b[2] == b2 && b[3] == b3);
    assert(((b0 as u32) << 24u32) | ((b1 as u32) << 16u32) | ((b2 as u32) << 8u32) | (b3 as u32)
        == x) by (bit_vector)
        requires
            b0 == (x >> 24u32) as u8,
            b1 == (x >> 16u32) as u8,
            b2 == (x >> 8u32) as u8,
            b3 == x as u8,
    ;
}

/// A valid frame in front of other bytes is read as its record, then the rest.
proof fn lemma_parse_frame_front(p: Seq<u8>, rest: Seq<u8>)
    requires
        p.len() <= u32::MAX,
    ensures
        parse_frames(frame(p) + rest) == match parse_frames(rest) {
            Ok(r) => Ok(seq![p] + r),
            Err(e) => Err(e),
        },
{
    let b = frame(p) + rest;
    let len = p.len() as int;
    lemma_be32_read32(p.len() as u32);
    lemma_be32_read32(crc32_of(p));
    assert(b.subrange(0, 4) =~= be32(p.len() as u32));
    assert(read32(b) == read32(b.subrange(0, 4)));
    assert(b.subrange(4, 4 + len) =~= p);
    assert(b.subrange(4 + len, 8 + len) =~= be32(crc32_of(p)));
    assert(b.skip(8 + len) =~= rest);
}

/// Writing records as frames and parsing the bytes back yields the same records, in
/// the same order.
pub proof fn lemma_frames_round_trip(ps: Seq<Seq<u8>>)
    requires
        payloads_fit(ps),
    ensures
        parse_frames(frames(ps)) == Ok::<Seq<Seq<u8>>, ManifestError>(ps),
    decreases ps.len(),
{
    if ps.len() > 0 {
        assert(payloads_fit(ps.skip(1))) by {
            assert forall|i: int| 0 <= i < ps.skip(1).len() implies #[trigger] ps.skip(1)[i].len()
                <= u32::MAX by {
                assert(ps.skip(1)[i] == ps[i + 1]);
            }
        }
        lemma_frames_round_trip(ps.skip(1));
        assert(ps[0].len() <= u32::MAX);
        lemma_parse_frame_front(ps[0], frames(ps.skip(1)));
        assert(seq![ps[0]] + ps.skip(1) =~= ps);
    } else {
        assert(ps =~= Seq::<Seq<u8>>::empty());
    }
}

/// The frames of `ps`, except that the record bytes of frame `i` are replaced by `q`
/// while its length and checksum fields stay.
pub open spec fn frames_with_payload_replaced(ps: Seq<Seq<u8>>, i: int, q: Seq<u8>) -> Seq<u8> {
    frames(ps.take(i)) + (be32(ps[i].len() as u32) + q + be32(crc32_of(ps[i]))) + frames(
        ps.skip(i + 1),
    )
}

/// Replacing the record bytes of one frame by bytes of the same length whose checksum
/// differs makes parsing fail with a checksum mismatch, not return other records.
pub proof fn lemma_corrupted_record_rejected(ps: Seq<Seq<u8>>, i: int, q: Seq<u8>)
    requires
        payloads_fit(ps),
        0 <= i < ps.len(),
        q.len() == ps[i].len(),
        crc32_of(q) != crc32_of(ps[i]),
    ensures
        parse_frames(frames_with_payload_replaced(ps, i, q)) == Err::<Seq<Seq<u8>>, ManifestError>(
            ManifestError::ChecksumMismatch,
        ),
    decreases i,
{
    if i == 0 {
        assert(ps.take(0) =~= Seq::<Seq<u8>>::empty());
        let p = ps[0];
        let len = p.len() as int;
        let b = frames_with_payload_replaced(ps, 0, q);
        assert(b =~= be32(p.len() as u32) + q + be32(crc32_of(p)) + frames(ps.skip(1)));
        lemma_be32_read32(p.len() as u32);
        lemma_be32_read32(crc32_of(p));
        assert(b.subrange(0, 4) =~= be32(p.len() as u32));
        assert(read32(b) == read32(b.subrange(0, 4)));
        assert(b.subrange(4, 4 + len) =~= q);
        assert(b.subrange(4 + len, 8 + len) =~= be32(crc32_of(p)));
    } else {
        let tail = ps.skip(1);
        assert(payloads_fit(tail)) by {
            assert forall|j: int| 0 <= j < tail.len() implies #[trigger] tail[j].len()
                <= u32::MAX by {
                assert(tail[j] == ps[j + 1]);
            }
        }
        assert(tail[i - 1] == ps[i]);
        lemma_corrupted_record_rejected(tail, i - 1, q);
        assert(ps.take(i).skip(1) =~= tail.take(i - 1));
        assert(ps.take(i)[0] == ps[0]);
        assert(tail.skip(i) =~= ps.skip(i + 1));
        assert(frames(ps.take(i)) == frame(ps[0]) + frames(tail.take(i - 1)));
        assert(frames_with_payload_replaced(ps, i, q) =~= frame(ps[0])
            + frames_with_payload_replaced(tail, i - 1, q));
        assert(ps[0].len() <= u32::MAX);
        lemma_parse_frame_front(ps[0], frames_with_payload_replaced(tail, i - 1, q));
    }
}

/// Appends the big-endian bytes of a four-byte value.
fn put_u32(buf: &mut Vec<u8>, x: u32)
    ensures
        final(buf)@ == old(buf)@ + be32(x),
{
    buf.push((x >> 24u32) as u8);
    buf.push((x >> 16u32) as u8);
    buf.push((x >> 8u32) as u8);
    buf.push(x as u8);
    assert(final(buf)@ =~= old(buf)@ + be32(x));
}

/// Reads the four-byte big-endian value at `at`.
fn get_u32(b: &[u8], at: usize) -> (r: u32)
    requires
        at + 4 <= b@.len(),
    ensures
        r == read32(b@.subrange(at as int, at + 4)),
{
    let ghost s = b@.subrange(at as int, at + 4);
    assert(s[0] == b@[at as int] && s[1] == b@[at + 1] && s[2] == b@[at + 2] && s[3] == b@[at
        + 3]);
    ((b[at] as u32) << 24u32) | ((b[at + 1] as u32) << 16u32) | ((b[at + 2] as u32) << 8u32) | (
    b[at + 3] as u32)
}

/// Frames one serialized record for the manifest: its length, its bytes, and the
/// CRC32 of its bytes.
pub fn encode_frame(payload: &[u8]) -> (r: Vec<u8>)
    requires
        payload@.len() <= u32::MAX,
    ensures
        r@ == frame(payload@),
{
    let mut buf: Vec<u8> = Vec::new();
    put_u32(&mut buf, payload.len() as u32);
    let mut i: usize = 0;
    while i < payload.len()
        invariant
            i <= payload@.len(),
            buf@ == be32(payload@.len() as u32) + payload@.take(i as int),
        decreases payload@.len() - i,
    {
        buf.push(payload[i]);
        assert(buf@ =~= be32(payload@.len() as u32) + payload@.take(i + 1));
        i = i + 1;
    }
    assert(payload@.take(payload@.len() as int) =~= payload@);
    let crc = checksum(payload);
    put_u32(&mut buf, crc);
    buf
}

/// Splits the bytes of a manifest into the serialized records of its frames, checking
/// each record against its checksum. Any fault fails the whole recovery.
pub fn decode_frames(buf: &[u8]) -> (r: Result<Vec<Vec<u8>>, ManifestError>)
    ensures
        match r {
            Ok(v) => parse_frames(buf@) == Ok::<Seq<Seq<u8>>, ManifestError>(buffers_view(v@)),
            Err(e) => parse_frames(buf@) == Err::<Seq<Seq<u8>>, ManifestError>(e),
        },
{
    let mut records: Vec<Vec<u8>> = Vec::new();
    let mut pos: usize = 0;
    let len = buf.len();
    assert(buf@.skip(0) =~= buf@);
    proof {
        match parse_frames(buf@) {
            Ok(rest) => {
                assert(buffers_view(records@) + rest =~= rest);
            },
            Err(e) => {},
        }
    }
    while pos < len
        invariant
            len == buf@.len(),
            pos <= len,
            parse_frames(buf@) == match parse_frames(buf@.skip(pos as int)) {
                Ok(rest) => Ok(buffers_view(records@) + rest),
                Err(e) => Err(e),
            },
        decreases len - pos,
    {
        let ghost b = buf@.skip(pos as int);
        if len - pos < 4 {
            return Err(ManifestError::Truncated);
        }
        let record_len = get_u32(buf, pos) as usize;
        assert(buf@.subrange(pos as int, pos + 4) =~= b.subrange(0, 4));
        assert(read32(b) == read32(b.subrange(0, 4)));
        if len - pos - 4 < record_len || len - pos - 4 - record_len < 4 {
            return Err(ManifestError::Truncated);
        }
        let start = pos + 4;
        let mut record: Vec<u8> = Vec::new();
        let mut j: usize = 0;
        while j < record_len
            invariant
                len == buf@.len(),
                start + record_len <= buf@.len(),
                j <= record_len,
                record@ == buf@.subrange(start as int, start + j),
            decreases record_len - j,
        {
            record.push(buf[start + j]);
            assert(record@ =~= buf@.subrange(start as int, start + j + 1));
            j = j + 1;
        }
        let stored = get_u32(buf, start + record_len);
        let computed = checksum(record.as_slice());
        assert(record@ =~= b.subrange(4, 4 + record_len));
        assert(buf@.subrange(start + record_len, start + record_len + 4) =~= b.subrange(
            4 + record_len,
            8 + record_len,
        ));
        if stored != computed {
            return Err(ManifestError::ChecksumMismatch);
        }
        let ghost before = buffers_view(records@);
        records.push(record);
        assert(buffers_view(records@) =~= before + seq![b.subrange(4, 4 + record_len)]);
        assert(b.skip(8 + record_len) =~= buf@.skip(start + record_len + 4));
        pos = start + record_len + 4;
        proof {
            match parse_frames(buf@.skip(pos as int)) {
                Ok(rest) => {
                    assert(before + (seq![b.subrange(4, 4 + record_len)] + rest) =~= buffers_view(
                        records@,
                    ) + rest);
                },
                Err(e) => {},
            }
        }
    }
    assert(buf@.skip(len as int) =~= Seq::<u8>::empty());
    assert(buffers_view(records@) + Seq::<Seq<u8>>::empty() =~= buffers_view(records@));
    Ok(records)
}

} // verus!
