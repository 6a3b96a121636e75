use vstd::prelude::*;

verus! {

/// Size in bytes of a length, an offset or the entry count.
pub const SIZEOF_U16: usize = 2;

/// The largest value of a two-byte field.
pub const MAX_U16: usize = 0xFFFF;

/// A key-value entry, as byte sequences.
pub type Entry = (Seq<u8>, Seq<u8>);

/// Big-endian encoding of a two-byte value.
pub open spec fn be16(x: int) -> Seq<u8> {
    seq![(x / 256) as u8, (x % 256) as u8]
}

/// The two-byte big-endian value at position `i` of `b`.
pub open spec fn read16(b: Seq<u8>, i: int) -> int {
    b[i] as int * 256 + b[i + 1] as int
}

/// One entry: key length, key, value length, value.
pub open spec fn encode_entry(e: Entry) -> Seq<u8> {
    be16(e.0.len() as int) + e.0 + be16(e.1.len() as int) + e.1
}

/// The data section of a block holding `es`.
pub open spec fn encode_entries(es: Seq<Entry>) -> Seq<u8>
    decreases es.len(),
{
    if es.len() == 0 {
        Seq::empty()
    } else {
        encode_entries(es.drop_last()) + encode_entry(es.last())
    }
}

/// Where entry `i` of `es` starts in the data section.
pub open spec fn entry_offset(es: Seq<Entry>, i: int) -> int {
    encode_entries(es.take(i)).len() as int
}

/// The size that a block holding `es` is charged with: data, offsets and entry count.
pub open spec fn estimated_size(es: Seq<Entry>) -> int {
    encode_entries(es).len() + SIZEOF_U16 * es.len() + SIZEOF_U16
}

/// Whether a builder holding `es`, with target `block_size`, takes entry `e`.
pub open spec fn accepts(es: Seq<Entry>, e: Entry, block_size: int) -> bool {
    es.len() == 0 || estimated_size(es.push(e)) < block_size
}

/// The offset section's bytes.
pub open spec fn encode_offsets(offsets: Seq<u16>) -> Seq<u8>
    decreases offsets.len(),
{
    if offsets.len() == 0 {
        Seq::empty()
    } else {
        encode_offsets(offsets.drop_last()) + be16(offsets.last() as int)
    }
}

/// The byte layout of a block: data section, offset section, entry count.
pub open spec fn block_bytes(data: Seq<u8>, offsets: Seq<u16>) -> Seq<u8> {
    data + encode_offsets(offsets) + be16(offsets.len() as int)
}

/// Splits bytes into data section and offsets, or `None` where they are too short
/// for the entry count that their last two bytes give.
pub open spec fn decode_block(b: Seq<u8>) -> Option<(Seq<u8>, Seq<u16>)> {
    if b.len() < 2 {
        None
    } else {
        let count = read16(b, b.len() - 2);
        let data_len = b.len() - 2 - 2 * count;
        if data_len < 0 {
            None
        } else {
            Some(
                (
                    b.take(data_len),
                    Seq::new(count as nat, |i: int| read16(b, data_len + 2 * i) as u16),
                ),
            )
        }
    }
}

/// The entry that starts at `off` in a data section.
pub open spec fn parse_entry(data: Seq<u8>, off: int) -> Entry {
    let key_len = read16(data, off);
    let value_len = read16(data, off + 2 + key_len);
    (
        data.subrange(off + 2, off + 2 + key_len),
        data.subrange(off + 4 + key_len, off + 4 + key_len + value_len),
    )
}

/// Each key and value fits a two-byte length.
pub open spec fn entries_fit(es: Seq<Entry>) -> bool {
    forall|i: int|
        0 <= i < es.len() ==> #[trigger] es[i].0.len() <= MAX_U16 && es[i].1.len() <= MAX_U16
}

/// An immutable block: the data section and the offset of each entry in it.
pub struct Block {
    pub data: Vec<u8>,
    pub offsets: Vec<u16>,
}

/// Builds a block.
pub struct BlockBuilder {
    /// Offsets of each key-value entry.
    offsets: Vec<u16>,
    /// All serialized key-value pairs in the block.
    data: Vec<u8>,
    /// The expected block size.
    block_size: usize,
    /// The first key in the block.
    first_key: Vec<u8>,
    /// The entries added so far.
    entries: Ghost<Seq<Entry>>,
}

/// Every entry takes at least four bytes.
proof fn lemma_encode_entries_len(es: Seq<Entry>)
    ensures
        encode_entries(es).len() >= 4 * es.len(),
    decreases es.len(),
{
    if es.len() > 0 {
        lemma_encode_entries_len(es.drop_last());
    }
}

/// The data section of a prefix of the entries is a prefix of the data section.
proof fn lemma_encode_prefix(es: Seq<Entry>, j: int)
    requires
        0 <= j <= es.len(),
    ensures
        encode_entries(es.take(j)) == encode_entries(es).take(encode_entries(es.take(j)).len() as int),
        encode_entries(es.take(j)).len() <= encode_entries(es).len(),
    decreases es.len(),
{
    if j == es.len() {
        assert(es.take(j) =~= es);
        assert(encode_entries(es).take(encode_entries(es).len() as int) =~= encode_entries(es));
    } else {
        lemma_encode_prefix(es.drop_last(), j);
        assert(es.drop_last().take(j) =~= es.take(j));
        let a = encode_entries(es.take(j));
        let whole = encode_entries(es);
        assert(whole == encode_entries(es.drop_last()) + encode_entry(es.last()));
        assert(whole.take(a.len() as int) =~= encode_entries(es.drop_last()).take(a.len() as int));
    }
}

/// Estimated sizes grow with the prefix.
proof fn lemma_estimate_monotone(es: Seq<Entry>, j: int)
    requires
        0 <= j <= es.len(),
    ensures
        estimated_size(es.take(j)) <= estimated_size(es),
{
    lemma_encode_prefix(es, j);
}

/// Entry `i` is encoded right at its offset.
proof fn lemma_entry_at_offset(es: Seq<Entry>, i: int)
    requires
        0 <= i < es.len(),
    ensures
        encode_entries(es.take(i + 1)) == encode_entries(es.take(i)) + encode_entry(es[i]),
        entry_offset(es, i) + encode_entry(es[i]).len() <= encode_entries(es).len(),
        encode_entries(es).subrange(
            entry_offset(es, i),
            entry_offset(es, i) + encode_entry(es[i]).len(),
        ) == encode_entry(es[i]),
{
    assert(es.take(i + 1).drop_last() =~= es.take(i));
    lemma_encode_prefix(es, i + 1);
    let whole = encode_entries(es);
    let pre = encode_entries(es.take(i + 1));
    assert(whole.subrange(entry_offset(es, i), entry_offset(es, i) + encode_entry(es[i]).len())
        =~= pre.subrange(entry_offset(es, i), pre.len() as int));
}

/// Parsing at the offset of entry `i` gives entry `i` back.
proof fn lemma_parse_entry(es: Seq<Entry>, i: int)
    requires
        0 <= i < es.len(),
        entries_fit(es),
    ensures
        parse_entry(encode_entries(es), entry_offset(es, i)) == es[i],
{
    lemma_entry_at_offset(es, i);
    let data = encode_entries(es);
    let off = entry_offset(es, i);
    let e = es[i];
    let enc = encode_entry(e);
    assert(e.0.len() <= MAX_U16 && e.1.len() <= MAX_U16);
    let kl = e.0.len() as int;
    let vl = e.1.len() as int;
    assert(data.subrange(off, off + enc.len()) == enc);
    assert(data[off] == enc[0] && data[off + 1] == enc[1]);
    assert(read16(data, off) == kl);
    assert(data[off + 2 + kl] == enc[2 + kl] && data[off + 3 + kl] == enc[3 + kl]);
    assert(read16(data, off + 2 + kl) == vl);
    assert(data.subrange(off + 2, off + 2 + kl) =~= enc.subrange(2, 2 + kl));
    assert(enc.subrange(2, 2 + kl) =~= e.0);
    assert(data.subrange(off + 4 + kl, off + 4 + kl + vl) =~= enc.subrange(4 + kl, 4 + kl + vl));
    assert(enc.subrange(4 + kl, 4 + kl + vl) =~= e.1);
}

/// The offset section holds each offset as two big-endian bytes.
proof fn lemma_encode_offsets(offsets: Seq<u16>)
    ensures
        encode_offsets(offsets).len() == 2 * offsets.len(),
        forall|i: int|
            0 <= i < offsets.len() ==> read16(encode_offsets(offsets), 2 * i) == #[trigger] offsets[i]
                as int,
    decreases offsets.len(),
{
    if offsets.len() > 0 {
        let pre = offsets.drop_last();
        lemma_encode_offsets(pre);
        let enc = encode_offsets(offsets);
        assert forall|i: int| 0 <= i < offsets.len() implies read16(enc, 2 * i)
            == #[trigger] offsets[i] as int by {
            if i < pre.len() {
                assert(enc[2 * i] == encode_offsets(pre)[2 * i]);
                assert(enc[2 * i + 1] == encode_offsets(pre)[2 * i + 1]);
                assert(pre[i] == offsets[i]);
            } else {
                let x = offsets[i] as int;
                assert(enc[2 * i] == (x / 256) as u8);
                assert(enc[2 * i + 1] == (x % 256) as u8);
            }
        }
    }
}

/// Parsing the byte layout of a block gives back its data section and offsets.
pub proof fn lemma_block_bytes_round_trip(data: Seq<u8>, offsets: Seq<u16>)
    requires
        offsets.len() <= MAX_U16,
    ensures
        decode_block(block_bytes(data, offsets)) == Some((data, offsets)),
{
    lemma_encode_offsets(offsets);
    let b = block_bytes(data, offsets);
    let n = offsets.len() as int;
    let enc = encode_offsets(offsets);
    assert(b[b.len() - 2] == (n / 256) as u8);
    assert(b[b.len() - 1] == (n % 256) as u8);
    assert(read16(b, b.len() - 2) == n);
    assert(b.take(data.len() as int) =~= data);
    let decoded = Seq::new(n as nat, |i: int| read16(b, data.len() + 2 * i) as u16);
    assert forall|i: int| 0 <= i < n implies decoded[i] == offsets[i] by {
        assert(b[data.len() + 2 * i] == enc[2 * i]);
        assert(b[data.len() + 2 * i + 1] == enc[2 * i + 1]);
        assert(read16(enc, 2 * i) == offsets[i] as int);
    }
    assert(decoded =~= offsets);
}

/// Adding entries whose block stays under the target size: every add is accepted,
/// and each entry can be read back at its offset.
pub proof fn lemma_adds_under_target(es: Seq<Entry>, block_size: int)
    requires
        entries_fit(es),
        estimated_size(es) < block_size,
    ensures
        forall|i: int| 0 <= i < es.len() ==> #[trigger] accepts(es.take(i), es[i], block_size),
        forall|i: int|
            0 <= i < es.len() ==> #[trigger] parse_entry(encode_entries(es), entry_offset(es, i))
                == es[i],
{
    assert forall|i: int| 0 <= i < es.len() implies #[trigger] accepts(
        es.take(i),
        es[i],
        block_size,
    ) by {
        assert(es.take(i).push(es[i]) =~= es.take(i + 1));
        lemma_estimate_monotone(es, i + 1);
    }
    assert forall|i: int| 0 <= i < es.len() implies #[trigger] parse_entry(
        encode_entries(es),
        entry_offset(es, i),
    ) == es[i] by {
        lemma_parse_entry(es, i);
    }
}

/// A built block, written out as bytes and parsed back, yields the entries that were
/// added, in order.
pub proof fn lemma_block_entries_round_trip(es: Seq<Entry>, offsets: Seq<u16>)
    requires
        entries_fit(es),
        es.len() <= MAX_U16,
        offsets.len() == es.len(),
        forall|i: int| 0 <= i < es.len() ==> #[trigger] offsets[i] as int == entry_offset(es, i),
    ensures
        decode_block(block_bytes(encode_entries(es), offsets)) matches Some((data, offs)) && offs.len()
            == es.len() && forall|i: int|
            0 <= i < es.len() ==> #[trigger] parse_entry(data, offs[i] as int) == es[i],
{
    lemma_block_bytes_round_trip(encode_entries(es), offsets);
    assert forall|i: int| 0 <= i < es.len() implies #[trigger] parse_entry(
        encode_entries(es),
        offsets[i] as int,
    ) == es[i] by {
        lemma_parse_entry(es, i);
    }
}

/// Appends the big-endian bytes of a two-byte value.
fn put_u16(buf: &mut Vec<u8>, x: u16)
    ensures
        final(buf)@ == old(buf)@ + be16(x as int),
{
    buf.push((x / 256) as u8);
    buf.push((x % 256) as u8);
    assert(final(buf)@ =~= old(buf)@ + be16(x as int));
}

/// Appends bytes.
fn put_slice(buf: &mut Vec<u8>, src: &[u8])
    ensures
        final(buf)@ == old(buf)@ + src@,
{
    let mut i: usize = 0;
    while i < src.len()
        invariant
            i <= src@.len(),
            buf@ == old(buf)@ + src@.take(i as int),
        decreases src@.len() - i,
    {
        buf.push(src[i]);
        assert(buf@ =~= old(buf)@ + src@.take(i + 1));
        i = i + 1;
    }
    assert(src@.take(src@.len() as int) =~= src@);
}

impl Block {
    /// Writes the block out: data section, offset section, entry count.
    pub fn encode(&self) -> (r: Vec<u8>)
        requires
            self.offsets@.len() <= MAX_U16,
        ensures
            r@ == block_bytes(self.data@, self.offsets@),
    {
        let mut buf: Vec<u8> = Vec::new();
        put_slice(&mut buf, self.data.as_slice());
        let mut i: usize = 0;
        while i < self.offsets.len()
            invariant
                i <= self.offsets@.len(),
                buf@ == self.data@ + encode_offsets(self.offsets@.take(i as int)),
            decreases self.offsets@.len() - i,
        {
            put_u16(&mut buf, self.offsets[i]);
            assert(self.offsets@.take(i + 1).drop_last() =~= self.offsets@.take(i as int));
            i = i + 1;
        }
        assert(self.offsets@.take(self.offsets@.len() as int) =~= self.offsets@);
        put_u16(&mut buf, self.offsets.len() as u16);
        buf
    }

    /// Parses a block from its bytes; `None` where they are too short for the entry
    /// count that they end with.
    pub fn decode(bytes: &[u8]) -> (r: Option<Block>)
        ensures
            match decode_block(bytes@) {
                None => r is None,
                Some((data, offsets)) => r matches Some(b) && b.data@ == data && b.offsets@
                    == offsets,
            },
    {
        let len = bytes.len();
        if len < 2 {
            return None;
        }
        let count = bytes[len - 2] as usize * 256 + bytes[len - 1] as usize;
        if 2 + 2 * count > len {
            return None;
        }
        let data_len = len - 2 - 2 * count;
        let mut data: Vec<u8> = Vec::new();
        let mut j: usize = 0;
        while j < data_len
            invariant
                data_len <= bytes@.len(),
                j <= data_len,
                data@ == bytes@.take(j as int),
            decreases data_len - j,
        {
            data.push(bytes[j]);
            assert(data@ =~= bytes@.take(j + 1));
            j = j + 1;
        }
        let mut offsets: Vec<u16> = Vec::new();
        let mut i: usize = 0;
        while i < count
            invariant
                len == bytes@.len(),
                data_len + 2 * count + 2 == len,
                i <= count,
                offsets@.len() == i,
                forall|k: int|
                    0 <= k < i ==> #[trigger] offsets@[k] == read16(bytes@, data_len + 2 * k)
                        as u16,
            decreases count - i,
        {
            let at = data_len + 2 * i;
            let x = bytes[at] as u16 * 256 + bytes[at + 1] as u16;
            offsets.push(x);
            i = i + 1;
        }
        let ghost expected = decode_block(bytes@).unwrap().1;
        assert(offsets@ =~= expected);
        assert(data@ =~= bytes@.take(data_len as int));
        Some(Block { data, offsets })
    }
}

impl BlockBuilder {
    /// The entries added so far, in order.
    pub closed spec fn entries(&self) -> Seq<Entry> {
        self.entries@
    }

    /// The target block size.
    pub closed spec fn block_size(&self) -> int {
        self.block_size as int
    }

    /// The first key added, if any.
    pub closed spec fn first_key(&self) -> Seq<u8> {
        self.first_key@
    }

    /// The data section and offsets encode the entries added so far.
    pub closed spec fn wf(&self) -> bool {
        let es = self.entries@;
        &&& self.block_size <= MAX_U16 + 1
        &&& entries_fit(es)
        &&& self.data@ == encode_entries(es)
        &&& self.offsets@.len() == es.len()
        &&& forall|i: int|
            0 <= i < es.len() ==> #[trigger] self.offsets@[i] as int == entry_offset(es, i)
        &&& es.len() > 1 ==> estimated_size(es) < self.block_size
        &&& es.len() > 0 ==> self.first_key@ == es[0].0
    }

    /// Creates a new block builder. Offsets are two bytes wide, so a target block
    /// size reaches at most one past the largest offset.
    pub fn new(block_size: usize) -> (r: Self)
        requires
            block_size <= MAX_U16 + 1,
        ensures
            r.wf(),
            r.entries() == Seq::<Entry>::empty(),
            r.block_size() == block_size,
    {
        Self {
            offsets: Vec::new(),
            data: Vec::new(),
            block_size,
            first_key: Vec::new(),
            entries: Ghost(Seq::empty()),
        }
    }

    /// Size of the block if it were built now.
    fn estimated_size(&self) -> (r: usize)
        requires
            self.wf(),
        ensures
            r == estimated_size(self.entries()),
    {
        proof {
            self.lemma_data_bound();
        }
        self.data.len() + self.offsets.len() * SIZEOF_U16 + SIZEOF_U16
    }

    /// A builder's data stays within two maximal entries.
    proof fn lemma_data_bound(&self)
        requires
            self.wf(),
        ensures
            self.data@.len() <= 2 * MAX_U16 + 4,
            self.offsets@.len() <= self.data@.len(),
    {
        let es = self.entries@;
        lemma_encode_entries_len(es);
        if es.len() == 1 {
            assert(es.drop_last() =~= Seq::<Entry>::empty());
            assert(es[0].0.len() <= MAX_U16 && es[0].1.len() <= MAX_U16);
            assert(encode_entries(es) == encode_entries(es.drop_last()) + encode_entry(es[0]));
            assert(encode_entries(es.drop_last()).len() == 0);
        }
    }

    /// Adds a key-value pair to the block. Returns false when the block is full:
    /// when it already holds an entry and would reach its target size with this one.
    pub fn add(&mut self, key: &[u8], value: &[u8]) -> (accepted: bool)
        requires
            old(self).wf(),
            key@.len() <= MAX_U16,
            value@.len() <= MAX_U16,
        ensures
            final(self).wf(),
            accepted == accepts(old(self).entries(), (key@, value@), old(self).block_size()),
            accepted ==> final(self).entries() == old(self).entries().push((key@, value@)),
            !accepted ==> final(self).entries() == old(self).entries(),
            old(self).entries().len() == 0 ==> accepted,
            final(self).block_size() == old(self).block_size(),
            final(self).entries().len() > 0 ==> final(self).first_key()
                == final(self).entries()[0].0,
    {
        proof {
            self.lemma_data_bound();
        }
        let ghost es = self.entries@;
        let ghost e: Entry = (key@, value@);
        let total_size = self.estimated_size() + key.len() + value.len() + 3 * SIZEOF_U16;
        proof {
            let ne = es.push(e);
            assert(ne.drop_last() =~= es);
            assert(encode_entry(e).len() == key@.len() + value@.len() + 4);
        }
        if total_size >= self.block_size && !self.is_empty() {
            return false;
        }
        if self.data.len() == 0 {
            let mut first_key: Vec<u8> = Vec::new();
            put_slice(&mut first_key, key);
            assert(first_key@ =~= key@);
            self.first_key = first_key;
        }
        let ghost old_data = self.data@;
        let offset = self.data.len() as u16;
        self.offsets.push(offset);
        put_u16(&mut self.data, key.len() as u16);
        put_slice(&mut self.data, key);
        put_u16(&mut self.data, value.len() as u16);
        put_slice(&mut self.data, value);
        self.entries = Ghost(es.push(e));
        proof {
            let ne = es.push(e);
            assert(ne.drop_last() =~= es);
            assert(self.data@ =~= old_data + encode_entry(e));
            assert forall|i: int| 0 <= i < ne.len() implies #[trigger] self.offsets@[i] as int
                == entry_offset(ne, i) by {
                assert(ne.take(i) =~= es.take(i) || i == es.len());
                if i == es.len() {
                    assert(ne.take(i) =~= es);
                    assert(es.take(i) =~= es);
                } else {
                    assert(ne.take(i) =~= es.take(i));
                }
            }
            assert(forall|i: int| 0 <= i < ne.len() ==> #[trigger] ne[i] == if i < es.len() {
                es[i]
            } else {
                e
            });
            if es.len() == 0 {
                lemma_encode_entries_len(es);
            }
        }
        true
    }

    /// Checks if there is no key-value pair in the block.
    pub fn is_empty(&self) -> (r: bool)
        requires
            self.wf(),
        ensures
            r == (self.entries().len() == 0),
    {
        proof {
            lemma_encode_entries_len(self.entries@);
        }
        self.data.len() == 0
    }

    /// Finalizes the block. Building an empty block is a programming error.
    pub fn build(self) -> (r: Block)
        requires
            self.wf(),
            self.entries().len() > 0,
        ensures
            self.entries().len() <= MAX_U16,
            r.data@ == encode_entries(self.entries()),
            r.offsets@.len() == self.entries().len(),
            forall|i: int|
                0 <= i < self.entries().len() ==> #[trigger] r.offsets@[i] as int == entry_offset(
                    self.entries(),
                    i,
                ),
    {
        proof {
            self.lemma_data_bound();
            lemma_encode_entries_len(self.entries@);
        }
        Block { data: self.data, offsets: self.offsets }
    }
}

} // verus!
