//! The background music property container: loop points and lengths of the
//! music streams, behind the magic `PMGB`.

use vstd::prelude::*;
use crate::error::Error;
use crate::hash::Hash40;
use crate::le::{
    get_u32, get_u64, lemma_u32_bytes_of_value, lemma_u32_value_of_bytes,
    lemma_u64_bytes_of_value, lemma_u64_value_of_bytes, put_u32, put_u64, u32_bytes, u32_value,
    u64_bytes, u64_value,
};
use crate::record::{
    lemma_encode_records_len, lemma_read_write, lemma_write_read, lemma_written_count,
    read_container, spec_read, spec_write, write_container, Record,
};

verus! {

/// The playback properties of one music stream. Nothing is asked of the
/// numbers: a loop may end before it starts.
#[derive(Debug, Clone, Copy, PartialEq, Eq, Structural)]
pub struct BgmPropertyEntry {
    /// Hashed name of the stream.
    pub name_id: Hash40,
    pub unknown1: u32,
    /// The sample at which the loop starts.
    pub loop_start_sample: u32,
    pub unknown_sample: u32,
    /// The sample at which the loop ends.
    pub loop_end_sample: u32,
    pub unknown2: u32,
    /// The number of samples of the stream.
    pub total_samples: u32,
    /// The four reserved bytes that close the record, read as one number.
    /// They are written as they were read.
    pub padding: u32,
}

impl BgmPropertyEntry {
    /// A fresh entry; its reserved bytes are zero.
    pub fn new(
        name_id: Hash40,
        unknown1: u32,
        loop_start_sample: u32,
        unknown_sample: u32,
        loop_end_sample: u32,
        unknown2: u32,
        total_samples: u32,
    ) -> (entry: Self)
        ensures
            entry == (BgmPropertyEntry {
                name_id,
                unknown1,
                loop_start_sample,
                unknown_sample,
                loop_end_sample,
                unknown2,
                total_samples,
                padding: 0,
            }),
    {
        BgmPropertyEntry {
            name_id,
            unknown1,
            loop_start_sample,
            unknown_sample,
            loop_end_sample,
            unknown2,
            total_samples,
            padding: 0,
        }
    }
}

impl Record for BgmPropertyEntry {
    open spec fn spec_width() -> nat {
        36
    }

    open spec fn spec_encode(&self) -> Seq<u8> {
        u64_bytes(self.name_id) + u32_bytes(self.unknown1) + u32_bytes(self.loop_start_sample)
            + u32_bytes(self.unknown_sample) + u32_bytes(self.loop_end_sample) + u32_bytes(
            self.unknown2,
        ) + u32_bytes(self.total_samples) + u32_bytes(self.padding)
    }

    open spec fn spec_decode(bytes: Seq<u8>) -> Self {
        BgmPropertyEntry {
            name_id: u64_value(bytes.subrange(0, 8)),
            unknown1: u32_value(bytes.subrange(8, 12)),
            loop_start_sample: u32_value(bytes.subrange(12, 16)),
            unknown_sample: u32_value(bytes.subrange(16, 20)),
            loop_end_sample: u32_value(bytes.subrange(20, 24)),
            unknown2: u32_value(bytes.subrange(24, 28)),
            total_samples: u32_value(bytes.subrange(28, 32)),
            padding: u32_value(bytes.subrange(32, 36)),
        }
    }

    open spec fn spec_name(&self) -> u64 {
        self.name_id
    }

    open spec fn spec_with_name(&self, name: u64) -> Self {
        BgmPropertyEntry {
            name_id: name,
            unknown1: self.unknown1,
            loop_start_sample: self.loop_start_sample,
            unknown_sample: self.unknown_sample,
            loop_end_sample: self.loop_end_sample,
            unknown2: self.unknown2,
            total_samples: self.total_samples,
            padding: self.padding,
        }
    }

    proof fn lemma_width_positive() {
    }

    proof fn lemma_encode_width(&self) {
        lemma_u64_value_of_bytes(self.name_id);
        lemma_u32_value_of_bytes(self.unknown1);
        lemma_u32_value_of_bytes(self.loop_start_sample);
        lemma_u32_value_of_bytes(self.unknown_sample);
        lemma_u32_value_of_bytes(self.loop_end_sample);
        lemma_u32_value_of_bytes(self.unknown2);
        lemma_u32_value_of_bytes(self.total_samples);
        lemma_u32_value_of_bytes(self.padding);
    }

    proof fn lemma_decode_encode(&self) {
        let bytes = self.spec_encode();
        lemma_u64_value_of_bytes(self.name_id);
        lemma_u32_value_of_bytes(self.unknown1);
        lemma_u32_value_of_bytes(self.loop_start_sample);
        lemma_u32_value_of_bytes(self.unknown_sample);
        lemma_u32_value_of_bytes(self.loop_end_sample);
        lemma_u32_value_of_bytes(self.unknown2);
        lemma_u32_value_of_bytes(self.total_samples);
        lemma_u32_value_of_bytes(self.padding);
        assert(bytes.subrange(0, 8) =~= u64_bytes(self.name_id));
        assert(bytes.subrange(8, 12) =~= u32_bytes(self.unknown1));
        assert(bytes.subrange(12, 16) =~= u32_bytes(self.loop_start_sample));
        assert(bytes.subrange(16, 20) =~= u32_bytes(self.unknown_sample));
        assert(bytes.subrange(20, 24) =~= u32_bytes(self.loop_end_sample));
        assert(bytes.subrange(24, 28) =~= u32_bytes(self.unknown2));
        assert(bytes.subrange(28, 32) =~= u32_bytes(self.total_samples));
        assert(bytes.subrange(32, 36) =~= u32_bytes(self.padding));
    }

    proof fn lemma_encode_decode(bytes: Seq<u8>) {
        lemma_u64_bytes_of_value(bytes.subrange(0, 8));
        lemma_u32_bytes_of_value(bytes.subrange(8, 12));
        lemma_u32_bytes_of_value(bytes.subrange(12, 16));
        lemma_u32_bytes_of_value(bytes.subrange(16, 20));
        lemma_u32_bytes_of_value(bytes.subrange(20, 24));
        lemma_u32_bytes_of_value(bytes.subrange(24, 28));
        lemma_u32_bytes_of_value(bytes.subrange(28, 32));
        lemma_u32_bytes_of_value(bytes.subrange(32, 36));
        assert(Self::spec_decode(bytes).spec_encode() =~= bytes);
    }

    proof fn lemma_with_name(&self, name: u64) {
    }

    fn width() -> (w: usize) {
        36
    }

    fn encode(&self, out: &mut Vec<u8>) {
        put_u64(out, self.name_id);
        put_u32(out, self.unknown1);
        put_u32(out, self.loop_start_sample);
        put_u32(out, self.unknown_sample);
        put_u32(out, self.loop_end_sample);
        put_u32(out, self.unknown2);
        put_u32(out, self.total_samples);
        put_u32(out, self.padding);
        assert(out@ =~= old(out)@ + self.spec_encode());
    }

    fn decode(bytes: &[u8], at: usize) -> (r: Self) {
        let total: usize = bytes.len();
        let name_id: u64 = get_u64(bytes, at);
        let unknown1: u32 = get_u32(bytes, at + 8);
        let loop_start_sample: u32 = get_u32(bytes, at + 12);
        let unknown_sample: u32 = get_u32(bytes, at + 16);
        let loop_end_sample: u32 = get_u32(bytes, at + 20);
        let unknown2: u32 = get_u32(bytes, at + 24);
        let total_samples: u32 = get_u32(bytes, at + 28);
        let padding: u32 = get_u32(bytes, at + 32);
        proof {
            let field = bytes@.subrange(at as int, at + 36);
            assert(field.subrange(0, 8) =~= bytes@.subrange(at as int, at + 8));
            assert(field.subrange(8, 12) =~= bytes@.subrange(at + 8, at + 12));
            assert(field.subrange(12, 16) =~= bytes@.subrange(at + 12, at + 16));
            assert(field.subrange(16, 20) =~= bytes@.subrange(at + 16, at + 20));
            assert(field.subrange(20, 24) =~= bytes@.subrange(at + 20, at + 24));
            assert(field.subrange(24, 28) =~= bytes@.subrange(at + 24, at + 28));
            assert(field.subrange(28, 32) =~= bytes@.subrange(at + 28, at + 32));
            assert(field.subrange(32, 36) =~= bytes@.subrange(at + 32, at + 36));
        }
        BgmPropertyEntry {
            name_id,
            unknown1,
            loop_start_sample,
            unknown_sample,
            loop_end_sample,
            unknown2,
            total_samples,
            padding,
        }
    }

    fn name(&self) -> (n: u64) {
        self.name_id
    }

    fn with_name(&self, name: u64) -> (r: Self) {
        BgmPropertyEntry {
            name_id: name,
            unknown1: self.unknown1,
            loop_start_sample: self.loop_start_sample,
            unknown_sample: self.unknown_sample,
            loop_end_sample: self.loop_end_sample,
            unknown2: self.unknown2,
            total_samples: self.total_samples,
            padding: self.padding,
        }
    }
}

/// The four bytes that open the container: `PMGB`.
pub open spec fn spec_magic() -> Seq<u8> {
    seq![0x50u8, 0x4du8, 0x47u8, 0x42u8]
}

/// The four bytes that open the container: `PMGB`.
pub fn magic() -> (m: Vec<u8>)
    ensures
        m@ == spec_magic(),
{
    let m: Vec<u8> = vec![0x50u8, 0x4du8, 0x47u8, 0x42u8];
    assert(m@ =~= spec_magic());
    m
}

/// The background music property container: its entries, in the order of the
/// file.
#[derive(Debug)]
pub struct BgmPropertyFile {
    pub entries: Vec<BgmPropertyEntry>,
}

impl BgmPropertyFile {
    /// The entries that `bytes` hold, or why they hold none.
    pub open spec fn spec_read(bytes: Seq<u8>) -> Result<Seq<BgmPropertyEntry>, Error> {
        spec_read::<BgmPropertyEntry>(spec_magic(), bytes)
    }

    /// The bytes of a container of `entries`: the magic, their number, and the
    /// entries in the order they have.
    pub open spec fn spec_write(entries: Seq<BgmPropertyEntry>) -> Seq<u8> {
        spec_write(spec_magic(), entries)
    }

    /// Reads a container; bytes behind the last entry are not read.
    pub fn read(bytes: &[u8]) -> (r: Result<BgmPropertyFile, Error>)
        ensures
            match Self::spec_read(bytes@) {
                Ok(entries) => r matches Ok(file) && file.entries@ == entries,
                Err(e) => r matches Err(f) && f == e,
            },
    {
        let m: Vec<u8> = magic();
        match read_container::<BgmPropertyEntry>(m.as_slice(), bytes) {
            Ok(entries) => Ok(BgmPropertyFile { entries }),
            Err(e) => Err(e),
        }
    }

    /// Appends the bytes of this container to `writer`.
    pub fn write(&self, writer: &mut Vec<u8>)
        ensures
            final(writer)@ == old(writer)@ + Self::spec_write(self.entries@),
    {
        let m: Vec<u8> = magic();
        write_container(m.as_slice(), &self.entries, writer);
    }

    /// Reading a written container gives its entries back, as long as their
    /// number fits the 32-bit count.
    pub proof fn lemma_read_write(entries: Seq<BgmPropertyEntry>)
        requires
            entries.len() <= u32::MAX,
        ensures
            Self::spec_read(Self::spec_write(entries)) == Ok::<Seq<BgmPropertyEntry>, Error>(
                entries,
            ),
    {
        lemma_read_write(spec_magic(), entries);
    }

    /// The count that a written container declares is the number of entries
    /// written, as long as that number fits 32 bits.
    pub proof fn lemma_written_count(entries: Seq<BgmPropertyEntry>)
        requires
            entries.len() <= u32::MAX,
        ensures
            u32_value(Self::spec_write(entries).subrange(4, 8)) == entries.len(),
            Self::spec_write(entries).len() == 8 + 36 * entries.len(),
    {
        lemma_written_count(spec_magic(), entries);
        lemma_encode_records_len(entries);
        lemma_u32_value_of_bytes((entries.len() % 0x1_0000_0000) as u32);
    }

    /// Writing what was read gives the bytes that were read, up to the end of
    /// the last entry: the whole stream where nothing follows it.
    pub proof fn lemma_write_read(bytes: Seq<u8>)
        requires
            Self::spec_read(bytes) is Ok,
        ensures
            ({
                let entries = Self::spec_read(bytes)->Ok_0;
                &&& 8 + 36 * entries.len() <= bytes.len()
                &&& Self::spec_write(entries) == bytes.take(8 + 36 * entries.len() as int)
                &&& bytes.len() == 8 + 36 * entries.len() ==> Self::spec_write(entries) == bytes
            }),
    {
        lemma_write_read::<BgmPropertyEntry>(spec_magic(), bytes);
    }
}

} // verus!
