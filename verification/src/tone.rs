//! The sound label container: tone records behind the magic `SLI\0`.

use vstd::prelude::*;
use crate::error::Error;
use crate::hash::Hash40;
use crate::le::{
    get_u32, get_u64, lemma_u32_bytes_of_value, lemma_u32_value_of_bytes,
    lemma_u64_bytes_of_value, lemma_u64_value_of_bytes, put_u32, put_u64, u32_bytes, u32_value,
    u64_bytes, u64_value,
};
use crate::order::{
    is_sorted_by_name, lemma_sorted_by_name, lemma_sorted_by_name_fixes_sorted,
    lemma_sorted_by_name_idempotent, sort_by_name, sorted_by_name,
};
use crate::record::{
    lemma_encode_records_len, lemma_read_write, lemma_write_read, lemma_written_count,
    read_container, spec_read, spec_write, write_container, Record,
};

verus! {

/// What identifies one sound: its hashed name, its bank and its number there.
#[derive(Debug, Clone, Copy, PartialEq, Eq, Structural)]
pub struct SliEntry {
    /// Hashed name of the sound.
    pub tone_name: Hash40,
    /// Number of the bank file that holds the sound.
    pub nus3bank_id: u32,
    /// Number of the sound within its bank.
    pub tone_id: u32,
}

impl Record for SliEntry {
    open spec fn spec_width() -> nat {
        16
    }

    open spec fn spec_encode(&self) -> Seq<u8> {
        u64_bytes(self.tone_name) + u32_bytes(self.nus3bank_id) + u32_bytes(self.tone_id)
    }

    open spec fn spec_decode(bytes: Seq<u8>) -> Self {
        SliEntry {
            tone_name: u64_value(bytes.subrange(0, 8)),
            nus3bank_id: u32_value(bytes.subrange(8, 12)),
            tone_id: u32_value(bytes.subrange(12, 16)),
        }
    }

    open spec fn spec_name(&self) -> u64 {
        self.tone_name
    }

    open spec fn spec_with_name(&self, name: u64) -> Self {
        SliEntry { tone_name: name, nus3bank_id: self.nus3bank_id, tone_id: self.tone_id }
    }

    proof fn lemma_width_positive() {
    }

    proof fn lemma_encode_width(&self) {
        lemma_u64_value_of_bytes(self.tone_name);
        lemma_u32_value_of_bytes(self.nus3bank_id);
        lemma_u32_value_of_bytes(self.tone_id);
    }

    proof fn lemma_decode_encode(&self) {
        let bytes = self.spec_encode();
        lemma_u64_value_of_bytes(self.tone_name);
        lemma_u32_value_of_bytes(self.nus3bank_id);
        lemma_u32_value_of_bytes(self.tone_id);
        assert(bytes.subrange(0, 8) =~= u64_bytes(self.tone_name));
        assert(bytes.subrange(8, 12) =~= u32_bytes(self.nus3bank_id));
        assert(bytes.subrange(12, 16) =~= u32_bytes(self.tone_id));
    }

    proof fn lemma_encode_decode(bytes: Seq<u8>) {
        lemma_u64_bytes_of_value(bytes.subrange(0, 8));
        lemma_u32_bytes_of_value(bytes.subrange(8, 12));
        lemma_u32_bytes_of_value(bytes.subrange(12, 16));
        assert(Self::spec_decode(bytes).spec_encode() =~= bytes);
    }

    proof fn lemma_with_name(&self, name: u64) {
    }

    fn width() -> (w: usize) {
        16
    }

    fn encode(&self, out: &mut Vec<u8>) {
        put_u64(out, self.tone_name);
        put_u32(out, self.nus3bank_id);
        put_u32(out, self.tone_id);
        assert(out@ =~= old(out)@ + self.spec_encode());
    }

    fn decode(bytes: &[u8], at: usize) -> (r: Self) {
        let total: usize = bytes.len();
        let tone_name: u64 = get_u64(bytes, at);
        let nus3bank_id: u32 = get_u32(bytes, at + 8);
        let tone_id: u32 = get_u32(bytes, at + 12);
        proof {
            let field = bytes@.subrange(at as int, at + 16);
            assert(field.subrange(0, 8) =~= bytes@.subrange(at as int, at + 8));
            assert(field.subrange(8, 12) =~= bytes@.subrange(at + 8, at + 12));
            assert(field.subrange(12, 16) =~= bytes@.subrange(at + 12, at + 16));
        }
        SliEntry { tone_name, nus3bank_id, tone_id }
    }

    fn name(&self) -> (n: u64) {
        self.tone_name
    }

    fn with_name(&self, name: u64) -> (r: Self) {
        SliEntry { tone_name: name, nus3bank_id: self.nus3bank_id, tone_id: self.tone_id }
    }
}

/// The four bytes that open a sound label container: `SLI\0`.
pub open spec fn spec_magic() -> Seq<u8> {
    seq![0x53u8, 0x4cu8, 0x49u8, 0x00u8]
}

/// The four bytes that open a sound label container: `SLI\0`.
pub fn magic() -> (m: Vec<u8>)
    ensures
        m@ == spec_magic(),
{
    let m: Vec<u8> = vec![0x53u8, 0x4cu8, 0x49u8, 0x00u8];
    assert(m@ =~= spec_magic());
    m
}

/// The sound label container: its entries, in the order in which they were
/// read or put.
#[derive(Debug)]
pub struct SliFile {
    pub entries: Vec<SliEntry>,
}

impl SliFile {
    /// The entries that `bytes` hold, or why they hold none.
    pub open spec fn spec_read(bytes: Seq<u8>) -> Result<Seq<SliEntry>, Error> {
        spec_read::<SliEntry>(spec_magic(), bytes)
    }

    /// The bytes of a container of `entries`: the magic, their number, and the
    /// entries in canonical order.
    pub open spec fn spec_write(entries: Seq<SliEntry>) -> Seq<u8> {
        spec_write(spec_magic(), sorted_by_name(entries))
    }

    /// Reads a container. The entries keep the order of the stream, sorted or
    /// not; bytes behind the last entry are not read.
    pub fn read(bytes: &[u8]) -> (r: Result<SliFile, Error>)
        ensures
            match Self::spec_read(bytes@) {
                Ok(entries) => r matches Ok(file) && file.entries@ == entries,
                Err(e) => r matches Err(f) && f == e,
            },
    {
        let m: Vec<u8> = magic();
        match read_container::<SliEntry>(m.as_slice(), bytes) {
            Ok(entries) => Ok(SliFile { entries }),
            Err(e) => Err(e),
        }
    }

    /// Appends the bytes of this container to `writer`, its entries in
    /// canonical order.
    pub fn write(&self, writer: &mut Vec<u8>)
        ensures
            final(writer)@ == old(writer)@ + Self::spec_write(self.entries@),
    {
        let m: Vec<u8> = magic();
        let sorted: Vec<SliEntry> = sort_by_name(&self.entries);
        write_container(m.as_slice(), &sorted, writer);
    }

    /// Reading a written container gives its entries back in canonical
    /// order, as long as their number fits the 32-bit count.
    pub proof fn lemma_read_write(entries: Seq<SliEntry>)
        requires
            entries.len() <= u32::MAX,
        ensures
            Self::spec_read(Self::spec_write(entries)) == Ok::<Seq<SliEntry>, Error>(
                sorted_by_name(entries),
            ),
    {
        lemma_sorted_by_name(entries);
        lemma_read_write(spec_magic(), sorted_by_name(entries));
    }

    /// The count that a written container declares is the number of entries
    /// written, as long as that number fits 32 bits.
    pub proof fn lemma_written_count(entries: Seq<SliEntry>)
        requires
            entries.len() <= u32::MAX,
        ensures
            u32_value(Self::spec_write(entries).subrange(4, 8)) == entries.len(),
            Self::spec_write(entries).len() == 8 + 16 * entries.len(),
    {
        lemma_sorted_by_name(entries);
        lemma_written_count(spec_magic(), sorted_by_name(entries));
        lemma_encode_records_len(sorted_by_name(entries));
        lemma_u32_value_of_bytes((entries.len() % 0x1_0000_0000) as u32);
    }

    /// Writing what was read: sorting the entries first changes nothing, and
    /// entries that were read in canonical order are written as the bytes
    /// they were read from, which is the whole stream where nothing follows
    /// the last entry.
    pub proof fn lemma_write_read(bytes: Seq<u8>)
        requires
            Self::spec_read(bytes) is Ok,
        ensures
            ({
                let entries = Self::spec_read(bytes)->Ok_0;
                &&& Self::spec_write(sorted_by_name(entries)) == Self::spec_write(entries)
                &&& 8 + 16 * entries.len() <= bytes.len()
                &&& is_sorted_by_name(entries) ==> Self::spec_write(entries) == bytes.take(
                    8 + 16 * entries.len() as int,
                )
                &&& is_sorted_by_name(entries) && bytes.len() == 8 + 16 * entries.len()
                    ==> Self::spec_write(entries) == bytes
            }),
    {
        let entries = Self::spec_read(bytes)->Ok_0;
        lemma_sorted_by_name_idempotent(entries);
        lemma_write_read::<SliEntry>(spec_magic(), bytes);
        if is_sorted_by_name(entries) {
            lemma_sorted_by_name_fixes_sorted(entries);
        }
    }
}

} // verus!
