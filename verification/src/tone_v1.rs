//! The sound label container in its first version: tone records behind the
//! magic `SLI\0` and the version word 1.

use vstd::prelude::*;
use crate::error::Error;
use crate::le::{lemma_u32_value_of_bytes, u32_value};
use crate::order::{
    is_sorted_by_name, lemma_sorted_by_name, lemma_sorted_by_name_fixes_sorted,
    lemma_sorted_by_name_idempotent, sort_by_name, sorted_by_name,
};
use crate::record::{
    lemma_encode_records_len, lemma_read_write, lemma_write_read, lemma_written_count,
    read_container, spec_read, spec_write, write_container,
};
use crate::tone::SliEntry;

verus! {

/// One entry of the container: a sound's hashed name, bank and number.
pub type Entry = SliEntry;

/// The eight bytes that open the container: `SLI\0`, then the version, 1, as
/// a 32-bit number.
pub open spec fn spec_magic() -> Seq<u8> {
    seq![0x53u8, 0x4cu8, 0x49u8, 0x00u8, 0x01u8, 0x00u8, 0x00u8, 0x00u8]
}

/// The eight bytes that open the container.
pub fn magic() -> (m: Vec<u8>)
    ensures
        m@ == spec_magic(),
{
    let m: Vec<u8> = vec![0x53u8, 0x4cu8, 0x49u8, 0x00u8, 0x01u8, 0x00u8, 0x00u8, 0x00u8];
    assert(m@ =~= spec_magic());
    m
}

/// The sound label container: its entries, in the order in which they were
/// read or put.
#[derive(Debug)]
pub struct SliFile(Vec<Entry>);

impl View for SliFile {
    type V = Seq<Entry>;

    closed spec fn view(&self) -> Seq<Entry> {
        self.0@
    }
}

impl SliFile {
    /// The entries that `bytes` hold, or why they hold none.
    pub open spec fn spec_read(bytes: Seq<u8>) -> Result<Seq<Entry>, Error> {
        spec_read::<Entry>(spec_magic(), bytes)
    }

    /// The bytes of a container of `entries`: the magic, their number, and the
    /// entries in canonical order.
    pub open spec fn spec_write(entries: Seq<Entry>) -> Seq<u8> {
        spec_write(spec_magic(), sorted_by_name(entries))
    }

    /// Reads a container. The entries keep the order of the stream, sorted or
    /// not; bytes behind the last entry are not read.
    pub fn read(bytes: &[u8]) -> (r: Result<SliFile, Error>)
        ensures
            match Self::spec_read(bytes@) {
                Ok(entries) => r matches Ok(file) && file@ == entries,
                Err(e) => r matches Err(f) && f == e,
            },
    {
        let m: Vec<u8> = magic();
        match read_container::<Entry>(m.as_slice(), bytes) {
            Ok(entries) => Ok(SliFile(entries)),
            Err(e) => Err(e),
        }
    }

    /// Appends the bytes of this container to `writer`, its entries in
    /// canonical order. The container itself keeps its order.
    pub fn write(&self, writer: &mut Vec<u8>)
        ensures
            final(writer)@ == old(writer)@ + Self::spec_write(self@),
    {
        let m: Vec<u8> = magic();
        let sorted: Vec<Entry> = sort_by_name(&self.0);
        write_container(m.as_slice(), &sorted, writer);
    }

    /// The container of `entries`.
    pub fn new(entries: Vec<Entry>) -> (file: Self)
        ensures
            file@ == entries@,
    {
        SliFile(entries)
    }

    /// The entries.
    pub fn entries(&self) -> (entries: &Vec<Entry>)
        ensures
            entries@ == self@,
    {
        &self.0
    }

    /// The entries, to change them in place.
    pub fn entries_mut(&mut self) -> (entries: &mut Vec<Entry>)
        ensures
            entries@ == old(self)@,
            final(self)@ == final(entries)@,
    {
        &mut self.0
    }

    /// Reading a written container gives its entries back in canonical
    /// order, as long as their number fits the 32-bit count.
    pub proof fn lemma_read_write(entries: Seq<Entry>)
        requires
            entries.len() <= u32::MAX,
        ensures
            Self::spec_read(Self::spec_write(entries)) == Ok::<Seq<Entry>, Error>(
                sorted_by_name(entries),
            ),
    {
        lemma_sorted_by_name(entries);
        lemma_read_write(spec_magic(), sorted_by_name(entries));
    }

    /// The count that a written container declares is the number of entries
    /// written, as long as that number fits 32 bits.
    pub proof fn lemma_written_count(entries: Seq<Entry>)
        requires
            entries.len() <= u32::MAX,
        ensures
            u32_value(Self::spec_write(entries).subrange(8, 12)) == entries.len(),
            Self::spec_write(entries).len() == 12 + 16 * entries.len(),
    {
        lemma_sorted_by_name(entries);
        lemma_written_count(spec_magic(), sorted_by_name(entries));
        lemma_encode_records_len(sorted_by_name(entries));
        lemma_u32_value_of_bytes((entries.len() % 0x1_0000_0000) as u32);
    }

    /// Writing what was read: sorting the entries first changes nothing, and
    /// entries that were read in canonical order are written as the bytes
    /// they were read from, which is the whole stream where nothing follows
    /// the last entry.
    pub proof fn lemma_write_read(bytes: Seq<u8>)
        requires
            Self::spec_read(bytes) is Ok,
        ensures
            ({
                let entries = Self::spec_read(bytes)->Ok_0;
                &&& Self::spec_write(sorted_by_name(entries)) == Self::spec_write(entries)
                &&& 12 + 16 * entries.len() <= bytes.len()
                &&& is_sorted_by_name(entries) ==> Self::spec_write(entries) == bytes.take(
                    12 + 16 * entries.len() as int,
                )
                &&& is_sorted_by_name(entries) && bytes.len() == 12 + 16 * entries.len()
                    ==> Self::spec_write(entries) == bytes
            }),
    {
        let entries = Self::spec_read(bytes)->Ok_0;
        lemma_sorted_by_name_idempotent(entries);
        lemma_write_read::<Entry>(spec_magic(), bytes);
        if is_sorted_by_name(entries) {
            lemma_sorted_by_name_fixes_sorted(entries);
        }
    }
}

} // verus!
