//! Fixed-width records and the container layout they share: a magic, a
//! 32-bit count and that many records, one after the other.

use vstd::prelude::*;
use crate::error::Error;
use crate::le::{
    get_u32, lemma_u32_bytes_of_value, lemma_u32_value_of_bytes, put_u32, u32_bytes, u32_value,
};

verus! {

/// One entry of a container: a hashed name and a fixed number of bytes.
pub trait Record: Copy {
    /// The number of bytes that every record of this kind takes.
    spec fn spec_width() -> nat;

    /// The bytes of this record.
    spec fn spec_encode(&self) -> Seq<u8>;

    /// The record that `bytes` spell, for `bytes` of the right width.
    spec fn spec_decode(bytes: Seq<u8>) -> Self;

    /// The hashed name that identifies this record.
    spec fn spec_name(&self) -> u64;

    /// This record under another name.
    spec fn spec_with_name(&self, name: u64) -> Self;

    /// A record takes at least one byte.
    proof fn lemma_width_positive()
        ensures
            Self::spec_width() > 0,
    ;

    /// Every record of this kind takes the same number of bytes.
    proof fn lemma_encode_width(&self)
        ensures
            self.spec_encode().len() == Self::spec_width(),
    ;

    /// The bytes of a record spell that record.
    proof fn lemma_decode_encode(&self)
        ensures
            Self::spec_decode(self.spec_encode()) == *self,
    ;

    /// Bytes of the right width are the bytes of the record they spell:
    /// nothing of them is lost in reading.
    proof fn lemma_encode_decode(bytes: Seq<u8>)
        requires
            bytes.len() == Self::spec_width(),
        ensures
            Self::spec_decode(bytes).spec_encode() == bytes,
    ;

    /// A record under another name has that name, and under its own name
    /// it is itself.
    proof fn lemma_with_name(&self, name: u64)
        ensures
            self.spec_with_name(name).spec_name() == name,
            self.spec_with_name(self.spec_name()) == *self,
    ;

    /// The number of bytes that every record of this kind takes.
    fn width() -> (w: usize)
        ensures
            w == Self::spec_width(),
    ;

    /// Appends the bytes of this record to `out`.
    fn encode(&self, out: &mut Vec<u8>)
        ensures
            final(out)@ == old(out)@ + self.spec_encode(),
    ;

    /// The record that stands at `at`.
    fn decode(bytes: &[u8], at: usize) -> (r: Self)
        requires
            at + Self::spec_width() <= bytes@.len(),
        ensures
            r == Self::spec_decode(bytes@.subrange(at as int, at + Self::spec_width())),
    ;

    /// The hashed name that identifies this record.
    fn name(&self) -> (n: u64)
        ensures
            n == self.spec_name(),
    ;

    /// This record under another name.
    fn with_name(&self, name: u64) -> (r: Self)
        ensures
            r == self.spec_with_name(name),
    ;
}

/// The bytes of `records`, one record after the other.
pub open spec fn encode_records<R: Record>(records: Seq<R>) -> Seq<u8>
    decreases records.len(),
{
    if records.len() == 0 {
        Seq::empty()
    } else {
        encode_records(records.drop_last()) + records.last().spec_encode()
    }
}

/// The first `count` records that `bytes` spell.
pub open spec fn decode_records<R: Record>(bytes: Seq<u8>, count: nat) -> Seq<R> {
    Seq::new(
        count,
        |i: int| R::spec_decode(bytes.subrange(i * R::spec_width(), (i + 1) * R::spec_width())),
    )
}

/// The container that holds `records` behind `magic`. The count is the number
/// of records as far as 32 bits can tell it.
pub open spec fn spec_write<R: Record>(magic: Seq<u8>, records: Seq<R>) -> Seq<u8> {
    magic + u32_bytes((records.len() % 0x1_0000_0000) as u32) + encode_records(records)
}

/// What reading `bytes` as a container of kind `magic` gives: the records, or
/// the reason why there are none. Bytes behind the last record are not read.
pub open spec fn spec_read<R: Record>(magic: Seq<u8>, bytes: Seq<u8>) -> Result<Seq<R>, Error> {
    let body = magic.len() + 4;
    if !magic.is_prefix_of(bytes) {
        Err(Error::MagicMismatch)
    } else if bytes.len() < body {
        Err(Error::TruncatedInput)
    } else {
        let count = u32_value(bytes.subrange(magic.len() as int, body as int)) as nat;
        if bytes.len() - body < count * R::spec_width() {
            Err(Error::TruncatedInput)
        } else {
            Ok(decode_records::<R>(bytes.skip(body as int), count))
        }
    }
}

/// The encoded records take as many bytes as their number and width say.
pub proof fn lemma_encode_records_len<R: Record>(records: Seq<R>)
    ensures
        encode_records(records).len() == records.len() * R::spec_width(),
    decreases records.len(),
{
    if records.len() > 0 {
        lemma_encode_records_len(records.drop_last());
        records.last().lemma_encode_width();
        assert(records.len() * R::spec_width() == (records.len() - 1) * R::spec_width()
            + R::spec_width()) by (nonlinear_arith);
    }
}

/// Appends the bytes of `records` to `out`.
pub fn write_records<R: Record>(records: &Vec<R>, out: &mut Vec<u8>)
    ensures
        final(out)@ == old(out)@ + encode_records(records@),
{
    let mut i: usize = 0;
    while i < records.len()
        invariant
            i <= records@.len(),
            out@ == old(out)@ + encode_records(records@.subrange(0, i as int)),
        decreases records@.len() - i,
    {
        records[i].encode(out);
        proof {
            let next = records@.subrange(0, i + 1);
            assert(next.drop_last() =~= records@.subrange(0, i as int));
            assert(next.last() == records@[i as int]);
            assert(out@ =~= old(out)@ + encode_records(next));
        }
        i += 1;
    }
    assert(records@.subrange(0, i as int) =~= records@);
}

/// Appends to `out` the container that holds `records` behind `magic`.
pub fn write_container<R: Record>(magic: &[u8], records: &Vec<R>, out: &mut Vec<u8>)
    ensures
        final(out)@ == old(out)@ + spec_write(magic@, records@),
{
    let mut i: usize = 0;
    while i < magic.len()
        invariant
            i <= magic@.len(),
            out@ == old(out)@ + magic@.subrange(0, i as int),
        decreases magic@.len() - i,
    {
        out.push(magic[i]);
        assert(magic@.subrange(0, i + 1) =~= magic@.subrange(0, i as int).push(magic@[i as int]));
        i += 1;
    }
    assert(magic@.subrange(0, i as int) =~= magic@);
    let count: u32 = (records.len() as u64 % 0x1_0000_0000) as u32;
    put_u32(out, count);
    write_records(records, out);
    assert(out@ =~= old(out)@ + spec_write(magic@, records@));
}

/// Reads `bytes` as a container of kind `magic`.
pub fn read_container<R: Record>(magic: &[u8], bytes: &[u8]) -> (r: Result<Vec<R>, Error>)
    ensures
        match spec_read::<R>(magic@, bytes@) {
            Ok(records) => r matches Ok(v) && v@ == records,
            Err(e) => r matches Err(f) && f == e,
        },
{
    let m: usize = magic.len();
    if bytes.len() < m {
        return Err(Error::MagicMismatch);
    }
    let mut i: usize = 0;
    while i < m
        invariant
            i <= m,
            m == magic@.len(),
            m <= bytes@.len(),
            bytes@.subrange(0, i as int) == magic@.subrange(0, i as int),
        decreases m - i,
    {
        if bytes[i] != magic[i] {
            assert(bytes@.subrange(0, m as int)[i as int] != magic@[i as int]);
            return Err(Error::MagicMismatch);
        }
        assert(bytes@.subrange(0, i + 1) =~= bytes@.subrange(0, i as int).push(bytes@[i as int]));
        assert(magic@.subrange(0, i + 1) =~= magic@.subrange(0, i as int).push(magic@[i as int]));
        i += 1;
    }
    assert(magic@.subrange(0, m as int) =~= magic@);
    if bytes.len() - m < 4 {
        return Err(Error::TruncatedInput);
    }
    let body: usize = m + 4;
    let count: usize = get_u32(bytes, m) as usize;
    let width: usize = R::width();
    proof {
        R::lemma_width_positive();
    }
    let total: usize = bytes.len();
    let room: usize = (total - body) / width;
    if count > room {
        assert(count * width > bytes@.len() - body) by (nonlinear_arith)
            requires
                count > (bytes@.len() - body) / (width as int),
                width > 0,
                bytes@.len() >= body,
        ;
        return Err(Error::TruncatedInput);
    }
    assert(count * width <= bytes@.len() - body) by (nonlinear_arith)
        requires
            count <= (bytes@.len() - body) / (width as int),
            width > 0,
            bytes@.len() >= body,
    ;
    let mut records: Vec<R> = Vec::with_capacity(count);
    let mut k: usize = 0;
    let mut at: usize = body;
    while k < count
        invariant
            k <= count,
            width == R::spec_width(),
            body <= bytes@.len(),
            total == bytes@.len(),
            at == body + k * width,
            count * width <= bytes@.len() - body,
            records@ == decode_records::<R>(bytes@.skip(body as int), k as nat),
        decreases count - k,
    {
        assert((k + 1) * width <= count * width) by (nonlinear_arith)
            requires
                k < count,
        ;
        assert((k + 1) * width == k * width + width) by (nonlinear_arith);
        let record: R = R::decode(bytes, at);
        records.push(record);
        proof {
            assert(bytes@.skip(body as int).subrange(k * width, (k + 1) * width)
                =~= bytes@.subrange(at as int, at + width));
            assert(records@ =~= decode_records::<R>(bytes@.skip(body as int), (k + 1) as nat));
        }
        at += width;
        k += 1;
    }
    Ok(records)
}

/// Record `i` stands at its place among the encoded records.
pub proof fn lemma_encoded_record_at<R: Record>(records: Seq<R>, i: int)
    requires
        0 <= i < records.len(),
    ensures
        0 <= i * R::spec_width(),
        (i + 1) * R::spec_width() <= encode_records(records).len(),
        encode_records(records).subrange(i * R::spec_width(), (i + 1) * R::spec_width())
            == records[i].spec_encode(),
    decreases records.len(),
{
    let w = R::spec_width() as int;
    let front = records.drop_last();
    lemma_encode_records_len(front);
    lemma_encode_records_len(records);
    records.last().lemma_encode_width();
    assert(0 <= i * w && (i + 1) * w <= records.len() * w && (i + 1) * w == i * w + w) by (nonlinear_arith)
        requires
            0 <= i < records.len(),
            0 <= w,
    ;
    if i == records.len() - 1 {
        assert(encode_records(records).subrange(i * w, (i + 1) * w) =~= records[i].spec_encode());
    } else {
        lemma_encoded_record_at(front, i);
        assert(encode_records(records).subrange(i * w, (i + 1) * w) =~= encode_records(
            front,
        ).subrange(i * w, (i + 1) * w));
    }
}

/// Decoding what was encoded gives the records back.
pub proof fn lemma_decode_encode_records<R: Record>(records: Seq<R>)
    ensures
        decode_records::<R>(encode_records(records), records.len()) == records,
{
    let back = decode_records::<R>(encode_records(records), records.len());
    assert forall|i: int| 0 <= i < records.len() implies back[i] == records[i] by {
        lemma_encoded_record_at(records, i);
        records[i].lemma_decode_encode();
    }
    assert(back =~= records);
}

/// Encoding what was decoded gives the bytes that were read.
pub proof fn lemma_encode_decode_records<R: Record>(bytes: Seq<u8>, count: nat)
    requires
        count * R::spec_width() <= bytes.len(),
    ensures
        encode_records(decode_records::<R>(bytes, count)) == bytes.subrange(
            0,
            (count * R::spec_width()) as int,
        ),
    decreases count,
{
    let w = R::spec_width() as int;
    let records = decode_records::<R>(bytes, count);
    if count == 0 {
        assert(count * w == 0) by (nonlinear_arith)
            requires
                count == 0,
        ;
        assert(encode_records(records) =~= bytes.subrange(0, 0));
    } else {
        let less = (count - 1) as nat;
        assert(less * w + w == count * w && 0 <= less * w) by (nonlinear_arith)
            requires
                less + 1 == count,
                0 <= w,
        ;
        lemma_encode_decode_records::<R>(bytes, less);
        assert(records.drop_last() =~= decode_records::<R>(bytes, less));
        R::lemma_encode_decode(bytes.subrange(less * w, count * w));
        assert(records.last() == R::spec_decode(bytes.subrange(less * w, (less + 1) * w)));
        assert(encode_records(records) =~= bytes.subrange(0, count * w));
    }
}

/// Reading a written container gives its records back, as long as their
/// number fits the 32-bit count.
pub proof fn lemma_read_write<R: Record>(magic: Seq<u8>, records: Seq<R>)
    requires
        records.len() <= u32::MAX,
    ensures
        spec_read::<R>(magic, spec_write(magic, records)) == Ok::<Seq<R>, Error>(records),
{
    let bytes = spec_write(magic, records);
    let body = magic.len() + 4;
    let count = records.len() as u32;
    lemma_u32_value_of_bytes(count);
    lemma_encode_records_len(records);
    lemma_decode_encode_records(records);
    assert(bytes.subrange(0, magic.len() as int) =~= magic);
    assert(bytes.subrange(magic.len() as int, body as int) =~= u32_bytes(count));
    assert(bytes.skip(body as int) =~= encode_records(records));
}

/// The count that a written container declares is the number of its records,
/// as long as that number fits 32 bits.
pub proof fn lemma_written_count<R: Record>(magic: Seq<u8>, records: Seq<R>)
    requires
        records.len() <= u32::MAX,
    ensures
        u32_value(spec_write(magic, records).subrange(magic.len() as int, magic.len() + 4 as int))
            == records.len(),
{
    let count = records.len() as u32;
    lemma_u32_value_of_bytes(count);
    assert(spec_write(magic, records).subrange(magic.len() as int, magic.len() + 4 as int) =~= u32_bytes(
        count,
    ));
}

/// Writing what was read gives back the bytes that were read: the stream up
/// to the end of its last record, which is all of it where nothing follows.
pub proof fn lemma_write_read<R: Record>(magic: Seq<u8>, bytes: Seq<u8>)
    requires
        spec_read::<R>(magic, bytes) is Ok,
    ensures
        ({
            let records = spec_read::<R>(magic, bytes)->Ok_0;
            let end = magic.len() + 4 + records.len() * R::spec_width();
            &&& end <= bytes.len()
            &&& spec_write(magic, records) == bytes.subrange(0, end as int)
            &&& end == bytes.len() ==> spec_write(magic, records) == bytes
        }),
{
    let body = magic.len() + 4;
    let field = bytes.subrange(magic.len() as int, body as int);
    let count = u32_value(field) as nat;
    let records = spec_read::<R>(magic, bytes)->Ok_0;
    lemma_encode_decode_records::<R>(bytes.skip(body as int), count);
    lemma_u32_bytes_of_value(field);
    assert(0 <= count * R::spec_width()) by (nonlinear_arith);
    assert(spec_write(magic, records) =~= bytes.subrange(0, (body + count * R::spec_width()) as int));
    if body + count * R::spec_width() == bytes.len() {
        assert(bytes.subrange(0, bytes.len() as int) =~= bytes);
    }
}

/// A stream is refused for its magic exactly when it does not begin with the
/// magic; whatever else is wrong with it is then not looked at.
pub proof fn lemma_read_magic_mismatch<R: Record>(magic: Seq<u8>, bytes: Seq<u8>)
    ensures
        spec_read::<R>(magic, bytes) == Err::<Seq<R>, Error>(Error::MagicMismatch)
            <==> !magic.is_prefix_of(bytes),
        spec_read::<R>(magic, bytes) is Err ==> spec_read::<R>(magic, bytes)->Err_0
            != Error::TextParseError,
{
}

/// A container cut short, anywhere behind its magic and before the end of its
/// last record, is refused as truncated: no record is made of what is left.
pub proof fn lemma_read_truncated<R: Record>(magic: Seq<u8>, bytes: Seq<u8>, cut: int)
    requires
        spec_read::<R>(magic, bytes) is Ok,
        magic.len() <= cut < magic.len() + 4 + spec_read::<R>(magic, bytes)->Ok_0.len()
            * R::spec_width(),
    ensures
        spec_read::<R>(magic, bytes.take(cut)) == Err::<Seq<R>, Error>(Error::TruncatedInput),
{
    let body = magic.len() + 4;
    let short = bytes.take(cut);
    assert(short.subrange(0, magic.len() as int) =~= bytes.subrange(0, magic.len() as int));
    if cut >= body {
        assert(short.subrange(magic.len() as int, body as int) =~= bytes.subrange(
            magic.len() as int,
            body as int,
        ));
    }
}

} // verus!
