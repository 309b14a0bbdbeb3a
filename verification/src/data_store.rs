//! Datasets: the layout of their lines, the ids under which they are kept, the
//! checks on incoming sensor packets and the recoding of lines for clients.
use crate::bits::{decode, encode, decoded_value, field_fits, line_bit, lemma_bits_of_decoded_value};
use crate::text::{chars_of, parse_unsigned, parse_unsigned_exec};
use crate::endian::{
    be_bytes, le_bytes, le_value, lemma_le_bytes_len, lemma_le_value_of_le_bytes, lemma_pow256_values,
    push_be, push_le, read_le_u16, read_le_u64,
};
use std::collections::HashMap;
use vstd::prelude::*;

verus! {

broadcast use vstd::std_specs::hash::group_hash_axioms;

pub type FieldId = u8;

pub type DatasetId = u16;

/// One sensor value inside a line: `length` bits starting at bit `offset`.
pub struct Field {
    pub id: FieldId,
    pub name: String,
    pub offset: u8,
    pub length: u8,
}

impl Field {
    /// The raw (unscaled) value of this field in `line`.
    pub fn decode_raw(&self, line: &[u8]) -> (value: u32)
        requires
            field_fits(self.offset as int, self.length as int, line@.len() as int),
        ensures
            value as nat == decoded_value(line@, self.offset as int, self.length as nat),
    {
        decode(line, self.offset, self.length)
    }

    /// Stores the raw (unscaled) value of this field in `line`.
    pub fn encode_raw(&self, value: u32, line: &mut [u8])
        requires
            field_fits(self.offset as int, self.length as int, old(line)@.len() as int),
        ensures
            crate::bits::is_encoding(
                final(line)@,
                old(line)@,
                value as nat,
                self.offset as int,
                self.length as nat,
            ),
    {
        encode(value, line, self.offset, self.length)
    }
}

/// Where the fields whose position in `fields` is among `ids` lie in a line (offset and
/// length in bits), in the order of `fields`. A position is taken modulo 256, as a field
/// id is one byte.
pub open spec fn layouts_with_ids(fields: Seq<Field>, ids: Seq<FieldId>) -> Seq<(u8, u8)>
    decreases fields.len(),
{
    if fields.len() == 0 {
        Seq::empty()
    } else {
        let rest = layouts_with_ids(fields.drop_last(), ids);
        let f = fields.last();
        if ids.contains((fields.len() - 1) as u8) {
            rest.push((f.offset, f.length))
        } else {
            rest
        }
    }
}

/// Reads the values of chosen fields out of lines.
pub struct FieldDecoder {
    /// Offset and length in bits of each field to read, in the order they are read.
    pub layout: Vec<(u8, u8)>,
}

fn contains_id(ids: &[FieldId], id: FieldId) -> (b: bool)
    ensures
        b == ids@.contains(id),
{
    let mut k: usize = 0;
    while k < ids.len()
        invariant
            k <= ids@.len(),
            forall|j: int| 0 <= j < k ==> ids@[j] != id,
        decreases ids@.len() - k,
    {
        if ids[k] == id {
            return true;
        }
        k = k + 1;
    }
    false
}

impl FieldDecoder {
    /// A decoder for the fields whose position in `fields` is among `ids`, read in the
    /// order of `fields`.
    pub fn from_fields_and_id(fields: &[Field], ids: &[FieldId]) -> (d: FieldDecoder)
        ensures
            d.layout@ == layouts_with_ids(fields@, ids@),
    {
        let mut layout: Vec<(u8, u8)> = Vec::new();
        let mut i: usize = 0;
        assert(fields@.take(0) =~= Seq::<Field>::empty());
        while i < fields.len()
            invariant
                i <= fields@.len(),
                layout@ == layouts_with_ids(fields@.take(i as int), ids@),
            decreases fields@.len() - i,
        {
            proof {
                assert(fields@.take(i + 1).drop_last() =~= fields@.take(i as int));
            }
            if contains_id(ids, i as u8) {
                layout.push((fields[i].offset, fields[i].length));
            }
            i = i + 1;
        }
        assert(fields@.take(fields@.len() as int) =~= fields@);
        FieldDecoder { layout }
    }

    /// Appends to `out` the raw value of each of the decoder's fields in `line`.
    pub fn decode(&self, line: &[u8], out: &mut Vec<u32>)
        requires
            forall|k: int|
                0 <= k < self.layout@.len() ==> field_fits(
                    (#[trigger] self.layout@[k]).0 as int,
                    self.layout@[k].1 as int,
                    line@.len() as int,
                ),
        ensures
            final(out)@.len() == old(out)@.len() + self.layout@.len(),
            final(out)@.take(old(out)@.len() as int) == old(out)@,
            forall|k: int|
                0 <= k < self.layout@.len() ==> final(out)@[old(out)@.len() + k] as nat
                    == decoded_value(
                    line@,
                    (#[trigger] self.layout@[k]).0 as int,
                    self.layout@[k].1 as nat,
                ),
    {
        let ghost start = out@;
        let mut k: usize = 0;
        while k < self.layout.len()
            invariant
                k <= self.layout@.len(),
                forall|j: int|
                    0 <= j < self.layout@.len() ==> field_fits(
                        (#[trigger] self.layout@[j]).0 as int,
                        self.layout@[j].1 as int,
                        line@.len() as int,
                    ),
                out@.len() == start.len() + k,
                out@.take(start.len() as int) == start,
                forall|j: int|
                    0 <= j < k ==> out@[start.len() + j] as nat == decoded_value(
                        line@,
                        (#[trigger] self.layout@[j]).0 as int,
                        self.layout@[j].1 as nat,
                    ),
            decreases self.layout@.len() - k,
        {
            let (offset, length) = self.layout[k];
            let v = decode(line, offset, length);
            out.push(v);
            proof {
                assert(out@.take(start.len() as int) =~= start);
            }
            k = k + 1;
        }
    }
}

/// Description of a dataset and the layout of its lines.
pub struct MetaData {
    pub name: String,
    pub description: String,
    pub key: u64,
    /// Sorted by id; the last field ends the line.
    pub fields: Vec<Field>,
}

/// `t / n`, rounded up.
pub open spec fn div_ceil(t: nat, n: nat) -> nat
    recommends
        n > 0,
{
    ((t + n - 1) / (n as int)) as nat
}

/// Number of bytes in a line described by `fields`: enough to hold the last field.
pub open spec fn line_size(fields: Seq<Field>) -> nat
    recommends
        fields.len() > 0,
{
    div_ceil((fields.last().offset + fields.last().length) as nat, 8)
}

/// `t / n` rounded up.
pub fn devide_up(t: u16, n: u16) -> (r: u16)
    requires
        n > 0,
        t + n - 1 <= u16::MAX,
    ensures
        r as nat == div_ceil(t as nat, n as nat),
{
    (t + (n - 1)) / n
}

impl MetaData {
    /// Number of bytes in one line of this dataset.
    pub fn fieldsum(&self) -> (n: u16)
        requires
            self.fields@.len() > 0,
        ensures
            n as nat == line_size(self.fields@),
    {
        let field = &self.fields[self.fields.len() - 1];
        let bits: u16 = field.offset as u16 + field.length as u16;
        devide_up(bits, 8)
    }
}

/// Sum of the lengths of the fields `ids` names.
pub open spec fn total_length(fields: Seq<Field>, ids: Seq<FieldId>) -> nat
    decreases ids.len(),
{
    if ids.len() == 0 {
        0
    } else {
        total_length(fields, ids.drop_last()) + fields[ids.last() as int].length as nat
    }
}

/// Bit at which the `i`-th requested field starts in a recoded line.
pub open spec fn recoded_offset(fields: Seq<Field>, ids: Seq<FieldId>, i: int) -> nat {
    total_length(fields, ids.take(i))
}

/// Every id names a field.
pub open spec fn ids_in_range(fields: Seq<Field>, ids: Seq<FieldId>) -> bool {
    forall|i: int| 0 <= i < ids.len() ==> (#[trigger] ids[i] as int) < fields.len()
}

/// The `k`-th requested field holds in `out`, from its recoded offset, the bits it
/// holds in `line`.
pub open spec fn field_copied(
    out: Seq<u8>,
    line: Seq<u8>,
    fields: Seq<Field>,
    ids: Seq<FieldId>,
    k: int,
) -> bool {
    let f = fields[ids[k] as int];
    forall|j: int|
        0 <= j < f.length ==> #[trigger] line_bit(out, recoded_offset(fields, ids, k) + j)
            == line_bit(line, f.offset + j)
}

proof fn lemma_total_length_prefix(fields: Seq<Field>, ids: Seq<FieldId>, i: int)
    requires
        0 <= i < ids.len(),
    ensures
        recoded_offset(fields, ids, i + 1) == recoded_offset(fields, ids, i)
            + fields[ids[i] as int].length,
{
    assert(ids.take(i + 1).drop_last() =~= ids.take(i));
}

proof fn lemma_total_length_monotone(fields: Seq<Field>, ids: Seq<FieldId>, i: int)
    requires
        0 <= i <= ids.len(),
    ensures
        recoded_offset(fields, ids, i) <= total_length(fields, ids),
    decreases ids.len() - i,
{
    if i < ids.len() {
        lemma_total_length_prefix(fields, ids, i);
        lemma_total_length_monotone(fields, ids, i + 1);
    } else {
        assert(ids.take(i) =~= ids);
    }
}

proof fn lemma_decoded_value_shifted(a: Seq<u8>, oa: int, b: Seq<u8>, ob: int, length: nat)
    requires
        forall|j: int| 0 <= j < length ==> #[trigger] line_bit(a, oa + j) == line_bit(b, ob + j),
    ensures
        decoded_value(a, oa, length) == decoded_value(b, ob, length),
    decreases length,
{
    if length > 0 {
        assert(line_bit(a, oa + 0) == line_bit(b, ob + 0));
        assert forall|j: int| 0 <= j < length - 1 implies #[trigger] line_bit(a, (oa + 1) + j) == line_bit(
            b,
            (ob + 1) + j,
        ) by {
            assert(line_bit(a, oa + (j + 1)) == line_bit(b, ob + (j + 1)));
            assert(oa + (j + 1) == (oa + 1) + j && ob + (j + 1) == (ob + 1) + j);
        }
        lemma_decoded_value_shifted(a, oa + 1, b, ob + 1, (length - 1) as nat);
    }
}

/// A client that reads a recoded line at the offset and length that the decode
/// information gives for a requested field reads the value that field holds in the
/// line the server stored.
pub proof fn lemma_client_reads_recoded_field(
    out: Seq<u8>,
    line: Seq<u8>,
    fields: Seq<Field>,
    ids: Seq<FieldId>,
    k: int,
)
    requires
        0 <= k < ids.len(),
        field_copied(out, line, fields, ids, k),
    ensures
        decoded_value(
            out,
            recoded_offset(fields, ids, k) as int,
            fields[ids[k] as int].length as nat,
        ) == decoded_value(line, fields[ids[k] as int].offset as int, fields[ids[k] as int].length as nat),
{
    let f = fields[ids[k] as int];
    let o = recoded_offset(fields, ids, k) as int;
    assert forall|j: int| 0 <= j < f.length implies #[trigger] line_bit(out, o + j) == line_bit(
        line,
        f.offset + j,
    ) by {
        assert(line_bit(out, recoded_offset(fields, ids, k) + j) == line_bit(line, f.offset + j));
    }
    lemma_decoded_value_shifted(out, o, line, f.offset as int, f.length as nat);
}

/// How a client decodes the recoded lines of a dataset.
pub struct SetSliceDecodeInfo {
    pub field_lenghts: Vec<u8>,
    pub field_offsets: Vec<u8>,
    pub data_is_little_endian: bool,
}

/// `u16::to_ne_bytes` on 1: the bytes of one in the machine's own byte order, little-
/// or big-endian, so one of the two bytes is 1 and the other 0. Which order is the
/// machine's is not stated.
#[verifier::external_body]
fn native_bytes_of_one() -> (b: [u8; 2])
    ensures
        (b@[0] == 1 && b@[1] == 0) || (b@[0] == 0 && b@[1] == 1),
{
    1u16.to_ne_bytes()
}

/// A dataset as the server keeps it in memory; its lines live on disk.
pub struct DataSet {
    pub metadata: MetaData,
}

impl DataSet {
    /// Lengths and recoded offsets of the requested fields.
    pub fn get_decode_info(&self, allowed_fields: &[FieldId]) -> (info: SetSliceDecodeInfo)
        requires
            ids_in_range(self.metadata.fields@, allowed_fields@),
            total_length(self.metadata.fields@, allowed_fields@) <= u8::MAX,
        ensures
            info.field_lenghts@.len() == allowed_fields@.len(),
            info.field_offsets@.len() == allowed_fields@.len(),
            forall|i: int|
                0 <= i < allowed_fields@.len() ==> {
                    &&& #[trigger] info.field_lenghts@[i]
                        == self.metadata.fields@[allowed_fields@[i] as int].length
                    &&& info.field_offsets@[i] as nat == recoded_offset(
                        self.metadata.fields@,
                        allowed_fields@,
                        i,
                    )
                },
    {
        let ghost fields = self.metadata.fields@;
        let ghost ids = allowed_fields@;
        let mut lengths: Vec<u8> = Vec::new();
        let mut offsets: Vec<u8> = Vec::new();
        let mut recoded: u8 = 0;
        let mut i: usize = 0;
        proof {
            assert(ids.take(0) =~= Seq::<FieldId>::empty());
        }
        while i < allowed_fields.len()
            invariant
                i <= ids.len(),
                ids == allowed_fields@,
                fields == self.metadata.fields@,
                ids_in_range(fields, ids),
                total_length(fields, ids) <= u8::MAX,
                recoded as nat == recoded_offset(fields, ids, i as int),
                lengths@.len() == i,
                offsets@.len() == i,
                forall|k: int|
                    0 <= k < i ==> {
                        &&& #[trigger] lengths@[k] == fields[ids[k] as int].length
                        &&& offsets@[k] as nat == recoded_offset(fields, ids, k)
                    },
            decreases ids.len() - i,
        {
            let id = allowed_fields[i];
            let field = &self.metadata.fields[id as usize];
            proof {
                lemma_total_length_prefix(fields, ids, i as int);
                lemma_total_length_monotone(fields, ids, i + 1);
            }
            lengths.push(field.length);
            offsets.push(recoded);
            recoded = recoded + field.length;
            i = i + 1;
        }
        let ne = native_bytes_of_one();
        SetSliceDecodeInfo {
            field_lenghts: lengths,
            field_offsets: offsets,
            data_is_little_endian: ne[0] == 1,
        }
    }

    /// Recodes a line for a client: the requested fields packed one after the other
    /// from bit 0, followed by the dataset id and the timestamp, both big-endian.
    pub fn get_update(
        &self,
        line: &[u8],
        timestamp: i64,
        allowed_fields: &[FieldId],
        setid: DatasetId,
    ) -> (out: Vec<u8>)
        requires
            ids_in_range(self.metadata.fields@, allowed_fields@),
            total_length(self.metadata.fields@, allowed_fields@) <= u8::MAX,
            forall|i: int|
                0 <= i < allowed_fields@.len() ==> {
                    let f = #[trigger] self.metadata.fields@[allowed_fields@[i] as int];
                    field_fits(f.offset as int, f.length as int, line@.len() as int)
                },
        ensures
            ({
                let fields = self.metadata.fields@;
                let ids = allowed_fields@;
                let n = div_ceil(total_length(fields, ids), 8) as int;
                &&& out@.len() == n + 18
                &&& out@.subrange(n + 8, n + 10) == be_bytes(setid as nat, 2)
                &&& out@.subrange(n + 10, n + 18) == be_bytes(timestamp as u64 as nat, 8)
                &&& forall|k: int|
                    0 <= k < ids.len() ==> #[trigger] field_copied(out@, line@, fields, ids, k)
                &&& forall|p: int|
                    total_length(fields, ids) <= p < 8 * (n + 8) ==> !#[trigger] line_bit(
                        out@,
                        p,
                    )
            }),
    {
        let ghost fields = self.metadata.fields@;
        let ghost ids = allowed_fields@;
        // size of the recoded fields in bits
        let mut total: u8 = 0;
        let mut i: usize = 0;
        proof {
            assert(ids.take(0) =~= Seq::<FieldId>::empty());
        }
        while i < allowed_fields.len()
            invariant
                i <= ids.len(),
                ids == allowed_fields@,
                fields == self.metadata.fields@,
                ids_in_range(fields, ids),
                total_length(fields, ids) <= u8::MAX,
                total as nat == recoded_offset(fields, ids, i as int),
            decreases ids.len() - i,
        {
            proof {
                lemma_total_length_prefix(fields, ids, i as int);
                lemma_total_length_monotone(fields, ids, i + 1);
            }
            total = total + self.metadata.fields[allowed_fields[i] as usize].length;
            i = i + 1;
        }
        proof {
            assert(ids.take(ids.len() as int) =~= ids);
        }
        let n_bytes: usize = (total as usize + 7) / 8;
        let size: usize = n_bytes + 8;
        let mut buf: Vec<u8> = Vec::new();
        while buf.len() < size
            invariant
                buf@.len() <= size,
                forall|k: int| 0 <= k < buf@.len() ==> buf@[k] == 0u8,
            decreases size - buf@.len(),
        {
            buf.push(0u8);
        }
        proof {
            assert forall|p: int| 0 <= p < 8 * buf@.len() implies !#[trigger] line_bit(buf@, p) by {
                let b = buf@[p / 8];
                assert(b == 0u8);
                let s = (p % 8) as u8;
                assert((0u8 >> s) & 1u8 == 0u8) by (bit_vector);
            }
            assert(ids.take(0) =~= Seq::<FieldId>::empty());
        }
        let mut recoded: u8 = 0;
        let mut i: usize = 0;
        while i < allowed_fields.len()
            invariant
                i <= ids.len(),
                ids == allowed_fields@,
                fields == self.metadata.fields@,
                ids_in_range(fields, ids),
                total as nat == total_length(fields, ids),
                total <= u8::MAX,
                buf@.len() == size,
                size == n_bytes + 8,
                n_bytes == div_ceil(total as nat, 8),
                recoded as nat == recoded_offset(fields, ids, i as int),
                forall|k: int|
                    0 <= k < allowed_fields@.len() ==> {
                        let f = #[trigger] fields[ids[k] as int];
                        field_fits(f.offset as int, f.length as int, line@.len() as int)
                    },
                forall|k: int| 0 <= k < i ==> #[trigger] field_copied(buf@, line@, fields, ids, k),
                forall|p: int|
                    recoded as int <= p < 8 * size ==> !#[trigger] line_bit(buf@, p),
            decreases ids.len() - i,
        {
            let id = allowed_fields[i];
            let field = &self.metadata.fields[id as usize];
            let ghost f = fields[ids[i as int] as int];
            proof {
                lemma_total_length_prefix(fields, ids, i as int);
                lemma_total_length_monotone(fields, ids, i + 1);
            }
            let value = decode(line, field.offset, field.length);
            let ghost before = buf@;
            encode(value, buf.as_mut_slice(), recoded, field.length);
            proof {
                assert forall|k: int| 0 <= k < i + 1 implies #[trigger] field_copied(
                    buf@,
                    line@,
                    fields,
                    ids,
                    k,
                ) by {
                    let fk = fields[ids[k] as int];
                    assert forall|j: int| 0 <= j < fk.length implies #[trigger] line_bit(
                        buf@,
                        recoded_offset(fields, ids, k) + j,
                    ) == line_bit(line@, fk.offset + j) by {
                        let p = recoded_offset(fields, ids, k) + j;
                        if k < i {
                            lemma_total_length_prefix(fields, ids, k);
                            lemma_total_length_monotone_between(fields, ids, k + 1, i as int);
                            assert(field_copied(before, line@, fields, ids, k));
                            assert(line_bit(before, p) == line_bit(line@, fk.offset + j));
                        } else {
                            lemma_bits_of_decoded_value(
                                line@,
                                f.offset as int,
                                f.length as nat,
                                j as nat,
                            );
                        }
                    }
                }
            }
            recoded = recoded + field.length;
            i = i + 1;
        }
        let mut out = buf;
        push_be(&mut out, setid as u64, 2);
        push_be(&mut out, #[verifier::truncate] (timestamp as u64), 8);
        proof {
            crate::endian::lemma_be_bytes_len(setid as nat, 2);
            crate::endian::lemma_be_bytes_len(#[verifier::truncate] (timestamp as u64) as nat, 8);
            let n = n_bytes as int;
            assert(out@.subrange(n + 8, n + 10) =~= be_bytes(setid as nat, 2));
            assert(out@.subrange(n + 10, n + 18) =~= be_bytes(timestamp as u64 as nat, 8));
            assert(ids.take(ids.len() as int) =~= ids);
            assert forall|k: int| 0 <= k < ids.len() implies #[trigger] field_copied(
                out@,
                line@,
                fields,
                ids,
                k,
            ) by {
                assert(field_copied(buf@, line@, fields, ids, k));
                let fk = fields[ids[k] as int];
                assert forall|j: int| 0 <= j < fk.length implies #[trigger] line_bit(
                    out@,
                    recoded_offset(fields, ids, k) + j,
                ) == line_bit(line@, fk.offset + j) by {
                    let p = recoded_offset(fields, ids, k) + j;
                    lemma_total_length_prefix(fields, ids, k);
                    lemma_total_length_monotone(fields, ids, k + 1);
                    assert(line_bit(buf@, p) == line_bit(line@, fk.offset + j));
                    assert(out@[p / 8] == buf@[p / 8]);
                }
            }
            assert forall|p: int|
                total_length(fields, ids) <= p < 8 * (n + 8) implies !#[trigger] line_bit(
                out@,
                p,
            ) by {
                assert(out@[p / 8] == buf@[p / 8]);
                assert(!line_bit(buf@, p));
            }
        }
        out
    }
}

proof fn lemma_total_length_monotone_between(fields: Seq<Field>, ids: Seq<FieldId>, i: int, j: int)
    requires
        0 <= i <= j <= ids.len(),
    ensures
        recoded_offset(fields, ids, i) <= recoded_offset(fields, ids, j),
    decreases j - i,
{
    if i < j {
        lemma_total_length_prefix(fields, ids, j - 1);
        lemma_total_length_monotone_between(fields, ids, i, j - 1);
    }
}

/// The header of a data package sent to a client: the package number, the
/// dataset id and four bytes of padding, all little-endian.
pub fn new_package(package_numb: u16, dataset_id: DatasetId, bytes_per_package: usize) -> (package: Vec<u8>)
    ensures
        package@ == le_bytes(package_numb as nat, 2) + le_bytes(dataset_id as nat, 2)
            + le_bytes(0, 4),
{
    let mut package: Vec<u8> = Vec::new();
    push_le(&mut package, package_numb as u64, 2);
    push_le(&mut package, dataset_id as u64, 2);
    push_le(&mut package, 0, 4);
    package
}

/// Dataset id a packet is addressed to: its first two bytes, little-endian.
pub open spec fn packet_set_id(packet: Seq<u8>) -> nat {
    le_value(packet.subrange(0, 2))
}

/// Secret key a packet carries: its bytes 2 to 10, little-endian.
pub open spec fn packet_key(packet: Seq<u8>) -> nat {
    le_value(packet.subrange(2, 10))
}

/// The id an error packet authenticates as: it is long enough for the header and an
/// error, names a known dataset and carries that dataset's key.
pub open spec fn authenticated_error_packet(sets: Map<DatasetId, DataSet>, packet: Seq<u8>) -> Option<
    DatasetId,
> {
    let id = packet_set_id(packet) as DatasetId;
    if packet.len() >= 12 && sets.contains_key(id) && sets[id].metadata.key == packet_key(
        packet,
    ) {
        Some(id)
    } else {
        None
    }
}

/// The dataset id and the line of a data packet that may be stored: the packet is
/// exactly one line of the named dataset behind the 10 byte header, and carries the
/// dataset's key.
pub open spec fn accepted_data_packet(sets: Map<DatasetId, DataSet>, packet: Seq<u8>) -> Option<
    (DatasetId, Seq<u8>),
> {
    let id = packet_set_id(packet) as DatasetId;
    if packet.len() >= 11 && sets.contains_key(id) && packet.len() == line_size(
        sets[id].metadata.fields@,
    ) + 10 && sets[id].metadata.key == packet_key(packet) {
        Some((id, packet.skip(10)))
    } else {
        None
    }
}

/// The first id that no datafile uses: one above the largest, and never 0.
pub open spec fn first_free_id(ids: Seq<DatasetId>) -> nat
    decreases ids.len(),
{
    if ids.len() == 0 {
        1
    } else {
        let rest = first_free_id(ids.drop_last());
        if ids.last() + 1 > rest {
            (ids.last() + 1) as nat
        } else {
            rest
        }
    }
}

/// The id of the dataset whose lines a file with this name holds: the name ends in
/// `.dat` and what precedes that parses as a dataset id.
pub open spec fn datafile_id_of(name: Seq<char>) -> Option<nat> {
    if name.len() >= 4 && name.skip(name.len() - 4) == ".dat"@ {
        parse_unsigned(name.take(name.len() - 4), u16::MAX as nat)
    } else {
        None
    }
}

/// All datasets the server knows, and the id the next new dataset gets.
pub struct Data {
    pub free_dataset_id: DatasetId,
    pub sets: HashMap<DatasetId, DataSet>,
}

impl Data {
    /// Every dataset's lines hold at least one field.
    pub open spec fn wf(&self) -> bool {
        forall|id: DatasetId| #[trigger]
            self.sets@.contains_key(id) ==> self.sets@[id].metadata.fields@.len() > 0
    }

    /// No datasets yet; id 0 is reserved, so the first dataset gets id 1.
    pub fn new() -> (data: Data)
        ensures
            data.wf(),
            data.sets@ == Map::<DatasetId, DataSet>::empty(),
            data.free_dataset_id == 1,
    {
        Data { free_dataset_id: 1, sets: HashMap::new() }
    }

    /// Data whose next dataset id comes after every id in `ids`.
    pub fn with_existing_ids(ids: &[DatasetId]) -> (data: Data)
        requires
            forall|i: int| 0 <= i < ids@.len() ==> #[trigger] ids@[i] < u16::MAX,
        ensures
            data.wf(),
            data.sets@ == Map::<DatasetId, DataSet>::empty(),
            data.free_dataset_id as nat == first_free_id(ids@),
            forall|i: int| 0 <= i < ids@.len() ==> #[trigger] ids@[i] < data.free_dataset_id,
            data.free_dataset_id >= 1,
    {
        let mut free: DatasetId = 1;
        let mut i: usize = 0;
        assert(ids@.take(0) =~= Seq::<DatasetId>::empty());
        while i < ids.len()
            invariant
                i <= ids@.len(),
                forall|k: int| 0 <= k < ids@.len() ==> #[trigger] ids@[k] < u16::MAX,
                free as nat == first_free_id(ids@.take(i as int)),
            decreases ids@.len() - i,
        {
            assert(ids@.take(i + 1).drop_last() =~= ids@.take(i as int));
            if ids[i] + 1 > free {
                free = ids[i] + 1;
            }
            i = i + 1;
        }
        assert(ids@.take(ids@.len() as int) =~= ids@);
        proof {
            lemma_first_free_id(ids@);
        }
        Data { free_dataset_id: free, sets: HashMap::new() }
    }

    /// Keeps a dataset that was loaded from disk under its id.
    pub fn insert_set(&mut self, id: DatasetId, set: DataSet)
        requires
            old(self).wf(),
            set.metadata.fields@.len() > 0,
        ensures
            final(self).wf(),
            final(self).sets@ == old(self).sets@.insert(id, set),
            final(self).free_dataset_id == old(self).free_dataset_id,
    {
        self.sets.insert(id, set);
    }

    /// Hands out the id for a new dataset.
    pub fn allocate_dataset_id(&mut self) -> (id: DatasetId)
        requires
            old(self).free_dataset_id < u16::MAX,
        ensures
            id == old(self).free_dataset_id,
            final(self).free_dataset_id == old(self).free_dataset_id + 1,
            final(self).sets@ == old(self).sets@,
    {
        let id = self.free_dataset_id;
        self.free_dataset_id = self.free_dataset_id + 1;
        id
    }

    /// Adds a new dataset under the next free id and returns that id. Where every id in
    /// use lies below the free id (as it does for data that `with_existing_ids` made and
    /// only this function added to), the id names no dataset yet and that stays so.
    pub fn add_set(&mut self, set: DataSet) -> (id: DatasetId)
        requires
            old(self).wf(),
            old(self).free_dataset_id < u16::MAX,
            set.metadata.fields@.len() > 0,
        ensures
            final(self).wf(),
            id == old(self).free_dataset_id,
            final(self).free_dataset_id == old(self).free_dataset_id + 1,
            final(self).sets@ == old(self).sets@.insert(id, set),
            (forall|k: DatasetId| #[trigger] old(self).sets@.contains_key(k) ==> k < old(
                self,
            ).free_dataset_id) ==> !old(self).sets@.contains_key(id) && forall|k: DatasetId|
                #[trigger] final(self).sets@.contains_key(k) ==> k < final(self).free_dataset_id,
    {
        let ghost before = self.sets@;
        let id = self.allocate_dataset_id();
        proof {
            if forall|k: DatasetId| #[trigger] before.contains_key(k) ==> k < id {
                lemma_new_dataset_id_is_fresh(before, id, set);
            }
        }
        self.insert_set(id, set);
        id
    }

    /// Checks the header of an error report from a sensor: at least 12 bytes, a known
    /// dataset id and that dataset's key.
    pub fn authenticate_error_packet(&self, packet: &[u8]) -> (res: Result<DatasetId, ()>)
        ensures
            res is Ok <==> authenticated_error_packet(self.sets@, packet@) is Some,
            res matches Ok(id) ==> authenticated_error_packet(self.sets@, packet@) == Some(id),
    {
        if packet.len() < 12 {
            return Err(());
        }
        let dataset_id = read_le_u16(packet, 0);
        let key = read_le_u64(packet, 2);
        match self.sets.get(&dataset_id) {
            Some(set) => {
                if key != set.metadata.key {
                    Err(())
                } else {
                    Ok(dataset_id)
                }
            },
            None => Err(()),
        }
    }

    /// Checks a data packet from a sensor and returns the dataset it is for and the
    /// line to append to it.
    pub fn check_new_data(&self, packet: &[u8]) -> (res: Result<(DatasetId, Vec<u8>), ()>)
        requires
            self.wf(),
        ensures
            res is Ok <==> accepted_data_packet(self.sets@, packet@) is Some,
            res matches Ok((id, line)) ==> accepted_data_packet(self.sets@, packet@) == Some(
                (id, line@),
            ),
    {
        if packet.len() < 11 {
            return Err(());
        }
        let dataset_id = read_le_u16(packet, 0);
        let key = read_le_u64(packet, 2);
        match self.sets.get(&dataset_id) {
            Some(set) => {
                if packet.len() != set.metadata.fieldsum() as usize + 10 {
                    return Err(());
                }
                if key != set.metadata.key {
                    return Err(());
                }
                let mut line: Vec<u8> = Vec::new();
                let mut i: usize = 10;
                while i < packet.len()
                    invariant
                        10 <= i <= packet@.len(),
                        line@ == packet@.subrange(10, i as int),
                    decreases packet@.len() - i,
                {
                    line.push(packet[i]);
                    i = i + 1;
                    assert(line@ =~= packet@.subrange(10, i as int));
                }
                assert(line@ =~= packet@.skip(10));
                Ok((dataset_id, line))
            },
            None => Err(()),
        }
    }
}

/// A packet that may be stored as data and is long enough to be an error report
/// authenticates as an error report of the same dataset.
pub proof fn lemma_stored_packet_authenticates(sets: Map<DatasetId, DataSet>, packet: Seq<u8>)
    requires
        packet.len() >= 12,
        accepted_data_packet(sets, packet) is Some,
    ensures
        authenticated_error_packet(sets, packet) == Some(accepted_data_packet(sets, packet).unwrap().0),
{
}

/// A sensor's packet, its dataset id and that dataset's key little-endian followed by a
/// line of the dataset's size, is accepted, and the line kept is the line sent. (A
/// dataset whose lines take no byte gets no packet accepted.)
pub proof fn lemma_sensor_packet_accepted(
    sets: Map<DatasetId, DataSet>,
    id: DatasetId,
    key: u64,
    line: Seq<u8>,
)
    requires
        sets.contains_key(id),
        sets[id].metadata.key == key,
        line.len() == line_size(sets[id].metadata.fields@),
        line.len() > 0,
    ensures
        accepted_data_packet(sets, le_bytes(id as nat, 2) + le_bytes(key as nat, 8) + line) == Some(
            (id, line),
        ),
{
    let head = le_bytes(id as nat, 2);
    let k = le_bytes(key as nat, 8);
    let packet = head + k + line;
    lemma_le_bytes_len(id as nat, 2);
    lemma_le_bytes_len(key as nat, 8);
    lemma_le_value_of_le_bytes(id as nat, 2);
    lemma_le_value_of_le_bytes(key as nat, 8);
    lemma_pow256_values();
    assert(packet.subrange(0, 2) =~= head);
    assert(packet.subrange(2, 10) =~= k);
    assert(packet.skip(10) =~= line);
}

/// Adding a dataset under the id handed out keeps every dataset id below the next one
/// to be handed out: where all ids are below the free id, that id names no dataset yet,
/// and after the dataset is put there all ids are below the new free id.
pub proof fn lemma_new_dataset_id_is_fresh(sets: Map<DatasetId, DataSet>, free: DatasetId, set: DataSet)
    requires
        forall|k: DatasetId| #[trigger] sets.contains_key(k) ==> k < free,
        free < u16::MAX,
    ensures
        !sets.contains_key(free),
        forall|k: DatasetId| #[trigger] sets.insert(free, set).contains_key(k) ==> k < free + 1,
{
}

/// The id made free for the datafiles `ids` is the smallest one above all of them that
/// is not 0: it is larger than every id of the list, and it is 1 or one more than an id
/// of the list.
pub proof fn lemma_first_free_id(ids: Seq<DatasetId>)
    ensures
        forall|i: int| 0 <= i < ids.len() ==> (#[trigger] ids[i]) < first_free_id(ids),
        first_free_id(ids) >= 1,
        first_free_id(ids) == 1 || exists|i: int|
            0 <= i < ids.len() && first_free_id(ids) == #[trigger] ids[i] + 1,
    decreases ids.len(),
{
    if ids.len() > 0 {
        let rest = ids.drop_last();
        lemma_first_free_id(rest);
        assert forall|i: int| 0 <= i < ids.len() implies (#[trigger] ids[i]) < first_free_id(ids) by {
            if i < ids.len() - 1 {
                assert(ids[i] == rest[i]);
            }
        }
        if first_free_id(ids) != 1 {
            if ids.last() + 1 > first_free_id(rest) {
                assert(first_free_id(ids) == ids[ids.len() - 1] + 1);
            } else {
                let i = choose|i: int| 0 <= i < rest.len() && first_free_id(rest) == #[trigger] rest[i] + 1;
                assert(rest[i] == ids[i]);
            }
        }
    }
}

/// The dataset id a datafile name carries.
pub fn datafile_id(name: &str) -> (id: Option<DatasetId>)
    ensures
        id is Some <==> datafile_id_of(name@) is Some,
        id matches Some(v) ==> datafile_id_of(name@) == Some(v as nat),
{
    let chars = chars_of(name);
    let n = chars.len();
    if n < 4 || chars[n - 4] != '.' || chars[n - 3] != 'd' || chars[n - 2] != 'a' || chars[n
        - 1] != 't' {
        proof {
            reveal_strlit(".dat");
            if n >= 4 {
                assert(name@.skip(n - 4)[0] == chars@[n - 4]);
                assert(name@.skip(n - 4)[1] == chars@[n - 3]);
                assert(name@.skip(n - 4)[2] == chars@[n - 2]);
                assert(name@.skip(n - 4)[3] == chars@[n - 1]);
            }
        }
        return None;
    }
    proof {
        reveal_strlit(".dat");
        assert(name@.skip(n - 4) =~= ".dat"@);
    }
    let stem = slice_prefix(chars.as_slice(), n - 4);
    match parse_unsigned_exec(stem.as_slice(), u16::MAX as u64) {
        Some(v) => Some(v as DatasetId),
        None => None,
    }
}

/// The first `n` elements of `s`.
fn slice_prefix(s: &[char], n: usize) -> (out: Vec<char>)
    requires
        n <= s@.len(),
    ensures
        out@ == s@.take(n as int),
{
    let mut out: Vec<char> = Vec::new();
    let mut i: usize = 0;
    while i < n
        invariant
            i <= n <= s@.len(),
            out@ == s@.take(i as int),
        decreases n - i,
    {
        out.push(s[i]);
        i = i + 1;
        assert(out@ =~= s@.take(i as int));
    }
    out
}

/// The ids the datafiles among `names` carry, in order.
pub open spec fn datafile_ids_of(names: Seq<String>) -> Seq<DatasetId>
    decreases names.len(),
{
    if names.len() == 0 {
        Seq::empty()
    } else {
        let rest = datafile_ids_of(names.drop_last());
        match datafile_id_of(names.last()@) {
            Some(v) => rest.push(v as DatasetId),
            None => rest,
        }
    }
}

/// The ids the datafiles among `names` carry, in order.
pub fn datafile_ids(names: &Vec<String>) -> (ids: Vec<DatasetId>)
    ensures
        ids@ == datafile_ids_of(names@),
{
    let mut ids: Vec<DatasetId> = Vec::new();
    let mut i: usize = 0;
    while i < names.len()
        invariant
            i <= names@.len(),
            ids@ == datafile_ids_of(names@.take(i as int)),
        decreases names@.len() - i,
    {
        assert(names@.take(i + 1).drop_last() =~= names@.take(i as int));
        match datafile_id(names[i].as_str()) {
            Some(id) => {
                ids.push(id);
            },
            None => {},
        }
        i = i + 1;
    }
    assert(names@.take(names@.len() as int) =~= names@);
    ids
}

} // verus!
