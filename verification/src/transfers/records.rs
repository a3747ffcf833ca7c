//! The records of the staged build: how each is laid out in bytes, and how it is read back.

use vstd::prelude::*;

verus! {

/// In which order the bytes of a number are stored.
#[derive(Clone, Copy, PartialEq, Eq, Structural, Debug)]
pub enum ByteOrder {
    Little,
    Big,
}

/// Why a record could not be read.
#[derive(Clone, Copy, PartialEq, Eq, Structural, Debug)]
pub enum RecordError {
    /// The bytes end within a field.
    InsideField,
    /// The bytes end before a field of the record.
    Truncated,
}

/// The bytes of `v`.
#[verifier::opaque]
pub open spec fn u32_bytes(order: ByteOrder, v: u32) -> Seq<u8> {
    let b0 = (v % 0x100) as u8;
    let b1 = (v / 0x100 % 0x100) as u8;
    let b2 = (v / 0x1_0000 % 0x100) as u8;
    let b3 = (v / 0x100_0000) as u8;
    match order {
        ByteOrder::Little => seq![b0, b1, b2, b3],
        ByteOrder::Big => seq![b3, b2, b1, b0],
    }
}

/// The bytes of `v`.
#[verifier::opaque]
pub open spec fn u64_bytes(order: ByteOrder, v: u64) -> Seq<u8> {
    let low = u32_bytes(order, (v % 0x1_0000_0000) as u32);
    let high = u32_bytes(order, (v / 0x1_0000_0000) as u32);
    match order {
        ByteOrder::Little => low + high,
        ByteOrder::Big => high + low,
    }
}

/// The number whose bytes stand at `at`.
#[verifier::opaque]
pub open spec fn u32_at(order: ByteOrder, bytes: Seq<u8>, at: int) -> u32 {
    let b0 = bytes[at];
    let b1 = bytes[at + 1];
    let b2 = bytes[at + 2];
    let b3 = bytes[at + 3];
    match order {
        ByteOrder::Little => (b0 + b1 * 0x100 + b2 * 0x1_0000 + b3 * 0x100_0000) as u32,
        ByteOrder::Big => (b0 * 0x100_0000 + b1 * 0x1_0000 + b2 * 0x100 + b3) as u32,
    }
}

/// The number whose bytes stand at `at`.
#[verifier::opaque]
pub open spec fn u64_at(order: ByteOrder, bytes: Seq<u8>, at: int) -> u64 {
    let first = u32_at(order, bytes, at);
    let second = u32_at(order, bytes, at + 4);
    match order {
        ByteOrder::Little => (first + second * 0x1_0000_0000) as u64,
        ByteOrder::Big => (first * 0x1_0000_0000 + second) as u64,
    }
}

/// The lowest byte of a number stands first in the one order, and last in the other, which is the
/// same backwards.
pub proof fn lemma_byte_orders(v: u32)
    ensures
        u32_bytes(ByteOrder::Little, v).len() == 4,
        u32_bytes(ByteOrder::Big, v).len() == 4,
        u32_bytes(ByteOrder::Little, v)[0] == v % 0x100,
        u32_bytes(ByteOrder::Little, v)[1] == v / 0x100 % 0x100,
        u32_bytes(ByteOrder::Little, v)[2] == v / 0x1_0000 % 0x100,
        u32_bytes(ByteOrder::Little, v)[3] == v / 0x100_0000,
        forall|i: int|
            0 <= i < 4 ==> #[trigger] u32_bytes(ByteOrder::Big, v)[i] == u32_bytes(
                ByteOrder::Little,
                v,
            )[3 - i],
{
    reveal(u32_bytes);
}

/// The half that holds the lowest byte stands first in the one order, and last in the other.
pub proof fn lemma_half_orders(v: u64)
    ensures
        u64_bytes(ByteOrder::Little, v) == u32_bytes(
            ByteOrder::Little,
            (v % 0x1_0000_0000) as u32,
        ) + u32_bytes(ByteOrder::Little, (v / 0x1_0000_0000) as u32),
        u64_bytes(ByteOrder::Big, v) == u32_bytes(ByteOrder::Big, (v / 0x1_0000_0000) as u32)
            + u32_bytes(ByteOrder::Big, (v % 0x1_0000_0000) as u32),
{
    reveal(u64_bytes);
}

/// `part` stands in `bytes` at `at`.
pub open spec fn stands_at(bytes: Seq<u8>, at: int, part: Seq<u8>) -> bool {
    &&& 0 <= at
    &&& at + part.len() <= bytes.len()
    &&& forall|i: int| 0 <= i < part.len() ==> bytes[at + i] == #[trigger] part[i]
}

/// How many bytes a number has.
pub proof fn lemma_sizes(order: ByteOrder)
    ensures
        forall|v: u32| (#[trigger] u32_bytes(order, v)).len() == 4,
        forall|v: u64| (#[trigger] u64_bytes(order, v)).len() == 8,
{
    reveal(u32_bytes);
    reveal(u64_bytes);
}

/// What stands together stands one after the other.
proof fn lemma_stand_apart(bytes: Seq<u8>, at: int, a: Seq<u8>, b: Seq<u8>)
    requires
        stands_at(bytes, at, a + b),
    ensures
        stands_at(bytes, at, a),
        stands_at(bytes, at + a.len(), b),
{
    let both = a + b;
    assert forall|i: int| 0 <= i < a.len() implies bytes[at + i] == #[trigger] a[i] by {
        assert(bytes[at + i] == both[i]);
    }
    assert forall|i: int| 0 <= i < b.len() implies bytes[at + a.len() + i] == #[trigger] b[i] by {
        assert(bytes[at + (a.len() + i)] == both[a.len() + i]);
    }
}

/// A number is read back from its bytes.
pub proof fn lemma_u32_reads_back(order: ByteOrder, bytes: Seq<u8>, at: int, v: u32)
    requires
        stands_at(bytes, at, u32_bytes(order, v)),
    ensures
        u32_at(order, bytes, at) == v,
{
    reveal(u32_bytes);
    reveal(u32_at);
    let part = u32_bytes(order, v);
    assert(bytes[at + 0] == part[0]);
    assert(bytes[at + 1] == part[1]);
    assert(bytes[at + 2] == part[2]);
    assert(bytes[at + 3] == part[3]);
}

/// A number is read back from its bytes.
pub proof fn lemma_u64_reads_back(order: ByteOrder, bytes: Seq<u8>, at: int, v: u64)
    requires
        stands_at(bytes, at, u64_bytes(order, v)),
    ensures
        u64_at(order, bytes, at) == v,
{
    reveal(u64_bytes);
    reveal(u64_at);
    lemma_sizes(order);
    let low = u32_bytes(order, (v % 0x1_0000_0000) as u32);
    let high = u32_bytes(order, (v / 0x1_0000_0000) as u32);
    match order {
        ByteOrder::Little => {
            lemma_stand_apart(bytes, at, low, high);
            lemma_u32_reads_back(order, bytes, at, (v % 0x1_0000_0000) as u32);
            lemma_u32_reads_back(order, bytes, at + 4, (v / 0x1_0000_0000) as u32);
        },
        ByteOrder::Big => {
            lemma_stand_apart(bytes, at, high, low);
            lemma_u32_reads_back(order, bytes, at, (v / 0x1_0000_0000) as u32);
            lemma_u32_reads_back(order, bytes, at + 4, (v % 0x1_0000_0000) as u32);
        },
    }
}

/// Writes a number.
pub fn write_u32(order: ByteOrder, v: u32, out: &mut Vec<u8>)
    ensures
        final(out)@ == old(out)@ + u32_bytes(order, v),
{
    proof {
        reveal(u32_bytes);
    }
    let b0: u8 = (v % 0x100) as u8;
    let b1: u8 = (v / 0x100 % 0x100) as u8;
    let b2: u8 = (v / 0x1_0000 % 0x100) as u8;
    let b3: u8 = (v / 0x100_0000) as u8;
    match order {
        ByteOrder::Little => {
            out.push(b0);
            out.push(b1);
            out.push(b2);
            out.push(b3);
        },
        ByteOrder::Big => {
            out.push(b3);
            out.push(b2);
            out.push(b1);
            out.push(b0);
        },
    }
    assert(out@ =~= old(out)@ + u32_bytes(order, v));
}

/// Writes a number.
pub fn write_u64(order: ByteOrder, v: u64, out: &mut Vec<u8>)
    ensures
        final(out)@ == old(out)@ + u64_bytes(order, v),
{
    proof {
        reveal(u64_bytes);
    }
    let low: u32 = (v % 0x1_0000_0000) as u32;
    let high: u32 = (v / 0x1_0000_0000) as u32;
    match order {
        ByteOrder::Little => {
            write_u32(order, low, out);
            write_u32(order, high, out);
        },
        ByteOrder::Big => {
            write_u32(order, high, out);
            write_u32(order, low, out);
        },
    }
    assert(out@ =~= old(out)@ + u64_bytes(order, v));
}

fn get_u32(order: ByteOrder, bytes: &[u8], at: usize) -> (v: u32)
    requires
        at + 4 <= bytes@.len(),
    ensures
        v == u32_at(order, bytes@, at as int),
{
    proof {
        reveal(u32_at);
    }
    let b0: u32 = bytes[at] as u32;
    let b1: u32 = bytes[at + 1] as u32;
    let b2: u32 = bytes[at + 2] as u32;
    let b3: u32 = bytes[at + 3] as u32;
    match order {
        ByteOrder::Little => b0 + b1 * 0x100 + b2 * 0x1_0000 + b3 * 0x100_0000,
        ByteOrder::Big => b0 * 0x100_0000 + b1 * 0x1_0000 + b2 * 0x100 + b3,
    }
}

fn get_u64(order: ByteOrder, bytes: &[u8], at: usize) -> (v: u64)
    requires
        at + 8 <= bytes@.len(),
    ensures
        v == u64_at(order, bytes@, at as int),
{
    proof {
        reveal(u64_at);
    }
    assert(bytes.len() == bytes@.len());
    let first: u64 = get_u32(order, bytes, at) as u64;
    let second: u64 = get_u32(order, bytes, at + 4) as u64;
    match order {
        ByteOrder::Little => first + second * 0x1_0000_0000,
        ByteOrder::Big => first * 0x1_0000_0000 + second,
    }
}

/// Reads a number at `at`: none where the bytes end there.
pub fn read_u32(order: ByteOrder, bytes: &[u8], at: usize) -> (r: Result<Option<u32>, RecordError>)
    requires
        at <= bytes@.len(),
    ensures
        bytes@.len() >= at + 4 ==> r == Ok::<_, RecordError>(
            Some(u32_at(order, bytes@, at as int)),
        ),
        bytes@.len() == at ==> r == Ok::<Option<u32>, RecordError>(None),
        at < bytes@.len() < at + 4 ==> r == Err::<Option<u32>, _>(RecordError::InsideField),
        bytes@.len() <= usize::MAX,
{
    let left: usize = bytes.len() - at;
    if left >= 4 {
        Ok(Some(get_u32(order, bytes, at)))
    } else if left == 0 {
        Ok(None)
    } else {
        Err(RecordError::InsideField)
    }
}

/// Reads a number at `at`: none where the bytes end there.
pub fn read_u64(order: ByteOrder, bytes: &[u8], at: usize) -> (r: Result<Option<u64>, RecordError>)
    requires
        at <= bytes@.len(),
    ensures
        bytes@.len() >= at + 8 ==> r == Ok::<_, RecordError>(
            Some(u64_at(order, bytes@, at as int)),
        ),
        bytes@.len() == at ==> r == Ok::<Option<u64>, RecordError>(None),
        at < bytes@.len() < at + 8 ==> r == Err::<Option<u64>, _>(RecordError::InsideField),
        bytes@.len() <= usize::MAX,
{
    let left: usize = bytes.len() - at;
    if left >= 8 {
        Ok(Some(get_u64(order, bytes, at)))
    } else if left == 0 {
        Ok(None)
    } else {
        Err(RecordError::InsideField)
    }
}

/// Reads a field that is not the first of its record.
fn next_u32(order: ByteOrder, bytes: &[u8], at: usize) -> (r: Result<u32, RecordError>)
    requires
        at <= bytes@.len(),
    ensures
        bytes@.len() >= at + 4 ==> r == Ok::<_, RecordError>(u32_at(order, bytes@, at as int)),
        bytes@.len() == at ==> r == Err::<u32, _>(RecordError::Truncated),
        at < bytes@.len() < at + 4 ==> r == Err::<u32, _>(RecordError::InsideField),
{
    match read_u32(order, bytes, at) {
        Ok(Some(v)) => Ok(v),
        Ok(None) => Err(RecordError::Truncated),
        Err(err) => Err(err),
    }
}

/// Reads a field that is not the first of its record.
fn next_u64(order: ByteOrder, bytes: &[u8], at: usize) -> (r: Result<u64, RecordError>)
    requires
        at <= bytes@.len(),
    ensures
        bytes@.len() >= at + 8 ==> r == Ok::<_, RecordError>(u64_at(order, bytes@, at as int)),
        bytes@.len() == at ==> r == Err::<u64, _>(RecordError::Truncated),
        at < bytes@.len() < at + 8 ==> r == Err::<u64, _>(RecordError::InsideField),
{
    match read_u64(order, bytes, at) {
        Ok(Some(v)) => Ok(v),
        Ok(None) => Err(RecordError::Truncated),
        Err(err) => Err(err),
    }
}

/// A record: fields of four or eight bytes, one after the other.
pub trait Record: Copy {
    /// How many bytes a record has.
    spec fn size() -> nat;

    /// Whether a field ends after `n` bytes, and another one follows.
    spec fn between_fields(n: int) -> bool;

    /// The bytes of the fields, one after the other.
    spec fn bytes(self, order: ByteOrder) -> Seq<u8>;

    /// The record whose bytes stand at `at`.
    spec fn at(order: ByteOrder, bytes: Seq<u8>, at: int) -> Self;

    /// Every record has as many bytes.
    proof fn lemma_size(self, order: ByteOrder)
        ensures
            self.bytes(order).len() == Self::size(),
            Self::size() > 0,
    ;

    /// A record is read back from its bytes.
    proof fn lemma_reads_back(self, order: ByteOrder, bytes: Seq<u8>, at: int)
        requires
            stands_at(bytes, at, self.bytes(order)),
        ensures
            Self::at(order, bytes, at) == self,
    ;

    /// How many bytes a record has.
    fn len() -> (n: usize)
        ensures
            n == Self::size(),
            n > 0,
    ;

    /// Writes the record.
    fn write_to(&self, order: ByteOrder, out: &mut Vec<u8>)
        ensures
            final(out)@ == old(out)@ + self.bytes(order),
    ;

    /// Reads the record at `at`: none where the bytes end there.
    fn read_from(order: ByteOrder, bytes: &[u8], at: usize) -> (r: Result<
        Option<Self>,
        RecordError,
    >)
        requires
            at <= bytes@.len(),
        ensures
            r == outcome(
                bytes@.len() - at,
                Self::size(),
                Self::between_fields(bytes@.len() - at),
                Self::at(order, bytes@, at as int),
            ),
    ;
}

/// What is read where `left` bytes are left: the record where all its bytes are there, none where
/// no byte is.
pub open spec fn outcome<R>(left: int, size: nat, between_fields: bool, record: R) -> Result<
    Option<R>,
    RecordError,
> {
    if left >= size {
        Ok(Some(record))
    } else if left == 0 {
        Ok(None)
    } else if between_fields {
        Err(RecordError::Truncated)
    } else {
        Err(RecordError::InsideField)
    }
}

/// What is read at `at`.
pub open spec fn read<R: Record>(order: ByteOrder, bytes: Seq<u8>, at: int) -> Result<
    Option<R>,
    RecordError,
> {
    let left = bytes.len() - at;
    outcome(left, R::size(), R::between_fields(left), R::at(order, bytes, at))
}

/// What all bytes are read as: one record after the other, to the end.
pub open spec fn all_read<R: Record>(order: ByteOrder, bytes: Seq<u8>) -> Result<
    Seq<R>,
    RecordError,
> {
    let whole = bytes.len() / R::size();
    match read::<R>(order, bytes, whole * R::size() as int) {
        Err(err) => Err(err),
        Ok(_) => Ok(Seq::new(whole, |i: int| R::at(order, bytes, i * R::size()))),
    }
}

/// Bytes are read as records exactly if they are whole records.
pub proof fn lemma_whole_records_read<R: Record>(order: ByteOrder, bytes: Seq<u8>)
    requires
        R::size() > 0,
    ensures
        all_read::<R>(order, bytes) is Ok <==> bytes.len() % R::size() == 0,
        all_read::<R>(order, bytes) matches Ok(all) ==> all.len() * R::size() == bytes.len(),
{
    let size = R::size() as int;
    let len = bytes.len() as int;
    vstd::arithmetic::div_mod::lemma_fundamental_div_mod(len, size);
    vstd::arithmetic::div_mod::lemma_mod_bound(len, size);
    assert(size * (len / size) == (len / size) * size) by (nonlinear_arith);
}

/// Reads all records.
pub fn read_all<R: Record>(order: ByteOrder, bytes: &[u8]) -> (r: Result<Vec<R>, RecordError>)
    ensures
        match all_read::<R>(order, bytes@) {
            Ok(all) => r matches Ok(records) && records@ == all,
            Err(err) => r == Err::<Vec<R>, _>(err),
        },
{
    let size: usize = R::len();
    let mut records: Vec<R> = Vec::new();
    let mut at: usize = 0;
    assert(0 * R::size() == 0) by (nonlinear_arith);
    loop
        invariant
            size == R::size(),
            size > 0,
            at <= bytes@.len(),
            at == records@.len() * R::size(),
            forall|i: int|
                0 <= i < records@.len() ==> #[trigger] records@[i] == R::at(
                    order,
                    bytes@,
                    i * R::size(),
                ),
        decreases bytes@.len() - at,
    {
        let found: Result<Option<R>, RecordError> = R::read_from(order, bytes, at);
        proof {
            if bytes@.len() - at < size {
                lemma_whole_records(bytes@.len(), records@.len(), R::size());
            }
        }
        match found {
            Err(err) => {
                return Err(err);
            },
            Ok(None) => {
                assert(records@ =~= all_read::<R>(order, bytes@)->Ok_0);
                return Ok(records);
            },
            Ok(Some(record)) => {
                assert(bytes.len() == bytes@.len());
                proof {
                    let n = records@.len();
                    assert((n + 1) * R::size() == n * R::size() + R::size()) by (nonlinear_arith);
                }
                records.push(record);
                at = at + size;
            },
        }
    }
}

/// Where less than a record is left, the records before it are all there are.
proof fn lemma_whole_records(len: nat, records: nat, size: nat)
    requires
        size > 0,
        records * size <= len < records * size + size,
    ensures
        len / size == records,
{
    vstd::arithmetic::div_mod::lemma_fundamental_div_mod_converse(
        len as int,
        size as int,
        records as int,
        len - records * size,
    );
}

/// The bytes of the first `k` records, one after the other.
pub open spec fn all_bytes<R: Record>(order: ByteOrder, records: Seq<R>, k: int) -> Seq<u8>
    decreases k,
{
    if k <= 0 {
        Seq::empty()
    } else {
        all_bytes(order, records, k - 1) + records[k - 1].bytes(order)
    }
}

/// Writes all records.
pub fn write_all<R: Record>(order: ByteOrder, records: &[R], out: &mut Vec<u8>)
    ensures
        final(out)@ == old(out)@ + all_bytes(order, records@, records@.len() as int),
{
    let ghost before = out@;
    let mut k: usize = 0;
    assert(before + Seq::<u8>::empty() =~= before);
    while k < records.len()
        invariant
            k <= records@.len(),
            out@ == before + all_bytes(order, records@, k as int),
        decreases records@.len() - k,
    {
        records[k].write_to(order, out);
        assert(out@ =~= before + all_bytes(order, records@, k + 1));
        k = k + 1;
    }
}

proof fn lemma_all_size<R: Record>(order: ByteOrder, records: Seq<R>, k: int)
    requires
        0 <= k <= records.len(),
    ensures
        all_bytes(order, records, k).len() == k * R::size(),
    decreases k,
{
    if k <= 0 {
        assert(k * R::size() == 0) by (nonlinear_arith)
            requires
                k == 0,
        ;
    } else {
        lemma_all_size(order, records, k - 1);
        records[k - 1].lemma_size(order);
        assert(k * R::size() == (k - 1) * R::size() + R::size()) by (nonlinear_arith);
    }
}

proof fn lemma_all_stand<R: Record>(order: ByteOrder, records: Seq<R>, k: int, i: int)
    requires
        0 <= i < k <= records.len(),
    ensures
        stands_at(all_bytes(order, records, k), i * R::size(), records[i].bytes(order)),
    decreases k,
{
    let whole = all_bytes(order, records, k);
    let before = all_bytes(order, records, k - 1);
    let part = records[i].bytes(order);
    let at = i * R::size();
    lemma_all_size(order, records, k - 1);
    lemma_all_size(order, records, k);
    records[i].lemma_size(order);
    assert(0 <= at) by (nonlinear_arith)
        requires
            0 <= i,
            at == i * R::size(),
    ;
    if i < k - 1 {
        lemma_all_stand(order, records, k - 1, i);
        assert forall|j: int| 0 <= j < part.len() implies whole[at + j] == #[trigger] part[j] by {
            assert(before[at + j] == part[j]);
        }
    }
}

/// All records that were written are read back, in order.
pub proof fn lemma_all_read_back<R: Record>(order: ByteOrder, records: Seq<R>)
    requires
        R::size() > 0,
    ensures
        all_read::<R>(order, all_bytes(order, records, records.len() as int)) == Ok::<
            _,
            RecordError,
        >(records),
{
    let n = records.len();
    let bytes = all_bytes(order, records, n as int);
    lemma_all_size(order, records, n as int);
    lemma_whole_records(bytes.len(), n, R::size());
    assert forall|i: int| 0 <= i < n implies #[trigger] records[i] == R::at(
        order,
        bytes,
        i * R::size(),
    ) by {
        lemma_all_stand(order, records, n as int, i);
        records[i].lemma_reads_back(order, bytes, i * R::size());
    }
    assert(all_read::<R>(order, bytes)->Ok_0 =~= records);
}

/// A pedestrian way between two raw nodes.
#[derive(Clone, Copy, PartialEq, Eq, Structural, Debug)]
pub struct RawGraphEdgeRecord {
    pub from_raw: u32,
    pub to_raw: u32,
    pub weight_mm: u32,
}

impl Record for RawGraphEdgeRecord {
    open spec fn size() -> nat {
        12
    }

    open spec fn between_fields(n: int) -> bool {
        n == 4 || n == 8
    }

    open spec fn bytes(self, order: ByteOrder) -> Seq<u8> {
        u32_bytes(order, self.from_raw)
            + u32_bytes(order, self.to_raw)
            + u32_bytes(order, self.weight_mm)
    }

    open spec fn at(order: ByteOrder, bytes: Seq<u8>, at: int) -> RawGraphEdgeRecord {
        RawGraphEdgeRecord {
            from_raw: u32_at(order, bytes, at),
            to_raw: u32_at(order, bytes, at + 4),
            weight_mm: u32_at(order, bytes, at + 8),
        }
    }

    proof fn lemma_size(self, order: ByteOrder) {
        lemma_sizes(order);
    }

    proof fn lemma_reads_back(self, order: ByteOrder, bytes: Seq<u8>, at: int) {
        lemma_sizes(order);
        let f0 = u32_bytes(order, self.from_raw);
        let f1 = u32_bytes(order, self.to_raw);
        let f2 = u32_bytes(order, self.weight_mm);
        lemma_stand_apart(bytes, at, f0 + f1, f2);
        lemma_stand_apart(bytes, at, f0, f1);
        lemma_u32_reads_back(order, bytes, at, self.from_raw);
        lemma_u32_reads_back(order, bytes, at + 4, self.to_raw);
        lemma_u32_reads_back(order, bytes, at + 8, self.weight_mm);
    }

    fn len() -> (n: usize) {
        12
    }

    fn write_to(&self, order: ByteOrder, out: &mut Vec<u8>) {
        write_u32(order, self.from_raw, out);
        write_u32(order, self.to_raw, out);
        write_u32(order, self.weight_mm, out);
        assert(out@ =~= old(out)@ + self.bytes(order));
    }

    fn read_from(order: ByteOrder, bytes: &[u8], at: usize) -> (r: Result<
        Option<RawGraphEdgeRecord>,
        RecordError,
    >) {
        let from_raw: u32 = match read_u32(order, bytes, at) {
            Ok(Some(v)) => v,
            Ok(None) => {
                return Ok(None);
            },
            Err(err) => {
                return Err(err);
            },
        };
        let to_raw: u32 = match next_u32(order, bytes, at + 4) {
            Ok(v) => v,
            Err(err) => {
                return Err(err);
            },
        };
        let weight_mm: u32 = match next_u32(order, bytes, at + 8) {
            Ok(v) => v,
            Err(err) => {
                return Err(err);
            },
        };
        Ok(Some(RawGraphEdgeRecord { from_raw, to_raw, weight_mm }))
    }
}

/// A point of the shape of a way that leaves a raw node.
#[derive(Clone, Copy, PartialEq, Eq, Structural, Debug)]
pub struct PointRecord {
    pub cell: u64,
    pub raw_node: u32,
}

impl Record for PointRecord {
    open spec fn size() -> nat {
        12
    }

    open spec fn between_fields(n: int) -> bool {
        n == 8
    }

    open spec fn bytes(self, order: ByteOrder) -> Seq<u8> {
        u64_bytes(order, self.cell)
            + u32_bytes(order, self.raw_node)
    }

    open spec fn at(order: ByteOrder, bytes: Seq<u8>, at: int) -> PointRecord {
        PointRecord {
            cell: u64_at(order, bytes, at),
            raw_node: u32_at(order, bytes, at + 8),
        }
    }

    proof fn lemma_size(self, order: ByteOrder) {
        lemma_sizes(order);
    }

    proof fn lemma_reads_back(self, order: ByteOrder, bytes: Seq<u8>, at: int) {
        lemma_sizes(order);
        let f0 = u64_bytes(order, self.cell);
        let f1 = u32_bytes(order, self.raw_node);
        lemma_stand_apart(bytes, at, f0, f1);
        lemma_u64_reads_back(order, bytes, at, self.cell);
        lemma_u32_reads_back(order, bytes, at + 8, self.raw_node);
    }

    fn len() -> (n: usize) {
        12
    }

    fn write_to(&self, order: ByteOrder, out: &mut Vec<u8>) {
        write_u64(order, self.cell, out);
        write_u32(order, self.raw_node, out);
        assert(out@ =~= old(out)@ + self.bytes(order));
    }

    fn read_from(order: ByteOrder, bytes: &[u8], at: usize) -> (r: Result<
        Option<PointRecord>,
        RecordError,
    >) {
        let cell: u64 = match read_u64(order, bytes, at) {
            Ok(Some(v)) => v,
            Ok(None) => {
                return Ok(None);
            },
            Err(err) => {
                return Err(err);
            },
        };
        let raw_node: u32 = match next_u32(order, bytes, at + 8) {
            Ok(v) => v,
            Err(err) => {
                return Err(err);
            },
        };
        Ok(Some(PointRecord { cell, raw_node }))
    }
}

/// The length of a way between raw nodes, by its bit pattern, and where its shape is stored.
#[derive(Clone, Copy, PartialEq, Eq, Structural, Debug)]
pub struct RawMetadataRecord {
    pub from_raw: u32,
    pub to_raw: u32,
    pub length_bits: u64,
    pub shape_offset: u64,
    pub shape_len: u32,
}

impl Record for RawMetadataRecord {
    open spec fn size() -> nat {
        28
    }

    open spec fn between_fields(n: int) -> bool {
        n == 4 || n == 8 || n == 16 || n == 24
    }

    open spec fn bytes(self, order: ByteOrder) -> Seq<u8> {
        u32_bytes(order, self.from_raw)
            + u32_bytes(order, self.to_raw)
            + u64_bytes(order, self.length_bits)
            + u64_bytes(order, self.shape_offset)
            + u32_bytes(order, self.shape_len)
    }

    open spec fn at(order: ByteOrder, bytes: Seq<u8>, at: int) -> RawMetadataRecord {
        RawMetadataRecord {
            from_raw: u32_at(order, bytes, at),
            to_raw: u32_at(order, bytes, at + 4),
            length_bits: u64_at(order, bytes, at + 8),
            shape_offset: u64_at(order, bytes, at + 16),
            shape_len: u32_at(order, bytes, at + 24),
        }
    }

    proof fn lemma_size(self, order: ByteOrder) {
        lemma_sizes(order);
    }

    proof fn lemma_reads_back(self, order: ByteOrder, bytes: Seq<u8>, at: int) {
        lemma_sizes(order);
        let f0 = u32_bytes(order, self.from_raw);
        let f1 = u32_bytes(order, self.to_raw);
        let f2 = u64_bytes(order, self.length_bits);
        let f3 = u64_bytes(order, self.shape_offset);
        let f4 = u32_bytes(order, self.shape_len);
        lemma_stand_apart(bytes, at, f0 + f1 + f2 + f3, f4);
        lemma_stand_apart(bytes, at, f0 + f1 + f2, f3);
        lemma_stand_apart(bytes, at, f0 + f1, f2);
        lemma_stand_apart(bytes, at, f0, f1);
        lemma_u32_reads_back(order, bytes, at, self.from_raw);
        lemma_u32_reads_back(order, bytes, at + 4, self.to_raw);
        lemma_u64_reads_back(order, bytes, at + 8, self.length_bits);
        lemma_u64_reads_back(order, bytes, at + 16, self.shape_offset);
        lemma_u32_reads_back(order, bytes, at + 24, self.shape_len);
    }

    fn len() -> (n: usize) {
        28
    }

    fn write_to(&self, order: ByteOrder, out: &mut Vec<u8>) {
        write_u32(order, self.from_raw, out);
        write_u32(order, self.to_raw, out);
        write_u64(order, self.length_bits, out);
        write_u64(order, self.shape_offset, out);
        write_u32(order, self.shape_len, out);
        assert(out@ =~= old(out)@ + self.bytes(order));
    }

    fn read_from(order: ByteOrder, bytes: &[u8], at: usize) -> (r: Result<
        Option<RawMetadataRecord>,
        RecordError,
    >) {
        let from_raw: u32 = match read_u32(order, bytes, at) {
            Ok(Some(v)) => v,
            Ok(None) => {
                return Ok(None);
            },
            Err(err) => {
                return Err(err);
            },
        };
        let to_raw: u32 = match next_u32(order, bytes, at + 4) {
            Ok(v) => v,
            Err(err) => {
                return Err(err);
            },
        };
        let length_bits: u64 = match next_u64(order, bytes, at + 8) {
            Ok(v) => v,
            Err(err) => {
                return Err(err);
            },
        };
        let shape_offset: u64 = match next_u64(order, bytes, at + 16) {
            Ok(v) => v,
            Err(err) => {
                return Err(err);
            },
        };
        let shape_len: u32 = match next_u32(order, bytes, at + 24) {
            Ok(v) => v,
            Err(err) => {
                return Err(err);
            },
        };
        Ok(Some(RawMetadataRecord { from_raw, to_raw, length_bits, shape_offset, shape_len }))
    }
}

/// A pedestrian way between two compact nodes.
#[derive(Clone, Copy, PartialEq, Eq, Structural, Debug)]
pub struct CompactGraphEdgeRecord {
    pub from: u32,
    pub to: u32,
    pub weight_mm: u32,
}

impl Record for CompactGraphEdgeRecord {
    open spec fn size() -> nat {
        12
    }

    open spec fn between_fields(n: int) -> bool {
        n == 4 || n == 8
    }

    open spec fn bytes(self, order: ByteOrder) -> Seq<u8> {
        u32_bytes(order, self.from)
            + u32_bytes(order, self.to)
            + u32_bytes(order, self.weight_mm)
    }

    open spec fn at(order: ByteOrder, bytes: Seq<u8>, at: int) -> CompactGraphEdgeRecord {
        CompactGraphEdgeRecord {
            from: u32_at(order, bytes, at),
            to: u32_at(order, bytes, at + 4),
            weight_mm: u32_at(order, bytes, at + 8),
        }
    }

    proof fn lemma_size(self, order: ByteOrder) {
        lemma_sizes(order);
    }

    proof fn lemma_reads_back(self, order: ByteOrder, bytes: Seq<u8>, at: int) {
        lemma_sizes(order);
        let f0 = u32_bytes(order, self.from);
        let f1 = u32_bytes(order, self.to);
        let f2 = u32_bytes(order, self.weight_mm);
        lemma_stand_apart(bytes, at, f0 + f1, f2);
        lemma_stand_apart(bytes, at, f0, f1);
        lemma_u32_reads_back(order, bytes, at, self.from);
        lemma_u32_reads_back(order, bytes, at + 4, self.to);
        lemma_u32_reads_back(order, bytes, at + 8, self.weight_mm);
    }

    fn len() -> (n: usize) {
        12
    }

    fn write_to(&self, order: ByteOrder, out: &mut Vec<u8>) {
        write_u32(order, self.from, out);
        write_u32(order, self.to, out);
        write_u32(order, self.weight_mm, out);
        assert(out@ =~= old(out)@ + self.bytes(order));
    }

    fn read_from(order: ByteOrder, bytes: &[u8], at: usize) -> (r: Result<
        Option<CompactGraphEdgeRecord>,
        RecordError,
    >) {
        let from: u32 = match read_u32(order, bytes, at) {
            Ok(Some(v)) => v,
            Ok(None) => {
                return Ok(None);
            },
            Err(err) => {
                return Err(err);
            },
        };
        let to: u32 = match next_u32(order, bytes, at + 4) {
            Ok(v) => v,
            Err(err) => {
                return Err(err);
            },
        };
        let weight_mm: u32 = match next_u32(order, bytes, at + 8) {
            Ok(v) => v,
            Err(err) => {
                return Err(err);
            },
        };
        Ok(Some(CompactGraphEdgeRecord { from, to, weight_mm }))
    }
}

/// A point of the shape of a way that leaves a compact node.
#[derive(Clone, Copy, PartialEq, Eq, Structural, Debug)]
pub struct CompactPointRecord {
    pub cell: u64,
    pub compact_node: u32,
}

impl Record for CompactPointRecord {
    open spec fn size() -> nat {
        12
    }

    open spec fn between_fields(n: int) -> bool {
        n == 8
    }

    open spec fn bytes(self, order: ByteOrder) -> Seq<u8> {
        u64_bytes(order, self.cell)
            + u32_bytes(order, self.compact_node)
    }

    open spec fn at(order: ByteOrder, bytes: Seq<u8>, at: int) -> CompactPointRecord {
        CompactPointRecord {
            cell: u64_at(order, bytes, at),
            compact_node: u32_at(order, bytes, at + 8),
        }
    }

    proof fn lemma_size(self, order: ByteOrder) {
        lemma_sizes(order);
    }

    proof fn lemma_reads_back(self, order: ByteOrder, bytes: Seq<u8>, at: int) {
        lemma_sizes(order);
        let f0 = u64_bytes(order, self.cell);
        let f1 = u32_bytes(order, self.compact_node);
        lemma_stand_apart(bytes, at, f0, f1);
        lemma_u64_reads_back(order, bytes, at, self.cell);
        lemma_u32_reads_back(order, bytes, at + 8, self.compact_node);
    }

    fn len() -> (n: usize) {
        12
    }

    fn write_to(&self, order: ByteOrder, out: &mut Vec<u8>) {
        write_u64(order, self.cell, out);
        write_u32(order, self.compact_node, out);
        assert(out@ =~= old(out)@ + self.bytes(order));
    }

    fn read_from(order: ByteOrder, bytes: &[u8], at: usize) -> (r: Result<
        Option<CompactPointRecord>,
        RecordError,
    >) {
        let cell: u64 = match read_u64(order, bytes, at) {
            Ok(Some(v)) => v,
            Ok(None) => {
                return Ok(None);
            },
            Err(err) => {
                return Err(err);
            },
        };
        let compact_node: u32 = match next_u32(order, bytes, at + 8) {
            Ok(v) => v,
            Err(err) => {
                return Err(err);
            },
        };
        Ok(Some(CompactPointRecord { cell, compact_node }))
    }
}

/// The length of a way between compact nodes, by its bit pattern, and where its shape is stored.
#[derive(Clone, Copy, PartialEq, Eq, Structural, Debug)]
pub struct CompactMetadataRecord {
    pub from: u32,
    pub to: u32,
    pub length_bits: u64,
    pub shape_offset: u64,
    pub shape_len: u32,
}

impl Record for CompactMetadataRecord {
    open spec fn size() -> nat {
        28
    }

    open spec fn between_fields(n: int) -> bool {
        n == 4 || n == 8 || n == 16 || n == 24
    }

    open spec fn bytes(self, order: ByteOrder) -> Seq<u8> {
        u32_bytes(order, self.from)
            + u32_bytes(order, self.to)
            + u64_bytes(order, self.length_bits)
            + u64_bytes(order, self.shape_offset)
            + u32_bytes(order, self.shape_len)
    }

    open spec fn at(order: ByteOrder, bytes: Seq<u8>, at: int) -> CompactMetadataRecord {
        CompactMetadataRecord {
            from: u32_at(order, bytes, at),
            to: u32_at(order, bytes, at + 4),
            length_bits: u64_at(order, bytes, at + 8),
            shape_offset: u64_at(order, bytes, at + 16),
            shape_len: u32_at(order, bytes, at + 24),
        }
    }

    proof fn lemma_size(self, order: ByteOrder) {
        lemma_sizes(order);
    }

    proof fn lemma_reads_back(self, order: ByteOrder, bytes: Seq<u8>, at: int) {
        lemma_sizes(order);
        let f0 = u32_bytes(order, self.from);
        let f1 = u32_bytes(order, self.to);
        let f2 = u64_bytes(order, self.length_bits);
        let f3 = u64_bytes(order, self.shape_offset);
        let f4 = u32_bytes(order, self.shape_len);
        lemma_stand_apart(bytes, at, f0 + f1 + f2 + f3, f4);
        lemma_stand_apart(bytes, at, f0 + f1 + f2, f3);
        lemma_stand_apart(bytes, at, f0 + f1, f2);
        lemma_stand_apart(bytes, at, f0, f1);
        lemma_u32_reads_back(order, bytes, at, self.from);
        lemma_u32_reads_back(order, bytes, at + 4, self.to);
        lemma_u64_reads_back(order, bytes, at + 8, self.length_bits);
        lemma_u64_reads_back(order, bytes, at + 16, self.shape_offset);
        lemma_u32_reads_back(order, bytes, at + 24, self.shape_len);
    }

    fn len() -> (n: usize) {
        28
    }

    fn write_to(&self, order: ByteOrder, out: &mut Vec<u8>) {
        write_u32(order, self.from, out);
        write_u32(order, self.to, out);
        write_u64(order, self.length_bits, out);
        write_u64(order, self.shape_offset, out);
        write_u32(order, self.shape_len, out);
        assert(out@ =~= old(out)@ + self.bytes(order));
    }

    fn read_from(order: ByteOrder, bytes: &[u8], at: usize) -> (r: Result<
        Option<CompactMetadataRecord>,
        RecordError,
    >) {
        let from: u32 = match read_u32(order, bytes, at) {
            Ok(Some(v)) => v,
            Ok(None) => {
                return Ok(None);
            },
            Err(err) => {
                return Err(err);
            },
        };
        let to: u32 = match next_u32(order, bytes, at + 4) {
            Ok(v) => v,
            Err(err) => {
                return Err(err);
            },
        };
        let length_bits: u64 = match next_u64(order, bytes, at + 8) {
            Ok(v) => v,
            Err(err) => {
                return Err(err);
            },
        };
        let shape_offset: u64 = match next_u64(order, bytes, at + 16) {
            Ok(v) => v,
            Err(err) => {
                return Err(err);
            },
        };
        let shape_len: u32 = match next_u32(order, bytes, at + 24) {
            Ok(v) => v,
            Err(err) => {
                return Err(err);
            },
        };
        Ok(Some(CompactMetadataRecord { from, to, length_bits, shape_offset, shape_len }))
    }
}

/// Where the fields of a record stand: one after the other, `from_raw`, `to_raw` and `weight_mm`.
pub proof fn lemma_raw_graph_edge_layout(order: ByteOrder, record: RawGraphEdgeRecord)
    ensures
        record.bytes(order).len() == 12,
        u32_at(order, record.bytes(order), 0) == record.from_raw,
        u32_at(order, record.bytes(order), 4) == record.to_raw,
        u32_at(order, record.bytes(order), 8) == record.weight_mm,
{
    let bytes = record.bytes(order);
    lemma_sizes(order);
    let f0 = u32_bytes(order, record.from_raw);
    let f1 = u32_bytes(order, record.to_raw);
    let f2 = u32_bytes(order, record.weight_mm);
    assert(stands_at(bytes, 0, f0 + f1 + f2));
    lemma_stand_apart(bytes, 0, f0 + f1, f2);
    lemma_stand_apart(bytes, 0, f0, f1);
    lemma_u32_reads_back(order, bytes, 0, record.from_raw);
    lemma_u32_reads_back(order, bytes, 4, record.to_raw);
    lemma_u32_reads_back(order, bytes, 8, record.weight_mm);
}

/// Where the fields of a record stand: one after the other, `cell` and `raw_node`.
pub proof fn lemma_point_layout(order: ByteOrder, record: PointRecord)
    ensures
        record.bytes(order).len() == 12,
        u64_at(order, record.bytes(order), 0) == record.cell,
        u32_at(order, record.bytes(order), 8) == record.raw_node,
{
    let bytes = record.bytes(order);
    lemma_sizes(order);
    let f0 = u64_bytes(order, record.cell);
    let f1 = u32_bytes(order, record.raw_node);
    assert(stands_at(bytes, 0, f0 + f1));
    lemma_stand_apart(bytes, 0, f0, f1);
    lemma_u64_reads_back(order, bytes, 0, record.cell);
    lemma_u32_reads_back(order, bytes, 8, record.raw_node);
}

/// Where the fields of a record stand: one after the other, `from_raw`, `to_raw`, `length_bits`,
/// `shape_offset` and `shape_len`.
pub proof fn lemma_raw_metadata_layout(order: ByteOrder, record: RawMetadataRecord)
    ensures
        record.bytes(order).len() == 28,
        u32_at(order, record.bytes(order), 0) == record.from_raw,
        u32_at(order, record.bytes(order), 4) == record.to_raw,
        u64_at(order, record.bytes(order), 8) == record.length_bits,
        u64_at(order, record.bytes(order), 16) == record.shape_offset,
        u32_at(order, record.bytes(order), 24) == record.shape_len,
{
    let bytes = record.bytes(order);
    lemma_sizes(order);
    let f0 = u32_bytes(order, record.from_raw);
    let f1 = u32_bytes(order, record.to_raw);
    let f2 = u64_bytes(order, record.length_bits);
    let f3 = u64_bytes(order, record.shape_offset);
    let f4 = u32_bytes(order, record.shape_len);
    assert(stands_at(bytes, 0, f0 + f1 + f2 + f3 + f4));
    lemma_stand_apart(bytes, 0, f0 + f1 + f2 + f3, f4);
    lemma_stand_apart(bytes, 0, f0 + f1 + f2, f3);
    lemma_stand_apart(bytes, 0, f0 + f1, f2);
    lemma_stand_apart(bytes, 0, f0, f1);
    lemma_u32_reads_back(order, bytes, 0, record.from_raw);
    lemma_u32_reads_back(order, bytes, 4, record.to_raw);
    lemma_u64_reads_back(order, bytes, 8, record.length_bits);
    lemma_u64_reads_back(order, bytes, 16, record.shape_offset);
    lemma_u32_reads_back(order, bytes, 24, record.shape_len);
}

/// Where the fields of a record stand: one after the other, `from`, `to` and `weight_mm`.
pub proof fn lemma_compact_graph_edge_layout(order: ByteOrder, record: CompactGraphEdgeRecord)
    ensures
        record.bytes(order).len() == 12,
        u32_at(order, record.bytes(order), 0) == record.from,
        u32_at(order, record.bytes(order), 4) == record.to,
        u32_at(order, record.bytes(order), 8) == record.weight_mm,
{
    let bytes = record.bytes(order);
    lemma_sizes(order);
    let f0 = u32_bytes(order, record.from);
    let f1 = u32_bytes(order, record.to);
    let f2 = u32_bytes(order, record.weight_mm);
    assert(stands_at(bytes, 0, f0 + f1 + f2));
    lemma_stand_apart(bytes, 0, f0 + f1, f2);
    lemma_stand_apart(bytes, 0, f0, f1);
    lemma_u32_reads_back(order, bytes, 0, record.from);
    lemma_u32_reads_back(order, bytes, 4, record.to);
    lemma_u32_reads_back(order, bytes, 8, record.weight_mm);
}

/// Where the fields of a record stand: one after the other, `cell` and `compact_node`.
pub proof fn lemma_compact_point_layout(order: ByteOrder, record: CompactPointRecord)
    ensures
        record.bytes(order).len() == 12,
        u64_at(order, record.bytes(order), 0) == record.cell,
        u32_at(order, record.bytes(order), 8) == record.compact_node,
{
    let bytes = record.bytes(order);
    lemma_sizes(order);
    let f0 = u64_bytes(order, record.cell);
    let f1 = u32_bytes(order, record.compact_node);
    assert(stands_at(bytes, 0, f0 + f1));
    lemma_stand_apart(bytes, 0, f0, f1);
    lemma_u64_reads_back(order, bytes, 0, record.cell);
    lemma_u32_reads_back(order, bytes, 8, record.compact_node);
}

/// Where the fields of a record stand: one after the other, `from`, `to`, `length_bits`,
/// `shape_offset` and `shape_len`.
pub proof fn lemma_compact_metadata_layout(order: ByteOrder, record: CompactMetadataRecord)
    ensures
        record.bytes(order).len() == 28,
        u32_at(order, record.bytes(order), 0) == record.from,
        u32_at(order, record.bytes(order), 4) == record.to,
        u64_at(order, record.bytes(order), 8) == record.length_bits,
        u64_at(order, record.bytes(order), 16) == record.shape_offset,
        u32_at(order, record.bytes(order), 24) == record.shape_len,
{
    let bytes = record.bytes(order);
    lemma_sizes(order);
    let f0 = u32_bytes(order, record.from);
    let f1 = u32_bytes(order, record.to);
    let f2 = u64_bytes(order, record.length_bits);
    let f3 = u64_bytes(order, record.shape_offset);
    let f4 = u32_bytes(order, record.shape_len);
    assert(stands_at(bytes, 0, f0 + f1 + f2 + f3 + f4));
    lemma_stand_apart(bytes, 0, f0 + f1 + f2 + f3, f4);
    lemma_stand_apart(bytes, 0, f0 + f1 + f2, f3);
    lemma_stand_apart(bytes, 0, f0 + f1, f2);
    lemma_stand_apart(bytes, 0, f0, f1);
    lemma_u32_reads_back(order, bytes, 0, record.from);
    lemma_u32_reads_back(order, bytes, 4, record.to);
    lemma_u64_reads_back(order, bytes, 8, record.length_bits);
    lemma_u64_reads_back(order, bytes, 16, record.shape_offset);
    lemma_u32_reads_back(order, bytes, 24, record.shape_len);
}

/// Bytes that end within a record fail: as truncated where they end between two of its fields.
pub proof fn lemma_raw_graph_edge_cut_short(order: ByteOrder, bytes: Seq<u8>)
    ensures
        ({
            let left = bytes.len() % 12;
            let all = all_read::<RawGraphEdgeRecord>(order, bytes);
            &&& left == 0 <==> all is Ok
            &&& left != 0 && (left == 4 || left == 8) ==> all == Err::<
                Seq<RawGraphEdgeRecord>,
                _,
            >(RecordError::Truncated)
            &&& left != 0 && !(left == 4 || left == 8) ==> all == Err::<
                Seq<RawGraphEdgeRecord>,
                _,
            >(RecordError::InsideField)
        }),
{
    lemma_whole_records_read::<RawGraphEdgeRecord>(order, bytes);
}

/// Bytes that end within a record fail: as truncated where they end between two of its fields.
pub proof fn lemma_point_cut_short(order: ByteOrder, bytes: Seq<u8>)
    ensures
        ({
            let left = bytes.len() % 12;
            let all = all_read::<PointRecord>(order, bytes);
            &&& left == 0 <==> all is Ok
            &&& left != 0 && (left == 8) ==> all == Err::<
                Seq<PointRecord>,
                _,
            >(RecordError::Truncated)
            &&& left != 0 && !(left == 8) ==> all == Err::<
                Seq<PointRecord>,
                _,
            >(RecordError::InsideField)
        }),
{
    lemma_whole_records_read::<PointRecord>(order, bytes);
}

/// Bytes that end within a record fail: as truncated where they end between two of its fields.
pub proof fn lemma_raw_metadata_cut_short(order: ByteOrder, bytes: Seq<u8>)
    ensures
        ({
            let left = bytes.len() % 28;
            let all = all_read::<RawMetadataRecord>(order, bytes);
            &&& left == 0 <==> all is Ok
            &&& left != 0 && (left == 4 || left == 8 || left == 16 || left == 24) ==> all == Err::<
                Seq<RawMetadataRecord>,
                _,
            >(RecordError::Truncated)
            &&& left != 0 && !(left == 4 || left == 8 || left == 16 || left == 24) ==> all == Err::<
                Seq<RawMetadataRecord>,
                _,
            >(RecordError::InsideField)
        }),
{
    lemma_whole_records_read::<RawMetadataRecord>(order, bytes);
}

/// Bytes that end within a record fail: as truncated where they end between two of its fields.
pub proof fn lemma_compact_graph_edge_cut_short(order: ByteOrder, bytes: Seq<u8>)
    ensures
        ({
            let left = bytes.len() % 12;
            let all = all_read::<CompactGraphEdgeRecord>(order, bytes);
            &&& left == 0 <==> all is Ok
            &&& left != 0 && (left == 4 || left == 8) ==> all == Err::<
                Seq<CompactGraphEdgeRecord>,
                _,
            >(RecordError::Truncated)
            &&& left != 0 && !(left == 4 || left == 8) ==> all == Err::<
                Seq<CompactGraphEdgeRecord>,
                _,
            >(RecordError::InsideField)
        }),
{
    lemma_whole_records_read::<CompactGraphEdgeRecord>(order, bytes);
}

/// Bytes that end within a record fail: as truncated where they end between two of its fields.
pub proof fn lemma_compact_point_cut_short(order: ByteOrder, bytes: Seq<u8>)
    ensures
        ({
            let left = bytes.len() % 12;
            let all = all_read::<CompactPointRecord>(order, bytes);
            &&& left == 0 <==> all is Ok
            &&& left != 0 && (left == 8) ==> all == Err::<
                Seq<CompactPointRecord>,
                _,
            >(RecordError::Truncated)
            &&& left != 0 && !(left == 8) ==> all == Err::<
                Seq<CompactPointRecord>,
                _,
            >(RecordError::InsideField)
        }),
{
    lemma_whole_records_read::<CompactPointRecord>(order, bytes);
}

/// Bytes that end within a record fail: as truncated where they end between two of its fields.
pub proof fn lemma_compact_metadata_cut_short(order: ByteOrder, bytes: Seq<u8>)
    ensures
        ({
            let left = bytes.len() % 28;
            let all = all_read::<CompactMetadataRecord>(order, bytes);
            &&& left == 0 <==> all is Ok
            &&& left != 0 && (left == 4 || left == 8 || left == 16 || left == 24) ==> all == Err::<
                Seq<CompactMetadataRecord>,
                _,
            >(RecordError::Truncated)
            &&& left != 0 && !(left == 4 || left == 8 || left == 16 || left == 24) ==> all == Err::<
                Seq<CompactMetadataRecord>,
                _,
            >(RecordError::InsideField)
        }),
{
    lemma_whole_records_read::<CompactMetadataRecord>(order, bytes);
}

} // verus!
