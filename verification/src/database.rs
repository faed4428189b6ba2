//! Rows of the signature cache: how an entry is written, when a stored row
//! still serves, and how writes are gathered into batches.
//!
//! The cache is one table keyed by path.  A row holds the path, the file's
//! modification time in whole seconds, and the signature as a blob of bytes.
//! The table stores signed integers and unsigned bytes, so the time and the
//! signature are stored by their bit patterns.
use vstd::prelude::*;

verus! {

/// The number of entries written in one transaction.
pub const BATCH_SIZE: usize = 100;

/// The signed integer with the bit pattern of `bits`.
pub open spec fn as_signed(bits: u64) -> i64 {
    if bits < 0x8000_0000_0000_0000 {
        bits as i64
    } else {
        (bits - 0x1_0000_0000_0000_0000) as i64
    }
}

/// The unsigned integer with the bit pattern of `value`.
pub open spec fn as_unsigned(value: i64) -> u64 {
    if value >= 0 {
        value as u64
    } else {
        (value + 0x1_0000_0000_0000_0000) as u64
    }
}

/// The signed byte with the bit pattern of `bits`.
pub open spec fn as_signed_byte(bits: u8) -> i8 {
    if bits < 0x80 {
        bits as i8
    } else {
        (bits - 0x100) as i8
    }
}

/// The unsigned byte with the bit pattern of `value`.
pub open spec fn as_unsigned_byte(value: i8) -> u8 {
    if value >= 0 {
        value as u8
    } else {
        (value + 0x100) as u8
    }
}

/// A blob read as a signature, byte for byte.
pub open spec fn signed_bytes(blob: Seq<u8>) -> Seq<i8> {
    blob.map_values(|bits: u8| as_signed_byte(bits))
}

/// A signature as the blob that is stored for it, byte for byte.
pub open spec fn unsigned_bytes(signature: Seq<i8>) -> Seq<u8> {
    signature.map_values(|value: i8| as_unsigned_byte(value))
}

/// `bytemuck::cast` from `i64` to `u64`: the two types have one size, so
/// the call does not fail, and the result has the argument's bit pattern.
#[verifier::external_body]
fn cast_to_unsigned(value: i64) -> (bits: u64)
    ensures
        bits == as_unsigned(value),
{
    bytemuck::cast::<i64, u64>(value)
}

/// `bytemuck::cast` from `u64` to `i64`: the two types have one size, so
/// the call does not fail, and the result has the argument's bit pattern.
#[verifier::external_body]
fn cast_to_signed(bits: u64) -> (value: i64)
    ensures
        value == as_signed(bits),
{
    bytemuck::cast::<u64, i64>(bits)
}

/// `bytemuck::cast_slice` from `u8` to `i8`: the two types have one size
/// and one alignment, so the call does not fail, and the result has as many
/// elements, each with the bit pattern of the one in its place.
#[verifier::external_body]
fn cast_blob_to_signature(blob: &Vec<u8>) -> (signature: Vec<i8>)
    ensures
        signature@ == signed_bytes(blob@),
{
    bytemuck::cast_slice::<u8, i8>(blob).to_vec()
}

/// `bytemuck::cast_slice` from `i8` to `u8`: the two types have one size
/// and one alignment, so the call does not fail, and the result has as many
/// elements, each with the bit pattern of the one in its place.
#[verifier::external_body]
fn cast_signature_to_blob(signature: &Vec<i8>) -> (blob: Vec<u8>)
    ensures
        blob@ == unsigned_bytes(signature@),
{
    bytemuck::cast_slice::<i8, u8>(signature).to_vec()
}

/// A row of the cache table, as it is stored.
#[derive(Debug)]
pub struct SignatureRow {
    pub id: i64,
    pub path: String,
    pub modified: i64,
    pub signature: Vec<u8>,
}

/// A cache entry that was read and still serves.
#[derive(Debug)]
pub struct Signature {
    pub id: i64,
    pub path: String,
    /// The modification time, in whole seconds, that the entry was written
    /// for.
    pub modified: u64,
    pub signature: Vec<i8>,
}

/// A signature on its way into the cache.
#[derive(Debug)]
pub struct InsertionMessage {
    pub filename_s: String,
    /// The file's modification time, in whole seconds.
    pub modified: u64,
    pub signature: Vec<i8>,
}

/// `row` is what is stored for `signature`, computed for the file at `path`
/// when it was last modified at `modified` seconds.
pub open spec fn encodes(row: SignatureRow, path: Seq<char>, modified: u64, signature: Seq<i8>) -> bool {
    &&& row.id == 0
    &&& row.path@ == path
    &&& row.modified == as_signed(modified)
    &&& row.signature@ == unsigned_bytes(signature)
}

/// A stored row still serves a file whose modification time is now
/// `current`: it was not written for an older state of the file.
pub open spec fn is_fresh(row: SignatureRow, current: u64) -> bool {
    as_unsigned(row.modified) >= current
}

/// Decides whether the row read for a path still serves, and decodes it.
///
/// A path without a row, or with a row written before the file was last
/// modified, has no entry: its signature is to be computed again.
pub fn fetch(row: Option<SignatureRow>, current: u64) -> (result: Option<Signature>)
    ensures
        result is Some <==> row is Some && is_fresh(row->0, current),
        result matches Some(entry) ==> {
            &&& entry.id == row->0.id
            &&& entry.path@ == row->0.path@
            &&& entry.modified == as_unsigned(row->0.modified)
            &&& entry.signature@ == signed_bytes(row->0.signature@)
        },
{
    match row {
        Some(row) => {
            let modified = cast_to_unsigned(row.modified);
            if modified < current {
                None
            } else {
                let signature = cast_blob_to_signature(&row.signature);
                Some(Signature { id: row.id, path: row.path, modified, signature })
            }
        },
        None => None,
    }
}

/// The row that is written for one signature.  It replaces whatever row
/// the table holds for the path.
pub fn insert(filename: &str, modified: u64, signature: &Vec<i8>) -> (row: SignatureRow)
    ensures
        encodes(row, filename@, modified, signature@),
{
    SignatureRow {
        id: 0,
        path: filename.to_owned(),
        modified: cast_to_signed(modified),
        signature: cast_signature_to_blob(signature),
    }
}

/// The rows that are written, in one transaction and in this order, for a
/// batch of messages.
pub fn insert_batch(messages: &Vec<InsertionMessage>) -> (rows: Vec<SignatureRow>)
    ensures
        rows@.len() == messages@.len(),
        forall|i: int|
            0 <= i < rows@.len() ==> encodes(
                #[trigger] rows@[i],
                messages@[i].filename_s@,
                messages@[i].modified,
                messages@[i].signature@,
            ),
{
    let mut rows: Vec<SignatureRow> = Vec::with_capacity(messages.len());
    let mut i: usize = 0;
    while i < messages.len()
        invariant
            0 <= i <= messages@.len(),
            rows@.len() == i,
            forall|j: int|
                0 <= j < i ==> encodes(
                    #[trigger] rows@[j],
                    messages@[j].filename_s@,
                    messages@[j].modified,
                    messages@[j].signature@,
                ),
        decreases messages@.len() - i,
    {
        let message = &messages[i];
        rows.push(insert(message.filename_s.as_str(), message.modified, &message.signature));
        i += 1;
    }
    rows
}

/// Reading a bit pattern as signed and back gives the same bits.
pub proof fn lemma_time_round_trip(modified: u64)
    ensures
        as_unsigned(as_signed(modified)) == modified,
{
}

/// Storing a signature as a blob and reading the blob gives the signature.
pub proof fn lemma_signature_round_trip(signature: Seq<i8>)
    ensures
        signed_bytes(unsigned_bytes(signature)) == signature,
{
    assert(signed_bytes(unsigned_bytes(signature)) =~= signature);
}

/// What was recorded is found again, until the file changes: the row written
/// for a file modified at `modified` serves at every time up to `modified`
/// and at no later one, and read back it gives the signature recorded.
pub proof fn lemma_cache_round_trip(
    row: SignatureRow,
    path: Seq<char>,
    modified: u64,
    signature: Seq<i8>,
    current: u64,
)
    requires
        encodes(row, path, modified, signature),
    ensures
        is_fresh(row, current) <==> current <= modified,
        is_fresh(row, modified),
        signed_bytes(row.signature@) == signature,
{
    lemma_time_round_trip(modified);
    lemma_signature_round_trip(signature);
}

/// The entries waiting to be written, which leave in batches.
pub struct WriteBatch {
    pending: Vec<InsertionMessage>,
    limit: usize,
}

impl View for WriteBatch {
    type V = Seq<InsertionMessage>;

    /// The messages that wait, oldest first.
    closed spec fn view(&self) -> Seq<InsertionMessage> {
        self.pending@
    }
}

impl WriteBatch {
    /// The number of messages at which a batch leaves.
    pub closed spec fn limit(&self) -> usize {
        self.limit
    }

    /// An empty batch that leaves when it holds `limit` messages.
    pub fn new(limit: usize) -> (batch: WriteBatch)
        ensures
            batch@ == Seq::<InsertionMessage>::empty(),
            batch.limit() == limit,
    {
        WriteBatch { pending: Vec::new(), limit }
    }

    /// Adds a message.  Where the batch is full with it, hands out all that
    /// waits, to be written in one transaction, and starts anew.
    pub fn push(&mut self, message: InsertionMessage) -> (full: Option<Vec<InsertionMessage>>)
        ensures
            final(self).limit() == old(self).limit(),
            full is Some <==> old(self)@.len() + 1 >= old(self).limit(),
            match full {
                Some(batch) => batch@ == old(self)@.push(message) && final(self)@
                    == Seq::<InsertionMessage>::empty(),
                None => final(self)@ == old(self)@.push(message),
            },
    {
        self.pending.push(message);
        if self.pending.len() >= self.limit {
            let mut batch: Vec<InsertionMessage> = Vec::new();
            std::mem::swap(&mut batch, &mut self.pending);
            Some(batch)
        } else {
            None
        }
    }

    /// Hands out what still waits when no more messages come: the last
    /// batch, which may be empty.
    pub fn finish(self) -> (rest: Vec<InsertionMessage>)
        ensures
            rest@ == self@,
    {
        self.pending
    }
}

} // verus!
