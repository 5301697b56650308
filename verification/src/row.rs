//! One journal row, and the bytes it is stored as.
//!
//! A row is encoded by hand: the body is already bytes, and an envelope in text
//! would have to escape it on every append and every read. The layout is
//!
//! ```text
//! prev_hash (32) | hash (32) | 0 | body
//! prev_hash (32) | hash (32) | 1 | key_id | signature | body
//! ```
//!
//! where `key_id`, `signature` and `body` are each preceded by their length in
//! four bytes, least significant first.

use vstd::bytes::{
    lemma_auto_spec_u32_to_from_le_bytes, spec_u32_from_le_bytes, spec_u32_to_le_bytes,
    u32_from_le_bytes, u32_to_le_bytes,
};
use vstd::prelude::*;
use vstd::slice::{slice_subrange, slice_to_vec};
use vstd::utf8::{decode_utf8, encode_utf8, encode_utf8_decode_utf8, encode_utf8_valid_utf8, valid_utf8};

use crate::error::{Refusal, StoreError};
use crate::text::join;

verus! {

/// A hash.
#[derive(Debug, Clone, Copy)]
pub struct Digest {
    pub bytes: [u8; 32],
}

impl View for Digest {
    type V = Seq<u8>;

    open spec fn view(&self) -> Seq<u8> {
        self.bytes@
    }
}

/// The hash before the first record of a chain.
pub open spec fn zero_digest() -> Seq<u8> {
    Seq::new(32, |i: int| 0u8)
}

impl Digest {
    /// The hash before the first record of a chain.
    pub fn zero() -> (d: Digest)
        ensures
            d@ == zero_digest(),
    {
        let d = Digest { bytes: [0u8;32] };
        assert(d@ =~= zero_digest());
        d
    }

    /// Whether two hashes are the same.
    pub fn same(&self, other: &Digest) -> (b: bool)
        ensures
            b == (self@ == other@),
    {
        let mut i: usize = 0;
        while i < 32
            invariant
                i <= 32,
                forall|j: int| 0 <= j < i ==> self@[j] == other@[j],
            decreases 32 - i,
        {
            if self.bytes[i] != other.bytes[i] {
                return false;
            }
            i = i + 1;
        }
        assert(self@ =~= other@);
        true
    }
}

pub open spec fn not_32_text() -> Seq<char> {
    "a stored hash is not 32 bytes"@
}

/// Reads a stored hash.
pub fn digest(bytes: &[u8]) -> (r: Result<Digest, StoreError>)
    ensures
        match r {
            Ok(d) => bytes@.len() == 32 && d@ == bytes@,
            Err(e) => bytes@.len() != 32 && e@ == (Refusal::Corrupt {
                seq: 0,
                detail: not_32_text(),
            }),
        },
{
    if bytes.len() != 32 {
        return Err(
            StoreError::Corrupt { seq: 0, detail: "a stored hash is not 32 bytes".to_owned() },
        );
    }
    let d = take_32(bytes, 0);
    assert(bytes@.subrange(0, 32) =~= bytes@);
    Ok(d)
}

/// The 32 bytes that start at `at`.
fn take_32(bytes: &[u8], at: usize) -> (d: Digest)
    requires
        at + 32 <= bytes@.len(),
    ensures
        d@ == bytes@.subrange(at as int, at + 32),
{
    let n = bytes.len();
    let mut out = [0u8;32];
    let mut i: usize = 0;
    while i < 32
        invariant
            i <= 32,
            n == bytes@.len(),
            at + 32 <= n,
            forall|j: int| 0 <= j < i ==> out@[j] == bytes@[at + j],
        decreases 32 - i,
    {
        out[i] = bytes[at + i];
        i = i + 1;
    }
    let d = Digest { bytes: out };
    assert(d@ =~= bytes@.subrange(at as int, at + 32));
    d
}

/// One journal row.
#[derive(Debug)]
pub struct Row {
    pub body: Vec<u8>,
    pub prev_hash: Digest,
    pub hash: Digest,
    pub key_id: Option<String>,
    pub signature: Option<Vec<u8>>,
}

/// What a [`Row`] holds.
#[verifier::ext_equal]
pub struct RowModel {
    pub body: Seq<u8>,
    pub prev_hash: Seq<u8>,
    pub hash: Seq<u8>,
    pub key_id: Option<Seq<char>>,
    pub signature: Option<Seq<u8>>,
}

impl View for Row {
    type V = RowModel;

    open spec fn view(&self) -> RowModel {
        RowModel {
            body: self.body@,
            prev_hash: self.prev_hash@,
            hash: self.hash@,
            key_id: match self.key_id {
                Some(k) => Some(k@),
                None => None,
            },
            signature: match self.signature {
                Some(s) => Some(s@),
                None => None,
            },
        }
    }
}

/// A field behind its length. A length past four bytes is written as the
/// largest one that fits.
pub open spec fn field(bytes: Seq<u8>) -> Seq<u8> {
    spec_u32_to_le_bytes(
        if bytes.len() > u32::MAX {
            u32::MAX
        } else {
            bytes.len() as u32
        },
    ) + bytes
}

/// The bytes of a row. A key id without a signature, or the reverse, is a
/// half-written row, so the two are written as one pair or not at all.
pub open spec fn encoded(row: RowModel) -> Seq<u8> {
    row.prev_hash + row.hash + attested(row) + field(row.body)
}

/// The bytes that say who signed a row.
pub open spec fn attested(row: RowModel) -> Seq<u8> {
    match (row.key_id, row.signature) {
        (Some(k), Some(s)) => seq![1u8] + field(encode_utf8(k)) + field(s),
        _ => seq![0u8],
    }
}

/// The field that starts at `at`, and where it ends.
pub open spec fn field_at(raw: Seq<u8>, at: int) -> Option<(Seq<u8>, int)> {
    if at + 4 > raw.len() {
        None
    } else {
        let stop = at + 4 + spec_u32_from_le_bytes(raw.subrange(at, at + 4));
        if stop > raw.len() {
            None
        } else {
            Some((raw.subrange(at + 4, stop), stop))
        }
    }
}

pub open spec fn truncated(what: Seq<char>) -> Refusal {
    Refusal::Corrupt { seq: 0, detail: "journal row truncated in "@ + what }
}

/// What stored bytes decode to. Bytes after the body are not looked at.
pub open spec fn decoded(raw: Seq<u8>) -> Result<RowModel, Refusal> {
    if raw.len() < 65 {
        Err(truncated("header"@))
    } else if raw[64] == 1 {
        match field_at(raw, 65) {
            None => Err(truncated("key_id"@)),
            Some((k, at)) => match field_at(raw, at) {
                None => Err(truncated("signature"@)),
                Some((s, at)) => if !valid_utf8(k) {
                    Err(truncated("key_id utf-8"@))
                } else {
                    with_body(raw, at, Some(decode_utf8(k)), Some(s))
                },
            },
        }
    } else {
        with_body(raw, 65, None, None)
    }
}

/// The row whose body starts at `at`.
pub open spec fn with_body(
    raw: Seq<u8>,
    at: int,
    key_id: Option<Seq<char>>,
    signature: Option<Seq<u8>>,
) -> Result<RowModel, Refusal> {
    match field_at(raw, at) {
        None => Err(truncated("body"@)),
        Some((body, _)) => Ok(
            RowModel {
                body,
                prev_hash: raw.subrange(0, 32),
                hash: raw.subrange(32, 64),
                key_id,
                signature,
            },
        ),
    }
}

/// `String::from_utf8`: gives the text that the bytes encode, and refuses
/// exactly the bytes that are not UTF-8.
#[verifier::external_body]
fn utf8_text(bytes: Vec<u8>) -> (r: Option<String>)
    ensures
        r is Some == valid_utf8(bytes@),
        r matches Some(s) ==> s@ == decode_utf8(bytes@),
{
    String::from_utf8(bytes).ok()
}

/// Appends a field behind its length.
pub fn push_bytes(out: &mut Vec<u8>, bytes: &[u8])
    ensures
        final(out)@ == old(out)@ + field(bytes@),
{
    let len: u32 = if bytes.len() > u32::MAX as usize {
        u32::MAX
    } else {
        bytes.len() as u32
    };
    let mut prefix = u32_to_le_bytes(len);
    out.append(&mut prefix);
    let mut rest = slice_to_vec(bytes);
    out.append(&mut rest);
    assert(out@ =~= old(out)@ + field(bytes@));
}

/// Reads the field that starts at `at`, and where it ends.
pub fn take_bytes(raw: &[u8], at: usize) -> (r: Option<(Vec<u8>, usize)>)
    ensures
        match r {
            Some((f, stop)) => field_at(raw@, at as int) == Some((f@, stop as int)),
            None => field_at(raw@, at as int) is None,
        },
{
    let n = raw.len();
    let end: usize = match at.checked_add(4) {
        Some(end) => end,
        None => {
            return None;
        },
    };
    if end > n {
        return None;
    }
    let len: usize = u32_from_le_bytes(slice_subrange(raw, at, end)) as usize;
    let stop: usize = match end.checked_add(len) {
        Some(stop) => stop,
        None => {
            return None;
        },
    };
    if stop > n {
        return None;
    }
    Some((slice_to_vec(slice_subrange(raw, end, stop)), stop))
}

/// A row that ends before the part it names.
fn corrupt(what: &str) -> (e: StoreError)
    ensures
        e@ == truncated(what@),
{
    StoreError::Corrupt { seq: 0, detail: join("journal row truncated in ", what) }
}

impl Row {
    /// The bytes the row is stored as.
    pub fn encode(&self) -> (out: Vec<u8>)
        ensures
            out@ == encoded(self@),
    {
        let mut out: Vec<u8> = Vec::new();
        let mut prev = slice_to_vec(&self.prev_hash.bytes);
        out.append(&mut prev);
        let mut hash = slice_to_vec(&self.hash.bytes);
        out.append(&mut hash);
        match (&self.key_id, &self.signature) {
            (Some(k), Some(s)) => {
                out.push(1);
                push_bytes(&mut out, k.as_str().as_bytes());
                push_bytes(&mut out, s.as_slice());
            },
            _ => {
                out.push(0);
            },
        }
        assert(out@ =~= self@.prev_hash + self@.hash + attested(self@));
        push_bytes(&mut out, self.body.as_slice());
        out
    }

    /// Reads a row back from its bytes.
    pub fn decode(raw: &[u8]) -> (r: Result<Row, StoreError>)
        ensures
            match r {
                Ok(row) => decoded(raw@) == Ok::<RowModel, Refusal>(row@),
                Err(e) => decoded(raw@) == Err::<RowModel, Refusal>(e@),
            },
    {
        if raw.len() < 65 {
            return Err(corrupt("header"));
        }
        let prev_hash = take_32(raw, 0);
        let hash = take_32(raw, 32);
        let mut at: usize = 65;
        let mut key_id: Option<String> = None;
        let mut signature: Option<Vec<u8>> = None;
        if raw[64] == 1 {
            let k = match take_bytes(raw, at) {
                Some((k, n)) => {
                    at = n;
                    k
                },
                None => {
                    return Err(corrupt("key_id"));
                },
            };
            let s = match take_bytes(raw, at) {
                Some((s, n)) => {
                    at = n;
                    s
                },
                None => {
                    return Err(corrupt("signature"));
                },
            };
            match utf8_text(k) {
                Some(text) => {
                    key_id = Some(text);
                },
                None => {
                    return Err(corrupt("key_id utf-8"));
                },
            }
            signature = Some(s);
        }
        match take_bytes(raw, at) {
            Some((body, _)) => Ok(Row { body, prev_hash, hash, key_id, signature }),
            None => Err(corrupt("body")),
        }
    }

    /// A second copy of the row.
    pub fn twin(&self) -> (c: Row)
        ensures
            c@ == self@,
    {
        Row {
            body: slice_to_vec(self.body.as_slice()),
            prev_hash: self.prev_hash,
            hash: self.hash,
            key_id: match &self.key_id {
                Some(k) => Some(k.clone()),
                None => None,
            },
            signature: match &self.signature {
                Some(s) => Some(slice_to_vec(s.as_slice())),
                None => None,
            },
        }
    }
}

/// A row as its bytes keep it: signed by a pair, or not signed.
pub open spec fn whole_pair(row: RowModel) -> RowModel {
    match (row.key_id, row.signature) {
        (Some(k), Some(s)) => row,
        _ => RowModel { key_id: None, signature: None, ..row },
    }
}

/// Whether every field of a row fits behind a length of four bytes.
pub open spec fn fits(row: RowModel) -> bool {
    &&& row.prev_hash.len() == 32
    &&& row.hash.len() == 32
    &&& row.body.len() <= u32::MAX
    &&& row.key_id matches Some(k) ==> encode_utf8(k).len() <= u32::MAX
    &&& row.signature matches Some(s) ==> s.len() <= u32::MAX
}

proof fn lemma_field_at(before: Seq<u8>, bytes: Seq<u8>, after: Seq<u8>)
    requires
        bytes.len() <= u32::MAX,
    ensures
        field_at(before + field(bytes) + after, before.len() as int) == Some(
            (bytes, (before.len() + 4 + bytes.len()) as int),
        ),
{
    lemma_auto_spec_u32_to_from_le_bytes();
    let raw = before + field(bytes) + after;
    let n = bytes.len() as u32;
    assert(spec_u32_to_le_bytes(n).len() == 4);
    let at = before.len() as int;
    assert(raw.subrange(at, at + 4) =~= spec_u32_to_le_bytes(n));
    assert(raw.subrange(at + 4, at + 4 + bytes.len()) =~= bytes);
}

/// Reading a row back gives what was written, signed by both halves or by
/// neither.
pub proof fn law_row_round_trip(row: RowModel)
    requires
        fits(row),
    ensures
        decoded(encoded(row)) == Ok::<RowModel, Refusal>(whole_pair(row)),
{
    lemma_auto_spec_u32_to_from_le_bytes();
    let raw = encoded(row);
    let hashes = row.prev_hash + row.hash;
    assert(raw.subrange(0, 32) =~= row.prev_hash);
    assert(raw.subrange(32, 64) =~= row.hash);
    match (row.key_id, row.signature) {
        (Some(k), Some(s)) => {
            let kb = encode_utf8(k);
            encode_utf8_valid_utf8(k);
            encode_utf8_decode_utf8(k);
            let head = hashes + seq![1u8];
            assert(raw =~= head + field(kb) + (field(s) + field(row.body)));
            assert(raw[64] == 1);
            lemma_field_at(head, kb, field(s) + field(row.body));
            let head2 = head + field(kb);
            assert(raw =~= head2 + field(s) + field(row.body));
            lemma_field_at(head2, s, field(row.body));
            let head3 = head2 + field(s);
            assert(raw =~= head3 + field(row.body) + Seq::<u8>::empty());
            lemma_field_at(head3, row.body, Seq::<u8>::empty());
            assert(head2.len() == 65 + 4 + kb.len());
            assert(head3.len() == head2.len() + 4 + s.len());
        },
        _ => {
            let head = hashes + seq![0u8];
            assert(raw =~= head + field(row.body) + Seq::<u8>::empty());
            assert(raw[64] == 0);
            lemma_field_at(head, row.body, Seq::<u8>::empty());
        },
    }
}

} // verus!
