//! An append-only log of fixed-width records, each guarded by a checksum,
//! and the header store built on it.

use crate::hash::{checksum, spec_checksum};
use crate::header::Header;
use crate::uint256::append_bytes;
use vstd::arithmetic::div_mod::{lemma_fundamental_div_mod, lemma_fundamental_div_mod_converse};
use vstd::prelude::*;
use vstd::slice::slice_subrange;

verus! {

/// Length of the checksum that ends every record.
pub const CHECKSUM_SIZE: usize = 4;

/// The widest payload that a log accepts.
pub const MAX_PAYLOAD_SIZE: usize = 4096;

/// What can go wrong with a store.
#[derive(Clone, Copy, Debug, PartialEq, Eq, Structural)]
pub enum StoreError {
    /// A store is already there.
    AlreadyExists,
    /// The store begins with another network's genesis.
    NetworkMismatch,
    /// The store's bytes are damaged from `offset` on.
    Corruption { offset: usize },
    /// The store holds as many records as it may.
    Full,
}

/// A payload followed by its checksum.
pub open spec fn spec_record(payload: Seq<u8>) -> Seq<u8> {
    payload + spec_checksum(payload)
}

/// The payload of record `i` in `data`.
pub open spec fn payload_at(data: Seq<u8>, width: nat, i: int) -> Seq<u8> {
    data.subrange(i * (width + 4), i * (width + 4) + width)
}

/// Record `i` lies within `data` and its checksum is that of its payload.
pub open spec fn valid_at(data: Seq<u8>, width: nat, i: int) -> bool {
    let rs = width + 4;
    &&& 0 <= i
    &&& i * rs + rs <= data.len()
    &&& data.subrange(i * rs + width, i * rs + rs) == spec_checksum(payload_at(data, width, i))
}

/// The first `n` records of `data` are valid.
pub open spec fn valid_prefix(data: Seq<u8>, width: nat, n: int) -> bool {
    forall|i: int| 0 <= i < n ==> #[trigger] valid_at(data, width, i)
}

/// `n` is the number of valid records that `data` begins with.
pub open spec fn is_valid_count(data: Seq<u8>, width: nat, n: int) -> bool {
    &&& 0 <= n
    &&& n * (width + 4) <= data.len()
    &&& valid_prefix(data, width, n)
    &&& !valid_at(data, width, n)
}

/// `data` is a whole number of records, all of them valid.
pub open spec fn healthy(data: Seq<u8>, width: nat) -> bool {
    &&& data.len() % (width + 4) == 0
    &&& valid_prefix(data, width, data.len() as int / (width + 4) as int)
}

/// The payloads of the record slots of `data`, in order.
pub open spec fn payloads(data: Seq<u8>, width: nat) -> Seq<Seq<u8>> {
    Seq::new((data.len() / (width + 4)) as nat, |i: int| payload_at(data, width, i))
}

/// `(i + 1) * rs` is `i * rs + rs`, and grows with `i`.
pub proof fn lemma_offsets(i: int, j: int, rs: int)
    requires
        0 <= i <= j,
        0 < rs,
    ensures
        (i + 1) * rs == i * rs + rs,
        i * rs <= j * rs,
        0 <= i * rs,
{
    assert((i + 1) * rs == i * rs + rs) by (nonlinear_arith);
    assert(i * rs <= j * rs) by (nonlinear_arith)
        requires
            0 <= i <= j,
            0 < rs,
    ;
    assert(0 <= i * rs) by (nonlinear_arith)
        requires
            0 <= i,
            0 < rs,
    ;
}

/// The number of record slots of `len` bytes.
pub proof fn lemma_slots(len: int, n: int, rs: int)
    requires
        0 < rs,
        0 <= n,
        n * rs <= len < n * rs + rs,
    ensures
        len / rs == n,
        len % rs == len - n * rs,
{
    lemma_fundamental_div_mod_converse(len, rs, n, len - n * rs);
}

/// There is only one number of leading valid records.
pub proof fn lemma_valid_count_unique(data: Seq<u8>, width: nat, a: int, b: int)
    requires
        is_valid_count(data, width, a),
        is_valid_count(data, width, b),
    ensures
        a == b,
{
    if a < b {
        assert(valid_at(data, width, a));
    }
    if b < a {
        assert(valid_at(data, width, b));
    }
}

/// A record that is valid in `a` is valid in `b` where the two agree on
/// every byte up to the record's end.
pub proof fn lemma_valid_at_agree(a: Seq<u8>, b: Seq<u8>, width: nat, i: int)
    requires
        valid_at(a, width, i),
        i * (width + 4) + (width + 4) <= b.len(),
        forall|k: int| 0 <= k < i * (width + 4) + (width + 4) ==> a[k] == b[k],
    ensures
        valid_at(b, width, i),
        payload_at(b, width, i) == payload_at(a, width, i),
{
    let rs = (width + 4) as int;
    lemma_offsets(i, i, rs);
    assert(payload_at(b, width, i) =~= payload_at(a, width, i));
    assert(b.subrange(i * rs + width, i * rs + rs) =~= a.subrange(i * rs + width, i * rs + rs));
}

/// A healthy log stays healthy when a record is appended, and gains its
/// payload.
pub proof fn lemma_append_healthy(data: Seq<u8>, width: nat, payload: Seq<u8>)
    requires
        healthy(data, width),
        payload.len() == width,
        spec_checksum(payload).len() == 4,
    ensures
        healthy(data + spec_record(payload), width),
        payloads(data + spec_record(payload), width) == payloads(data, width).push(payload),
{
    let rs = (width + 4) as int;
    let n = data.len() as int / rs;
    let next = data + spec_record(payload);
    lemma_fundamental_div_mod(data.len() as int, rs);
    assert(n * rs == data.len()) by (nonlinear_arith)
        requires
            data.len() == rs * n + (data.len() as int % rs),
            data.len() as int % rs == 0,
    ;
    lemma_offsets(n, n, rs);
    lemma_slots(next.len() as int, n + 1, rs);
    assert forall|i: int| 0 <= i < n + 1 implies #[trigger] valid_at(next, width, i) by {
        lemma_offsets(i, n, rs);
        if i < n {
            lemma_offsets(i + 1, n, rs);
            lemma_valid_at_agree(data, next, width, i);
        } else {
            assert(payload_at(next, width, n) =~= payload);
            assert(next.subrange(n * rs + width, n * rs + rs) =~= spec_checksum(payload));
        }
    }
    assert forall|i: int| 0 <= i < n + 1 implies #[trigger] payloads(next, width)[i] == payloads(
        data,
        width,
    ).push(payload)[i] by {
        lemma_offsets(i, n, rs);
        if i < n {
            lemma_offsets(i + 1, n, rs);
            assert(valid_at(data, width, i));
            lemma_valid_at_agree(data, next, width, i);
        } else {
            assert(payload_at(next, width, n) =~= payload);
        }
    }
    assert(payloads(next, width) =~= payloads(data, width).push(payload));
}

/// The first `n` records of a log, where they are valid, are a healthy log
/// with the first `n` payloads.
pub proof fn lemma_truncate_healthy(data: Seq<u8>, width: nat, n: int)
    requires
        0 <= n,
        n * (width + 4) <= data.len(),
        valid_prefix(data, width, n),
    ensures
        healthy(data.subrange(0, n * (width + 4)), width),
        payloads(data.subrange(0, n * (width + 4)), width) == payloads(data, width).subrange(0, n),
        payloads(data.subrange(0, n * (width + 4)), width).len() == n,
{
    let rs = (width + 4) as int;
    lemma_offsets(n, n, rs);
    let cut = data.subrange(0, n * rs);
    lemma_slots(cut.len() as int, n, rs);
    let total = data.len() as int / rs;
    lemma_fundamental_div_mod(data.len() as int, rs);
    assert(n <= total) by (nonlinear_arith)
        requires
            n * rs <= data.len(),
            data.len() == rs * total + (data.len() as int % rs),
            0 <= data.len() as int % rs < rs,
            0 < rs,
    ;
    assert forall|i: int| 0 <= i < n implies #[trigger] valid_at(cut, width, i) by {
        lemma_offsets(i + 1, n, rs);
        lemma_offsets(i, n, rs);
        assert(valid_at(data, width, i));
        lemma_valid_at_agree(data, cut, width, i);
    }
    assert forall|i: int| 0 <= i < n implies #[trigger] payloads(cut, width)[i] == payloads(
        data,
        width,
    ).subrange(0, n)[i] by {
        lemma_offsets(i + 1, n, rs);
        lemma_offsets(i, n, rs);
        assert(valid_at(data, width, i));
        lemma_valid_at_agree(data, cut, width, i);
    }
    assert(payloads(cut, width) =~= payloads(data, width).subrange(0, n));
}

/// A healthy log of which only the first `len` bytes were written begins
/// with as many valid records as are complete, and they are the records
/// that the whole log begins with: healing it loses the partial record and
/// nothing else.
pub proof fn lemma_cut_healthy(data: Seq<u8>, width: nat, len: int)
    requires
        healthy(data, width),
        0 <= len <= data.len(),
    ensures
        is_valid_count(data.subrange(0, len), width, len / (width + 4) as int),
        healthy(data.subrange(0, (len / (width + 4) as int) * (width + 4)), width),
        payloads(data.subrange(0, (len / (width + 4) as int) * (width + 4)), width) == payloads(
            data,
            width,
        ).subrange(0, len / (width + 4) as int),
{
    let rs = (width + 4) as int;
    let n = len / rs;
    let cut = data.subrange(0, len);
    let total = data.len() as int / rs;
    lemma_fundamental_div_mod(len, rs);
    lemma_fundamental_div_mod(data.len() as int, rs);
    assert(0 <= n && n * rs <= len && len < n * rs + rs) by (nonlinear_arith)
        requires
            len == rs * n + len % rs,
            0 <= len % rs < rs,
            0 <= len,
            0 < rs,
    ;
    assert(n <= total) by (nonlinear_arith)
        requires
            n * rs <= data.len(),
            data.len() == rs * total + (data.len() as int % rs),
            0 <= data.len() as int % rs < rs,
            0 < rs,
    ;
    lemma_offsets(n, n, rs);
    assert forall|i: int| 0 <= i < n implies #[trigger] valid_at(cut, width, i) by {
        lemma_offsets(i + 1, n, rs);
        lemma_offsets(i, n, rs);
        assert(valid_at(data, width, i));
        lemma_valid_at_agree(data, cut, width, i);
    }
    assert forall|i: int| 0 <= i < n implies #[trigger] valid_at(data, width, i) by {}
    lemma_truncate_healthy(data, width, n);
}

/// What healing gives after damage. Let `damaged` begin with `n` valid
/// records, be no longer than the healthy `data` that it was, and agree
/// with `data` on its first `sound` bytes. Then healing leaves no more
/// records than `data` had, keeps every whole record that lies before the
/// damage, and each of those is the record that `data` had there.
pub proof fn lemma_heal_after_damage(
    data: Seq<u8>,
    damaged: Seq<u8>,
    width: nat,
    n: int,
    sound: int,
)
    requires
        healthy(data, width),
        is_valid_count(damaged, width, n),
        damaged.len() <= data.len(),
        0 <= sound <= damaged.len(),
        forall|k: int| 0 <= k < sound ==> damaged[k] == data[k],
    ensures
        n <= data.len() as int / (width + 4) as int,
        sound / (width + 4) as int <= n,
        forall|i: int|
            0 <= i < sound / (width + 4) as int ==> #[trigger] payload_at(
                damaged.subrange(0, n * (width + 4)),
                width,
                i,
            ) == payload_at(data, width, i),
{
    let rs = (width + 4) as int;
    let total = data.len() as int / rs;
    let whole = sound / rs;
    lemma_fundamental_div_mod(data.len() as int, rs);
    lemma_fundamental_div_mod(sound, rs);
    assert(n <= total) by (nonlinear_arith)
        requires
            n * rs <= data.len(),
            data.len() == rs * total + (data.len() as int % rs),
            0 <= data.len() as int % rs < rs,
            0 < rs,
    ;
    assert(0 <= whole && whole * rs <= sound) by (nonlinear_arith)
        requires
            sound == rs * whole + sound % rs,
            0 <= sound % rs < rs,
            0 <= sound,
            0 < rs,
    ;
    assert(whole <= total) by (nonlinear_arith)
        requires
            whole * rs <= data.len(),
            data.len() == rs * total + (data.len() as int % rs),
            0 <= data.len() as int % rs < rs,
            0 < rs,
    ;
    assert forall|i: int| 0 <= i < whole implies #[trigger] valid_at(damaged, width, i) by {
        lemma_offsets(i + 1, whole, rs);
        lemma_offsets(i, whole, rs);
        assert(valid_at(data, width, i));
        lemma_valid_at_agree(data, damaged, width, i);
    }
    if n < whole {
        assert(valid_at(damaged, width, n));
    }
    lemma_offsets(whole, n, rs);
    let healed = damaged.subrange(0, n * rs);
    assert forall|i: int| 0 <= i < whole implies #[trigger] payload_at(healed, width, i)
        == payload_at(data, width, i) by {
        lemma_offsets(i + 1, whole, rs);
        lemma_offsets(i, whole, rs);
        assert(payload_at(healed, width, i) =~= payload_at(data, width, i));
    }
}

/// Whether two byte strings are the same.
pub fn bytes_equal(a: &[u8], b: &[u8]) -> (r: bool)
    ensures
        r == (a@ == b@),
{
    if a.len() != b.len() {
        return false;
    }
    let mut i: usize = 0;
    while i < a.len()
        invariant
            i <= a.len(),
            a.len() == b.len(),
            forall|k: int| 0 <= k < i ==> a@[k] == b@[k],
        decreases a.len() - i,
    {
        if a[i] != b[i] {
            return false;
        }
        i = i + 1;
    }
    assert(a@ =~= b@);
    true
}

/// An append-only log of records of one width. A record is a payload
/// followed by the first four bytes of the payload's double SHA-256.
pub struct RecordLog {
    data: Vec<u8>,
    width: usize,
    limit: usize,
}

impl RecordLog {
    /// The bytes of the log.
    pub closed spec fn bytes(&self) -> Seq<u8> {
        self.data@
    }

    /// The length of a payload.
    pub closed spec fn spec_width(&self) -> nat {
        self.width as nat
    }

    /// The number of records that the log may hold.
    pub closed spec fn spec_limit(&self) -> nat {
        self.limit as nat
    }

    /// The payload width is in range.
    pub open spec fn wf(&self) -> bool {
        0 < self.spec_width() <= MAX_PAYLOAD_SIZE
    }

    /// The number of record slots in the log.
    pub open spec fn spec_len(&self) -> nat {
        (self.bytes().len() / (self.spec_width() + 4)) as nat
    }

    /// The log is a whole number of valid records.
    pub open spec fn spec_healthy(&self) -> bool {
        healthy(self.bytes(), self.spec_width())
    }

    /// The payloads of the log's record slots.
    pub open spec fn spec_payloads(&self) -> Seq<Seq<u8>> {
        payloads(self.bytes(), self.spec_width())
    }

    /// An empty log for payloads of `width` bytes, with room for `limit`
    /// records; `None` where the width is zero or above the maximum.
    pub fn new(width: usize, limit: usize) -> (r: Option<RecordLog>)
        ensures
            r is Some <==> 0 < width <= MAX_PAYLOAD_SIZE,
            r matches Some(log) ==> {
                &&& log.wf()
                &&& log.bytes() == Seq::<u8>::empty()
                &&& log.spec_width() == width
                &&& log.spec_limit() == limit
                &&& log.spec_healthy()
            },
    {
        if width == 0 || width > MAX_PAYLOAD_SIZE {
            return None;
        }
        let log = RecordLog { data: Vec::new(), width, limit };
        proof {
            lemma_slots(0, 0, (width + 4) as int);
        }
        Some(log)
    }

    /// A log over bytes that were stored earlier; `None` where the width is
    /// zero or above the maximum.
    pub fn from_bytes(data: Vec<u8>, width: usize, limit: usize) -> (r: Option<RecordLog>)
        ensures
            r is Some <==> 0 < width <= MAX_PAYLOAD_SIZE,
            r matches Some(log) ==> {
                &&& log.wf()
                &&& log.bytes() == data@
                &&& log.spec_width() == width
                &&& log.spec_limit() == limit
            },
    {
        if width == 0 || width > MAX_PAYLOAD_SIZE {
            return None;
        }
        Some(RecordLog { data, width, limit })
    }

    /// The bytes of the log, to be written out.
    pub fn as_bytes(&self) -> (r: &Vec<u8>)
        ensures
            r@ == self.bytes(),
    {
        &self.data
    }

    /// The length of a payload.
    pub fn width(&self) -> (r: usize)
        ensures
            r == self.spec_width(),
    {
        self.width
    }

    /// The number of records that the log may hold.
    pub fn limit(&self) -> (r: usize)
        ensures
            r == self.spec_limit(),
    {
        self.limit
    }

    /// Changes the number of records that the log may hold.
    pub fn set_limit(&mut self, limit: usize)
        ensures
            final(self).bytes() == old(self).bytes(),
            final(self).spec_width() == old(self).spec_width(),
            final(self).spec_limit() == limit,
    {
        self.limit = limit;
    }

    /// The number of record slots in the log.
    pub fn len(&self) -> (r: usize)
        requires
            self.wf(),
        ensures
            r == self.spec_len(),
    {
        self.data.len() / (self.width + CHECKSUM_SIZE)
    }

    /// The number of valid records that the log begins with.
    pub fn valid_records(&self) -> (n: usize)
        requires
            self.wf(),
        ensures
            is_valid_count(self.bytes(), self.spec_width(), n as int),
    {
        let rs: usize = self.width + CHECKSUM_SIZE;
        let len: usize = self.data.len();
        let mut n: usize = 0;
        let mut off: usize = 0;
        let mut done: bool = false;
        proof {
            lemma_offsets(0, 0, rs as int);
        }
        while !done
            invariant
                self.wf(),
                rs == self.width + 4,
                len == self.data@.len(),
                off == n * rs,
                n <= off <= len,
                valid_prefix(self.data@, self.width as nat, n as int),
                done ==> !valid_at(self.data@, self.width as nat, n as int),
            decreases (len - off) + (if done { 0int } else { 1int }),
        {
            proof {
                lemma_offsets(n as int, n as int, rs as int);
            }
            if len - off < rs {
                done = true;
            } else {
                let payload: &[u8] = slice_subrange(self.data.as_slice(), off, off + self.width);
                let sum: Vec<u8> = checksum(payload);
                let stored: &[u8] = slice_subrange(self.data.as_slice(), off + self.width, off + rs);
                if bytes_equal(sum.as_slice(), stored) {
                    assert(valid_at(self.data@, self.width as nat, n as int));
                    off = off + rs;
                    n = n + 1;
                } else {
                    done = true;
                }
            }
        }
        n
    }

    /// Checks that the log is a whole number of valid records. Where it is
    /// not, the error gives the offset of the first byte that belongs to no
    /// valid record.
    pub fn check(&self) -> (r: Result<(), StoreError>)
        requires
            self.wf(),
        ensures
            r is Ok <==> self.spec_healthy(),
            r matches Err(e) ==> exists|n: int|
                {
                    &&& #[trigger] is_valid_count(self.bytes(), self.spec_width(), n)
                    &&& e == (StoreError::Corruption { offset: (n * (self.spec_width() + 4)) as usize })
                },
    {
        let n: usize = self.valid_records();
        let rs: usize = self.width + CHECKSUM_SIZE;
        proof {
            lemma_offsets(n as int, n as int, rs as int);
        }
        assert(n * rs <= self.data@.len()) by (nonlinear_arith)
            requires
                n * (self.width + 4) <= self.data@.len(),
                rs == self.width + 4,
        ;
        // the length of the data bounds the offset
        let total_len: usize = self.data.len();
        let end: usize = n * rs;
        proof {
            let total = self.data@.len() as int / rs as int;
            lemma_fundamental_div_mod(self.data@.len() as int, rs as int);
            if end == self.data@.len() {
                lemma_slots(self.data@.len() as int, n as int, rs as int);
            } else if self.spec_healthy() {
                assert(total * rs == self.data@.len()) by (nonlinear_arith)
                    requires
                        self.data@.len() == rs * total + (self.data@.len() as int % rs as int),
                        self.data@.len() as int % rs as int == 0,
                ;
                if (n as int) < total {
                    assert(valid_at(self.data@, self.width as nat, n as int));
                } else {
                    lemma_offsets(total, n as int, rs as int);
                }
            }
        }
        if end == self.data.len() {
            Ok(())
        } else {
            Err(StoreError::Corruption { offset: end })
        }
    }

    /// Cuts the log back to the valid records that it begins with, and
    /// returns the number of bytes that were dropped.
    pub fn heal(&mut self) -> (dropped: usize)
        requires
            old(self).wf(),
        ensures
            final(self).wf(),
            final(self).spec_width() == old(self).spec_width(),
            final(self).spec_limit() == old(self).spec_limit(),
            final(self).spec_healthy(),
            final(self).bytes() == old(self).bytes().subrange(0, final(self).bytes().len() as int),
            final(self).bytes().len() + dropped == old(self).bytes().len(),
            is_valid_count(old(self).bytes(), old(self).spec_width(), final(self).spec_len() as int),
            old(self).spec_healthy() ==> final(self).bytes() == old(self).bytes(),
    {
        let n: usize = self.valid_records();
        let rs: usize = self.width + CHECKSUM_SIZE;
        proof {
            lemma_offsets(n as int, n as int, rs as int);
            lemma_truncate_healthy(self.data@, self.width as nat, n as int);
            lemma_slots((n * rs) as int, n as int, rs as int);
            if old(self).spec_healthy() {
                let total = self.data@.len() as int / rs as int;
                lemma_fundamental_div_mod(self.data@.len() as int, rs as int);
                assert(total * rs == self.data@.len()) by (nonlinear_arith)
                    requires
                        self.data@.len() == rs * total + (self.data@.len() as int % rs as int),
                        self.data@.len() as int % rs as int == 0,
                ;
                if (n as int) < total {
                    assert(valid_at(self.data@, self.width as nat, n as int));
                } else {
                    lemma_offsets(total, n as int, rs as int);
                }
                assert(self.data@.subrange(0, self.data@.len() as int) == self.data@);
            }
        }
        assert(n * rs <= self.data@.len()) by (nonlinear_arith)
            requires
                n * (self.width + 4) <= self.data@.len(),
                rs == self.width + 4,
        ;
        // the length of the data bounds the offset
        let total_len: usize = self.data.len();
        let end: usize = n * rs;
        let dropped: usize = self.data.len() - end;
        self.data.truncate(end);
        dropped
    }

    /// The payload of record `i`, where that record is valid.
    pub fn get(&self, i: usize) -> (r: Option<Vec<u8>>)
        requires
            self.wf(),
        ensures
            r is Some <==> valid_at(self.bytes(), self.spec_width(), i as int),
            r matches Some(p) ==> p@ == payload_at(self.bytes(), self.spec_width(), i as int),
    {
        let rs: usize = self.width + CHECKSUM_SIZE;
        let slots: usize = self.data.len() / rs;
        proof {
            lemma_fundamental_div_mod(self.data@.len() as int, rs as int);
            let total = self.data@.len() as int / rs as int;
            if i < slots {
                lemma_offsets(i as int + 1, total, rs as int);
                lemma_offsets(i as int, total, rs as int);
                assert(total * rs <= self.data@.len()) by (nonlinear_arith)
                    requires
                        self.data@.len() == rs * total + (self.data@.len() as int % rs as int),
                        0 <= self.data@.len() as int % rs as int,
                ;
            } else {
                lemma_offsets(total, i as int, rs as int);
                lemma_offsets(i as int, i as int, rs as int);
                assert(total * rs + rs > self.data@.len()) by (nonlinear_arith)
                    requires
                        self.data@.len() == rs * total + (self.data@.len() as int % rs as int),
                        (self.data@.len() as int % rs as int) < rs as int,
                ;
            }
        }
        if i >= slots {
            return None;
        }
        let off: usize = i * rs;
        let payload: &[u8] = slice_subrange(self.data.as_slice(), off, off + self.width);
        let sum: Vec<u8> = checksum(payload);
        let stored: &[u8] = slice_subrange(self.data.as_slice(), off + self.width, off + rs);
        if bytes_equal(sum.as_slice(), stored) {
            let mut out: Vec<u8> = Vec::new();
            append_bytes(&mut out, payload);
            assert(out@ == payload@);
            Some(out)
        } else {
            None
        }
    }

    /// Appends a record with the given payload. Fails, and changes nothing,
    /// where the log is full.
    pub fn append(&mut self, payload: &[u8]) -> (r: Result<(), StoreError>)
        requires
            old(self).wf(),
            payload@.len() == old(self).spec_width(),
        ensures
            final(self).wf(),
            final(self).spec_width() == old(self).spec_width(),
            final(self).spec_limit() == old(self).spec_limit(),
            r is Ok <==> old(self).spec_len() < old(self).spec_limit(),
            r is Err ==> r == Err::<(), StoreError>(StoreError::Full) && final(self).bytes() == old(
                self,
            ).bytes(),
            r is Ok ==> final(self).bytes() == old(self).bytes() + spec_record(payload@),
            r is Ok ==> final(self).bytes().len() == old(self).bytes().len() + payload@.len() + 4,
            r is Ok && old(self).spec_healthy() ==> {
                &&& final(self).spec_healthy()
                &&& final(self).spec_payloads() == old(self).spec_payloads().push(payload@)
            },
    {
        if self.len() >= self.limit {
            return Err(StoreError::Full);
        }
        let sum: Vec<u8> = checksum(payload);
        proof {
            if old(self).spec_healthy() {
                lemma_append_healthy(self.data@, self.width as nat, payload@);
            }
        }
        append_bytes(&mut self.data, payload);
        append_bytes(&mut self.data, sum.as_slice());
        assert(self.data@ == old(self).data@ + spec_record(payload@));
        Ok(())
    }

    /// Keeps the first `n` records and drops the rest.
    pub fn truncate(&mut self, n: usize)
        requires
            old(self).wf(),
            n <= old(self).spec_len(),
        ensures
            final(self).wf(),
            final(self).spec_width() == old(self).spec_width(),
            final(self).spec_limit() == old(self).spec_limit(),
            final(self).bytes() == old(self).bytes().subrange(0, n * (old(self).spec_width() + 4)),
            final(self).spec_len() == n,
            valid_prefix(old(self).bytes(), old(self).spec_width(), n as int) ==> {
                &&& final(self).spec_healthy()
                &&& final(self).spec_payloads() == old(self).spec_payloads().subrange(0, n as int)
            },
    {
        let rs: usize = self.width + CHECKSUM_SIZE;
        proof {
            let total = self.data@.len() as int / rs as int;
            lemma_fundamental_div_mod(self.data@.len() as int, rs as int);
            lemma_offsets(n as int, total, rs as int);
            assert(total * rs <= self.data@.len()) by (nonlinear_arith)
                requires
                    self.data@.len() == rs * total + (self.data@.len() as int % rs as int),
                    0 <= self.data@.len() as int % rs as int,
            ;
            lemma_slots((n * rs) as int, n as int, rs as int);
            if valid_prefix(self.data@, self.width as nat, n as int) {
                lemma_truncate_healthy(self.data@, self.width as nat, n as int);
            }
        }
        // the length of the data bounds the offset
        let total_len: usize = self.data.len();
        assert(n * rs <= total_len);
        let end: usize = n * rs;
        self.data.truncate(end);
    }
}

/// The headers that a healthy store of `data` holds, in order of height.
pub open spec fn headers_of(data: Seq<u8>) -> Seq<Header> {
    Seq::new((data.len() / 84) as nat, |i: int| Header::spec_decode(payload_at(data, 80, i)))
}

/// The canonical headers, one 84-byte record per height: the 80 bytes of the
/// header and the checksum that guards them.
pub struct HeaderStore {
    log: RecordLog,
}

impl HeaderStore {
    /// The bytes of the store, as they are written out.
    pub closed spec fn bytes(&self) -> Seq<u8> {
        self.log.bytes()
    }

    /// The number of headers that the store may hold.
    pub closed spec fn spec_limit(&self) -> nat {
        self.log.spec_limit()
    }

    /// The log below the store is one of 80-byte payloads.
    pub closed spec fn log_wf(&self) -> bool {
        self.log.wf() && self.log.spec_width() == 80
    }

    /// The store begins with a valid record: its genesis.
    pub open spec fn wf(&self) -> bool {
        self.log_wf() && valid_at(self.bytes(), 80, 0)
    }

    /// The store is a whole number of valid records.
    pub open spec fn spec_healthy(&self) -> bool {
        healthy(self.bytes(), 80)
    }

    /// The headers of the store's record slots, in order of height.
    pub open spec fn spec_headers(&self) -> Seq<Header> {
        headers_of(self.bytes())
    }

    /// The greatest height in the store.
    pub open spec fn spec_height(&self) -> int {
        self.bytes().len() / 84 - 1
    }

    /// The header that the store begins with.
    pub open spec fn spec_genesis(&self) -> Header {
        Header::spec_decode(payload_at(self.bytes(), 80, 0))
    }

    /// A store that begins with a valid record holds at least one header.
    pub proof fn lemma_not_empty(&self)
        requires
            self.wf(),
        ensures
            self.spec_height() >= 0,
            self.spec_headers().len() == self.spec_height() + 1,
            self.spec_headers()[0] == self.spec_genesis(),
    {
        assert(self.bytes().len() >= 84);
    }

    /// A new store that holds the genesis header alone. Fails with
    /// `AlreadyExists` where `exists` says that a store is there already.
    pub fn create(exists: bool, genesis: Header) -> (r: Result<HeaderStore, StoreError>)
        ensures
            r is Ok <==> !exists,
            r is Err ==> r matches Err(StoreError::AlreadyExists),
            r matches Ok(store) ==> {
                &&& store.wf()
                &&& store.spec_healthy()
                &&& store.spec_headers() == seq![genesis]
                &&& store.bytes() == spec_record(genesis.spec_encode())
                &&& store.spec_limit() == usize::MAX
            },
    {
        if exists {
            return Err(StoreError::AlreadyExists);
        }
        let mut log: RecordLog = RecordLog::new(80, usize::MAX).unwrap();
        let payload: Vec<u8> = genesis.encode();
        let ghost before = log.bytes();
        proof {
            lemma_slots(0, 0, 84);
        }
        let _ = log.append(payload.as_slice());
        let store = HeaderStore { log };
        proof {
            assert(before + spec_record(payload@) == spec_record(payload@));
            assert(store.bytes().len() == 84);
            genesis.lemma_decode_encode();
            assert(store.spec_healthy());
            assert(valid_at(store.bytes(), 80, 0));
            assert(payload_at(store.bytes(), 80, 0) == payload@);
            assert(store.spec_headers() =~= seq![genesis]);
        }
        Ok(store)
    }

    /// Opens a store over bytes that were stored earlier. Fails with
    /// `Corruption` at offset 0 where the bytes do not begin with a valid
    /// record, and with `NetworkMismatch` where that record is not `genesis`.
    pub fn open(bytes: Vec<u8>, genesis: Header) -> (r: Result<HeaderStore, StoreError>)
        ensures
            !valid_at(bytes@, 80, 0) ==> r == Err::<HeaderStore, StoreError>(
                StoreError::Corruption { offset: 0 },
            ),
            valid_at(bytes@, 80, 0) && Header::spec_decode(payload_at(bytes@, 80, 0)) != genesis
                ==> r == Err::<HeaderStore, StoreError>(StoreError::NetworkMismatch),
            valid_at(bytes@, 80, 0) && Header::spec_decode(payload_at(bytes@, 80, 0)) == genesis
                ==> r is Ok,
            r matches Ok(store) ==> {
                &&& store.wf()
                &&& store.bytes() == bytes@
                &&& store.spec_genesis() == genesis
                &&& store.spec_limit() == usize::MAX
            },
    {
        let log: RecordLog = RecordLog::from_bytes(bytes, 80, usize::MAX).unwrap();
        match log.get(0) {
            None => Err(StoreError::Corruption { offset: 0 }),
            Some(payload) => {
                let first: Header = Header::decode(payload.as_slice()).unwrap();
                if first == genesis {
                    Ok(HeaderStore { log })
                } else {
                    Err(StoreError::NetworkMismatch)
                }
            },
        }
    }

    /// Opens the store that `existing` holds, or makes a new one where there
    /// is none.
    pub fn open_or_create(existing: Option<Vec<u8>>, genesis: Header) -> (r: Result<
        HeaderStore,
        StoreError,
    >)
        ensures
            existing matches Some(bytes) ==> {
                &&& !valid_at(bytes@, 80, 0) ==> r == Err::<HeaderStore, StoreError>(
                    StoreError::Corruption { offset: 0 },
                )
                &&& valid_at(bytes@, 80, 0) && Header::spec_decode(payload_at(bytes@, 80, 0))
                    != genesis ==> r == Err::<HeaderStore, StoreError>(StoreError::NetworkMismatch)
                &&& valid_at(bytes@, 80, 0) && Header::spec_decode(payload_at(bytes@, 80, 0))
                    == genesis ==> r is Ok
                &&& r matches Ok(store) ==> store.bytes() == bytes@
            },
            existing is None ==> r is Ok,
            existing is None ==> (r matches Ok(store) ==> store.spec_healthy()
                && store.spec_headers() == seq![genesis]),
            r matches Ok(store) ==> store.wf() && store.spec_genesis() == genesis
                && store.spec_limit() == usize::MAX,
    {
        match existing {
            Some(bytes) => HeaderStore::open(bytes, genesis),
            None => {
                let made: Result<HeaderStore, StoreError> = HeaderStore::create(false, genesis);
                proof {
                    if made is Ok {
                        made->Ok_0.lemma_not_empty();
                    }
                }
                made
            },
        }
    }

    /// The bytes of the store, to be written out.
    pub fn as_bytes(&self) -> (r: &Vec<u8>)
        ensures
            r@ == self.bytes(),
    {
        self.log.as_bytes()
    }

    /// The number of headers that the store may hold.
    pub fn limit(&self) -> (r: usize)
        ensures
            r == self.spec_limit(),
    {
        self.log.limit()
    }

    /// Changes the number of headers that the store may hold.
    pub fn set_limit(&mut self, limit: usize)
        ensures
            final(self).bytes() == old(self).bytes(),
            final(self).log_wf() == old(self).log_wf(),
            final(self).spec_limit() == limit,
    {
        self.log.set_limit(limit);
    }

    /// The number of record slots in the store.
    pub fn len(&self) -> (r: usize)
        requires
            self.wf(),
        ensures
            r == self.spec_height() + 1,
            r >= 1,
    {
        proof {
            self.lemma_not_empty();
        }
        self.log.len()
    }

    /// The greatest height in the store.
    pub fn height(&self) -> (r: u64)
        requires
            self.wf(),
        ensures
            r == self.spec_height(),
    {
        let n: usize = self.len();
        (n - 1) as u64
    }

    /// Checks that the store is a whole number of valid records. Where it is
    /// not, the error gives the offset of the first byte that belongs to no
    /// valid record.
    pub fn check(&self) -> (r: Result<(), StoreError>)
        requires
            self.wf(),
        ensures
            r is Ok <==> self.spec_healthy(),
            r matches Err(e) ==> exists|n: int|
                {
                    &&& #[trigger] is_valid_count(self.bytes(), 80, n)
                    &&& e == (StoreError::Corruption { offset: (n * 84) as usize })
                },
    {
        self.log.check()
    }

    /// Cuts the store back to the valid records that it begins with, and
    /// returns the number of bytes that were dropped. Nothing is made up:
    /// what stays is a prefix of what was there, and it ends where the first
    /// damaged or partial record began.
    pub fn heal(&mut self) -> (dropped: usize)
        requires
            old(self).wf(),
        ensures
            final(self).wf(),
            final(self).spec_limit() == old(self).spec_limit(),
            final(self).spec_healthy(),
            final(self).bytes() == old(self).bytes().subrange(0, final(self).bytes().len() as int),
            final(self).bytes().len() + dropped == old(self).bytes().len(),
            is_valid_count(old(self).bytes(), 80, final(self).spec_height() + 1),
            0 <= final(self).spec_height() <= old(self).spec_height(),
            final(self).spec_genesis() == old(self).spec_genesis(),
            old(self).spec_healthy() ==> final(self).bytes() == old(self).bytes(),
    {
        let dropped: usize = self.log.heal();
        proof {
            let n = self.spec_height() + 1;
            if n == 0 {
                assert(!valid_at(old(self).bytes(), 80, 0));
            }
            assert(valid_at(old(self).bytes(), 80, 0));
            lemma_offsets(1, n, 84);
            lemma_valid_at_agree(old(self).bytes(), self.bytes(), 80, 0);
        }
        dropped
    }

    /// Checks the store and heals it where the check fails; says whether
    /// it had to heal.
    pub fn recover(&mut self) -> (healed: bool)
        requires
            old(self).wf(),
        ensures
            final(self).wf(),
            final(self).spec_limit() == old(self).spec_limit(),
            final(self).spec_healthy(),
            healed == !old(self).spec_healthy(),
            final(self).bytes() == old(self).bytes().subrange(0, final(self).bytes().len() as int),
            is_valid_count(old(self).bytes(), 80, final(self).spec_height() + 1),
            0 <= final(self).spec_height() <= old(self).spec_height(),
            final(self).spec_genesis() == old(self).spec_genesis(),
            !healed ==> final(self).bytes() == old(self).bytes(),
    {
        if self.check().is_err() {
            self.heal();
            true
        } else {
            proof {
                self.lemma_not_empty();
                assert(self.bytes().subrange(0, self.bytes().len() as int) == self.bytes());
                assert(!valid_at(self.bytes(), 80, self.spec_height() + 1));
            }
            false
        }
    }

    /// The header at `height`, where the record there is valid.
    pub fn get(&self, height: u64) -> (r: Option<Header>)
        requires
            self.wf(),
        ensures
            r is Some <==> valid_at(self.bytes(), 80, height as int),
            r matches Some(h) ==> h == Header::spec_decode(payload_at(self.bytes(), 80, height as int)),
            self.spec_healthy() ==> (r is Some <==> height <= self.spec_height()),
            self.spec_healthy() && height <= self.spec_height() ==> r == Some(
                self.spec_headers()[height as int],
            ),
    {
        proof {
            if self.spec_healthy() {
                let total = self.bytes().len() as int / 84;
                if height < total {
                    assert(valid_at(self.bytes(), 80, height as int));
                }
            }
        }
        let slots: usize = self.log.len();
        if height >= slots as u64 {
            return None;
        }
        match self.log.get(height as usize) {
            None => None,
            Some(payload) => Header::decode(payload.as_slice()),
        }
    }

    /// Appends a header at the next height. Fails with `Full`, and changes
    /// nothing, where the store holds as many headers as it may.
    pub fn append(&mut self, header: &Header) -> (r: Result<(), StoreError>)
        requires
            old(self).wf(),
        ensures
            final(self).wf(),
            final(self).spec_limit() == old(self).spec_limit(),
            r is Ok <==> old(self).spec_height() + 1 < old(self).spec_limit(),
            r is Err ==> r == Err::<(), StoreError>(StoreError::Full) && final(self).bytes() == old(
                self,
            ).bytes(),
            r is Ok ==> final(self).bytes() == old(self).bytes() + spec_record(header.spec_encode()),
            r is Ok && old(self).spec_healthy() ==> {
                &&& final(self).spec_healthy()
                &&& final(self).spec_headers() == old(self).spec_headers().push(*header)
                &&& final(self).spec_height() == old(self).spec_height() + 1
            },
    {
        let payload: Vec<u8> = header.encode();
        let r: Result<(), StoreError> = self.log.append(payload.as_slice());
        proof {
            old(self).lemma_not_empty();
            if r is Ok {
                lemma_offsets(1, 1, 84);
                lemma_valid_at_agree(old(self).bytes(), self.bytes(), 80, 0);
                if old(self).spec_healthy() {
                    header.lemma_decode_encode();
                    assert(payloads(self.bytes(), 80) == payloads(old(self).bytes(), 80).push(
                        payload@,
                    ));
                    let a = self.spec_headers();
                    let b = old(self).spec_headers().push(*header);
                    assert(a.len() == b.len());
                    assert forall|i: int| 0 <= i < a.len() implies a[i] == b[i] by {
                        assert(payloads(self.bytes(), 80)[i] == payload_at(self.bytes(), 80, i));
                        if i < b.len() - 1 {
                            assert(payloads(old(self).bytes(), 80)[i] == payload_at(
                                old(self).bytes(),
                                80,
                                i,
                            ));
                        }
                    }
                    assert(a =~= b);
                }
            }
        }
        r
    }

    /// Drops every header above `height`.
    pub fn rollback(&mut self, height: u64)
        requires
            old(self).wf(),
            height <= old(self).spec_height(),
        ensures
            final(self).wf(),
            final(self).spec_limit() == old(self).spec_limit(),
            final(self).bytes() == old(self).bytes().subrange(0, (height + 1) * 84),
            final(self).spec_height() == height,
            old(self).spec_healthy() ==> {
                &&& final(self).spec_healthy()
                &&& final(self).spec_headers() == old(self).spec_headers().subrange(
                    0,
                    height + 1,
                )
            },
    {
        proof {
            old(self).lemma_not_empty();
        }
        // the number of records bounds the height
        let total: usize = self.log.len();
        let keep: usize = (height + 1) as usize;
        self.log.truncate(keep);
        proof {
            let n = keep as int;
            lemma_offsets(1, n, 84);
            lemma_valid_at_agree(old(self).bytes(), self.bytes(), 80, 0);
            if old(self).spec_healthy() {
                assert(valid_prefix(old(self).bytes(), 80, n));
                let a = self.spec_headers();
                let b = old(self).spec_headers().subrange(0, n);
                assert(a.len() == b.len());
                assert forall|i: int| 0 <= i < a.len() implies a[i] == b[i] by {
                    assert(payloads(self.bytes(), 80)[i] == payload_at(self.bytes(), 80, i));
                    assert(payloads(old(self).bytes(), 80)[i] == payload_at(
                        old(self).bytes(),
                        80,
                        i,
                    ));
                }
                assert(a =~= b);
            }
        }
    }
}

} // verus!
