//! A page: 4096 bytes cut into slots of one fixed width, filled from the
//! front.

use crate::error::Error;
use crate::framing::{
    be_value, fits, lemma_slot_image, push_length, read_length, slot_image, zeros,
};
use crate::page_lemmas::{
    lemma_empty_page_valid, lemma_no_rows_without_slots, lemma_occupied_slots_beyond,
    lemma_readable_slots_stop, lemma_rows_of_occupied_prefix, lemma_slot_index_bound,
    lemma_valid_page_append, lemma_valid_page_prefix,
};
use vstd::arithmetic::div_mod::{
    lemma_basic_div, lemma_div_multiples_vanish, lemma_fundamental_div_mod, lemma_small_mod,
};
use vstd::arithmetic::mul::lemma_mul_is_commutative;
use vstd::prelude::*;
use vstd::slice::slice_subrange;

verus! {

/// Size in bytes of one page of the log.
pub const PAGE_SIZE: usize = 4096;

/// Number of slots of width `stride` that a page holds.
pub open spec fn slots_per_page(stride: nat) -> nat {
    if stride == 0 {
        0
    } else {
        PAGE_SIZE as nat / stride
    }
}

/// A stride with which rows can be stored: wider than the length prefix, and
/// no wider than a page.
pub open spec fn stride_ok(stride: nat) -> bool {
    8 < stride <= PAGE_SIZE
}

/// Slot `k` lies within `data`, and the stride leaves room for a length
/// prefix.
pub open spec fn slot_within(data: Seq<u8>, stride: nat, k: nat) -> bool {
    8 <= stride && (k + 1) * stride <= data.len()
}

/// The bytes of slot `k`.
pub open spec fn slot_bytes(data: Seq<u8>, stride: nat, k: nat) -> Seq<u8> {
    data.subrange((k * stride) as int, ((k + 1) * stride) as int)
}

/// The payload length that the prefix of slot `k` announces.
pub open spec fn slot_length(data: Seq<u8>, stride: nat, k: nat) -> nat {
    be_value(data.subrange((k * stride) as int, (k * stride + 8) as int))
}

/// Slot `k` is occupied: its first eight bytes are not all zero.
pub open spec fn slot_occupied(data: Seq<u8>, stride: nat, k: nat) -> bool {
    slot_within(data, stride, k) && slot_length(data, stride, k) != 0
}

/// Slot `k` can be read: it is occupied and its payload ends within the slot.
pub open spec fn slot_readable(data: Seq<u8>, stride: nat, k: nat) -> bool {
    slot_occupied(data, stride, k) && slot_length(data, stride, k) + 8 <= stride
}

/// The payload that slot `k` holds.
pub open spec fn slot_payload(data: Seq<u8>, stride: nat, k: nat) -> Seq<u8> {
    data.subrange((k * stride + 8) as int, (k * stride + 8 + slot_length(data, stride, k)) as int)
}

/// Among the first `n` slots, one more than the index of the last occupied
/// one; zero where none of them is occupied.
pub open spec fn occupied_slots(data: Seq<u8>, stride: nat, n: nat) -> nat
    decreases n,
{
    if n == 0 {
        0
    } else if slot_occupied(data, stride, (n - 1) as nat) {
        n
    } else {
        occupied_slots(data, stride, (n - 1) as nat)
    }
}

/// The length in bytes of the occupied prefix of a page image: it ends with
/// the last occupied slot.
pub open spec fn occupied_prefix(data: Seq<u8>, stride: nat) -> nat {
    occupied_slots(data, stride, slots_per_page(stride)) * stride
}

/// How many of the first `n` slots are reached by reading from the front and
/// stopping at the first slot that cannot be read.
pub open spec fn readable_slots(data: Seq<u8>, stride: nat, n: nat) -> nat
    decreases n,
{
    if n == 0 {
        0
    } else {
        let before = readable_slots(data, stride, (n - 1) as nat);
        if before == n - 1 && slot_readable(data, stride, (n - 1) as nat) {
            n
        } else {
            before
        }
    }
}

/// The rows of a page image, in the order in which they were inserted: the
/// payloads of the slots from the front up to the first one that is empty,
/// announces more than a slot can hold, or lies beyond the data.
pub open spec fn page_rows(data: Seq<u8>, stride: nat) -> Seq<Seq<u8>> {
    Seq::new(
        readable_slots(data, stride, slots_per_page(stride)),
        |k: int| slot_payload(data, stride, k as nat),
    )
}

/// A byte count that a page of slots of width `stride` can have: a whole
/// number of slots, and no more than a page.
pub open spec fn whole_slots(len: nat, stride: nat) -> bool {
    len <= PAGE_SIZE && if stride == 0 {
        len == 0
    } else {
        len % stride == 0
    }
}

/// The number of slots that `len` bytes make up.
pub open spec fn slot_count(len: nat, stride: nat) -> nat {
    if stride == 0 {
        0
    } else {
        len / stride
    }
}

/// A page image as appends leave it: a whole number of slots, each of which
/// can be read and is framed as a slot is: the length of its payload in
/// eight bytes, the payload, and zeros up to the end of the slot.
pub open spec fn page_valid(tail: Seq<u8>, stride: nat) -> bool {
    &&& stride_ok(stride)
    &&& whole_slots(tail.len(), stride)
    &&& forall|k: nat|
        slot_within(tail, stride, k) ==> #[trigger] slot_readable(tail, stride, k) && slot_bytes(
            tail,
            stride,
            k,
        ) == slot_image(slot_payload(tail, stride, k), stride)
}

/// One page of the log: the bytes of its occupied slots, and how many bytes
/// of the page are still free.
#[derive(Debug)]
pub struct Page<const ROW_SIZE: usize> {
    data: Vec<u8>,
    free: usize,
}

impl<const ROW_SIZE: usize> View for Page<ROW_SIZE> {
    type V = Seq<u8>;

    /// The bytes of the page's occupied prefix.
    closed spec fn view(&self) -> Seq<u8> {
        self.data@
    }
}

impl<const ROW_SIZE: usize> Page<ROW_SIZE> {
    /// The number of bytes of the page that no slot occupies yet.
    pub closed spec fn free_bytes(&self) -> nat {
        self.free as nat
    }

    /// The page holds a whole number of slots, and its free counter is what
    /// the occupied slots leave of the page.
    pub open spec fn wf(&self) -> bool {
        &&& whole_slots(self@.len(), ROW_SIZE as nat)
        &&& self@.len() + self.free_bytes() == PAGE_SIZE
    }

    /// The rows of the page, in insertion order: what reading finds in its
    /// bytes.
    pub open spec fn rows_view(&self) -> Seq<Seq<u8>> {
        page_rows(self@, ROW_SIZE as nat)
    }

    /// A page with no slot occupied.
    pub fn new() -> (page: Self)
        ensures
            page.wf(),
            page@ == Seq::<u8>::empty(),
            page.free_bytes() == PAGE_SIZE,
            page.rows_view() == Seq::<Seq<u8>>::empty(),
            stride_ok(ROW_SIZE as nat) ==> page_valid(page@, ROW_SIZE as nat),
    {
        proof {
            lemma_no_rows_without_slots(Seq::<u8>::empty(), ROW_SIZE as nat);
            if stride_ok(ROW_SIZE as nat) {
                lemma_empty_page_valid(ROW_SIZE as nat);
            }
        }
        Self { data: Vec::with_capacity(PAGE_SIZE), free: PAGE_SIZE }
    }

    /// The page that a byte image stands for. Any bytes are accepted. The
    /// slots that lie whole within the image and within a page are looked at;
    /// the last of them whose first eight bytes are not all zero ends the
    /// occupied prefix, which is what the page keeps of the image. No row of
    /// the image is lost by that, and an image that is a valid page, with
    /// or without zeros behind it, is kept as the valid page that it is.
    pub fn from_bytes(data: Vec<u8>) -> (page: Self)
        ensures
            page.wf(),
            page@ == data@.subrange(0, occupied_prefix(data@, ROW_SIZE as nat) as int),
            page.free_bytes() == PAGE_SIZE - occupied_prefix(data@, ROW_SIZE as nat),
            page.rows_view() == page_rows(data@, ROW_SIZE as nat),
            forall|valid: Seq<u8>, padding: nat|
                #![trigger page_valid(valid, ROW_SIZE as nat), zeros(padding)]
                page_valid(valid, ROW_SIZE as nat) && data@ == valid + zeros(padding) ==> page@
                    == valid,
    {
        let mut data = data;
        let ghost image = data@;
        let ghost stride = ROW_SIZE as nat;
        proof {
            lemma_rows_of_occupied_prefix(image, stride);
            assert forall|valid: Seq<u8>, padding: nat|
                #![trigger page_valid(valid, stride), zeros(padding)]
                page_valid(valid, stride) && image == valid + zeros(padding) implies image.subrange(
                0,
                occupied_prefix(image, stride) as int,
            ) == valid by {
                lemma_valid_page_prefix(valid, stride, padding);
            }
        }
        if ROW_SIZE < 8 || ROW_SIZE > PAGE_SIZE {
            proof {
                if ROW_SIZE >= 8 {
                    lemma_basic_div(PAGE_SIZE as int, stride as int);
                } else {
                    lemma_occupied_slots_beyond(image, stride, 0, slots_per_page(stride));
                }
                assert(occupied_slots(image, stride, 0) == 0);
                assert(occupied_prefix(image, stride) == 0) by (nonlinear_arith)
                    requires
                        occupied_prefix(image, stride) == 0 * stride,
                ;
            }
            data.truncate(0);
            proof {
                if stride > 0 {
                    lemma_small_mod(0, stride);
                }
            }
            return Self { data, free: PAGE_SIZE };
        }
        let slots: usize = PAGE_SIZE / ROW_SIZE;
        let mut k: usize = 0;
        let mut offset: usize = 0;
        let mut last: usize = 0;
        let mut last_end: usize = 0;
        proof {
            lemma_fundamental_div_mod(PAGE_SIZE as int, ROW_SIZE as int);
            lemma_mul_is_commutative(slots as int, ROW_SIZE as int);
        }
        while k < slots && ROW_SIZE <= data.len() - offset
            invariant
                8 <= ROW_SIZE <= PAGE_SIZE,
                stride == ROW_SIZE as nat,
                slots == slots_per_page(stride),
                slots * ROW_SIZE <= PAGE_SIZE,
                data@ == image,
                k <= slots,
                offset == k * ROW_SIZE,
                offset <= data.len(),
                last <= k,
                last == occupied_slots(image, stride, k as nat),
                last_end == last * ROW_SIZE,
            decreases slots - k,
        {
            proof {
                assert((k + 1) * ROW_SIZE == k * ROW_SIZE + ROW_SIZE) by (nonlinear_arith);
                assert((k + 1) * ROW_SIZE <= slots * ROW_SIZE) by (nonlinear_arith)
                    requires
                        k + 1 <= slots,
                        ROW_SIZE >= 0,
                ;
            }
            let len = read_length(data.as_slice(), offset);
            if len != 0 {
                last = k + 1;
                last_end = offset + ROW_SIZE;
            }
            k = k + 1;
            offset = offset + ROW_SIZE;
        }
        proof {
            if k < slots {
                assert((k + 1) * ROW_SIZE == k * ROW_SIZE + ROW_SIZE) by (nonlinear_arith);
                lemma_occupied_slots_beyond(image, stride, k as nat, slots as nat);
            }
            assert(last_end <= offset <= slots * ROW_SIZE) by (nonlinear_arith)
                requires
                    last_end == last * ROW_SIZE,
                    offset == k * ROW_SIZE,
                    last <= k <= slots,
                    ROW_SIZE >= 0,
            ;
            lemma_div_multiples_vanish(last as int, ROW_SIZE as int);
            lemma_mul_is_commutative(last as int, ROW_SIZE as int);
            lemma_fundamental_div_mod(last_end as int, ROW_SIZE as int);
        }
        data.truncate(last_end);
        Self { data, free: PAGE_SIZE - last_end }
    }

    /// Stores `payload` in the next free slot: the eight bytes of its length,
    /// the payload, and zero bytes up to the slot's width. An empty payload is
    /// refused as the work of a broken encoder; a payload that is too long for
    /// a slot, and any payload once the page is full, is refused for want of
    /// space. A refused payload leaves the page as it was.
    pub fn insert(&mut self, payload: &[u8]) -> (result: Result<(), Error>)
        requires
            old(self).wf(),
        ensures
            final(self).wf(),
            payload@.len() == 0 ==> result == Err::<(), Error>(Error::Serialization),
            payload@.len() > 0 && (old(self).free_bytes() < ROW_SIZE || payload@.len() + 8
                > ROW_SIZE) ==> result == Err::<(), Error>(Error::NoSpace),
            fits(payload@, ROW_SIZE as nat) && old(self).free_bytes() >= ROW_SIZE ==> result
                == Ok::<(), Error>(()),
            result is Err ==> *final(self) == *old(self),
            result is Ok ==> final(self)@ == old(self)@ + slot_image(payload@, ROW_SIZE as nat)
                && final(self).free_bytes() == old(self).free_bytes() - ROW_SIZE,
            result is Ok && page_valid(old(self)@, ROW_SIZE as nat) ==> page_valid(
                final(self)@,
                ROW_SIZE as nat,
            ) && final(self).rows_view() == old(self).rows_view().push(payload@),
    {
        if payload.len() == 0 {
            return Err(Error::Serialization);
        }
        if ROW_SIZE < 8 || self.free < ROW_SIZE || payload.len() > ROW_SIZE - 8 {
            return Err(Error::NoSpace);
        }
        let ghost before = self.data@;
        let ghost image = slot_image(payload@, ROW_SIZE as nat);
        proof {
            lemma_slot_image(payload@, ROW_SIZE as nat);
            if page_valid(before, ROW_SIZE as nat) {
                lemma_valid_page_append(before, payload@, ROW_SIZE as nat);
            }
        }
        push_length(&mut self.data, payload.len() as u64);
        let mut i: usize = 0;
        while i < payload.len()
            invariant
                i <= payload.len(),
                fits(payload@, ROW_SIZE as nat),
                image == slot_image(payload@, ROW_SIZE as nat),
                image.len() == ROW_SIZE,
                self.data@ == before + image.subrange(0, 8 + i),
                self.free == old(self).free,
            decreases payload.len() - i,
        {
            self.data.push(payload[i]);
            i = i + 1;
            assert(self.data@ =~= before + image.subrange(0, 8 + i));
        }
        let mut j: usize = 8 + payload.len();
        while j < ROW_SIZE
            invariant
                8 + payload.len() <= j <= ROW_SIZE,
                fits(payload@, ROW_SIZE as nat),
                image == slot_image(payload@, ROW_SIZE as nat),
                image.len() == ROW_SIZE,
                self.data@ == before + image.subrange(0, j as int),
                self.free == old(self).free,
            decreases ROW_SIZE - j,
        {
            self.data.push(0);
            j = j + 1;
            assert(self.data@ =~= before + image.subrange(0, j as int));
        }
        self.free = self.free - ROW_SIZE;
        proof {
            assert(image.subrange(0, ROW_SIZE as int) =~= image);
            let len = before.len() as int;
            let r = ROW_SIZE as int;
            assert(len % r == 0);
            lemma_fundamental_div_mod(len, r);
            let q = len / r;
            assert((q + 1) * r == r * q + r) by (nonlinear_arith);
            lemma_div_multiples_vanish(q + 1, r);
            lemma_mul_is_commutative(q + 1, r);
            lemma_fundamental_div_mod(len + r, r);
        }
        Ok(())
    }

    /// The rows of the page in insertion order, each as the bytes of its
    /// payload. Reading stops at the first slot that is empty or that
    /// announces a payload longer than a slot can hold.
    pub fn rows(&self) -> (rows: Vec<&[u8]>)
        requires
            self.wf(),
        ensures
            rows@.len() == self.rows_view().len(),
            forall|i: int| 0 <= i < rows@.len() ==> (#[trigger] rows@[i])@ == self.rows_view()[i],
    {
        let mut rows: Vec<&[u8]> = Vec::new();
        let ghost stride = ROW_SIZE as nat;
        let ghost image = self.data@;
        if ROW_SIZE < 8 {
            proof {
                lemma_readable_slots_stop(image, stride, 0, slots_per_page(stride));
            }
            return rows;
        }
        let mut k: usize = 0;
        let mut offset: usize = 0;
        loop
            invariant_except_break
                8 <= ROW_SIZE,
                stride == ROW_SIZE as nat,
                image == self.data@,
                image.len() <= PAGE_SIZE,
                offset == k * ROW_SIZE,
                offset <= self.data.len(),
                k <= slots_per_page(stride),
                readable_slots(image, stride, k as nat) == k,
                rows@.len() == k,
                forall|i: int|
                    0 <= i < k ==> (#[trigger] rows@[i])@ == slot_payload(image, stride, i as nat),
            ensures
                k <= slots_per_page(stride),
                readable_slots(image, stride, slots_per_page(stride)) == k,
                rows@.len() == k,
                forall|i: int|
                    0 <= i < k ==> (#[trigger] rows@[i])@ == slot_payload(image, stride, i as nat),
            decreases self.data.len() - offset,
        {
            proof {
                assert((k + 1) * ROW_SIZE == k * ROW_SIZE + ROW_SIZE) by (nonlinear_arith);
            }
            if ROW_SIZE > self.data.len() - offset {
                proof {
                    if k < slots_per_page(stride) {
                        lemma_readable_slots_stop(image, stride, k as nat, slots_per_page(stride));
                    }
                }
                break ;
            }
            proof {
                lemma_slot_index_bound(image.len(), stride, k as nat);
            }
            let len = read_length(self.data.as_slice(), offset);
            if len == 0 || len > (ROW_SIZE - 8) as u64 {
                proof {
                    lemma_readable_slots_stop(image, stride, k as nat, slots_per_page(stride));
                }
                break ;
            }
            let row = slice_subrange(self.data.as_slice(), offset + 8, offset + 8 + len as usize);
            rows.push(row);
            k = k + 1;
            offset = offset + ROW_SIZE;
        }
        rows
    }

    /// The number of bytes that the occupied slots take.
    pub fn len(&self) -> (len: usize)
        ensures
            len == self@.len(),
    {
        self.data.len()
    }

    /// The number of bytes of the page that are still free.
    pub fn free(&self) -> (free: usize)
        ensures
            free == self.free_bytes(),
    {
        self.free
    }

    /// The number of rows that can still be inserted: the free bytes divided
    /// by the slot width, and none where the width is zero.
    pub fn available_rows(&self) -> (slots: usize)
        ensures
            ROW_SIZE == 0 ==> slots == 0,
            ROW_SIZE > 0 ==> slots == self.free_bytes() / ROW_SIZE as nat,
    {
        if ROW_SIZE == 0 {
            0
        } else {
            self.free / ROW_SIZE
        }
    }

    /// The bytes of the occupied slots.
    pub fn as_bytes(&self) -> (bytes: &[u8])
        ensures
            bytes@ == self@,
    {
        self.data.as_slice()
    }
}

} // verus!
