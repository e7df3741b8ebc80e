//! The log store: which page of the file is the tail, what an append writes
//! and where, when the tail rolls over to a new page, and which pages an
//! iteration reads. The store decides; whoever holds the file reads and
//! writes.

use crate::builder::{Builder, SyncPolicy};
use crate::error::Error;
use crate::framing::{fits, slot_image, zeros};
use crate::page::{occupied_prefix, page_valid, Page, PAGE_SIZE};
use crate::page_lemmas::lemma_empty_page_valid;
use vstd::arithmetic::div_mod::{lemma_basic_div, lemma_div_non_zero};
use vstd::prelude::*;
use vstd::slice::slice_to_vec;

verus! {

/// A page image filled up with zero bytes to the size of a page.
pub open spec fn padded(tail: Seq<u8>) -> Seq<u8> {
    tail + zeros((PAGE_SIZE - tail.len()) as nat)
}

/// After one more slot the page of `tail` has no room for another.
pub open spec fn fills_page(tail: Seq<u8>, stride: nat) -> bool {
    tail.len() + 2 * stride > PAGE_SIZE
}

/// A page of `tail` has a free slot, and `payload` fits in it.
pub open spec fn takes(tail: Seq<u8>, payload: Seq<u8>, stride: nat) -> bool {
    fits(payload, stride) && tail.len() + stride <= PAGE_SIZE
}

/// The tail page after `payload` was appended to it: empty again where the
/// append filled the page.
pub open spec fn tail_after(tail: Seq<u8>, payload: Seq<u8>, stride: nat) -> Seq<u8> {
    if fills_page(tail, stride) {
        Seq::empty()
    } else {
        tail + slot_image(payload, stride)
    }
}

/// Where the tail page is written after `payload` was appended: one page
/// further where the append filled the page.
pub open spec fn position_after(tail: Seq<u8>, position: nat, stride: nat) -> nat {
    if fills_page(tail, stride) {
        position + PAGE_SIZE as nat
    } else {
        position
    }
}

/// The page that an append of `payload` writes.
pub open spec fn page_written(tail: Seq<u8>, payload: Seq<u8>, stride: nat) -> Seq<u8> {
    padded(tail + slot_image(payload, stride))
}

/// The nanoseconds from `last_sync` to `now`, and none where the clock went
/// back.
pub open spec fn elapsed(last_sync: u128, now: u128) -> nat {
    if now >= last_sync {
        (now - last_sync) as nat
    } else {
        0
    }
}

/// Where the tail page of a file of `file_len` bytes starts: a page before
/// the end, or nowhere where the file is shorter than a page.
pub open spec fn tail_start(file_len: nat) -> Option<nat> {
    if file_len >= PAGE_SIZE {
        Some((file_len - PAGE_SIZE) as nat)
    } else {
        None
    }
}

/// Where page `index` of a forward iteration starts in a file of `file_len`
/// bytes: pages are counted from the start of the file, and the iteration
/// ends with the first page that the file does not hold whole.
pub open spec fn forward_start(index: nat, file_len: nat) -> Option<nat> {
    if (index + 1) * PAGE_SIZE as nat <= file_len {
        Some(index * PAGE_SIZE as nat)
    } else {
        None
    }
}

/// Where page `index` of a reverse iteration starts in a file of `file_len`
/// bytes: pages are counted back from the end of the file, and the iteration
/// ends with the first page that would start before the file does.
pub open spec fn reverse_start(index: nat, file_len: nat) -> Option<nat> {
    if (index + 1) * PAGE_SIZE as nat <= file_len {
        Some((file_len - (index + 1) * PAGE_SIZE as nat) as nat)
    } else {
        None
    }
}

/// What an append asks of whoever holds the file: write `bytes`, one whole
/// page, at `offset`, and flush the file's data afterwards if `sync` is set.
#[derive(Debug)]
pub struct Write {
    pub offset: u64,
    pub bytes: Vec<u8>,
    pub sync: bool,
}

/// The writer's side of a log store over a file of slots of `ROW_SIZE`
/// bytes: the tail page, where in the file it belongs, and when the file was
/// last flushed.
#[derive(Debug)]
pub struct Db<const ROW_SIZE: usize> {
    current_page: Page<ROW_SIZE>,
    position: u64,
    sync_writes: SyncPolicy,
    last_sync: u128,
    poisoned: bool,
}

impl<const ROW_SIZE: usize> Db<ROW_SIZE> {
    /// The bytes of the tail page's occupied slots.
    pub closed spec fn tail(&self) -> Seq<u8> {
        self.current_page@
    }

    /// The offset in the file at which the tail page is written.
    pub closed spec fn position(&self) -> nat {
        self.position as nat
    }

    /// When appends are followed by a flush.
    pub closed spec fn policy(&self) -> SyncPolicy {
        self.sync_writes
    }

    /// The time of the last flush, or of the opening.
    pub closed spec fn last_sync(&self) -> u128 {
        self.last_sync
    }

    /// A write or a seek has failed, and the store refuses to go on.
    pub closed spec fn poisoned(&self) -> bool {
        self.poisoned
    }

    /// The tail page is well formed.
    pub closed spec fn wf(&self) -> bool {
        self.current_page.wf()
    }

    /// The store is as `open` leaves it on a file of `file_len` bytes that
    /// ends with the bytes `tail`: where the file holds a page, the tail page
    /// is the occupied prefix of `tail` and is written a page before the end;
    /// else the tail page is empty and is written at the end.
    pub open spec fn opened_on(&self, file_len: nat, tail: Seq<u8>) -> bool {
        match tail_start(file_len) {
            Some(start) => {
                &&& self.position() == start
                &&& self.tail() == tail.subrange(0, occupied_prefix(tail, ROW_SIZE as nat) as int)
            },
            None => {
                &&& self.position() == file_len
                &&& self.tail() == Seq::<u8>::empty()
            },
        }
    }

    /// Why the store refuses to append `payload`, if it does: a poisoned
    /// store refuses everything; an empty payload is the work of a broken
    /// encoder; a payload that does not fit in a slot, and any payload while
    /// the tail page is full, is too large; and a page that would end beyond
    /// what a file offset can express cannot be written.
    pub open spec fn refusal(&self, payload: Seq<u8>) -> Option<Error> {
        if self.poisoned() {
            Some(Error::Io)
        } else if payload.len() == 0 {
            Some(Error::Serialization)
        } else if !takes(self.tail(), payload, ROW_SIZE as nat) {
            Some(Error::RowTooLarge)
        } else if self.position() + PAGE_SIZE > u64::MAX {
            Some(Error::Io)
        } else {
            None
        }
    }

    /// A builder with the default options.
    pub fn builder() -> (builder: Builder)
        ensures
            builder.policy() == SyncPolicy::AfterEveryAppend,
    {
        Builder::default()
    }

    /// Where to read the tail page of a file of `file_len` bytes before the
    /// store is opened on it.
    pub fn tail_offset(file_len: u64) -> (offset: Option<u64>)
        ensures
            match offset {
                Some(start) => tail_start(file_len as nat) == Some(start as nat),
                None => tail_start(file_len as nat) is None,
            },
    {
        if file_len >= PAGE_SIZE as u64 {
            Some(file_len - PAGE_SIZE as u64)
        } else {
            None
        }
    }

    /// Opens the store on a file of `file_len` bytes at time `now`. Where the
    /// file holds at least a page, `tail` is its last page, which becomes the
    /// tail page and will be rewritten in place; else `tail` is not looked at,
    /// the tail page is empty and will be written at the end of the file. The
    /// store flushes after every append. Where the last page of the file is
    /// a valid page image filled up with zeros, that image is the tail page.
    pub fn open(file_len: u64, tail: Vec<u8>, now: u128) -> (db: Self)
        ensures
            db.wf(),
            db.opened_on(file_len as nat, tail@),
            db.policy() == SyncPolicy::AfterEveryAppend,
            db.last_sync() == now,
            !db.poisoned(),
            forall|valid: Seq<u8>|
                file_len >= PAGE_SIZE && #[trigger] page_valid(valid, ROW_SIZE as nat) && tail@
                    == padded(valid) ==> db.tail() == valid,
    {
        if file_len >= PAGE_SIZE as u64 {
            Db {
                current_page: Page::from_bytes(tail),
                position: file_len - PAGE_SIZE as u64,
                sync_writes: SyncPolicy::AfterEveryAppend,
                last_sync: now,
                poisoned: false,
            }
        } else {
            Db {
                current_page: Page::new(),
                position: file_len,
                sync_writes: SyncPolicy::AfterEveryAppend,
                last_sync: now,
                poisoned: false,
            }
        }
    }

    /// Replaces the flush policy.
    pub fn set_policy(&mut self, policy: SyncPolicy)
        ensures
            final(self).policy() == policy,
            final(self).tail() == old(self).tail(),
            final(self).position() == old(self).position(),
            final(self).last_sync() == old(self).last_sync(),
            final(self).poisoned() == old(self).poisoned(),
            final(self).wf() == old(self).wf(),
    {
        self.sync_writes = policy;
    }

    /// Marks the store as unusable after a write or a seek on its file has
    /// failed: what the file holds no longer follows from what the store
    /// knows, and every later append is refused.
    pub fn poison(&mut self)
        ensures
            final(self).poisoned(),
            final(self).tail() == old(self).tail(),
            final(self).position() == old(self).position(),
            final(self).policy() == old(self).policy(),
            final(self).last_sync() == old(self).last_sync(),
            final(self).wf() == old(self).wf(),
    {
        self.poisoned = true;
    }

    /// The offset in the file at which the tail page is written.
    pub fn offset(&self) -> (offset: u64)
        ensures
            offset == self.position(),
    {
        self.position
    }

    /// Whether the tail page has a free slot and `payload` fits in it.
    pub fn takes(&self, payload: &[u8]) -> (room: bool)
        requires
            self.wf(),
        ensures
            room == takes(self.tail(), payload@, ROW_SIZE as nat),
    {
        ROW_SIZE >= 8 && payload.len() > 0 && payload.len() <= ROW_SIZE - 8
            && self.current_page.free() >= ROW_SIZE
    }

    /// Whether the store was poisoned.
    pub fn is_poisoned(&self) -> (poisoned: bool)
        ensures
            poisoned == self.poisoned(),
    {
        self.poisoned
    }

    /// The number of rows that the tail page can still take.
    pub fn available_rows(&self) -> (slots: usize)
        requires
            self.wf(),
        ensures
            ROW_SIZE == 0 ==> slots == 0,
            ROW_SIZE > 0 ==> slots == (PAGE_SIZE - self.tail().len()) / ROW_SIZE as int,
    {
        self.current_page.available_rows()
    }

    /// Appends the encoded row `payload` at time `now`. The row goes into the
    /// next slot of the tail page, and the whole page, filled up with zeros,
    /// is to be written where the tail page belongs: that is the write handed
    /// back. It is to be followed by a flush where the policy asks for one
    /// after the time that has passed since the last. Where the row took the
    /// last slot of the page, the tail moves on to a new, empty page behind
    /// it. A refused row changes nothing.
    pub fn insert(&mut self, payload: &[u8], now: u128) -> (result: Result<Write, Error>)
        requires
            old(self).wf(),
        ensures
            final(self).wf(),
            final(self).policy() == old(self).policy(),
            final(self).poisoned() == old(self).poisoned(),
            match result {
                Ok(write) => {
                    &&& old(self).refusal(payload@) is None
                    &&& write.offset == old(self).position()
                    &&& write.bytes@ == page_written(old(self).tail(), payload@, ROW_SIZE as nat)
                    &&& write.sync == old(self).policy().due(elapsed(old(self).last_sync(), now))
                    &&& final(self).tail() == tail_after(
                        old(self).tail(),
                        payload@,
                        ROW_SIZE as nat,
                    )
                    &&& final(self).position() == position_after(
                        old(self).tail(),
                        old(self).position(),
                        ROW_SIZE as nat,
                    )
                    &&& final(self).last_sync() == if write.sync {
                        now
                    } else {
                        old(self).last_sync()
                    }
                    &&& page_valid(old(self).tail(), ROW_SIZE as nat) ==> page_valid(
                        final(self).tail(),
                        ROW_SIZE as nat,
                    )
                },
                Err(error) => {
                    &&& old(self).refusal(payload@) == Some(error)
                    &&& final(self).tail() == old(self).tail()
                    &&& final(self).position() == old(self).position()
                    &&& final(self).last_sync() == old(self).last_sync()
                },
            },
    {
        if self.poisoned {
            return Err(Error::Io);
        }
        if payload.len() == 0 {
            return Err(Error::Serialization);
        }
        if ROW_SIZE < 8 || payload.len() > ROW_SIZE - 8 || self.current_page.free() < ROW_SIZE {
            return Err(Error::RowTooLarge);
        }
        if self.position > u64::MAX - PAGE_SIZE as u64 {
            return Err(Error::Io);
        }
        let inserted = self.current_page.insert(payload);
        assert(inserted is Ok);
        let mut bytes = slice_to_vec(self.current_page.as_bytes());
        while bytes.len() < PAGE_SIZE
            invariant
                bytes@.len() <= PAGE_SIZE,
                self.current_page@.len() <= bytes@.len(),
                bytes@ == self.current_page@ + zeros(
                    (bytes@.len() - self.current_page@.len()) as nat,
                ),
            decreases PAGE_SIZE - bytes.len(),
        {
            bytes.push(0);
            assert(bytes@ =~= self.current_page@ + zeros(
                (bytes@.len() - self.current_page@.len()) as nat,
            ));
        }
        let passed = if now >= self.last_sync {
            now - self.last_sync
        } else {
            0
        };
        let sync = self.sync_writes.is_due(passed);
        if sync {
            self.last_sync = now;
        }
        let write = Write { offset: self.position, bytes, sync };
        proof {
            if page_valid(old(self).tail(), ROW_SIZE as nat) {
                lemma_empty_page_valid(ROW_SIZE as nat);
            }
            let free = self.current_page.free_bytes() as int;
            if free < ROW_SIZE {
                lemma_basic_div(free, ROW_SIZE as int);
            } else {
                lemma_div_non_zero(free, ROW_SIZE as int);
            }
        }
        if self.current_page.available_rows() == 0 {
            self.current_page = Page::new();
            self.position = self.position + PAGE_SIZE as u64;
        }
        Ok(write)
    }
}

/// Where to read page `index` of a forward iteration over a file of
/// `file_len` bytes, or `None` where the iteration ends.
pub fn forward_page(index: u64, file_len: u64) -> (offset: Option<u64>)
    ensures
        match offset {
            Some(start) => forward_start(index as nat, file_len as nat) == Some(start as nat),
            None => forward_start(index as nat, file_len as nat) is None,
        },
{
    if index < file_len / PAGE_SIZE as u64 {
        Some(index * PAGE_SIZE as u64)
    } else {
        None
    }
}

/// Where to read page `index` of a reverse iteration over a file of
/// `file_len` bytes, or `None` where the iteration ends.
pub fn reverse_page(index: u64, file_len: u64) -> (offset: Option<u64>)
    ensures
        match offset {
            Some(start) => reverse_start(index as nat, file_len as nat) == Some(start as nat),
            None => reverse_start(index as nat, file_len as nat) is None,
        },
{
    if index < file_len / PAGE_SIZE as u64 {
        Some(file_len - (index + 1) * PAGE_SIZE as u64)
    } else {
        None
    }
}

} // verus!
