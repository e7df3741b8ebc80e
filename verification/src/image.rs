//! What a log file holds, taken as one sequence of bytes: what a write does
//! to it, which rows a forward and a reverse iteration find in it, and the
//! same on a file that is held in memory.

use crate::builder::SyncPolicy;
use crate::db::{
    elapsed, forward_page, padded, page_written, position_after, reverse_page, tail_after,
    tail_start, Db, Write,
};
use crate::error::Error;
use crate::framing::zeros;
use crate::laws::{lemma_append_adds_row, lemma_reopen_finds_tail, lemma_reverse_rows_grow};
use crate::page::{
    occupied_prefix, page_rows, page_valid, slot_count, slots_per_page, Page, PAGE_SIZE,
};
use vstd::prelude::*;
use vstd::slice::{slice_subrange, slice_to_vec};

verus! {

/// The file after `bytes` were written at `offset`: the bytes replace what
/// stood there, the file grows where they reach beyond its end, and a gap
/// between the old end and `offset` reads as zeros.
pub open spec fn written(file: Seq<u8>, offset: nat, bytes: Seq<u8>) -> Seq<u8> {
    let end = offset + bytes.len();
    let len = if end > file.len() {
        end
    } else {
        file.len()
    };
    Seq::new(
        len,
        |i: int|
            if offset <= i < end {
                bytes[i - offset]
            } else if i < file.len() {
                file[i]
            } else {
                0u8
            },
    )
}

/// The number of whole pages in the file.
pub open spec fn page_count(file: Seq<u8>) -> nat {
    file.len() / PAGE_SIZE as nat
}

/// Page `index` of the file, counted from its start.
pub open spec fn page_image(file: Seq<u8>, index: nat) -> Seq<u8> {
    file.subrange((index * PAGE_SIZE as nat) as int, ((index + 1) * PAGE_SIZE as nat) as int)
}

/// Page `index` of the file, counted back from its end.
pub open spec fn page_image_from_end(file: Seq<u8>, index: nat) -> Seq<u8> {
    file.subrange(
        file.len() - (index + 1) * PAGE_SIZE as nat,
        file.len() - index * PAGE_SIZE as nat,
    )
}

/// The rows of the first `pages` pages of the file: page after page, each
/// page's rows in insertion order.
pub open spec fn forward_rows_of(file: Seq<u8>, stride: nat, pages: nat) -> Seq<Seq<u8>>
    decreases pages,
{
    if pages == 0 {
        Seq::empty()
    } else {
        forward_rows_of(file, stride, (pages - 1) as nat) + page_rows(
            page_image(file, (pages - 1) as nat),
            stride,
        )
    }
}

/// What a forward iteration over the file yields.
pub open spec fn forward_rows(file: Seq<u8>, stride: nat) -> Seq<Seq<u8>> {
    forward_rows_of(file, stride, page_count(file))
}

/// The rows of the last `pages` pages of the file: page after page from the
/// end, each page's rows in reverse insertion order.
pub open spec fn reverse_rows_of(file: Seq<u8>, stride: nat, pages: nat) -> Seq<Seq<u8>>
    decreases pages,
{
    if pages == 0 {
        Seq::empty()
    } else {
        reverse_rows_of(file, stride, (pages - 1) as nat) + page_rows(
            page_image_from_end(file, (pages - 1) as nat),
            stride,
        ).reverse()
    }
}

/// What a reverse iteration over the file yields.
pub open spec fn reverse_rows(file: Seq<u8>, stride: nat) -> Seq<Seq<u8>> {
    reverse_rows_of(file, stride, page_count(file))
}

/// The byte sequences that a vector of rows holds.
pub open spec fn contents(rows: Seq<Vec<u8>>) -> Seq<Seq<u8>> {
    Seq::new(rows.len(), |i: int| rows[i]@)
}

/// The first `count` items of a sequence, or all of them where there are
/// fewer.
pub open spec fn first_items<T>(items: Seq<T>, count: nat) -> Seq<T> {
    if items.len() > count {
        items.subrange(0, count as int)
    } else {
        items
    }
}

/// A log file together with what its writer keeps in memory: the occupied
/// slots of the tail page, and the offset at which the tail page belongs.
pub struct Log {
    pub file: Seq<u8>,
    pub tail: Seq<u8>,
    pub position: nat,
}

impl Log {
    /// A log on an empty file.
    pub open spec fn fresh() -> Log {
        Log { file: Seq::empty(), tail: Seq::empty(), position: 0 }
    }

    /// The log after its writer has appended `payload` and the page was
    /// written.
    pub open spec fn append(self, payload: Seq<u8>, stride: nat) -> Log {
        Log {
            file: written(self.file, self.position, page_written(self.tail, payload, stride)),
            tail: tail_after(self.tail, payload, stride),
            position: position_after(self.tail, self.position, stride),
        }
    }

    /// The log that a fresh one becomes by appending the rows `rows` in
    /// order.
    pub open spec fn after(rows: Seq<Seq<u8>>, stride: nat) -> Log
        decreases rows.len(),
    {
        if rows.len() == 0 {
            Log::fresh()
        } else {
            Log::after(rows.drop_last(), stride).append(rows.last(), stride)
        }
    }

    /// The log that opening a store on `file` gives: the file's last page
    /// is read back as the tail page, and where the file holds no page the
    /// tail page is empty and belongs at the end.
    pub open spec fn reopened(file: Seq<u8>, stride: nat) -> Log {
        match tail_start(file.len()) {
            Some(start) => {
                let last = file.subrange(start as int, file.len() as int);
                Log {
                    file,
                    tail: last.subrange(0, occupied_prefix(last, stride) as int),
                    position: start,
                }
            },
            None => Log { file, tail: Seq::empty(), position: file.len() },
        }
    }

    /// The writer's memory and the file fit together: the tail page is a
    /// valid page image and belongs on a page boundary; the file ends either
    /// there, with nothing in the tail page, or one page further, and this
    /// last page is then the tail page filled up with zeros.
    pub open spec fn consistent(self, stride: nat) -> bool {
        &&& page_valid(self.tail, stride)
        &&& self.position % PAGE_SIZE as nat == 0
        &&& if self.file.len() == self.position {
            self.tail.len() == 0
        } else {
            &&& self.file.len() == self.position + PAGE_SIZE
            &&& self.file.subrange(self.position as int, self.position + PAGE_SIZE) == padded(
                self.tail,
            )
        }
    }

    /// The number of rows that the tail page can still take.
    pub open spec fn available(self, stride: nat) -> nat {
        if stride == 0 {
            0
        } else {
            ((PAGE_SIZE - self.tail.len()) / stride as int) as nat
        }
    }

    /// The last page of the file, as opening a store reads it.
    pub open spec fn last_page(self) -> Seq<u8> {
        self.file.subrange(self.file.len() - PAGE_SIZE, self.file.len() as int)
    }

    /// The log holds `count` rows as appends to a fresh log leave them: the
    /// writer's memory and the file fit together; the tail page holds the
    /// rows that do not fill a whole page, has room for one more, and
    /// belongs behind the pages that the other rows fill; it has been
    /// written to the file unless it is empty; and where it is empty and
    /// there are rows, the last page of the file is full.
    pub open spec fn holds(self, count: nat, stride: nat) -> bool {
        &&& self.consistent(stride)
        &&& self.tail.len() + stride <= PAGE_SIZE
        &&& slot_count(self.tail.len(), stride) == count % slots_per_page(stride)
        &&& self.position == count / slots_per_page(stride) * PAGE_SIZE as nat
        &&& (self.file.len() == self.position <==> count % slots_per_page(stride) == 0)
        &&& count > 0 && count % slots_per_page(stride) == 0 ==> {
            &&& self.file.len() >= PAGE_SIZE
            &&& occupied_prefix(self.last_page(), stride) + stride > PAGE_SIZE
        }
    }
}

/// The log that a store and the file it writes to make up.
pub open spec fn log_of<const ROW_SIZE: usize>(db: &Db<ROW_SIZE>, file: Seq<u8>) -> Log {
    Log { file, tail: db.tail(), position: db.position() }
}

impl Write {
    /// Does to a file that is held in memory what the write asks for.
    pub fn apply(&self, file: &mut Vec<u8>)
        requires
            self.offset + self.bytes@.len() <= usize::MAX,
        ensures
            final(file)@ == written(old(file)@, self.offset as nat, self.bytes@),
    {
        let offset = self.offset as usize;
        let end = offset + self.bytes.len();
        let ghost before = file@;
        while file.len() < end
            invariant
                before.len() <= file@.len(),
                file@.len() <= end || file@.len() == before.len(),
                file@ == before + zeros((file@.len() - before.len()) as nat),
            decreases end - file.len(),
        {
            file.push(0);
            assert(file@ =~= before + zeros((file@.len() - before.len()) as nat));
        }
        let ghost grown = file@;
        let mut i: usize = 0;
        while i < self.bytes.len()
            invariant
                i <= self.bytes@.len(),
                end == offset + self.bytes@.len(),
                end <= file@.len(),
                file@.len() == grown.len(),
                forall|j: int|
                    0 <= j < file@.len() ==> #[trigger] file@[j] == if offset <= j < offset + i {
                        self.bytes@[j - offset]
                    } else {
                        grown[j]
                    },
            decreases self.bytes.len() - i,
        {
            file[offset + i] = self.bytes[i];
            i = i + 1;
        }
        assert(file@ =~= written(before, self.offset as nat, self.bytes@));
    }
}

/// Opens a store at time `now` on a file that is held in memory: the file's
/// last page, where it has one, is read back as the tail page. Where a
/// writer whose memory fitted the file has left it, the store finds that
/// memory again, unless the writer had filled the last page and not yet
/// written to the next.
pub fn open<const ROW_SIZE: usize>(file: &[u8], now: u128) -> (db: Db<ROW_SIZE>)
    ensures
        db.wf(),
        log_of(&db, file@) == Log::reopened(file@, ROW_SIZE as nat),
        db.policy() == SyncPolicy::AfterEveryAppend,
        db.last_sync() == now,
        !db.poisoned(),
        forall|log: Log|
            #[trigger] log.consistent(ROW_SIZE as nat) && log.file == file@ && (log.file.len()
                != log.position || log.file.len() == 0) ==> log_of(&db, file@) == log,
{
    let len = file.len();
    let tail = match Db::<ROW_SIZE>::tail_offset(len as u64) {
        Some(start) => slice_to_vec(slice_subrange(file, start as usize, len)),
        None => Vec::new(),
    };
    let db = Db::open(len as u64, tail, now);
    proof {
        assert(log_of(&db, file@).tail =~= Log::reopened(file@, ROW_SIZE as nat).tail);
        assert forall|log: Log|
            #[trigger] log.consistent(ROW_SIZE as nat) && log.file == file@ && (log.file.len()
                != log.position || log.file.len() == 0) implies Log::reopened(
            file@,
            ROW_SIZE as nat,
        ) == log by {
            lemma_reopen_finds_tail(log, ROW_SIZE as nat);
        }
    }
    db
}

/// Appends the encoded row `payload` at time `now` through a store to the
/// file that it writes to, held in memory: the store says what to write,
/// and the write is done. The result tells whether a flush is due. Where
/// the store's memory and the file fit together, they still do afterwards,
/// and a forward iteration finds the row behind the rows that it found
/// before. A store that refuses the row leaves the file as it is; a page
/// that would end beyond what the memory can address is not written
/// either.
pub fn append<const ROW_SIZE: usize>(
    db: &mut Db<ROW_SIZE>,
    file: &mut Vec<u8>,
    payload: &[u8],
    now: u128,
) -> (result: Result<bool, Error>)
    requires
        old(db).wf(),
    ensures
        final(db).wf(),
        final(db).policy() == old(db).policy(),
        match result {
            Ok(sync) => {
                &&& old(db).refusal(payload@) is None
                &&& old(db).position() + PAGE_SIZE <= usize::MAX
                &&& log_of(final(db), final(file)@) == log_of(old(db), old(file)@).append(
                    payload@,
                    ROW_SIZE as nat,
                )
                &&& sync == old(db).policy().due(elapsed(old(db).last_sync(), now))
                &&& !final(db).poisoned()
                &&& log_of(old(db), old(file)@).consistent(ROW_SIZE as nat) ==> {
                    &&& log_of(final(db), final(file)@).consistent(ROW_SIZE as nat)
                    &&& forward_rows(final(file)@, ROW_SIZE as nat) == forward_rows(
                        old(file)@,
                        ROW_SIZE as nat,
                    ).push(payload@)
                }
            },
            Err(error) => {
                &&& error == match old(db).refusal(payload@) {
                    Some(refusal) => refusal,
                    None => Error::Io,
                }
                &&& old(db).refusal(payload@) is None ==> old(db).position() + PAGE_SIZE
                    > usize::MAX
                &&& final(file)@ == old(file)@
                &&& final(db).tail() == old(db).tail()
                &&& final(db).position() == old(db).position()
                &&& final(db).poisoned() == old(db).poisoned()
            },
        },
{
    if !db.is_poisoned() && db.offset() > (usize::MAX - PAGE_SIZE) as u64 {
        if payload.len() == 0 {
            return Err(Error::Serialization);
        }
        if !db.takes(payload) {
            return Err(Error::RowTooLarge);
        }
        return Err(Error::Io);
    }
    match db.insert(payload, now) {
        Ok(write) => {
            write.apply(file);
            proof {
                let before = log_of(old(db), old(file)@);
                assert(log_of(db, file@).file =~= before.append(payload@, ROW_SIZE as nat).file);
                if before.consistent(ROW_SIZE as nat) {
                    lemma_append_adds_row(before, payload@, ROW_SIZE as nat);
                }
            }
            Ok(write.sync)
        },
        Err(error) => Err(error),
    }
}

/// Puts copies of `rows` behind `out`: in their order, or last first where
/// `reversed` is set.
fn push_rows(out: &mut Vec<Vec<u8>>, rows: &Vec<&[u8]>, reversed: bool)
    ensures
        contents(final(out)@) == contents(old(out)@) + if reversed {
            Seq::new(rows@.len(), |i: int| rows@[i]@).reverse()
        } else {
            Seq::new(rows@.len(), |i: int| rows@[i]@)
        },
{
    let ghost before = contents(out@);
    let ghost views = Seq::new(rows@.len(), |i: int| rows@[i]@);
    let ghost added = if reversed {
        views.reverse()
    } else {
        views
    };
    let mut i: usize = 0;
    assert(contents(out@) =~= before + added.subrange(0, 0));
    while i < rows.len()
        invariant
            i <= rows@.len(),
            views == Seq::new(rows@.len(), |i: int| rows@[i]@),
            added == if reversed {
                views.reverse()
            } else {
                views
            },
            added.len() == rows@.len(),
            contents(out@) == before + added.subrange(0, i as int),
        decreases rows.len() - i,
    {
        let at = if reversed {
            rows.len() - 1 - i
        } else {
            i
        };
        let row = slice_to_vec(rows[at]);
        assert(row@ == added[i as int]);
        let ghost held = out@;
        assert(contents(held).len() == held.len());
        assert(held.len() == before.len() + i);
        out.push(row);
        i = i + 1;
        assert forall|j: int| 0 <= j < out@.len() implies #[trigger] contents(out@)[j] == (before
            + added.subrange(0, i as int))[j] by {
            if j < held.len() {
                assert(contents(held)[j] == held[j]@);
                assert(contents(held)[j] == (before + added.subrange(0, i - 1))[j]);
            }
        }
        assert(contents(out@) =~= before + added.subrange(0, i as int));
    }
    assert(added.subrange(0, i as int) =~= added);
}

/// The rows that a forward iteration finds in a file that is held in memory:
/// the pages from the start of the file, each page's rows in insertion order.
pub fn rows<const ROW_SIZE: usize>(file: &[u8]) -> (rows: Vec<Vec<u8>>)
    ensures
        contents(rows@) == forward_rows(file@, ROW_SIZE as nat),
{
    let len = file.len() as u64;
    let mut out: Vec<Vec<u8>> = Vec::new();
    let mut index: u64 = 0;
    assert(contents(out@) =~= forward_rows_of(file@, ROW_SIZE as nat, 0));
    loop
        invariant_except_break
            len == file@.len(),
            file@.len() <= usize::MAX,
            index <= page_count(file@),
            contents(out@) == forward_rows_of(file@, ROW_SIZE as nat, index as nat),
        ensures
            contents(out@) == forward_rows(file@, ROW_SIZE as nat),
        decreases page_count(file@) - index,
    {
        match forward_page(index, len) {
            None => {
                break ;
            },
            Some(start) => {
                let image = slice_subrange(file, start as usize, start as usize + PAGE_SIZE);
                let page = Page::<ROW_SIZE>::from_bytes(slice_to_vec(image));
                let found = page.rows();
                assert(Seq::new(found@.len(), |i: int| found@[i]@) =~= page_rows(
                    page_image(file@, index as nat),
                    ROW_SIZE as nat,
                ));
                push_rows(&mut out, &found, false);
                index = index + 1;
            },
        }
    }
    out
}

/// The rows that a reverse iteration finds in a file that is held in memory:
/// the pages back from the end of the file, each page's rows in reverse
/// insertion order.
pub fn rows_reverse<const ROW_SIZE: usize>(file: &[u8]) -> (rows: Vec<Vec<u8>>)
    ensures
        contents(rows@) == reverse_rows(file@, ROW_SIZE as nat),
{
    let len = file.len() as u64;
    let mut out: Vec<Vec<u8>> = Vec::new();
    let mut index: u64 = 0;
    assert(contents(out@) =~= reverse_rows_of(file@, ROW_SIZE as nat, 0));
    loop
        invariant_except_break
            len == file@.len(),
            file@.len() <= usize::MAX,
            index <= page_count(file@),
            contents(out@) == reverse_rows_of(file@, ROW_SIZE as nat, index as nat),
        ensures
            contents(out@) == reverse_rows(file@, ROW_SIZE as nat),
        decreases page_count(file@) - index,
    {
        match reverse_page(index, len) {
            None => {
                break ;
            },
            Some(start) => {
                let image = slice_subrange(file, start as usize, start as usize + PAGE_SIZE);
                let page = Page::<ROW_SIZE>::from_bytes(slice_to_vec(image));
                let found = page.rows();
                assert(Seq::new(found@.len(), |i: int| found@[i]@) =~= page_rows(
                    page_image_from_end(file@, index as nat),
                    ROW_SIZE as nat,
                ));
                push_rows(&mut out, &found, true);
                index = index + 1;
            },
        }
    }
    out
}

/// The last `count` rows of a file that is held in memory, newest first:
/// what a reverse iteration yields first. Pages are read back from the end
/// of the file only until that many rows are found.
pub fn last_rows<const ROW_SIZE: usize>(file: &[u8], count: usize) -> (rows: Vec<Vec<u8>>)
    ensures
        contents(rows@) == first_items(reverse_rows(file@, ROW_SIZE as nat), count as nat),
{
    let len = file.len() as u64;
    let mut out: Vec<Vec<u8>> = Vec::new();
    let mut index: u64 = 0;
    assert(contents(out@) =~= reverse_rows_of(file@, ROW_SIZE as nat, 0));
    loop
        invariant_except_break
            len == file@.len(),
            file@.len() <= usize::MAX,
            index <= page_count(file@),
            contents(out@) == reverse_rows_of(file@, ROW_SIZE as nat, index as nat),
        ensures
            contents(out@) == first_items(reverse_rows(file@, ROW_SIZE as nat), count as nat),
        decreases page_count(file@) - index,
    {
        if out.len() >= count {
            proof {
                lemma_reverse_rows_grow(
                    file@,
                    ROW_SIZE as nat,
                    index as nat,
                    page_count(file@),
                );
            }
            let ghost held = out@;
            let ghost all = reverse_rows(file@, ROW_SIZE as nat);
            out.truncate(count);
            assert forall|j: int| 0 <= j < count implies #[trigger] contents(out@)[j] == all[j] by {
                assert(contents(held)[j] == held[j]@);
                assert(all.subrange(0, held.len() as int)[j] == all[j]);
            }
            assert(contents(out@) =~= first_items(all, count as nat));
            break ;
        }
        match reverse_page(index, len) {
            None => {
                break ;
            },
            Some(start) => {
                let image = slice_subrange(file, start as usize, start as usize + PAGE_SIZE);
                let page = Page::<ROW_SIZE>::from_bytes(slice_to_vec(image));
                let found = page.rows();
                assert(Seq::new(found@.len(), |i: int| found@[i]@) =~= page_rows(
                    page_image_from_end(file@, index as nat),
                    ROW_SIZE as nat,
                ));
                push_rows(&mut out, &found, true);
                index = index + 1;
            },
        }
    }
    out
}

} // verus!
