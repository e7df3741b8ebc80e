//! What holds of a log: what was appended is what is read, in either
//! direction; opening it again finds the tail; nothing that was written is
//! changed.

use crate::db::{fills_page, padded, page_written, takes};
use crate::framing::{fits, lemma_slot_image, slot_image};
use crate::image::{
    forward_rows, forward_rows_of, page_count, page_image, page_image_from_end, reverse_rows,
    reverse_rows_of, Log,
};
use crate::page::{
    occupied_prefix, page_rows, slot_count, slots_per_page, stride_ok, PAGE_SIZE,
};
use crate::page_lemmas::{
    lemma_empty_page_valid, lemma_occupied_slots_bound, lemma_slot_count,
    lemma_valid_page_append, lemma_valid_page_prefix, lemma_valid_page_rows,
};
use vstd::arithmetic::div_mod::{
    lemma_basic_div, lemma_div_multiples_vanish, lemma_div_non_zero, lemma_fundamental_div_mod,
    lemma_fundamental_div_mod_converse, lemma_hoist_over_denominator, lemma_small_mod,
};
use vstd::arithmetic::mul::lemma_mul_is_commutative;
use vstd::prelude::*;

verus! {

/// Every row of `rows` fits in a slot of width `stride`.
pub open spec fn all_fit(rows: Seq<Seq<u8>>, stride: nat) -> bool {
    forall|i: int| 0 <= i < rows.len() ==> fits(#[trigger] rows[i], stride)
}

/// What is appended is what is read. A forward iteration over the file that
/// a fresh log has become by appending rows that fit yields exactly those
/// rows, in their order, and so it does after the store was opened again,
/// which leaves the file as it is. The log holds the rows as `Log::holds`
/// says, and the file is made of whole pages, at least one of them once
/// there is a row.
pub proof fn lemma_round_trip(rows: Seq<Seq<u8>>, stride: nat)
    requires
        stride_ok(stride),
        all_fit(rows, stride),
    ensures
        forward_rows(Log::after(rows, stride).file, stride) == rows,
        forward_rows(Log::reopened(Log::after(rows, stride).file, stride).file, stride) == rows,
        Log::after(rows, stride).holds(rows.len(), stride),
        Log::after(rows, stride).file.len() % PAGE_SIZE as nat == 0,
        rows.len() > 0 ==> Log::after(rows, stride).file.len() > 0,
    decreases rows.len(),
{
    if rows.len() == 0 {
        lemma_fresh_holds(stride);
        assert(forward_rows(Log::fresh().file, stride) =~= rows);
    } else {
        let before = rows.drop_last();
        let row = rows.last();
        let log = Log::after(before, stride);
        assert(all_fit(before, stride)) by {
            assert forall|i: int| 0 <= i < before.len() implies fits(
                #[trigger] before[i],
                stride,
            ) by {
                assert(before[i] == rows[i]);
            }
        }
        lemma_round_trip(before, stride);
        lemma_append_adds_row(log, row, stride);
        lemma_append_holds(log, row, before.len(), stride);
        assert(before.push(row) =~= rows);
    }
}

/// A fresh log holds no rows.
pub proof fn lemma_fresh_holds(stride: nat)
    requires
        stride_ok(stride),
    ensures
        Log::fresh().holds(0, stride),
{
    let slots = slots_per_page(stride);
    lemma_div_non_zero(PAGE_SIZE as int, stride as int);
    lemma_empty_page_valid(stride);
    lemma_small_mod(0, slots);
    lemma_basic_div(0, slots as int);
    lemma_basic_div(0, stride as int);
}

/// A log that holds some rows and takes one more that fits holds one row
/// more afterwards.
pub proof fn lemma_append_holds(log: Log, row: Seq<u8>, count: nat, stride: nat)
    requires
        log.holds(count, stride),
        fits(row, stride),
    ensures
        log.append(row, stride).holds(count + 1, stride),
{
    let slots = slots_per_page(stride);
    let next = log.append(row, stride);
    let grown = log.tail + slot_image(row, stride);
    let m = slot_count(log.tail.len(), stride);
    lemma_append_adds_row(log, row, stride);
    lemma_slot_image(row, stride);
    assert(grown.len() == log.tail.len() + stride);
    lemma_valid_page_append(log.tail, row, stride);
    lemma_slot_count(log.tail.len(), stride);
    lemma_slot_count(grown.len(), stride);
    assert(slots > 0) by {
        lemma_div_non_zero(PAGE_SIZE as int, stride as int);
    }
    assert(slot_count(grown.len(), stride) == m + 1) by {
        assert((m + 1) * stride == m * stride + stride) by (nonlinear_arith);
        lemma_div_multiples_vanish((m + 1) as int, stride as int);
        lemma_mul_is_commutative((m + 1) as int, stride as int);
    }
    lemma_div_mod_successor(count, slots);
    if fills_page(log.tail, stride) {
        assert(m + 1 == slots);
        assert((count + 1) % slots == 0);
        assert(next.tail.len() == 0);
        assert(slot_count(0, stride) == 0) by {
            lemma_basic_div(0, stride as int);
        }
        assert(next.position == (count + 1) / slots * PAGE_SIZE as nat);
        assert(next.file.len() == next.position);
        assert(next.last_page() =~= padded(grown));
        lemma_valid_page_prefix(grown, stride, (PAGE_SIZE - grown.len()) as nat);
    } else {
        assert(m + 1 < slots);
        assert((count + 1) % slots == m + 1);
        assert(next.tail == grown);
        assert(next.file.len() == next.position + PAGE_SIZE);
    }
}

/// Backwards is forwards reversed. Over a file of whole pages a reverse
/// iteration yields what a forward iteration yields, in reverse order.
pub proof fn lemma_reverse_rows(file: Seq<u8>, stride: nat)
    requires
        file.len() % PAGE_SIZE as nat == 0,
    ensures
        reverse_rows(file, stride) == forward_rows(file, stride).reverse(),
{
    lemma_reverse_rows_between(file, stride, page_count(file));
    lemma_forward_rows_between(file, stride, page_count(file));
}

/// What is appended is read backwards in reverse. A reverse iteration over
/// the file that a fresh log has become by appending rows that fit yields
/// exactly those rows, last first.
pub proof fn lemma_round_trip_reverse(rows: Seq<Seq<u8>>, stride: nat)
    requires
        stride_ok(stride),
        all_fit(rows, stride),
    ensures
        reverse_rows(Log::after(rows, stride).file, stride) == rows.reverse(),
{
    lemma_round_trip(rows, stride);
    lemma_reverse_rows(Log::after(rows, stride).file, stride);
}

/// Opening again loses nothing. Where rows that fit were appended to a
/// fresh log, the store is opened again on the file, and one more row that
/// fits is appended, a forward iteration yields the earlier rows and then
/// the new one. This is stated for the files that do not end in a full page:
/// on those the page that is read back has no room, and the append is
/// refused, as `lemma_reopen_on_full_page` shows.
pub proof fn lemma_reopen_then_append(rows: Seq<Seq<u8>>, row: Seq<u8>, stride: nat)
    requires
        stride_ok(stride),
        all_fit(rows, stride),
        fits(row, stride),
        rows.len() == 0 || rows.len() % slots_per_page(stride) != 0,
    ensures
        takes(Log::reopened(Log::after(rows, stride).file, stride).tail, row, stride),
        forward_rows(
            Log::reopened(Log::after(rows, stride).file, stride).append(row, stride).file,
            stride,
        ) == rows.push(row),
{
    let log = Log::after(rows, stride);
    lemma_round_trip(rows, stride);
    if rows.len() == 0 {
        lemma_fundamental_div_mod(PAGE_SIZE as int, stride as int);
        lemma_div_non_zero(PAGE_SIZE as int, stride as int);
        lemma_small_mod(0, slots_per_page(stride));
    }
    lemma_reopen_finds_tail(log, stride);
    lemma_append_adds_row(log, row, stride);
}

/// Opening again on a full page leaves no room. Where rows that fit were
/// appended to a fresh log and fill their pages exactly, the store that is
/// opened again on the file reads a full page back as its tail page: it has
/// room for no row, and takes no append.
pub proof fn lemma_reopen_on_full_page(rows: Seq<Seq<u8>>, row: Seq<u8>, stride: nat)
    requires
        stride_ok(stride),
        all_fit(rows, stride),
        rows.len() > 0,
        rows.len() % slots_per_page(stride) == 0,
    ensures
        Log::reopened(Log::after(rows, stride).file, stride).available(stride) == 0,
        !takes(Log::reopened(Log::after(rows, stride).file, stride).tail, row, stride),
{
    let log = Log::after(rows, stride);
    lemma_round_trip(rows, stride);
    let again = Log::reopened(log.file, stride);
    let last = log.last_page();
    lemma_occupied_slots_bound(last, stride, slots_per_page(stride));
    assert(again.tail.len() == occupied_prefix(last, stride));
    lemma_basic_div(PAGE_SIZE - again.tail.len(), stride as int);
}

/// Opening again finds the room that was left. Where `rows.len()` rows that
/// fit were appended to a fresh log and the store is opened again on the
/// file, the tail page has room for as many rows as a page holds, less
/// those of the last, unfinished page. This is stated for the files that do
/// not end in a full page: on those the page that is read back has no room
/// at all, as `lemma_reopen_on_full_page` shows.
pub proof fn lemma_tail_recovery(rows: Seq<Seq<u8>>, stride: nat)
    requires
        stride_ok(stride),
        all_fit(rows, stride),
        rows.len() == 0 || rows.len() % slots_per_page(stride) != 0,
    ensures
        Log::reopened(Log::after(rows, stride).file, stride).available(stride) == slots_per_page(
            stride,
        ) - rows.len() % slots_per_page(stride),
{
    let log = Log::after(rows, stride);
    let slots = slots_per_page(stride);
    lemma_round_trip(rows, stride);
    lemma_fundamental_div_mod(PAGE_SIZE as int, stride as int);
    lemma_div_non_zero(PAGE_SIZE as int, stride as int);
    if rows.len() == 0 {
        lemma_small_mod(0, slots);
    }
    lemma_reopen_finds_tail(log, stride);
    lemma_slot_count(log.tail.len(), stride);
    let m = slot_count(log.tail.len(), stride);
    lemma_hoist_over_denominator(PAGE_SIZE - log.tail.len(), m as int, stride);
}

/// An append that the tail page takes keeps the writer's memory and the file
/// together, and adds the payload as one row behind all the rows that a
/// forward iteration found before.
pub proof fn lemma_append_adds_row(log: Log, payload: Seq<u8>, stride: nat)
    requires
        log.consistent(stride),
        takes(log.tail, payload, stride),
    ensures
        log.append(payload, stride).consistent(stride),
        forward_rows(log.append(payload, stride).file, stride) == forward_rows(
            log.file,
            stride,
        ).push(payload),
{
    let next = log.append(payload, stride);
    let image = slot_image(payload, stride);
    let grown = log.tail + image;
    let page = page_written(log.tail, payload, stride);
    let pages = log.position / PAGE_SIZE as nat;
    let start = log.position as int;
    lemma_valid_page_append(log.tail, payload, stride);
    lemma_valid_page_rows(grown, stride);
    lemma_valid_page_rows(log.tail, stride);
    assert(page.len() == PAGE_SIZE);
    assert(next.file.len() == log.position + PAGE_SIZE);
    assert(page_count(next.file) == pages + 1);
    assert(page_image(next.file, pages) =~= page);
    assert(next.file.subrange(0, start) =~= log.file.subrange(0, start));
    lemma_forward_rows_agree(next.file, log.file, stride, pages);
    let before = forward_rows_of(log.file, stride, pages);
    assert(forward_rows(next.file, stride) == before + page_rows(log.tail, stride).push(payload));
    if log.file.len() == log.position {
        lemma_empty_page_valid(stride);
        assert(log.tail =~= Seq::<u8>::empty());
        assert(forward_rows(log.file, stride) == before);
    } else {
        assert(page_count(log.file) == pages + 1);
        assert(page_image(log.file, pages) =~= padded(log.tail));
        assert(forward_rows(log.file, stride) == before + page_rows(log.tail, stride));
    }
    assert(before + page_rows(log.tail, stride).push(payload) =~= (before + page_rows(
        log.tail,
        stride,
    )).push(payload));
    if fills_page(log.tail, stride) {
        lemma_empty_page_valid(stride);
    } else {
        assert(next.file.subrange(next.position as int, next.position + PAGE_SIZE) =~= padded(
            next.tail,
        ));
    }
}

/// Appending changes nothing that was written. Where a consistent log takes
/// an append, the file does not shrink, and all its bytes up to the end of
/// the last occupied slot of the tail page stay as they were: the pages
/// before the tail page, and every occupied slot of the tail page.
pub proof fn lemma_append_only(log: Log, payload: Seq<u8>, stride: nat)
    requires
        log.consistent(stride),
        takes(log.tail, payload, stride),
    ensures
        log.file.len() <= log.append(payload, stride).file.len(),
        log.position + log.tail.len() <= log.file.len(),
        log.append(payload, stride).file.subrange(0, (log.position + log.tail.len()) as int)
            == log.file.subrange(0, (log.position + log.tail.len()) as int),
{
    let next = log.append(payload, stride);
    let kept = log.position + log.tail.len();
    lemma_slot_image(payload, stride);
    if log.file.len() != log.position {
        assert forall|i: int| log.position <= i < kept implies next.file[i] == log.file[i] by {
            assert(log.file[i] == log.file.subrange(
                log.position as int,
                log.position + PAGE_SIZE,
            )[i - log.position]);
        }
    }
    assert(next.file.subrange(0, kept as int) =~= log.file.subrange(0, kept as int));
}

/// Opening a store on the file of a consistent log finds the writer's memory
/// again, unless the tail page was empty and not yet written while the file
/// was not empty: then the last page of the file, a full one, is read back
/// as the tail page.
pub proof fn lemma_reopen_finds_tail(log: Log, stride: nat)
    requires
        log.consistent(stride),
        log.file.len() != log.position || log.file.len() == 0,
    ensures
        Log::reopened(log.file, stride) == log,
{
    let again = Log::reopened(log.file, stride);
    if log.file.len() == 0 {
        assert(again.tail =~= log.tail);
    } else {
        let last = log.file.subrange(log.position as int, log.file.len() as int);
        assert(last == padded(log.tail));
        lemma_valid_page_prefix(log.tail, stride, (PAGE_SIZE - log.tail.len()) as nat);
        assert(again.tail =~= log.tail);
    }
}

/// Two files that agree on their first `pages` pages hold the same rows in
/// them.
proof fn lemma_forward_rows_agree(a: Seq<u8>, b: Seq<u8>, stride: nat, pages: nat)
    requires
        pages * PAGE_SIZE as nat <= a.len(),
        pages * PAGE_SIZE as nat <= b.len(),
        a.subrange(0, (pages * PAGE_SIZE as nat) as int) == b.subrange(
            0,
            (pages * PAGE_SIZE as nat) as int,
        ),
    ensures
        forward_rows_of(a, stride, pages) == forward_rows_of(b, stride, pages),
    decreases pages,
{
    if pages > 0 {
        let before = (pages - 1) as nat;
        let cut = (pages * PAGE_SIZE as nat) as int;
        let pa = a.subrange(0, cut);
        let pb = b.subrange(0, cut);
        assert(a.subrange(0, (before * PAGE_SIZE as nat) as int) =~= pa.subrange(
            0,
            (before * PAGE_SIZE as nat) as int,
        ));
        assert(b.subrange(0, (before * PAGE_SIZE as nat) as int) =~= pb.subrange(
            0,
            (before * PAGE_SIZE as nat) as int,
        ));
        lemma_forward_rows_agree(a, b, stride, before);
        assert(page_image(a, before) =~= pa.subrange((before * PAGE_SIZE as nat) as int, cut));
        assert(page_image(b, before) =~= pb.subrange((before * PAGE_SIZE as nat) as int, cut));
    }
}

/// The remainder and the quotient of a successor: the remainder is one more
/// and the quotient stays, or the remainder is zero and the quotient is one
/// more where the divisor is reached.
proof fn lemma_div_mod_successor(a: nat, d: nat)
    requires
        0 < d,
    ensures
        a % d < d,
        (a + 1) % d == if a % d + 1 == d {
            0
        } else {
            a % d + 1
        },
        (a + 1) / d == if a % d + 1 == d {
            a / d + 1
        } else {
            a / d
        },
{
    lemma_fundamental_div_mod(a as int, d as int);
    let q = a as int / d as int;
    let r = a as int % d as int;
    if r + 1 == d {
        assert(a + 1 == (q + 1) * d + 0) by (nonlinear_arith)
            requires
                a == d * q + r,
                r + 1 == d,
        ;
        lemma_fundamental_div_mod_converse(a as int + 1, d as int, q + 1, 0);
    } else {
        assert(a + 1 == q * d + (r + 1)) by (nonlinear_arith)
            requires
                a == d * q + r,
        ;
        lemma_fundamental_div_mod_converse(a as int + 1, d as int, q, r + 1);
    }
}

/// The rows of the pages from `low` up to, and without, `high`.
spec fn rows_between(file: Seq<u8>, stride: nat, low: nat, high: nat) -> Seq<Seq<u8>>
    decreases high,
{
    if high <= low {
        Seq::empty()
    } else {
        rows_between(file, stride, low, (high - 1) as nat) + page_rows(
            page_image(file, (high - 1) as nat),
            stride,
        )
    }
}

/// The rows of a run of pages are those of its first page and then those of
/// the others.
proof fn lemma_rows_between_front(file: Seq<u8>, stride: nat, low: nat, high: nat)
    requires
        low < high,
    ensures
        rows_between(file, stride, low, high) == page_rows(page_image(file, low), stride)
            + rows_between(file, stride, low + 1, high),
    decreases high,
{
    let first = page_rows(page_image(file, low), stride);
    if high == low + 1 {
        assert(rows_between(file, stride, low, low) =~= Seq::<Seq<u8>>::empty());
        assert(rows_between(file, stride, low + 1, high) =~= Seq::<Seq<u8>>::empty());
        assert(rows_between(file, stride, low, high) =~= first + Seq::<Seq<u8>>::empty());
    } else {
        let before = (high - 1) as nat;
        let last = page_rows(page_image(file, before), stride);
        lemma_rows_between_front(file, stride, low, before);
        assert((first + rows_between(file, stride, low + 1, before)) + last =~= first + (
        rows_between(file, stride, low + 1, before) + last));
    }
}

/// The rows of the first pages of a file are the rows between its start and
/// the page behind them.
proof fn lemma_forward_rows_between(file: Seq<u8>, stride: nat, pages: nat)
    ensures
        forward_rows_of(file, stride, pages) == rows_between(file, stride, 0, pages),
    decreases pages,
{
    if pages > 0 {
        lemma_forward_rows_between(file, stride, (pages - 1) as nat);
    }
}

/// In a file of whole pages, the rows that a reverse iteration finds in the
/// last `pages` pages are the rows of those pages in reverse order.
proof fn lemma_reverse_rows_between(file: Seq<u8>, stride: nat, pages: nat)
    requires
        file.len() % PAGE_SIZE as nat == 0,
        pages <= page_count(file),
    ensures
        reverse_rows_of(file, stride, pages) == rows_between(
            file,
            stride,
            (page_count(file) - pages) as nat,
            page_count(file),
        ).reverse(),
    decreases pages,
{
    let count = page_count(file);
    if pages == 0 {
        assert(rows_between(file, stride, count, count).reverse() =~= Seq::<Seq<u8>>::empty());
    } else {
        let before = (pages - 1) as nat;
        let low = (count - pages) as nat;
        lemma_reverse_rows_between(file, stride, before);
        assert(page_image_from_end(file, before) =~= page_image(file, low));
        lemma_rows_between_front(file, stride, low, count);
        let first = page_rows(page_image(file, low), stride);
        let rest = rows_between(file, stride, low + 1, count);
        assert((first + rest).reverse() =~= rest.reverse() + first.reverse());
    }
}

/// What a reverse iteration has found after some pages is the front of what
/// it finds after more.
pub(crate) proof fn lemma_reverse_rows_grow(file: Seq<u8>, stride: nat, pages: nat, more: nat)
    requires
        pages <= more,
    ensures
        reverse_rows_of(file, stride, pages).len() <= reverse_rows_of(file, stride, more).len(),
        reverse_rows_of(file, stride, more).subrange(
            0,
            reverse_rows_of(file, stride, pages).len() as int,
        ) == reverse_rows_of(file, stride, pages),
    decreases more,
{
    let found = reverse_rows_of(file, stride, pages);
    if pages < more {
        lemma_reverse_rows_grow(file, stride, pages, (more - 1) as nat);
        let before = reverse_rows_of(file, stride, (more - 1) as nat);
        assert(reverse_rows_of(file, stride, more).subrange(0, found.len() as int)
            =~= before.subrange(0, found.len() as int));
    } else {
        assert(found.subrange(0, found.len() as int) =~= found);
    }
}

} // verus!
