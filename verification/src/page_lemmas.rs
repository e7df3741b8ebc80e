//! What holds of page images: of those that appends leave, and of any
//! bytes that are read as a page.

use crate::framing::{fits, lemma_be_zero, lemma_slot_image, slot_image, zeros};
use crate::page::{
    occupied_prefix, occupied_slots, page_rows, page_valid, readable_slots, slot_bytes,
    slot_count, slot_length, slot_occupied, slot_payload, slot_readable, slot_within,
    slots_per_page, stride_ok, whole_slots, PAGE_SIZE,
};
use vstd::arithmetic::div_mod::{
    lemma_basic_div, lemma_div_multiples_vanish, lemma_fundamental_div_mod,
    lemma_mod_multiples_basic, lemma_small_mod,
};
use vstd::arithmetic::mul::lemma_mul_is_commutative;
use vstd::prelude::*;

verus! {

/// The rows of a valid page image are the payloads of all its slots, and
/// filling the image up with zeros to a whole page changes none of them.
pub proof fn lemma_valid_page_rows(tail: Seq<u8>, stride: nat)
    requires
        page_valid(tail, stride),
    ensures
        page_rows(tail, stride).len() == slot_count(tail.len(), stride),
        page_rows(tail + zeros((PAGE_SIZE - tail.len()) as nat), stride) == page_rows(tail, stride),
{
    let m = slot_count(tail.len(), stride);
    let n = slots_per_page(stride);
    let full = tail + zeros((PAGE_SIZE - tail.len()) as nat);
    lemma_slot_count(tail.len(), stride);
    assert forall|k: nat| k < m implies #[trigger] slot_readable(tail, stride, k) by {
        lemma_slot_bounds(stride, k, m);
    }
    if m < n {
        lemma_slot_bounds(stride, m, (m + 1) as nat);
    }
    lemma_readable_run(tail, stride, m, n);
    assert forall|k: nat| k < m implies #[trigger] slot_readable(full, stride, k) by {
        lemma_slot_bounds(stride, k, m);
        assert(full.subrange((k * stride) as int, ((k + 1) * stride) as int) =~= tail.subrange(
            (k * stride) as int,
            ((k + 1) * stride) as int,
        ));
        lemma_slot_agrees(tail, full, stride, k);
    }
    if m < n {
        lemma_slot_bounds(stride, m, (m + 1) as nat);
        assert(full.subrange((m * stride) as int, (m * stride + 8) as int) =~= zeros(8));
        lemma_be_zero(zeros(8));
    }
    lemma_readable_run(full, stride, m, n);
    assert forall|k: int| 0 <= k < m implies #[trigger] page_rows(full, stride)[k] == page_rows(
        tail,
        stride,
    )[k] by {
        let kn = k as nat;
        assert(slot_readable(tail, stride, kn));
        lemma_slot_bounds(stride, kn, m);
        assert(full.subrange((kn * stride) as int, ((kn + 1) * stride) as int) =~= tail.subrange(
            (kn * stride) as int,
            ((kn + 1) * stride) as int,
        ));
        lemma_slot_agrees(tail, full, stride, kn);
    }
    assert(page_rows(full, stride) =~= page_rows(tail, stride));
}

/// Putting the image of a payload that fits behind a valid page image with
/// room for it gives a valid page image again, with the payload as one more
/// row behind the others.
pub proof fn lemma_valid_page_append(tail: Seq<u8>, payload: Seq<u8>, stride: nat)
    requires
        page_valid(tail, stride),
        fits(payload, stride),
        tail.len() + stride <= PAGE_SIZE,
    ensures
        page_valid(tail + slot_image(payload, stride), stride),
        page_rows(tail + slot_image(payload, stride), stride) == page_rows(tail, stride).push(
            payload,
        ),
{
    let m = slot_count(tail.len(), stride);
    let n = slots_per_page(stride);
    let image = slot_image(payload, stride);
    let next = tail + image;
    lemma_slot_image(payload, stride);
    lemma_slot_count(tail.len(), stride);
    lemma_slot_bounds(stride, m, (m + 1) as nat);
    lemma_mod_multiples_basic((m + 1) as int, stride as int);
    lemma_div_multiples_vanish((m + 1) as int, stride as int);
    lemma_mul_is_commutative((m + 1) as int, stride as int);
    assert(slot_count(next.len(), stride) == m + 1);
    assert forall|k: nat| k < m implies #[trigger] slot_readable(tail, stride, k) by {
        lemma_slot_bounds(stride, k, m);
    }
    assert forall|k: nat| k < m implies slot_readable(next, stride, k) && slot_payload(
        next,
        stride,
        k,
    ) == slot_payload(tail, stride, k) && slot_bytes(next, stride, k) == slot_bytes(
        tail,
        stride,
        k,
    ) by {
        lemma_slot_bounds(stride, k, m);
        assert(slot_readable(tail, stride, k));
        assert(slot_bytes(next, stride, k) =~= slot_bytes(tail, stride, k));
        lemma_slot_agrees(tail, next, stride, k);
    }
    assert(slot_bytes(next, stride, m) =~= image);
    assert(next.subrange((m * stride) as int, (m * stride + 8) as int) =~= image.subrange(0, 8));
    assert(slot_length(next, stride, m) == payload.len());
    assert(slot_payload(next, stride, m) =~= image.subrange(8, 8 + payload.len() as int));
    assert(slot_readable(next, stride, m));
    assert forall|k: nat| slot_within(next, stride, k) implies #[trigger] slot_readable(
        next,
        stride,
        k,
    ) && slot_bytes(next, stride, k) == slot_image(slot_payload(next, stride, k), stride) by {
        if k > m {
            assert((k + 1) * stride >= (m + 2) * stride) by (nonlinear_arith)
                requires
                    k >= m + 1,
                    stride >= 0,
            ;
            assert((m + 2) * stride == (m + 1) * stride + stride) by (nonlinear_arith);
        } else if k < m {
            assert(slot_readable(next, stride, k));
            assert(slot_readable(tail, stride, k));
        }
    }
    lemma_valid_page_rows(tail, stride);
    lemma_valid_page_rows(next, stride);
    assert forall|k: int| 0 <= k < m + 1 implies #[trigger] page_rows(next, stride)[k]
        == page_rows(tail, stride).push(payload)[k] by {
        if k < m {
            assert(slot_payload(next, stride, k as nat) == slot_payload(tail, stride, k as nat));
        }
    }
    assert(page_rows(next, stride) =~= page_rows(tail, stride).push(payload));
}

/// Reading a valid page image back finds it again, however many zeros stand
/// behind it: the occupied prefix of the image with the zeros is the image.
/// So it is with the page as it was written, filled up with zeros, and with
/// what a write that was cut short has left of it.
pub proof fn lemma_valid_page_prefix(tail: Seq<u8>, stride: nat, padding: nat)
    requires
        page_valid(tail, stride),
    ensures
        occupied_prefix(tail + zeros(padding), stride) == tail.len(),
        (tail + zeros(padding)).subrange(0, tail.len() as int) == tail,
{
    let m = slot_count(tail.len(), stride);
    let n = slots_per_page(stride);
    let full = tail + zeros(padding);
    lemma_slot_count(tail.len(), stride);
    if m > 0 {
        let last = (m - 1) as nat;
        lemma_slot_bounds(stride, last, m);
        assert(slot_readable(tail, stride, last));
        assert(full.subrange((last * stride) as int, ((last + 1) * stride) as int)
            =~= tail.subrange((last * stride) as int, ((last + 1) * stride) as int));
        lemma_slot_agrees(tail, full, stride, last);
    }
    assert forall|k: nat| m <= k < n implies !#[trigger] slot_occupied(full, stride, k) by {
        if slot_within(full, stride, k) {
            lemma_slot_bounds(stride, k, k + 1);
            assert(k * stride >= m * stride) by (nonlinear_arith)
                requires
                    k >= m,
                    stride >= 0,
            ;
            assert(full.subrange((k * stride) as int, (k * stride + 8) as int) =~= zeros(8));
            lemma_be_zero(zeros(8));
        }
    }
    lemma_occupied_run(full, stride, m, n);
    assert(full.subrange(0, tail.len() as int) =~= tail);
}

/// Bytes that are shorter than a slot hold no row.
pub(crate) proof fn lemma_no_rows_without_slots(data: Seq<u8>, stride: nat)
    requires
        data.len() < stride || stride < 8,
    ensures
        page_rows(data, stride) == Seq::<Seq<u8>>::empty(),
{
    if 8 <= stride {
        lemma_slot_bounds(stride, 0, 1);
    }
    lemma_readable_slots_stop(data, stride, 0, slots_per_page(stride));
    assert(page_rows(data, stride) =~= Seq::<Seq<u8>>::empty());
}

/// An empty page image is valid for every stride that can store rows.
pub proof fn lemma_empty_page_valid(stride: nat)
    requires
        stride_ok(stride),
    ensures
        page_valid(Seq::<u8>::empty(), stride),
        page_rows(Seq::<u8>::empty(), stride) == Seq::<Seq<u8>>::empty(),
{
    let empty = Seq::<u8>::empty();
    lemma_small_mod(0, stride);
    assert forall|k: nat| !slot_within(empty, stride, k) by {
        lemma_slot_bounds(stride, k, k + 1);
    }
    lemma_valid_page_rows(empty, stride);
    lemma_basic_div(0, stride as int);
    assert(page_rows(empty, stride) =~= Seq::<Seq<u8>>::empty());
}

/// Cutting a page image down to its occupied prefix loses no row.
pub proof fn lemma_rows_of_occupied_prefix(data: Seq<u8>, stride: nat)
    ensures
        page_rows(data.subrange(0, occupied_prefix(data, stride) as int), stride) == page_rows(
            data,
            stride,
        ),
{
    let n = slots_per_page(stride);
    let p = occupied_slots(data, stride, n);
    lemma_occupied_slots_bound(data, stride, n);
    let cut = data.subrange(0, (p * stride) as int);
    assert forall|k: nat| k < n implies slot_readable(data, stride, k) == #[trigger] slot_readable(
        cut,
        stride,
        k,
    ) by {
        if slot_readable(data, stride, k) {
            lemma_occupied_slots_cover(data, stride, n, k);
        }
        if k < p && 8 <= stride {
            lemma_slot_bounds(stride, k, p);
            assert(cut.subrange((k * stride) as int, ((k + 1) * stride) as int) =~= data.subrange(
                (k * stride) as int,
                ((k + 1) * stride) as int,
            ));
            lemma_slot_agrees(data, cut, stride, k);
        } else if 8 <= stride {
            assert((k + 1) * stride >= (p + 1) * stride) by (nonlinear_arith)
                requires
                    k >= p,
                    stride >= 0,
            ;
            assert((p + 1) * stride == p * stride + stride) by (nonlinear_arith);
        }
    }
    lemma_readable_slots_agree(data, cut, stride, n);
    lemma_readable_slots_bound(data, stride, n);
    let count = readable_slots(data, stride, n);
    assert forall|k: int| 0 <= k < count implies #[trigger] page_rows(cut, stride)[k] == page_rows(
        data,
        stride,
    )[k] by {
        let kn = k as nat;
        assert(slot_readable(data, stride, kn));
        lemma_occupied_slots_cover(data, stride, n, kn);
        lemma_slot_bounds(stride, kn, p);
        assert(cut.subrange((kn * stride) as int, ((kn + 1) * stride) as int) =~= data.subrange(
            (kn * stride) as int,
            ((kn + 1) * stride) as int,
        ));
        lemma_slot_agrees(data, cut, stride, kn);
    }
    assert(page_rows(cut, stride) =~= page_rows(data, stride));
}

/// A whole number of slots is its slot count times the stride, and a page
/// has room for that many slots.
pub proof fn lemma_slot_count(len: nat, stride: nat)
    requires
        stride_ok(stride),
        whole_slots(len, stride),
    ensures
        len == slot_count(len, stride) * stride,
        slot_count(len, stride) <= slots_per_page(stride),
        len + stride <= PAGE_SIZE <==> slot_count(len, stride) < slots_per_page(stride),
{
    let m = slot_count(len, stride);
    lemma_fundamental_div_mod(len as int, stride as int);
    lemma_mul_is_commutative(m as int, stride as int);
    lemma_fundamental_div_mod(PAGE_SIZE as int, stride as int);
    let q = slots_per_page(stride);
    lemma_mul_is_commutative(q as int, stride as int);
    if m >= q {
        assert(m * stride >= q * stride) by (nonlinear_arith)
            requires
                m >= q,
                stride >= 0,
        ;
        if m > q {
            assert(m * stride >= (q + 1) * stride) by (nonlinear_arith)
                requires
                    m >= q + 1,
                    stride >= 0,
            ;
            assert((q + 1) * stride == q * stride + stride) by (nonlinear_arith);
        }
    } else {
        assert((m + 1) * stride <= q * stride) by (nonlinear_arith)
            requires
                m + 1 <= q,
                stride >= 0,
        ;
        assert((m + 1) * stride == m * stride + stride) by (nonlinear_arith);
    }
}

/// Slot boundaries grow with the slot index.
proof fn lemma_slot_bounds(stride: nat, k: nat, n: nat)
    requires
        k < n,
    ensures
        (k + 1) * stride <= n * stride,
        (k + 1) * stride == k * stride + stride,
        0 <= k * stride,
{
    assert((k + 1) * stride <= n * stride) by (nonlinear_arith)
        requires
            k + 1 <= n,
            stride >= 0,
    ;
    assert((k + 1) * stride == k * stride + stride) by (nonlinear_arith);
    assert(0 <= k * stride) by (nonlinear_arith)
        requires
            k >= 0,
            stride >= 0,
    ;
}

/// A slot that lies within the data ends within a page only if its index is
/// below the number of slots of a page.
pub(crate) proof fn lemma_slot_index_bound(len: nat, stride: nat, k: nat)
    requires
        0 < stride,
        (k + 1) * stride <= len,
        len <= PAGE_SIZE,
    ensures
        k < slots_per_page(stride),
{
    lemma_fundamental_div_mod(PAGE_SIZE as int, stride as int);
    let q = PAGE_SIZE as int / stride as int;
    if k >= q {
        assert((k + 1) * stride >= (q + 1) * stride) by (nonlinear_arith)
            requires
                k >= q,
                stride > 0,
        ;
        assert((q + 1) * stride == stride * q + stride) by (nonlinear_arith);
    }
}

/// Two byte sequences that agree on slot `k` agree on what the slot
/// announces, on whether it can be read, and on its payload if it can.
proof fn lemma_slot_agrees(a: Seq<u8>, b: Seq<u8>, stride: nat, k: nat)
    requires
        slot_within(a, stride, k),
        slot_within(b, stride, k),
        a.subrange((k * stride) as int, ((k + 1) * stride) as int) == b.subrange(
            (k * stride) as int,
            ((k + 1) * stride) as int,
        ),
    ensures
        slot_length(a, stride, k) == slot_length(b, stride, k),
        slot_occupied(a, stride, k) == slot_occupied(b, stride, k),
        slot_readable(a, stride, k) == slot_readable(b, stride, k),
        slot_readable(a, stride, k) ==> slot_payload(a, stride, k) == slot_payload(b, stride, k),
{
    let lo = (k * stride) as int;
    let hi = ((k + 1) * stride) as int;
    assert(hi == lo + stride) by (nonlinear_arith)
        requires
            lo == k * stride,
            hi == (k + 1) * stride,
    ;
    let sa = a.subrange(lo, hi);
    let sb = b.subrange(lo, hi);
    assert(a.subrange(lo, lo + 8) =~= sa.subrange(0, 8));
    assert(b.subrange(lo, lo + 8) =~= sb.subrange(0, 8));
    if slot_readable(a, stride, k) {
        let len = slot_length(a, stride, k) as int;
        assert(a.subrange(lo + 8, lo + 8 + len) =~= sa.subrange(8, 8 + len));
        assert(b.subrange(lo + 8, lo + 8 + len) =~= sb.subrange(8, 8 + len));
    }
}

/// Beyond the first slot that is out of bounds no slot is occupied.
pub(crate) proof fn lemma_occupied_slots_beyond(data: Seq<u8>, stride: nat, k: nat, n: nat)
    requires
        k <= n,
        !slot_within(data, stride, k),
    ensures
        occupied_slots(data, stride, n) == occupied_slots(data, stride, k),
    decreases n,
{
    if n > k {
        let m = (n - 1) as nat;
        if 8 <= stride {
            assert((m + 1) * stride >= (k + 1) * stride) by (nonlinear_arith)
                requires
                    m >= k,
                    stride >= 0,
            ;
        }
        lemma_occupied_slots_beyond(data, stride, k, m);
    }
}

/// An occupied prefix never holds more slots than were looked at.
pub(crate) proof fn lemma_occupied_slots_bound(data: Seq<u8>, stride: nat, n: nat)
    ensures
        occupied_slots(data, stride, n) <= n,
        occupied_slots(data, stride, n) > 0 ==> slot_occupied(
            data,
            stride,
            (occupied_slots(data, stride, n) - 1) as nat,
        ),
        occupied_slots(data, stride, n) * stride <= data.len(),
    decreases n,
{
    if n > 0 {
        lemma_occupied_slots_bound(data, stride, (n - 1) as nat);
        assert(((n - 1) as nat + 1) * stride == n * stride);
    } else {
        assert(0 * stride == 0);
    }
}

/// Every occupied slot among the first `n` lies within the occupied prefix.
proof fn lemma_occupied_slots_cover(data: Seq<u8>, stride: nat, n: nat, k: nat)
    requires
        k < n,
        slot_occupied(data, stride, k),
    ensures
        k < occupied_slots(data, stride, n),
    decreases n,
{
    if k < n - 1 && !slot_occupied(data, stride, (n - 1) as nat) {
        lemma_occupied_slots_cover(data, stride, (n - 1) as nat, k);
    }
}

/// Where slot `m - 1` is occupied, or `m` is zero, and no slot from `m` up
/// to `n` is occupied, the occupied prefix of the first `n` slots holds `m`
/// slots.
proof fn lemma_occupied_run(data: Seq<u8>, stride: nat, m: nat, n: nat)
    requires
        m <= n,
        m == 0 || slot_occupied(data, stride, (m - 1) as nat),
        forall|k: nat| m <= k < n ==> !#[trigger] slot_occupied(data, stride, k),
    ensures
        occupied_slots(data, stride, n) == m,
    decreases n,
{
    if n > m {
        assert(!slot_occupied(data, stride, (n - 1) as nat));
        lemma_occupied_run(data, stride, m, (n - 1) as nat);
    }
}

/// Reading stops for good at the first slot that cannot be read.
pub(crate) proof fn lemma_readable_slots_stop(data: Seq<u8>, stride: nat, k: nat, n: nat)
    requires
        k <= n,
        readable_slots(data, stride, k) == k,
        !slot_readable(data, stride, k),
    ensures
        readable_slots(data, stride, n) == k,
    decreases n,
{
    if n > k {
        lemma_readable_slots_stop(data, stride, k, (n - 1) as nat);
    }
}

/// The slots that reading reaches are all readable, and there are no more of
/// them than were looked at.
proof fn lemma_readable_slots_bound(data: Seq<u8>, stride: nat, n: nat)
    ensures
        readable_slots(data, stride, n) <= n,
        forall|k: nat|
            k < readable_slots(data, stride, n) ==> #[trigger] slot_readable(data, stride, k),
        readable_slots(data, stride, n) < n ==> !slot_readable(
            data,
            stride,
            readable_slots(data, stride, n),
        ),
    decreases n,
{
    if n > 0 {
        lemma_readable_slots_bound(data, stride, (n - 1) as nat);
    }
}

/// Two byte sequences whose first `n` slots are readable alike are read
/// alike over those slots.
proof fn lemma_readable_slots_agree(a: Seq<u8>, b: Seq<u8>, stride: nat, n: nat)
    requires
        forall|k: nat|
            k < n ==> slot_readable(a, stride, k) == #[trigger] slot_readable(b, stride, k),
    ensures
        readable_slots(a, stride, n) == readable_slots(b, stride, n),
    decreases n,
{
    if n > 0 {
        lemma_readable_slots_agree(a, b, stride, (n - 1) as nat);
    }
}

/// Where the first `m` slots can be read and reading cannot go on behind
/// them, exactly `m` slots are read.
proof fn lemma_readable_run(data: Seq<u8>, stride: nat, m: nat, n: nat)
    requires
        m <= n,
        forall|k: nat| k < m ==> #[trigger] slot_readable(data, stride, k),
        m == n || !slot_readable(data, stride, m),
    ensures
        readable_slots(data, stride, n) == m,
    decreases m,
{
    if m == 0 {
        if n > 0 {
            lemma_readable_slots_stop(data, stride, 0, n);
        }
    } else {
        let before = (m - 1) as nat;
        lemma_readable_run(data, stride, before, before);
        assert(slot_readable(data, stride, before));
        assert(readable_slots(data, stride, m) == m);
        if m < n {
            lemma_readable_slots_stop(data, stride, m, n);
        }
    }
}

} // verus!
