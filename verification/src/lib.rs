//! An append-only log of rows in a single file, and the ledger of an
//! account that is kept in such a log.
//!
//! The file is a sequence of pages of 4096 bytes. A page is cut into slots
//! of one fixed width, the stride, and a row takes one slot: the length of
//! its encoding in eight big-endian bytes, the encoding, and zeros up to the
//! end of the slot. Rows are only ever added, in the next free slot of the
//! last page.
//!
//! The library holds no file. It decides what is to be read and written,
//! and whoever holds the file does so:
//!
//! - [`page`] frames rows into the slots of a page and reads them back from
//!   any bytes; [`framing`] is the layout of a single slot.
//! - [`db`] is the writer's side of the store: the tail page that it keeps
//!   in memory, the page that an append hands back to be written, and the
//!   offsets of the pages that an iteration reads. [`builder`] sets when
//!   appends are followed by a flush.
//! - [`image`] says what the file holds after a write and which rows the
//!   iterations find in it, and does the same on a file held in memory.
//! - [`laws`] proves what the store promises: what was appended is what is
//!   read, forwards and backwards, also after the store was opened again.
//!   [`page_lemmas`] holds the facts about pages that the proofs rest on.
//! - [`account`] is the rule of the ledger, credit and debit within a
//!   limit, with the mirror of the latest entries that a process may keep;
//!   [`transaction`] is what an entry records, and [`ring_buffer`] keeps the
//!   most recent of them.
//! - [`service`] and [`balancer`] hold the rules of the processes around
//!   the ledger: which accounts there are, what a request is answered with,
//!   and which upstream a request goes to.

pub mod account;
pub mod balancer;
pub mod builder;
pub mod db;
pub mod error;
pub mod framing;
pub mod image;
pub mod laws;
pub mod page;
pub mod page_lemmas;
pub mod ring_buffer;
pub mod service;
pub mod transaction;
