use vstd::prelude::*;

use crate::checksum::{checksum_ibm_sdlc, checksum_usb, crc16_ibm_sdlc, crc16_usb};
use crate::comparator::Comparator;
use crate::message::DupeMessage;

verus! {

/// How many leading bytes the partial fingerprint covers at most.
pub const BLOCK_SIZE: u64 = 1024;

/// A cached fingerprint: not computed yet, computed, or failed to read.
#[derive(Debug, Clone, Copy, PartialEq, Eq)]
pub enum Fingerprint {
    Pending,
    Known(u16),
    Failed,
}

/// The number of leading bytes that the partial fingerprint of a file of
/// `size` bytes reads.
pub open spec fn partial_len(size: u64) -> nat {
    if size <= BLOCK_SIZE {
        size as nat
    } else {
        BLOCK_SIZE as nat
    }
}

/// The bytes that the partial fingerprint covers: at most `partial_len`.
pub open spec fn partial_bytes(size: u64, content: Seq<u8>) -> Seq<u8> {
    if content.len() <= partial_len(size) {
        content
    } else {
        content.take(partial_len(size) as int)
    }
}

/// The partial fingerprint of a file of `size` bytes whose stream is
/// `content` (`None` where it cannot be read).
pub open spec fn partial_fingerprint(size: u64, content: Option<Seq<u8>>) -> Fingerprint {
    match content {
        None => Fingerprint::Failed,
        Some(bytes) => Fingerprint::Known(crc16_usb(partial_bytes(size, bytes))),
    }
}

/// The full fingerprint: over the whole stream, with another polynomial
/// than the partial one; for files of at most `BLOCK_SIZE` bytes it is the
/// partial fingerprint itself.
pub open spec fn full_fingerprint(size: u64, content: Option<Seq<u8>>) -> Fingerprint {
    if size <= BLOCK_SIZE {
        partial_fingerprint(size, content)
    } else {
        match content {
            None => Fingerprint::Failed,
            Some(bytes) => Fingerprint::Known(crc16_ibm_sdlc(bytes)),
        }
    }
}

/// A set of paths believed identical under one comparator, with the
/// fingerprints of its first path (the representative), each computed at
/// most once.
#[derive(Debug)]
pub struct FdupesGroup {
    pub filenames: Vec<String>,
    pub size: u64,
    pub comparator: Comparator,
    pub partialcrc: Fingerprint,
    pub fullcrc: Fingerprint,
}

impl FdupesGroup {
    /// The file names as sequences of characters.
    pub open spec fn names(&self) -> Seq<Seq<char>> {
        self.filenames@.map_values(|s: String| s@)
    }

    pub open spec fn partial(&self) -> Fingerprint {
        self.partialcrc
    }

    pub open spec fn full(&self) -> Fingerprint {
        self.fullcrc
    }

    /// The full fingerprint is computed only after the partial one, and for
    /// a file of at most `BLOCK_SIZE` bytes together with it.
    pub open spec fn caches_ordered(&self) -> bool {
        &&& (self.partial() is Pending ==> self.full() is Pending)
        &&& (self.size <= BLOCK_SIZE && !(self.partial() is Pending) ==> !(self.full() is Pending))
    }

    /// The cached fingerprints are those of `content`, as far as computed.
    pub open spec fn fingerprints_of(&self, content: Option<Seq<u8>>) -> bool {
        &&& (self.partial() is Pending || self.partial() == partial_fingerprint(self.size, content))
        &&& (self.full() is Pending || self.full() == full_fingerprint(self.size, content))
        &&& (self.partial() is Pending ==> self.full() is Pending)
        &&& (self.size <= BLOCK_SIZE && !(self.partial() is Pending) ==> !(self.full() is Pending))
    }

    /// A group of one file, with no fingerprint computed yet.
    pub fn new(file: &str, size: u64, comparator: Comparator) -> (r: Self)
        ensures
            r.names() == seq![file@],
            r.size == size,
            r.comparator == comparator,
            r.partial() is Pending,
            r.full() is Pending,
    {
        let mut filenames: Vec<String> = Vec::new();
        filenames.push(file.to_owned());
        let r = FdupesGroup {
            filenames,
            size,
            comparator,
            partialcrc: Fingerprint::Pending,
            fullcrc: Fingerprint::Pending,
        };
        assert(r.names() =~= seq![file@]);
        r
    }

    /// Appends a file; the cached fingerprints stay as they are.
    pub fn add(&mut self, file: &str)
        ensures
            final(self).names() == old(self).names().push(file@),
            final(self).size == old(self).size,
            final(self).comparator == old(self).comparator,
            final(self).partial() == old(self).partial(),
            final(self).full() == old(self).full(),
    {
        self.filenames.push(file.to_owned());
        assert(self.names() =~= old(self).names().push(file@));
    }

    pub fn is_empty(&self) -> (r: bool)
        ensures
            r == (self.filenames@.len() == 0),
    {
        self.filenames.len() == 0
    }

    pub fn len(&self) -> (r: usize)
        ensures
            r == self.filenames@.len(),
    {
        self.filenames.len()
    }

    /// The cached partial fingerprint.
    pub fn partialcrc(&self) -> (r: Fingerprint)
        ensures
            r == self.partial(),
    {
        self.partialcrc
    }

    /// The cached full fingerprint.
    pub fn fullcrc(&self) -> (r: Fingerprint)
        ensures
            r == self.full(),
    {
        self.fullcrc
    }

    /// How many leading bytes the partial fingerprint reads.
    pub fn prefix_len(&self) -> (r: u64)
        ensures
            r as nat == partial_len(self.size),
    {
        if self.size <= BLOCK_SIZE {
            self.size
        } else {
            BLOCK_SIZE
        }
    }

    /// Caches the partial fingerprint of `data`, the leading bytes of the
    /// representative (`None`: they could not be read). For a file of at
    /// most `BLOCK_SIZE` bytes it is the full fingerprint too. A fingerprint
    /// already cached is kept.
    pub fn record_partial(&mut self, data: Option<Vec<u8>>)
        ensures
            final(self).names() == old(self).names(),
            final(self).size == old(self).size,
            final(self).comparator == old(self).comparator,
            old(self).partial() is Pending ==> {
                &&& final(self).partial() == match data {
                    None => Fingerprint::Failed,
                    Some(d) => Fingerprint::Known(crc16_usb(d@)),
                }
                &&& final(self).full() == if old(self).size <= BLOCK_SIZE && old(self).full() is Pending {
                    final(self).partial()
                } else {
                    old(self).full()
                }
            },
            !(old(self).partial() is Pending) ==> final(self).partial() == old(self).partial()
                && final(self).full() == old(self).full(),
    {
        if let Fingerprint::Pending = self.partialcrc {
            let fp = match data {
                None => Fingerprint::Failed,
                Some(d) => Fingerprint::Known(checksum_usb(d.as_slice())),
            };
            self.partialcrc = fp;
            if self.size <= BLOCK_SIZE {
                if let Fingerprint::Pending = self.fullcrc {
                    self.fullcrc = fp;
                }
            }
        }
    }

    /// Caches the full fingerprint of `data`, the whole stream of the
    /// representative (`None`: it could not be read), for a file of more
    /// than `BLOCK_SIZE` bytes; a smaller file's full fingerprint is its
    /// partial one, which `record_partial` caches. A fingerprint already
    /// cached is kept.
    pub fn record_full(&mut self, data: Option<Vec<u8>>)
        ensures
            final(self).names() == old(self).names(),
            final(self).size == old(self).size,
            final(self).comparator == old(self).comparator,
            final(self).partial() == old(self).partial(),
            old(self).full() is Pending && old(self).size > BLOCK_SIZE ==> final(self).full()
                == match data {
                None => Fingerprint::Failed,
                Some(d) => Fingerprint::Known(crc16_ibm_sdlc(d@)),
            },
            !(old(self).full() is Pending && old(self).size > BLOCK_SIZE) ==> final(self).full()
                == old(self).full(),
    {
        if self.size > BLOCK_SIZE && matches!(self.fullcrc, Fingerprint::Pending) {
            self.fullcrc = match data {
                None => Fingerprint::Failed,
                Some(d) => Fingerprint::Known(checksum_ibm_sdlc(d.as_slice())),
            };
        }
    }

    /// The message that reports this group as the `id`-th of the `total`
    /// groups reported for its bucket.
    pub fn into_dupe_message(self, total: usize, id: usize) -> (r: DupeMessage)
        ensures
            r == DupeMessage::Group(self.size, total, id, self.filenames),
    {
        DupeMessage::Group(self.size, total, id, self.filenames)
    }
}

} // verus!
