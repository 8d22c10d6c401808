use vstd::prelude::*;

verus! {

/// What a scan hands to its consumer: one finished duplicate group, or the
/// end of the stream. A closed channel counts as an end of stream too.
#[derive(Debug, PartialEq, Eq)]
pub enum DupeMessage {
    /// No more groups follow.
    End,
    /// `(size, total, index, filenames)`: a group of files of `size` bytes
    /// each, the `index`-th of the `total` groups reported for its bucket.
    Group(u64, usize, usize, Vec<String>),
}

impl DupeMessage {
    /// The file names of a group message as sequences of characters.
    pub open spec fn filenames_view(self) -> Seq<Seq<char>> {
        match self {
            DupeMessage::End => Seq::empty(),
            DupeMessage::Group(_, _, _, names) => names@.map_values(|s: String| s@),
        }
    }
}

} // verus!
