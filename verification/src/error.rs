//! What can go wrong when a source is loaded.

use vstd::prelude::*;

verus! {

/// Why a load failed. A row that cannot be read is no failure: it is
/// passed over.
#[derive(Clone, Debug, PartialEq, Eq)]
pub enum IngestError {
    /// The source could not be opened or read.
    FileUnreadable { cause: String },
    /// A structured source that is no document, or whose outermost value
    /// is no list.
    StructuredFormatInvalid { cause: String },
    /// A file extension that stands for no known format.
    UnsupportedFormat { extension: String },
}

impl IngestError {
    /// The heading of the message of an error of each kind.
    pub open spec fn heading(&self) -> Seq<char> {
        match self {
            IngestError::FileUnreadable { .. } => "File error: "@,
            IngestError::StructuredFormatInvalid { .. } => "Serde JSON error: "@,
            IngestError::UnsupportedFormat { .. } => "Unsupported format: "@,
        }
    }

    /// What an error of each kind carries along.
    pub open spec fn detail(&self) -> Seq<char> {
        match self {
            IngestError::FileUnreadable { cause } => cause@,
            IngestError::StructuredFormatInvalid { cause } => cause@,
            IngestError::UnsupportedFormat { extension } => extension@,
        }
    }

    /// The kind of an error can be told from its message: two errors with
    /// the same message are of the same kind and carry the same detail.
    pub proof fn lemma_message_tells_all(&self, other: &IngestError)
        requires
            self.heading() + self.detail() == other.heading() + other.detail(),
        ensures
            self is FileUnreadable <==> other is FileUnreadable,
            self is StructuredFormatInvalid <==> other is StructuredFormatInvalid,
            self is UnsupportedFormat <==> other is UnsupportedFormat,
            self.detail() == other.detail(),
    {
        reveal_strlit("File error: ");
        reveal_strlit("Serde JSON error: ");
        reveal_strlit("Unsupported format: ");
        let mine = self.heading() + self.detail();
        let theirs = other.heading() + other.detail();
        assert(mine[0] == self.heading()[0]);
        assert(theirs[0] == other.heading()[0]);
        assert(self.heading() == other.heading());
        assert(self.detail() =~= mine.skip(self.heading().len() as int));
        assert(other.detail() =~= theirs.skip(other.heading().len() as int));
    }

    /// The text to show for this error: its heading, then its detail.
    pub fn message(&self) -> (text: String)
        ensures
            text@ == self.heading() + self.detail(),
    {
        match self {
            IngestError::FileUnreadable { cause } => String::from_str("File error: ").concat(
                cause.as_str(),
            ),
            IngestError::StructuredFormatInvalid { cause } => String::from_str(
                "Serde JSON error: ",
            ).concat(cause.as_str()),
            IngestError::UnsupportedFormat { extension } => String::from_str(
                "Unsupported format: ",
            ).concat(extension.as_str()),
        }
    }
}

} // verus!
