//! The steps of the extraction stage that do not touch a file: whether a
//! cached signature serves, what is handed to the cache writer, and when
//! progress is reported.
use crate::database::encodes;
use crate::database::fetch;
use crate::database::is_fresh;
use crate::database::signed_bytes;
use crate::database::InsertionMessage;
use crate::database::SignatureRow;
use vstd::prelude::*;

verus! {

/// The number of finished files after which a worker reports progress.
pub const PROGRESS_STEP: u64 = 5;

/// A file's path and the signature computed for it.
#[derive(Debug)]
pub struct SignatureToCompare {
    pub path: String,
    pub signature: Vec<i8>,
}

/// Why no signature could be fetched for a path.
#[derive(Debug)]
pub enum SigFetchError {
    /// The canonical path is not text.
    PathConversionError(String),
}

impl SigFetchError {
    /// What is reported to the user.
    pub fn message(&self) -> (text: String)
        ensures
            match *self {
                SigFetchError::PathConversionError(error) => text@
                    == "Error converting file path to string: "@ + error@,
            },
    {
        match self {
            SigFetchError::PathConversionError(error) => {
                let mut text = "Error converting file path to string: ".to_owned();
                text.append(error.as_str());
                text
            },
        }
    }
}

/// The canonical path as text, where it is text.
pub fn path_text(text: Option<String>) -> (result: Result<String, SigFetchError>)
    ensures
        match result {
            Ok(path) => text == Some(path),
            Err(SigFetchError::PathConversionError(error)) => text is None && error@
                == "Unable to convert file path"@,
        },
{
    match text {
        Some(path) => Ok(path),
        None => Err(SigFetchError::PathConversionError("Unable to convert file path".to_owned())),
    }
}

/// Where the signature of a file comes from.
#[derive(Debug)]
pub enum FetchStep {
    /// The cache holds it.
    Cached(Vec<i8>),
    /// It is to be computed from the file, and recorded.
    Compute,
}

/// The signature that the cache serves for a file last modified at
/// `modified`, where `row` is what the cache holds for its path.
pub open spec fn served(row: Option<SignatureRow>, modified: u64) -> Option<Seq<i8>> {
    match row {
        Some(found) => if is_fresh(found, modified) {
            Some(signed_bytes(found.signature@))
        } else {
            None
        },
        None => None,
    }
}

/// Decides where the signature of a file comes from: out of the cache,
/// where the row read for its path still serves, and else from the file.
pub fn fetch_signature(row: Option<SignatureRow>, modified: u64) -> (step: FetchStep)
    ensures
        match step {
            FetchStep::Cached(signature) => served(row, modified) == Some(signature@),
            FetchStep::Compute => served(row, modified) is None,
        },
{
    match fetch(row, modified) {
        Some(entry) => FetchStep::Cached(entry.signature),
        None => FetchStep::Compute,
    }
}

/// The message that hands a computed signature to the cache writer.
pub fn record_signature(filename: &str, modified: u64, signature: &Vec<i8>) -> (message: InsertionMessage)
    ensures
        message.filename_s@ == filename@,
        message.modified == modified,
        message.signature@ == signature@,
{
    let mut copy: Vec<i8> = Vec::with_capacity(signature.len());
    let mut i: usize = 0;
    while i < signature.len()
        invariant
            0 <= i <= signature@.len(),
            copy@ == signature@.take(i as int),
        decreases signature@.len() - i,
    {
        copy.push(signature[i]);
        assert(signature@.take(i + 1) =~= signature@.take(i as int).push(signature@[i as int]));
        i += 1;
    }
    assert(signature@.take(signature@.len() as int) =~= signature@);
    InsertionMessage { filename_s: filename.to_owned(), modified, signature: copy }
}

/// A file that has not changed since its signature was recorded is served
/// from the cache: its signature is not computed again, and the one served
/// is the one recorded.
pub proof fn lemma_unchanged_file_is_served(
    row: SignatureRow,
    path: Seq<char>,
    modified: u64,
    signature: Seq<i8>,
)
    requires
        encodes(row, path, modified, signature),
    ensures
        served(Some(row), modified) == Some(signature),
{
    crate::database::lemma_cache_round_trip(row, path, modified, signature, modified);
}

/// A file that changed after its signature was recorded is not served from
/// the cache.
pub proof fn lemma_changed_file_is_not_served(
    row: SignatureRow,
    path: Seq<char>,
    modified: u64,
    signature: Seq<i8>,
    current: u64,
)
    requires
        encodes(row, path, modified, signature),
        current > modified,
    ensures
        served(Some(row), current) is None,
{
    crate::database::lemma_cache_round_trip(row, path, modified, signature, current);
}

/// The files that a worker has finished and not yet reported.
pub struct ProgressCounter {
    total: u64,
}

impl View for ProgressCounter {
    type V = u64;

    /// The number of files finished and not reported.
    closed spec fn view(&self) -> u64 {
        self.total
    }
}

impl ProgressCounter {
    /// A counter with nothing to report.
    pub fn new() -> (counter: ProgressCounter)
        ensures
            counter@ == 0,
    {
        ProgressCounter { total: 0 }
    }

    /// Counts one finished file.  Gives the number to report where it has
    /// reached [`PROGRESS_STEP`]; it stays to be reported until
    /// [`ProgressCounter::sent`] is called.
    pub fn count_one(&mut self) -> (report: Option<u64>)
        ensures
            final(self)@ == if old(self)@ < u64::MAX {
                (old(self)@ + 1) as u64
            } else {
                u64::MAX
            },
            report == if final(self)@ >= PROGRESS_STEP {
                Some(final(self)@)
            } else {
                None
            },
    {
        if self.total < u64::MAX {
            self.total = self.total + 1;
        }
        if self.total >= PROGRESS_STEP {
            Some(self.total)
        } else {
            None
        }
    }

    /// Notes that the number handed out was passed on.
    pub fn sent(&mut self)
        ensures
            final(self)@ == 0,
    {
        self.total = 0;
    }

    /// The number that is left to report when the worker ends.
    pub fn finish(self) -> (rest: u64)
        ensures
            rest == self@,
    {
        self.total
    }
}

} // verus!
