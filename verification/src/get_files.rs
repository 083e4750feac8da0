//! Where the classes of equivalent circuits are kept, and how they are downloaded.

use vstd::prelude::*;

verus! {

/// The address that the classes of the given name are downloaded from.
pub fn ecc_url(ecc_name: &str) -> (url: String)
    ensures
        url@ == "https://eccs.eu-central-1.linodeobjects.com/"@ + ecc_name@ + ".json"@,
{
    let mut url = "https://eccs.eu-central-1.linodeobjects.com/".to_string();
    url.append(ecc_name);
    url.append(".json");
    url
}

/// The file that the classes of the given name are kept in.
pub fn ecc_path(ecc_name: &str) -> (path: String)
    ensures
        path@ == "data/"@ + ecc_name@ + ".json"@,
{
    let mut path = "data/".to_string();
    path.append(ecc_name);
    path.append(".json");
    path
}

/// `text` between the given words.
fn wrapped(before: &str, text: &str, after: &str) -> (message: String)
    ensures
        message@ == before@ + text@ + after@,
{
    let mut message = before.to_string();
    message.append(text);
    message.append(after);
    message
}

/// What came of a request for a file.
#[derive(Clone, Copy, PartialEq, Eq, Debug, Structural)]
pub enum Response {
    /// There is no answer.
    Failed,
    /// The answer does not tell how long the file is.
    NoLength,
    /// The file is this long.
    Length(u64),
}

/// What came of one piece of the file.
#[derive(Clone, Copy, PartialEq, Eq, Debug, Structural)]
pub enum Chunk {
    /// It did not arrive.
    NotReceived,
    /// It arrived, but could not be written.
    NotWritten,
    /// That many bytes were written.
    Written(u64),
}

/// A download under way.
pub struct Download {
    pub url: String,
    pub path: String,
    /// The length of the file.
    pub total_size: u64,
    /// How much of it is there.
    pub downloaded: u64,
}

impl Download {
    /// No more than the whole file is there.
    pub open spec fn wf(self) -> bool {
        self.downloaded <= self.total_size
    }

    /// Starts a download, once the request was answered.
    pub fn begin(ecc_name: &str, response: Response) -> (res: Result<Download, String>)
        ensures
            match response {
                Response::Failed => res matches Err(message) && message@ == "Failed to GET from '"@
                    + ("https://eccs.eu-central-1.linodeobjects.com/"@ + ecc_name@ + ".json"@)
                    + "'"@,
                Response::NoLength => res matches Err(message) && message@
                    == "Failed to get content length from '"@ + (
                "https://eccs.eu-central-1.linodeobjects.com/"@ + ecc_name@ + ".json"@) + "'"@,
                Response::Length(total_size) => {
                    &&& res matches Ok(download)
                    &&& download.url@ == "https://eccs.eu-central-1.linodeobjects.com/"@ + ecc_name@
                        + ".json"@
                    &&& download.path@ == "data/"@ + ecc_name@ + ".json"@
                    &&& download.total_size == total_size
                    &&& download.downloaded == 0
                    &&& download.wf()
                },
            },
    {
        let url = ecc_url(ecc_name);
        match response {
            Response::Failed => Err(wrapped("Failed to GET from '", url.as_str(), "'")),
            Response::NoLength => Err(
                wrapped("Failed to get content length from '", url.as_str(), "'"),
            ),
            Response::Length(total_size) => Ok(
                Download { url, path: ecc_path(ecc_name), total_size, downloaded: 0 },
            ),
        }
    }

    /// What is told when the download starts.
    pub fn start_message(&self) -> (message: String)
        ensures
            message@ == "Downloading "@ + self.url@,
    {
        let mut message = "Downloading ".to_string();
        message.append(self.url.as_str());
        message
    }

    /// What is wrong if the file could not be created.
    pub fn create_error(&self) -> (message: String)
        ensures
            message@ == "Failed to create file '"@ + self.path@ + "'"@,
    {
        wrapped("Failed to create file '", self.path.as_str(), "'")
    }

    /// Takes note of a piece of the file. Gives how much of the file is there, of which the
    /// length of the file is the most.
    pub fn chunk(&mut self, chunk: Chunk) -> (res: Result<u64, String>)
        requires
            old(self).wf(),
            chunk matches Chunk::Written(len) ==> old(self).downloaded + len <= u64::MAX,
        ensures
            final(self).wf(),
            final(self).url == old(self).url,
            final(self).path == old(self).path,
            final(self).total_size == old(self).total_size,
            match chunk {
                Chunk::NotReceived => {
                    &&& final(self).downloaded == old(self).downloaded
                    &&& res matches Err(message)
                    &&& message@ == "Error while downloading file"@
                },
                Chunk::NotWritten => {
                    &&& final(self).downloaded == old(self).downloaded
                    &&& res matches Err(message)
                    &&& message@ == "Error while writing to file"@
                },
                Chunk::Written(len) => {
                    &&& final(self).downloaded == position_after(
                        old(self).total_size as int,
                        old(self).downloaded as int,
                        len as int,
                    )
                    &&& final(self).downloaded == (if old(self).downloaded + len
                        <= old(self).total_size {
                        old(self).downloaded + len
                    } else {
                        old(self).total_size as int
                    })
                    &&& res == Ok::<u64, String>(final(self).downloaded)
                },
            },
    {
        match chunk {
            Chunk::NotReceived => Err("Error while downloading file".to_string()),
            Chunk::NotWritten => Err("Error while writing to file".to_string()),
            Chunk::Written(len) => {
                let new: u64 = self.downloaded + len;
                if new <= self.total_size {
                    self.downloaded = new;
                } else {
                    self.downloaded = self.total_size;
                }
                Ok(self.downloaded)
            },
        }
    }

    /// What is told when the download has ended.
    pub fn finish_message(&self) -> (message: String)
        ensures
            message@ == "Downloaded "@ + self.url@ + " to "@ + self.path@,
    {
        let mut message = wrapped("Downloaded ", self.url.as_str(), " to ");
        message.append(self.path.as_str());
        message
    }
}

/// How much of a file is there after another piece of it.
pub open spec fn position_after(total: int, position: int, len: int) -> int {
    if position + len <= total {
        position + len
    } else {
        total
    }
}

/// How much of a file is there after the given pieces.
pub open spec fn position_after_all(total: int, lens: Seq<u64>) -> int
    decreases lens.len(),
{
    if lens.len() == 0 {
        0
    } else {
        position_after(total, position_after_all(total, lens.drop_last()), lens.last() as int)
    }
}

/// The length of all pieces together.
pub open spec fn total_len(lens: Seq<u64>) -> int
    decreases lens.len(),
{
    if lens.len() == 0 {
        0
    } else {
        total_len(lens.drop_last()) + lens.last()
    }
}

/// However a file is cut into pieces, as much of it is there as was written, up to its length.
pub proof fn position_is_what_was_written(total: int, lens: Seq<u64>)
    requires
        0 <= total,
    ensures
        position_after_all(total, lens) == (if total_len(lens) <= total {
            total_len(lens)
        } else {
            total
        }),
        total_len(lens) >= 0,
    decreases lens.len(),
{
    if lens.len() > 0 {
        position_is_what_was_written(total, lens.drop_last());
    }
}

} // verus!
