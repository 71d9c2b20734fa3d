//! The command line, as plain values: a resource and the operation on it.
use vstd::prelude::*;

verus! {

/// A parsed command line.
#[derive(Debug)]
pub struct Cli {
    pub resource: Resource,
}

/// What a command works on.
#[derive(Debug)]
pub enum Resource {
    Account { operation: AccountOperation },
    Mail { operation: MailOperation },
    Folder { operation: FolderOperation },
}

/// Operations on the configured accounts.
#[derive(Debug)]
pub enum AccountOperation {
    /// Add a new mail account.
    Add,
    /// List all configured accounts, marking the active one.
    List,
    /// Make the account with this id or email the active one.
    Use { account: String },
    /// Show the active account.
    Whoami,
    /// Edit an account (by id or email; the active one when none is given).
    Edit { account: Option<String> },
    /// Remove an account and its stored credentials (by id or email; the
    /// active one when none is given).
    Logout { account: Option<String> },
}

/// Operations on messages.
#[derive(Debug)]
#[allow(inconsistent_fields)]
pub enum MailOperation {
    /// Compose and send a message; what is missing is asked for.
    Send {
        to: Option<Vec<String>>,
        subject: Option<String>,
        body: Option<String>,
        /// Paths of files to attach.
        attachments: Option<Vec<String>>,
        yes: bool,
    },
    /// Show a message of a folder by its index in the folder view.
    Read { folder: String, id: u32 },
    /// Save the attachments of a message (all, or those with the given
    /// indices) into a directory.
    Download { folder: String, id: u32, attachment_id: Option<Vec<u32>>, save_folder: String },
    /// Search a folder (`ALL` for every folder) for a query.
    Search { query: String, folder: String },
    /// Move messages, by index, from one folder to another.
    Move { from: String, to: String, id: Vec<u32> },
    /// Delete messages of a folder, by index or chosen interactively.
    Delete { id: Option<Vec<u32>>, folder: String },
}

/// Operations on folders.
#[derive(Debug)]
#[allow(inconsistent_fields)]
pub enum FolderOperation {
    /// List the folders, with message counts on request.
    List { stats: bool },
    /// Browse the messages of a folder, a page at a time.
    View { folder: String, page_size: usize },
    /// Create a folder, with its parents on request.
    Create { name: String, parents: bool },
    /// Delete folders, with their subfolders on request.
    Delete { name: Vec<String>, recursive: bool, yes: bool },
    /// Delete every message of a folder.
    Empty { name: String },
}

} // verus!
