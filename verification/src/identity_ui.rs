//! Native-only identity interactions.
//!
//! The browser may request one of these operations after admission, but it
//! never supplies or receives a local path, private-key byte, or passphrase.
//! A desktop UI selects and unlocks the key inside the native host process,
//! then only a public receipt goes back. The host performs each step (the
//! picker, the file checks, parsing, the passphrase prompt, the import);
//! which step comes next, and what the browser is told, is decided here.

use vstd::prelude::*;

verus! {

/// The largest OpenSSH private key file the host will read.
pub const MAX_SSH_PRIVATE_KEY_BYTES: u64 = 1024 * 1024;
/// The environment variable that can name where the key picker starts.
pub const PICKER_START_ENV: &'static str = "GRAPHSHELL_NATIVE_PICKER_START";

/// Why a native identity interaction was refused, in terms that carry no
/// path, key byte or passphrase.
#[derive(Clone, Copy, Debug, PartialEq, Eq, Structural)]
pub enum NativeIdentityFailure {
    /// No graphical desktop UI is available to this host.
    UiUnavailable,
    /// The selected path is not a readable regular file.
    SelectedFileUnreadable,
    /// The selected file is larger than any OpenSSH private key.
    SelectedFileTooLarge,
    /// The selected file is not an OpenSSH private key.
    InvalidPrivateKey,
    /// The passphrase did not unlock the key.
    IncorrectPassphrase,
    /// The identity host refused the key.
    ImportRejected,
    /// The request named another session than the one it arrived on.
    WrongSession,
}

/// Secret-bearing desktop interactions required by native identity actions.
///
/// Implementations own the selected path and passphrase. Neither appears in
/// the browser request or response types. `Ok(None)` is a cancellation.
pub trait NativeIdentityUi {
    fn pick_ssh_private_key(&self) -> Result<Option<String>, NativeIdentityFailure>;

    fn prompt_ssh_private_key_passphrase(&self) -> Result<Option<String>, NativeIdentityFailure>;
}

/// The system-dialog UI used by the installed host, with an optional
/// location for its key picker to start at.
#[derive(Clone, Debug)]
pub struct SystemNativeIdentityUi {
    pub picker_start: Option<String>,
}

impl Default for SystemNativeIdentityUi {
    /// No configured start: the picker starts where the environment says,
    /// or where the system dialog chooses.
    fn default() -> (r: Self)
        ensures
            r.picker_start.is_none(),
    {
        SystemNativeIdentityUi { picker_start: None }
    }
}

impl SystemNativeIdentityUi {
    /// Override the initial picker location for an embedding host or receipt.
    pub fn with_picker_start(path: String) -> (r: Self)
        ensures
            r.picker_start == Some(path),
    {
        SystemNativeIdentityUi { picker_start: Some(path) }
    }

    /// Where the picker starts: the configured location, else the one the
    /// environment names under [`PICKER_START_ENV`], else nowhere in
    /// particular.
    pub fn start_location(&self, from_env: Option<String>) -> (r: Option<String>)
        ensures
            r == match self.picker_start {
                Some(path) => Some(path),
                None => from_env,
            },
    {
        match &self.picker_start {
            Some(path) => Some(path.clone()),
            None => from_env,
        }
    }
}

/// The UI of a host that deliberately exposes no desktop UI: every
/// interaction is refused, so nothing can fall back to asking the browser.
#[derive(Clone, Copy, Debug, Default)]
pub struct UnavailableNativeIdentityUi;

impl NativeIdentityUi for UnavailableNativeIdentityUi {
    fn pick_ssh_private_key(&self) -> (r: Result<Option<String>, NativeIdentityFailure>)
        ensures
            r == Err::<Option<String>, NativeIdentityFailure>(NativeIdentityFailure::UiUnavailable),
    {
        Err(NativeIdentityFailure::UiUnavailable)
    }

    fn prompt_ssh_private_key_passphrase(&self) -> (r: Result<Option<String>, NativeIdentityFailure>)
        ensures
            r == Err::<Option<String>, NativeIdentityFailure>(NativeIdentityFailure::UiUnavailable),
    {
        Err(NativeIdentityFailure::UiUnavailable)
    }
}

/// One step of importing an SSH private key, as the host performs it.
#[derive(Clone, Copy, Debug, PartialEq, Eq, Structural)]
pub enum ImportStage {
    /// Ask the UI for the key file.
    Pick,
    /// Check that the path is a regular file, and its size.
    Check,
    /// Read the file's bytes.
    Read,
    /// Parse the bytes as an OpenSSH private key.
    Parse,
    /// Ask the UI for the key's passphrase.
    Prompt,
    /// Decrypt the key with the passphrase.
    Decrypt,
    /// Hand the key to the identity host.
    Import,
}

/// What the host saw when it performed a step.
#[derive(Clone, Copy, Debug, PartialEq, Eq)]
pub enum ImportObservation {
    /// The picker's answer: `Ok(true)` when a file was chosen, `Ok(false)`
    /// when the owner cancelled.
    Picked(Result<bool, NativeIdentityFailure>),
    /// The path's size when it names a regular file, `None` when it does
    /// not or cannot be inspected.
    Checked(Option<u64>),
    /// How many bytes were read, `None` when the read failed.
    Read(Option<u64>),
    /// Whether the parsed key is encrypted, `None` when the bytes are not an
    /// OpenSSH private key.
    Parsed(Option<bool>),
    /// The prompt's answer: `Ok(true)` when a passphrase was given,
    /// `Ok(false)` when the owner cancelled.
    Prompted(Result<bool, NativeIdentityFailure>),
    /// Whether the passphrase decrypted the key.
    Decrypted(bool),
    /// Whether the identity host accepted the key.
    Imported(bool),
}

/// How an import ended, as the browser is told it.
#[derive(Clone, Copy, Debug, PartialEq, Eq, Structural)]
pub enum ImportOutcome {
    /// The owner cancelled the picker or the prompt.
    Cancelled,
    /// The import was refused for this reason.
    Rejected(NativeIdentityFailure),
    /// The key was imported; the host answers with its public receipt.
    Imported,
}

/// What the host does after a step.
#[derive(Clone, Copy, Debug, PartialEq, Eq, Structural)]
pub enum ImportNext {
    /// Perform this step.
    Step(ImportStage),
    /// Stop and answer the browser.
    Finish(ImportOutcome),
}

/// The step after `seen`, in the order the import checks things: the
/// picker, that the file is a regular file no larger than
/// [`MAX_SSH_PRIVATE_KEY_BYTES`], that what was read is no larger either,
/// that it parses, the passphrase only for an encrypted key, and the import.
pub fn import_step(seen: &ImportObservation) -> (r: ImportNext)
    ensures
        r == match *seen {
            ImportObservation::Picked(Ok(true)) => ImportNext::Step(ImportStage::Check),
            ImportObservation::Picked(Ok(false)) => ImportNext::Finish(ImportOutcome::Cancelled),
            ImportObservation::Picked(Err(reason)) => ImportNext::Finish(
                ImportOutcome::Rejected(reason),
            ),
            ImportObservation::Checked(None) => ImportNext::Finish(
                ImportOutcome::Rejected(NativeIdentityFailure::SelectedFileUnreadable),
            ),
            ImportObservation::Checked(Some(len)) => if len > MAX_SSH_PRIVATE_KEY_BYTES {
                ImportNext::Finish(ImportOutcome::Rejected(NativeIdentityFailure::SelectedFileTooLarge))
            } else {
                ImportNext::Step(ImportStage::Read)
            },
            ImportObservation::Read(None) => ImportNext::Finish(
                ImportOutcome::Rejected(NativeIdentityFailure::SelectedFileUnreadable),
            ),
            ImportObservation::Read(Some(len)) => if len > MAX_SSH_PRIVATE_KEY_BYTES {
                ImportNext::Finish(ImportOutcome::Rejected(NativeIdentityFailure::SelectedFileTooLarge))
            } else {
                ImportNext::Step(ImportStage::Parse)
            },
            ImportObservation::Parsed(None) => ImportNext::Finish(
                ImportOutcome::Rejected(NativeIdentityFailure::InvalidPrivateKey),
            ),
            ImportObservation::Parsed(Some(encrypted)) => if encrypted {
                ImportNext::Step(ImportStage::Prompt)
            } else {
                ImportNext::Step(ImportStage::Import)
            },
            ImportObservation::Prompted(Ok(true)) => ImportNext::Step(ImportStage::Decrypt),
            ImportObservation::Prompted(Ok(false)) => ImportNext::Finish(ImportOutcome::Cancelled),
            ImportObservation::Prompted(Err(reason)) => ImportNext::Finish(
                ImportOutcome::Rejected(reason),
            ),
            ImportObservation::Decrypted(ok) => if ok {
                ImportNext::Step(ImportStage::Import)
            } else {
                ImportNext::Finish(ImportOutcome::Rejected(NativeIdentityFailure::IncorrectPassphrase))
            },
            ImportObservation::Imported(ok) => if ok {
                ImportNext::Finish(ImportOutcome::Imported)
            } else {
                ImportNext::Finish(ImportOutcome::Rejected(NativeIdentityFailure::ImportRejected))
            },
        },
{
    match seen {
        ImportObservation::Picked(Ok(chosen)) => if *chosen {
            ImportNext::Step(ImportStage::Check)
        } else {
            ImportNext::Finish(ImportOutcome::Cancelled)
        },
        ImportObservation::Picked(Err(reason)) => ImportNext::Finish(ImportOutcome::Rejected(*reason)),
        ImportObservation::Checked(None) | ImportObservation::Read(None) => ImportNext::Finish(
            ImportOutcome::Rejected(NativeIdentityFailure::SelectedFileUnreadable),
        ),
        ImportObservation::Checked(Some(len)) => if *len > MAX_SSH_PRIVATE_KEY_BYTES {
            ImportNext::Finish(ImportOutcome::Rejected(NativeIdentityFailure::SelectedFileTooLarge))
        } else {
            ImportNext::Step(ImportStage::Read)
        },
        ImportObservation::Read(Some(len)) => if *len > MAX_SSH_PRIVATE_KEY_BYTES {
            ImportNext::Finish(ImportOutcome::Rejected(NativeIdentityFailure::SelectedFileTooLarge))
        } else {
            ImportNext::Step(ImportStage::Parse)
        },
        ImportObservation::Parsed(None) => ImportNext::Finish(
            ImportOutcome::Rejected(NativeIdentityFailure::InvalidPrivateKey),
        ),
        ImportObservation::Parsed(Some(encrypted)) => if *encrypted {
            ImportNext::Step(ImportStage::Prompt)
        } else {
            ImportNext::Step(ImportStage::Import)
        },
        ImportObservation::Prompted(Ok(given)) => if *given {
            ImportNext::Step(ImportStage::Decrypt)
        } else {
            ImportNext::Finish(ImportOutcome::Cancelled)
        },
        ImportObservation::Prompted(Err(reason)) => ImportNext::Finish(
            ImportOutcome::Rejected(*reason),
        ),
        ImportObservation::Decrypted(ok) => if *ok {
            ImportNext::Step(ImportStage::Import)
        } else {
            ImportNext::Finish(ImportOutcome::Rejected(NativeIdentityFailure::IncorrectPassphrase))
        },
        ImportObservation::Imported(ok) => if *ok {
            ImportNext::Finish(ImportOutcome::Imported)
        } else {
            ImportNext::Finish(ImportOutcome::Rejected(NativeIdentityFailure::ImportRejected))
        },
    }
}

} // verus!
