//! The command channel's data: how a channel is selected and what an
//! execution can fail with. The channels themselves do I/O and live
//! with the callers that run commands.

use vstd::prelude::*;

verus! {

/// Why an execution failed.
#[derive(Debug, Clone, PartialEq, Eq)]
pub enum ExecError {
    /// The process could not be run or ended with an error.
    IoError(String),
    /// The process ran past its timeout.
    TimedOut(String),
}

/// Settings of the remote channel.
#[derive(Debug, Clone)]
pub struct RemoteCommandInterfaceOptions {
    /// Port the command channel connects to.
    pub ssh_port: u16,
    /// Directory for staging files before copying.
    pub tmp_dir: String,
}

/// Which channel to use.
pub enum CommandInterfaceOptions {
    /// Run commands on this machine.
    Local,
    /// Run commands on the guest machine.
    Remote(RemoteCommandInterfaceOptions),
}

/// Marker state of the local channel.
pub struct LocalCommandInterface {}

impl LocalCommandInterface {
    pub fn new() -> (r: LocalCommandInterface) {
        LocalCommandInterface {  }
    }
}

/// State of the remote channel: its settings, the key the channel
/// authenticates with, and the staging file used when writing bytes
/// through the copy step.
pub struct RemoteCommandInterface {
    pub options: RemoteCommandInterfaceOptions,
    pub ssh_private_key_path: String,
    pub tmp_file: String,
}

impl RemoteCommandInterface {
    pub fn new(ssh_private_key_path: String, options: RemoteCommandInterfaceOptions) -> (r:
        RemoteCommandInterface)
        ensures
            r.options.ssh_port == options.ssh_port,
            r.ssh_private_key_path == ssh_private_key_path,
            r.tmp_file@ == options.tmp_dir@ + "/ssh-tmp"@,
    {
        let mut tmp_file = options.tmp_dir.clone();
        tmp_file.append("/ssh-tmp");
        RemoteCommandInterface { options, ssh_private_key_path, tmp_file }
    }
}

} // verus!
