//! Configuration records: plain data the loader fills in.

use vstd::prelude::*;
use crate::mutator::MutationWeights;
use crate::operation::OperationWeights;

verus! {

/// Greybox settings.
#[derive(Debug, Clone)]
pub struct GreyboxConfig {
    /// How many primitive edits one selected input may receive.
    pub max_mutations: u16,
    /// Whether the corpus is persisted to disk.
    pub save_corpus: bool,
}

/// Settings of the virtual machine host.
#[derive(Debug, Clone)]
pub struct QemuConfig {
    /// Path to the launch script.
    pub launch_script: String,
    /// Private key used for the command channel.
    pub ssh_private_key_path: String,
    /// Port of the monitor connection.
    pub monitor_port: u16,
    /// Port of the command channel.
    pub ssh_port: u16,
    /// Path to the system image.
    pub os_image: String,
}

/// The whole configuration.
#[derive(Debug, Clone)]
pub struct Config {
    pub greybox: GreyboxConfig,
    pub operation_weights: OperationWeights,
    pub mutation_weights: MutationWeights,
    pub max_workload_length: u16,
    pub fs_name: String,
    pub hashing_enabled: bool,
    pub heartbeat_interval: u16,
    pub timeout: u8,
    pub qemu: QemuConfig,
}

} // verus!
