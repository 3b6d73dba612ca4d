use vstd::prelude::*;

verus! {

/// The settings of the protocol that the store depends on.
#[derive(Clone, Copy, Debug, PartialEq, Eq, Structural)]
pub struct ProtocolConfig {
    /// The version of the protocol.
    pub version: u64,
    /// The portion of a storage rebate that goes to the sender, in basis points.
    pub storage_rebate_rate: u64,
    /// The version of the gas model.
    pub gas_model_version: u64,
    /// The highest version of the binary format of modules that is accepted.
    pub move_binary_format_version: u32,
}

impl ProtocolConfig {
    /// The settings of the first version of the protocol.
    pub open spec fn min_version() -> ProtocolConfig {
        ProtocolConfig {
            version: 1,
            storage_rebate_rate: 9900,
            gas_model_version: 1,
            move_binary_format_version: 6,
        }
    }

    /// The settings of the first version of the protocol.
    pub fn get_for_min_version() -> (config: ProtocolConfig)
        ensures
            config == ProtocolConfig::min_version(),
    {
        ProtocolConfig {
            version: 1,
            storage_rebate_rate: 9900,
            gas_model_version: 1,
            move_binary_format_version: 6,
        }
    }

    /// Whether the second gas model is in force.
    pub open spec fn spec_gas_model_v2(self) -> bool {
        self.gas_model_version >= 2
    }

    pub fn storage_rebate_rate(&self) -> (rate: u64)
        ensures
            rate == self.storage_rebate_rate,
    {
        self.storage_rebate_rate
    }

    /// Whether the second gas model is in force.
    pub fn gas_model_v2(&self) -> (v2: bool)
        ensures
            v2 == self.spec_gas_model_v2(),
    {
        self.gas_model_version >= 2
    }

    pub fn move_binary_format_version(&self) -> (version: u32)
        ensures
            version == self.move_binary_format_version,
    {
        self.move_binary_format_version
    }
}

} // verus!
