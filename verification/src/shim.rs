use vstd::prelude::*;

verus! {

/// Decides the runtime shim's gate: the native hotplug-filter call is to be
/// made exactly when the gating environment variable is present, whatever
/// value it holds, and nothing is to be done otherwise.
pub fn should_load_pcie_driver(env_value: &Option<String>) -> (load: bool)
    ensures
        load == env_value.is_some(),
{
    match env_value {
        Option::Some(_) => true,
        Option::None => false,
    }
}

} // verus!
