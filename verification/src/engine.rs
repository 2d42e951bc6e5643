//! The composed pipeline: platform patch, split routing, SOCKS inbound,
//! legacy process tunnel, in that fixed order.

use vstd::prelude::*;
use crate::legacy::legacy_pass;
use crate::legacy::legacy_pass_model;
use crate::patch::platform_patch;
use crate::patch::platform_patch_model;
use crate::policy::Platform;
use crate::policy::Policy;
use crate::policy::PolicyModel;
use crate::socks::socks_pass;
use crate::socks::socks_pass_model;
use crate::split::split_pass;
use crate::split::split_pass_model;
use crate::value::Value;
use crate::value::ValueModel;

verus! {

/// The whole engine: every pass applied in order.
pub open spec fn apply_model(doc: ValueModel, p: PolicyModel, platform: Platform) -> ValueModel {
    legacy_pass_model(
        socks_pass_model(
            split_pass_model(platform_patch_model(doc, p.enabled, platform), p, platform),
            p,
        ),
        p,
        platform,
    )
}

/// Synthesizes the routing policy into the document: platform patch,
/// split-routing pass, SOCKS inbound pass, legacy pass, in that order.
pub fn apply(doc: Value, policy: &Policy, platform: Platform) -> (r: Value)
    ensures
        r@ == apply_model(doc@, policy@, platform),
{
    let d1 = platform_patch(doc, policy.enabled, platform);
    let d2 = split_pass(d1, policy, platform);
    let d3 = socks_pass(d2, policy);
    legacy_pass(d3, policy, platform)
}

} // verus!
