//! The organization's names, as the bootstrap kit's `config/org.env` states them.

use vstd::prelude::*;

verus! {

/// The GitHub organization.
pub const ORG: &'static str = "public-software";

/// The organization's display name.
pub const ORG_DISPLAY_NAME: &'static str = "Public Software";

/// The organization's site.
pub const ORG_URL: &'static str = "https://publicsoftware.dev";

/// The org CLI binary.
pub const CLI: &'static str = "pub";

/// Crates are `<CRATE_PREFIX>-<repo>-<component>`.
pub const CRATE_PREFIX: &'static str = "pub";

/// A service's binary is `<DAEMON_PREFIX>-<component>`.
pub const DAEMON_PREFIX: &'static str = "pubd";

/// WIT packages are `<WIT_NAMESPACE>:<name>@<version>`.
pub const WIT_NAMESPACE: &'static str = "public";

/// The minimum supported Rust version.
pub const MSRV: &'static str = "1.90";

/// The Rust edition.
pub const EDITION: &'static str = "2024";

/// The licence of code.
pub const LICENSE_SPDX: &'static str = "Apache-2.0 OR MIT";

} // verus!
