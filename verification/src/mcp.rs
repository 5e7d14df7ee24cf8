//! The command resolver and the bootstrap prober.
//!
//! The resolver maps a logical runtime name to the executable name that the
//! bundled resources ship, for exactly the fixed set of supported runtimes;
//! anything else is rejected with `UnsupportedRuntime`. Resolving the
//! executable name to a bundled path, and spawning, are the caller's side of
//! the boundary.

use vstd::prelude::*;

use crate::errors::McpError;

verus! {

/// The fixed set of logical runtime names the resolver accepts.
pub open spec fn supported_runtime(name: Seq<char>) -> bool {
    ||| name == "python"@
    ||| name == "uvx"@
    ||| name == "node"@
    ||| name == "npx"@
    ||| name == "bunx"@
}

/// Maps a logical runtime name to the executable name to spawn. Every
/// supported runtime resolves to the executable of the same name; any other
/// name fails with `UnsupportedRuntime`, carrying the offending name.
pub fn get_os_specific_command(command: &str) -> (r: Result<String, McpError>)
    ensures
        supported_runtime(command@) ==> (r matches Ok(c) && c@ == command@),
        !supported_runtime(command@) ==> (r matches Err(e)
            && e matches McpError::UnsupportedRuntime(n) && n@ == command@),
{
    let c = command.to_owned();
    if c == "python".to_owned() || c == "uvx".to_owned() || c == "node".to_owned()
        || c == "npx".to_owned() || c == "bunx".to_owned() {
        Ok(c)
    } else {
        Err(McpError::UnsupportedRuntime(c))
    }
}

/// One startup probe: invoke `runtime` with the single argument `arg` and
/// ignore the outcome.
pub struct Probe {
    pub runtime: String,
    pub arg: String,
}

/// The startup warm-up plan: each optional runtime is invoked once with a
/// harmless no-op argument. Every probe names a supported runtime, already
/// resolved, so the caller only spawns; a probe failure must be ignored.
pub fn bootstrap() -> (probes: Vec<Probe>)
    ensures
        probes@.len() == 2,
        probes@[0].runtime@ == "uvx"@,
        probes@[1].runtime@ == "npx"@,
        forall|i: int| 0 <= i < probes@.len() ==> supported_runtime(#[trigger] probes@[i].runtime@),
        forall|i: int| 0 <= i < probes@.len() ==> #[trigger] probes@[i].arg@ == "--help"@,
{
    let mut probes: Vec<Probe> = Vec::new();
    let uvx = get_os_specific_command("uvx");
    let npx = get_os_specific_command("npx");
    match (uvx, npx) {
        (Ok(u), Ok(n)) => {
            probes.push(Probe { runtime: u, arg: "--help".to_owned() });
            probes.push(Probe { runtime: n, arg: "--help".to_owned() });
        }
        _ => {
            proof {
                assert(supported_runtime("uvx"@));
                assert(supported_runtime("npx"@));
            }
        }
    }
    probes
}

} // verus!
