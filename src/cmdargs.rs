use vstd::prelude::*;
use vstd::string::*;

verus! {

/// The program's settings.
#[derive(Debug)]
pub struct CmdArgs {
    pub num_threads: usize,
    pub scene_path: String,
    pub integrator: String,
}

/// Relies on num_cpus::get: the number of logical CPUs available to the process,
/// which its documentation says is always at least 1.
#[verifier::external_body]
fn available_cpus() -> (r: usize)
    ensures
        r >= 1,
{
    num_cpus::get()
}

impl Default for CmdArgs {
    /// One thread per available CPU, the bundled Cornell box, the simple path tracer.
    fn default() -> (r: Self)
        ensures
            r.num_threads >= 1,
            r.scene_path@ == "resources/scenes/cornell-box/scene-v4.pbrt"@,
            r.integrator@ == "simple-path"@,
    {
        CmdArgs {
            num_threads: available_cpus(),
            scene_path: String::from_str("resources/scenes/cornell-box/scene-v4.pbrt"),
            integrator: String::from_str("simple-path"),
        }
    }
}

} // verus!
