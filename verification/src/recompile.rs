use vstd::prelude::*;
use vstd::string::StringExecFns;

verus! {

// The decisions of the rebuild collaborator. The collaborator itself runs
// the compiler and touches the file system outside this library; what
// stands here is the path layout under the user's home directory and the
// classification of a rebuild's outcome.

/// Path layout of the rebuild collaborator: where the user-editable
/// configuration lives, where builds are staged, and where the freshly
/// built binary is placed.
pub struct Recompiler {
    config_path: String,
    cache_dir: String,
    binary_path: String,
}

impl Recompiler {
    /// Derive the fixed paths from the user's home directory.
    pub fn new(home: &str) -> (r: Recompiler)
        ensures
            r.spec_config_path() == home@ + "/.config/oxwm/config.rs"@,
            r.spec_cache_dir() == home@ + "/.cache/oxwm"@,
            r.spec_binary_path() == home@ + "/.cache/oxwm/oxwm"@,
    {
        let mut config_path = String::from_str(home);
        config_path.append("/.config/oxwm/config.rs");
        let mut cache_dir = String::from_str(home);
        cache_dir.append("/.cache/oxwm");
        let mut binary_path = String::from_str(home);
        binary_path.append("/.cache/oxwm/oxwm");
        Recompiler { config_path, cache_dir, binary_path }
    }

    /// The configuration file path.
    pub closed spec fn spec_config_path(&self) -> Seq<char> {
        self.config_path@
    }

    /// The build-staging directory path.
    pub closed spec fn spec_cache_dir(&self) -> Seq<char> {
        self.cache_dir@
    }

    /// The rebuilt binary's path.
    pub closed spec fn spec_binary_path(&self) -> Seq<char> {
        self.binary_path@
    }

    /// Where the user-editable configuration source lives.
    pub fn get_config_path(&self) -> (r: &String)
        ensures
            r@ == self.spec_config_path(),
    {
        &self.config_path
    }

    /// Where builds are staged.
    pub fn get_cache_dir(&self) -> (r: &String)
        ensures
            r@ == self.spec_cache_dir(),
    {
        &self.cache_dir
    }

    /// Where the freshly built binary is placed.
    pub fn get_binary_path(&self) -> (r: &String)
        ensures
            r@ == self.spec_binary_path(),
    {
        &self.binary_path
    }
}

/// The outcome of one rebuild attempt.
pub enum CompileResult {
    /// A new binary was built and put at the binary path.
    Success,
    /// The build ran and failed; the captured diagnostics are surfaced to
    /// the user, and the previous binary stays in use.
    Error(String),
    /// There is no configuration file, so there is nothing to build.
    NoConfig,
}

/// Classify a rebuild from what was observed: a missing configuration is
/// `NoConfig` whatever else happened; otherwise the build's exit status
/// decides, and a failed build carries its captured diagnostics.
pub fn classify_compile(config_exists: bool, build_succeeded: bool, diagnostics: String) -> (r:
    CompileResult)
    ensures
        !config_exists ==> r == CompileResult::NoConfig,
        config_exists && build_succeeded ==> r == CompileResult::Success,
        config_exists && !build_succeeded ==> r == CompileResult::Error(diagnostics),
{
    if !config_exists {
        CompileResult::NoConfig
    } else if build_succeeded {
        CompileResult::Success
    } else {
        CompileResult::Error(diagnostics)
    }
}

/// Which binary a restart should execute: the freshly built one when it
/// exists on disk, otherwise the binary this process was started as.
pub fn restart_target<'a>(recompiled_exists: bool, binary_path: &'a String, argv0: &'a String) -> (r:
    &'a String)
    ensures
        recompiled_exists ==> r@ == binary_path@,
        !recompiled_exists ==> r@ == argv0@,
{
    if recompiled_exists {
        binary_path
    } else {
        argv0
    }
}

} // verus!
