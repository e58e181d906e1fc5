//! Language and tool metadata: which runtimes the workspace knows and how
//! their package and version managers are detected on disk.

use vstd::prelude::*;
use vstd::string::StringExecFns;

verus! {

pub type StaticString = &'static str;

pub type StaticStringList = &'static [StaticString];

/// A supported language runtime and where its vendored artifacts live.
pub struct Language {
    pub binary: StaticString,
    pub default_version: StaticString,
    pub vendor_bins_dir: StaticString,
    pub vendor_dir: StaticString,
}

/// A package manager of a language, and the files that betray its use.
pub struct PackageManager {
    pub binary: StaticString,
    pub config_filenames: StaticStringList,
    pub default_version: StaticString,
    pub lock_filenames: StaticStringList,
    pub manifest_filename: StaticString,
}

/// A version manager of a language, and the files that betray its use.
pub struct VersionManager {
    pub binary: StaticString,
    pub config_filename: Option<StaticString>,
    pub version_filename: StaticString,
}

/// Relies on std's `Path::exists` (via `Path::new` and `Path::join` to form
/// `dir/file`): whether that path exists on disk at this moment. Nothing
/// can be promised of the answer; the filesystem may change between calls.
#[verifier::external_body]
fn path_exists(dir: &str, file: &str) -> bool {
    std::path::Path::new(dir).join(file).exists()
}

/// Whether `base_dir` shows traces of the package manager: one of its lock
/// files or config files exists there. The answer mirrors the state of the
/// disk, so nothing more exact can be promised of it.
pub fn is_using_package_manager(base_dir: &str, pm: &PackageManager) -> bool {
    let mut i: usize = 0;
    while i < pm.lock_filenames.len()
        decreases pm.lock_filenames@.len() - i,
    {
        if path_exists(base_dir, pm.lock_filenames[i]) {
            return true;
        }
        i = i + 1;
    }
    let mut i: usize = 0;
    while i < pm.config_filenames.len()
        decreases pm.config_filenames@.len() - i,
    {
        if path_exists(base_dir, pm.config_filenames[i]) {
            return true;
        }
        i = i + 1;
    }
    false
}

/// Whether `base_dir` shows traces of the version manager: its version
/// file, or its config file if it names one, exists there. As with
/// [`is_using_package_manager`], the answer mirrors the disk.
pub fn is_using_version_manager(base_dir: &str, vm: &VersionManager) -> bool {
    if path_exists(base_dir, vm.version_filename) {
        return true;
    }
    if let Some(config) = vm.config_filename {
        if path_exists(base_dir, config) {
            return true;
        }
    }
    false
}

/// The language runtimes this tool supports.
#[derive(Clone, PartialEq, Eq, Structural)]
pub enum SupportedLanguage {
    Node,
    System,
}

impl SupportedLanguage {
    /// The human-readable name of the language.
    pub fn label(&self) -> (r: String)
        ensures
            *self matches SupportedLanguage::Node ==> r@ == "Node.js"@,
            *self matches SupportedLanguage::System ==> r@ == "system"@,
    {
        match self {
            SupportedLanguage::Node => String::from_str("Node.js"),
            SupportedLanguage::System => String::from_str("system"),
        }
    }
}

} // verus!
