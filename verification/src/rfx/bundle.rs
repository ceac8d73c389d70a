//! Plug-in bundles: the directories that hold plug-in binaries.
use vstd::prelude::*;
use vstd::string::*;
use crate::text::chars_of;

verus! {

broadcast use vstd::string::group_string_axioms;

/// The ending that names an OpenFX bundle directory.
pub open spec fn bundle_suffix() -> Seq<char> {
    seq!['.', 'o', 'f', 'x', '.', 'b', 'u', 'n', 'd', 'l', 'e']
}

/// Whether a directory name ends with `.ofx.bundle`.
pub open spec fn spec_is_ofx_bundle(name: Seq<char>) -> bool {
    name.len() >= bundle_suffix().len() && name.skip(name.len() - bundle_suffix().len())
        == bundle_suffix()
}

/// Whether the directory named `file_name` follows the OpenFX bundle
/// naming: its name ends with `.ofx.bundle`.
pub fn is_ofx_bundle(file_name: &str) -> (r: bool)
    ensures
        r == spec_is_ofx_bundle(file_name@),
{
    let name = chars_of(file_name);
    let suffix: Vec<char> = vec!['.', 'o', 'f', 'x', '.', 'b', 'u', 'n', 'd', 'l', 'e'];
    assert(suffix@ =~= bundle_suffix());
    if name.len() < suffix.len() {
        return false;
    }
    let start = name.len() - suffix.len();
    let mut i: usize = 0;
    while i < suffix.len()
        invariant
            name@ == file_name@,
            suffix@ == bundle_suffix(),
            start == name@.len() - suffix@.len(),
            name@.len() == name.len(),
            suffix@.len() == 11,
            start + 11 == name.len(),
            i <= suffix@.len(),
            forall|j: int| 0 <= j < i ==> name@[start + j] == suffix@[j],
        decreases suffix@.len() - i,
    {
        if name[start + i] != suffix[i] {
            assert(name@.skip(start as int)[i as int] != bundle_suffix()[i as int]);
            return false;
        }
        i = i + 1;
    }
    assert(name@.skip(start as int) =~= bundle_suffix());
    true
}

/// Any name followed by `.ofx.bundle` names a bundle.
pub proof fn lemma_bundle_name(name: Seq<char>)
    ensures
        spec_is_ofx_bundle(name + bundle_suffix()),
{
    let n = name + bundle_suffix();
    assert(n.skip(n.len() - bundle_suffix().len()) =~= bundle_suffix());
}

/// The systems the host tells apart when it looks for a plug-in binary.
#[derive(Debug, Clone, Copy, PartialEq, Eq, Structural)]
pub enum OperatingSystem {
    MacOs,
    Linux,
    Other,
}

/// The directory, inside a bundle, that holds the binary for `os`; none
/// for a system that bundles do not provide for.
pub fn binary_dir(os: OperatingSystem) -> (r: Option<&'static str>)
    ensures
        match os {
            OperatingSystem::MacOs => r matches Some(d) && d@ == "Contents/MacOS-x86-64"@,
            OperatingSystem::Linux => r matches Some(d) && d@ == "Contents/Linux-x86-64"@,
            OperatingSystem::Other => r is None,
        },
{
    match os {
        OperatingSystem::MacOs => Some("Contents/MacOS-x86-64"),
        OperatingSystem::Linux => Some("Contents/Linux-x86-64"),
        OperatingSystem::Other => None,
    }
}

} // verus!
