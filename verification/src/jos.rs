//! connection to the operating system

use crate::jstring::same_text;
use vstd::prelude::*;

verus! {

/// Returns `true` if `os_name`, the short name of an operating system, is that of Linux.
pub fn is_linux(os_name: &str) -> (r: bool)
    ensures
        r == (os_name@ == "linux"@),
{
    same_text(os_name, "linux")
}

/// Returns `true` if `os_name`, the short name of an operating system, is that of Windows.
pub fn is_windows(os_name: &str) -> (r: bool)
    ensures
        r == (os_name@ == "windows"@),
{
    same_text(os_name, "windows")
}

/// No operating system is both Linux and Windows.
pub proof fn lemma_linux_is_not_windows(os_name: Seq<char>)
    ensures
        !(os_name == "linux"@ && os_name == "windows"@),
{
    reveal_strlit("linux");
    reveal_strlit("windows");
    assert("linux"@.len() == 5);
    assert("windows"@.len() == 7);
}

} // verus!
