//! Whether and how to start Radmin VPN.
use vstd::prelude::*;

use crate::text::contains;

verus! {

/// Where Radmin VPN is looked for, in this order.
pub open spec fn candidates_text() -> Seq<Seq<char>> {
    seq![
        "C:\\Program Files\\Radmin VPN\\Radmin VPN.exe"@,
        "C:\\Program Files (x86)\\Radmin VPN\\Radmin VPN.exe"@,
    ]
}

pub fn candidates() -> (paths: [&'static str; 2])
    ensures
        paths@[0]@ == candidates_text()[0],
        paths@[1]@ == candidates_text()[1],
{
    [
        "C:\\Program Files\\Radmin VPN\\Radmin VPN.exe",
        "C:\\Program Files (x86)\\Radmin VPN\\Radmin VPN.exe",
    ]
}

/// The first candidate that is there. `exists` tells of each whether it is.
pub fn find_exe(exists: [bool; 2]) -> (exe: Option<&'static str>)
    ensures
        match exe {
            Some(path) => {
                ||| exists@[0] && path@ == candidates_text()[0]
                ||| !exists@[0] && exists@[1] && path@ == candidates_text()[1]
            },
            None => !exists@[0] && !exists@[1],
        },
{
    let paths = candidates();
    if exists[0] {
        Some(paths[0])
    } else if exists[1] {
        Some(paths[1])
    } else {
        None
    }
}

/// What to start: nothing while it runs, else the program that `find_exe` finds.
pub fn launch(running: bool, exists: [bool; 2]) -> (start: Result<Option<&'static str>, String>)
    ensures
        match start {
            Ok(None) => running,
            Ok(Some(path)) => {
                ||| !running && exists@[0] && path@ == candidates_text()[0]
                ||| !running && !exists@[0] && exists@[1] && path@ == candidates_text()[1]
            },
            Err(message) => !running && !exists@[0] && !exists@[1] && message@
                == "Radmin VPN is not installed"@,
        },
{
    if running {
        return Ok(None);
    }
    match find_exe(exists) {
        Some(path) => Ok(Some(path)),
        None => Err("Radmin VPN is not installed".to_owned()),
    }
}

/// Whether a list of running programs names it, in whatever case.
pub fn is_running(listing: &str) -> (running: bool)
    ensures
        running == crate::text::occurs_in("radmin vpn"@, crate::text::lowercase(listing@)),
{
    let text: String = listing.to_lowercase();
    contains(text.as_str(), "radmin vpn")
}

/// The program is looked for in two places, which differ in the directory alone.
pub proof fn law_two_places_are_looked_in()
    ensures
        candidates_text().len() == 2,
        candidates_text()[0] == "C:\\Program Files"@ + "\\Radmin VPN\\Radmin VPN.exe"@,
        candidates_text()[1] == "C:\\Program Files (x86)"@ + "\\Radmin VPN\\Radmin VPN.exe"@,
{
    reveal_strlit("C:\\Program Files");
    reveal_strlit("C:\\Program Files (x86)");
    reveal_strlit("\\Radmin VPN\\Radmin VPN.exe");
    reveal_strlit("C:\\Program Files\\Radmin VPN\\Radmin VPN.exe");
    reveal_strlit("C:\\Program Files (x86)\\Radmin VPN\\Radmin VPN.exe");
    assert(candidates_text()[0] =~= "C:\\Program Files"@ + "\\Radmin VPN\\Radmin VPN.exe"@);
    assert(candidates_text()[1] =~= "C:\\Program Files (x86)"@
        + "\\Radmin VPN\\Radmin VPN.exe"@);
}

} // verus!
