//! The Explorer context-menu entry that searches a folder.

use vstd::prelude::*;
use crate::text::{concat, owned};

verus! {

/// The context-menu entry.
#[derive(Debug)]
pub struct ShellExtension {
    app_name: String,
    exe_path: String,
}

impl ShellExtension {
    /// The name under which the entry is registered.
    pub closed spec fn app(&self) -> Seq<char> {
        self.app_name@
    }

    /// The path of the program that the entry runs.
    pub closed spec fn exe(&self) -> Seq<char> {
        self.exe_path@
    }

    /// The entry for the program at `exe_path`.
    pub fn new(exe_path: &str) -> (res: ShellExtension)
        ensures
            res.app() == "RecollNext"@,
            res.exe() == exe_path@,
    {
        ShellExtension { app_name: owned("RecollNext"), exe_path: owned(exe_path) }
    }

    /// The registry key of the entry.
    pub fn registry_path(&self) -> (res: String)
        ensures
            res@ == "Directory\\Background\\shell\\"@ + self.app(),
    {
        concat("Directory\\Background\\shell\\", self.app_name.as_str())
    }

    /// The text of the entry.
    pub fn menu_text(&self) -> (res: &str)
        ensures
            res@ == "Search with Recoll Next"@,
    {
        "Search with Recoll Next"
    }

    /// The command that the entry runs: the program, quoted, then
    /// `search --path "%V"`, where Explorer puts the folder for `%V`.
    pub fn command_line(&self) -> (res: String)
        ensures
            res@ == "\""@ + self.exe() + "\" search --path \"%V\""@,
    {
        let quoted = concat("\"", self.exe_path.as_str());
        concat(quoted.as_str(), "\" search --path \"%V\"")
    }
}

} // verus!
