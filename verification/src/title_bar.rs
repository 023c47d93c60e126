//! The title bar that the editor draws itself.
use vstd::prelude::*;
use vstd::string::*;

verus! {

/// The open file.
#[derive(Debug, PartialEq)]
pub struct FileInfo {
    /// The last part of its path, if it has one.
    pub name: Option<String>,
    pub dirty: bool,
}

impl FileInfo {
    /// The title: the file name, with a `*` before it while there are unsaved changes.
    pub fn title(&self) -> (r: String)
        ensures
            r@ == (if self.dirty {
                "* "@
            } else {
                ""@
            }) + (match self.name {
                Some(n) => n@,
                None => "untitled"@,
            }),
    {
        let mut title = if self.dirty {
            "* ".to_owned()
        } else {
            "".to_owned()
        };
        match &self.name {
            Some(n) => title.append(n.as_str()),
            None => title.append("untitled"),
        }
        title
    }
}

} // verus!
