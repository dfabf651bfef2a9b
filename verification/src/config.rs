//! The project records that the browser keeps between runs.

use vstd::prelude::*;

verus! {

/// One project known to the browser.
#[derive(Debug, Clone, PartialEq, Eq)]
pub struct ProjectConfig {
    pub id: String,
    pub name: String,
    pub path: String,
    pub icon: String,
}

pub struct ProjectModel {
    pub id: Seq<char>,
    pub name: Seq<char>,
    pub path: Seq<char>,
    pub icon: Seq<char>,
}

impl View for ProjectConfig {
    type V = ProjectModel;

    open spec fn view(&self) -> ProjectModel {
        ProjectModel { id: self.id@, name: self.name@, path: self.path@, icon: self.icon@ }
    }
}

} // verus!
