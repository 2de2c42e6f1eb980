//! Rows of the extensions table.

use vstd::prelude::*;

verus! {

/// One extension of the registry, as the store holds it.
#[derive(Debug, PartialEq, Eq)]
pub struct Model {
    /// The row's key.
    pub id: i32,
    /// The extension's name, by which it is known and found.
    pub name: String,
    /// How often any version of the extension has been downloaded.
    pub total_download_count: i64,
    /// The key of the most recently published version, if one was published.
    pub latest_version: Option<i32>,
}

/// What an extension row holds, with its name as a sequence of characters.
pub ghost struct ModelView {
    pub id: i32,
    pub name: Seq<char>,
    pub total_download_count: i64,
    pub latest_version: Option<i32>,
}

impl View for Model {
    type V = ModelView;

    open spec fn view(&self) -> ModelView {
        ModelView {
            id: self.id,
            name: self.name@,
            total_download_count: self.total_download_count,
            latest_version: self.latest_version,
        }
    }
}

impl DeepView for Model {
    type V = ModelView;

    open spec fn deep_view(&self) -> ModelView {
        self@
    }
}

impl Clone for Model {
    fn clone(&self) -> (row: Self)
        ensures
            row == *self,
    {
        Model {
            id: self.id,
            name: self.name.clone(),
            total_download_count: self.total_download_count,
            latest_version: self.latest_version,
        }
    }
}

} // verus!
