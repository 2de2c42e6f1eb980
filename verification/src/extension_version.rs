//! Rows of the extension versions table.

use vstd::prelude::*;

verus! {

/// One published version of an extension, as the store holds it.
#[derive(Debug, PartialEq, Eq)]
pub struct Model {
    /// The row's key.
    pub id: i32,
    /// The key of the extension that this version belongs to.
    pub extension_id: i32,
    /// The version string, such as `1.4.0`.
    pub version: String,
    /// When the version was published, in seconds since the Unix epoch.
    pub published_at: i64,
    /// The authors named at publication.
    pub authors: String,
    /// The description given at publication.
    pub description: String,
}

/// What a version row holds, with its strings as sequences of characters.
pub ghost struct ModelView {
    pub id: i32,
    pub extension_id: i32,
    pub version: Seq<char>,
    pub published_at: i64,
    pub authors: Seq<char>,
    pub description: Seq<char>,
}

impl View for Model {
    type V = ModelView;

    open spec fn view(&self) -> ModelView {
        ModelView {
            id: self.id,
            extension_id: self.extension_id,
            version: self.version@,
            published_at: self.published_at,
            authors: self.authors@,
            description: self.description@,
        }
    }
}

impl DeepView for Model {
    type V = ModelView;

    open spec fn deep_view(&self) -> ModelView {
        self@
    }
}

impl Clone for Model {
    fn clone(&self) -> (row: Self)
        ensures
            row == *self,
    {
        Model {
            id: self.id,
            extension_id: self.extension_id,
            version: self.version.clone(),
            published_at: self.published_at,
            authors: self.authors.clone(),
            description: self.description.clone(),
        }
    }
}

} // verus!
