use vstd::prelude::*;

use crate::searchlight::config::FileTypeId;
use crate::validation::{FileValidationType, Fragment};

verus! {

/// A file found in an image: its type, the name it was carved under, its validation outcome
/// and its fragments in the image.
pub struct CarveLogEntry {
    pub file_type_id: FileTypeId,
    pub filename: String,
    pub validation: FileValidationType,
    pub fragments: Vec<Fragment>,
}

/// The files carved from an image, in the order they were found.
pub struct CarveLog {
    pub image_path: String,
    pub files: Vec<CarveLogEntry>,
}

impl CarveLog {
    /// An empty log for the image at `image_path`.
    pub fn new(image_path: &str) -> (l: Self)
        ensures
            l.image_path@ == image_path@,
            l.files@.len() == 0,
    {
        CarveLog { image_path: image_path.to_owned(), files: Vec::new() }
    }

    /// Appends an entry for a carved file.
    pub fn add_entry(
        &mut self,
        file_type_id: FileTypeId,
        filename: String,
        validation: FileValidationType,
        fragments: Vec<Fragment>,
    )
        ensures
            final(self).image_path == old(self).image_path,
            final(self).files@ == old(self).files@.push(
                CarveLogEntry { file_type_id, filename, validation, fragments },
            ),
    {
        self.files.push(CarveLogEntry { file_type_id, filename, validation, fragments });
    }
}

} // verus!
