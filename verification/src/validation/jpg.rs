use vstd::prelude::*;

use crate::search::pairing::MatchPair;
use crate::search::Match;
use crate::searchlight::config::SearchlightConfig;
use crate::validation::{FileValidationInfo, FileValidationType, FileValidator, Fragment};

verus! {

/// A validator for JPG files that recognises nothing: every potential file is reported as
/// unrecognised, with no fragments.
pub struct JpgValidator {}

impl JpgValidator {
    /// The JPG validator.
    pub fn new() -> (v: Self) {
        JpgValidator {}
    }
}

impl FileValidator for JpgValidator {
    open spec fn validate_ok(
        &self,
        file_data: Seq<u8>,
        file_match: &MatchPair,
        all_matches: Seq<Match>,
        cluster_size: usize,
        config: &SearchlightConfig,
    ) -> bool {
        true
    }

    open spec fn validate_result(
        &self,
        file_data: Seq<u8>,
        file_match: &MatchPair,
        all_matches: Seq<Match>,
        cluster_size: usize,
        config: &SearchlightConfig,
        result: (FileValidationType, Seq<Fragment>),
    ) -> bool {
        result == (FileValidationType::Unrecognised, Seq::<Fragment>::empty())
    }

    /// Reports the data as unrecognised.
    fn validate(
        &self,
        file_data: &[u8],
        file_match: &MatchPair,
        all_matches: &[Match],
        cluster_size: usize,
        config: &SearchlightConfig,
    ) -> (r: FileValidationInfo) {
        let r = FileValidationInfo {
            validation_type: FileValidationType::Unrecognised,
            fragments: Vec::new(),
        };
        assert(r.fragments@ =~= Seq::<Fragment>::empty());
        r
    }
}

} // verus!
