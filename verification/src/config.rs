//! Configuration values handed to the entry points by the command-line
//! layer; defaults and argument parsing live with that layer.
use vstd::prelude::*;

verus! {

/// Inputs common to both modes: the export file, and the optional
/// tag-remapping file.
#[derive(Debug)]
pub struct CommonOpts {
    pub posts_file: String,
    pub tag_mapping_file: Option<String>,
}

/// Which mode to run, with its inputs.
#[derive(Debug)]
pub enum Config {
    /// Write one tag side-file per matched media file, optionally reporting
    /// photo posts whose media is absent from the media directory.
    Generate { media_dir: String, report_missing: bool, common_opts: CommonOpts },
    /// Aggregate tag frequencies across all posts.
    Analyze { common_opts: CommonOpts },
}

} // verus!
