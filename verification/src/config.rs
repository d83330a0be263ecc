use vstd::prelude::*;

verus! {

/// Where the application keeps its catalogs and its downloaded files.
///
/// The subscription catalog and the per-subscription episode catalogs live
/// under `app_directory`; downloaded episode files go to
/// `download_directory`.
pub struct Config {
    pub app_directory: String,
    pub download_directory: String,
}

impl Config {
    pub fn new(app_directory: String, download_directory: String) -> (r: Self)
        ensures
            r.app_directory@ == app_directory@,
            r.download_directory@ == download_directory@,
    {
        Self { app_directory, download_directory }
    }
}

} // verus!
