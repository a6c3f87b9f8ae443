//! Product and author metadata, defined once for the command line and the
//! desktop window.

use vstd::prelude::*;

verus! {

/// Human-facing product name.
pub const PRODUCT_NAME: &'static str = "Web Radar";
/// Author's real name, as in the licence.
pub const AUTHOR: &'static str = "Vitaliy Dyachuk";
pub const AUTHOR_URL: &'static str = "https://spiriturban.github.io/";
pub const AUTHOR_GITHUB_URL: &'static str = "https://github.com/SpiritUrban";
pub const REPOSITORY_URL: &'static str = "https://github.com/SpiritUrban/web-radar";
pub const SITE_URL: &'static str = "https://spiriturban.github.io/web-radar/";
pub const COPYRIGHT: &'static str = "© 2026 Vitaliy Dyachuk";
/// Where the source graph files come from.
pub const DATA_SOURCE_URL: &'static str = "https://commoncrawl.org/web-graphs";
/// Version of the whole workspace.
pub const VERSION: &'static str = "0.4.0";

/// Author and product strings, so the window never hardcodes them.
pub struct ProductMetadata {
    pub product_name: &'static str,
    pub version: &'static str,
    pub author: &'static str,
    pub author_url: &'static str,
    pub author_github_url: &'static str,
    pub repository_url: &'static str,
    pub site_url: &'static str,
    pub copyright: &'static str,
    pub data_source_url: &'static str,
}

pub fn product_metadata() -> (m: ProductMetadata)
    ensures
        m.product_name@ == PRODUCT_NAME@,
        m.version@ == VERSION@,
        m.author@ == AUTHOR@,
        m.author_url@ == AUTHOR_URL@,
        m.author_github_url@ == AUTHOR_GITHUB_URL@,
        m.repository_url@ == REPOSITORY_URL@,
        m.site_url@ == SITE_URL@,
        m.copyright@ == COPYRIGHT@,
        m.data_source_url@ == DATA_SOURCE_URL@,
{
    ProductMetadata {
        product_name: PRODUCT_NAME,
        version: VERSION,
        author: AUTHOR,
        author_url: AUTHOR_URL,
        author_github_url: AUTHOR_GITHUB_URL,
        repository_url: REPOSITORY_URL,
        site_url: SITE_URL,
        copyright: COPYRIGHT,
        data_source_url: DATA_SOURCE_URL,
    }
}

} // verus!
