//! Registry of the domain names of DNS zones: reconciling a zone listing with
//! the stored registry, classifying name resolution outcomes, and recording
//! what a web probe of each domain found.

pub mod codec;
pub mod domain;
pub mod order;
pub mod parsers;
pub mod prober;
pub mod registry;
pub mod resolver;
pub mod site;
pub mod sorted;
pub mod sync;
pub mod text;
pub mod tools;

pub use parsers::parse_metadata;
pub use parsers::parse_title;
pub use site::Site;
pub use tools::symmetric_diff;
