//! Disk-usage summaries for package-manager cache directories.
//!
//! Cache entries are named `<name>-<disambiguator>`. The library decodes the
//! logical name of each entry, groups entries by that name, ranks the groups by
//! total size and renders a fixed-width report.

pub mod aggregate;
pub mod descriptor;
pub mod grouping_laws;
pub mod name;
pub mod rank;
pub mod record_order;
pub mod report;
pub mod text;
