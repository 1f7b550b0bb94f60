//! What a package says of itself, as the configuration gives it.

use vstd::prelude::*;
use crate::config::{Config, Metadata};
use crate::text::copy_bytes;

verus! {

/// The metadata of the package that a configuration describes; none where
/// it describes no package.
pub fn populate(config: &Config) -> (r: Option<Metadata>)
    ensures
        match (r, config.metadata) {
            (Some(m), Some(c)) => m.name@ == c.name@ && m.short_description@
                == c.short_description@ && m.long_description@ == c.long_description@ && (match (
                m.depends,
                c.depends,
            ) {
                (Some(a), Some(b)) => a@ == b@,
                (None, None) => true,
                _ => false,
            }),
            (None, None) => true,
            _ => false,
        },
{
    match &config.metadata {
        Some(c) => Some(
            Metadata {
                name: copy_bytes(c.name.as_slice()),
                short_description: copy_bytes(c.short_description.as_slice()),
                long_description: copy_bytes(c.long_description.as_slice()),
                depends: match &c.depends {
                    Some(d) => Some(copy_bytes(d.as_slice())),
                    None => None,
                },
            },
        ),
        None => None,
    }
}

} // verus!
