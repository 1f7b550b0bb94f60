//! The control data that goes into a package.

use vstd::prelude::*;
use vstd::string::*;
use crate::config::Metadata;
use crate::deb_ext::{kv_text, WriteDebExt, LF};
use crate::text::{append_bytes, copy_bytes};

verus! {

/// The description of a package: the short one, a line feed, and the long
/// one.
pub open spec fn description(meta: Metadata) -> Seq<u8> {
    meta.short_description@ + seq![LF] + meta.long_description@
}

/// The field that says what a package depends on, where it depends on
/// anything.
pub open spec fn depends_text(meta: Metadata) -> Seq<u8> {
    match meta.depends {
        Some(deps) => kv_text("Depends".spec_bytes(), deps@),
        None => Seq::empty(),
    }
}

/// The control data of a package: name, version, maintainer and
/// architecture, what it depends on where anything, and the description.
pub open spec fn deb_control(meta: Metadata, version: Seq<u8>, architecture: Seq<u8>) -> Seq<u8> {
    kv_text("Package".spec_bytes(), meta.name@) + kv_text("Version".spec_bytes(), version)
        + kv_text("Maintainer".spec_bytes(), "bulk".spec_bytes()) + kv_text(
        "Architecture".spec_bytes(),
        architecture,
    ) + depends_text(meta) + kv_text("Description".spec_bytes(), description(meta))
}

/// Writes the control data of a package.
pub fn format_deb_control(out: &mut Vec<u8>, meta: &Metadata, version: &[u8], architecture: &[u8])
    ensures
        final(out)@ == old(out)@ + deb_control(*meta, version@, architecture@),
{
    out.write_kv("Package".as_bytes(), meta.name.as_slice());
    out.write_kv("Version".as_bytes(), version);
    out.write_kv("Maintainer".as_bytes(), "bulk".as_bytes());
    out.write_kv("Architecture".as_bytes(), architecture);
    let ghost head = out@;
    match &meta.depends {
        Some(deps) => {
            out.write_kv("Depends".as_bytes(), deps.as_slice());
        },
        None => {},
    }
    let mut text = copy_bytes(meta.short_description.as_slice());
    text.push(LF);
    append_bytes(&mut text, meta.long_description.as_slice());
    let ghost mid = out@;
    proof {
        assert(text@ =~= description(*meta));
        let deps: Seq<u8> = depends_text(*meta);
        assert(mid =~= head + deps);
    }
    out.write_kv("Description".as_bytes(), text.as_slice());
    proof {
        assert(out@ =~= old(out)@ + deb_control(*meta, version@, architecture@));
    }
}

} // verus!
