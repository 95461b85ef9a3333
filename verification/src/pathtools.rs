//! Where a store keeps its files.

use vstd::prelude::*;
use vstd::string::StringSliceAdditionalSpecFns;
use crate::guard::joined;
use crate::path::{append_bytes, view_of, SEPARATOR};

verus! {

/// The directory that a store keeps its files in: the configured one, or
/// `rsync-http` under the system's directory for temporary files.
pub open spec fn store_root(configured: Option<Seq<u8>>, system_temp: Seq<u8>) -> Seq<u8> {
    match configured {
        Some(dir) => dir,
        None => joined(system_temp, "rsync-http".spec_bytes()),
    }
}

/// The directory that a store keeps its files in. `configured` is the value
/// of the setting that names it, `None` if it is not set; `system_temp` is
/// the system's directory for temporary files.
pub fn get_temporary_directory(configured: Option<Vec<u8>>, system_temp: &[u8]) -> (root: Vec<u8>)
    ensures
        root@ == store_root(view_of(configured), system_temp@),
{
    match configured {
        Some(dir) => dir,
        None => {
            let mut root: Vec<u8> = Vec::new();
            append_bytes(&mut root, system_temp);
            if system_temp.len() > 0 && system_temp[system_temp.len() - 1] != SEPARATOR {
                root.push(SEPARATOR);
            }
            append_bytes(&mut root, "rsync-http".as_bytes());
            assert(root@ =~= joined(system_temp@, "rsync-http".spec_bytes()));
            root
        },
    }
}

} // verus!
