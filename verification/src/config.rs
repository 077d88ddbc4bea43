//! Where configuration for a domain lives under a root: vendor defaults in
//! `usr/share/moss`, administrator settings in `etc/moss`.

use vstd::prelude::*;

use crate::path::{join, join_path};

verus! {

/// The extension of configuration files.
pub const EXTENSION: &'static str = "conf";

/// Where a configuration comes from.
#[derive(Debug, Clone, Copy, PartialEq, Eq, Structural)]
pub enum Base {
    /// Settings of the administrator
    Admin,
    /// Defaults of the vendor
    Vendor,
}

/// The directory of a base, relative to the root.
pub open spec fn base_path(b: Base) -> Seq<char> {
    match b {
        Base::Admin => "etc"@,
        Base::Vendor => "usr/share"@,
    }
}

impl Base {
    /// The directory of this base, relative to the root.
    pub fn path(&self) -> (r: &'static str)
        ensures
            r@ == base_path(*self),
    {
        match self {
            Base::Admin => "etc",
            Base::Vendor => "usr/share",
        }
    }
}

/// `root/<base>/moss`.
pub open spec fn moss_config_dir(root: Seq<char>, base: Base) -> Seq<char> {
    join_path(join_path(root, base_path(base)), "moss"@)
}

fn config_dir(root: &str, base: Base) -> (r: String)
    ensures
        r@ == moss_config_dir(root@, base),
{
    let b = join(root, base.path());
    join(b.as_str(), "moss")
}

/// The configuration file of `domain`: `root/<base>/moss/<domain>.conf`.
pub fn domain_file(root: &str, base: Base, domain: &str) -> (r: String)
    ensures
        r@ == join_path(moss_config_dir(root@, base), domain@ + seq!['.'] + "conf"@),
{
    let dir = config_dir(root, base);
    let mut name = String::from_str(domain);
    crate::text::push_char(&mut name, '.');
    name.append(EXTENSION);
    join(dir.as_str(), name.as_str())
}

/// The configuration directory of `domain`:
/// `root/<base>/moss/<domain>.conf.d`.
pub fn domain_dir(root: &str, base: Base, domain: &str) -> (r: String)
    ensures
        r@ == join_path(moss_config_dir(root@, base), domain@ + seq!['.'] + "conf"@ + seq!['.', 'd']),
{
    let dir = config_dir(root, base);
    let mut name = String::from_str(domain);
    crate::text::push_char(&mut name, '.');
    name.append(EXTENSION);
    crate::text::push_char(&mut name, '.');
    crate::text::push_char(&mut name, 'd');
    join(dir.as_str(), name.as_str())
}

} // verus!
