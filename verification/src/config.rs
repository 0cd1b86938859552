//! The configuration document: load its raw bytes, decode the
//! authorized-device records, and later re-serialize them (in a caller-chosen
//! order) into new file text that differs only inside the target section.
//!
//! Reading the file, writing the backup and writing the patched text back
//! are the caller's task: the functions here are pure and take or return the
//! file's bytes.

use vstd::prelude::*;

pub use crate::vdf::Device;

verus! {

use crate::vdf::{
    locate_section, locate_section_at, find_label_at, has_label, section_records, patch_document,
    views_of, render_body, render_body_vec, sub_vec, push_bytes, DeviceView,
};
use vstd::string::StringExecFns;

/// What can go wrong while decoding or re-serializing a document.
#[derive(Debug)]
pub enum Error {
    /// The document holds no `"AuthorizedDevice"` label at all: the file
    /// genuinely lacks the feature this tool edits.
    SectionNotFound,
    /// The label is there but what follows it does not match the section
    /// grammar: the file is not in the expected shape.
    MalformedSection,
    /// At save time the section can no longer be located in the retained
    /// raw text, so writing would corrupt the file.
    PatchTargetNotFound,
    /// Reading or writing the file itself failed; raised by the I/O layer,
    /// never by the pure core.
    IOError,
}

/// A loaded configuration document: the file's path, its unmodified raw
/// bytes, and the decoded records.  `vdf` is the one part a consumer
/// mutates (reordering only); the raw bytes are kept verbatim as the
/// template for patching.
#[derive(Debug)]
pub struct Config {
    path: String,
    /// The decoded authorized-device records, in file order at load time.
    pub vdf: Vec<Device>,
    raw: Vec<u8>,
}

impl Config {
    /// The file path this document was loaded from.
    pub closed spec fn spec_path(&self) -> Seq<char> {
        self.path@
    }

    /// The raw bytes this document was loaded from, kept verbatim.
    pub closed spec fn spec_raw(&self) -> Seq<u8> {
        self.raw@
    }

    /// The mathematical records behind the document's current `vdf` vector.
    pub closed spec fn spec_records(&self) -> Seq<DeviceView> {
        views_of(self.vdf@)
    }

    /// The file path this document was loaded from, for the caller that
    /// writes the patched text back.
    pub fn path(&self) -> (r: &String)
        ensures
            r@ == self.spec_path(),
    {
        &self.path
    }

    /// Decodes the authorized-device section of `raw` and, on success,
    /// makes this document hold `config_path`, `raw` and the decoded
    /// records.  On failure the document is left untouched and the error
    /// says exactly why: `SectionNotFound` when the label is absent,
    /// `MalformedSection` when it is present but the section does not match
    /// the grammar.
    pub fn init(&mut self, config_path: String, raw: Vec<u8>) -> (r: Result<(), Error>)
        ensures
            (r is Ok <==> locate_section(raw@) is Some),
            match r {
                Ok(_) => {
                    &&& section_records(raw@) == Some(final (self).spec_records())
                    &&& final (self).spec_raw() == raw@
                    &&& final (self).spec_path() == config_path@
                },
                Err(e) => {
                    &&& *final (self) == *old(self)
                    &&& (e == Error::SectionNotFound <==> !has_label(raw@))
                    &&& (e == Error::MalformedSection <==> has_label(raw@) && locate_section(
                        raw@,
                    ) is None)
                },
            },
    {
        match locate_section_at(&raw) {
            Some((_b, _e, ds)) => {
                self.path = config_path;
                self.vdf = ds;
                self.raw = raw;
                Ok(())
            },
            None => match find_label_at(&raw) {
                Some(_) => Err(Error::MalformedSection),
                None => Err(Error::SectionNotFound),
            },
        }
    }

    /// New file text: everything outside the located section byte-identical
    /// to the retained raw text, the section body freshly rendered from the
    /// current records in their current order.  Pure: the caller owns
    /// writing the result to disk.  Fails with `PatchTargetNotFound` exactly
    /// when the section can no longer be located.
    pub fn patched_text(&self) -> (r: Result<Vec<u8>, Error>)
        ensures
            (r is Ok <==> locate_section(self.spec_raw()) is Some),
            match r {
                Ok(t) => patch_document(self.spec_raw(), self.spec_records()) == Some(t@),
                Err(e) => e == Error::PatchTargetNotFound,
            },
    {
        match locate_section_at(&self.raw) {
            None => Err(Error::PatchTargetNotFound),
            Some((b, e, _ds)) => {
                let mut out = sub_vec(&self.raw, 0, b);
                let body = render_body_vec(&self.vdf);
                push_bytes(&mut out, &body);
                let suffix = sub_vec(&self.raw, e, self.raw.len());
                push_bytes(&mut out, &suffix);
                proof {
                    assert(out@ =~= self.raw@.subrange(0, b as int) + render_body(
                        views_of(self.vdf@),
                    ) + self.raw@.subrange(e as int, self.raw@.len() as int));
                }
                Ok(out)
            },
        }
    }
}

/// An empty document, to be filled by `init`.
pub fn new() -> (c: Config)
    ensures
        c.spec_records().len() == 0,
        c.spec_raw().len() == 0,
        c.spec_path().len() == 0,
{
    Config { path: String::new(), vdf: Vec::new(), raw: Vec::new() }
}

/// The sibling path the pre-load backup is written to: the original path
/// with a fixed suffix appended.
pub fn backup_path(config_path: &str) -> (r: String)
    ensures
        r@ == config_path@ + ".backup"@,
{
    let mut p = config_path.to_owned();
    p.append(".backup");
    p
}

} // verus!
