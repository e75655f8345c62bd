//! Package identity and raw input records.

use vstd::prelude::*;

verus! {

/// The mathematical value of a [`PackageId`]: the pair of character
/// sequences that identifies a resolved package instance.
#[verifier::ext_equal]
pub struct PkgView {
    pub name: Seq<char>,
    pub version: Seq<char>,
}

/// The unique identity of a resolved package instance: its name together
/// with its version. Two ids are the same exactly when both fields agree.
pub struct PackageId {
    pub name: String,
    pub version: String,
}

impl View for PackageId {
    type V = PkgView;

    open spec fn view(&self) -> PkgView {
        PkgView { name: self.name@, version: self.version@ }
    }
}

impl PackageId {
    /// Builds an id from its two fields.
    pub fn new(name: String, version: String) -> (r: PackageId)
        ensures
            r@ == (PkgView { name: name@, version: version@ }),
    {
        PackageId { name, version }
    }

    /// Structural equality on both fields.
    pub fn same(&self, other: &PackageId) -> (r: bool)
        ensures
            r == (self@ == other@),
    {
        let r = self.name == other.name && self.version == other.version;
        proof {
            if r {
                assert(self@ =~= other@);
            }
        }
        r
    }

    /// A fresh id with the same value.
    pub fn duplicate(&self) -> (r: PackageId)
        ensures
            r@ == self@,
    {
        PackageId { name: self.name.clone(), version: self.version.clone() }
    }
}

/// The mathematical value of a [`PackageRecord`].
#[verifier::ext_equal]
pub struct RecordView {
    pub name: Option<Seq<char>>,
    pub version: Option<Seq<char>>,
    pub dependencies: Option<Seq<Seq<char>>>,
}

/// One package entry of the input document, with every field optional: a
/// record missing any field contributes nothing to the graph.
pub struct PackageRecord {
    pub name: Option<String>,
    pub version: Option<String>,
    pub dependencies: Option<Vec<String>>,
}

impl View for PackageRecord {
    type V = RecordView;

    open spec fn view(&self) -> RecordView {
        RecordView {
            name: match self.name {
                Some(s) => Some(s@),
                None => None,
            },
            version: match self.version {
                Some(s) => Some(s@),
                None => None,
            },
            dependencies: match self.dependencies {
                Some(ds) => Some(ds@.map_values(|d: String| d@)),
                None => None,
            },
        }
    }
}

/// The views of a sequence of package ids.
pub open spec fn pids_view(s: Seq<PackageId>) -> Seq<PkgView> {
    s.map_values(|p: PackageId| p@)
}

} // verus!
