//! The workspace: the members found under the root manifest's patterns.
//! Walking the file system and parsing member manifests happens outside;
//! the members arrive here as plain values.

use vstd::prelude::*;

use crate::errors::JmError;
use crate::package::{Package, PackageView, WorkspacePackage, WorkspacePackageView};
use crate::strutil::copy_str;

verus! {

/// Workspace members wrapped as graph packages.
pub open spec fn ws_packages(s: Seq<WorkspacePackageView>) -> Seq<PackageView> {
    s.map_values(|w: WorkspacePackageView| PackageView::Workspace(w))
}

/// The message given when no member matched the workspace patterns.
pub open spec fn empty_workspace_msg() -> Seq<char> {
    "No packages were found in workspace"@
}

#[derive(Debug)]
pub struct Workspace {
    pub workspace_packages: Vec<WorkspacePackage>,
}

impl Workspace {
    /// A workspace from its members; an empty member list is refused.
    pub fn new(workspace_packages: Vec<WorkspacePackage>) -> (r: Result<Workspace, JmError>)
        ensures
            match r {
                Ok(w) => workspace_packages@.len() > 0 && w.workspace_packages
                    == workspace_packages,
                Err(e) => workspace_packages@.len() == 0 && e@ == empty_workspace_msg(),
            },
    {
        if workspace_packages.len() == 0 {
            Err(JmError::new(copy_str("No packages were found in workspace")))
        } else {
            Ok(Workspace { workspace_packages })
        }
    }

    /// The members as graph packages, in discovery order.
    pub fn packages(&self) -> (r: Vec<Package>)
        ensures
            r.deep_view() == ws_packages(self.workspace_packages.deep_view()),
    {
        let mut out: Vec<Package> = Vec::new();
        let mut i: usize = 0;
        while i < self.workspace_packages.len()
            invariant
                i <= self.workspace_packages.len(),
                out.deep_view() == ws_packages(
                    self.workspace_packages.deep_view().subrange(0, i as int),
                ),
            decreases self.workspace_packages.len() - i,
        {
            let ghost old_out = out.deep_view();
            out.push(Package::WorkspacePackage(self.workspace_packages[i].clone()));
            proof {
                let lhs = out.deep_view();
                let rhs = ws_packages(
                    self.workspace_packages.deep_view().subrange(0, i + 1 as int),
                );
                assert(old_out.len() == i);
                assert(lhs.len() == i + 1);
                assert(rhs.len() == i + 1);
                assert forall|k: int| 0 <= k < i + 1 implies lhs[k] == rhs[k] by {
                    assert(lhs[k] == out@[k]@);
                    if k < i {
                        assert(lhs[k] == old_out[k]);
                        assert(old_out[k] == ws_packages(
                            self.workspace_packages.deep_view().subrange(0, i as int),
                        )[k]);
                    } else {
                        assert(self.workspace_packages.deep_view().subrange(0, i + 1 as int)[k]
                            == self.workspace_packages.deep_view()[i as int]);
                    }
                }
                assert(lhs =~= rhs);
            }
            i = i + 1;
        }
        proof {
            assert(self.workspace_packages.deep_view().subrange(
                0,
                self.workspace_packages@.len() as int,
            ) =~= self.workspace_packages.deep_view());
        }
        out
    }
}

} // verus!
