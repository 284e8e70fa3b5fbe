//! The addresses of the application's views.

use crate::version::{same_text, VersionId};
use vstd::prelude::*;

verus! {

/// A view of the application and what it shows.
#[derive(Clone, Debug, PartialEq, Eq)]
pub enum Route {
    /// Search bar and overview.
    Home,
    /// About the application.
    About,
    /// Results of a search.
    Search { query: String },
    /// The files of one version.
    Browse { krate: String, version: VersionId },
    /// One file of one version.
    BrowseFile { krate: String, version: VersionId, path: String },
    /// The previous and the latest version of a package, compared.
    Crate { krate: String },
    /// The latest versions of two packages, compared.
    Crates { old_krate: String, new_krate: String },
    /// Two versions of a package, compared.
    SingleSourceDiff { krate: String, old_version: VersionId, new_version: VersionId },
    /// One file in two versions of a package.
    SingleSourceFile {
        krate: String,
        old_version: VersionId,
        new_version: VersionId,
        path: String,
    },
    /// One file in versions of two packages.
    File {
        old_krate: String,
        old_version: VersionId,
        new_krate: String,
        new_version: VersionId,
        path: String,
    },
    /// One file of a package in the repository it was published from.
    RepoFile { krate: String, version: VersionId, path: String },
    /// No view has this address.
    NotFound,
}

impl Route {
    /// The route written for one package where it names the same package
    /// twice; any other route as it is.
    pub open spec fn simplified(self) -> Route {
        match self {
            Route::File { old_krate, old_version, new_krate, new_version, path } => if old_krate@
                == new_krate@ {
                Route::SingleSourceFile { krate: old_krate, old_version, new_version, path }
            } else {
                self
            },
            Route::Crates { old_krate, new_krate } => if old_krate@ == new_krate@ {
                Route::Crate { krate: old_krate }
            } else {
                self
            },
            other => other,
        }
    }

    /// Writes a route that names one package twice as a route for one
    /// package.
    pub fn simplify(self) -> (route: Self)
        ensures
            route == self.simplified(),
    {
        match self {
            Route::File { old_krate, old_version, new_krate, new_version, path } => {
                if same_text(old_krate.as_str(), new_krate.as_str()) {
                    Route::SingleSourceFile { krate: old_krate, old_version, new_version, path }
                } else {
                    Route::File { old_krate, old_version, new_krate, new_version, path }
                }
            },
            Route::Crates { old_krate, new_krate } => {
                if same_text(old_krate.as_str(), new_krate.as_str()) {
                    Route::Crate { krate: old_krate }
                } else {
                    Route::Crates { old_krate, new_krate }
                }
            },
            other => other,
        }
    }
}

} // verus!
