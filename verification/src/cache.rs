//! Caches of what was fetched: the registry's answer per package, and the
//! file store per package version.
//!
//! A cache is an ordinary value that its owner creates, shares and guards.
//! Fetching is the owner's part: it asks the cache first, fetches on a miss,
//! and hands the outcome to [`CrateResponseCache::settle`] or
//! [`CrateSourceCache::settle`], which keep a success under the name or
//! version that was asked for and let a failure pass.  Two callers that miss
//! at the same time both fetch, and the later answer replaces the earlier
//! one.

use crate::archive::CrateSource;
use crate::registry::{CrateResponse, VersionInfo};
use crate::text_map::{lemma_insert_slot, lemma_replace_value, map_of, Slot, TextMap};
use std::sync::Arc;
use vstd::prelude::*;

verus! {

/// `Arc::clone`: one more handle on the same value.
#[verifier::external_body]
pub(crate) fn share<T>(handle: &Arc<T>) -> (shared: Arc<T>)
    ensures
        shared == *handle,
{
    Arc::clone(handle)
}

/// The registry's answers, by the name of the package.
#[derive(Debug)]
pub struct CrateResponseCache {
    pub entries: TextMap<Arc<CrateResponse>>,
}

impl View for CrateResponseCache {
    type V = Map<Seq<char>, Arc<CrateResponse>>;

    open spec fn view(&self) -> Map<Seq<char>, Arc<CrateResponse>> {
        self.entries@
    }
}

impl CrateResponseCache {
    /// The entries are sorted by name.
    pub open spec fn wf(self) -> bool {
        self.entries.wf()
    }

    /// What the cache holds for a package.
    pub open spec fn lookup(self, name: Seq<char>) -> Option<Arc<CrateResponse>> {
        if self@.dom().contains(name) {
            Some(self@[name])
        } else {
            None
        }
    }

    /// An empty cache.
    pub fn new() -> (cache: Self)
        ensures
            cache.wf(),
            cache@ == Map::<Seq<char>, Arc<CrateResponse>>::empty(),
    {
        CrateResponseCache { entries: TextMap::new() }
    }

    /// The answer that the cache holds for a package, if it holds one.
    pub fn cached(&self, name: &str) -> (hit: Option<Arc<CrateResponse>>)
        requires
            self.wf(),
        ensures
            hit == self.lookup(name@),
    {
        match self.entries.get(name) {
            Some(response) => Some(share(response)),
            None => None,
        }
    }

    /// Keeps an answer under the name that was asked for, in place of the
    /// one kept before, whatever name the answer itself carries.
    pub fn cache(&mut self, name: &str, response: Arc<CrateResponse>)
        requires
            old(self).wf(),
        ensures
            final(self).wf(),
            final(self)@ == old(self)@.insert(name@, response),
    {
        self.entries.insert(name.to_owned(), response);
    }

    /// Takes the outcome of the fetch for `name`: an answer is kept under
    /// that name and handed back shared, a failure is handed back and leaves
    /// the cache as it was.
    pub fn settle<E>(&mut self, name: &str, fetched: Result<CrateResponse, E>) -> (outcome:
        Result<Arc<CrateResponse>, E>)
        requires
            old(self).wf(),
        ensures
            final(self).wf(),
            match fetched {
                Ok(response) => outcome is Ok && *outcome->Ok_0 == response && final(self)@ == old(
                    self,
                )@.insert(name@, outcome->Ok_0),
                Err(error) => outcome == Err::<Arc<CrateResponse>, E>(error) && final(self)@ == old(
                    self,
                )@,
            },
    {
        match fetched {
            Ok(response) => {
                let response = Arc::new(response);
                self.cache(name, share(&response));
                Ok(response)
            },
            Err(error) => Err(error),
        }
    }

    /// After the answer to a request was kept, the same request is a hit and
    /// yields that answer: the second of two requests in a row needs no
    /// fetch.
    pub proof fn lemma_kept_answer_is_hit(
        before: Self,
        after: Self,
        name: Seq<char>,
        response: Arc<CrateResponse>,
    )
        requires
            after@ == before@.insert(name, response),
        ensures
            after.lookup(name) == Some(response),
    {
    }
}

/// The file stores, by the name of the package and the version number.
#[derive(Debug)]
pub struct CrateSourceCache {
    pub entries: TextMap<TextMap<Arc<CrateSource>>>,
}

/// The map from package and version that nested slots stand for.
pub open spec fn nested_map(slots: Seq<Slot<TextMap<Arc<CrateSource>>>>) -> Map<
    (Seq<char>, Seq<char>),
    Arc<CrateSource>,
> {
    Map::new(
        |key: (Seq<char>, Seq<char>)|
            map_of(slots).dom().contains(key.0) && map_of(slots)[key.0]@.dom().contains(key.1),
        |key: (Seq<char>, Seq<char>)| map_of(slots)[key.0]@[key.1],
    )
}

impl View for CrateSourceCache {
    type V = Map<(Seq<char>, Seq<char>), Arc<CrateSource>>;

    open spec fn view(&self) -> Map<(Seq<char>, Seq<char>), Arc<CrateSource>> {
        nested_map(self.entries.slots@)
    }
}

impl CrateSourceCache {
    /// The packages are sorted by name, and the versions of each by number;
    /// every file store that is kept is well-formed.
    pub open spec fn wf(self) -> bool {
        &&& self.entries.wf()
        &&& forall|i: int|
            #![trigger self.entries.slots@[i]]
            0 <= i < self.entries.slots@.len() ==> self.entries.slots@[i].value.wf()
        &&& forall|key: (Seq<char>, Seq<char>)| #[trigger]
            self@.dom().contains(key) ==> self@[key].wf()
    }

    /// Package and version number of a version, as one key.
    pub open spec fn key_of(version: VersionInfo) -> (Seq<char>, Seq<char>) {
        (version.krate@, version.version@)
    }

    /// What the cache holds for a version.
    pub open spec fn lookup(self, version: VersionInfo) -> Option<Arc<CrateSource>> {
        if self@.dom().contains(Self::key_of(version)) {
            Some(self@[Self::key_of(version)])
        } else {
            None
        }
    }

    /// An empty cache.
    pub fn new() -> (cache: Self)
        ensures
            cache.wf(),
            cache@ == Map::<(Seq<char>, Seq<char>), Arc<CrateSource>>::empty(),
    {
        let cache = CrateSourceCache { entries: TextMap::new() };
        cache
    }

    /// The file store that the cache holds for a version, if it holds one.
    pub fn cached(&self, version: &VersionInfo) -> (hit: Option<Arc<CrateSource>>)
        requires
            self.wf(),
        ensures
            hit == self.lookup(*version),
            hit matches Some(source) ==> source.wf(),
    {
        let (at, present) = self.entries.search(version.krate.as_str());
        if !present {
            return None;
        }
        match self.entries.slots[at].value.get(version.version.as_str()) {
            Some(source) => Some(share(source)),
            None => None,
        }
    }

    /// Keeps a file store under the package and version that were asked
    /// for, in place of the one kept before.
    pub fn cache(&mut self, version: &VersionInfo, source: Arc<CrateSource>)
        requires
            old(self).wf(),
            source.wf(),
        ensures
            final(self).wf(),
            final(self)@ == old(self)@.insert(Self::key_of(*version), source),
    {
        let (at, present) = self.entries.search(version.krate.as_str());
        let ghost kept = self@;
        let ghost before = self.entries.slots@;
        let ghost key = (version.krate@, version.version@);
        if !present {
            let added = Slot { key: version.krate.clone(), value: TextMap::new() };
            self.entries.slots.insert(at, added);
            proof {
                lemma_insert_slot(before, at as int, self.entries.slots@[at as int]);
            }
        }
        let ghost ready = self.entries.slots@;
        let number = version.version.clone();
        self.entries.slots[at].value.insert(number, source);
        proof {
            let after = self.entries.slots@;
            lemma_replace_value(ready, at as int, after[at as int]);
            assert(self@ == kept.insert(key, source));
            assert forall|other: (Seq<char>, Seq<char>)| #[trigger]
                self@.dom().contains(other) implies self@[other].wf() by {
                if other != key {
                    assert(kept.dom().contains(other));
                }
            }
        }
    }

    /// Takes the outcome of the fetch for `version`: a file store is kept
    /// under that package and version and handed back shared, a failure is
    /// handed back and leaves the cache as it was.
    pub fn settle<E>(&mut self, version: &VersionInfo, fetched: Result<CrateSource, E>) -> (outcome:
        Result<Arc<CrateSource>, E>)
        requires
            old(self).wf(),
            fetched matches Ok(source) ==> source.wf(),
        ensures
            final(self).wf(),
            match fetched {
                Ok(source) => outcome is Ok && *outcome->Ok_0 == source && final(self)@ == old(
                    self,
                )@.insert(Self::key_of(*version), outcome->Ok_0),
                Err(error) => outcome == Err::<Arc<CrateSource>, E>(error) && final(self)@ == old(
                    self,
                )@,
            },
    {
        match fetched {
            Ok(source) => {
                let source = Arc::new(source);
                self.cache(version, share(&source));
                Ok(source)
            },
            Err(error) => Err(error),
        }
    }

    /// After the file store for a request was kept, the same request is a
    /// hit and yields that store: the second of two requests in a row needs
    /// no fetch.
    pub proof fn lemma_kept_store_is_hit(
        before: Self,
        after: Self,
        version: VersionInfo,
        source: Arc<CrateSource>,
    )
        requires
            after@ == before@.insert(Self::key_of(version), source),
        ensures
            after.lookup(version) == Some(source),
    {
    }
}

} // verus!
