//! The active registry and how it is replaced.
//!
//! A [`Coordinator`] owns the registry that is being served. A scrape takes a
//! snapshot of it once, before it runs any script, and works on that
//! snapshot to its end: a snapshot is a shared, immutable registry, which a
//! later swap cannot reach. A reload builds its candidate first and hands the
//! outcome to [`Coordinator::reload`]: a candidate that was built replaces
//! the active registry as a whole, and a build that failed leaves it as it
//! was.
//!
//! Whoever shares a coordinator among tasks holds it behind a lock that gives
//! out `&Coordinator` to many readers or `&mut Coordinator` to one writer.

use crate::descriptor::{header, malformed};
use crate::directory::{candidate, selected, sound, BuildDefect, FileModel, Loaded};
use crate::registry::{Registry, RegistryModel};
use std::sync::Arc;
use vstd::prelude::*;

verus! {

/// The owner of the active registry.
#[derive(Debug)]
pub struct Coordinator {
    active: Arc<Registry>,
}

impl View for Coordinator {
    type V = RegistryModel;

    /// The active registry.
    closed spec fn view(&self) -> RegistryModel {
        self.active@
    }
}

/// How a reload ended.
#[derive(Clone, Copy, Debug, PartialEq, Eq, Structural)]
pub enum ReloadOutcome {
    /// The candidate is now the active registry. `loaded` probe scripts went
    /// into it, of which `shadowed` are hidden behind a later script with the
    /// same label.
    Installed { loaded: usize, shadowed: usize },
    /// No candidate could be built, and the active registry is as it was.
    Rejected(BuildDefect),
}

/// The active registry after a reload: the candidate where one was built,
/// the registry that was active where none was.
pub open spec fn after_reload(
    active: RegistryModel,
    candidate: Option<RegistryModel>,
) -> RegistryModel {
    match candidate {
        Some(registry) => registry,
        None => active,
    }
}

/// The active registry after a series of reloads, the oldest first.
pub open spec fn active_after(
    initial: RegistryModel,
    reloads: Seq<Option<RegistryModel>>,
) -> RegistryModel
    decreases reloads.len(),
{
    if reloads.len() == 0 {
        initial
    } else {
        after_reload(active_after(initial, reloads.drop_last()), reloads.last())
    }
}

/// A second handle to the registry behind `registry`.
///
/// Trusted: `Arc::clone` of the standard library, which returns a pointer to
/// the same allocation and therefore to the same registry.
#[verifier::external_body]
fn share(registry: &Arc<Registry>) -> (r: Arc<Registry>)
    ensures
        r == *registry,
{
    Arc::clone(registry)
}

impl Coordinator {
    /// A coordinator that serves `initial`.
    pub fn new(initial: Registry) -> (r: Coordinator)
        ensures
            r@ == initial@,
    {
        Coordinator { active: Arc::new(initial) }
    }

    /// The registry that is active now, for one scrape to work on.
    pub fn current_snapshot(&self) -> (snapshot: Arc<Registry>)
        ensures
            snapshot@ == self@,
    {
        share(&self.active)
    }

    /// Makes `registry` the active registry.
    pub fn swap(&mut self, registry: Registry)
        ensures
            final(self)@ == registry@,
    {
        self.active = Arc::new(registry);
    }

    /// Ends a reload: installs the candidate that was built, or keeps the
    /// active registry where the build failed.
    pub fn reload(&mut self, candidate: Result<Loaded, BuildDefect>) -> (r: ReloadOutcome)
        ensures
            final(self)@ == after_reload(
                old(self)@,
                match candidate {
                    Ok(loaded) => Some(loaded.registry@),
                    Err(_) => None,
                },
            ),
            r == match candidate {
                Ok(loaded) => ReloadOutcome::Installed {
                    loaded: loaded.loaded,
                    shadowed: loaded.shadowed_count(),
                },
                Err(defect) => ReloadOutcome::Rejected(defect),
            },
    {
        match candidate {
            Ok(loaded) => {
                let outcome = ReloadOutcome::Installed {
                    loaded: loaded.loaded,
                    shadowed: loaded.shadowed(),
                };
                self.swap(loaded.registry);
                outcome
            },
            Err(defect) => ReloadOutcome::Rejected(defect),
        }
    }
}

/// Whatever reloads there have been, the active registry is as a whole the
/// initial one or the candidate of one of the reloads: never parts of two.
pub proof fn lemma_active_is_one_registry(
    initial: RegistryModel,
    reloads: Seq<Option<RegistryModel>>,
)
    ensures
        active_after(initial, reloads) == initial || exists|k: int|
            0 <= k < reloads.len() && #[trigger] reloads[k] == Some(active_after(initial, reloads)),
    decreases reloads.len(),
{
    if reloads.len() > 0 {
        let earlier = reloads.drop_last();
        lemma_active_is_one_registry(initial, earlier);
        if reloads.last() is Some {
            assert(reloads[reloads.len() - 1] == Some(active_after(initial, reloads)));
        } else if active_after(initial, earlier) != initial {
            let k = choose|k: int|
                0 <= k < earlier.len() && #[trigger] earlier[k] == Some(
                    active_after(initial, earlier),
                );
            assert(reloads[k] == earlier[k]);
        }
    }
}

/// A reload that fails changes nothing: the registry that was active before
/// it is the one that is active after it.
pub proof fn lemma_failed_reload_keeps_active(
    initial: RegistryModel,
    reloads: Seq<Option<RegistryModel>>,
)
    ensures
        active_after(initial, reloads.push(None)) == active_after(initial, reloads),
{
    assert(reloads.push(None).drop_last() == reloads);
}

/// A reload from a directory that holds a probe script with a malformed
/// descriptor is rejected: where line `line` that is read of the script at
/// place `i` is a null directive whose value is no floating-point literal,
/// the directory makes no candidate, and the registry that was active stays
/// active, entry for entry.
pub proof fn lemma_malformed_descriptor_rejects_reload(
    active: RegistryModel,
    prefix: Seq<char>,
    files: Seq<FileModel>,
    i: int,
    line: int,
)
    requires
        0 <= i < files.len(),
        selected(files[i].path),
        files[i].contents matches Some(text) && 0 <= line < header(text).len() && malformed(
            header(text)[line],
        ),
    ensures
        candidate(prefix, Some(files)) is None,
        after_reload(active, candidate(prefix, Some(files))) == active,
{
    assert(!sound(files[i]));
}

} // verus!
