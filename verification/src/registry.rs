//! The registry: the collectors that are served, each under its label.
//!
//! A registry keeps its entries in the order in which their labels were
//! first registered, and no label twice. Registering under a label that is
//! taken replaces the entry in its place: the later registrant shadows the
//! earlier one, and [`Registry::register`] says so, for the caller to judge.

use crate::descriptor::MetricType;
use crate::scripts::ScraperScript;
use crate::text::same_text;
use vstd::prelude::*;

verus! {

/// A collector with the label and help text it is served under.
#[derive(Clone, Debug, PartialEq, Eq)]
pub struct Entry {
    pub label: String,
    pub description: String,
    pub collector: ScraperScript,
}

/// An entry as plain values.
pub struct EntryModel {
    pub label: Seq<char>,
    pub description: Seq<char>,
    pub script: Seq<char>,
    pub metric_type: MetricType,
    pub fallback: Seq<char>,
}

impl View for Entry {
    type V = EntryModel;

    open spec fn view(&self) -> EntryModel {
        EntryModel {
            label: self.label@,
            description: self.description@,
            script: self.collector.script@,
            metric_type: self.collector.metric_type,
            fallback: self.collector.failure_value@,
        }
    }
}

/// Entry `i` of `entries` goes by `label`.
pub open spec fn named_at(entries: Seq<EntryModel>, label: Seq<char>, i: int) -> bool {
    0 <= i < entries.len() && entries[i].label == label
}

/// Some entry goes by `label`.
pub open spec fn holds(entries: Seq<EntryModel>, label: Seq<char>) -> bool {
    exists|i: int| named_at(entries, label, i)
}

/// The place of an entry that goes by `label`.
pub open spec fn place_of(entries: Seq<EntryModel>, label: Seq<char>) -> int {
    choose|i: int| named_at(entries, label, i)
}

/// The entry that goes by `label`.
pub open spec fn found(entries: Seq<EntryModel>, label: Seq<char>) -> Option<EntryModel> {
    if holds(entries, label) {
        Some(entries[place_of(entries, label)])
    } else {
        None
    }
}

/// No two entries go by one label.
pub open spec fn distinct_labels(entries: Seq<EntryModel>) -> bool {
    forall|i: int, j: int|
        0 <= i < j < entries.len() ==> (#[trigger] entries[i]).label != (
        #[trigger] entries[j]).label
}

/// The entries once `entry` is registered: in the place of the entry that
/// goes by its label, or behind all others where no entry does.
pub open spec fn registered(entries: Seq<EntryModel>, entry: EntryModel) -> Seq<EntryModel> {
    if holds(entries, entry.label) {
        entries.update(place_of(entries, entry.label), entry)
    } else {
        entries.push(entry)
    }
}

/// Registering keeps labels apart.
pub proof fn lemma_registered_distinct(entries: Seq<EntryModel>, entry: EntryModel)
    requires
        distinct_labels(entries),
    ensures
        distinct_labels(registered(entries, entry)),
        registered(entries, entry).len() == entries.len() + if holds(entries, entry.label) {
            0int
        } else {
            1int
        },
{
    let after = registered(entries, entry);
    if holds(entries, entry.label) {
        let p = place_of(entries, entry.label);
        assert(named_at(entries, entry.label, p));
        assert forall|i: int, j: int| 0 <= i < j < after.len() implies (#[trigger] after[i]).label
            != (#[trigger] after[j]).label by {
            assert(after[i].label == entries[i].label);
            assert(after[j].label == entries[j].label);
        }
    } else {
        assert forall|i: int, j: int| 0 <= i < j < after.len() implies (#[trigger] after[i]).label
            != (#[trigger] after[j]).label by {
            if j == entries.len() {
                assert(!named_at(entries, entry.label, i));
            } else {
                assert(after[i] == entries[i]);
                assert(after[j] == entries[j]);
            }
        }
    }
}

/// After registering, the label of the new entry finds the new entry, and
/// every other label finds what it found before.
pub proof fn lemma_registered_found(entries: Seq<EntryModel>, entry: EntryModel, label: Seq<char>)
    requires
        distinct_labels(entries),
    ensures
        found(registered(entries, entry), label) == if label == entry.label {
            Some(entry)
        } else {
            found(entries, label)
        },
{
    let after = registered(entries, entry);
    lemma_registered_distinct(entries, entry);
    let at = if holds(entries, entry.label) {
        place_of(entries, entry.label)
    } else {
        entries.len() as int
    };
    if holds(entries, entry.label) {
        assert(named_at(entries, entry.label, at));
    }
    assert(named_at(after, entry.label, at));
    assert(after[at] == entry);
    assert forall|i: int| 0 <= i < after.len() && i != at implies after[i] == entries[i] by {}
    if label == entry.label {
        let p = place_of(after, label);
        assert(named_at(after, label, p));
        if p != at {
            if p < at {
                assert(after[p].label != after[at].label);
            } else {
                assert(after[at].label != after[p].label);
            }
        }
    } else {
        if holds(entries, label) {
            let q = place_of(entries, label);
            assert(named_at(entries, label, q));
            assert(named_at(after, label, q));
            let p = place_of(after, label);
            assert(named_at(after, label, p));
            if p != q {
                if p < q {
                    assert(after[p].label != after[q].label);
                } else {
                    assert(after[q].label != after[p].label);
                }
            }
        } else {
            if holds(after, label) {
                let p = place_of(after, label);
                assert(named_at(after, label, p));
                assert(named_at(entries, label, p));
            }
        }
    }
}

/// The collectors that are served, each under its label, and the prefix
/// that all their names share.
#[derive(Debug, PartialEq, Eq)]
pub struct Registry {
    prefix: String,
    entries: Vec<Entry>,
}

/// A registry as plain values.
pub struct RegistryModel {
    pub prefix: Seq<char>,
    pub entries: Seq<EntryModel>,
}

impl View for Registry {
    type V = RegistryModel;

    closed spec fn view(&self) -> RegistryModel {
        RegistryModel {
            prefix: self.prefix@,
            entries: self.entries@.map_values(|entry: Entry| entry@),
        }
    }
}

impl Registry {
    #[verifier::type_invariant]
    spec fn labels_apart(self) -> bool {
        distinct_labels(self@.entries)
    }

    /// An empty registry for metrics named with `prefix`.
    pub fn with_prefix(prefix: String) -> (r: Registry)
        ensures
            r@ == (RegistryModel { prefix: prefix@, entries: Seq::empty() }),
    {
        let r = Registry { prefix, entries: Vec::new() };
        assert(r@.entries =~= Seq::empty());
        r
    }

    /// The prefix that the names of all metrics share.
    pub fn prefix(&self) -> (r: &str)
        ensures
            r@ == self@.prefix,
    {
        self.prefix.as_str()
    }

    /// The number of entries. No two of them go by one label.
    pub fn len(&self) -> (n: usize)
        ensures
            n == self@.entries.len(),
            distinct_labels(self@.entries),
    {
        proof {
            use_type_invariant(self);
        }
        self.entries.len()
    }

    /// Entry `i`, counted from 0 in the order of registration.
    pub fn entry(&self, i: usize) -> (r: &Entry)
        requires
            i < self@.entries.len(),
        ensures
            r@ == self@.entries[i as int],
    {
        &self.entries[i]
    }

    /// The place of the entry that goes by `label`.
    pub fn find(&self, label: &str) -> (r: Option<usize>)
        ensures
            match r {
                Some(i) => named_at(self@.entries, label@, i as int),
                None => !holds(self@.entries, label@),
            },
    {
        let mut i: usize = 0;
        while i < self.entries.len()
            invariant
                i <= self.entries@.len(),
                forall|k: int| 0 <= k < i ==> !named_at(self@.entries, label@, k),
            decreases self.entries@.len() - i,
        {
            if same_text(self.entries[i].label.as_str(), label) {
                return Some(i);
            }
            i += 1;
        }
        None
    }

    /// Registers `collector` under `label`, with `description` as its help
    /// text. Says whether an entry that went by `label` was shadowed.
    pub fn register(
        &mut self,
        label: String,
        description: String,
        collector: ScraperScript,
    ) -> (shadowed: bool)
        ensures
            final(self)@.prefix == old(self)@.prefix,
            final(self)@.entries == registered(
                old(self)@.entries,
                (Entry { label, description, collector })@,
            ),
            shadowed == holds(old(self)@.entries, label@),
    {
        proof {
            use_type_invariant(&*self);
        }
        let place = self.find(label.as_str());
        let entry = Entry { label, description, collector };
        let ghost before = self@.entries;
        let mut entries: Vec<Entry> = Vec::new();
        core::mem::swap(&mut self.entries, &mut entries);
        proof {
            lemma_registered_distinct(before, entry@);
            assert(entries@.map_values(|e: Entry| e@) == before);
        }
        let shadowed = match place {
            Some(i) => {
                proof {
                    let p = place_of(before, entry@.label);
                    assert(named_at(before, entry@.label, p));
                    if p != i {
                        if p < i {
                            assert(before[p].label != before[i as int].label);
                        } else {
                            assert(before[i as int].label != before[p].label);
                        }
                    }
                    assert(entries@.update(i as int, entry).map_values(|e: Entry| e@)
                        =~= before.update(i as int, entry@));
                }
                entries.set(i, entry);
                true
            },
            None => {
                proof {
                    assert(entries@.push(entry).map_values(|e: Entry| e@) =~= before.push(entry@));
                }
                entries.push(entry);
                false
            },
        };
        self.entries = entries;
        shadowed
    }
}

} // verus!
