//! Index persistence: the segment store (an in-memory image of the segment
//! directory) and the lifecycle operations `open`, `set_indexed` and
//! `drop_index`.
//!
//! The store holds the JSON config file's content and one artifact per
//! indexed field. Config changes are written to the store before any
//! derived artifact, so a crash leaves at worst a rebuildable state. On
//! `open`, artifacts are verified against the payload snapshot by
//! rebuilding and comparing, and rewritten when they do not match: a
//! corrupt or stale artifact is treated as missing, and the artifact
//! bytes themselves are never decoded back into indexes, so every load
//! pays the rebuild and gains the check.

use vstd::prelude::*;

use crate::codec::{decode_config, encode_config, encode_field_indexes, spec_encode_config};
use crate::field_index::{build_variant, index_selector, FieldIndex};
use crate::payload_index::{
    config_lookup, indexes_lookup, ConfigEntry, IndexesEntry, IndexesMap, PayloadConfig,
    StructPayloadIndex,
};
use crate::types::{PayloadKeyType, PayloadSchemaType, PointStorage};

verus! {

/// Why a persistence operation failed.
#[derive(Debug)]
pub enum OperationError {
    /// The stored config could not be decoded.
    ServiceError(String),
}

pub type OperationResult<T> = Result<T, OperationError>;

/// One stored field artifact.
pub struct ArtifactEntry {
    pub key: PayloadKeyType,
    pub content: Vec<char>,
}

/// In-memory image of the segment directory: the config file's content,
/// if present, and the per-field index artifacts. The surrounding process
/// reads it from and writes it back to real files.
pub struct SegmentStore {
    pub config: Option<Vec<char>>,
    pub artifacts: Vec<ArtifactEntry>,
}

/// First artifact content for `key` among the entries, if any.
pub open spec fn artifact_lookup(entries: Seq<ArtifactEntry>, key: Seq<char>) -> Option<Seq<char>>
    decreases entries.len(),
{
    if entries.len() == 0 {
        None
    } else if entries[0].key@ == key {
        Some(entries[0].content@)
    } else {
        artifact_lookup(entries.drop_first(), key)
    }
}

impl SegmentStore {
    /// The stored artifact content for `key`, or `None`.
    pub open spec fn spec_artifact(self, key: Seq<char>) -> Option<Seq<char>> {
        artifact_lookup(self.artifacts@, key)
    }

    /// Unique artifact keys.
    pub open spec fn wf(self) -> bool {
        forall|i: int, j: int|
            0 <= i < j < self.artifacts@.len() ==> self.artifacts@[i].key@
                != self.artifacts@[j].key@
    }

    /// A fresh, empty directory image.
    pub fn new() -> (r: SegmentStore)
        ensures
            r.config is None,
            r.artifacts@.len() == 0,
            r.wf(),
            forall|key: Seq<char>| r.spec_artifact(key) is None,
    {
        SegmentStore { config: None, artifacts: Vec::new() }
    }

    /// Position of the artifact for `key`, if stored.
    fn find_artifact(&self, key: &PayloadKeyType) -> (r: Option<usize>)
        ensures
            match r {
                Some(i) => i < self.artifacts@.len() && self.artifacts@[i as int].key@ == key@,
                None => forall|i: int|
                    0 <= i < self.artifacts@.len() ==> (#[trigger] self.artifacts@[i]).key@
                        != key@,
            },
    {
        let mut i: usize = 0;
        while i < self.artifacts.len()
            invariant
                i <= self.artifacts@.len(),
                forall|j: int| 0 <= j < i ==> (#[trigger] self.artifacts@[j]).key@ != key@,
            decreases self.artifacts@.len() - i,
        {
            if self.artifacts[i].key == *key {
                return Some(i);
            }
            i += 1;
        }
        None
    }

    /// The stored artifact content for `key`, if any.
    pub fn get_artifact(&self, key: &PayloadKeyType) -> (r: Option<&Vec<char>>)
        ensures
            match r {
                Some(c) => self.spec_artifact(key@) == Some(c@),
                None => self.spec_artifact(key@) is None,
            },
    {
        proof {
            assert(self.artifacts@.skip(0) =~= self.artifacts@);
        }
        let mut i: usize = 0;
        while i < self.artifacts.len()
            invariant
                i <= self.artifacts@.len(),
                artifact_lookup(self.artifacts@, key@) == artifact_lookup(
                    self.artifacts@.skip(i as int),
                    key@,
                ),
            decreases self.artifacts@.len() - i,
        {
            proof {
                assert(self.artifacts@.skip(i as int).drop_first() =~= self.artifacts@.skip(
                    i as int + 1,
                ));
                assert(self.artifacts@.skip(i as int)[0] == self.artifacts@[i as int]);
            }
            if self.artifacts[i].key == *key {
                return Some(&self.artifacts[i].content);
            }
            i += 1;
        }
        None
    }

    /// Stores (or replaces) the artifact for `key`; every other artifact
    /// and the config file are untouched.
    pub fn put_artifact(&mut self, key: PayloadKeyType, content: Vec<char>)
        requires
            old(self).wf(),
        ensures
            final(self).wf(),
            final(self).config == old(self).config,
            final(self).spec_artifact(key@) == Some(content@),
            forall|k: Seq<char>|
                k != key@ ==> final(self).spec_artifact(k) == old(self).spec_artifact(k),
    {
        let ghost old_arts = self.artifacts@;
        let ghost keyv = key@;
        match self.find_artifact(&key) {
            Some(i) => {
                self.artifacts.set(i, ArtifactEntry { key, content });
                proof {
                    lemma_artifact_lookup_update(old_arts, i as int, self.artifacts@[i as int]);
                    assert forall|a: int, b: int|
                        0 <= a < b < self.artifacts@.len() implies self.artifacts@[a].key@
                        != self.artifacts@[b].key@ by {
                        if a != i && b != i {
                            assert(self.artifacts@[a] == old_arts[a]);
                            assert(self.artifacts@[b] == old_arts[b]);
                        } else if a == i {
                            assert(self.artifacts@[b] == old_arts[b]);
                            assert(old_arts[a].key@ == keyv);
                        } else {
                            assert(self.artifacts@[a] == old_arts[a]);
                            assert(old_arts[b].key@ == keyv);
                        }
                    }
                }
            },
            None => {
                self.artifacts.push(ArtifactEntry { key, content });
                proof {
                    lemma_artifact_lookup_push(old_arts, self.artifacts@.last(), keyv);
                    assert forall|k: Seq<char>|
                        k != keyv implies final(self).spec_artifact(k) == artifact_lookup(
                        old_arts,
                        k,
                    ) by {
                        lemma_artifact_lookup_push(old_arts, self.artifacts@.last(), k);
                    }
                    lemma_artifact_lookup_none(old_arts, keyv);
                    assert forall|a: int, b: int|
                        0 <= a < b < self.artifacts@.len() implies self.artifacts@[a].key@
                        != self.artifacts@[b].key@ by {
                        if b < self.artifacts@.len() - 1 {
                            assert(self.artifacts@[a] == old_arts[a]);
                            assert(self.artifacts@[b] == old_arts[b]);
                        } else {
                            assert(self.artifacts@[a] == old_arts[a]);
                        }
                    }
                }
            },
        }
    }

    /// Removes the artifact for `key`, if stored; every other artifact and
    /// the config file are untouched.
    pub fn remove_artifact(&mut self, key: &PayloadKeyType)
        requires
            old(self).wf(),
        ensures
            final(self).wf(),
            final(self).config == old(self).config,
            final(self).spec_artifact(key@) is None,
            forall|k: Seq<char>|
                k != key@ ==> final(self).spec_artifact(k) == old(self).spec_artifact(k),
    {
        let ghost old_arts = self.artifacts@;
        match self.find_artifact(key) {
            Some(i) => {
                self.artifacts.remove(i);
                proof {
                    assert forall|a: int, b: int|
                        0 <= a < b < self.artifacts@.len() implies self.artifacts@[a].key@
                        != self.artifacts@[b].key@ by {
                        let a2 = if a < i {
                            a
                        } else {
                            a + 1
                        };
                        let b2 = if b < i {
                            b
                        } else {
                            b + 1
                        };
                        assert(self.artifacts@[a] == old_arts[a2]);
                        assert(self.artifacts@[b] == old_arts[b2]);
                    }
                    assert forall|k: Seq<char>|
                        #[trigger] artifact_lookup(self.artifacts@, k) == (if old_arts[
                            i as int
                        ].key@ == k {
                            None::<Seq<char>>
                        } else {
                            artifact_lookup(old_arts, k)
                        }) by {
                        lemma_artifact_lookup_remove(old_arts, i as int, k);
                    }
                }
            },
            None => {
                proof {
                    lemma_artifact_lookup_none(old_arts, key@);
                }
            },
        }
    }
}

impl SegmentStore {
    /// Drops artifacts with repeated names, keeping one per key: brings a
    /// directory image read from unchecked storage into shape.
    pub fn dedup_artifacts(&mut self)
        ensures
            final(self).wf(),
            final(self).config == old(self).config,
    {
        let mut unique: Vec<ArtifactEntry> = Vec::new();
        loop
            invariant
                self.config == old(self).config,
                forall|i: int, j: int|
                    0 <= i < j < unique@.len() ==> unique@[i].key@ != unique@[j].key@,
            decreases self.artifacts@.len(),
        {
            match self.artifacts.pop() {
                None => {
                    break ;
                },
                Some(e) => {
                    let mut seen = false;
                    let mut j: usize = 0;
                    while j < unique.len()
                        invariant
                            j <= unique@.len(),
                            seen == exists|t: int| 0 <= t < j && unique@[t].key@ == e.key@,
                        decreases unique@.len() - j,
                    {
                        if unique[j].key == e.key {
                            seen = true;
                        }
                        j += 1;
                    }
                    if !seen {
                        unique.push(e);
                    }
                },
            }
        }
        self.artifacts = unique;
    }
}

/// Lookup after a push, for the artifact list.
proof fn lemma_artifact_lookup_push(entries: Seq<ArtifactEntry>, e: ArtifactEntry, key: Seq<char>)
    ensures
        artifact_lookup(entries.push(e), key) == (if artifact_lookup(entries, key) is Some {
            artifact_lookup(entries, key)
        } else if e.key@ == key {
            Some(e.content@)
        } else {
            None::<Seq<char>>
        }),
    decreases entries.len(),
{
    if entries.len() == 0 {
        assert(entries.push(e)[0] == e);
        assert(entries.push(e).drop_first() =~= Seq::<ArtifactEntry>::empty());
    } else {
        assert(entries.push(e)[0] == entries[0]);
        assert(entries.push(e).drop_first() =~= entries.drop_first().push(e));
        lemma_artifact_lookup_push(entries.drop_first(), e, key);
    }
}

/// An artifact key is absent exactly when no entry carries it.
proof fn lemma_artifact_lookup_none(entries: Seq<ArtifactEntry>, key: Seq<char>)
    ensures
        artifact_lookup(entries, key) is None <==> forall|i: int|
            0 <= i < entries.len() ==> (#[trigger] entries[i]).key@ != key,
    decreases entries.len(),
{
    if entries.len() == 0 {
    } else {
        lemma_artifact_lookup_none(entries.drop_first(), key);
        if entries[0].key@ != key && artifact_lookup(entries.drop_first(), key) is None {
            assert forall|i: int| 0 <= i < entries.len() implies (#[trigger] entries[i]).key@
                != key by {
                if i > 0 {
                    assert(entries.drop_first()[i - 1] == entries[i]);
                }
            }
        } else {
            if artifact_lookup(entries, key) is None {
                assert forall|i: int|
                    0 <= i < entries.drop_first().len() implies entries.drop_first()[i]
                    == entries[i + 1] by {}
            }
        }
    }
}

/// Lookup after removing the unique entry of a key, for the artifact list.
proof fn lemma_artifact_lookup_remove(entries: Seq<ArtifactEntry>, at: int, key: Seq<char>)
    requires
        0 <= at < entries.len(),
        forall|i: int, j: int|
            0 <= i < j < entries.len() ==> entries[i].key@ != entries[j].key@,
    ensures
        artifact_lookup(entries.remove(at), key) == (if entries[at].key@ == key {
            None::<Seq<char>>
        } else {
            artifact_lookup(entries, key)
        }),
    decreases entries.len(),
{
    if at == 0 {
        assert(entries.remove(0) =~= entries.drop_first());
        if entries[0].key@ == key {
            lemma_artifact_lookup_none(entries.drop_first(), key);
            assert forall|i: int| 0 <= i < entries.drop_first().len() implies (
            #[trigger] entries.drop_first()[i]).key@ != key by {
                assert(entries.drop_first()[i] == entries[i + 1]);
            }
        }
    } else {
        assert(entries.remove(at)[0] == entries[0]);
        assert(entries.remove(at).drop_first() =~= entries.drop_first().remove(at - 1));
        assert forall|i: int, j: int|
            0 <= i < j < entries.drop_first().len() implies entries.drop_first()[i].key@
            != entries.drop_first()[j].key@ by {
            assert(entries.drop_first()[i] == entries[i + 1]);
            assert(entries.drop_first()[j] == entries[j + 1]);
        }
        lemma_artifact_lookup_remove(entries.drop_first(), at - 1, key);
        assert(entries.drop_first()[at - 1] == entries[at]);
    }
}

/// Lookup after replacing the entry at a position with one of the same
/// key: that key answers the new content, every other as before.
proof fn lemma_artifact_lookup_update(entries: Seq<ArtifactEntry>, at: int, e: ArtifactEntry)
    requires
        0 <= at < entries.len(),
        e.key@ == entries[at].key@,
        forall|i: int, j: int|
            0 <= i < j < entries.len() ==> entries[i].key@ != entries[j].key@,
    ensures
        forall|key: Seq<char>|
            #[trigger] artifact_lookup(entries.update(at, e), key) == (if entries[at].key@
                == key {
                Some(e.content@)
            } else {
                artifact_lookup(entries, key)
            }),
    decreases entries.len(),
{
    assert forall|key: Seq<char>|
        #[trigger] artifact_lookup(entries.update(at, e), key) == (if entries[at].key@ == key {
            Some(e.content@)
        } else {
            artifact_lookup(entries, key)
        }) by {
        lemma_artifact_lookup_update_one(entries, at, e, key);
    }
}

/// One-key case of [`lemma_artifact_lookup_update`].
proof fn lemma_artifact_lookup_update_one(
    entries: Seq<ArtifactEntry>,
    at: int,
    e: ArtifactEntry,
    key: Seq<char>,
)
    requires
        0 <= at < entries.len(),
        e.key@ == entries[at].key@,
        forall|i: int, j: int|
            0 <= i < j < entries.len() ==> entries[i].key@ != entries[j].key@,
    ensures
        artifact_lookup(entries.update(at, e), key) == (if entries[at].key@ == key {
            Some(e.content@)
        } else {
            artifact_lookup(entries, key)
        }),
    decreases entries.len(),
{
    if at == 0 {
        assert(entries.update(0, e)[0] == e);
        assert(entries.update(0, e).drop_first() =~= entries.drop_first());
    } else {
        assert(entries.update(at, e)[0] == entries[0]);
        assert(entries.update(at, e).drop_first() =~= entries.drop_first().update(at - 1, e));
        assert forall|i: int, j: int|
            0 <= i < j < entries.drop_first().len() implies entries.drop_first()[i].key@
            != entries.drop_first()[j].key@ by {
            assert(entries.drop_first()[i] == entries[i + 1]);
            assert(entries.drop_first()[j] == entries[j + 1]);
        }
        assert(entries.drop_first()[at - 1] == entries[at]);
        lemma_artifact_lookup_update_one(entries.drop_first(), at - 1, e, key);
    }
}

/// Lookup after a push: an existing key wins; the new entry answers only
/// its own, previously absent key.
pub proof fn lemma_config_lookup_push(entries: Seq<ConfigEntry>, e: ConfigEntry, key: Seq<char>)
    ensures
        config_lookup(entries.push(e), key) == (if config_lookup(entries, key) is Some {
            config_lookup(entries, key)
        } else if e.key@ == key {
            Some(e.schema)
        } else {
            None::<PayloadSchemaType>
        }),
    decreases entries.len(),
{
    if entries.len() == 0 {
        assert(entries.push(e)[0] == e);
        assert(entries.push(e).drop_first() =~= Seq::<ConfigEntry>::empty());
    } else {
        assert(entries.push(e)[0] == entries[0]);
        assert(entries.push(e).drop_first() =~= entries.drop_first().push(e));
        lemma_config_lookup_push(entries.drop_first(), e, key);
    }
}

/// A key is absent exactly when no entry carries it.
pub proof fn lemma_config_lookup_none(entries: Seq<ConfigEntry>, key: Seq<char>)
    ensures
        config_lookup(entries, key) is None <==> forall|i: int|
            0 <= i < entries.len() ==> (#[trigger] entries[i]).key@ != key,
    decreases entries.len(),
{
    if entries.len() == 0 {
    } else {
        lemma_config_lookup_none(entries.drop_first(), key);
        assert forall|i: int|
            0 <= i < entries.drop_first().len() implies entries.drop_first()[i] == entries[i
            + 1] by {}
        if entries[0].key@ != key && config_lookup(entries.drop_first(), key) is None {
            assert forall|i: int| 0 <= i < entries.len() implies (#[trigger] entries[i]).key@
                != key by {
                if i > 0 {
                    assert(entries.drop_first()[i - 1] == entries[i]);
                }
            }
        }
    }
}

/// Lookup after removing the unique entry of a key: that key is gone,
/// every other is answered as before.
pub proof fn lemma_config_lookup_remove(entries: Seq<ConfigEntry>, at: int, key: Seq<char>)
    requires
        0 <= at < entries.len(),
        forall|i: int, j: int|
            0 <= i < j < entries.len() ==> entries[i].key@ != entries[j].key@,
    ensures
        config_lookup(entries.remove(at), key) == (if entries[at].key@ == key {
            None::<PayloadSchemaType>
        } else {
            config_lookup(entries, key)
        }),
    decreases entries.len(),
{
    if at == 0 {
        assert(entries.remove(0) =~= entries.drop_first());
        if entries[0].key@ == key {
            lemma_config_lookup_none(entries.drop_first(), key);
            assert forall|i: int| 0 <= i < entries.drop_first().len() implies (
            #[trigger] entries.drop_first()[i]).key@ != key by {
                assert(entries.drop_first()[i] == entries[i + 1]);
            }
        }
    } else {
        assert(entries.remove(at)[0] == entries[0]);
        assert(entries.remove(at).drop_first() =~= entries.drop_first().remove(at - 1));
        assert forall|i: int, j: int|
            0 <= i < j < entries.drop_first().len() implies entries.drop_first()[i].key@
            != entries.drop_first()[j].key@ by {
            assert(entries.drop_first()[i] == entries[i + 1]);
            assert(entries.drop_first()[j] == entries[j + 1]);
        }
        lemma_config_lookup_remove(entries.drop_first(), at - 1, key);
        assert(entries.drop_first()[at - 1] == entries[at]);
    }
}

/// Lookup after a push, for the index map.
pub proof fn lemma_indexes_lookup_push(entries: Seq<IndexesEntry>, e: IndexesEntry, key: Seq<char>)
    ensures
        indexes_lookup(entries.push(e), key) == (if indexes_lookup(entries, key) is Some {
            indexes_lookup(entries, key)
        } else if e.key@ == key {
            Some(e.indexes@)
        } else {
            None::<Seq<FieldIndex>>
        }),
    decreases entries.len(),
{
    if entries.len() == 0 {
        assert(entries.push(e)[0] == e);
        assert(entries.push(e).drop_first() =~= Seq::<IndexesEntry>::empty());
    } else {
        assert(entries.push(e)[0] == entries[0]);
        assert(entries.push(e).drop_first() =~= entries.drop_first().push(e));
        lemma_indexes_lookup_push(entries.drop_first(), e, key);
    }
}

/// A key is absent from the index map exactly when no entry carries it.
pub proof fn lemma_indexes_lookup_none(entries: Seq<IndexesEntry>, key: Seq<char>)
    ensures
        indexes_lookup(entries, key) is None <==> forall|i: int|
            0 <= i < entries.len() ==> (#[trigger] entries[i]).key@ != key,
    decreases entries.len(),
{
    if entries.len() == 0 {
    } else {
        lemma_indexes_lookup_none(entries.drop_first(), key);
        if entries[0].key@ != key && indexes_lookup(entries.drop_first(), key) is None {
            assert forall|i: int| 0 <= i < entries.len() implies (#[trigger] entries[i]).key@
                != key by {
                if i > 0 {
                    assert(entries.drop_first()[i - 1] == entries[i]);
                }
            }
        } else {
            if indexes_lookup(entries, key) is None {
                assert forall|i: int|
                    0 <= i < entries.drop_first().len() implies entries.drop_first()[i]
                    == entries[i + 1] by {}
            }
        }
    }
}

/// Lookup after removing the unique entry of a key, for the index map.
pub proof fn lemma_indexes_lookup_remove(entries: Seq<IndexesEntry>, at: int, key: Seq<char>)
    requires
        0 <= at < entries.len(),
        forall|i: int, j: int|
            0 <= i < j < entries.len() ==> entries[i].key@ != entries[j].key@,
    ensures
        indexes_lookup(entries.remove(at), key) == (if entries[at].key@ == key {
            None::<Seq<FieldIndex>>
        } else {
            indexes_lookup(entries, key)
        }),
    decreases entries.len(),
{
    if at == 0 {
        assert(entries.remove(0) =~= entries.drop_first());
        if entries[0].key@ == key {
            lemma_indexes_lookup_none(entries.drop_first(), key);
            assert forall|i: int| 0 <= i < entries.drop_first().len() implies (
            #[trigger] entries.drop_first()[i]).key@ != key by {
                assert(entries.drop_first()[i] == entries[i + 1]);
            }
        }
    } else {
        assert(entries.remove(at)[0] == entries[0]);
        assert(entries.remove(at).drop_first() =~= entries.drop_first().remove(at - 1));
        assert forall|i: int, j: int|
            0 <= i < j < entries.drop_first().len() implies entries.drop_first()[i].key@
            != entries.drop_first()[j].key@ by {
            assert(entries.drop_first()[i] == entries[i + 1]);
            assert(entries.drop_first()[j] == entries[j + 1]);
        }
        lemma_indexes_lookup_remove(entries.drop_first(), at - 1, key);
        assert(entries.drop_first()[at - 1] == entries[at]);
    }
}

/// Two association lists with the same keys in the same order answer
/// presence identically.
pub proof fn lemma_parallel_lookup(ie: Seq<IndexesEntry>, ce: Seq<ConfigEntry>, key: Seq<char>)
    requires
        ie.len() == ce.len(),
        forall|j: int| 0 <= j < ie.len() ==> (#[trigger] ie[j]).key@ == ce[j].key@,
    ensures
        indexes_lookup(ie, key) is Some <==> config_lookup(ce, key) is Some,
    decreases ie.len(),
{
    if ie.len() == 0 {
    } else {
        assert(ie[0].key@ == ce[0].key@);
        assert forall|j: int| 0 <= j < ie.drop_first().len() implies (
        #[trigger] ie.drop_first()[j]).key@ == ce.drop_first()[j].key@ by {
            assert(ie.drop_first()[j] == ie[j + 1]);
            assert(ce.drop_first()[j] == ce[j + 1]);
        }
        lemma_parallel_lookup(ie.drop_first(), ce.drop_first(), key);
    }
}

impl StructPayloadIndex {
    /// Builds all index variants for a field from the payload snapshot.
    pub fn build_field_index(&self, field: &PayloadKeyType, field_type: PayloadSchemaType) -> (r:
        Vec<FieldIndex>)
        requires
            self.storage.wf(),
        ensures
            r@.len() > 0,
            forall|j: int| 0 <= j < r@.len() ==> (#[trigger] r@[j]).wf(
                self.storage.points@,
                field@,
            ),
            crate::field_index::variants_for_schema(field_type, r@),
    {
        let kinds = index_selector(&field_type);
        let mut out: Vec<FieldIndex> = Vec::new();
        let mut i: usize = 0;
        while i < kinds.len()
            invariant
                self.storage.wf(),
                i <= kinds@.len(),
                out@.len() == i,
                forall|j: int| 0 <= j < i ==> (#[trigger] out@[j]).wf(
                    self.storage.points@,
                    field@,
                ),
                forall|j: int|
                    0 <= j < i ==> crate::field_index::kind_matches(
                        kinds@[j],
                        #[trigger] out@[j],
                    ),
            decreases kinds@.len() - i,
        {
            out.push(build_variant(&self.storage, field, kinds[i]));
            i += 1;
        }
        out
    }

    /// Rebuilds one field's indexes from the payload snapshot and brings
    /// the stored artifact up to date: a missing or non-matching artifact
    /// is treated as missing and rewritten.
    fn load_or_build_field_index(
        &mut self,
        field: &PayloadKeyType,
        payload_type: PayloadSchemaType,
    ) -> (r: Vec<FieldIndex>)
        requires
            old(self).storage.wf(),
            old(self).store.wf(),
        ensures
            final(self).storage == old(self).storage,
            final(self).config == old(self).config,
            final(self).field_indexes == old(self).field_indexes,
            final(self).store.config == old(self).store.config,
            final(self).store.wf(),
            final(self).store.spec_artifact(field@) is Some,
            forall|k: Seq<char>|
                k != field@ ==> final(self).store.spec_artifact(k)
                    == old(self).store.spec_artifact(k),
            r@.len() > 0,
            forall|j: int| 0 <= j < r@.len() ==> (#[trigger] r@[j]).wf(
                old(self).storage.points@,
                field@,
            ),
            crate::field_index::variants_for_schema(payload_type, r@),
    {
        let built = self.build_field_index(field, payload_type);
        let content = encode_field_indexes(&built);
        let up_to_date = match self.store.get_artifact(field) {
            Some(stored) => crate::codec::chars_eq(stored, &content),
            None => false,
        };
        if !up_to_date {
            self.store.put_artifact(field.clone(), content);
        }
        built
    }

    /// Loads (rebuilding as needed) the indexes of every configured field.
    fn load_all_fields(&mut self)
        requires
            old(self).storage.wf(),
            old(self).config.wf(),
            old(self).store.wf(),
            old(self).store.config matches Some(cc) && cc@ == spec_encode_config(
                old(self).config.indexed_fields@,
            ),
            old(self).field_indexes.entries@.len() == 0,
        ensures
            final(self).wf(),
            final(self).storage == old(self).storage,
            final(self).config == old(self).config,
            final(self).store.config == old(self).store.config,
            forall|k: Seq<char>|
                final(self).config.spec_get(k) is Some ==> final(self).store.spec_artifact(
                    k,
                ) is Some,
    {
        let ghost points = self.storage.points@;
        let n = self.config.indexed_fields.len();
        let mut i: usize = 0;
        while i < n
            invariant
                self.storage.wf(),
                self.config.wf(),
                self.storage == old(self).storage,
                self.config == old(self).config,
                self.store.config == old(self).store.config,
                points == self.storage.points@,
                n == self.config.indexed_fields@.len(),
                i <= n,
                self.store.wf(),
                self.field_indexes.entries@.len() == i,
                forall|j: int|
                    0 <= j < i ==> self.store.spec_artifact(
                        (#[trigger] self.config.indexed_fields@[j]).key@,
                    ) is Some,
                forall|j: int|
                    0 <= j < i ==> (#[trigger] self.field_indexes.entries@[j]).key@
                        == self.config.indexed_fields@[j].key@,
                forall|j: int|
                    0 <= j < i ==> (#[trigger] self.field_indexes.entries@[j]).indexes@.len() > 0,
                forall|j: int, t: int|
                    0 <= j < i && 0 <= t < self.field_indexes.entries@[j].indexes@.len() ==> (
                    #[trigger] self.field_indexes.entries@[j].indexes@[t]).wf(
                        points,
                        self.field_indexes.entries@[j].key@,
                    ),
            decreases n - i,
        {
            let field = self.config.indexed_fields[i].key.clone();
            let schema = self.config.indexed_fields[i].schema;
            let ghost pre_store = self.store;
            let built = self.load_or_build_field_index(&field, schema);
            self.field_indexes.entries.push(IndexesEntry { key: field, indexes: built });
            proof {
                assert forall|j: int|
                    0 <= j < i + 1 implies self.store.spec_artifact(
                        (#[trigger] self.config.indexed_fields@[j]).key@,
                    ) is Some by {
                    if j < i && self.config.indexed_fields@[j].key@
                        != self.config.indexed_fields@[i as int].key@ {
                        assert(self.store.spec_artifact(self.config.indexed_fields@[j].key@)
                            == pre_store.spec_artifact(self.config.indexed_fields@[j].key@));
                    }
                }
            }
            i += 1;
        }
        proof {
            assert forall|key: Seq<char>|
                #[trigger] self.field_indexes.spec_get(key) is Some <==> self.config.spec_get(
                    key,
                ) is Some by {
                lemma_parallel_lookup(
                    self.field_indexes.entries@,
                    self.config.indexed_fields@,
                    key,
                );
            }
            assert forall|k: Seq<char>|
                self.config.spec_get(k) is Some implies self.store.spec_artifact(
                    k,
                ) is Some by {
                lemma_config_lookup_none(self.config.indexed_fields@, k);
                let j = choose|j: int|
                    0 <= j < self.config.indexed_fields@.len() && (
                    #[trigger] self.config.indexed_fields@[j]).key@ == k;
                assert(self.store.spec_artifact(self.config.indexed_fields@[j].key@) is Some);
            }
        }
    }

    /// Opens a segment from its directory image: loads the config (or
    /// starts empty and persists that), then loads or rebuilds every
    /// configured field index. Fails only when a present config file does
    /// not decode.
    pub fn open(storage: PointStorage, store: SegmentStore) -> (r: Result<
        StructPayloadIndex,
        OperationError,
    >)
        requires
            storage.wf(),
        ensures
            match r {
                Ok(idx) => {
                    &&& idx.wf()
                    &&& idx.storage == storage
                    &&& match store.config {
                        None => idx.config.indexed_fields@.len() == 0,
                        Some(cc) => spec_encode_config(idx.config.indexed_fields@) == cc@,
                    }
                    &&& idx.store.config matches Some(cc2) && cc2@ == spec_encode_config(
                        idx.config.indexed_fields@,
                    )
                    &&& forall|k: Seq<char>|
                        idx.config.spec_get(k) is Some ==> idx.store.spec_artifact(k) is Some
                },
                Err(_) => store.config is Some,
            },
            store.config is None ==> r is Ok,
            (store.config matches Some(cc) && exists|es: Seq<ConfigEntry>|
                (forall|i: int, j: int| 0 <= i < j < es.len() ==> es[i].key@ != es[j].key@)
                    && cc@ == crate::codec::spec_encode_config(es)) ==> r is Ok,
    {
        let mut store = store;
        let config = match &store.config {
            None => {
                let c = PayloadConfig::new();
                store.config = Some(encode_config(&c));
                c
            },
            Some(cc) => {
                match decode_config(cc) {
                    Some(c) => c,
                    None => {
                        proof {
                            if exists|es: Seq<ConfigEntry>|
                                (forall|i: int, j: int|
                                    0 <= i < j < es.len() ==> es[i].key@ != es[j].key@)
                                    && cc@ == crate::codec::spec_encode_config(es) {
                                assert(false);
                            }
                        }
                        return Err(
                            OperationError::ServiceError(
                                "unable to decode payload config".to_string(),
                            ),
                        );
                    },
                }
            },
        };
        store.dedup_artifacts();
        let mut index = StructPayloadIndex {
            storage,
            config,
            field_indexes: IndexesMap::new(),
            store,
        };
        index.load_all_fields();
        Ok(index)
    }

    /// Snapshot of the persisted schema declarations.
    pub fn indexed_fields(&self) -> (r: Vec<ConfigEntry>)
        ensures
            r@.len() == self.config.indexed_fields@.len(),
            forall|i: int|
                0 <= i < r@.len() ==> (#[trigger] r@[i]).key@
                    == self.config.indexed_fields@[i].key@ && r@[i].schema
                    == self.config.indexed_fields@[i].schema,
    {
        let mut out: Vec<ConfigEntry> = Vec::new();
        let mut i: usize = 0;
        while i < self.config.indexed_fields.len()
            invariant
                i <= self.config.indexed_fields@.len(),
                out@.len() == i,
                forall|j: int|
                    0 <= j < i ==> (#[trigger] out@[j]).key@
                        == self.config.indexed_fields@[j].key@ && out@[j].schema
                        == self.config.indexed_fields@[j].schema,
            decreases self.config.indexed_fields@.len() - i,
        {
            out.push(
                ConfigEntry {
                    key: self.config.indexed_fields[i].key.clone(),
                    schema: self.config.indexed_fields[i].schema,
                },
            );
            i += 1;
        }
        out
    }

    /// Declares a field indexed: persists the config first, then builds
    /// and persists the field's indexes. Declaring an already-indexed
    /// field changes nothing.
    pub fn set_indexed(&mut self, field: &PayloadKeyType, payload_type: PayloadSchemaType) -> (r:
        OperationResult<()>)
        requires
            old(self).wf(),
        ensures
            r is Ok,
            final(self).wf(),
            final(self).storage == old(self).storage,
            old(self).config.spec_get(field@) is Some ==> *final(self) == *old(self),
            old(self).config.spec_get(field@) is None ==> {
                &&& final(self).config.spec_get(field@) == Some(payload_type)
                &&& forall|k: Seq<char>|
                    k != field@ ==> final(self).config.spec_get(k) == old(self).config.spec_get(k)
                &&& final(self).store.config matches Some(cc) && cc@ == spec_encode_config(
                    final(self).config.indexed_fields@,
                )
                &&& final(self).store.spec_artifact(field@) is Some
                &&& (final(self).field_indexes.spec_get(field@) matches Some(v)
                    && crate::field_index::variants_for_schema(payload_type, v))
            },
    {
        match self.config.find(field) {
            Some(_) => Ok(()),
            None => {
                let ghost old_config = self.config.indexed_fields@;
                let ghost old_map = self.field_indexes.entries@;
                proof {
                    lemma_config_lookup_none(old_config, field@);
                }
                let entry = ConfigEntry { key: field.clone(), schema: payload_type };
                self.config.indexed_fields.push(entry);
                self.store.config = Some(encode_config(&self.config));
                let built = self.load_or_build_field_index(field, payload_type);
                self.field_indexes.entries.push(
                    IndexesEntry { key: field.clone(), indexes: built },
                );
                proof {
                    let new_config = self.config.indexed_fields@;
                    let new_map = self.field_indexes.entries@;
                    assert forall|i: int, j: int|
                        0 <= i < j < new_config.len() implies new_config[i].key@
                        != new_config[j].key@ by {
                        if j == new_config.len() - 1 {
                            assert(new_config[i] == old_config[i]);
                        } else {
                            assert(new_config[i] == old_config[i]);
                            assert(new_config[j] == old_config[j]);
                        }
                    }
                    assert(old(self).field_indexes.wf(self.storage.points@));
                    assert forall|key: Seq<char>|
                        #[trigger] self.field_indexes.spec_get(key) is Some
                            <==> self.config.spec_get(key) is Some by {
                        lemma_indexes_lookup_push(old_map, new_map.last(), key);
                        lemma_config_lookup_push(old_config, new_config.last(), key);
                        lemma_parallel_lookup_presence(old(self), key);
                    }
                    assert forall|k: Seq<char>| k != field@ implies self.config.spec_get(k)
                        == old(self).config.spec_get(k) by {
                        lemma_config_lookup_push(old_config, new_config.last(), k);
                    }
                    lemma_config_lookup_push(old_config, new_config.last(), field@);
                    assert forall|i: int, j: int|
                        0 <= i < j < new_map.len() implies new_map[i].key@ != new_map[j].key@ by {
                        lemma_indexes_lookup_none_from_config(old(self), field@);
                        if j == new_map.len() - 1 {
                            assert(new_map[i] == old_map[i]);
                        } else {
                            assert(new_map[i] == old_map[i]);
                            assert(new_map[j] == old_map[j]);
                        }
                    }
                    assert forall|i: int, j: int|
                        0 <= i < new_map.len() && 0 <= j < new_map[i].indexes@.len() implies (
                    #[trigger] new_map[i].indexes@[j]).wf(
                        self.storage.points@,
                        new_map[i].key@,
                    ) by {
                        if i < new_map.len() - 1 {
                            assert(new_map[i] == old_map[i]);
                        }
                    }
                    lemma_indexes_lookup_push(old_map, new_map.last(), field@);
                    assert(old(self).field_indexes.spec_get(field@) is None);
                    assert(self.field_indexes.spec_get(field@) == Some(new_map.last().indexes@));
                }
                Ok(())
            },
        }
    }

    /// Removes a field's index declaration, its in-memory indexes, and its
    /// artifact; the config is persisted first. Dropping an absent key
    /// leaves the declarations and indexes unchanged.
    pub fn drop_index(&mut self, field: &PayloadKeyType) -> (r: OperationResult<()>)
        requires
            old(self).wf(),
        ensures
            r is Ok,
            final(self).wf(),
            final(self).storage == old(self).storage,
            final(self).config.spec_get(field@) is None,
            forall|k: Seq<char>|
                k != field@ ==> final(self).config.spec_get(k) == old(self).config.spec_get(k),
            final(self).store.config matches Some(cc) && cc@ == spec_encode_config(
                final(self).config.indexed_fields@,
            ),
            final(self).store.spec_artifact(field@) is None,
            forall|k: Seq<char>|
                k != field@ ==> final(self).store.spec_artifact(k)
                    == old(self).store.spec_artifact(k),
            old(self).config.spec_get(field@) is None ==> final(self).config == old(self).config
                && final(self).field_indexes == old(self).field_indexes
                && final(self).store.config == old(self).store.config,
    {
        match self.config.find(field) {
            None => {
                self.store.remove_artifact(field);
                Ok(())
            },
            Some(at) => {
                let ghost old_config = self.config.indexed_fields@;
                let ghost old_map = self.field_indexes.entries@;
                self.config.indexed_fields.remove(at);
                self.store.config = Some(encode_config(&self.config));
                match self.field_indexes.find_entry(field) {
                    Some(mat) => {
                        self.field_indexes.entries.remove(mat);
                        proof {
                            lemma_remove_keeps_unique_indexes(old_map, mat as int);
                        }
                    },
                    None => {
                        proof {
                            lemma_indexes_lookup_none(self.field_indexes.entries@, field@);
                        }
                    },
                }
                self.store.remove_artifact(field);
                proof {
                    let new_config = self.config.indexed_fields@;
                    let new_map = self.field_indexes.entries@;
                    lemma_remove_keeps_unique_config(old_config, at as int);
                    assert forall|k: Seq<char>| #[trigger]
                        self.config.spec_get(k) == (if old_config[at as int].key@ == k {
                            None::<PayloadSchemaType>
                        } else {
                            old(self).config.spec_get(k)
                        }) by {
                        lemma_config_lookup_remove(old_config, at as int, k);
                    }
                    lemma_indexes_map_after_drop(*old(self), *self, field@, at as int);
                }
                Ok(())
            },
        }
    }
}

/// Presence agreement of the two maps of a well-formed index, named so the
/// quantified invariant can be instantiated.
proof fn lemma_parallel_lookup_presence(idx: &StructPayloadIndex, key: Seq<char>)
    requires
        idx.wf(),
    ensures
        idx.field_indexes.spec_get(key) is Some <==> idx.config.spec_get(key) is Some,
{
}

/// A key the config lacks has no indexes either, elementwise.
proof fn lemma_indexes_lookup_none_from_config(idx: &StructPayloadIndex, key: Seq<char>)
    requires
        idx.wf(),
        idx.config.spec_get(key) is None,
    ensures
        forall|i: int|
            0 <= i < idx.field_indexes.entries@.len() ==> (
            #[trigger] idx.field_indexes.entries@[i]).key@ != key,
{
    assert(idx.field_indexes.spec_get(key) is None);
    lemma_indexes_lookup_none(idx.field_indexes.entries@, key);
}

/// Removal keeps config keys pairwise distinct.
proof fn lemma_remove_keeps_unique_config(entries: Seq<ConfigEntry>, at: int)
    requires
        0 <= at < entries.len(),
        forall|i: int, j: int|
            0 <= i < j < entries.len() ==> entries[i].key@ != entries[j].key@,
    ensures
        forall|i: int, j: int|
            0 <= i < j < entries.remove(at).len() ==> entries.remove(at)[i].key@ != entries.remove(
                at,
            )[j].key@,
{
    assert forall|i: int, j: int|
        0 <= i < j < entries.remove(at).len() implies entries.remove(at)[i].key@ != entries.remove(
        at,
    )[j].key@ by {
        let a = if i < at {
            i
        } else {
            i + 1
        };
        let b = if j < at {
            j
        } else {
            j + 1
        };
        assert(entries.remove(at)[i] == entries[a]);
        assert(entries.remove(at)[j] == entries[b]);
    }
}

/// Removal keeps index-map keys pairwise distinct.
proof fn lemma_remove_keeps_unique_indexes(entries: Seq<IndexesEntry>, at: int)
    requires
        0 <= at < entries.len(),
        forall|i: int, j: int|
            0 <= i < j < entries.len() ==> entries[i].key@ != entries[j].key@,
    ensures
        forall|i: int, j: int|
            0 <= i < j < entries.remove(at).len() ==> entries.remove(at)[i].key@ != entries.remove(
                at,
            )[j].key@,
{
    assert forall|i: int, j: int|
        0 <= i < j < entries.remove(at).len() implies entries.remove(at)[i].key@ != entries.remove(
        at,
    )[j].key@ by {
        let a = if i < at {
            i
        } else {
            i + 1
        };
        let b = if j < at {
            j
        } else {
            j + 1
        };
        assert(entries.remove(at)[i] == entries[a]);
        assert(entries.remove(at)[j] == entries[b]);
    }
}

/// After dropping a key from both maps, the index is well formed again and
/// the maps still agree.
proof fn lemma_indexes_map_after_drop(
    before: StructPayloadIndex,
    after: StructPayloadIndex,
    key: Seq<char>,
    at: int,
)
    requires
        before.wf(),
        after.storage == before.storage,
        after.config.wf(),
        0 <= at < before.config.indexed_fields@.len(),
        before.config.indexed_fields@[at].key@ == key,
        after.config.indexed_fields@ == before.config.indexed_fields@.remove(at),
        ({
            ||| after.field_indexes == before.field_indexes
                && before.field_indexes.spec_get(key) is None
            ||| exists|mat: int|
                0 <= mat < before.field_indexes.entries@.len()
                    && before.field_indexes.entries@[mat].key@ == key
                    && after.field_indexes.entries@ == before.field_indexes.entries@.remove(mat)
        }),
    ensures
        after.field_indexes.wf(after.storage.points@),
        forall|k: Seq<char>|
            #[trigger] after.field_indexes.spec_get(k) is Some <==> after.config.spec_get(
                k,
            ) is Some,
{
    let points = after.storage.points@;
    if after.field_indexes == before.field_indexes && before.field_indexes.spec_get(key) is None {
        // The disjunct contradicts well-formedness: the config holds the
        // key, so the index map must too.
        lemma_config_lookup_none(before.config.indexed_fields@, key);
        assert(before.config.spec_get(key) is Some);
        assert(before.field_indexes.spec_get(key) is Some);
        assert(false);
    } else {
        let mat = choose|mat: int|
            0 <= mat < before.field_indexes.entries@.len()
                && before.field_indexes.entries@[mat].key@ == key
                && after.field_indexes.entries@ == before.field_indexes.entries@.remove(mat);
        lemma_remove_keeps_unique_indexes(before.field_indexes.entries@, mat);
        assert forall|i: int, j: int|
            0 <= i < after.field_indexes.entries@.len() && 0 <= j
                < after.field_indexes.entries@[i].indexes@.len() implies (
        #[trigger] after.field_indexes.entries@[i].indexes@[j]).wf(
            points,
            after.field_indexes.entries@[i].key@,
        ) by {
            let a = if i < mat {
                i
            } else {
                i + 1
            };
            assert(after.field_indexes.entries@[i] == before.field_indexes.entries@[a]);
        }
        assert forall|i: int|
            0 <= i < after.field_indexes.entries@.len() implies (
        #[trigger] after.field_indexes.entries@[i]).indexes@.len() > 0 by {
            let a = if i < mat {
                i
            } else {
                i + 1
            };
            assert(after.field_indexes.entries@[i] == before.field_indexes.entries@[a]);
        }
        assert forall|k: Seq<char>|
            #[trigger] after.field_indexes.spec_get(k) is Some <==> after.config.spec_get(
                k,
            ) is Some by {
            lemma_config_lookup_remove(before.config.indexed_fields@, at, k);
            lemma_indexes_lookup_remove(before.field_indexes.entries@, mat, k);
            assert(before.field_indexes.spec_get(k) is Some <==> before.config.spec_get(
                k,
            ) is Some);
        }
    }
}

} // verus!
