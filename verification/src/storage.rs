use vstd::prelude::*;

use crate::catalogue::Catalogue;
use crate::list_item::ListItemV;
use crate::study_set::StudySet;
use crate::study_set::StudySetV;

verus! {

/// Why a store operation was refused. A refused operation leaves the store
/// unchanged.
#[derive(Clone, Copy, Debug, PartialEq, Eq, Structural)]
pub enum StorageError {
    /// The named set file does not exist.
    NotFound,
    /// The rename target already carries a set file.
    AlreadyExists,
}

/// One stored set file: the set's name as key, the full set as content.
struct FileEntry {
    name: String,
    set: StudySet,
}

/// Mathematical view of the store: the data directory as a map from file key
/// (set name) to set content, and the inventory file as the item sequence it
/// holds.
pub ghost struct StorageV {
    pub files: Map<Seq<char>, StudySetV>,
    pub inventory: Seq<ListItemV>,
}

/// The file map read off an entry sequence; a later entry with the same name
/// wins, but the store keeps names unique.
spec fn map_of(entries: Seq<FileEntry>) -> Map<Seq<char>, StudySetV>
    decreases entries.len(),
{
    if entries.len() == 0 {
        Map::empty()
    } else {
        map_of(entries.drop_last()).insert(entries.last().name@, entries.last().set@)
    }
}

spec fn names_distinct(entries: Seq<FileEntry>) -> bool {
    forall|p: int, q: int| 0 <= p < q < entries.len() ==> entries[p].name@ != entries[q].name@
}

proof fn lemma_map_of_contains(entries: Seq<FileEntry>, n: Seq<char>)
    ensures
        map_of(entries).contains_key(n) <==> exists|i: int|
            0 <= i < entries.len() && entries[i].name@ == n,
    decreases entries.len(),
{
    if entries.len() > 0 {
        lemma_map_of_contains(entries.drop_last(), n);
        if entries.last().name@ == n {
            assert(entries[entries.len() - 1].name@ == n);
        } else {
            if exists|i: int| 0 <= i < entries.len() && entries[i].name@ == n {
                let i = choose|i: int| 0 <= i < entries.len() && entries[i].name@ == n;
                if i < entries.len() - 1 {
                    assert(entries.drop_last()[i].name@ == n);
                }
            }
            if exists|i: int|
                0 <= i < entries.drop_last().len() && entries.drop_last()[i].name@ == n {
                let i = choose|i: int|
                    0 <= i < entries.drop_last().len() && entries.drop_last()[i].name@ == n;
                assert(entries[i].name@ == n);
            }
        }
    }
}

proof fn lemma_map_of_at(entries: Seq<FileEntry>, i: int)
    requires
        names_distinct(entries),
        0 <= i < entries.len(),
    ensures
        map_of(entries).contains_key(entries[i].name@),
        map_of(entries)[entries[i].name@] == entries[i].set@,
    decreases entries.len(),
{
    if i == entries.len() - 1 {
    } else {
        lemma_map_of_at(entries.drop_last(), i);
        assert(entries.drop_last()[i] == entries[i]);
        assert(entries[i].name@ != entries.last().name@);
    }
}

proof fn lemma_map_of_push(entries: Seq<FileEntry>, e: FileEntry)
    ensures
        map_of(entries.push(e)) == map_of(entries).insert(e.name@, e.set@),
{
    assert(entries.push(e).drop_last() =~= entries);
    assert(entries.push(e).last() == e);
}

proof fn lemma_map_of_remove(entries: Seq<FileEntry>, i: int)
    requires
        names_distinct(entries),
        0 <= i < entries.len(),
    ensures
        map_of(entries.remove(i)) == map_of(entries).remove(entries[i].name@),
    decreases entries.len(),
{
    let n = entries[i].name@;
    if i == entries.len() - 1 {
        assert(entries.remove(i) =~= entries.drop_last());
        lemma_map_of_contains(entries.drop_last(), n);
        assert(!map_of(entries.drop_last()).contains_key(n)) by {
            if exists|j: int|
                0 <= j < entries.drop_last().len() && entries.drop_last()[j].name@ == n {
                let j = choose|j: int|
                    0 <= j < entries.drop_last().len() && entries.drop_last()[j].name@ == n;
                assert(entries[j].name@ == entries[i].name@);
            }
        }
        assert(map_of(entries).remove(n) =~= map_of(entries.drop_last()));
    } else {
        lemma_map_of_remove(entries.drop_last(), i);
        assert(entries.drop_last()[i] == entries[i]);
        assert(entries.remove(i).drop_last() =~= entries.drop_last().remove(i));
        assert(entries.remove(i).last() == entries.last());
        assert(map_of(entries.remove(i)) == map_of(entries.drop_last().remove(i)).insert(
            entries.last().name@,
            entries.last().set@,
        ));
        assert(entries.last().name@ != n);
        assert(map_of(entries.drop_last()).remove(n).insert(entries.last().name@, entries.last().set@)
            =~= map_of(entries.drop_last()).insert(
            entries.last().name@,
            entries.last().set@,
        ).remove(n));
    }
}

/// The file store: an in-memory model of the data directory (one entry per
/// set file, keyed by set name) and of the single inventory file. All
/// operations are total: one that cannot be carried out returns a
/// `StorageError` and leaves the store unchanged.
pub struct Storage {
    sets: Vec<FileEntry>,
    inventory: Catalogue,
}

impl View for Storage {
    type V = StorageV;

    closed spec fn view(&self) -> StorageV {
        StorageV { files: map_of(self.sets@), inventory: self.inventory@ }
    }
}

impl Storage {
    #[verifier::type_invariant]
    spec fn wf(&self) -> bool {
        names_distinct(self.sets@)
    }

    /// A fresh store: no set files, an empty inventory.
    pub fn new() -> (r: Storage)
        ensures
            r@.files == Map::<Seq<char>, StudySetV>::empty(),
            r@.inventory == Seq::<ListItemV>::empty(),
    {
        let r = Storage { sets: Vec::new(), inventory: Catalogue::new() };
        r
    }

    /// Position of the entry named `name`, when there is one.
    fn find_entry(&self, name: &String) -> (r: Option<usize>)
        ensures
            match r {
                Some(i) => i < self.sets@.len() && self.sets@[i as int].name@ == name@
                    && self@.files.contains_key(name@),
                None => !self@.files.contains_key(name@),
            },
    {
        proof {
            lemma_map_of_contains(self.sets@, name@);
        }
        let mut i: usize = 0;
        while i < self.sets.len()
            invariant
                i <= self.sets@.len(),
                forall|j: int| 0 <= j < i ==> self.sets@[j].name@ != name@,
            decreases self.sets.len() - i,
        {
            if self.sets[i].name == *name {
                proof {
                    lemma_map_of_contains(self.sets@, name@);
                }
                return Some(i);
            }
            i = i + 1;
        }
        proof {
            lemma_map_of_contains(self.sets@, name@);
            if exists|j: int| 0 <= j < self.sets@.len() && self.sets@[j].name@ == name@ {
                let j = choose|j: int| 0 <= j < self.sets@.len() && self.sets@[j].name@ == name@;
                assert(self.sets@[j].name@ != name@);
            }
        }
        None
    }

    /// Whether a set file is stored under `name`.
    pub fn has_set_file(&self, name: &String) -> (r: bool)
        ensures
            r == self@.files.contains_key(name@),
    {
        proof {
            use_type_invariant(&*self);
        }
        match self.find_entry(name) {
            Some(_) => true,
            None => false,
        }
    }

    /// Write the file for `set`, creating it when absent and truncating it
    /// when present.
    pub fn create_set_file(&mut self, set: &StudySet)
        ensures
            final(self)@.files == old(self)@.files.insert(set@.name, set@),
            final(self)@.inventory == old(self)@.inventory,
    {
        proof {
            use_type_invariant(&*self);
        }
        let name = set.get_set_name();
        let found = self.find_entry(&name);
        let ghost entries_before = self.sets@;
        let mut sets: Vec<FileEntry> = Vec::new();
        core::mem::swap(&mut sets, &mut self.sets);
        match found {
            Some(i) => {
                proof {
                    lemma_map_of_remove(sets@, i as int);
                }
                sets.remove(i);
                proof {
                    assert(names_distinct(sets@));
                    assert(!(exists|j: int| 0 <= j < sets@.len() && sets@[j].name@ == name@)) by {
                        if exists|j: int| 0 <= j < sets@.len() && sets@[j].name@ == name@ {
                            let j = choose|j: int|
                                0 <= j < sets@.len() && sets@[j].name@ == name@;
                            if j < i {
                                assert(entries_before[j].name@ != entries_before[i as int].name@);
                            } else {
                                assert(entries_before[j + 1].name@
                                    != entries_before[i as int].name@);
                            }
                        }
                    }
                }
            },
            None => {},
        }
        proof {
            lemma_map_of_contains(sets@, name@);
        }
        let ghost before_push = sets@;
        let entry = FileEntry { name, set: set.clone() };
        sets.push(entry);
        proof {
            lemma_map_of_push(before_push, sets@.last());
            assert(names_distinct(sets@)) by {
                assert forall|p: int, q: int|
                    0 <= p < q < sets@.len() implies sets@[p].name@ != sets@[q].name@ by {
                    if q == sets@.len() - 1 {
                        assert(!map_of(before_push).contains_key(sets@[q].name@));
                        lemma_map_of_contains(before_push, sets@[q].name@);
                        assert(before_push[p].name@ == sets@[p].name@);
                    }
                }
            }
        }
        self.sets = sets;
        proof {
            assert(final(self)@.files =~= old(self)@.files.insert(set@.name, set@));
        }
    }

    /// Move the set file named `prev_set_name` to `new_set_name`. Fails with
    /// `NotFound` when the source is missing and with `AlreadyExists` when a
    /// different file already carries the target name; the store is then
    /// unchanged.
    pub fn rename_set_file(&mut self, prev_set_name: String, new_set_name: String) -> (r: Result<
        (),
        StorageError,
    >)
        ensures
            final(self)@.inventory == old(self)@.inventory,
            !old(self)@.files.contains_key(prev_set_name@) ==> r == Err::<(), StorageError>(
                StorageError::NotFound,
            ) && final(self)@ == old(self)@,
            old(self)@.files.contains_key(prev_set_name@) && old(self)@.files.contains_key(
                new_set_name@,
            ) && new_set_name@ != prev_set_name@ ==> r == Err::<(), StorageError>(
                StorageError::AlreadyExists,
            ) && final(self)@ == old(self)@,
            old(self)@.files.contains_key(prev_set_name@) && (new_set_name@ == prev_set_name@
                || !old(self)@.files.contains_key(new_set_name@)) ==> r == Ok::<(), StorageError>(
                (),
            ) && final(self)@.files == old(self)@.files.remove(prev_set_name@).insert(
                new_set_name@,
                old(self)@.files[prev_set_name@],
            ),
    {
        proof {
            use_type_invariant(&*self);
        }
        let i = match self.find_entry(&prev_set_name) {
            Some(i) => i,
            None => {
                return Err(StorageError::NotFound);
            },
        };
        if new_set_name != prev_set_name {
            match self.find_entry(&new_set_name) {
                Some(_) => {
                    return Err(StorageError::AlreadyExists);
                },
                None => {},
            }
        }
        let ghost entries_before = self.sets@;
        let mut sets: Vec<FileEntry> = Vec::new();
        core::mem::swap(&mut sets, &mut self.sets);
        proof {
            lemma_map_of_at(sets@, i as int);
            lemma_map_of_remove(sets@, i as int);
        }
        let entry = sets.remove(i);
        proof {
            assert(names_distinct(sets@));
            assert(!(exists|j: int| 0 <= j < sets@.len() && sets@[j].name@ == new_set_name@)) by {
                if exists|j: int| 0 <= j < sets@.len() && sets@[j].name@ == new_set_name@ {
                    let j = choose|j: int| 0 <= j < sets@.len() && sets@[j].name@ == new_set_name@;
                    if new_set_name@ == prev_set_name@ {
                        if j < i {
                            assert(entries_before[j].name@ != entries_before[i as int].name@);
                        } else {
                            assert(entries_before[j + 1].name@ != entries_before[i as int].name@);
                        }
                    } else {
                        if j < i {
                            assert(entries_before[j].name@ == new_set_name@);
                            lemma_map_of_at(entries_before, j);
                        } else {
                            assert(entries_before[j + 1].name@ == new_set_name@);
                            lemma_map_of_at(entries_before, j + 1);
                        }
                    }
                }
            }
            lemma_map_of_contains(sets@, new_set_name@);
        }
        let ghost before_push = sets@;
        let new_entry = FileEntry { name: new_set_name, set: entry.set };
        sets.push(new_entry);
        proof {
            lemma_map_of_push(before_push, sets@.last());
            assert(names_distinct(sets@)) by {
                assert forall|p: int, q: int|
                    0 <= p < q < sets@.len() implies sets@[p].name@ != sets@[q].name@ by {
                    if q == sets@.len() - 1 {
                        lemma_map_of_contains(before_push, sets@[q].name@);
                        assert(before_push[p].name@ == sets@[p].name@);
                    }
                }
            }
        }
        self.sets = sets;
        proof {
            assert(final(self)@.files =~= old(self)@.files.remove(prev_set_name@).insert(
                new_set_name@,
                old(self)@.files[prev_set_name@],
            ));
        }
        Ok(())
    }

    /// Overwrite the existing file for `set.name` with `set`'s full contents.
    /// Fails with `NotFound` when no such file exists; the store is then
    /// unchanged.
    pub fn update_set_file(&mut self, set: &StudySet) -> (r: Result<(), StorageError>)
        ensures
            final(self)@.inventory == old(self)@.inventory,
            !old(self)@.files.contains_key(set@.name) ==> r == Err::<(), StorageError>(
                StorageError::NotFound,
            ) && final(self)@ == old(self)@,
            old(self)@.files.contains_key(set@.name) ==> r == Ok::<(), StorageError>(())
                && final(self)@.files == old(self)@.files.insert(set@.name, set@),
    {
        proof {
            use_type_invariant(&*self);
        }
        let name = set.get_set_name();
        match self.find_entry(&name) {
            Some(_) => {
                self.create_set_file(set);
                Ok(())
            },
            None => Err(StorageError::NotFound),
        }
    }

    /// Remove the set file named `set_name`. Fails with `NotFound` when no
    /// such file exists; the store is then unchanged.
    pub fn delete_set_file(&mut self, set_name: String) -> (r: Result<(), StorageError>)
        ensures
            final(self)@.inventory == old(self)@.inventory,
            !old(self)@.files.contains_key(set_name@) ==> r == Err::<(), StorageError>(
                StorageError::NotFound,
            ) && final(self)@ == old(self)@,
            old(self)@.files.contains_key(set_name@) ==> r == Ok::<(), StorageError>(())
                && final(self)@.files == old(self)@.files.remove(set_name@),
    {
        proof {
            use_type_invariant(&*self);
        }
        match self.find_entry(&set_name) {
            Some(i) => {
                let mut sets: Vec<FileEntry> = Vec::new();
                core::mem::swap(&mut sets, &mut self.sets);
                proof {
                    lemma_map_of_remove(sets@, i as int);
                }
                sets.remove(i);
                proof {
                    assert(names_distinct(sets@));
                }
                self.sets = sets;
                Ok(())
            },
            None => Err(StorageError::NotFound),
        }
    }

    /// Read the full set stored under `file_name`. Fails with `NotFound` when
    /// no such file exists.
    pub fn read_set_file(&self, file_name: String) -> (r: Result<StudySet, StorageError>)
        ensures
            match r {
                Ok(s) => self@.files.contains_key(file_name@) && s@ == self@.files[file_name@],
                Err(e) => e == StorageError::NotFound && !self@.files.contains_key(file_name@),
            },
    {
        proof {
            use_type_invariant(&*self);
        }
        match self.find_entry(&file_name) {
            Some(i) => {
                proof {
                    lemma_map_of_at(self.sets@, i as int);
                }
                Ok(self.sets[i].set.clone())
            },
            None => Err(StorageError::NotFound),
        }
    }

    /// Read the catalogue held in the inventory file.
    pub fn read_inventory_file(&self) -> (r: Catalogue)
        ensures
            r@ == self@.inventory,
    {
        self.inventory.clone()
    }

    /// Overwrite the inventory file with `inventory`'s full contents.
    pub fn update_inventory(&mut self, inventory: Catalogue)
        ensures
            final(self)@.files == old(self)@.files,
            final(self)@.inventory == inventory@,
    {
        proof {
            use_type_invariant(&*self);
        }
        self.inventory = inventory;
    }

    /// Maintenance hook for the inventory; the inventory needs no
    /// compaction, so there is nothing to do.
    pub fn clean_up_inventory() {
    }
}

} // verus!
