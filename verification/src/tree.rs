//! The directory tree: a recursive node structure of directories (a mapping
//! from child names to entries) and files (a placeholder payload plus
//! metadata). A directory's members are held as an association list with
//! unique, separator-free names; its view is the corresponding map.

use vstd::prelude::*;
use crate::paths::sep;

verus! {

/// The error kinds that every namespace operation can report.
#[derive(Clone, Copy, Debug, PartialEq, Eq, Structural)]
pub enum FsError {
    /// A named segment was absent from the directory it was looked up in.
    NotFound,
    /// A walk tried to descend through a file.
    NotADirectory,
    /// The target name of `mkdir` is already occupied.
    AlreadyExists,
    /// An unresolved `.` or `..` reached the tree walk.
    InvalidPath,
    /// The resolved leaf name of `mkdir` is empty.
    EmptyName,
}

/// Per-entry metadata: modification time, permission bits, the sticky,
/// setgid and setuid flags, and the owning user and group ids.
#[derive(Clone, Copy, Debug, PartialEq, Eq, Structural)]
pub struct Attribs {
    pub mtime: i32,
    pub posix: u16,
    pub sticky: bool,
    pub setgid: bool,
    pub setuid: bool,
    pub uid: u32,
    pub gid: u32,
}

impl Default for Attribs {
    /// All-zero metadata with every flag cleared.
    fn default() -> (a: Attribs)
        ensures
            a == (Attribs { mtime: 0, posix: 0, sticky: false, setgid: false, setuid: false, uid: 0, gid: 0 }),
    {
        Attribs { mtime: 0, posix: 0, sticky: false, setgid: false, setuid: false, uid: 0, gid: 0 }
    }
}

/// A file: a name, a single placeholder payload byte, and metadata.
pub struct File {
    pub name: String,
    pub content: Box<u8>,
    pub attribs: Attribs,
}

/// An entry of the namespace tree: a file or a directory.
pub enum AnyFile {
    File(File),
    Dir(Box<Dir>),
}

/// A directory: a mapping from child names to entries, held as an
/// association list. The operations of the namespace require [`Dir::wf`]:
/// unique, separator-free names. Callers that reach into `members` directly
/// are responsible for keeping it.
pub struct Dir {
    pub members: Vec<(String, AnyFile)>,
}

/// The mathematical shape of an entry.
pub enum EntryV {
    File { name: Seq<char>, content: u8, attribs: Attribs },
    Dir { members: Map<Seq<char>, EntryV> },
}

/// The view of an entry: files keep their fields, directories become the
/// map of their member views.
pub open spec fn entry_view(e: AnyFile) -> EntryV
    decreases e,
{
    match e {
        AnyFile::File(f) => EntryV::File { name: f.name@, content: *f.content, attribs: f.attribs },
        AnyFile::Dir(d) => EntryV::Dir { members: assoc_map(d.members@) },
    }
}

/// The map an association list of entries stands for. A later binding of a
/// name would win; well-formed directories never hold two.
pub open spec fn assoc_map(entries: Seq<(String, AnyFile)>) -> Map<Seq<char>, EntryV>
    decreases entries,
{
    if entries.len() == 0 {
        Map::empty()
    } else {
        assoc_map(entries.drop_last()).insert(entries.last().0@, entry_view(entries.last().1))
    }
}

impl View for AnyFile {
    type V = EntryV;

    open spec fn view(&self) -> EntryV {
        entry_view(*self)
    }
}

impl View for Dir {
    type V = Map<Seq<char>, EntryV>;

    open spec fn view(&self) -> Map<Seq<char>, EntryV> {
        assoc_map(self.members@)
    }
}

/// A legal member name: non-empty and free of the separator.
pub open spec fn name_ok(n: Seq<char>) -> bool {
    n.len() > 0 && forall|i: int| 0 <= i < n.len() ==> n[i] != sep()
}

/// Well-formedness of an association list: legal names, no name bound
/// twice, and every member entry well-formed in turn.
pub open spec fn entries_wf(entries: Seq<(String, AnyFile)>) -> bool
    decreases entries,
{
    if entries.len() == 0 {
        true
    } else {
        &&& entries_wf(entries.drop_last())
        &&& name_ok(entries.last().0@)
        &&& entry_wf(entries.last().1)
        &&& forall|j: int| 0 <= j < entries.len() - 1 ==> entries[j].0@ != entries.last().0@
    }
}

/// Well-formedness of an entry: files always, directories recursively.
pub open spec fn entry_wf(e: AnyFile) -> bool
    decreases e,
{
    match e {
        AnyFile::File(_) => true,
        AnyFile::Dir(d) => entries_wf(d.members@),
    }
}

/// A binding with no later duplicate is what the association map returns.
pub proof fn lemma_assoc_map_get(entries: Seq<(String, AnyFile)>, j: int)
    requires
        0 <= j < entries.len(),
        forall|j2: int| j < j2 < entries.len() ==> entries[j2].0@ != entries[j].0@,
    ensures
        assoc_map(entries).contains_key(entries[j].0@),
        assoc_map(entries)[entries[j].0@] == entry_view(entries[j].1),
    decreases entries.len(),
{
    if j < entries.len() - 1 {
        assert(entries.drop_last()[j] == entries[j]);
        lemma_assoc_map_get(entries.drop_last(), j);
    }
}

/// A name bound nowhere in the list is absent from the association map.
pub proof fn lemma_assoc_map_absent(entries: Seq<(String, AnyFile)>, k: Seq<char>)
    requires
        forall|j: int| 0 <= j < entries.len() ==> entries[j].0@ != k,
    ensures
        !assoc_map(entries).contains_key(k),
    decreases entries.len(),
{
    if entries.len() > 0 {
        lemma_assoc_map_absent(entries.drop_last(), k);
    }
}

impl AnyFile {
    /// The safe downcast to a directory: `Some` exactly when the entry is one.
    pub fn as_dir_ref(&self) -> (r: Option<&Dir>)
        ensures
            match r {
                Some(d) => self@ == (EntryV::Dir { members: d@ }),
                None => self@ is File,
            },
    {
        match self {
            AnyFile::Dir(d) => Some(d),
            AnyFile::File(_) => None,
        }
    }

    /// A fresh, empty directory entry.
    pub fn dir() -> (r: AnyFile)
        ensures
            r@ == (EntryV::Dir { members: Map::<Seq<char>, EntryV>::empty() }),
            entry_wf(r),
    {
        AnyFile::Dir(Box::new(Dir::new()))
    }
}

impl Dir {
    /// Well-formedness: see [`entries_wf`].
    pub open spec fn wf(&self) -> bool {
        entries_wf(self.members@)
    }

    /// A fresh, empty directory.
    pub fn new() -> (d: Dir)
        ensures
            d@ == Map::<Seq<char>, EntryV>::empty(),
            d.wf(),
    {
        Dir { members: Vec::new() }
    }

    /// The number of members.
    pub fn member_count(&self) -> (n: usize)
        ensures
            n == self.members@.len(),
    {
        self.members.len()
    }

    /// Looks a child up by name: `Some` with the member exactly when the
    /// name is bound.
    pub fn lookup(&self, name: &String) -> (r: Option<&AnyFile>)
        requires
            self.wf(),
        ensures
            match r {
                Some(e) => self@.contains_key(name@) && e@ == self@[name@] && entry_wf(*e),
                None => !self@.contains_key(name@),
            },
    {
        let mut i: usize = 0;
        while i < self.members.len()
            invariant
                0 <= i <= self.members@.len(),
                self.wf(),
                forall|j: int| 0 <= j < i ==> self.members@[j].0@ != name@,
            decreases self.members@.len() - i,
        {
            if self.members[i].0.eq(name) {
                proof {
                    lemma_entries_wf_facts(self.members@);
                    lemma_assoc_map_get(self.members@, i as int);
                }
                return Some(&self.members[i].1);
            }
            i = i + 1;
        }
        proof {
            lemma_assoc_map_absent(self.members@, name@);
        }
        None
    }
}

/// The directory contents found by descending from `m` through the chain of
/// names: `None` as soon as a name is absent or leads through a file.
pub open spec fn dir_at(m: Map<Seq<char>, EntryV>, names: Seq<Seq<char>>) -> Option<
    Map<Seq<char>, EntryV>,
>
    decreases names.len(),
{
    if names.len() == 0 {
        Some(m)
    } else if m.contains_key(names[0]) {
        match m[names[0]] {
            EntryV::Dir { members } => dir_at(members, names.drop_first()),
            EntryV::File { .. } => None,
        }
    } else {
        None
    }
}

/// The tree `m` with `e` bound to `leaf` inside the directory reached
/// through the chain of names. Meaningful when that chain resolves, that is
/// when `dir_at(m, names)` is `Some`.
pub open spec fn tree_insert(
    m: Map<Seq<char>, EntryV>,
    names: Seq<Seq<char>>,
    leaf: Seq<char>,
    e: EntryV,
) -> Map<Seq<char>, EntryV>
    decreases names.len(),
{
    if names.len() == 0 {
        m.insert(leaf, e)
    } else {
        match m[names[0]] {
            EntryV::Dir { members } => m.insert(
                names[0],
                EntryV::Dir { members: tree_insert(members, names.drop_first(), leaf, e) },
            ),
            EntryV::File { .. } => m,
        }
    }
}

/// The view of a fresh, empty directory entry.
pub open spec fn empty_dir() -> EntryV {
    EntryV::Dir { members: Map::empty() }
}

/// Replacing the entry of one binding replaces exactly that name's value in
/// the association map, and keeps the list well-formed.
pub proof fn lemma_assoc_map_update(entries: Seq<(String, AnyFile)>, j: int, e: AnyFile)
    requires
        entries_wf(entries),
        0 <= j < entries.len(),
        entry_wf(e),
    ensures
        entries_wf(entries.update(j, (entries[j].0, e))),
        assoc_map(entries.update(j, (entries[j].0, e))) == assoc_map(entries).insert(
            entries[j].0@,
            entry_view(e),
        ),
    decreases entries.len(),
{
    let updated = entries.update(j, (entries[j].0, e));
    lemma_entries_wf_facts(entries);
    if j == entries.len() - 1 {
        assert(updated.drop_last() =~= entries.drop_last());
        assert(assoc_map(updated) =~= assoc_map(entries).insert(entries[j].0@, entry_view(e)));
    } else {
        assert(updated.drop_last() =~= entries.drop_last().update(j, (entries[j].0, e)));
        assert(entries.drop_last()[j] == entries[j]);
        lemma_assoc_map_update(entries.drop_last(), j, e);
        assert(updated.last() == entries.last());
        assert(entries[j].0@ != entries.last().0@);
        assert(assoc_map(updated) =~= assoc_map(entries).insert(entries[j].0@, entry_view(e)));
        assert(forall|k: int|
            0 <= k < updated.len() - 1 ==> updated[k].0@ == entries[k].0@);
    }
}

impl Dir {
    /// Adds a member under `name`: fails with `EmptyName` on an empty name
    /// and with `AlreadyExists` on a name already bound, and otherwise binds
    /// `entry` to `name`. The name may not contain the separator (see the
    /// data model); a well-formed entry keeps the directory well-formed.
    pub fn insert(&mut self, name: String, entry: AnyFile) -> (r: Result<(), FsError>)
        requires
            old(self).wf(),
            entry_wf(entry),
            forall|i: int| 0 <= i < name@.len() ==> name@[i] != sep(),
        ensures
            final(self).wf(),
            match r {
                Ok(()) => name@.len() > 0 && !old(self)@.contains_key(name@) && final(self)@
                    == old(self)@.insert(name@, entry@),
                Err(FsError::EmptyName) => name@.len() == 0 && *final(self) == *old(self),
                Err(FsError::AlreadyExists) => old(self)@.contains_key(name@) && *final(self)
                    == *old(self),
                Err(_) => false,
            },
    {
        if name.as_str().unicode_len() == 0 {
            return Err(FsError::EmptyName);
        }
        if self.lookup(&name).is_some() {
            return Err(FsError::AlreadyExists);
        }
        proof {
            lemma_entries_wf_facts(self.members@);
            assert forall|j: int| 0 <= j < self.members@.len() implies self.members@[j].0@
                != name@ by {
                if self.members@[j].0@ == name@ {
                    lemma_assoc_map_get(self.members@, j);
                }
            }
        }
        let ghost before = self.members@;
        self.members.push((name, entry));
        proof {
            assert(self.members@.drop_last() =~= before);
        }
        Ok(())
    }

    /// The position of the binding of `name`, if there is one.
    fn find_member(&self, name: &String) -> (r: Option<usize>)
        ensures
            match r {
                Some(j) => j < self.members@.len() && self.members@[j as int].0@ == name@,
                None => forall|k: int| 0 <= k < self.members@.len() ==> self.members@[k].0@
                    != name@,
            },
    {
        let mut j: usize = 0;
        while j < self.members.len()
            invariant
                0 <= j <= self.members@.len(),
                forall|k: int| 0 <= k < j ==> self.members@[k].0@ != name@,
            decreases self.members@.len() - j,
        {
            if self.members[j].0.eq(name) {
                return Some(j);
            }
            j = j + 1;
        }
        None
    }

    /// Creates an empty directory named `leaf` inside the directory reached
    /// by descending through `names[i..]`, which must resolve; fails with
    /// `AlreadyExists` (and leaves the tree as it was) when `leaf` is
    /// already bound there.
    pub fn insert_dir_at(&mut self, names: &Vec<String>, i: usize, leaf: &String) -> (r: Result<
        (),
        FsError,
    >)
        requires
            old(self).wf(),
            i <= names@.len(),
            dir_at(old(self)@, names.deep_view().skip(i as int)) is Some,
            leaf@.len() > 0,
            forall|k: int| 0 <= k < leaf@.len() ==> leaf@[k] != sep(),
        ensures
            final(self).wf(),
            match r {
                Ok(()) => !dir_at(old(self)@, names.deep_view().skip(i as int)).unwrap()
                    .contains_key(leaf@) && final(self)@ == tree_insert(
                    old(self)@,
                    names.deep_view().skip(i as int),
                    leaf@,
                    empty_dir(),
                ),
                Err(FsError::AlreadyExists) => dir_at(
                    old(self)@,
                    names.deep_view().skip(i as int),
                ).unwrap().contains_key(leaf@) && final(self)@ == old(self)@,
                Err(_) => false,
            },
        decreases names@.len() - i,
    {
        let ghost suffix = names.deep_view().skip(i as int);
        if i == names.len() {
            proof {
                assert(suffix =~= Seq::<Seq<char>>::empty());
            }
            let r = self.insert(leaf.clone(), AnyFile::dir());
            proof {
                assert(!(r matches Err(FsError::EmptyName)));
            }
            return r;
        }
        proof {
            assert(suffix[0] == names.deep_view()[i as int]);
            assert(names.deep_view()[i as int] == names@[i as int]@);
            assert(suffix.drop_first() =~= names.deep_view().skip(i + 1));
        }
        // The suffix resolves, so the next name is bound; the miss is
        // provably unreachable.
        let found = self.find_member(&names[i]);
        let j = match found {
            Some(j) => j,
            None => {
                proof {
                    lemma_assoc_map_absent(self.members@, names@[i as int]@);
                    assert(false);
                }
                return Err(FsError::NotFound);
            },
        };
        proof {
            lemma_entries_wf_facts(self.members@);
            lemma_assoc_map_get(self.members@, j as int);
        }
        let ghost before = self.members@;
        let (nm, child) = self.members.remove(j);
        proof {
            assert(entry_view(child) == assoc_map(before)[names@[i as int]@]);
        }
        match child {
            AnyFile::Dir(mut d) => {
                let ghost child_map = assoc_map(d.members@);
                let r = d.insert_dir_at(names, i + 1, leaf);
                let ghost newentry = AnyFile::Dir(d);
                let ghost d_after = assoc_map(d.members@);
                self.members.insert(j, (nm, AnyFile::Dir(d)));
                proof {
                    assert(self.members@ =~= before.update(
                        j as int,
                        (before[j as int].0, newentry),
                    ));
                    lemma_assoc_map_update(before, j as int, newentry);
                    assert(entry_view(newentry) == (EntryV::Dir { members: d_after }));
                    if r is Ok {
                        assert(self@ =~= tree_insert(
                            assoc_map(before),
                            suffix,
                            leaf@,
                            empty_dir(),
                        ));
                    } else {
                        assert(assoc_map(before)[names@[i as int]@] == entry_view(newentry));
                        assert(self@ =~= assoc_map(before));
                    }
                }
                r
            },
            AnyFile::File(f) => {
                // The suffix resolves through this name, so it is bound to a
                // directory; this arm is provably unreachable.
                proof {
                    assert(false);
                }
                self.members.insert(j, (nm, AnyFile::File(f)));
                Err(FsError::NotADirectory)
            },
        }
    }
}

/// Well-formedness spelled out binding by binding: every name is legal and
/// distinct from every other, and every entry is well-formed.
pub proof fn lemma_entries_wf_facts(entries: Seq<(String, AnyFile)>)
    requires
        entries_wf(entries),
    ensures
        forall|j: int| 0 <= j < entries.len() ==> name_ok(#[trigger] entries[j].0@),
        forall|j: int| 0 <= j < entries.len() ==> entry_wf(#[trigger] entries[j].1),
        forall|j1: int, j2: int|
            0 <= j1 < j2 < entries.len() ==> entries[j1].0@ != entries[j2].0@,
    decreases entries.len(),
{
    if entries.len() > 0 {
        lemma_entries_wf_facts(entries.drop_last());
        assert(forall|j: int|
            0 <= j < entries.len() - 1 ==> entries.drop_last()[j] == entries[j]);
    }
}

} // verus!
