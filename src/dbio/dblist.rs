//! Entries, and lists that admit them into a chunk file and index their fields.
use vstd::prelude::*;
use crate::dbio::dbchunk::{
    ChunkyFile,
    EntryChunk,
    CHUNK_TYPE_ENTRY,
    layout,
    records_of,
    insertion_points,
    all_present,
    pack_error,
};
use crate::dbio::dbfield::Field;
use crate::dbio::dbstruct::{Structure, structure_meets};
use crate::dbio::dbtree::{LazyAVL, insert_step};
use crate::dbio::dbuuid::UuidV4;
use crate::error::DbError;

verus! {

/// An entry: a UUID and its fields, in order.
#[derive(Debug, Clone)]
pub struct Entry {
    pub uuid: UuidV4,
    pub fields: Vec<Field>,
}

impl Entry {
    /// An entry with the given UUID and fields.
    pub fn new(uuid: UuidV4, fields: Vec<Field>) -> (r: Result<Entry, DbError>)
        ensures
            r is Ok,
            r->Ok_0.uuid == uuid,
            r->Ok_0.fields@ == fields@,
    {
        Ok(Entry { uuid, fields })
    }

    /// The first field named `field_id`, if any.
    pub fn get_field(&self, field_id: &str) -> (r: Option<&Field>)
        ensures
            r is None <==> forall|i: int|
                0 <= i < self.fields@.len() ==> (#[trigger] self.fields@[i]).id@ != field_id@,
            r is Some ==> exists|i: int|
                0 <= i < self.fields@.len() && *r->Some_0 == self.fields@[i] && (forall|j: int|
                    0 <= j < i ==> (#[trigger] self.fields@[j]).id@ != field_id@) && self.fields@[i].id@
                    == field_id@,
    {
        let target = field_id.to_owned();
        let mut i: usize = 0;
        while i < self.fields.len()
            invariant
                target@ == field_id@,
                i <= self.fields@.len(),
                forall|j: int| 0 <= j < i ==> (#[trigger] self.fields@[j]).id@ != field_id@,
            decreases self.fields@.len() - i,
        {
            if self.fields[i].id == target {
                return Some(&self.fields[i]);
            }
            i = i + 1;
        }
        None
    }
}

/// The file, head and pending count after inserting the records at `points` into the lazy tree at
/// `head`, one after another as `insert_step` says, and the error that stopped the insertions, if
/// one did.
pub open spec fn insert_all(d: Seq<u8>, head: u64, pending: u8, laze: u8, points: Seq<u64>) -> (
    Seq<u8>,
    u64,
    u8,
    Option<DbError>,
)
    decreases points.len(),
{
    if points.len() == 0 {
        (d, head, pending, None)
    } else {
        let (d2, h2, p2, e) = insert_step(d, head, pending, laze, points[0]);
        if e is Some {
            (d2, h2, p2, e)
        } else {
            insert_all(d2, h2, p2, laze, points.drop_first())
        }
    }
}

/// The file, head and pending count after writing an entry with `fields` to `d` and indexing its
/// records: an empty tree takes the last record as its head, and the others are inserted in
/// order.
pub open spec fn add_entry_result(
    d: Seq<u8>,
    head: u64,
    pending: u8,
    laze: u8,
    fields: Seq<Field>,
) -> (Seq<u8>, u64, u8, Option<DbError>) {
    let d1 = d + layout(CHUNK_TYPE_ENTRY, records_of(fields), d.len());
    let points = insertion_points(fields, d.len());
    if head == 0 {
        insert_all(d1, points.last(), pending, laze, points.drop_last())
    } else {
        insert_all(d1, head, pending, laze, points)
    }
}

/// A list: a structure that admits entries, the chunk file they are written to, and the search
/// tree over their fields.
pub struct List {
    pub structure: Structure,
    pub tree: LazyAVL,
    pub db_file: ChunkyFile,
    pub entry_count: u64,
}

impl List {
    /// Whether `self` holds the same list as `other`.
    pub open spec fn same(&self, other: &List) -> bool {
        &&& self.structure == other.structure
        &&& self.tree == other.tree
        &&& self.db_file@ == other.db_file@
        &&& self.entry_count == other.entry_count
    }

    /// Whether the file is whole chunks and the structure's requirements are ordered.
    pub open spec fn wf(&self) -> bool {
        self.db_file.wf() && self.structure.wf() && self.tree.pending <= self.tree.laze
    }

    /// An empty list over `db_file` that admits what `structure` admits.
    pub fn new(db_file: ChunkyFile, structure: Structure) -> (r: Result<Self, DbError>)
        ensures
            r is Ok,
            r->Ok_0.structure == structure,
            r->Ok_0.db_file == db_file,
            r->Ok_0.tree.head == 0,
            r->Ok_0.tree.laze == 0,
            r->Ok_0.tree.pending == 0,
            r->Ok_0.entry_count == 0,
    {
        let tree = LazyAVL::new(0, 0);
        Ok(Self { structure, tree, db_file, entry_count: 0 })
    }

    /// Admits `entry`: checks it against the structure, writes it to the file and indexes each of
    /// its fields.
    pub fn add_entry(&mut self, entry: Entry) -> (r: Result<(), DbError>)
        requires
            old(self).wf(),
            all_present(entry.fields@),
            old(self).db_file@.len() + 600 * entry.fields@.len() + 256 <= usize::MAX,
            old(self).entry_count < u64::MAX,
        ensures
            final(self).wf(),
            final(self).structure == old(self).structure,
            final(self).tree.laze == old(self).tree.laze,
            !structure_meets(old(self).structure.requirements@, entry.fields@) ==> r == Err::<
                (),
                DbError,
            >(DbError::SchemaViolation) && final(self).same(&*old(self)),
            structure_meets(old(self).structure.requirements@, entry.fields@)
                && entry.fields@.len() == 0 ==> r == Err::<(), DbError>(DbError::EmptyEntry)
                && final(self).same(&*old(self)),
            structure_meets(old(self).structure.requirements@, entry.fields@)
                && entry.fields@.len() > 0 && pack_error(entry.fields@) is Some ==> r == Err::<
                (),
                DbError,
            >(pack_error(entry.fields@)->Some_0) && final(self).same(&*old(self)),
            structure_meets(old(self).structure.requirements@, entry.fields@)
                && entry.fields@.len() > 0 && pack_error(entry.fields@) is None ==> ({
                let (d, h, pending, e) = add_entry_result(
                    old(self).db_file@,
                    old(self).tree.head,
                    old(self).tree.pending,
                    old(self).tree.laze,
                    entry.fields@,
                );
                &&& final(self).db_file@ == d
                &&& final(self).tree.head == h
                &&& final(self).tree.pending == pending
                &&& e is Some ==> r == Err::<(), DbError>(e->Some_0) && final(self).entry_count
                    == old(self).entry_count
                &&& e is None ==> r is Ok && final(self).entry_count == old(self).entry_count + 1
            }),
    {
        if !self.structure.meets(&entry.fields) {
            return Err(DbError::SchemaViolation);
        }
        if entry.fields.len() == 0 {
            return Err(DbError::EmptyEntry);
        }
        let ghost fields = entry.fields@;
        let ghost d0 = self.db_file@;
        let entry_chunk = EntryChunk::new(entry);
        let mut insertion_points = match self.db_file.add_entry_chunk(entry_chunk) {
            Ok(points) => points,
            Err(e) => {
                return Err(e);
            },
        };
        let ghost all_points = insertion_points@;
        let ghost d1 = self.db_file@;
        if self.tree.head == 0 {
            match insertion_points.pop() {
                Some(point) => {
                    self.tree.head = point;
                },
                None => {},
            }
        }
        assert(add_entry_result(
            d0,
            old(self).tree.head,
            old(self).tree.pending,
            old(self).tree.laze,
            fields,
        ) == insert_all(d1, self.tree.head, self.tree.pending, self.tree.laze, insertion_points@));
        let ghost rest = insertion_points@;
        let ghost target = add_entry_result(
            d0,
            old(self).tree.head,
            old(self).tree.pending,
            old(self).tree.laze,
            fields,
        );
        assert(rest.skip(0) =~= rest);
        let mut k: usize = 0;
        while k < insertion_points.len()
            invariant
                k <= rest.len(),
                rest == insertion_points@,
                self.db_file.wf(),
                self.structure.wf(),
                self.structure == old(self).structure,
                structure_meets(self.structure.requirements@, fields),
                fields == entry.fields@,
                target == add_entry_result(
                    old(self).db_file@,
                    old(self).tree.head,
                    old(self).tree.pending,
                    old(self).tree.laze,
                    entry.fields@,
                ),
                fields.len() > 0,
                pack_error(fields) is None,
                self.tree.laze == old(self).tree.laze,
                self.tree.pending <= self.tree.laze,
                self.entry_count == old(self).entry_count,
                target == insert_all(
                    self.db_file@,
                    self.tree.head,
                    self.tree.pending,
                    self.tree.laze,
                    rest.skip(k as int),
                ),
            decreases rest.len() - k,
        {
            let point = insertion_points[k];
            assert(rest.skip(k as int)[0] == point);
            assert(rest.skip(k as int).drop_first() =~= rest.skip(k + 1));
            match self.tree.insert(&mut self.db_file, point) {
                Ok(()) => {},
                Err(e) => {
                    return Err(e);
                },
            }
            k = k + 1;
        }
        assert(rest.skip(k as int).len() == 0);
        self.entry_count = self.entry_count + 1;
        Ok(())
    }
}

} // verus!
