//! The files of a store, as bytes.
use crate::table::TableId;
use vstd::prelude::*;

verus! {

/// The file of a table.
#[derive(Debug)]
pub struct TableFile {
    pub id: TableId,
    pub bytes: Vec<u8>,
}

/// The files of a store: the log of the table of contents, and the table files in the order in
/// which they were written. Of files of the same table the last one counts.
#[derive(Debug)]
pub struct Directory {
    pub toc_log: Vec<u8>,
    pub tables: Vec<TableFile>,
}

/// The contents of the table files, by the numbers of their tables.
pub open spec fn files_of(tables: Seq<TableFile>) -> Map<TableId, Seq<u8>>
    decreases tables.len(),
{
    if tables.len() == 0 {
        Map::empty()
    } else {
        files_of(tables.drop_last()).insert(tables.last().id, tables.last().bytes@)
    }
}

proof fn lemma_files_of_untouched(tables: Seq<TableFile>, from: int, id: TableId)
    requires
        0 <= from <= tables.len(),
        forall|i: int| from <= i < tables.len() ==> (#[trigger] tables[i]).id != id,
    ensures
        files_of(tables).contains_key(id) == files_of(tables.take(from)).contains_key(id),
        files_of(tables.take(from)).contains_key(id) ==> files_of(tables)[id] == files_of(tables.take(from))[id],
    decreases tables.len(),
{
    if from < tables.len() {
        let front = tables.drop_last();
        assert(tables[tables.len() - 1].id != id);
        assert forall|i: int| from <= i < front.len() implies (#[trigger] front[i]).id != id by {
            assert(tables[i].id != id);
        }
        lemma_files_of_untouched(front, from, id);
        assert(front.take(from) =~= tables.take(from));
    } else {
        assert(tables.take(from) =~= tables);
    }
}

/// A file is no longer than a `usize` can say.
pub proof fn lemma_file_len(tables: Seq<TableFile>, id: TableId)
    requires
        files_of(tables).contains_key(id),
    ensures
        files_of(tables)[id].len() <= usize::MAX,
    decreases tables.len(),
{
    if tables.last().id == id {
        assert(tables.last().bytes.len() <= usize::MAX);
    } else {
        lemma_file_len(tables.drop_last(), id);
    }
}

impl Directory {
    /// The contents of the table files.
    pub open spec fn files(self) -> Map<TableId, Seq<u8>> {
        files_of(self.tables@)
    }

    /// The directory of a store to which nothing was written yet.
    pub fn new() -> (directory: Directory)
        ensures
            directory.toc_log@ == Seq::<u8>::empty(),
            directory.tables@ == Seq::<TableFile>::empty(),
            directory.files() == Map::<TableId, Seq<u8>>::empty(),
    {
        Directory { toc_log: Vec::new(), tables: Vec::new() }
    }

    /// The contents of the file of a table.
    pub fn find(&self, id: TableId) -> (found: Option<&Vec<u8>>)
        ensures
            match found {
                Some(bytes) => self.files().contains_key(id) && self.files()[id] == bytes@,
                None => !self.files().contains_key(id),
            },
    {
        let mut i: usize = self.tables.len();
        while i > 0
            invariant
                i <= self.tables.len(),
                forall|j: int| i <= j < self.tables.len() ==> (#[trigger] self.tables[j]).id != id,
            decreases i,
        {
            i -= 1;
            if self.tables[i].id == id {
                proof {
                    let upto = self.tables@.take(i + 1);
                    lemma_files_of_untouched(self.tables@, i + 1, id);
                    assert(upto.last() == self.tables[i as int]);
                }
                return Some(&self.tables[i].bytes);
            }
        }
        proof {
            lemma_files_of_untouched(self.tables@, 0, id);
            assert(self.tables@.take(0) =~= Seq::<TableFile>::empty());
        }
        None
    }

    /// Puts in the file of a table, in place of any that there was.
    pub fn write_table(&mut self, id: TableId, bytes: Vec<u8>)
        ensures
            final(self).files() == old(self).files().insert(id, bytes@),
            final(self).tables@ == old(self).tables@.push((TableFile { id, bytes })),
            final(self).toc_log == old(self).toc_log,
    {
        self.tables.push(TableFile { id, bytes });
        assert(self.tables@.drop_last() =~= old(self).tables@);
    }
}

} // verus!
