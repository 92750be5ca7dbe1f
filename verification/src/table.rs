//! Table files: sorted runs of rows as bytes.
//!
//! A table file holds the values of its rows, one behind the other, and then, from the keys offset
//! on, a record for each row: the key, and a zero byte where the row deletes it, else a one byte
//! and where in the file the value starts and how many bytes it takes.
use crate::encoding;
use crate::order;
use crate::order::Side;
use crate::rows;
use crate::rows::{Mutation, Row, RowView};
use vstd::prelude::*;
use vstd::utf8;

verus! {

/// The number by which a table is known.
pub type TableId = u64;

/// The number of a level.
pub type LevelNumber = u64;

/// What is recorded of a table: where it stands, how its file is laid out, and the range of keys
/// that it spans.
#[derive(Debug)]
pub struct TableInfo {
    pub id: TableId,
    pub level: LevelNumber,
    pub keys_offset: u64,
    pub file_size: u64,
    pub smallest_key: String,
    pub biggest_key: String,
}

/// The model of a [`TableInfo`].
pub struct InfoView {
    pub id: TableId,
    pub level: LevelNumber,
    pub keys_offset: u64,
    pub file_size: u64,
    pub smallest_key: Seq<char>,
    pub biggest_key: Seq<char>,
}

impl View for TableInfo {
    type V = InfoView;

    open spec fn view(&self) -> InfoView {
        InfoView {
            id: self.id,
            level: self.level,
            keys_offset: self.keys_offset,
            file_size: self.file_size,
            smallest_key: self.smallest_key@,
            biggest_key: self.biggest_key@,
        }
    }
}

impl InfoView {
    /// The key lies in the range that the table spans.
    pub open spec fn covers(self, key: Seq<char>) -> bool {
        !order::key_less(key, self.smallest_key) && !order::key_less(self.biggest_key, key)
    }

    /// The ranges of the two tables have a point in common.
    pub open spec fn overlaps(self, other: InfoView) -> bool {
        !order::key_less(self.biggest_key, other.smallest_key) && !order::key_less(
            other.biggest_key,
            self.smallest_key,
        )
    }
}

impl TableInfo {
    /// The same information once more.
    pub fn duplicate(&self) -> (copy: TableInfo)
        ensures
            copy@ == self@,
    {
        TableInfo {
            id: self.id,
            level: self.level,
            keys_offset: self.keys_offset,
            file_size: self.file_size,
            smallest_key: self.smallest_key.clone(),
            biggest_key: self.biggest_key.clone(),
        }
    }

    /// Whether the key lies in the range that the table spans.
    pub fn covers(&self, key: &str) -> (covered: bool)
        ensures
            covered == self@.covers(key@),
    {
        broadcast use order::group_key_order;

        match order::compare(key, self.smallest_key.as_str()) {
            Side::Before => false,
            _ => match order::compare(self.biggest_key.as_str(), key) {
                Side::Before => false,
                _ => true,
            },
        }
    }

    /// Whether the ranges of the two tables have a point in common.
    pub fn overlaps(&self, other: &TableInfo) -> (overlapping: bool)
        ensures
            overlapping == self@.overlaps(other@),
    {
        broadcast use order::group_key_order;

        match order::compare(self.biggest_key.as_str(), other.smallest_key.as_str()) {
            Side::Before => false,
            _ => match order::compare(other.biggest_key.as_str(), self.smallest_key.as_str()) {
                Side::Before => false,
                _ => true,
            },
        }
    }
}

/// A table covers its two ends and what lies between them.
pub proof fn law_table_covers_its_range(info: InfoView, key: Seq<char>)
    ensures
        info.covers(key) <==> {
            &&& key == info.smallest_key || order::key_less(info.smallest_key, key)
            &&& key == info.biggest_key || order::key_less(key, info.biggest_key)
        },
{
    broadcast use order::group_key_order;

}

/// Two tables overlap exactly where there is a key in the ranges of both.
pub proof fn law_overlap_is_a_common_key(x: InfoView, y: InfoView)
    requires
        !order::key_less(x.biggest_key, x.smallest_key),
        !order::key_less(y.biggest_key, y.smallest_key),
    ensures
        x.overlaps(y) <==> exists|key: Seq<char>| {
            &&& #[trigger] order::key_less(x.smallest_key, key) || key == x.smallest_key
            &&& order::key_less(key, x.biggest_key) || key == x.biggest_key
            &&& order::key_less(y.smallest_key, key) || key == y.smallest_key
            &&& order::key_less(key, y.biggest_key) || key == y.biggest_key
        },
{
    broadcast use order::group_key_order;

    if x.overlaps(y) {
        let key = if order::key_less(x.smallest_key, y.smallest_key) {
            y.smallest_key
        } else {
            x.smallest_key
        };
        assert(order::key_less(x.smallest_key, key) || key == x.smallest_key);
        assert(order::key_less(key, x.biggest_key) || key == x.biggest_key);
        assert(order::key_less(y.smallest_key, key) || key == y.smallest_key);
        assert(order::key_less(key, y.biggest_key) || key == y.biggest_key);
    }
    if exists|key: Seq<char>| {
        &&& #[trigger] order::key_less(x.smallest_key, key) || key == x.smallest_key
        &&& order::key_less(key, x.biggest_key) || key == x.biggest_key
        &&& order::key_less(y.smallest_key, key) || key == y.smallest_key
        &&& order::key_less(key, y.biggest_key) || key == y.biggest_key
    } {
        let key = choose|key: Seq<char>| {
            &&& #[trigger] order::key_less(x.smallest_key, key) || key == x.smallest_key
            &&& order::key_less(key, x.biggest_key) || key == x.biggest_key
            &&& order::key_less(y.smallest_key, key) || key == y.smallest_key
            &&& order::key_less(key, y.biggest_key) || key == y.biggest_key
        };
        if order::key_less(x.biggest_key, y.smallest_key) {
            assert(order::key_less(x.biggest_key, key) || x.biggest_key == key || order::key_less(key, x.biggest_key));
        }
    }
}

/// The bytes of the value that a row sets, if it sets one.
pub open spec fn value_bytes(mutation: Option<Seq<char>>) -> Seq<u8> {
    match mutation {
        Some(value) => utf8::encode_utf8(value),
        None => Seq::empty(),
    }
}

/// The values of the rows, one behind the other.
pub open spec fn values_of(rows: Seq<RowView>) -> Seq<u8>
    decreases rows.len(),
{
    if rows.len() == 0 {
        Seq::empty()
    } else {
        values_of(rows.drop_last()) + value_bytes(rows.last().1)
    }
}

/// The part of a record that follows the key, for a value that starts at `offset`.
pub open spec fn place_bytes(mutation: Option<Seq<char>>, offset: int) -> Seq<u8> {
    match mutation {
        Some(value) => seq![1u8] + (encoding::u64_bytes(offset as u64) + encoding::u64_bytes(
            utf8::encode_utf8(value).len() as u64,
        )),
        None => seq![0u8],
    }
}

/// The record of a row whose value starts at `offset`.
pub open spec fn record_bytes(row: RowView, offset: int) -> Seq<u8> {
    encoding::str_bytes(row.0) + place_bytes(row.1, offset)
}

/// The records of the rows, one behind the other.
pub open spec fn keys_of(rows: Seq<RowView>) -> Seq<u8>
    decreases rows.len(),
{
    if rows.len() == 0 {
        Seq::empty()
    } else {
        keys_of(rows.drop_last()) + record_bytes(rows.last(), values_of(rows.drop_last()).len() as int)
    }
}

/// The file of a table with the given rows.
pub open spec fn table_bytes(rows: Seq<RowView>) -> Seq<u8> {
    values_of(rows) + keys_of(rows)
}

/// What is recorded of a table with the given rows.
pub open spec fn info_of(rows: Seq<RowView>, id: TableId, level: LevelNumber) -> InfoView {
    InfoView {
        id,
        level,
        keys_offset: values_of(rows).len() as u64,
        file_size: table_bytes(rows).len() as u64,
        smallest_key: rows.first().0,
        biggest_key: rows.last().0,
    }
}

/// The record at position `pos` of a table file, and the position behind it.
pub open spec fn record_at(b: Seq<u8>, keys_offset: int, pos: int) -> Option<(RowView, int)> {
    match encoding::str_at(b, pos) {
        Some((key, tag)) => if tag < b.len() && b[tag] == 0 {
            Some(((key, None), tag + 1))
        } else if tag < b.len() && b[tag] == 1 {
            match encoding::u64_at(b, tag + 1) {
                Some((offset, after)) => match encoding::u64_at(b, after) {
                    Some((len, next)) => if offset + len <= keys_offset {
                        match encoding::text_at(b, offset as int, len as int) {
                            Some((value, _)) => Some(((key, Some(value)), next)),
                            None => None,
                        }
                    } else {
                        None
                    },
                    None => None,
                },
                None => None,
            }
        } else {
            None
        },
        None => None,
    }
}

/// The rows whose records make up the rest of a table file from position `pos` on.
pub open spec fn records_at(b: Seq<u8>, keys_offset: int, pos: int) -> Option<Seq<RowView>>
    decreases b.len() - pos,
{
    if pos == b.len() {
        Some(Seq::empty())
    } else {
        match record_at(b, keys_offset, pos) {
            Some((row, next)) => match records_at(b, keys_offset, next) {
                Some(rest) => Some(seq![row] + rest),
                None => None,
            },
            None => None,
        }
    }
}

/// The rows of a table file, or `None` where the file is not one of a table such as `info`
/// describes.
pub open spec fn table_rows(b: Seq<u8>, info: InfoView) -> Option<Seq<RowView>> {
    match records_at(b, info.keys_offset as int, info.keys_offset as int) {
        Some(found) => if {
            &&& b.len() == info.file_size
            &&& found.len() > 0
            &&& rows::sorted(found)
            &&& found.first().0 == info.smallest_key
            &&& found.last().0 == info.biggest_key
        } {
            Some(found)
        } else {
            None
        },
        None => None,
    }
}

/// A row adds to a table file its value, and a record of its key: the length of the key and the key
/// itself, one byte, and for a value two numbers that say where it stands.
pub proof fn law_row_adds_to_the_file(rows: Seq<RowView>, key: Seq<char>, mutation: Option<Seq<char>>)
    ensures
        table_bytes(Seq::empty()).len() == 0,
        table_bytes(rows.push((key, mutation))).len() == table_bytes(rows).len() + utf8::encode_utf8(key).len() + 9 + (
        if mutation is Some {
            utf8::encode_utf8(mutation->Some_0).len() + 16
        } else {
            0
        }),
{
    let more = rows.push((key, mutation));
    assert(more.drop_last() =~= rows);
    assert(more.last() == (key, mutation));
    encoding::lemma_u64_len(utf8::encode_utf8(key).len() as u64);
    encoding::lemma_u64_len(values_of(rows).len() as u64);
    if let Some(value) = mutation {
        encoding::lemma_u64_len(utf8::encode_utf8(value).len() as u64);
    }
}

proof fn lemma_holds_append(b: Seq<u8>, more: Seq<u8>, pos: int, part: Seq<u8>)
    requires
        encoding::holds(b, pos, part),
    ensures
        encoding::holds(b + more, pos, part),
{
    assert((b + more).subrange(pos, pos + part.len()) =~= b.subrange(pos, pos + part.len()));
}

proof fn lemma_holds_behind(front: Seq<u8>, b: Seq<u8>, pos: int, part: Seq<u8>)
    requires
        encoding::holds(b, pos, part),
    ensures
        encoding::holds(front + b, front.len() + pos, part),
{
    assert((front + b).subrange(front.len() + pos, front.len() + pos + part.len()) =~= b.subrange(
        pos,
        pos + part.len(),
    ));
}

/// Where in the two parts of a table file the value and the record of row `i` stand.
proof fn lemma_row_placed(rows: Seq<RowView>, i: int)
    requires
        0 <= i < rows.len(),
    ensures
        encoding::holds(values_of(rows), values_of(rows.take(i)).len() as int, value_bytes(rows[i].1)),
        encoding::holds(
            keys_of(rows),
            keys_of(rows.take(i)).len() as int,
            record_bytes(rows[i], values_of(rows.take(i)).len() as int),
        ),
    decreases rows.len(),
{
    let front = rows.drop_last();
    if i == rows.len() - 1 {
        assert(rows.take(i) =~= front);
        let v = value_bytes(rows[i].1);
        assert(values_of(rows).subrange(values_of(front).len() as int, values_of(rows).len() as int) =~= v);
        let r = record_bytes(rows[i], values_of(front).len() as int);
        assert(keys_of(rows).subrange(keys_of(front).len() as int, keys_of(rows).len() as int) =~= r);
    } else {
        lemma_row_placed(front, i);
        assert(front.take(i) =~= rows.take(i));
        lemma_holds_append(
            values_of(front),
            value_bytes(rows.last().1),
            values_of(rows.take(i)).len() as int,
            value_bytes(rows[i].1),
        );
        lemma_holds_append(
            keys_of(front),
            record_bytes(rows.last(), values_of(front).len() as int),
            keys_of(rows.take(i)).len() as int,
            record_bytes(rows[i], values_of(rows.take(i)).len() as int),
        );
    }
}

/// The record of row `i` can be read back from the table file.
proof fn lemma_record_at(rows: Seq<RowView>, i: int)
    requires
        0 <= i < rows.len(),
        table_bytes(rows).len() <= u64::MAX,
    ensures
        ({
            let start = values_of(rows).len() as int;
            record_at(table_bytes(rows), start, start + keys_of(rows.take(i)).len()) == Some(
                (rows[i], start + keys_of(rows.take(i + 1)).len()),
            )
        }),
{
    let b = table_bytes(rows);
    let start = values_of(rows).len() as int;
    let pos = start + keys_of(rows.take(i)).len();
    let offset = values_of(rows.take(i)).len() as int;
    let (key, mutation) = rows[i];
    lemma_row_placed(rows, i);
    lemma_holds_behind(values_of(rows), keys_of(rows), pos - start, record_bytes(rows[i], offset));
    encoding::lemma_holds_split(b, pos, encoding::str_bytes(key), place_bytes(mutation, offset));
    encoding::lemma_holds_split(
        b,
        pos,
        encoding::u64_bytes(utf8::encode_utf8(key).len() as u64),
        utf8::encode_utf8(key),
    );
    encoding::lemma_str_at(b, pos, key);
    let tag = pos + encoding::str_bytes(key).len();
    assert(b.subrange(tag, tag + place_bytes(mutation, offset).len())[0] == b[tag]);
    assert(rows.take(i + 1).drop_last() =~= rows.take(i));
    match mutation {
        Some(value) => {
            let len = utf8::encode_utf8(value).len();
            let numbers = encoding::u64_bytes(offset as u64) + encoding::u64_bytes(len as u64);
            lemma_holds_append(values_of(rows), keys_of(rows), offset, value_bytes(mutation));
            encoding::lemma_holds_split(b, tag, seq![1u8], numbers);
            encoding::lemma_holds_split(
                b,
                tag + 1,
                encoding::u64_bytes(offset as u64),
                encoding::u64_bytes(len as u64),
            );
            encoding::lemma_u64_at(b, tag + 1, offset as u64);
            encoding::lemma_u64_at(b, tag + 9, len as u64);
            encoding::lemma_text_at(b, offset, value);
        },
        None => {},
    }
}

proof fn lemma_records_at(rows: Seq<RowView>, i: int)
    requires
        0 <= i <= rows.len(),
        table_bytes(rows).len() <= u64::MAX,
    ensures
        records_at(
            table_bytes(rows),
            values_of(rows).len() as int,
            values_of(rows).len() as int + keys_of(rows.take(i)).len(),
        ) == Some(rows.skip(i)),
    decreases rows.len() - i,
{
    if i == rows.len() {
        assert(rows.take(i) =~= rows);
        assert(rows.skip(i) =~= Seq::<RowView>::empty());
    } else {
        lemma_record_at(rows, i);
        lemma_records_at(rows, i + 1);
        assert(rows.skip(i) =~= seq![rows[i]] + rows.skip(i + 1));
    }
}

/// Reading a table file gives back the rows that it was written from.
pub proof fn lemma_table_round_trip(rows: Seq<RowView>, id: TableId, level: LevelNumber)
    requires
        rows.len() > 0,
        rows::sorted(rows),
        table_bytes(rows).len() <= u64::MAX,
    ensures
        table_rows(table_bytes(rows), info_of(rows, id, level)) == Some(rows),
{
    lemma_records_at(rows, 0);
    assert(rows.take(0) =~= Seq::<RowView>::empty());
    assert(rows.skip(0) =~= rows);
}

/// Reads the record at position `pos` of a table file.
fn read_record(b: &Vec<u8>, keys_offset: u64, pos: usize) -> (read: Option<(Row, usize)>)
    ensures
        match read {
            Some((row, next)) => record_at(b@, keys_offset as int, pos as int) == Some((row@, next as int)),
            None => record_at(b@, keys_offset as int, pos as int) is None,
        },
{
    match encoding::read_str(b.as_slice(), pos) {
        Some((key, tag)) => {
            if tag >= b.len() {
                return None;
            }
            if b[tag] == 0 {
                return Some((Row { key, mutation: Mutation::Delete }, tag + 1));
            }
            if b[tag] != 1 {
                return None;
            }
            match encoding::read_u64(b.as_slice(), tag + 1) {
                Some((offset, after)) => match encoding::read_u64(b.as_slice(), after) {
                    Some((len, next)) => {
                        if offset > keys_offset || len > keys_offset - offset {
                            return None;
                        }
                        if offset > b.len() as u64 {
                            return None;
                        }
                        match encoding::read_text(b.as_slice(), offset as usize, len) {
                            Some((value, _)) => Some((Row { key, mutation: Mutation::Put(value) }, next)),
                            None => None,
                        }
                    },
                    None => None,
                },
                None => None,
            }
        },
        None => None,
    }
}

/// Reads the rows of a table file, or `None` where the file is not one of a table such as `info`
/// describes.
pub fn read_table(b: &Vec<u8>, info: &TableInfo) -> (read: Option<Vec<Row>>)
    ensures
        match read {
            Some(found) => table_rows(b@, info@) == Some(rows::views(found@)),
            None => table_rows(b@, info@) is None,
        },
{
    if b.len() as u64 != info.file_size || info.keys_offset > b.len() as u64 {
        return None;
    }
    let ghost start = info.keys_offset as int;
    let mut found: Vec<Row> = Vec::new();
    let mut pos: usize = info.keys_offset as usize;
    assert(rows::views(found@) =~= Seq::<RowView>::empty());
    assert(records_at(b@, start, start) matches Some(all) ==> all =~= rows::views(found@) + all);
    while pos < b.len()
        invariant
            start == info.keys_offset,
            pos <= b.len(),
            match records_at(b@, start, pos as int) {
                Some(rest) => records_at(b@, start, start) == Some(rows::views(found@) + rest),
                None => records_at(b@, start, start) is None,
            },
        decreases b.len() - pos,
    {
        match read_record(b, info.keys_offset, pos) {
            Some((row, next)) => {
                let ghost before = rows::views(found@);
                let ghost rest = records_at(b@, start, next as int);
                found.push(row);
                proof {
                    assert(rows::views(found@) =~= before.push(row@));
                    if rest is Some {
                        assert(before + (seq![row@] + rest.unwrap()) =~= rows::views(found@) + rest.unwrap());
                    }
                }
                pos = next;
            },
            None => {
                return None;
            },
        }
    }
    assert(rows::views(found@) + Seq::<RowView>::empty() =~= rows::views(found@));
    if found.len() == 0 || !rows::is_sorted(&found) {
        return None;
    }
    let last: usize = found.len() - 1;
    assert(rows::views(found@).first().0 == found[0].key@);
    assert(rows::views(found@).last().0 == found[last as int].key@);
    if found[0].key == info.smallest_key && found[last].key == info.biggest_key {
        Some(found)
    } else {
        None
    }
}

/// Builds the file of a table, row by row.
pub struct TableBuilder {
    pub values: Vec<u8>,
    pub keys: Vec<u8>,
    pub smallest_key: Option<String>,
    pub biggest_key: Option<String>,
    pub rows: Ghost<Seq<RowView>>,
}

impl View for TableBuilder {
    type V = Seq<RowView>;

    /// The rows that the table has so far.
    open spec fn view(&self) -> Seq<RowView> {
        self.rows@
    }
}

impl TableBuilder {
    /// The parts of the file are those of the rows.
    pub open spec fn wf(self) -> bool {
        &&& self.values@ == values_of(self@)
        &&& self.keys@ == keys_of(self@)
        &&& match self.smallest_key {
            Some(key) => self@.len() > 0 && key@ == self@.first().0,
            None => self@.len() == 0,
        }
        &&& match self.biggest_key {
            Some(key) => self@.len() > 0 && key@ == self@.last().0,
            None => self@.len() == 0,
        }
    }

    /// A table without rows.
    pub fn new() -> (builder: TableBuilder)
        ensures
            builder.wf(),
            builder@ == Seq::<RowView>::empty(),
    {
        TableBuilder {
            values: Vec::new(),
            keys: Vec::new(),
            smallest_key: None,
            biggest_key: None,
            rows: Ghost(Seq::empty()),
        }
    }

    /// Whether the table has no rows.
    pub fn is_empty(&self) -> (empty: bool)
        requires
            self.wf(),
        ensures
            empty == (self@.len() == 0),
    {
        self.smallest_key.is_none()
    }

    /// The size that the file has so far.
    pub fn file_size(&self) -> (size: u128)
        requires
            self.wf(),
        ensures
            size == table_bytes(self@).len(),
    {
        self.values.len() as u128 + self.keys.len() as u128
    }

    /// Adds a row at the end.
    pub fn add_mutation(&mut self, key: &str, mutation: &Mutation)
        requires
            old(self).wf(),
        ensures
            final(self).wf(),
            final(self)@ == old(self)@.push((key@, mutation@)),
    {
        let ghost row = (key@, mutation@);
        let offset: usize = self.values.len();
        encoding::write_str(&mut self.keys, key);
        match mutation {
            Mutation::Put(value) => {
                let len: usize = value.as_str().as_bytes().len();
                self.keys.push(1u8);
                encoding::write_u64(&mut self.keys, offset as u64);
                encoding::write_u64(&mut self.keys, len as u64);
                encoding::write_text(&mut self.values, value.as_str());
            },
            Mutation::Delete => {
                self.keys.push(0u8);
            },
        }
        if self.smallest_key.is_none() {
            self.smallest_key = Some(key.to_owned());
        }
        self.biggest_key = Some(key.to_owned());
        self.rows = Ghost(self.rows@.push(row));
        proof {
            assert(self@.drop_last() =~= old(self)@);
            assert(self.keys@ =~= keys_of(old(self)@) + record_bytes(row, offset as int));
            assert(self.values@ =~= values_of(old(self)@) + value_bytes(row.1));
        }
    }

    /// Completes the table: its file, and what is to be recorded of it.
    pub fn finish(self, id: TableId, level: LevelNumber) -> (finished: (Vec<u8>, TableInfo))
        requires
            self.wf(),
            self@.len() > 0,
        ensures
            finished.0@ == table_bytes(self@),
            finished.1@ == info_of(self@, id, level),
    {
        let ghost all = self@;
        let mut file: Vec<u8> = self.values;
        let mut keys: Vec<u8> = self.keys;
        let keys_offset: usize = file.len();
        file.append(&mut keys);
        let file_size: usize = file.len();
        let info = TableInfo {
            id,
            level,
            keys_offset: keys_offset as u64,
            file_size: file_size as u64,
            smallest_key: self.smallest_key.unwrap(),
            biggest_key: self.biggest_key.unwrap(),
        };
        (file, info)
    }
}

} // verus!
