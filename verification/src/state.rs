//! What is remembered of the files transferred so far.
use vstd::prelude::*;

verus! {

/// What is remembered of one block.
#[derive(Debug)]
pub struct BlockRow {
    pub path: String,
    pub block_index: u64,
    pub hash: String,
    pub block_size: u32,
    pub etag: String,
}

/// What is remembered of one block, as mathematical values.
pub struct BlockRecord {
    pub hash: Seq<char>,
    pub block_size: u32,
    pub etag: Seq<char>,
}

/// The remembered blocks of all files.
///
/// Its view has a record for every remembered block, under the path of the file
/// and the index of the block.
#[derive(Debug)]
pub struct StateStore {
    rows: Vec<BlockRow>,
}

/// Where a row is found.
pub open spec fn key_of(row: BlockRow) -> (Seq<char>, u64) {
    (row.path@, row.block_index)
}

/// What a row says.
pub open spec fn record_of(row: BlockRow) -> BlockRecord {
    BlockRecord { hash: row.hash@, block_size: row.block_size, etag: row.etag@ }
}

/// No block has two rows.
spec fn distinct(rows: Seq<BlockRow>) -> bool {
    forall|i: int, j: int|
        0 <= i < j < rows.len() ==> key_of(#[trigger] rows[i]) != key_of(#[trigger] rows[j])
}

/// The records that the rows hold; of two rows for one block the later counts.
pub open spec fn records(rows: Seq<BlockRow>) -> Map<(Seq<char>, u64), BlockRecord>
    decreases rows.len(),
{
    if rows.len() == 0 {
        Map::empty()
    } else {
        records(rows.drop_last()).insert(key_of(rows.last()), record_of(rows.last()))
    }
}

/// With one row for each block, every row is found under its key.
proof fn lemma_row_is_found(rows: Seq<BlockRow>, i: int)
    requires
        distinct(rows),
        0 <= i < rows.len(),
    ensures
        records(rows).contains_key(key_of(rows[i])),
        records(rows)[key_of(rows[i])] == record_of(rows[i]),
    decreases rows.len(),
{
    if i < rows.len() - 1 {
        assert(distinct(rows.drop_last()));
        lemma_row_is_found(rows.drop_last(), i);
        assert(rows.drop_last()[i] == rows[i]);
        assert(key_of(rows[i]) != key_of(rows[rows.len() - 1]));
    }
}

/// What is found has a row.
proof fn lemma_found_has_row(rows: Seq<BlockRow>, key: (Seq<char>, u64)) -> (i: int)
    requires
        records(rows).contains_key(key),
    ensures
        0 <= i < rows.len(),
        key_of(rows[i]) == key,
    decreases rows.len(),
{
    if rows.len() > 0 && key_of(rows.last()) == key {
        rows.len() - 1
    } else {
        lemma_found_has_row(rows.drop_last(), key)
    }
}

impl View for StateStore {
    type V = Map<(Seq<char>, u64), BlockRecord>;

    closed spec fn view(&self) -> Map<(Seq<char>, u64), BlockRecord> {
        records(self.rows@)
    }
}

impl StateStore {
    #[verifier::type_invariant]
    spec fn valid(&self) -> bool {
        distinct(self.rows@)
    }

    /// A store that remembers what the rows say, in the order in which they
    /// were saved.
    pub fn load(rows: Vec<BlockRow>) -> (store: StateStore)
        ensures
            store@ == records(rows@),
    {
        let mut store = StateStore { rows: Vec::new() };
        let mut i: usize = 0;
        while i < rows.len()
            invariant
                i <= rows@.len(),
                store@ == records(rows@.take(i as int)),
            decreases rows@.len() - i,
        {
            let row = &rows[i];
            proof {
                assert(rows@.take(i + 1).drop_last() =~= rows@.take(i as int));
            }
            store.upsert_block(
                row.path.as_str(),
                row.block_index,
                row.hash.as_str(),
                row.block_size,
                row.etag.as_str(),
            );
            i = i + 1;
        }
        proof {
            assert(rows@.take(i as int) =~= rows@);
        }
        store
    }

    /// The rows to save, from which `load` makes the same store.
    pub fn rows(&self) -> (rows: &Vec<BlockRow>)
        ensures
            records(rows@) == self@,
    {
        &self.rows
    }

    /// Where the row of a block is, if there is one.
    fn find(&self, path: &str, block_index: u64) -> (at: Option<usize>)
        ensures
            match at {
                Some(i) => i < self.rows@.len() && key_of(self.rows@[i as int]) == (
                    path@,
                    block_index,
                ),
                None => !self@.contains_key((path@, block_index)),
            },
    {
        let wanted = path.to_owned();
        let mut i: usize = 0;
        while i < self.rows.len()
            invariant
                i <= self.rows@.len(),
                wanted@ == path@,
                forall|j: int|
                    0 <= j < i ==> key_of(#[trigger] self.rows@[j]) != (path@, block_index),
            decreases self.rows@.len() - i,
        {
            if self.rows[i].block_index == block_index && self.rows[i].path == wanted {
                return Some(i);
            }
            i = i + 1;
        }
        proof {
            if self@.contains_key((path@, block_index)) {
                let at = lemma_found_has_row(self.rows@, (path@, block_index));
            }
        }
        None
    }

    /// Whether `hash` is the remembered digest of the block.
    pub fn block_matches(&self, path: &str, block_index: u64, hash: &str) -> (matches: bool)
        ensures
            matches == (self@.contains_key((path@, block_index)) && self@[(
                path@,
                block_index,
            )].hash == hash@),
    {
        proof {
            use_type_invariant(self);
        }
        match self.find(path, block_index) {
            Some(i) => {
                proof {
                    lemma_row_is_found(self.rows@, i as int);
                }
                self.rows[i].hash == hash.to_owned()
            },
            None => false,
        }
    }

    /// Remembers a block, in place of what was remembered of it before.
    pub fn upsert_block(
        &mut self,
        path: &str,
        block_index: u64,
        hash: &str,
        block_size: u32,
        etag: &str,
    )
        ensures
            final(self)@ == old(self)@.insert(
                (path@, block_index),
                BlockRecord { hash: hash@, block_size, etag: etag@ },
            ),
    {
        proof {
            use_type_invariant(&*self);
        }
        let row = BlockRow {
            path: path.to_owned(),
            block_index,
            hash: hash.to_owned(),
            block_size,
            etag: etag.to_owned(),
        };
        let ghost before = self.rows@;
        match self.find(path, block_index) {
            Some(i) => {
                proof {
                    lemma_row_replaced(before, i as int, row);
                }
                let mut rows = StateStore::take_rows(self);
                rows.set(i, row);
                self.rows = rows;
            },
            None => {
                proof {
                    assert forall|j: int, k: int| 0 <= j < k < before.push(row).len() implies key_of(
                        #[trigger] before.push(row)[j],
                    ) != key_of(#[trigger] before.push(row)[k]) by {
                        lemma_row_is_found(before, j);
                        if k < before.len() {
                            assert(key_of(before[j]) != key_of(before[k]));
                        }
                    }
                    assert(before.push(row).drop_last() =~= before);
                }
                let mut rows = StateStore::take_rows(self);
                rows.push(row);
                self.rows = rows;
            },
        }
    }

    /// Takes the rows out, leaving an empty store.
    fn take_rows(store: &mut StateStore) -> (rows: Vec<BlockRow>)
        ensures
            rows@ == old(store).rows@,
            final(store).rows@.len() == 0,
    {
        let mut rows: Vec<BlockRow> = Vec::new();
        std::mem::swap(&mut rows, &mut store.rows);
        rows
    }

    /// Forgets all blocks of a file.
    pub fn clear_blocks(&mut self, path: &str)
        ensures
            final(self)@ == old(self)@.remove_keys(
                Set::new(|key: (Seq<char>, u64)| key.0 == path@),
            ),
    {
        proof {
            use_type_invariant(&*self);
        }
        let wanted = path.to_owned();
        let ghost remembered = self@;
        proof {
            lemma_rows_hold_records(self.rows@, path@);
        }
        let mut rows = StateStore::take_rows(self);
        let mut i: usize = 0;
        while i < rows.len()
            invariant
                i <= rows@.len(),
                wanted@ == path@,
                distinct(rows@),
                forall|j: int| 0 <= j < i ==> (#[trigger] rows@[j]).path@ != path@,
                holds_records(rows@, remembered, path@),
            decreases rows@.len() - i,
        {
            if rows[i].path == wanted {
                let ghost before = rows@;
                rows.remove(i);
                proof {
                    lemma_row_removed(before, i as int, remembered, path@);
                    assert(forall|j: int| 0 <= j < i ==> rows@[j] == before[j]);
                }
            } else {
                i = i + 1;
            }
        }
        proof {
            let kept = remembered.remove_keys(Set::new(|key: (Seq<char>, u64)| key.0 == path@));
            assert forall|key: (Seq<char>, u64)| #[trigger] kept.contains_key(key) implies exists|
                j: int,
            |
                0 <= j < rows@.len() && key_of(#[trigger] rows@[j]) == key by {
                assert(remembered.contains_key(key));
            }
            lemma_records_are(rows@, kept);
        }
        self.rows = rows;
    }
}

/// What a store remembers of one file: the digest of each of its blocks.
pub open spec fn table_of(store: Map<(Seq<char>, u64), BlockRecord>, path: Seq<char>) -> Map<
    u64,
    Seq<char>,
> {
    Map::new(
        |block_index: u64| store.contains_key((path, block_index)),
        |block_index: u64| store[(path, block_index)].hash,
    )
}

/// Each file has a table of its own: remembering a block of `path` changes that
/// block in the table of `path`, forgetting `path` empties its table, and
/// neither touches the table of another file.
pub proof fn law_files_have_their_own_tables(
    store: Map<(Seq<char>, u64), BlockRecord>,
    path: Seq<char>,
    block_index: u64,
    record: BlockRecord,
    other: Seq<char>,
)
    ensures
        ({
            let remembered = store.insert((path, block_index), record);
            let cleared = store.remove_keys(Set::new(|key: (Seq<char>, u64)| key.0 == path));
            &&& table_of(remembered, path) == table_of(store, path).insert(block_index, record.hash)
            &&& table_of(cleared, path) == Map::<u64, Seq<char>>::empty()
            &&& other != path ==> table_of(remembered, other) == table_of(store, other)
            &&& other != path ==> table_of(cleared, other) == table_of(store, other)
        }),
{
    let remembered = store.insert((path, block_index), record);
    let cleared = store.remove_keys(Set::new(|key: (Seq<char>, u64)| key.0 == path));
    assert(table_of(remembered, path) =~= table_of(store, path).insert(block_index, record.hash));
    assert(table_of(cleared, path) =~= Map::<u64, Seq<char>>::empty());
    if other != path {
        assert(table_of(remembered, other) =~= table_of(store, other));
        assert(table_of(cleared, other) =~= table_of(store, other));
    }
}

/// Rows with one for each block hold exactly the records that they name.
proof fn lemma_records_are(rows: Seq<BlockRow>, wanted: Map<(Seq<char>, u64), BlockRecord>)
    requires
        distinct(rows),
        forall|i: int|
            0 <= i < rows.len() ==> wanted.contains_key(key_of(#[trigger] rows[i])) && wanted[key_of(
                rows[i],
            )] == record_of(rows[i]),
        forall|key: (Seq<char>, u64)| #[trigger]
            wanted.contains_key(key) ==> exists|i: int|
                0 <= i < rows.len() && key_of(#[trigger] rows[i]) == key,
    ensures
        records(rows) == wanted,
{
    assert forall|key: (Seq<char>, u64)| records(rows).contains_key(key) <==> #[trigger] wanted.contains_key(
        key,
    ) by {
        if records(rows).contains_key(key) {
            let i = lemma_found_has_row(rows, key);
            assert(wanted.contains_key(key_of(rows[i])));
        }
        if wanted.contains_key(key) {
            let i = choose|i: int| 0 <= i < rows.len() && key_of(#[trigger] rows[i]) == key;
            lemma_row_is_found(rows, i);
        }
    }
    assert forall|key: (Seq<char>, u64)| records(rows).contains_key(key) implies #[trigger] records(
        rows,
    )[key] == wanted[key] by {
        let i = lemma_found_has_row(rows, key);
        lemma_row_is_found(rows, i);
    }
    assert(records(rows) =~= wanted);
}

/// Every row says what is remembered, and every remembered block of another
/// file than `path` has its row.
spec fn holds_records(
    rows: Seq<BlockRow>,
    remembered: Map<(Seq<char>, u64), BlockRecord>,
    path: Seq<char>,
) -> bool {
    &&& forall|i: int|
        0 <= i < rows.len() ==> remembered.contains_key(key_of(#[trigger] rows[i]))
            && remembered[key_of(rows[i])] == record_of(rows[i])
    &&& forall|key: (Seq<char>, u64)| #[trigger]
        remembered.contains_key(key) && key.0 != path ==> exists|i: int|
            0 <= i < rows.len() && key_of(#[trigger] rows[i]) == key
}

/// Removing a row of `path` leaves the rows of other files.
proof fn lemma_row_removed(
    rows: Seq<BlockRow>,
    at: int,
    remembered: Map<(Seq<char>, u64), BlockRecord>,
    path: Seq<char>,
)
    requires
        0 <= at < rows.len(),
        rows[at].path@ == path,
        distinct(rows),
        holds_records(rows, remembered, path),
    ensures
        distinct(rows.remove(at)),
        holds_records(rows.remove(at), remembered, path),
{
    let left = rows.remove(at);
    assert forall|i: int| 0 <= i < left.len() implies left[i] == rows[if i < at {
        i
    } else {
        i + 1
    }] by {}
    assert forall|i: int, j: int| 0 <= i < j < left.len() implies key_of(#[trigger] left[i])
        != key_of(#[trigger] left[j]) by {
        let k = if i < at { i } else { i + 1 };
        let l = if j < at { j } else { j + 1 };
        assert(key_of(rows[k]) != key_of(rows[l]));
    }
    assert forall|key: (Seq<char>, u64)| #[trigger]
        remembered.contains_key(key) && key.0 != path implies exists|i: int|
        0 <= i < left.len() && key_of(#[trigger] left[i]) == key by {
        let i = choose|i: int| 0 <= i < rows.len() && key_of(#[trigger] rows[i]) == key;
        let k = if i < at { i } else { i - 1 };
        assert(left[k] == rows[i]);
    }
}

/// Rows with one for each block, and nothing to forget, hold all records.
proof fn lemma_rows_hold_records(rows: Seq<BlockRow>, path: Seq<char>)
    requires
        distinct(rows),
    ensures
        holds_records(rows, records(rows), path),
{
    assert forall|i: int| 0 <= i < rows.len() implies records(rows).contains_key(
        key_of(#[trigger] rows[i]),
    ) && records(rows)[key_of(rows[i])] == record_of(rows[i]) by {
        lemma_row_is_found(rows, i);
    }
    assert forall|key: (Seq<char>, u64)| #[trigger]
        records(rows).contains_key(key) && key.0 != path implies exists|i: int|
        0 <= i < rows.len() && key_of(#[trigger] rows[i]) == key by {
        let i = lemma_found_has_row(rows, key);
    }
}

/// Replacing the row of a block replaces its record.
proof fn lemma_row_replaced(rows: Seq<BlockRow>, at: int, row: BlockRow)
    requires
        distinct(rows),
        0 <= at < rows.len(),
        key_of(rows[at]) == key_of(row),
    ensures
        distinct(rows.update(at, row)),
        records(rows.update(at, row)) == records(rows).insert(key_of(row), record_of(row)),
{
    let after = rows.update(at, row);
    assert forall|i: int, j: int| 0 <= i < j < after.len() implies key_of(#[trigger] after[i])
        != key_of(#[trigger] after[j]) by {
        assert(key_of(rows[i]) != key_of(rows[j]));
    }
    let wanted = records(rows).insert(key_of(row), record_of(row));
    assert forall|i: int| 0 <= i < after.len() implies wanted.contains_key(
        key_of(#[trigger] after[i]),
    ) && wanted[key_of(after[i])] == record_of(after[i]) by {
        lemma_row_is_found(rows, i);
        if i < at {
            assert(key_of(rows[i]) != key_of(rows[at]));
        } else if i > at {
            assert(key_of(rows[at]) != key_of(rows[i]));
        }
    }
    assert forall|key: (Seq<char>, u64)| #[trigger] wanted.contains_key(key) implies exists|i: int|
        0 <= i < after.len() && key_of(#[trigger] after[i]) == key by {
        if key == key_of(row) {
            assert(key_of(after[at]) == key);
        } else {
            let i = lemma_found_has_row(rows, key);
            assert(after[i] == rows[i]);
        }
    }
    lemma_records_are(after, wanted);
}

/// One more row remembers its block in place of what the rows before it say of
/// it, and nothing else changes; without rows nothing is remembered.
pub proof fn law_later_rows_count(rows: Seq<BlockRow>, row: BlockRow, key: (Seq<char>, u64))
    ensures
        records(Seq::empty()) == Map::<(Seq<char>, u64), BlockRecord>::empty(),
        ({
            let before = records(rows);
            let after = records(rows.push(row));
            &&& after.contains_key((row.path@, row.block_index))
            &&& after[(row.path@, row.block_index)] == BlockRecord {
                hash: row.hash@,
                block_size: row.block_size,
                etag: row.etag@,
            }
            &&& key != (row.path@, row.block_index) ==> (after.contains_key(key)
                <==> before.contains_key(key)) && (before.contains_key(key) ==> after[key]
                == before[key])
        }),
{
    assert(rows.push(row).drop_last() =~= rows);
}

} // verus!
