//! Rows: what a store has to say about single keys, and sorted runs of them.
//!
//! A row either sets its key to a value or deletes it. The model of a run of rows is the map from
//! each of its keys to `Some(value)` or, where the key is deleted, to `None`.
use crate::order;
use crate::order::Side;
use vstd::prelude::*;

verus! {

/// What happens to a key: it is set to a value, or deleted.
#[derive(Debug)]
pub enum Mutation {
    Put(String),
    Delete,
}

impl View for Mutation {
    type V = Option<Seq<char>>;

    open spec fn view(&self) -> Option<Seq<char>> {
        match self {
            Mutation::Put(value) => Some(value@),
            Mutation::Delete => None,
        }
    }
}

impl Mutation {
    /// A mutation that does the same.
    pub fn duplicate(&self) -> (copy: Mutation)
        ensures
            copy@ == self@,
    {
        match self {
            Mutation::Put(value) => Mutation::Put(value.clone()),
            Mutation::Delete => Mutation::Delete,
        }
    }
}

/// A key with its mutation.
#[derive(Debug)]
pub struct Row {
    pub key: String,
    pub mutation: Mutation,
}

/// The model of a row.
pub type RowView = (Seq<char>, Option<Seq<char>>);

/// The model of a sorted run, and of everything that maps keys to mutations.
pub type Changes = Map<Seq<char>, Option<Seq<char>>>;

impl View for Row {
    type V = RowView;

    open spec fn view(&self) -> RowView {
        (self.key@, self.mutation@)
    }
}

/// The models of a sequence of rows.
pub open spec fn views(rows: Seq<Row>) -> Seq<RowView> {
    Seq::new(rows.len(), |i: int| rows[i]@)
}

/// The keys of `rows` increase strictly.
pub open spec fn sorted(rows: Seq<RowView>) -> bool {
    forall|i: int, j: int| 0 <= i < j < rows.len() ==> order::key_less(#[trigger] rows[i].0, #[trigger] rows[j].0)
}

/// The map that `rows` describe. Of rows with the same key the last one counts.
pub open spec fn to_map(rows: Seq<RowView>) -> Changes
    decreases rows.len(),
{
    if rows.len() == 0 {
        Map::empty()
    } else {
        to_map(rows.drop_last()).insert(rows.last().0, rows.last().1)
    }
}

/// The rows of a map, in the order of their keys.
pub open spec fn rows_of(changes: Changes) -> Seq<RowView> {
    choose|rows: Seq<RowView>| sorted(rows) && #[trigger] to_map(rows) == changes
}

/// Maps laid over one another: where several have a key, the frontmost one counts.
pub open spec fn overlay(layers: Seq<Changes>) -> Changes
    decreases layers.len(),
{
    if layers.len() == 0 {
        Map::empty()
    } else {
        overlay(layers.drop_first()).union_prefer_right(layers[0])
    }
}

/// A map holds exactly the keys of its rows, and sorted rows give each key its own mutation.
pub proof fn lemma_to_map(rows: Seq<RowView>)
    ensures
        forall|i: int| 0 <= i < rows.len() ==> to_map(rows).contains_key(#[trigger] rows[i].0),
        forall|k: Seq<char>| #[trigger]
            to_map(rows).contains_key(k) ==> exists|i: int| 0 <= i < rows.len() && #[trigger] rows[i].0 == k,
        sorted(rows) ==> forall|i: int| 0 <= i < rows.len() ==> to_map(rows)[#[trigger] rows[i].0] == rows[i].1,
        to_map(rows).dom().finite(),
    decreases rows.len(),
{
    if rows.len() > 0 {
        broadcast use order::group_key_order;
        let front = rows.drop_last();
        lemma_to_map(front);
        assert forall|i: int| 0 <= i < rows.len() implies to_map(rows).contains_key(#[trigger] rows[i].0) by {
            if i < front.len() {
                assert(front[i].0 == rows[i].0);
            }
        }
        assert forall|k: Seq<char>| #[trigger] to_map(rows).contains_key(k) implies exists|i: int|
            0 <= i < rows.len() && #[trigger] rows[i].0 == k by {
            if k == rows.last().0 {
                assert(rows[rows.len() - 1].0 == k);
            } else {
                assert(to_map(front).contains_key(k));
                let i = choose|i: int| 0 <= i < front.len() && #[trigger] front[i].0 == k;
                assert(rows[i].0 == k);
            }
        }
        if sorted(rows) {
            assert(sorted(front)) by {
                assert forall|i: int, j: int| 0 <= i < j < front.len() implies order::key_less(
                    #[trigger] front[i].0,
                    #[trigger] front[j].0,
                ) by {
                    assert(order::key_less(rows[i].0, rows[j].0));
                }
            }
            assert forall|i: int| 0 <= i < rows.len() implies to_map(rows)[#[trigger] rows[i].0] == rows[i].1 by {
                if i < front.len() {
                    assert(front[i].0 == rows[i].0);
                    assert(order::key_less(rows[i].0, rows[rows.len() - 1].0));
                }
            }
        }
    }
}

/// Sorted rows are determined by the map that they describe.
pub proof fn lemma_rows_unique(a: Seq<RowView>, b: Seq<RowView>)
    requires
        sorted(a),
        sorted(b),
        to_map(a) == to_map(b),
    ensures
        a == b,
{
    broadcast use order::group_key_order;
    lemma_to_map(a);
    lemma_to_map(b);
    let less = |x: RowView, y: RowView| order::key_less(x.0, y.0);
    assert(order::ordered(a, less));
    assert(order::ordered(b, less));
    assert forall|x: RowView, y: RowView| #[trigger] less(x, y) implies !less(y, x) by {
        if less(y, x) {
            assert(order::key_less(x.0, x.0));
        }
    }
    assert forall|x: RowView| a.contains(x) <==> b.contains(x) by {
        if a.contains(x) {
            let i = choose|i: int| 0 <= i < a.len() && a[i] == x;
            assert(to_map(b).contains_key(a[i].0));
            let j = choose|j: int| 0 <= j < b.len() && #[trigger] b[j].0 == a[i].0;
            assert(b[j] == x);
        }
        if b.contains(x) {
            let i = choose|i: int| 0 <= i < b.len() && b[i] == x;
            assert(to_map(a).contains_key(b[i].0));
            let j = choose|j: int| 0 <= j < a.len() && #[trigger] a[j].0 == b[i].0;
            assert(a[j] == x);
        }
    }
    order::lemma_ordered_unique(a, b, less);
}

/// Sorted rows are the rows of their map.
pub proof fn lemma_rows_of(rows: Seq<RowView>)
    requires
        sorted(rows),
    ensures
        rows_of(to_map(rows)) == rows,
{
    let found = rows_of(to_map(rows));
    assert(sorted(found) && to_map(found) == to_map(rows));
    lemma_rows_unique(found, rows);
}

/// The next of sorted rows is the one with the smallest key of those that are still to come.
pub proof fn lemma_head(all: Seq<RowView>, pos: int)
    requires
        sorted(all),
        0 <= pos <= all.len(),
    ensures
        pos == all.len() ==> to_map(all.skip(pos)) == Changes::empty(),
        pos < all.len() ==> {
            let rest = to_map(all.skip(pos));
            &&& rest.contains_key(all[pos].0)
            &&& rest[all[pos].0] == all[pos].1
            &&& forall|k: Seq<char>| #[trigger] rest.contains_key(k) ==> !order::key_less(k, all[pos].0)
            &&& to_map(all.skip(pos + 1)) == rest.remove(all[pos].0)
        },
{
    broadcast use order::group_key_order;

    let rest = all.skip(pos);
    assert(sorted(rest));
    lemma_to_map(rest);
    if pos == all.len() {
        assert(rest =~= Seq::<RowView>::empty());
    } else {
        let head = all[pos].0;
        let m = to_map(rest);
        assert(rest[0] == all[pos]);
        assert forall|k: Seq<char>| #[trigger] m.contains_key(k) implies !order::key_less(k, head) by {
            let i = choose|i: int| 0 <= i < rest.len() && #[trigger] rest[i].0 == k;
            if i > 0 {
                assert(order::key_less(rest[0].0, rest[i].0));
            }
        }
        let tail = all.skip(pos + 1);
        assert(sorted(tail));
        lemma_to_map(tail);
        assert(to_map(tail) =~= m.remove(head)) by {
            assert forall|k: Seq<char>| to_map(tail).contains_key(k) <==> m.remove(head).contains_key(k) by {
                if to_map(tail).contains_key(k) {
                    let i = choose|i: int| 0 <= i < tail.len() && #[trigger] tail[i].0 == k;
                    assert(rest[i + 1] == tail[i]);
                    assert(order::key_less(rest[0].0, rest[i + 1].0));
                }
                if m.contains_key(k) && k != head {
                    let i = choose|i: int| 0 <= i < rest.len() && #[trigger] rest[i].0 == k;
                    assert(tail[i - 1] == rest[i]);
                }
            }
            assert forall|k: Seq<char>| to_map(tail).contains_key(k) implies to_map(tail)[k] == m.remove(head)[k] by {
                let i = choose|i: int| 0 <= i < tail.len() && #[trigger] tail[i].0 == k;
                assert(rest[i + 1] == tail[i]);
            }
        }
    }
}

/// A row can be put among sorted rows that do not have its key.
proof fn lemma_insert_sorted(rows: Seq<RowView>, row: RowView) -> (more: Seq<RowView>)
    requires
        sorted(rows),
        !to_map(rows).contains_key(row.0),
    ensures
        sorted(more),
        to_map(more) == to_map(rows).insert(row.0, row.1),
    decreases rows.len(),
{
    broadcast use order::group_key_order;

    lemma_to_map(rows);
    if rows.len() == 0 {
        let more = rows.push(row);
        assert(more.drop_last() =~= rows);
        more
    } else if order::key_less(rows.last().0, row.0) {
        let more = rows.push(row);
        assert(more.drop_last() =~= rows);
        assert forall|i: int, j: int| 0 <= i < j < more.len() implies order::key_less(
            #[trigger] more[i].0,
            #[trigger] more[j].0,
        ) by {
            if j == rows.len() && i < rows.len() - 1 {
                assert(order::key_less(rows[i].0, rows[rows.len() - 1].0));
            }
        }
        more
    } else {
        let front = rows.drop_last();
        assert(sorted(front)) by {
            assert forall|i: int, j: int| 0 <= i < j < front.len() implies order::key_less(
                #[trigger] front[i].0,
                #[trigger] front[j].0,
            ) by {
                assert(order::key_less(rows[i].0, rows[j].0));
            }
        }
        lemma_to_map(front);
        let part = lemma_insert_sorted(front, row);
        lemma_to_map(part);
        let more = part.push(rows.last());
        assert(more.drop_last() =~= part);
        assert(rows[rows.len() - 1].0 != row.0);
        assert forall|i: int, j: int| 0 <= i < j < more.len() implies order::key_less(
            #[trigger] more[i].0,
            #[trigger] more[j].0,
        ) by {
            if j == part.len() {
                assert(to_map(part).contains_key(part[i].0));
                if part[i].0 != row.0 {
                    assert(to_map(front).contains_key(part[i].0));
                    let n = choose|n: int| 0 <= n < front.len() && #[trigger] front[n].0 == part[i].0;
                    assert(order::key_less(rows[n].0, rows[rows.len() - 1].0));
                }
            } else {
                assert(order::key_less(part[i].0, part[j].0));
            }
        }
        assert(to_map(more) =~= to_map(rows).insert(row.0, row.1));
        more
    }
}

/// A finite map has rows in the order of their keys.
pub proof fn lemma_rows_exist(changes: Changes)
    requires
        changes.dom().finite(),
    ensures
        sorted(rows_of(changes)),
        to_map(rows_of(changes)) == changes,
    decreases changes.dom().len(),
{
    if changes.dom().len() == 0 {
        assert(changes =~= to_map(Seq::<RowView>::empty()));
        assert(sorted(Seq::<RowView>::empty()));
    } else {
        let key = changes.dom().choose();
        let fewer = changes.remove(key);
        lemma_rows_exist(fewer);
        let more = lemma_insert_sorted(rows_of(fewer), (key, changes[key]));
        assert(to_map(more) =~= changes);
    }
}

/// The overlay of finite maps is finite.
pub proof fn lemma_overlay_finite(layers: Seq<Changes>)
    requires
        forall|i: int| 0 <= i < layers.len() ==> (#[trigger] layers[i]).dom().finite(),
    ensures
        overlay(layers).dom().finite(),
    decreases layers.len(),
{
    if layers.len() > 0 {
        let rest = layers.drop_first();
        assert forall|i: int| 0 <= i < rest.len() implies (#[trigger] rest[i]).dom().finite() by {
            assert(layers[i + 1].dom().finite());
        }
        lemma_overlay_finite(rest);
        assert(layers[0].dom().finite());
        assert(overlay(layers).dom() =~= overlay(rest).dom().union(layers[0].dom()));
    }
}

/// A key of any layer is in the overlay.
pub proof fn lemma_in_overlay(layers: Seq<Changes>, i: int, key: Seq<char>)
    requires
        0 <= i < layers.len(),
        layers[i].contains_key(key),
    ensures
        overlay(layers).contains_key(key),
    decreases layers.len(),
{
    if i > 0 {
        lemma_in_overlay(layers.drop_first(), i - 1, key);
    }
}

/// `layers[i]` is the frontmost of the maps that has `key`.
pub open spec fn frontmost(layers: Seq<Changes>, key: Seq<char>, i: int) -> bool {
    &&& 0 <= i < layers.len()
    &&& layers[i].contains_key(key)
    &&& forall|j: int| 0 <= j < i ==> !(#[trigger] layers[j]).contains_key(key)
}

/// A key that no map has is not in their overlay.
pub proof fn lemma_overlay_absent(layers: Seq<Changes>, key: Seq<char>)
    requires
        forall|i: int| 0 <= i < layers.len() ==> !(#[trigger] layers[i]).contains_key(key),
    ensures
        !overlay(layers).contains_key(key),
    decreases layers.len(),
{
    if layers.len() > 0 {
        lemma_overlay_absent(layers.drop_first(), key);
    }
}

/// A key has in the overlay what the frontmost map that has it says.
pub proof fn lemma_overlay_at(layers: Seq<Changes>, key: Seq<char>, i: int)
    requires
        frontmost(layers, key, i),
    ensures
        overlay(layers).contains_key(key),
        overlay(layers)[key] == layers[i][key],
    decreases layers.len(),
{
    if i > 0 {
        assert(!layers[0].contains_key(key));
        lemma_overlay_at(layers.drop_first(), key, i - 1);
    }
}

/// Each key of the overlay has a frontmost map.
pub proof fn lemma_overlay_frontmost(layers: Seq<Changes>, key: Seq<char>) -> (i: int)
    requires
        overlay(layers).contains_key(key),
    ensures
        frontmost(layers, key, i),
        overlay(layers)[key] == layers[i][key],
    decreases layers.len(),
{
    if layers[0].contains_key(key) {
        0
    } else {
        let rest = layers.drop_first();
        let i = lemma_overlay_frontmost(rest, key);
        assert forall|j: int| 0 <= j < i + 1 implies !(#[trigger] layers[j]).contains_key(key) by {
            if j > 0 {
                assert(rest[j - 1] == layers[j]);
            }
        }
        i + 1
    }
}

/// Of maps laid over one another, the first that has a key says what becomes of it, and a key that
/// none has is in none.
pub proof fn law_front_map_wins(layers: Seq<Changes>, key: Seq<char>)
    ensures
        forall|i: int|
            0 <= i < layers.len() && (#[trigger] layers[i]).contains_key(key) && (forall|j: int|
                0 <= j < i ==> !(#[trigger] layers[j]).contains_key(key)) ==> overlay(layers).contains_key(key)
                && overlay(layers)[key] == layers[i][key],
        (forall|i: int| 0 <= i < layers.len() ==> !(#[trigger] layers[i]).contains_key(key)) ==> !overlay(
            layers,
        ).contains_key(key),
{
    assert forall|i: int|
        0 <= i < layers.len() && (#[trigger] layers[i]).contains_key(key) && (forall|j: int|
            0 <= j < i ==> !(#[trigger] layers[j]).contains_key(key)) implies overlay(layers).contains_key(key)
        && overlay(layers)[key] == layers[i][key] by {
        assert(frontmost(layers, key, i));
        lemma_overlay_at(layers, key, i);
    }
    if forall|i: int| 0 <= i < layers.len() ==> !(#[trigger] layers[i]).contains_key(key) {
        lemma_overlay_absent(layers, key);
    }
}

/// The rows of a map have each of its keys once, in increasing order, with what the map says of it.
pub proof fn law_rows_list_a_map(changes: Changes)
    requires
        changes.dom().finite(),
    ensures
        forall|i: int, j: int|
            0 <= i < j < rows_of(changes).len() ==> order::key_less(
                (#[trigger] rows_of(changes)[i]).0,
                (#[trigger] rows_of(changes)[j]).0,
            ),
        forall|i: int|
            0 <= i < rows_of(changes).len() ==> changes.contains_key((#[trigger] rows_of(changes)[i]).0)
                && changes[rows_of(changes)[i].0] == rows_of(changes)[i].1,
        forall|key: Seq<char>| #[trigger]
            changes.contains_key(key) ==> exists|i: int|
                0 <= i < rows_of(changes).len() && (#[trigger] rows_of(changes)[i]).0 == key,
{
    lemma_rows_exist(changes);
    lemma_to_map(rows_of(changes));
    assert forall|i: int, j: int| 0 <= i < j < rows_of(changes).len() implies order::key_less(
        (#[trigger] rows_of(changes)[i]).0,
        (#[trigger] rows_of(changes)[j]).0,
    ) by {
        assert(order::key_less(rows_of(changes)[i].0, rows_of(changes)[j].0));
    }
}

/// Whether the keys of `rows` increase strictly.
pub fn is_sorted(rows: &Vec<Row>) -> (yes: bool)
    ensures
        yes == sorted(views(rows@)),
{
    let ghost v = views(rows@);
    let mut i: usize = 1;
    while i < rows.len()
        invariant
            v == views(rows@),
            1 <= i,
            forall|a: int, b: int|
                0 <= a < b < i && b < v.len() ==> order::key_less(#[trigger] v[a].0, #[trigger] v[b].0),
        decreases rows.len() - i,
    {
        broadcast use order::group_key_order;

        match order::compare(rows[i - 1].key.as_str(), rows[i].key.as_str()) {
            Side::Before => {
                assert forall|a: int, b: int| 0 <= a < b < i + 1 implies order::key_less(
                    #[trigger] v[a].0,
                    #[trigger] v[b].0,
                ) by {
                    assert(order::key_less(v[i - 1].0, v[i as int].0));
                }
            },
            _ => {
                assert(!order::key_less(v[i - 1].0, v[i as int].0));
                return false;
            },
        }
        i += 1;
    }
    true
}

/// How many of the sorted `rows` have a key before `key`.
pub fn lower_bound(rows: &Vec<Row>, key: &str) -> (at: usize)
    requires
        sorted(views(rows@)),
    ensures
        at <= rows.len(),
        forall|i: int| 0 <= i < at ==> order::key_less(#[trigger] rows[i].key@, key@),
        forall|i: int| at <= i < rows.len() ==> !order::key_less(#[trigger] rows[i].key@, key@),
{
    broadcast use order::group_key_order;
    let mut low: usize = 0;
    let mut high: usize = rows.len();
    while low < high
        invariant
            low <= high <= rows.len(),
            sorted(views(rows@)),
            forall|i: int| 0 <= i < low ==> order::key_less(#[trigger] rows[i].key@, key@),
            forall|i: int| high <= i < rows.len() ==> !order::key_less(#[trigger] rows[i].key@, key@),
        decreases high - low,
    {
        broadcast use order::group_key_order;
        let mid: usize = low + (high - low) / 2;
        let ghost v = views(rows@);
        match order::compare(rows[mid].key.as_str(), key) {
            Side::Before => {
                assert forall|i: int| 0 <= i < mid + 1 implies order::key_less(#[trigger] rows[i].key@, key@) by {
                    if i < mid {
                        assert(order::key_less(v[i].0, v[mid as int].0));
                    }
                }
                low = mid + 1;
            },
            _ => {
                assert forall|i: int| mid <= i < rows.len() implies !order::key_less(#[trigger] rows[i].key@, key@) by {
                    if mid < i {
                        assert(order::key_less(v[mid as int].0, v[i].0));
                    }
                }
                high = mid;
            },
        }
    }
    low
}

/// The mutation that the sorted `rows` hold for `key`.
pub fn find<'a>(rows: &'a Vec<Row>, key: &str) -> (found: Option<&'a Mutation>)
    requires
        sorted(views(rows@)),
    ensures
        match found {
            Some(mutation) => to_map(views(rows@)).contains_key(key@) && to_map(views(rows@))[key@] == mutation@,
            None => !to_map(views(rows@)).contains_key(key@),
        },
{
    let at: usize = lower_bound(rows, key);
    let ghost v = views(rows@);
    proof {
        lemma_to_map(v);
    }
    if at < rows.len() {
        match order::compare(rows[at].key.as_str(), key) {
            Side::Same => {
                assert(v[at as int].0 == key@);
                return Some(&rows[at].mutation);
            },
            _ => {},
        }
    }
    proof {
        broadcast use order::group_key_order;
        assert forall|i: int| 0 <= i < v.len() implies #[trigger] v[i].0 != key@ by {
            assert(rows[i].key@ == v[i].0);
            if at < i {
                assert(order::key_less(v[at as int].0, v[i].0));
                assert(rows[at as int].key@ == v[at as int].0);
            }
        }
    }
    None
}

} // verus!
