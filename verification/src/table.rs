//! A table of values by text, kept in the order of the texts.

use crate::text;
use crate::text::chars_of;
use vstd::prelude::*;

verus! {

// ───────── the order of texts ─────────

/// `a` comes before `b`, and `k` is where they part.
pub open spec fn parts_before(a: Seq<char>, b: Seq<char>, k: int) -> bool {
    &&& 0 <= k <= a.len()
    &&& k < b.len()
    &&& forall|j: int| 0 <= j < k ==> a[j] == b[j]
    &&& k == a.len() || a[k] < b[k]
}

/// `a` comes before `b`: the order of `String`.
pub open spec fn text_before(a: Seq<char>, b: Seq<char>) -> bool {
    exists|k: int| parts_before(a, b, k)
}

/// The order of texts is transitive.
pub proof fn law_text_order_transitive(a: Seq<char>, b: Seq<char>, c: Seq<char>)
    requires
        text_before(a, b),
        text_before(b, c),
    ensures
        text_before(a, c),
{
    let k = choose|k: int| parts_before(a, b, k);
    let l = choose|l: int| parts_before(b, c, l);
    if k <= l {
        assert(parts_before(a, c, k));
    } else {
        assert(parts_before(a, c, l));
    }
}

/// No text comes before itself.
pub proof fn law_text_order_irreflexive(a: Seq<char>)
    ensures
        !text_before(a, a),
{
}

/// Where two texts part, the lesser of the two characters decides; what ends there comes first.
pub proof fn law_first_difference_decides(
    same: Seq<char>,
    x: char,
    y: char,
    a: Seq<char>,
    b: Seq<char>,
)
    ensures
        x as int != y as int ==> (text_before(same + seq![x] + a, same + seq![y] + b) <==> (x as int)
            < y as int),
        text_before(same, same + seq![y] + b),
        !text_before(same + seq![y] + b, same),
{
    let p = same + seq![x] + a;
    let q = same + seq![y] + b;
    let n = same.len() as int;
    assert(p[n] == x && q[n] == y);
    assert(forall|j: int| 0 <= j < n ==> p[j] == same[j] && q[j] == same[j]);
    if (x as int) < y as int {
        assert(parts_before(p, q, n));
    }
    if x as int != y as int && text_before(p, q) {
        let k = choose|k: int| parts_before(p, q, k);
        assert(k == n) by {
            if k > n {
                assert(p[n] == q[n]);
            }
        }
    }
    assert(parts_before(same, q, n));
    if text_before(q, same) {
        let k = choose|k: int| parts_before(q, same, k);
        assert(q[k] == same[k]);
    }
}

/// Of two texts one comes before the other, unless they are the same.
pub proof fn law_text_order_total(a: Seq<char>, b: Seq<char>)
    ensures
        a == b || text_before(a, b) || text_before(b, a),
{
    lemma_parting(a, b, 0);
}

proof fn lemma_parting(a: Seq<char>, b: Seq<char>, k: int)
    requires
        0 <= k <= a.len(),
        k <= b.len(),
        forall|j: int| 0 <= j < k ==> a[j] == b[j],
    ensures
        a == b || text_before(a, b) || text_before(b, a),
    decreases a.len() - k,
{
    if k == a.len() && k == b.len() {
        assert(a =~= b);
    } else if k == a.len() {
        assert(parts_before(a, b, k));
    } else if k == b.len() {
        assert(parts_before(b, a, k));
    } else if a[k] < b[k] {
        assert(parts_before(a, b, k));
    } else if b[k] < a[k] {
        assert(parts_before(b, a, k));
    } else {
        lemma_parting(a, b, k + 1);
    }
}

/// How one text stands to another.
#[derive(Clone, Copy, PartialEq, Eq, Debug, Structural)]
pub enum Rank {
    Before,
    Same,
    After,
}

/// How `a` stands to `b` in the order of texts.
pub fn rank(a: &Vec<char>, b: &Vec<char>) -> (r: Rank)
    ensures
        match r {
            Rank::Before => text_before(a@, b@),
            Rank::Same => a@ == b@,
            Rank::After => text_before(b@, a@),
        },
{
    let mut i: usize = 0;
    while i < a.len() && i < b.len()
        invariant
            i <= a@.len(),
            i <= b@.len(),
            forall|j: int| 0 <= j < i ==> a@[j] == b@[j],
        decreases a@.len() - i,
    {
        if a[i] < b[i] {
            assert(parts_before(a@, b@, i as int));
            return Rank::Before;
        }
        if b[i] < a[i] {
            assert(parts_before(b@, a@, i as int));
            return Rank::After;
        }
        i = i + 1;
    }
    if i < b.len() {
        assert(parts_before(a@, b@, i as int));
        Rank::Before
    } else if i < a.len() {
        assert(parts_before(b@, a@, i as int));
        Rank::After
    } else {
        assert(a@ =~= b@);
        Rank::Same
    }
}

// ───────── the table ─────────

/// Values by text, each text once, in the order of the texts.
#[derive(Debug)]
pub struct Table<V> {
    entries: Vec<(String, V)>,
}

/// Each text comes before those behind it.
pub open spec fn ascending<V>(rows: Seq<(Seq<char>, V)>) -> bool {
    forall|i: int, j: int|
        0 <= i < j < rows.len() ==> text_before((#[trigger] rows[i]).0, (#[trigger] rows[j]).0)
}

/// Row `i` stands under `key`.
pub open spec fn row_under<V>(rows: Seq<(Seq<char>, V)>, key: Seq<char>, i: int) -> bool {
    0 <= i < rows.len() && rows[i].0 == key
}

/// The values of rows by their texts.
pub open spec fn map_of<V>(rows: Seq<(Seq<char>, V)>) -> Map<Seq<char>, V> {
    Map::new(
        |key: Seq<char>| exists|i: int| row_under(rows, key, i),
        |key: Seq<char>| rows[choose|i: int| row_under(rows, key, i)].1,
    )
}

proof fn lemma_row<V>(rows: Seq<(Seq<char>, V)>, i: int)
    requires
        ascending(rows),
        0 <= i < rows.len(),
    ensures
        map_of(rows).contains_key(rows[i].0),
        map_of(rows)[rows[i].0] == rows[i].1,
{
    let key = rows[i].0;
    assert(row_under(rows, key, i));
    let j = choose|j: int| row_under(rows, key, j);
    if i < j {
        law_text_order_irreflexive(key);
        assert(text_before(rows[i].0, rows[j].0));
    } else if j < i {
        law_text_order_irreflexive(key);
        assert(text_before(rows[j].0, rows[i].0));
    }
}

/// Rows that ascend stand in the order of their texts, no text twice, and the value of each is
/// found under its text; under any other text none is.
pub proof fn law_rows_by_text<V>(rows: Seq<(Seq<char>, V)>, i: int, j: int, key: Seq<char>)
    requires
        ascending(rows),
        0 <= i < j < rows.len(),
    ensures
        text_before(rows[i].0, rows[j].0),
        rows[i].0 != rows[j].0,
        map_of(rows).contains_key(rows[i].0),
        map_of(rows)[rows[i].0] == rows[i].1,
        map_of(rows)[rows[j].0] == rows[j].1,
        (forall|k: int| 0 <= k < rows.len() ==> (#[trigger] rows[k]).0 != key)
            ==> !map_of(rows).contains_key(key),
{
    lemma_row(rows, i);
    lemma_row(rows, j);
    law_text_order_irreflexive(rows[i].0);
}

impl<V> View for Table<V> {
    type V = Map<Seq<char>, V>;

    open spec fn view(&self) -> Map<Seq<char>, V> {
        map_of(self.rows())
    }
}

impl<V> Table<V> {
    /// The rows in the order of their texts.
    pub closed spec fn rows(self) -> Seq<(Seq<char>, V)> {
        rows_of(self.entries@)
    }

    #[verifier::type_invariant]
    spec fn in_order(self) -> bool {
        ascending(self.rows())
    }

    /// An empty table.
    pub fn new() -> (r: Table<V>)
        ensures
            r@ == Map::<Seq<char>, V>::empty(),
            r.rows() == Seq::<(Seq<char>, V)>::empty(),
    {
        let r: Table<V> = Table { entries: Vec::new() };
        assert(r.rows() =~= Seq::<(Seq<char>, V)>::empty());
        assert(r@ =~= Map::<Seq<char>, V>::empty());
        r
    }

    /// The number of rows.
    pub fn len(&self) -> (r: usize)
        ensures
            r == self.rows().len(),
            ascending(self.rows()),
    {
        proof {
            use_type_invariant(self);
        }
        self.entries.len()
    }

    /// Whether the table holds nothing.
    pub fn is_empty(&self) -> (r: bool)
        ensures
            r == (self.rows().len() == 0),
            r == (self@ == Map::<Seq<char>, V>::empty()),
    {
        proof {
            use_type_invariant(self);
            if self.rows().len() == 0 {
                assert(self@ =~= Map::<Seq<char>, V>::empty());
            } else {
                lemma_row(self.rows(), 0);
            }
        }
        self.entries.len() == 0
    }

    /// The text of row `i`.
    pub fn key_at(&self, i: usize) -> (r: &str)
        requires
            i < self.rows().len(),
        ensures
            r@ == self.rows()[i as int].0,
    {
        self.entries[i].0.as_str()
    }

    /// The value of row `i`.
    pub fn value_at(&self, i: usize) -> (r: &V)
        requires
            i < self.rows().len(),
        ensures
            *r == self.rows()[i as int].1,
            self@.contains_key(self.rows()[i as int].0),
            self@[self.rows()[i as int].0] == *r,
    {
        proof {
            use_type_invariant(self);
            lemma_row(self.rows(), i as int);
        }
        &self.entries[i].1
    }

    /// The value under `key`.
    pub fn get(&self, key: &str) -> (r: Option<&V>)
        ensures
            match r {
                Some(v) => self@.contains_key(key@) && *v == self@[key@],
                None => !self@.contains_key(key@),
            },
    {
        proof {
            use_type_invariant(self);
        }
        let k: Vec<char> = chars_of(key);
        let mut i: usize = 0;
        while i < self.entries.len()
            invariant
                k@ == key@,
                i <= self.entries@.len(),
                ascending(self.rows()),
                forall|j: int| 0 <= j < i ==> (#[trigger] self.rows()[j]).0 != key@,
            decreases self.entries@.len() - i,
        {
            assert(self.rows()[i as int].0 == self.entries@[i as int].0@);
            if text::same(self.entries[i].0.as_str(), key) {
                proof {
                    lemma_row(self.rows(), i as int);
                }
                return Some(&self.entries[i].1);
            }
            i = i + 1;
        }
        None
    }

    /// Puts `value` under `key`, in place of what stood there.
    pub fn insert(&mut self, key: String, value: V)
        ensures
            final(self)@ == old(self)@.insert(key@, value),
    {
        proof {
            use_type_invariant(&*self);
        }
        let ghost before = rows_of(self.entries@);
        let mut entries: Vec<(String, V)> = Vec::new();
        std::mem::swap(&mut entries, &mut self.entries);
        let k: Vec<char> = chars_of(key.as_str());
        let mut i: usize = 0;
        let mut found: bool = false;
        while i < entries.len() && !found
            invariant
                k@ == key@,
                i <= entries@.len(),
                before == rows_of(entries@),
                ascending(before),
                found ==> i < entries@.len() && before[i as int].0 == key@,
                forall|j: int| 0 <= j < i ==> text_before((#[trigger] before[j]).0, key@),
            ensures
                i <= entries@.len(),
                before == rows_of(entries@),
                ascending(before),
                found ==> i < entries@.len() && before[i as int].0 == key@,
                !found && i < entries@.len() ==> text_before(key@, before[i as int].0),
                forall|j: int| 0 <= j < i ==> text_before((#[trigger] before[j]).0, key@),
            decreases
                entries@.len() - i + (if found {
                    0int
                } else {
                    1int
                }),
        {
            assert(before[i as int].0 == entries@[i as int].0@);
            let there: Vec<char> = chars_of(entries[i].0.as_str());
            match rank(&there, &k) {
                Rank::Before => {
                    i = i + 1;
                },
                Rank::Same => {
                    found = true;
                },
                Rank::After => {
                    break;
                },
            }
        }
        let ghost row = (key@, value);
        if found {
            entries[i] = (key, value);
            proof {
                lemma_replaced(before, i as int, row);
                assert(rows_of(entries@) =~= before.update(i as int, row));
            }
        } else {
            entries.insert(i, (key, value));
            proof {
                lemma_inserted(before, i as int, row);
                assert(rows_of(entries@) =~= before.insert(i as int, row));
            }
        }
        self.entries = entries;
    }
}

/// The rows that a vector of pairs stands for.
spec fn rows_of<V>(entries: Seq<(String, V)>) -> Seq<(Seq<char>, V)> {
    entries.map_values(|e: (String, V)| (e.0@, e.1))
}

/// `after` holds `row`, and otherwise what `rows` holds under other texts.
proof fn lemma_map_inserted<V>(
    rows: Seq<(Seq<char>, V)>,
    after: Seq<(Seq<char>, V)>,
    row: (Seq<char>, V),
)
    requires
        ascending(rows),
        ascending(after),
        forall|j: int|
            0 <= j < rows.len() && (#[trigger] rows[j]).0 != row.0 ==> exists|l: int|
                0 <= l < after.len() && after[l] == rows[j],
        forall|l: int|
            0 <= l < after.len() && (#[trigger] after[l]).0 != row.0 ==> exists|j: int|
                0 <= j < rows.len() && rows[j] == after[l],
        exists|l: int| 0 <= l < after.len() && after[l] == row,
    ensures
        map_of(after) == map_of(rows).insert(row.0, row.1),
{
    let m = map_of(rows).insert(row.0, row.1);
    let l0 = choose|l: int| 0 <= l < after.len() && after[l] == row;
    lemma_row(after, l0);
    assert forall|key: Seq<char>| #[trigger] map_of(after).contains_key(key) == m.contains_key(key)
        && (m.contains_key(key) ==> map_of(after)[key] == m[key]) by {
        if key != row.0 {
            if map_of(after).contains_key(key) {
                let l = choose|l: int| row_under(after, key, l);
                let j = choose|j: int| 0 <= j < rows.len() && rows[j] == after[l];
                lemma_row(after, l);
                lemma_row(rows, j);
            }
            if map_of(rows).contains_key(key) {
                let j = choose|j: int| row_under(rows, key, j);
                let l = choose|l: int| 0 <= l < after.len() && after[l] == rows[j];
                lemma_row(after, l);
                lemma_row(rows, j);
            }
        }
    }
    assert(map_of(after) =~= m);
}

proof fn lemma_replaced<V>(rows: Seq<(Seq<char>, V)>, i: int, row: (Seq<char>, V))
    requires
        ascending(rows),
        0 <= i < rows.len(),
        rows[i].0 == row.0,
    ensures
        ascending(rows.update(i, row)),
        map_of(rows.update(i, row)) == map_of(rows).insert(row.0, row.1),
{
    let after = rows.update(i, row);
    assert(ascending(after)) by {
        assert forall|a: int, b: int| 0 <= a < b < after.len() implies text_before(
            (#[trigger] after[a]).0,
            (#[trigger] after[b]).0,
        ) by {
            assert(text_before(rows[a].0, rows[b].0));
        }
    }
    assert forall|j: int| 0 <= j < rows.len() && (#[trigger] rows[j]).0 != row.0 implies exists|
        l: int,
    | 0 <= l < after.len() && after[l] == rows[j] by {
        assert(after[j] == rows[j]);
    }
    assert forall|l: int| 0 <= l < after.len() && (#[trigger] after[l]).0 != row.0 implies exists|
        j: int,
    | 0 <= j < rows.len() && rows[j] == after[l] by {
        assert(after[l] == rows[l]);
    }
    assert(after[i] == row);
    lemma_map_inserted(rows, after, row);
}

proof fn lemma_inserted<V>(rows: Seq<(Seq<char>, V)>, i: int, row: (Seq<char>, V))
    requires
        ascending(rows),
        0 <= i <= rows.len(),
        forall|j: int| 0 <= j < i ==> text_before((#[trigger] rows[j]).0, row.0),
        i < rows.len() ==> text_before(row.0, rows[i].0),
    ensures
        ascending(rows.insert(i, row)),
        map_of(rows.insert(i, row)) == map_of(rows).insert(row.0, row.1),
{
    let after = rows.insert(i, row);
    assert(ascending(after)) by {
        assert forall|a: int, b: int| 0 <= a < b < after.len() implies text_before(
            (#[trigger] after[a]).0,
            (#[trigger] after[b]).0,
        ) by {
            if a == i {
                if b > i + 1 {
                    assert(text_before(rows[i].0, rows[b - 1].0));
                    law_text_order_transitive(row.0, rows[i].0, rows[b - 1].0);
                }
            } else if b == i {
                assert(text_before(rows[a].0, row.0));
            } else {
                let x = if a < i {
                    a
                } else {
                    a - 1
                };
                let y = if b < i {
                    b
                } else {
                    b - 1
                };
                assert(text_before(rows[x].0, rows[y].0));
            }
        }
    }
    assert forall|j: int| 0 <= j < rows.len() && (#[trigger] rows[j]).0 != row.0 implies exists|
        l: int,
    | 0 <= l < after.len() && after[l] == rows[j] by {
        if j < i {
            assert(after[j] == rows[j]);
        } else {
            assert(after[j + 1] == rows[j]);
        }
    }
    assert forall|l: int| 0 <= l < after.len() && (#[trigger] after[l]).0 != row.0 implies exists|
        j: int,
    | 0 <= j < rows.len() && rows[j] == after[l] by {
        if l < i {
            assert(after[l] == rows[l]);
        } else {
            assert(after[l] == rows[l - 1]);
        }
    }
    assert(after[i] == row);
    lemma_map_inserted(rows, after, row);
}

}
