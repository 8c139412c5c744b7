//! JSON values as the library reads them.

use crate::text::same;
use vstd::prelude::*;

verus! {

// ───────── the model ─────────

/// What is read of a JSON number.
pub struct Num {
    /// The number, where it was read as an integer and an `i64` holds it.
    pub int: Option<i64>,
    /// The bits of the floating-point number that the parser made of it, or that an integer is
    /// rounded to.
    pub float: Option<u64>,
    /// The number as it is printed again after it was read; the text it was read from may have
    /// been another.
    pub text: Seq<char>,
}

/// A JSON value.
pub enum Tree {
    Null,
    Bool(bool),
    Number(Num),
    Text(Seq<char>),
    Array(Seq<Tree>),
    Object(Seq<(Seq<char>, Tree)>),
}

/// The position of the first entry under `key` at `i` or behind it.
pub open spec fn entry_from(entries: Seq<(Seq<char>, Tree)>, key: Seq<char>, i: int) -> Option<int>
    decreases entries.len() - i,
{
    if i < 0 || i >= entries.len() {
        None
    } else if entries[i].0 == key {
        Some(i)
    } else {
        entry_from(entries, key, i + 1)
    }
}

impl Tree {
    /// The value under `key`, where this is an object that has it.
    pub open spec fn field(self, key: Seq<char>) -> Option<Tree> {
        match self {
            Tree::Object(entries) => match entry_from(entries, key, 0) {
                Some(i) => Some(entries[i].1),
                None => None,
            },
            _ => None,
        }
    }

    /// The item at `i`, where this is an array that has it.
    pub open spec fn item(self, i: int) -> Option<Tree> {
        match self {
            Tree::Array(items) => if 0 <= i < items.len() {
                Some(items[i])
            } else {
                None
            },
            _ => None,
        }
    }
}

/// The value that stands at `i` among those that an array or an object holds.
pub open spec fn child(v: Tree, i: int) -> Option<Tree> {
    match v {
        Tree::Array(items) => if 0 <= i < items.len() {
            Some(items[i])
        } else {
            None
        },
        Tree::Object(entries) => if 0 <= i < entries.len() {
            Some(entries[i].1)
        } else {
            None
        },
        _ => None,
    }
}

/// The value that a path leads to: each step says which of the values held to go into.
pub open spec fn part_at(v: Tree, path: Seq<int>) -> Option<Tree>
    decreases path.len(),
{
    if path.len() == 0 {
        Some(v)
    } else {
        match child(v, path[0]) {
            Some(c) => part_at(c, path.drop_first()),
            None => None,
        }
    }
}

/// A path behind a first step leads to where the rest of it leads from there.
pub proof fn lemma_step_first(v: Tree, i: int, rest: Seq<int>)
    requires
        child(v, i) is Some,
    ensures
        part_at(v, seq![i] + rest) == part_at(child(v, i)->0, rest),
{
    let path = seq![i] + rest;
    assert(path[0] == i);
    assert(path.drop_first() =~= rest);
}

/// The value under a key is that of the first entry with this key, and there is none where no
/// entry has it.
pub proof fn law_field_is_first(entries: Seq<(Seq<char>, Tree)>, key: Seq<char>)
    ensures
        match Tree::Object(entries).field(key) {
            Some(v) => exists|i: int|
                {
                    &&& 0 <= i < entries.len()
                    &&& #[trigger] entries[i] == (key, v)
                    &&& forall|j: int| 0 <= j < i ==> (#[trigger] entries[j]).0 != key
                },
            None => forall|i: int| 0 <= i < entries.len() ==> (#[trigger] entries[i]).0 != key,
        },
{
    lemma_entry_from(entries, key, 0);
    if let Some(i) = entry_from(entries, key, 0) {
        assert(entries[i] == (key, entries[i].1));
    }
}

proof fn lemma_entry_from(entries: Seq<(Seq<char>, Tree)>, key: Seq<char>, i: int)
    requires
        0 <= i,
    ensures
        match entry_from(entries, key, i) {
            Some(k) => {
                &&& i <= k < entries.len()
                &&& entries[k].0 == key
                &&& forall|j: int| i <= j < k ==> (#[trigger] entries[j]).0 != key
            },
            None => forall|j: int| i <= j < entries.len() ==> (#[trigger] entries[j]).0 != key,
        },
    decreases entries.len() - i,
{
    if i < entries.len() && entries[i].0 != key {
        lemma_entry_from(entries, key, i + 1);
    }
}

/// Only an object has a value under a key, and only an array an item.
pub proof fn law_only_holders_hold(v: Tree, key: Seq<char>, i: int)
    ensures
        v !is Object ==> v.field(key) is None,
        v !is Array ==> v.item(i) is None,
        v matches Tree::Array(items) ==> v.item(i) == if 0 <= i < items.len() {
            Some(items[i])
        } else {
            None
        },
{
}

// ───────── values ─────────

/// A JSON number, by what is read of it.
#[derive(Debug, PartialEq)]
pub struct Numeral {
    /// The number, where it was read as an integer and an `i64` holds it.
    pub int: Option<i64>,
    /// The bits of the floating-point number that the parser made of it, or that an integer is
    /// rounded to.
    pub float: Option<u64>,
    /// The number as it is printed again after it was read; the text it was read from may have
    /// been another.
    pub text: String,
}

/// A JSON value. The entries of an object stand in the order in which it is walked.
#[derive(Debug, PartialEq)]
pub enum Json {
    Null,
    Bool(bool),
    Number(Numeral),
    Text(String),
    Array(Vec<Json>),
    Object(Vec<(String, Json)>),
}

impl View for Numeral {
    type V = Num;

    open spec fn view(&self) -> Num {
        Num { int: self.int, float: self.float, text: self.text@ }
    }
}

impl View for Json {
    type V = Tree;

    open spec fn view(&self) -> Tree {
        tree_of(*self)
    }
}

/// The value that `j` stands for.
pub open spec fn tree_of(j: Json) -> Tree
    decreases j,
{
    match j {
        Json::Null => Tree::Null,
        Json::Bool(b) => Tree::Bool(b),
        Json::Number(n) => Tree::Number(n@),
        Json::Text(s) => Tree::Text(s@),
        Json::Array(items) => Tree::Array(
            Seq::new(
                items@.len(),
                |i: int|
                    if 0 <= i < items@.len() {
                        tree_of(items@[i])
                    } else {
                        Tree::Null
                    },
            ),
        ),
        Json::Object(entries) => Tree::Object(
            Seq::new(
                entries@.len(),
                |i: int|
                    if 0 <= i < entries@.len() {
                        (entries@[i].0@, tree_of(entries@[i].1))
                    } else {
                        (Seq::<char>::empty(), Tree::Null)
                    },
            ),
        ),
    }
}

/// A value stands for what it holds, each value in its place and under its key.
pub proof fn law_value_said(j: Json, i: int)
    ensures
        j is Null <==> j@ is Null,
        j matches Json::Bool(b) ==> j@ == Tree::Bool(b),
        j matches Json::Number(n) ==> (j@ matches Tree::Number(t) && t.int == n.int && t.float
            == n.float && t.text == n.text@),
        j matches Json::Text(s) ==> j@ == Tree::Text(s@),
        j matches Json::Array(items) ==> (j@ matches Tree::Array(t) && t.len() == items@.len() && (0
            <= i < t.len() ==> t[i] == items@[i]@)),
        j matches Json::Object(entries) ==> (j@ matches Tree::Object(t) && t.len() == entries@.len()
            && (0 <= i < t.len() ==> t[i] == (entries@[i].0@, entries@[i].1@))),
{
}

impl Json {
    /// A value that stands for the same.
    pub fn copy(&self) -> (r: Json)
        ensures
            r@ == self@,
        decreases self@,
    {
        match self {
            Json::Null => Json::Null,
            Json::Bool(b) => Json::Bool(*b),
            Json::Number(n) => Json::Number(
                Numeral { int: n.int, float: n.float, text: n.text.clone() },
            ),
            Json::Text(s) => Json::Text(s.clone()),
            Json::Array(items) => {
                let mut out: Vec<Json> = Vec::new();
                let mut i: usize = 0;
                while i < items.len()
                    invariant
                        *self == Json::Array(*items),
                        i <= items@.len(),
                        out@.len() == i,
                        forall|j: int| 0 <= j < i ==> (#[trigger] out@[j])@ == items@[j]@,
                    decreases items@.len() - i,
                {
                    assert(self@->Array_0[i as int] == items@[i as int]@);
                    assert(decreases_to!(self@ => self@->Array_0[i as int]));
                    out.push(items[i].copy());
                    i = i + 1;
                }
                let r = Json::Array(out);
                assert(r@->Array_0 =~= self@->Array_0);
                r
            },
            Json::Object(entries) => {
                let mut out: Vec<(String, Json)> = Vec::new();
                let mut i: usize = 0;
                while i < entries.len()
                    invariant
                        *self == Json::Object(*entries),
                        i <= entries@.len(),
                        out@.len() == i,
                        forall|j: int|
                            0 <= j < i ==> (#[trigger] out@[j]).0@ == entries@[j].0@ && out@[j].1@
                                == entries@[j].1@,
                    decreases entries@.len() - i,
                {
                    assert(self@->Object_0[i as int].1 == entries@[i as int].1@);
                    assert(decreases_to!(self@ => self@->Object_0[i as int].1));
                    out.push((entries[i].0.clone(), entries[i].1.copy()));
                    i = i + 1;
                }
                let r = Json::Object(out);
                assert(r@->Object_0 =~= self@->Object_0);
                r
            },
        }
    }

    /// The value under `key`, where this is an object that has it.
    pub fn get(&self, key: &str) -> (r: Option<&Json>)
        ensures
            match r {
                Some(j) => self@.field(key@) == Some(j@),
                None => self@.field(key@) is None,
            },
    {
        match self {
            Json::Object(entries) => {
                let ghost rows = self@->Object_0;
                let mut i: usize = 0;
                while i < entries.len()
                    invariant
                        *self == Json::Object(*entries),
                        rows == self@->Object_0,
                        i <= entries@.len(),
                        entry_from(rows, key@, 0) == entry_from(rows, key@, i as int),
                    decreases entries@.len() - i,
                {
                    assert(rows[i as int] == (entries@[i as int].0@, entries@[i as int].1@));
                    if same(entries[i].0.as_str(), key) {
                        return Some(&entries[i].1);
                    }
                    i = i + 1;
                }
                None
            },
            _ => None,
        }
    }

    /// The item at `i`, where this is an array that has it.
    pub fn item(&self, i: usize) -> (r: Option<&Json>)
        ensures
            match r {
                Some(j) => self@.item(i as int) == Some(j@),
                None => self@.item(i as int) is None,
            },
    {
        match self {
            Json::Array(items) => {
                if i < items.len() {
                    assert(self@->Array_0[i as int] == items@[i as int]@);
                    Some(&items[i])
                } else {
                    None
                }
            },
            _ => None,
        }
    }
}

}
