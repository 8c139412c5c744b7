//! The balance of the account, as the platform's answers state it.

use crate::amount;
use crate::amount::{above_zero, is_number};
use crate::json;
use crate::json::Json;
use crate::table::Table;
use crate::text;
use crate::text::{contains, lower, same, text_of};
use crate::usage;
use vstd::prelude::*;

verus! {

/// The balance of the account; amounts are texts, as the platform writes them.
#[derive(Debug, PartialEq)]
pub struct Balance {
    pub currency: String,
    pub total: String,
    pub granted: String,
    pub topped_up: String,
    pub is_available: bool,
    pub from_web: bool,
}

/// What a balance says.
pub struct BalanceView {
    pub currency: Seq<char>,
    pub total: Seq<char>,
    pub granted: Seq<char>,
    pub topped_up: Seq<char>,
    pub is_available: bool,
    pub from_web: bool,
}

impl View for Balance {
    type V = BalanceView;

    open spec fn view(&self) -> BalanceView {
        BalanceView {
            currency: self.currency@,
            total: self.total@,
            granted: self.granted@,
            topped_up: self.topped_up@,
            is_available: self.is_available,
            from_web: self.from_web,
        }
    }
}

impl Clone for Balance {
    fn clone(&self) -> (r: Balance)
        ensures
            r@ == self@,
    {
        Balance {
            currency: self.currency.clone(),
            total: self.total.clone(),
            granted: self.granted.clone(),
            topped_up: self.topped_up.clone(),
            is_available: self.is_available,
            from_web: self.from_web,
        }
    }
}

/// What a balance says is what its parts say, each in its place.
pub proof fn law_balance_said(b: Balance)
    ensures
        b@.currency == b.currency@,
        b@.total == b.total@,
        b@.granted == b.granted@,
        b@.topped_up == b.topped_up@,
        b@.is_available == b.is_available,
        b@.from_web == b.from_web,
{
}

// ───────── what an answer says of the balance ─────────

/// The amount that a value writes down.
pub open spec fn amount_text(v: json::Tree) -> Option<Seq<char>> {
    match v {
        json::Tree::Text(s) => Some(s),
        json::Tree::Number(n) => Some(n.text),
        _ => None,
    }
}

/// What one entry of an object says: an amount, where its name has `balance` in it and its
/// value is a number, and the currency.
pub open spec fn finds_at(key: Seq<char>, v: json::Tree) -> Seq<(Seq<char>, Seq<char>)> {
    (match amount_text(v) {
        Some(s) => if usage::mentions(key, "balance"@) && amount::is_float(s) {
            seq![(text::lowered(key), s)]
        } else {
            Seq::empty()
        },
        None => Seq::empty(),
    }) + (match v {
        json::Tree::Text(s) => if text::lowered(key) == "currency"@ {
            seq![("currency"@, s)]
        } else {
            Seq::empty()
        },
        _ => Seq::empty(),
    })
}

/// What a value says of the balance, in the order in which it is walked.
pub open spec fn finds_in(v: json::Tree) -> Seq<(Seq<char>, Seq<char>)>
    decreases v, 1int, 0int,
{
    match v {
        json::Tree::Array(items) => finds_below(v, items.len() as int),
        json::Tree::Object(entries) => finds_below(v, entries.len() as int),
        _ => Seq::empty(),
    }
}

/// What the first `n` values that an array or an object holds say of the balance.
pub open spec fn finds_below(v: json::Tree, n: int) -> Seq<(Seq<char>, Seq<char>)>
    decreases v, 0int, n,
{
    if n <= 0 {
        Seq::empty()
    } else {
        match v {
            json::Tree::Array(items) => if n <= items.len() {
                finds_below(v, n - 1) + finds_in(items[n - 1])
            } else {
                Seq::empty()
            },
            json::Tree::Object(entries) => if n <= entries.len() {
                finds_below(v, n - 1) + finds_at(entries[n - 1].0, entries[n - 1].1) + finds_in(
                    entries[n - 1].1,
                )
            } else {
                Seq::empty()
            },
            _ => Seq::empty(),
        }
    }
}

/// What the first `n` answers say of the balance.
pub open spec fn finds_of(answers: Seq<json::Tree>, n: int) -> Seq<(Seq<char>, Seq<char>)>
    decreases n,
{
    if n <= 0 {
        Seq::empty()
    } else {
        finds_of(answers, n - 1) + finds_in(answers[n - 1])
    }
}

/// The last that was said under `key`.
pub open spec fn last_find(finds: Seq<(Seq<char>, Seq<char>)>, key: Seq<char>) -> Option<Seq<char>>
    decreases finds.len(),
{
    if finds.len() == 0 {
        None
    } else if finds.last().0 == key {
        Some(finds.last().1)
    } else {
        last_find(finds.drop_last(), key)
    }
}

/// The first of two that is there.
pub open spec fn either(a: Option<Seq<char>>, b: Option<Seq<char>>) -> Option<Seq<char>> {
    if a is Some {
        a
    } else {
        b
    }
}

/// What was found, or else a stand-in.
pub open spec fn found_or(a: Option<Seq<char>>, other: Seq<char>) -> Seq<char> {
    match a {
        Some(s) => s,
        None => other,
    }
}

/// The balance that finds come to: there is one where a total is, and its other parts have
/// stand-ins.
pub open spec fn balance_of_finds(finds: Seq<(Seq<char>, Seq<char>)>) -> Option<BalanceView> {
    match either(
        last_find(finds, "total_balance"@),
        either(last_find(finds, "balance"@), last_find(finds, "available_balance"@)),
    ) {
        Some(total) => Some(
            BalanceView {
                currency: found_or(last_find(finds, "currency"@), "CNY"@),
                total,
                granted: found_or(last_find(finds, "granted_balance"@), "-"@),
                topped_up: found_or(last_find(finds, "topped_up_balance"@), "-"@),
                is_available: amount::is_positive(total),
                from_web: true,
            },
        ),
        None => None,
    }
}

/// The balance that answers state.
pub open spec fn balance_of(answers: Seq<json::Tree>) -> Option<BalanceView> {
    balance_of_finds(finds_of(answers, answers.len() as int))
}

// ───────── gathering ─────────

/// `found` holds the last find under each key.
spec fn holds(found: Map<Seq<char>, String>, finds: Seq<(Seq<char>, Seq<char>)>) -> bool {
    forall|key: Seq<char>|
        #![trigger last_find(finds, key)]
        last_find(finds, key) == if found.contains_key(key) {
            Some(found[key]@)
        } else {
            None
        }
}

proof fn lemma_holds_more(
    found: Map<Seq<char>, String>,
    finds: Seq<(Seq<char>, Seq<char>)>,
    key: Seq<char>,
    s: String,
)
    requires
        holds(found, finds),
    ensures
        holds(found.insert(key, s), finds + seq![(key, s@)]),
{
    let more = finds + seq![(key, s@)];
    assert(more.drop_last() =~= finds);
    assert(more.last() == (key, s@));
    assert forall|k: Seq<char>|
        #![trigger last_find(more, k)]
        last_find(more, k) == if found.insert(key, s).contains_key(k) {
            Some(found.insert(key, s)[k]@)
        } else {
            None
        } by {
        let _ = last_find(finds, k);
    }
}

fn note_entry(
    key: &str,
    v: &Json,
    found: &mut Table<String>,
    Ghost(finds): Ghost<Seq<(Seq<char>, Seq<char>)>>,
)
    requires
        holds(old(found)@, finds),
    ensures
        holds(final(found)@, finds + finds_at(key@, v@)),
{
    let lk: Vec<char> = lower(key);
    let name: String = text_of(&lk, 0, lk.len());
    assert(name@ =~= text::lowered(key@));
    let ghost mut now = finds;
    if contains(&lk, "balance") {
        let s: Option<String> = match v {
            Json::Text(s) => Some(s.clone()),
            Json::Number(n) => Some(n.text.clone()),
            _ => None,
        };
        if let Some(s) = s {
            if is_number(s.as_str()) {
                proof {
                    lemma_holds_more(found@, finds, name@, s);
                    now = finds + seq![(name@, s@)];
                }
                found.insert(name.clone(), s);
            }
        }
    }
    if same(name.as_str(), "currency") {
        if let Json::Text(s) = v {
            proof {
                lemma_holds_more(found@, now, "currency"@, *s);
                now = now + seq![("currency"@, s@)];
            }
            found.insert("currency".to_owned(), s.clone());
        }
    }
    assert(now =~= finds + finds_at(key@, v@));
}

fn walk_bal(
    v: &Json,
    found: &mut Table<String>,
    Ghost(finds): Ghost<Seq<(Seq<char>, Seq<char>)>>,
)
    requires
        holds(old(found)@, finds),
    ensures
        holds(final(found)@, finds + finds_in(v@)),
    decreases v@,
{
    let ghost tree = v@;
    match v {
        Json::Object(o) => {
            let mut i: usize = 0;
            assert(finds + finds_below(tree, 0) =~= finds);
            while i < o.len()
                invariant
                    tree == v@,
                    *v == Json::Object(*o),
                    i <= o@.len(),
                    holds(found@, finds + finds_below(tree, i as int)),
                decreases o@.len() - i,
            {
                let ghost now = finds + finds_below(tree, i as int);
                let ghost k = tree->Object_0[i as int].0;
                let ghost t = tree->Object_0[i as int].1;
                assert(k == o@[i as int].0@ && t == o@[i as int].1@);
                assert(decreases_to!(tree => tree->Object_0[i as int].1));
                note_entry(o[i].0.as_str(), &o[i].1, found, Ghost(now));
                walk_bal(&o[i].1, found, Ghost(now + finds_at(k, t)));
                assert(now + finds_at(k, t) + finds_in(t) =~= finds + finds_below(tree, i + 1));
                i = i + 1;
            }
        },
        Json::Array(a) => {
            let mut i: usize = 0;
            assert(finds + finds_below(tree, 0) =~= finds);
            while i < a.len()
                invariant
                    tree == v@,
                    *v == Json::Array(*a),
                    i <= a@.len(),
                    holds(found@, finds + finds_below(tree, i as int)),
                decreases a@.len() - i,
            {
                let ghost now = finds + finds_below(tree, i as int);
                let ghost t = tree->Array_0[i as int];
                assert(t == a@[i as int]@);
                assert(decreases_to!(tree => tree->Array_0[i as int]));
                walk_bal(&a[i], found, Ghost(now));
                assert(now + finds_in(t) =~= finds + finds_below(tree, i + 1));
                i = i + 1;
            }
        },
        _ => {
            assert(finds + finds_in(tree) =~= finds);
        },
    }
}

fn found_text(
    found: &Table<String>,
    key: &str,
    other: &str,
    Ghost(finds): Ghost<Seq<(Seq<char>, Seq<char>)>>,
) -> (r: String)
    requires
        holds(found@, finds),
    ensures
        r@ == found_or(last_find(finds, key@), other@),
{
    let ghost l = last_find(finds, key@);
    match found.get(key) {
        Some(s) => s.clone(),
        None => other.to_owned(),
    }
}

/// The balance that answers of the platform state: names that have `balance` in them, with
/// numbers as values, and the currency.
pub fn find_balance(objs: &[Json]) -> (r: Option<Balance>)
    ensures
        match r {
            Some(b) => balance_of(usage::trees(objs@)) == Some(b@),
            None => balance_of(usage::trees(objs@)) is None,
        },
{
    let ghost answers = usage::trees(objs@);
    let mut found: Table<String> = Table::new();
    assert(holds(found@, Seq::empty()));
    let mut i: usize = 0;
    while i < objs.len()
        invariant
            answers == usage::trees(objs@),
            i <= objs@.len(),
            holds(found@, finds_of(answers, i as int)),
        decreases objs@.len() - i,
    {
        walk_bal(&objs[i], &mut found, Ghost(finds_of(answers, i as int)));
        i = i + 1;
    }
    let ghost finds = finds_of(answers, answers.len() as int);
    let ghost names = (
        last_find(finds, "total_balance"@),
        last_find(finds, "balance"@),
        last_find(finds, "available_balance"@),
    );
    let total: String = match found.get("total_balance") {
        Some(s) => s.clone(),
        None => match found.get("balance") {
            Some(s) => s.clone(),
            None => match found.get("available_balance") {
                Some(s) => s.clone(),
                None => {
                    return None;
                },
            },
        },
    };
    Some(
        Balance {
            currency: found_text(&found, "currency", "CNY", Ghost(finds)),
            is_available: above_zero(total.as_str()),
            granted: found_text(&found, "granted_balance", "-", Ghost(finds)),
            topped_up: found_text(&found, "topped_up_balance", "-", Ghost(finds)),
            total,
            from_web: true,
        },
    )
}

// ───────── what holds of a balance ─────────

/// What was found under any name but that of the currency is a number.
spec fn all_amounts(finds: Seq<(Seq<char>, Seq<char>)>) -> bool {
    forall|i: int|
        0 <= i < finds.len() && (#[trigger] finds[i]).0 != "currency"@ ==> amount::is_float(
            finds[i].1,
        )
}

proof fn lemma_amounts_in(v: json::Tree)
    ensures
        all_amounts(finds_in(v)),
    decreases v, 1int, 0int,
{
    match v {
        json::Tree::Array(items) => lemma_amounts_below(v, items.len() as int),
        json::Tree::Object(entries) => lemma_amounts_below(v, entries.len() as int),
        _ => {},
    }
}

proof fn lemma_amounts_below(v: json::Tree, n: int)
    ensures
        all_amounts(finds_below(v, n)),
    decreases v, 0int, n,
{
    if n > 0 {
        match v {
            json::Tree::Array(items) => {
                if n <= items.len() {
                    lemma_amounts_below(v, n - 1);
                    lemma_amounts_in(items[n - 1]);
                }
            },
            json::Tree::Object(entries) => {
                if n <= entries.len() {
                    lemma_amounts_below(v, n - 1);
                    lemma_amounts_in(entries[n - 1].1);
                }
            },
            _ => {},
        }
    }
}

proof fn lemma_amounts_of(answers: Seq<json::Tree>, n: int)
    ensures
        all_amounts(finds_of(answers, n)),
    decreases n,
{
    if n > 0 {
        lemma_amounts_of(answers, n - 1);
        lemma_amounts_in(answers[n - 1]);
    }
}

proof fn lemma_amount_found(finds: Seq<(Seq<char>, Seq<char>)>, key: Seq<char>)
    requires
        all_amounts(finds),
        key != "currency"@,
    ensures
        last_find(finds, key) matches Some(s) ==> amount::is_float(s),
    decreases finds.len(),
{
    if finds.len() > 0 {
        assert(all_amounts(finds.drop_last()));
        lemma_amount_found(finds.drop_last(), key);
    }
}

/// The amounts of a balance that was found are numbers; where one was not found, `-` stands
/// in for it. The total is always found.
pub proof fn law_amounts_are_numbers(answers: Seq<json::Tree>)
    ensures
        balance_of(answers) matches Some(b) ==> {
            &&& amount::is_float(b.total)
            &&& b.granted == "-"@ || amount::is_float(b.granted)
            &&& b.topped_up == "-"@ || amount::is_float(b.topped_up)
            &&& b.from_web
        },
{
    let finds = finds_of(answers, answers.len() as int);
    lemma_amounts_of(answers, answers.len() as int);
    reveal_strlit("currency");
    reveal_strlit("total_balance");
    reveal_strlit("balance");
    reveal_strlit("available_balance");
    reveal_strlit("granted_balance");
    reveal_strlit("topped_up_balance");
    assert("currency"@.len() == 8);
    assert("total_balance"@.len() == 13);
    assert("balance"@.len() == 7);
    assert("available_balance"@.len() == 17);
    assert("granted_balance"@.len() == 15);
    assert("topped_up_balance"@.len() == 17);
    lemma_amount_found(finds, "total_balance"@);
    lemma_amount_found(finds, "balance"@);
    lemma_amount_found(finds, "available_balance"@);
    lemma_amount_found(finds, "granted_balance"@);
    lemma_amount_found(finds, "topped_up_balance"@);
}

proof fn lemma_finds_apart(a: Seq<json::Tree>, b: Seq<json::Tree>, n: int)
    requires
        0 <= n <= b.len(),
    ensures
        finds_of(a + b, a.len() + n) == finds_of(a, a.len() as int) + finds_of(b, n),
    decreases n,
{
    if n == 0 {
        lemma_finds_front(a, b, a.len() as int);
        assert(finds_of(b, 0) =~= Seq::empty());
        assert(finds_of(a, a.len() as int) + finds_of(b, 0) =~= finds_of(a, a.len() as int));
    } else {
        lemma_finds_apart(a, b, n - 1);
        assert((a + b)[a.len() + n - 1] == b[n - 1]);
        assert(finds_of(a + b, a.len() + n) =~= finds_of(a, a.len() as int) + finds_of(b, n));
    }
}

proof fn lemma_finds_front(a: Seq<json::Tree>, b: Seq<json::Tree>, n: int)
    requires
        0 <= n <= a.len(),
    ensures
        finds_of(a + b, n) == finds_of(a, n),
    decreases n,
{
    if n > 0 {
        lemma_finds_front(a, b, n - 1);
    }
}

proof fn lemma_last_of_two(
    a: Seq<(Seq<char>, Seq<char>)>,
    b: Seq<(Seq<char>, Seq<char>)>,
    key: Seq<char>,
)
    ensures
        last_find(a + b, key) == either(last_find(b, key), last_find(a, key)),
    decreases b.len(),
{
    if b.len() == 0 {
        assert(a + b =~= a);
    } else {
        assert((a + b).drop_last() =~= a + b.drop_last());
        lemma_last_of_two(a, b.drop_last(), key);
    }
}

/// Where two answers state the same part of the balance, the later one counts.
pub proof fn law_later_answers_count(a: Seq<json::Tree>, b: Seq<json::Tree>, key: Seq<char>)
    ensures
        last_find(finds_of(a + b, (a + b).len() as int), key) == either(
            last_find(finds_of(b, b.len() as int), key),
            last_find(finds_of(a, a.len() as int), key),
        ),
{
    lemma_finds_apart(a, b, b.len() as int);
    lemma_last_of_two(finds_of(a, a.len() as int), finds_of(b, b.len() as int), key);
}

// ───────── where a balance is from ─────────

/// The find at `i` is the last one under this name.
pub open spec fn is_last_find(
    finds: Seq<(Seq<char>, Seq<char>)>,
    name: Seq<char>,
    i: int,
) -> bool {
    &&& 0 <= i < finds.len()
    &&& finds[i].0 == name
    &&& forall|j: int| i < j < finds.len() ==> (#[trigger] finds[j]).0 != name
}

/// Nothing was found under this name.
pub open spec fn is_missing(finds: Seq<(Seq<char>, Seq<char>)>, name: Seq<char>) -> bool {
    forall|j: int| 0 <= j < finds.len() ==> (#[trigger] finds[j]).0 != name
}

proof fn lemma_last_find(finds: Seq<(Seq<char>, Seq<char>)>, name: Seq<char>) -> (i: int)
    ensures
        match last_find(finds, name) {
            Some(s) => is_last_find(finds, name, i) && s == finds[i].1,
            None => is_missing(finds, name),
        },
    decreases finds.len(),
{
    if finds.len() == 0 {
        0
    } else if finds.last().0 == name {
        finds.len() - 1
    } else {
        let rest = finds.drop_last();
        let i = lemma_last_find(rest, name);
        assert forall|j: int| 0 <= j < rest.len() implies #[trigger] finds[j] == rest[j] by {}
        i
    }
}

/// Each part of a balance that was found is the last that the answers state under its name; a
/// stand-in is told only where they state nothing under it. A total under the name for totals
/// goes before a plain balance, and that before an available one.
pub proof fn law_last_stated_told(answers: Seq<json::Tree>, i: int)
    ensures
        ({
            let finds = finds_of(answers, answers.len() as int);
            let none = is_missing(finds, "total_balance"@) && is_missing(finds, "balance"@)
                && is_missing(finds, "available_balance"@);
            &&& balance_of(answers) is None <==> none
            &&& balance_of(answers) matches Some(b) ==> {
                &&& is_last_find(finds, "topped_up_balance"@, i) ==> b.topped_up == finds[i].1
                &&& is_missing(finds, "topped_up_balance"@) ==> b.topped_up == "-"@
                &&& is_last_find(finds, "granted_balance"@, i) ==> b.granted == finds[i].1
                &&& is_missing(finds, "granted_balance"@) ==> b.granted == "-"@
                &&& is_last_find(finds, "currency"@, i) ==> b.currency == finds[i].1
                &&& is_missing(finds, "currency"@) ==> b.currency == "CNY"@
                &&& is_last_find(finds, "total_balance"@, i) ==> b.total == finds[i].1
                &&& is_missing(finds, "total_balance"@) && is_last_find(finds, "balance"@, i)
                    ==> b.total == finds[i].1
                &&& is_missing(finds, "total_balance"@) && is_missing(finds, "balance"@)
                    && is_last_find(finds, "available_balance"@, i) ==> b.total == finds[i].1
                &&& b.is_available <==> amount::is_positive(b.total)
                &&& b.from_web
            }
        }),
{
    let finds = finds_of(answers, answers.len() as int);
    let a = lemma_last_find(finds, "topped_up_balance"@);
    let b = lemma_last_find(finds, "granted_balance"@);
    let c = lemma_last_find(finds, "currency"@);
    let d = lemma_last_find(finds, "total_balance"@);
    let e = lemma_last_find(finds, "balance"@);
    let f = lemma_last_find(finds, "available_balance"@);
}

/// What an entry of an object says, by its name in small letters and its value: an amount where
/// the name has `balance` in it and the value is a number, as a number or as a text; a currency
/// where that is the name and the value is a text; and nothing otherwise.
pub proof fn law_entry_says(key: Seq<char>, v: json::Tree)
    ensures
        ({
            let name = text::lowered(key);
            let amount = text::occurs(name, "balance"@);
            &&& v matches json::Tree::Number(n) ==> finds_at(key, v) == if amount
                && amount::is_float(n.text) {
                seq![(name, n.text)]
            } else {
                Seq::empty()
            }
            &&& v matches json::Tree::Text(s) ==> finds_at(key, v) == if amount && amount::is_float(
                s,
            ) || name == "currency"@ {
                seq![(name, s)]
            } else {
                Seq::empty()
            }
            &&& v !is Number && v !is Text ==> finds_at(key, v) == Seq::<
                (Seq<char>, Seq<char>),
            >::empty()
        }),
{
    let name = text::lowered(key);
    lemma_currency_no_amount();
    if let json::Tree::Text(s) = v {
        if name == "currency"@ {
            assert(finds_at(key, v) =~= seq![(name, s)]);
        } else if text::occurs(name, "balance"@) && amount::is_float(s) {
            assert(finds_at(key, v) =~= seq![(name, s)]);
        } else {
            assert(finds_at(key, v) =~= Seq::<(Seq<char>, Seq<char>)>::empty());
        }
    } else if let json::Tree::Number(n) = v {
        if text::occurs(name, "balance"@) && amount::is_float(n.text) {
            assert(finds_at(key, v) =~= seq![(name, n.text)]);
        } else {
            assert(finds_at(key, v) =~= Seq::<(Seq<char>, Seq<char>)>::empty());
        }
    } else {
        assert(finds_at(key, v) =~= Seq::<(Seq<char>, Seq<char>)>::empty());
    }
}

/// The name of the currency is no name of an amount.
proof fn lemma_currency_no_amount()
    ensures
        !text::occurs("currency"@, "balance"@),
{
    reveal_strlit("currency");
    reveal_strlit("balance");
    assert forall|i: int| !text::occurs_at("currency"@, "balance"@, i) by {
        text::law_stands_by_characters("currency"@, "balance"@, i);
        assert("balance"@[0] == 'b');
        assert("currency"@.len() == 8 && "balance"@.len() == 7);
        if i == 0 {
            assert("currency"@[0] == 'c');
        }
        if i == 1 {
            assert("currency"@[1] == 'u');
        }
    }
}

proof fn lemma_below_of_front(
    a: Seq<(Seq<char>, json::Tree)>,
    b: Seq<(Seq<char>, json::Tree)>,
    n: int,
)
    requires
        0 <= n <= a.len(),
    ensures
        finds_below(json::Tree::Object(a + b), n) == finds_below(json::Tree::Object(a), n),
    decreases n,
{
    if n > 0 {
        lemma_below_of_front(a, b, n - 1);
        assert((a + b)[n - 1] == a[n - 1]);
    }
}

proof fn lemma_below_of_both(
    a: Seq<(Seq<char>, json::Tree)>,
    b: Seq<(Seq<char>, json::Tree)>,
    n: int,
)
    requires
        0 <= n <= b.len(),
    ensures
        finds_below(json::Tree::Object(a + b), a.len() + n) == finds_below(
            json::Tree::Object(a),
            a.len() as int,
        ) + finds_below(json::Tree::Object(b), n),
    decreases n,
{
    let front = finds_below(json::Tree::Object(a), a.len() as int);
    if n == 0 {
        lemma_below_of_front(a, b, a.len() as int);
        assert(front + finds_below(json::Tree::Object(b), 0) =~= front);
    } else {
        lemma_below_of_both(a, b, n - 1);
        assert((a + b)[a.len() + n - 1] == b[n - 1]);
        assert(finds_below(json::Tree::Object(a + b), a.len() + n) =~= front + finds_below(
            json::Tree::Object(b),
            n,
        ));
    }
}

/// An object is walked from its first entry to its last, and of each entry what it says itself
/// comes before what its value says.
pub proof fn law_entries_in_order(
    a: Seq<(Seq<char>, json::Tree)>,
    key: Seq<char>,
    v: json::Tree,
    b: Seq<(Seq<char>, json::Tree)>,
)
    ensures
        finds_in(json::Tree::Object(a + seq![(key, v)] + b)) == finds_in(json::Tree::Object(a))
            + finds_at(key, v) + finds_in(v) + finds_in(json::Tree::Object(b)),
        finds_in(json::Tree::Object(Seq::empty())) == Seq::<(Seq<char>, Seq<char>)>::empty(),
{
    let one = seq![(key, v)];
    lemma_below_of_both(a, one, 1);
    lemma_below_of_both(a + one, b, b.len() as int);
    assert(one[0] == (key, v));
    reveal_with_fuel(finds_below, 2);
    assert(finds_below(json::Tree::Object(one), 0) =~= Seq::empty());
    assert(finds_below(json::Tree::Object(one), 1) =~= finds_at(key, v) + finds_in(v));
    assert(finds_in(json::Tree::Object(a + one + b)) =~= finds_in(json::Tree::Object(a))
        + finds_at(key, v) + finds_in(v) + finds_in(json::Tree::Object(b)));
}

proof fn lemma_items_front(a: Seq<json::Tree>, v: json::Tree, n: int)
    requires
        0 <= n <= a.len(),
    ensures
        finds_below(json::Tree::Array(a.push(v)), n) == finds_below(json::Tree::Array(a), n),
    decreases n,
{
    if n > 0 {
        lemma_items_front(a, v, n - 1);
        assert(a.push(v)[n - 1] == a[n - 1]);
    }
}

/// An array is walked from its first item to its last; what is neither an object nor an array
/// says nothing by itself.
pub proof fn law_items_in_order(a: Seq<json::Tree>, v: json::Tree)
    ensures
        finds_in(json::Tree::Array(a.push(v))) == finds_in(json::Tree::Array(a)) + finds_in(v),
        finds_in(json::Tree::Array(Seq::empty())) == Seq::<(Seq<char>, Seq<char>)>::empty(),
        v !is Array && v !is Object ==> finds_in(v) == Seq::<(Seq<char>, Seq<char>)>::empty(),
{
    lemma_items_front(a, v, a.len() as int);
    assert(a.push(v)[a.len() as int] == v);
}

/// The answers are walked in their order.
pub proof fn law_answers_in_order(a: Seq<json::Tree>, v: json::Tree)
    ensures
        finds_of(a.push(v), a.len() as int + 1) == finds_of(a, a.len() as int) + finds_in(v),
{
    lemma_finds_front(a, seq![v], a.len() as int);
    assert(a + seq![v] =~= a.push(v));
    assert(a.push(v)[a.len() as int] == v);
}

/// In `v`, the entry `k` of an object to which `path` leads says `value` under `name`.
pub open spec fn says(
    v: json::Tree,
    path: Seq<int>,
    k: int,
    name: Seq<char>,
    value: Seq<char>,
) -> bool {
    match json::part_at(v, path) {
        Some(json::Tree::Object(entries)) => {
            &&& 0 <= k < entries.len()
            &&& text::lowered(entries[k].0) == name
            &&& amount_text(entries[k].1) == Some(value)
            &&& text::occurs(name, "balance"@) && amount::is_float(value) || name == "currency"@
                && entries[k].1 is Text
        },
        _ => false,
    }
}

proof fn lemma_find_at(key: Seq<char>, v: json::Tree, name: Seq<char>, value: Seq<char>)
    ensures
        finds_at(key, v).contains((name, value)) <==> {
            &&& text::lowered(key) == name
            &&& amount_text(v) == Some(value)
            &&& text::occurs(name, "balance"@) && amount::is_float(value) || name == "currency"@
                && v is Text
        },
{
    law_entry_says(key, v);
    let all = finds_at(key, v);
    if all.contains((name, value)) {
        let i = choose|i: int| 0 <= i < all.len() && all[i] == (name, value);
        assert(all[0] == (name, value));
    }
    if text::lowered(key) == name && amount_text(v) == Some(value) && (text::occurs(
        name,
        "balance"@,
    ) && amount::is_float(value) || name == "currency"@ && v is Text) {
        assert(all[0] == (name, value));
    }
}

proof fn lemma_find_source(v: json::Tree, name: Seq<char>, value: Seq<char>) -> (r: (Seq<int>, int))
    requires
        finds_in(v).contains((name, value)),
    ensures
        says(v, r.0, r.1, name, value),
    decreases v, 1int, 0int,
{
    match v {
        json::Tree::Array(items) => lemma_source_below(v, items.len() as int, name, value),
        json::Tree::Object(entries) => lemma_source_below(v, entries.len() as int, name, value),
        _ => (Seq::empty(), 0),
    }
}

proof fn lemma_source_below(
    v: json::Tree,
    n: int,
    name: Seq<char>,
    value: Seq<char>,
) -> (r: (Seq<int>, int))
    requires
        finds_below(v, n).contains((name, value)),
    ensures
        says(v, r.0, r.1, name, value),
    decreases v, 0int, n,
{
    let all = finds_below(v, n);
    let k = choose|k: int| 0 <= k < all.len() && all[k] == (name, value);
    let before = finds_below(v, n - 1);
    if k < before.len() {
        assert(before[k] == (name, value));
        lemma_source_below(v, n - 1, name, value)
    } else {
        match v {
            json::Tree::Array(items) => {
                assert(finds_in(items[n - 1])[k - before.len()] == (name, value));
                let (path, i) = lemma_find_source(items[n - 1], name, value);
                json::lemma_step_first(v, n - 1, path);
                (seq![n - 1] + path, i)
            },
            json::Tree::Object(entries) => {
                let here = finds_at(entries[n - 1].0, entries[n - 1].1);
                if k < before.len() + here.len() {
                    assert(here[k - before.len()] == (name, value));
                    lemma_find_at(entries[n - 1].0, entries[n - 1].1, name, value);
                    (Seq::empty(), n - 1)
                } else {
                    assert(finds_in(entries[n - 1].1)[k - before.len() - here.len()] == (
                        name,
                        value,
                    ));
                    let (path, i) = lemma_find_source(entries[n - 1].1, name, value);
                    json::lemma_step_first(v, n - 1, path);
                    (seq![n - 1] + path, i)
                }
            },
            _ => (Seq::empty(), 0),
        }
    }
}

proof fn lemma_below_grows(v: json::Tree, k: int, n: int, f: (Seq<char>, Seq<char>))
    requires
        0 <= k <= n,
        k < n ==> json::child(v, n - 1) is Some,
        finds_below(v, k).contains(f),
    ensures
        finds_below(v, n).contains(f),
    decreases n,
{
    if k < n {
        if k < n - 1 {
            assert(json::child(v, n - 2) is Some);
        }
        lemma_below_grows(v, k, n - 1, f);
        let before = finds_below(v, n - 1);
        let i = choose|i: int| 0 <= i < before.len() && before[i] == f;
        assert(finds_below(v, n)[i] == f);
    }
}

proof fn lemma_find_reaches(
    v: json::Tree,
    path: Seq<int>,
    k: int,
    name: Seq<char>,
    value: Seq<char>,
)
    requires
        says(v, path, k, name, value),
    ensures
        finds_in(v).contains((name, value)),
    decreases path.len(),
{
    let f = (name, value);
    let step = if path.len() == 0 {
        k
    } else {
        path[0]
    };
    let before = finds_below(v, step);
    let now = finds_below(v, step + 1);
    if path.len() == 0 {
        let entries = v->Object_0;
        lemma_find_at(entries[k].0, entries[k].1, name, value);
        let here = finds_at(entries[k].0, entries[k].1);
        let i = choose|i: int| 0 <= i < here.len() && here[i] == f;
        assert(now[before.len() + i] == f);
    } else {
        let c = json::child(v, step)->0;
        lemma_find_reaches(c, path.drop_first(), k, name, value);
        let i = choose|i: int| 0 <= i < finds_in(c).len() && finds_in(c)[i] == f;
        match v {
            json::Tree::Object(entries) => {
                let here = finds_at(entries[step].0, entries[step].1);
                assert(now[before.len() + here.len() + i] == f);
            },
            _ => {
                assert(now[before.len() + i] == f);
            },
        }
    }
    let n = match v {
        json::Tree::Array(items) => items.len() as int,
        json::Tree::Object(entries) => entries.len() as int,
        _ => 0,
    };
    lemma_below_grows(v, step + 1, n, f);
}

/// What an answer says of the balance is what the entries of every object in it say, however deep
/// it stands, and nothing else.
pub proof fn law_found_anywhere(v: json::Tree, name: Seq<char>, value: Seq<char>)
    ensures
        finds_in(v).contains((name, value)) <==> exists|path: Seq<int>, k: int| #[trigger]
            says(v, path, k, name, value),
{
    if finds_in(v).contains((name, value)) {
        let (path, k) = lemma_find_source(v, name, value);
        assert(says(v, path, k, name, value));
    }
    if exists|path: Seq<int>, k: int| #[trigger] says(v, path, k, name, value) {
        let (path, k) = choose|path: Seq<int>, k: int| #[trigger] says(v, path, k, name, value);
        lemma_find_reaches(v, path, k, name, value);
    }
}

proof fn lemma_finds_reach(answers: Seq<json::Tree>, n: int, a: int, f: (Seq<char>, Seq<char>))
    requires
        0 <= a < n <= answers.len(),
        finds_in(answers[a]).contains(f),
    ensures
        finds_of(answers, n).contains(f),
    decreases n,
{
    let before = finds_of(answers, n - 1);
    let here = finds_in(answers[n - 1]);
    if a == n - 1 {
        let i = choose|i: int| 0 <= i < here.len() && here[i] == f;
        assert((before + here)[before.len() + i] == f);
    } else {
        lemma_finds_reach(answers, n - 1, a, f);
        let i = choose|i: int| 0 <= i < before.len() && before[i] == f;
        assert((before + here)[i] == f);
    }
}

/// Wherever some answer states the amount that was topped up or granted, no stand-in is told for
/// it, and wherever one states a total under any of its names, a balance is told.
pub proof fn law_stated_amount_told(
    answers: Seq<json::Tree>,
    a: int,
    path: Seq<int>,
    k: int,
    name: Seq<char>,
    value: Seq<char>,
)
    requires
        0 <= a < answers.len(),
        says(answers[a], path, k, name, value),
    ensures
        name == "total_balance"@ || name == "balance"@ || name == "available_balance"@
            ==> balance_of(answers) is Some,
        balance_of(answers) matches Some(b) ==> {
            &&& name == "topped_up_balance"@ ==> amount::is_float(b.topped_up)
            &&& name == "granted_balance"@ ==> amount::is_float(b.granted)
        },
{
    let n = answers.len() as int;
    let finds = finds_of(answers, n);
    lemma_find_reaches(answers[a], path, k, name, value);
    lemma_finds_reach(answers, n, a, (name, value));
    let i = choose|i: int| 0 <= i < finds.len() && finds[i] == (name, value);
    assert(finds[i].0 == name);
    law_last_stated_told(answers, i);
    let top = lemma_last_find(finds, "topped_up_balance"@);
    let given = lemma_last_find(finds, "granted_balance"@);
    law_last_stated_told(answers, top);
    law_last_stated_told(answers, given);
    lemma_amounts_of(answers, n);
    reveal_strlit("currency");
    reveal_strlit("granted_balance");
    reveal_strlit("topped_up_balance");
    assert("currency"@.len() == 8);
    assert("granted_balance"@.len() == 15);
    assert("topped_up_balance"@.len() == 17);
}

/// The entry of a name that stands last in the last answer decides what is told under the name,
/// whatever the answers before it and the entries before it state.
pub proof fn law_last_entry_told(
    before: Seq<json::Tree>,
    front: Seq<(Seq<char>, json::Tree)>,
    key: Seq<char>,
    v: json::Tree,
    back: Seq<(Seq<char>, json::Tree)>,
    value: Seq<char>,
)
    requires
        v == json::Tree::Text(value) || (v matches json::Tree::Number(n) && n.text == value),
        amount::is_float(value),
        is_missing(finds_in(json::Tree::Object(back)), text::lowered(key)),
    ensures
        ({
            let answers = before.push(json::Tree::Object(front + seq![(key, v)] + back));
            let name = text::lowered(key);
            &&& name == "total_balance"@ ==> (balance_of(answers) matches Some(b) && b.total
                == value)
            &&& balance_of(answers) matches Some(b) ==> {
                &&& name == "topped_up_balance"@ ==> b.topped_up == value
                &&& name == "granted_balance"@ ==> b.granted == value
            }
        }),
{
    let last = json::Tree::Object(front + seq![(key, v)] + back);
    let answers = before.push(last);
    let name = text::lowered(key);
    let finds = finds_of(answers, answers.len() as int);
    law_answers_in_order(before, last);
    law_entries_in_order(front, key, v, back);
    law_items_in_order(Seq::empty(), v);
    law_entry_says(key, v);
    lemma_names_of_amounts();
    if name == "total_balance"@ || name == "topped_up_balance"@ || name == "granted_balance"@ {
        let a = finds_of(before, before.len() as int) + finds_in(json::Tree::Object(front));
        let b = finds_in(json::Tree::Object(back));
        let i = a.len() as int;
        assert(finds_at(key, v) == seq![(name, value)]);
        assert(finds =~= a + seq![(name, value)] + b);
        assert(finds[i] == (name, value));
        assert forall|j: int| i < j < finds.len() implies (#[trigger] finds[j]).0 != name by {
            assert(finds[j] == b[j - i - 1]);
        }
        assert(is_last_find(finds, name, i));
        law_last_stated_told(answers, i);
    }
}

/// The names of the amounts have `balance` in them.
proof fn lemma_names_of_amounts()
    ensures
        text::occurs("total_balance"@, "balance"@),
        text::occurs("topped_up_balance"@, "balance"@),
        text::occurs("granted_balance"@, "balance"@),
{
    reveal_strlit("balance");
    reveal_strlit("total_balance");
    reveal_strlit("topped_up_balance");
    reveal_strlit("granted_balance");
    assert("total_balance"@.subrange(6, 13) =~= "balance"@);
    assert("topped_up_balance"@.subrange(10, 17) =~= "balance"@);
    assert("granted_balance"@.subrange(8, 15) =~= "balance"@);
    assert(text::occurs_at("total_balance"@, "balance"@, 6));
    assert(text::occurs_at("topped_up_balance"@, "balance"@, 10));
    assert(text::occurs_at("granted_balance"@, "balance"@, 8));
}

}
