//! What the login window hears of the platform's page, and what is kept of it.

use crate::balance;
use crate::balance::find_balance;
use crate::decode;
use crate::json;
use crate::json::Json;
use crate::session;
use crate::session::{is_replayable, url_path, Cache, Endpoint, EndpointView, Session};
use crate::table::Table;
use crate::text;
use crate::text::{digits_of, push_range, same};
use crate::usage;
use crate::usage::{normalize_captures, Day};
use vstd::prelude::*;

verus! {

/// A message of the page.
#[derive(Debug)]
pub struct Msg {
    pub kind: String,
    pub url: String,
    pub method: String,
    pub auth: String,
    pub body: Option<String>,
    pub content_type: String,
    pub status: i64,
    pub text: String,
}

/// A captured request with what it was answered.
#[derive(Debug)]
pub struct Cap {
    pub ep: Endpoint,
    pub json: Json,
    /// The answer as it came.
    pub text: String,
}

/// What a captured request with its answer says.
pub struct CapView {
    pub ep: EndpointView,
    pub json: json::Tree,
    pub text: Seq<char>,
}

impl View for Cap {
    type V = CapView;

    open spec fn view(&self) -> CapView {
        CapView { ep: self.ep@, json: self.json@, text: self.text@ }
    }
}

/// What is to be done about a message.
#[derive(Clone, Copy, Debug, PartialEq, Eq, Structural)]
pub enum Heard {
    /// Nothing.
    Nothing,
    /// The user is done.
    Finish,
    /// A request was captured; so many there are now.
    Count(usize),
}

/// The captured requests, by method and path: of each the latest.
#[derive(Debug)]
pub struct Captures {
    pub caps: Table<Cap>,
}

impl View for Captures {
    type V = Map<Seq<char>, CapView>;

    open spec fn view(&self) -> Map<Seq<char>, CapView> {
        self.caps@.map_values(|c: Cap| c@)
    }
}

/// What was captured says what its parts say, each in its place.
pub proof fn law_capture_said(c: Cap)
    ensures
        c@.ep == c.ep@,
        c@.json == c.json@,
        c@.text == c.text@,
{
}

// ───────── what is captured ─────────

impl Msg {
    /// The message reports an answer that may be worth keeping: it came with status 200, it
    /// is not empty, and the request may be sent again.
    pub open spec fn is_wanted(self) -> bool {
        &&& self.kind@ == "cap"@
        &&& self.status == 200
        &&& self.text@.len() > 0
        &&& session::is_usage_url(self.url@)
    }

    /// The request that the message reports.
    pub open spec fn endpoint(self) -> EndpointView {
        EndpointView {
            url: self.url@,
            method: self.method@,
            auth: self.auth@,
            body: session::text_view(self.body),
            content_type: self.content_type@,
        }
    }

    /// Whether the message reports an answer that may be worth keeping.
    pub fn wanted(&self) -> (r: bool)
        ensures
            r == self.is_wanted(),
            r ==> self.kind@ == "cap"@ && self.status == 200 && self.text@.len() > 0
                && session::is_usage_url(self.url@),
            self.kind@ == "cap"@ && self.status == 200 && self.text@.len() > 0
                && session::is_usage_url(self.url@) ==> r,
    {
        same(self.kind.as_str(), "cap") && self.status == 200 && !self.text.as_str().is_empty()
            && is_replayable(self.url.as_str())
    }

    /// By what the request is known: its method and its path.
    pub open spec fn key(self) -> Seq<char> {
        self.method@ + seq![' '] + session::path_of(self.url@)
    }
}

/// What is captured after a message whose text reads as `answer`.
pub open spec fn captured(
    before: Map<Seq<char>, CapView>,
    msg: Msg,
    answer: Option<json::Tree>,
) -> Map<Seq<char>, CapView> {
    match answer {
        Some(tree) => if msg.is_wanted() {
            before.insert(
                msg.key(),
                CapView { ep: msg.endpoint(), json: tree, text: msg.text@ },
            )
        } else {
            before
        },
        None => before,
    }
}

/// Of two answers to a request of the same method and path, the later one is kept, and the
/// request with it.
pub proof fn law_latest_kept(
    before: Map<Seq<char>, CapView>,
    first: Msg,
    first_answer: Option<json::Tree>,
    second: Msg,
    second_answer: json::Tree,
)
    requires
        second.is_wanted(),
        first.key() == second.key(),
    ensures
        captured(captured(before, first, first_answer), second, Some(second_answer)) == captured(
            before,
            second,
            Some(second_answer),
        ),
        captured(before, second, Some(second_answer))[second.key()].json == second_answer,
{
    assert(captured(captured(before, first, first_answer), second, Some(second_answer)) =~= captured(
        before,
        second,
        Some(second_answer),
    ));
}

/// What is kept of a wanted message is the whole of the request, the answer and its text, under
/// the method and the path; everything else that is kept stays.
pub proof fn law_whole_request_kept(
    before: Map<Seq<char>, CapView>,
    msg: Msg,
    answer: json::Tree,
    other: Seq<char>,
)
    requires
        msg.is_wanted(),
    ensures
        ({
            let key = msg.method@ + seq![' '] + session::path_of(msg.url@);
            let after = captured(before, msg, Some(answer));
            &&& after.contains_key(key)
            &&& after[key].ep.url == msg.url@
            &&& after[key].ep.method == msg.method@
            &&& after[key].ep.auth == msg.auth@
            &&& after[key].ep.body == session::text_view(msg.body)
            &&& after[key].ep.content_type == msg.content_type@
            &&& after[key].json == answer
            &&& after[key].text == msg.text@
            &&& other != key ==> (after.contains_key(other) <==> before.contains_key(other))
            &&& other != key && before.contains_key(other) ==> after[other] == before[other]
        }),
{
}

/// A message that is not wanted changes nothing, and neither does one without an answer in JSON:
/// only an answer with status 200 to a request that may be sent again is kept.
pub proof fn law_only_wanted_kept(
    before: Map<Seq<char>, CapView>,
    msg: Msg,
    answer: Option<json::Tree>,
)
    ensures
        msg.kind@ != "cap"@ || msg.status != 200 || msg.text@.len() == 0 || !session::is_usage_url(
            msg.url@,
        ) || answer is None ==> captured(before, msg, answer) == before,
        msg.kind@ == "cap"@ && msg.status == 200 && msg.text@.len() > 0 && session::is_usage_url(
            msg.url@,
        ) ==> msg.is_wanted(),
{
}

/// Answers to requests of different methods or paths are kept beside each other, in whatever
/// order they come.
pub proof fn law_others_kept(
    before: Map<Seq<char>, CapView>,
    first: Msg,
    first_answer: Option<json::Tree>,
    second: Msg,
    second_answer: Option<json::Tree>,
)
    requires
        first.key() != second.key(),
    ensures
        captured(captured(before, first, first_answer), second, second_answer) == captured(
            captured(before, second, second_answer),
            first,
            first_answer,
        ),
{
    assert(captured(captured(before, first, first_answer), second, second_answer) =~= captured(
        captured(before, second, second_answer),
        first,
        first_answer,
    ));
}

impl Captures {
    /// Every captured request may be sent again.
    pub open spec fn all_replayable(self) -> bool {
        forall|key: Seq<char>| #[trigger]
            self@.contains_key(key) ==> session::is_usage_url(self@[key].ep.url)
    }

    /// The answers that were captured, in the order of their keys.
    pub open spec fn answers(self) -> Seq<json::Tree> {
        self.caps.rows().map_values(|row: (Seq<char>, Cap)| row.1.json@)
    }

    /// Nothing captured.
    pub fn new() -> (r: Captures)
        ensures
            r@ == Map::<Seq<char>, CapView>::empty(),
            r.all_replayable(),
    {
        let r: Captures = Captures { caps: Table::new() };
        assert(r@ =~= Map::<Seq<char>, CapView>::empty());
        r
    }

    /// Takes a message of the page in.
    pub fn hear(&mut self, msg: Msg) -> (r: Heard)
        ensures
            final(self)@ == captured(old(self)@, msg, decode::json_of(msg.text@)),
            old(self).all_replayable() ==> final(self).all_replayable(),
            match r {
                Heard::Finish => msg.kind@ == "finish"@,
                Heard::Count(n) => msg.kind@ != "finish"@ && msg.is_wanted() && decode::json_of(
                    msg.text@,
                ) is Some && n == final(self).caps.rows().len(),
                Heard::Nothing => msg.kind@ != "finish"@ && !(msg.is_wanted() && decode::json_of(
                    msg.text@,
                ) is Some),
            },
    {
        let answer: Option<Json> = if msg.wanted() {
            Json::parse(msg.text.as_str())
        } else {
            None
        };
        self.hear_answer(msg, answer)
    }

    /// Takes a message of the page in, given what its text reads as.
    pub fn hear_answer(&mut self, msg: Msg, answer: Option<Json>) -> (r: Heard)
        ensures
            final(self)@ == captured(
                old(self)@,
                msg,
                match answer {
                    Some(j) => Some(j@),
                    None => None,
                },
            ),
            old(self).all_replayable() ==> final(self).all_replayable(),
            match r {
                Heard::Finish => msg.kind@ == "finish"@,
                Heard::Count(n) => msg.kind@ != "finish"@ && msg.is_wanted() && answer is Some && n
                    == final(self).caps.rows().len(),
                Heard::Nothing => msg.kind@ != "finish"@ && !(msg.is_wanted() && answer is Some),
            },
    {
        if same(msg.kind.as_str(), "finish") {
            proof {
                reveal_strlit("finish");
                reveal_strlit("cap");
                assert("finish"@.len() != "cap"@.len());
            }
            return Heard::Finish;
        }
        if !msg.wanted() {
            return Heard::Nothing;
        }
        let json: Json = match answer {
            Some(j) => j,
            None => {
                return Heard::Nothing;
            },
        };
        let ghost before = self@;
        let ghost tree = json@;
        let path: String = url_path(msg.url.as_str());
        let mut key: String = msg.method.clone();
        key.push(' ');
        key.append(path.as_str());
        assert(key@ =~= msg.key());
        let ghost k = key@;
        let cap: Cap = Cap {
            ep: Endpoint {
                url: msg.url,
                method: msg.method,
                auth: msg.auth,
                body: msg.body,
                content_type: msg.content_type,
            },
            json,
            text: msg.text,
        };
        let ghost view = cap@;
        self.caps.insert(key, cap);
        proof {
            assert(self@ =~= before.insert(k, view));
        }
        Heard::Count(self.caps.len())
    }

    /// The answers that were captured, in the order of their keys.
    fn jsons(&self) -> (r: Vec<Json>)
        ensures
            usage::trees(r@) == self.answers(),
    {
        let n: usize = self.caps.len();
        let mut r: Vec<Json> = Vec::new();
        let mut i: usize = 0;
        while i < n
            invariant
                n == self.caps.rows().len(),
                i <= n,
                r@.len() == i,
                forall|j: int| 0 <= j < i ==> (#[trigger] r@[j])@ == self.answers()[j],
            decreases n - i,
        {
            r.push(self.caps.value_at(i).json.copy());
            i = i + 1;
        }
        assert(usage::trees(r@) =~= self.answers());
        r
    }

    /// The session to be saved: the captured requests in the order of their keys; none
    /// where nothing is captured.
    pub fn session(&self, now: String) -> (r: Option<Session>)
        ensures
            match r {
                Some(s) => {
                    &&& self.caps.rows().len() > 0
                    &&& s.endpoints@.len() == self.caps.rows().len()
                    &&& forall|i: int|
                        0 <= i < s.endpoints@.len() ==> (#[trigger] s.endpoints@[i])@
                            == self.caps.rows()[i].1.ep@
                    &&& s.cookie@ == Seq::<char>::empty()
                    &&& s.saved_at@ == now@
                    &&& self.all_replayable() ==> forall|i: int|
                        0 <= i < s.endpoints@.len() ==> session::is_usage_url(
                            (#[trigger] s.endpoints@[i]).url@,
                        )
                },
                None => self.caps.rows().len() == 0,
            },
    {
        let n: usize = self.caps.len();
        if n == 0 {
            return None;
        }
        let mut endpoints: Vec<Endpoint> = Vec::new();
        let mut i: usize = 0;
        while i < n
            invariant
                n == self.caps.rows().len(),
                i <= n,
                endpoints@.len() == i,
                forall|j: int|
                    0 <= j < i ==> (#[trigger] endpoints@[j])@ == self.caps.rows()[j].1.ep@,
                self.all_replayable() ==> forall|j: int|
                    0 <= j < i ==> session::is_usage_url((#[trigger] endpoints@[j])@.url),
            decreases n - i,
        {
            let cap: &Cap = self.caps.value_at(i);
            assert(self@.contains_key(self.caps.rows()[i as int].0));
            endpoints.push(cap.ep.clone());
            i = i + 1;
        }
        Some(Session { endpoints, cookie: String::new(), saved_at: now })
    }

    /// The usage and the balance that the captured answers state, to be kept; none where
    /// they state neither.
    pub fn cache(&self, now: String) -> (r: Option<Cache>)
        ensures
            match r {
                Some(c) => {
                    &&& c.day_map@ == usage::usage_of(self.answers())
                    &&& session::balance_view(c.balance) == balance::balance_of(self.answers())
                    &&& c.fetched_at@ == now@
                    &&& c.day_map@ != Map::<Seq<char>, Day>::empty() || c.balance is Some
                },
                None => usage::usage_of(self.answers()) == Map::<Seq<char>, Day>::empty()
                    && balance::balance_of(self.answers()) is None,
            },
    {
        let jsons: Vec<Json> = self.jsons();
        let day_map: Table<Day> = normalize_captures(jsons.as_slice());
        let balance: Option<balance::Balance> = find_balance(jsons.as_slice());
        if !day_map.is_empty() || balance.is_some() {
            Some(Cache { day_map, balance, fetched_at: now })
        } else {
            None
        }
    }
}

/// What tells the page how many requests were captured.
pub fn count_script(n: usize) -> (r: String)
    ensures
        r@ == "window.__dsCount="@ + text::nat_text(n as nat) + seq![';'],
{
    let mut r: String = "window.__dsCount=".to_owned();
    let d: Vec<char> = digits_of(n as u64);
    push_range(&mut r, &d, 0, d.len());
    assert(d@.subrange(0, d@.len() as int) =~= d@);
    r.push(';');
    assert(r@ =~= "window.__dsCount="@ + text::nat_text(n as nat) + seq![';']);
    r
}

}
