//! Settings, and the window in which they are changed.

use crate::session;
use crate::text;
use crate::text::{push_text, same, starts_with, trim};
use vstd::prelude::*;
use vstd::utf8;

verus! {

/// How often usage is fetched, in seconds, where nothing else is set.
pub fn def_refresh() -> (r: u64)
    ensures
        r == 60,
{
    60
}

/// Of how many days usage is shown, where nothing else is set.
pub fn def_days() -> (r: i64)
    ensures
        r == 30,
{
    30
}

/// The seconds between two refreshes: those that are set, and 10 at least.
pub fn refresh_interval(seconds: u64) -> (r: u64)
    ensures
        r == if seconds < 10 {
            10
        } else {
            seconds
        },
{
    if seconds < 10 {
        10
    } else {
        seconds
    }
}

/// The settings that decide what the widget does.
#[derive(Debug, PartialEq)]
pub struct Settings {
    pub api_key: String,
    pub click_through: bool,
}

/// A change of settings.
#[derive(Debug, PartialEq)]
pub struct Change {
    /// The new key, where there is one.
    pub api_key: Option<String>,
    pub click_through: bool,
}

impl Settings {
    /// Takes over settings that were read again, and tells whether the key is another one:
    /// the balance is then asked for at once.
    pub fn reload(&mut self, fresh: Settings) -> (r: bool)
        ensures
            *final(self) == fresh,
            r == (old(self).api_key@ != fresh.api_key@),
    {
        let changed: bool = !same(self.api_key.as_str(), fresh.api_key.as_str());
        *self = fresh;
        changed
    }

    /// Makes a change.
    pub fn change(&mut self, c: Change)
        ensures
            final(self).api_key@ == match c.api_key {
                Some(k) => k@,
                None => old(self).api_key@,
            },
            final(self).click_through == c.click_through,
    {
        if let Some(k) = c.api_key {
            self.api_key = k;
        }
        self.click_through = c.click_through;
    }
}

/// What the window has to be told about letting the mouse through, if anything: only what it
/// was not told last.
pub fn passthrough(applied: Option<bool>, wanted: bool) -> (r: Option<bool>)
    ensures
        r == if applied == Some(wanted) {
            None::<bool>
        } else {
            Some(wanted)
        },
{
    match applied {
        Some(a) => if a == wanted {
            None
        } else {
            Some(wanted)
        },
        None => Some(wanted),
    }
}

// ───────── the key ─────────

/// The key can be cut six bytes from its front and four bytes from its back, where it is long
/// enough to be cut.
pub open spec fn can_be_masked(key: Seq<char>) -> bool {
    let b = utf8::encode_utf8(key);
    b.len() > 12 ==> utf8::is_char_boundary(b, 6) && utf8::is_char_boundary(b, b.len() - 4)
}

/// What is shown of a key.
pub open spec fn masked(key: Seq<char>) -> Seq<char> {
    let b = utf8::encode_utf8(key);
    if b.len() > 12 {
        utf8::decode_utf8(b.subrange(0, 6)) + "…"@ + utf8::decode_utf8(
            b.subrange(b.len() - 4, b.len() as int),
        )
    } else if key.len() == 0 {
        "（未设置）"@
    } else {
        key
    }
}

/// Whether a key can be cut as it is to be shown.
pub fn maskable(cur: &str) -> (r: bool)
    ensures
        r == can_be_masked(cur@),
{
    let n: usize = cur.as_bytes().len();
    n <= 12 || (cur.is_char_boundary(6) && cur.is_char_boundary(n - 4))
}

/// What is shown of a key: its front and its back.
pub fn mask_key(cur: &str) -> (r: String)
    requires
        can_be_masked(cur@),
    ensures
        r@ == masked(cur@),
        cur@.len() == 0 ==> r@ == "（未设置）"@,
        0 < utf8::encode_utf8(cur@).len() <= 12 ==> r@ == cur@,
{
    proof {
        law_short_key_shown(cur@);
    }
    let n: usize = cur.as_bytes().len();
    if n > 12 {
        let (front, _) = cur.split_at(6);
        let (_, back) = cur.split_at(n - 4);
        proof {
            utf8::encode_utf8_decode_utf8(front@);
            utf8::encode_utf8_decode_utf8(back@);
        }
        let mut r: String = front.to_owned();
        push_text(&mut r, "…");
        push_text(&mut r, back);
        r
    } else if cur.is_empty() {
        "（未设置）".to_owned()
    } else {
        cur.to_owned()
    }
}

/// A key of ASCII characters can be shown, by its first six and its last four characters where
/// it has more than twelve.
pub proof fn law_ascii_key_masked(key: Seq<char>)
    requires
        utf8::is_ascii_chars(key),
    ensures
        can_be_masked(key),
        key.len() > 12 ==> masked(key) == key.subrange(0, 6) + "…"@ + key.subrange(
            key.len() - 4,
            key.len() as int,
        ),
{
    let b = utf8::encode_utf8(key);
    let n = key.len() as int;
    utf8::is_ascii_chars_encode_utf8(key);
    utf8::encode_utf8_valid_utf8(key);
    if n > 12 {
        assert(b[6] < 128 && b[n - 4] < 128) by {
            assert(b[6] == key[6] as u8 && b[n - 4] == key[n - 4] as u8);
        }
        utf8::is_char_boundary_iff_not_is_continuation_byte(b, 6);
        utf8::is_char_boundary_iff_not_is_continuation_byte(b, n - 4);
        let front = key.subrange(0, 6);
        let back = key.subrange(n - 4, n);
        utf8::is_ascii_chars_encode_utf8(front);
        utf8::is_ascii_chars_encode_utf8(back);
        assert forall|i: int| 0 <= i < 6 implies b[i] == utf8::encode_utf8(front)[i] by {
            assert(front[i] == key[i]);
        }
        assert forall|i: int| 0 <= i < 4 implies b[n - 4 + i] == utf8::encode_utf8(back)[i] by {
            assert(back[i] == key[n - 4 + i]);
        }
        assert(b.subrange(0, 6) =~= utf8::encode_utf8(front));
        assert(b.subrange(n - 4, n) =~= utf8::encode_utf8(back));
        utf8::encode_utf8_decode_utf8(front);
        utf8::encode_utf8_decode_utf8(back);
    }
}

/// A key of at most twelve bytes is shown as it is; where there is none, that is said.
pub proof fn law_short_key_shown(key: Seq<char>)
    ensures
        key.len() == 0 ==> masked(key) == "（未设置）"@,
        0 < utf8::encode_utf8(key).len() <= 12 ==> masked(key) == key,
        utf8::encode_utf8(key).len() <= 12 ==> can_be_masked(key),
{
    if key.len() == 0 {
        assert(utf8::encode_utf8(key).len() == 0) by {
            reveal_with_fuel(utf8::encode_utf8, 1);
        }
    }
}

/// Of a longer key what its first six bytes and its last four stand for is shown, and a mark for
/// what is left out between them.
pub proof fn law_ends_of_key_shown(key: Seq<char>, front: Seq<char>, back: Seq<char>)
    requires
        utf8::encode_utf8(key).len() > 12,
        utf8::encode_utf8(front) == utf8::encode_utf8(key).subrange(0, 6),
        utf8::encode_utf8(back) == utf8::encode_utf8(key).subrange(
            utf8::encode_utf8(key).len() - 4,
            utf8::encode_utf8(key).len() as int,
        ),
    ensures
        masked(key) == front + "…"@ + back,
{
    utf8::encode_utf8_decode_utf8(front);
    utf8::encode_utf8_decode_utf8(back);
}

/// A key is taken where there is none, or where it begins with `sk-`; no other is.
pub proof fn law_keys_taken(key: Seq<char>)
    ensures
        is_acceptable(key) <==> key.len() == 0 || key.len() >= 3 && key[0] == 's' && key[1] == 'k'
            && key[2] == '-',
{
    reveal_strlit("sk-");
    text::law_stands_by_characters(key, "sk-"@, 0);
    assert("sk-"@.len() == 3 && "sk-"@[0] == 's' && "sk-"@[1] == 'k' && "sk-"@[2] == '-');
}

/// A key can be taken: there is none, or it begins as keys do.
pub open spec fn is_acceptable(key: Seq<char>) -> bool {
    key.len() == 0 || text::occurs_at(key, "sk-"@, 0)
}

// ───────── the window ─────────

/// What stands in the window.
#[derive(Debug)]
pub struct Form {
    pub key_input: String,
    pub show_key: bool,
    pub cur_masked: String,
    pub click_through: bool,
    pub msg: String,
}

impl Form {
    /// The window as it opens.
    pub fn open(cur: &Settings) -> (r: Form)
        requires
            can_be_masked(cur.api_key@),
        ensures
            r.key_input@.len() == 0,
            !r.show_key,
            r.cur_masked@ == masked(cur.api_key@),
            r.click_through == cur.click_through,
            r.msg@.len() == 0,
    {
        Form {
            key_input: String::new(),
            show_key: false,
            cur_masked: mask_key(cur.api_key.as_str()),
            click_through: cur.click_through,
            msg: String::new(),
        }
    }

    /// The name of the button that shows or hides the key.
    pub fn key_button(&self) -> (r: &'static str)
        ensures
            r@ == if self.show_key {
                "隐藏"@
            } else {
                "显示"@
            },
    {
        if self.show_key {
            "隐藏"
        } else {
            "显示"
        }
    }

    /// The change to be saved; none, and a message, where the key cannot be taken. An empty
    /// key leaves the one that is set.
    pub fn press_save(&mut self) -> (r: Option<Change>)
        ensures
            final(self).key_input == old(self).key_input,
            final(self).show_key == old(self).show_key,
            final(self).cur_masked == old(self).cur_masked,
            final(self).click_through == old(self).click_through,
            match r {
                Some(c) => {
                    &&& is_acceptable(text::trimmed(old(self).key_input@))
                    &&& session::text_view(c.api_key) == if text::trimmed(
                        old(self).key_input@,
                    ).len() == 0 {
                        None::<Seq<char>>
                    } else {
                        Some(text::trimmed(old(self).key_input@))
                    }
                    &&& c.click_through == old(self).click_through
                    &&& final(self).msg == old(self).msg
                },
                None => {
                    &&& !is_acceptable(text::trimmed(old(self).key_input@))
                    &&& final(self).msg@ == "Key 看起来无效（应以 sk- 开头），未保存"@
                },
            },
    {
        let key: String = trim(self.key_input.as_str());
        if !key.as_str().is_empty() && !starts_with(key.as_str(), "sk-") {
            self.msg = "Key 看起来无效（应以 sk- 开头），未保存".to_owned();
            return None;
        }
        let api_key: Option<String> = if key.as_str().is_empty() {
            None
        } else {
            Some(key)
        };
        Some(Change { api_key, click_through: self.click_through })
    }
}

}
