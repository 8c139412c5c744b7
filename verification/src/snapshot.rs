//! What the widget shows between two refreshes.

use crate::balance::{Balance, BalanceView};
use crate::chart;
use crate::chart::{fmt, tokens};
use crate::fetch::FetchResult;
use crate::session;
use crate::usage::Day;
use vstd::prelude::*;

verus! {

/// What is shown.
#[derive(Debug)]
pub struct Snapshot {
    pub series: Vec<(String, Day)>,
    pub balance: Option<Balance>,
    pub balance_err: Option<String>,
    pub note: String,
}

/// The balance after a refresh: the one that was fetched, or else the one that came with the
/// usage, or else the one that was shown before.
pub open spec fn balance_after(
    shown: Option<Balance>,
    with_usage: Option<Balance>,
    fetched: Result<Balance, String>,
) -> Option<BalanceView> {
    match fetched {
        Ok(b) => Some(b@),
        Err(_) => match with_usage {
            Some(b) => Some(b@),
            None => session::balance_view(shown),
        },
    }
}

/// Why no balance is shown after a refresh; nothing where one is.
pub open spec fn reason_after(
    shown: Option<Balance>,
    with_usage: Option<Balance>,
    fetched: Result<Balance, String>,
) -> Option<Seq<char>> {
    match fetched {
        Err(e) => if balance_after(shown, with_usage, fetched) is None {
            Some(e@)
        } else {
            None
        },
        Ok(_) => None,
    }
}

/// One round of refreshing: the balance is the one that was fetched, or else the one that came
/// with the usage, or else the one shown before; a reason is shown where there is none of them,
/// and only there; and a balance that is known stays known.
pub proof fn law_refresh_round(
    shown: Option<Balance>,
    with_usage: Option<Balance>,
    fetched: Result<Balance, String>,
)
    ensures
        balance_after(shown, with_usage, fetched) is Some <==> reason_after(
            shown,
            with_usage,
            fetched,
        ) is None,
        fetched is Ok ==> balance_after(shown, with_usage, fetched) == Some(fetched->Ok_0@),
        fetched is Err && with_usage is Some ==> balance_after(shown, with_usage, fetched)
            == session::balance_view(with_usage),
        fetched is Err && with_usage is None ==> balance_after(shown, with_usage, fetched)
            == session::balance_view(shown),
        shown is Some ==> balance_after(shown, with_usage, fetched) is Some,
{
}

impl Snapshot {
    /// Either a balance is shown or why there is none, never both and never neither.
    pub open spec fn is_settled(self) -> bool {
        self.balance is Some <==> self.balance_err is None
    }

    /// Nothing is known yet.
    pub fn loading() -> (r: Snapshot)
        ensures
            r.is_settled(),
            r.series@.len() == 0,
            r.balance is None,
            session::text_view(r.balance_err) == Some("加载中…"@),
            r.note@.len() == 0,
    {
        Snapshot {
            series: Vec::new(),
            balance: None,
            balance_err: Some("加载中…".to_owned()),
            note: String::new(),
        }
    }

    /// Takes in what a refresh brought. A balance that is known stays known.
    pub fn refresh(&mut self, res: FetchResult, bal: Result<Balance, String>)
        ensures
            final(self).is_settled(),
            final(self).series == res.series,
            final(self).note == res.note,
            session::balance_view(final(self).balance) == balance_after(
                old(self).balance,
                res.balance,
                bal,
            ),
            session::text_view(final(self).balance_err) == reason_after(
                old(self).balance,
                res.balance,
                bal,
            ),
            old(self).balance is Some ==> final(self).balance is Some,
            bal matches Ok(b) ==> session::balance_view(final(self).balance) == Some(b@)
                && final(self).balance_err is None,
            bal matches Err(e) ==> {
                &&& res.balance is Some ==> session::balance_view(final(self).balance)
                    == session::balance_view(res.balance)
                &&& res.balance is None ==> session::balance_view(final(self).balance)
                    == session::balance_view(old(self).balance)
                &&& final(self).balance is None ==> session::text_view(final(self).balance_err)
                    == Some(e@)
            },
    {
        self.series = res.series;
        self.note = res.note;
        match bal {
            Ok(b) => {
                self.balance = Some(b);
                self.balance_err = None;
            },
            Err(e) => {
                if let Some(b) = res.balance {
                    self.balance = Some(b);
                }
                self.balance_err = if self.balance.is_none() {
                    Some(e)
                } else {
                    None
                };
            },
        }
    }
}

// ───────── the page of the balance ─────────

/// What a mark beside the balance means.
#[derive(Clone, Copy, Debug, PartialEq, Eq, Structural)]
pub enum Mark {
    Good,
    Bad,
    Plain,
}

/// The marks beside a balance.
pub open spec fn marks_of(b: BalanceView) -> Seq<(Mark, Seq<char>)> {
    let first = if b.is_available {
        (Mark::Good, "余额可用"@)
    } else {
        (Mark::Bad, "余额不足"@)
    };
    if b.from_web {
        seq![first, (Mark::Plain, "来自平台网页"@)]
    } else {
        seq![first]
    }
}

/// The first mark says whether the balance can be used, and a second one stands there only where
/// the balance is from the platform's pages.
pub proof fn law_marks_tell(b: BalanceView)
    ensures
        marks_of(b).len() == if b.from_web {
            2int
        } else {
            1
        },
        b.is_available ==> marks_of(b)[0] == (Mark::Good, "余额可用"@),
        !b.is_available ==> marks_of(b)[0] == (Mark::Bad, "余额不足"@),
        b.from_web ==> marks_of(b)[1] == (Mark::Plain, "来自平台网页"@),
{
}

/// The marks beside a balance: whether it can be used, and whether it is from the platform's
/// pages.
pub fn marks(b: &Balance) -> (r: Vec<(Mark, &'static str)>)
    ensures
        r@.map_values(|m: (Mark, &'static str)| (m.0, m.1@)) == marks_of(b@),
        r@.len() == if b.from_web {
            2int
        } else {
            1
        },
        b.is_available ==> r@[0].0 == Mark::Good && r@[0].1@ == "余额可用"@,
        !b.is_available ==> r@[0].0 == Mark::Bad && r@[0].1@ == "余额不足"@,
        b.from_web ==> r@[1].0 == Mark::Plain && r@[1].1@ == "来自平台网页"@,
{
    let mut r: Vec<(Mark, &'static str)> = Vec::new();
    if b.is_available {
        r.push((Mark::Good, "余额可用"));
    } else {
        r.push((Mark::Bad, "余额不足"));
    }
    if b.from_web {
        r.push((Mark::Plain, "来自平台网页"));
    }
    assert(r@.map_values(|m: (Mark, &'static str)| (m.0, m.1@)) =~= marks_of(b@));
    r
}

/// The last of some days, nothing used where there is none.
pub open spec fn last_day(series: Seq<(String, Day)>) -> Day {
    if series.len() > 0 {
        series.last().1
    } else {
        Day { requests: 0, hit: 0, miss: 0, output: 0 }
    }
}

/// The requests and the tokens of the last day, as they are written; none where the tokens
/// are too many for an `i64`.
pub fn today_figures(series: &Vec<(String, Day)>) -> (r: Option<(String, String)>)
    ensures
        match r {
            Some((requests, toks)) => {
                &&& requests@ == chart::grouped_text(last_day(series@).requests as int)
                &&& chart::tokens_of(last_day(series@)) matches Some(t) && toks@
                    == chart::grouped_text(t as int)
            },
            None => chart::tokens_of(last_day(series@)) is None,
        },
        series@.len() > 0 ==> (r matches Some((requests, _)) ==> requests@ == chart::grouped_text(
            series@[series@.len() - 1].1.requests as int,
        )),
        series@.len() > 0 ==> (r matches Some((_, toks)) ==> toks@ == chart::grouped_text(
            series@[series@.len() - 1].1.hit + series@[series@.len() - 1].1.miss + series@[
                series@.len() - 1
            ].1.output,
        )),
        series@.len() == 0 ==> (r matches Some((requests, toks)) && requests@
            == chart::grouped_text(0) && toks@ == chart::grouped_text(0)),
{
    let d: Day = if series.len() > 0 {
        series[series.len() - 1].1
    } else {
        Day::default()
    };
    match tokens(&d) {
        Some(t) => Some((fmt(d.requests), fmt(t))),
        None => None,
    }
}

}
