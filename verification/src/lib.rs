//! The logic of a desktop widget that shows how a DeepSeek account is used: how many requests
//! and tokens on each of the last days, and what is left of the balance.
//!
//! While the user is logged in, the answers that the platform's page gets are captured
//! ([`capture`]) and the requests behind them are kept ([`session`]). Later they are sent again
//! for the days that are wanted then ([`replay`], [`rewrite`], [`moved`], [`kept`]). Whatever
//! the answers look like, usage ([`usage`]) and the balance ([`balance`], [`amount`]) are found
//! in them.
//! What comes of it is shown ([`fetch`], [`snapshot`], [`chart`]), and the program has settings
//! ([`settings`]) and an icon in the tray ([`tray`]). Below lie dates ([`date`], [`clock`]),
//! JSON ([`json`], [`decode`], [`float`]), tables in the order of their keys ([`table`]) and
//! text ([`text`]).
//!
//! Files, windows and the network are not here: the program around this library reads and
//! sends, and hands over what came.

pub mod amount;
pub mod balance;
pub mod capture;
pub mod chart;
pub mod clock;
pub mod date;
pub mod decode;
pub mod fetch;
pub mod float;
pub mod json;
pub mod kept;
pub mod moved;
pub mod replay;
pub mod rewrite;
pub mod session;
pub mod settings;
pub mod snapshot;
pub mod table;
pub mod text;
pub mod tray;
pub mod usage;
