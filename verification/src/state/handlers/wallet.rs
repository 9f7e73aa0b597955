//! The wallet: gold, gems, wildcards, vault and boosters.
use serde_json::Value;
use vstd::prelude::*;
use crate::text;

use crate::json::{field, render, rendered, value_view, Json, JsonNumber, JsonView};

verus! {

/// The wallet as it is stored.
#[derive(Debug)]
pub struct WalletRecord {
    pub gold: i64,
    pub gems: i64,
    pub wc_common: i64,
    pub wc_uncommon: i64,
    pub wc_rare: i64,
    pub wc_mythic: i64,
    pub vault_progress: i64,
    pub wc_track_position: i64,
    /// The boosters as JSON.
    pub boosters: String,
}

/// The integer under a key; zero where there is none.
pub open spec fn amount(v: JsonView, key: Seq<char>) -> i64 {
    match v.get(key) {
        Some(x) => match x.integer() {
            Some(n) => n,
            None => 0,
        },
        None => 0,
    }
}

/// The JSON text of the boosters: `null` where there are none, and an empty
/// list where they cannot be written.
pub open spec fn boosters_text(v: JsonView) -> Seq<char> {
    match v.get("Boosters"@) {
        Some(b) => match rendered(b) {
            Some(s) => s,
            None => "[]"@,
        },
        None => "null"@,
    }
}

/// The record is what the payload says of the wallet.
pub open spec fn records_wallet(r: WalletRecord, v: JsonView) -> bool {
    &&& r.gold == amount(v, "Gold"@)
    &&& r.gems == amount(v, "Gems"@)
    &&& r.wc_common == amount(v, "WildCardCommons"@)
    &&& r.wc_uncommon == amount(v, "WildCardUnCommons"@)
    &&& r.wc_rare == amount(v, "WildCardRares"@)
    &&& r.wc_mythic == amount(v, "WildCardMythics"@)
    &&& r.vault_progress == amount(v, "TotalVaultProgress"@)
    &&& r.wc_track_position == amount(v, "wcTrackPosition"@)
    &&& r.boosters@ == boosters_text(v)
}

fn amount_of(v: &Json, key: &str) -> (n: i64)
    ensures
        n == amount(v@, key@),
{
    match v.get(key) {
        Some(x) => match x.as_i64() {
            Some(n) => n,
            None => 0,
        },
        None => 0,
    }
}

/// What a payload says of the wallet.
pub fn wallet_record(inventory: &Value) -> (r: WalletRecord)
    ensures
        records_wallet(r, value_view(*inventory)),
{
    let v = Json::from_value(inventory);
    let boosters = match field(inventory, "Boosters") {
        Some(b) => match render(b) {
            Ok(s) => s,
            Err(_) => text::owned("[]"),
        },
        None => text::owned("null"),
    };
    WalletRecord {
        gold: amount_of(&v, "Gold"),
        gems: amount_of(&v, "Gems"),
        wc_common: amount_of(&v, "WildCardCommons"),
        wc_uncommon: amount_of(&v, "WildCardUnCommons"),
        wc_rare: amount_of(&v, "WildCardRares"),
        wc_mythic: amount_of(&v, "WildCardMythics"),
        vault_progress: amount_of(&v, "TotalVaultProgress"),
        wc_track_position: amount_of(&v, "wcTrackPosition"),
        boosters,
    }
}

/// Each amount of the wallet is the number under its own name, whatever the
/// others are, and zero where there is none.
pub proof fn law_wallet(r: WalletRecord, v: JsonView, n: u64)
    requires
        records_wallet(r, v),
        n <= i64::MAX,
    ensures
        v.get("Gold"@) == Some(JsonView::Number(JsonNumber::Pos(n))) ==> r.gold == n,
        v.get("Gems"@) == Some(JsonView::Number(JsonNumber::Pos(n))) ==> r.gems == n,
        v.get("WildCardCommons"@) == Some(JsonView::Number(JsonNumber::Pos(n))) ==> r.wc_common
            == n,
        v.get("WildCardUnCommons"@) == Some(JsonView::Number(JsonNumber::Pos(n)))
            ==> r.wc_uncommon == n,
        v.get("WildCardRares"@) == Some(JsonView::Number(JsonNumber::Pos(n))) ==> r.wc_rare == n,
        v.get("WildCardMythics"@) == Some(JsonView::Number(JsonNumber::Pos(n))) ==> r.wc_mythic
            == n,
        v.get("TotalVaultProgress"@) == Some(JsonView::Number(JsonNumber::Pos(n)))
            ==> r.vault_progress == n,
        v.get("wcTrackPosition"@) == Some(JsonView::Number(JsonNumber::Pos(n)))
            ==> r.wc_track_position == n,
        v.get("Gold"@) is None ==> r.gold == 0,
        v.get("Gems"@) is None ==> r.gems == 0,
        v.get("WildCardCommons"@) is None ==> r.wc_common == 0,
        v.get("WildCardUnCommons"@) is None ==> r.wc_uncommon == 0,
        v.get("WildCardRares"@) is None ==> r.wc_rare == 0,
        v.get("WildCardMythics"@) is None ==> r.wc_mythic == 0,
{
}

/// A payload without boosters is stored with none: as `null`.
pub proof fn law_no_boosters(r: WalletRecord, v: JsonView)
    requires
        records_wallet(r, v),
        v.get("Boosters"@) is None,
    ensures
        r.boosters@ == seq!['n', 'u', 'l', 'l'],
{
    reveal_strlit("null");
    assert("null"@ =~= seq!['n', 'u', 'l', 'l']);
}

} // verus!
