//! The chart-of-accounts and journal data model.
//!
//! Accounts, assets and account types are referenced by their 1-based
//! integer ids; the parent link of an account always points at an earlier
//! account, so the account tree is acyclic by construction.

use vstd::prelude::*;

use crate::money::Money;

verus! {

/// The side on which an account type naturally accumulates value.
#[derive(Clone, Copy, Debug, PartialEq, Eq, Structural)]
pub enum NormalBalance {
    Debit,
    Credit,
}

/// The kinds of assets the ledger can hold.
#[derive(Clone, Copy, Debug, PartialEq, Eq, Structural)]
pub enum AssetType {
    Fiat,
    Stock,
    Bond,
    Etf,
    Etc,
    Etn,
    Crypto,
    Commodity,
}

/// The lifecycle of a journal entry: draft, posted, void — forward only.
#[derive(Clone, Copy, Debug, PartialEq, Eq, Structural)]
pub enum EntryStatus {
    Draft,
    Posted,
    Void,
}

impl EntryStatus {
    /// Position in the lifecycle; transitions may only move forward.
    pub open spec fn rank(self) -> int {
        match self {
            EntryStatus::Draft => 0,
            EntryStatus::Posted => 1,
            EntryStatus::Void => 2,
        }
    }
}

/// A calendar date as plain year, month and day.
#[derive(Clone, Copy, Debug, PartialEq, Eq, Structural)]
pub struct Date {
    pub year: i32,
    pub month: u8,
    pub day: u8,
}

impl Date {
    /// A plausible calendar date.
    pub open spec fn wf(self) -> bool {
        1 <= self.month <= 12 && 1 <= self.day <= 31
    }

    /// Chronological order: not later than the other date.
    pub open spec fn spec_le(self, other: Date) -> bool {
        if self.year != other.year {
            self.year < other.year
        } else if self.month != other.month {
            self.month < other.month
        } else {
            self.day <= other.day
        }
    }

    /// Whether this date is not later than the other.
    pub fn le(&self, other: &Date) -> (r: bool)
        ensures
            r == self.spec_le(*other),
    {
        if self.year != other.year {
            self.year < other.year
        } else if self.month != other.month {
            self.month < other.month
        } else {
            self.day <= other.day
        }
    }
}

/// A category of accounts and the side it naturally accumulates on.
#[derive(Clone, Debug)]
pub struct AccountType {
    pub id: i64,
    pub name: String,
    pub normal_balance: NormalBalance,
    pub description: Option<String>,
}

/// A currency, security or commodity the ledger can carry.
#[derive(Clone, Debug)]
pub struct Asset {
    pub id: i64,
    pub code: String,
    pub name: String,
    pub asset_type: AssetType,
    pub decimals: u32,
    pub description: Option<String>,
}

/// An exchange rate between two assets at a point in time.
#[derive(Clone, Debug)]
pub struct ExchangeRate {
    pub id: i64,
    pub from_asset_id: i64,
    pub to_asset_id: i64,
    pub rate: Money,
    pub date: i64,
}

/// An account in the chart of accounts.
#[derive(Clone, Debug)]
pub struct Account {
    pub id: i64,
    pub account_number: String,
    pub name: String,
    pub account_type_id: i64,
    pub parent_account_id: Option<i64>,
    pub is_active: bool,
    pub opening_date: Date,
    pub closing_date: Option<Date>,
    pub description: Option<String>,
}

/// A committed journal entry header.
#[derive(Clone, Debug)]
pub struct JournalEntry {
    pub id: i64,
    pub date: i64,
    pub description: String,
    pub reference_number: Option<String>,
    pub reference_asset_id: i64,
    pub status: EntryStatus,
    pub created_at: i64,
}

/// A committed journal entry line: one signed movement of an asset.
#[derive(Clone, Debug)]
pub struct JournalEntryLine {
    pub id: i64,
    pub journal_entry_id: i64,
    pub account_id: i64,
    pub asset_id: i64,
    pub entry_type: NormalBalance,
    pub amount: Money,
    pub reference_amount: Money,
    pub exchange_rate: Option<Money>,
    pub line_number: i64,
    pub description: Option<String>,
}

/// A proposed journal entry header, as a caller submits it.
#[derive(Clone, Debug)]
pub struct JournalEntryInput {
    pub date: i64,
    pub description: String,
    pub reference_number: Option<String>,
    pub reference_asset_id: i64,
    pub status: EntryStatus,
    pub created_at: i64,
}

/// A proposed journal entry line, as a caller submits it.
#[derive(Clone, Debug)]
pub struct JournalEntryLineInput {
    pub account_id: i64,
    pub asset_id: i64,
    pub entry_type: NormalBalance,
    pub amount: Money,
    pub reference_amount: Money,
    pub exchange_rate: Option<Money>,
    pub line_number: i64,
    pub description: Option<String>,
}

} // verus!
