//! The in-memory ledger store and its invariant engine.
//!
//! A [`Ledger`] holds the chart of accounts and the journal in plain
//! vectors; every row's id is its 1-based position. The store is the
//! explicitly passed handle every operation works on; persistence layers
//! mirror it row for row. [`Ledger::submit_journal_entry`] is the one way
//! journal rows come into being, so the double-entry balance rule and the
//! line-numbering rule hold of every committed entry.

use vstd::prelude::*;

use crate::error::Error;
use crate::models::{
    Account, AccountType, Asset, Date, EntryStatus, JournalEntry, JournalEntryInput,
    JournalEntryLine, JournalEntryLineInput, NormalBalance,
};
use crate::money::{pow10, Money, ENCODE_SCALE, MAX_SCALE};

verus! {

/// A valid 1-based id into a table with `len` rows.
pub open spec fn valid_id(id: i64, len: nat) -> bool {
    1 <= id <= len
}

/// A money value the store can hold losslessly: at most eight fractional
/// digits, and within the 64-bit scaled-integer range.
pub open spec fn persistable(m: Money) -> bool {
    &&& m.scale <= ENCODE_SCALE
    &&& i64::MIN <= m.encoded_of() <= i64::MAX
}

/// A line's signed contribution to its entry's reference-asset total:
/// debits count positive, credits negative.
pub open spec fn line_signed_ref(l: JournalEntryLine) -> int {
    match l.entry_type {
        NormalBalance::Debit => l.reference_amount.val(),
        NormalBalance::Credit => -l.reference_amount.val(),
    }
}

/// Sum of the signed reference amounts of a line sequence.
pub open spec fn sum_signed_ref(s: Seq<JournalEntryLine>) -> int
    decreases s.len(),
{
    if s.len() == 0 {
        0
    } else {
        sum_signed_ref(s.drop_last()) + line_signed_ref(s.last())
    }
}

/// The lines that belong to one journal entry, in storage order.
pub open spec fn lines_of(lines: Seq<JournalEntryLine>, eid: i64) -> Seq<JournalEntryLine>
    decreases lines.len(),
{
    if lines.len() == 0 {
        Seq::empty()
    } else if lines.last().journal_entry_id == eid {
        lines_of(lines.drop_last(), eid).push(lines.last())
    } else {
        lines_of(lines.drop_last(), eid)
    }
}

/// The line numbers of an entry are each in `1..=n` and pairwise distinct
/// — with `n` lines, that makes them exactly `1..=n`.
pub open spec fn line_numbers_complete(ls: Seq<JournalEntryLine>) -> bool {
    &&& forall|i: int| 0 <= i < ls.len() ==> 1 <= (#[trigger] ls[i]).line_number <= ls.len()
    &&& forall|i: int, j: int|
        #![trigger ls[i].line_number, ls[j].line_number]
        0 <= i < j < ls.len() ==> ls[i].line_number != ls[j].line_number
}

/// A committed line in a well-formed store.
pub open spec fn line_ok(
    l: JournalEntryLine,
    i: int,
    n_entries: nat,
    n_accounts: nat,
    n_assets: nat,
) -> bool {
    &&& l.id == i + 1
    &&& valid_id(l.journal_entry_id, n_entries)
    &&& valid_id(l.account_id, n_accounts)
    &&& valid_id(l.asset_id, n_assets)
    &&& l.amount.wf()
    &&& l.amount.val() > 0
    &&& l.reference_amount.wf()
    &&& persistable(l.amount)
    &&& persistable(l.reference_amount)
    &&& (l.exchange_rate matches Some(x) ==> x.wf() && persistable(x))
}

/// An account row in a well-formed store: its parent, if any, comes
/// strictly earlier, so parent links can never form a cycle.
pub open spec fn account_ok(a: Account, i: int, n_types: nat) -> bool {
    &&& a.id == i + 1
    &&& valid_id(a.account_type_id, n_types)
    &&& (a.parent_account_id matches Some(p) ==> 1 <= p <= i)
    &&& a.opening_date.wf()
    &&& (a.closing_date matches Some(c) ==> c.wf() && a.opening_date.spec_le(c))
}

/// The in-memory double-entry store: chart of accounts plus the journal.
pub struct Ledger {
    pub account_types: Vec<AccountType>,
    pub assets: Vec<Asset>,
    pub accounts: Vec<Account>,
    pub entries: Vec<JournalEntry>,
    pub lines: Vec<JournalEntryLine>,
}

impl Ledger {
    /// Account types: sequential ids.
    pub open spec fn types_wf(self) -> bool {
        &&& self.account_types@.len() <= i64::MAX
        &&& forall|i: int|
            0 <= i < self.account_types@.len() ==> (#[trigger] self.account_types@[i]).id == i
                + 1
    }

    /// Assets: sequential ids, bounded precision, unique codes.
    pub open spec fn assets_wf(self) -> bool {
        &&& self.assets@.len() <= i64::MAX
        &&& forall|i: int|
            0 <= i < self.assets@.len() ==> (#[trigger] self.assets@[i]).id == i + 1
                && self.assets@[i].decimals <= MAX_SCALE
        &&& forall|i: int, j: int|
            #![trigger self.assets@[i].code, self.assets@[j].code]
            0 <= i < j < self.assets@.len() ==> self.assets@[i].code@ != self.assets@[j].code@
    }

    /// Accounts: sequential ids, resolvable references, acyclic parents,
    /// ordered lifecycle dates, unique account numbers.
    pub open spec fn accounts_wf(self) -> bool {
        &&& self.accounts@.len() <= i64::MAX
        &&& forall|i: int|
            0 <= i < self.accounts@.len() ==> account_ok(
                #[trigger] self.accounts@[i],
                i,
                self.account_types@.len(),
            )
        &&& forall|i: int, j: int|
            #![trigger self.accounts@[i].account_number, self.accounts@[j].account_number]
            0 <= i < j < self.accounts@.len() ==> self.accounts@[i].account_number@
                != self.accounts@[j].account_number@
    }

    /// Entries: sequential ids and a resolvable reference asset.
    pub open spec fn entries_wf(self) -> bool {
        &&& self.entries@.len() <= i64::MAX
        &&& forall|i: int|
            0 <= i < self.entries@.len() ==> (#[trigger] self.entries@[i]).id == i + 1
                && valid_id(self.entries@[i].reference_asset_id, self.assets@.len())
    }

    /// Lines: sequential ids, resolvable references, positive amounts,
    /// persistable money.
    pub open spec fn lines_wf(self) -> bool {
        &&& self.lines@.len() <= i64::MAX
        &&& forall|i: int|
            0 <= i < self.lines@.len() ==> line_ok(
                #[trigger] self.lines@[i],
                i,
                self.entries@.len(),
                self.accounts@.len(),
                self.assets@.len(),
            )
    }

    /// Every committed entry balances — its debit and credit
    /// reference-amount sums agree — has at least two lines, and numbers
    /// them exactly `1..=n`.
    pub open spec fn entries_balanced(self) -> bool {
        forall|eid: i64|
            1 <= eid <= self.entries@.len() ==> {
                let ls = #[trigger] lines_of(self.lines@, eid);
                &&& sum_signed_ref(ls) == 0
                &&& line_numbers_complete(ls)
                &&& ls.len() >= 2
            }
    }

    /// The store invariant: all of the above at once.
    pub open spec fn wf(self) -> bool {
        &&& self.types_wf()
        &&& self.assets_wf()
        &&& self.accounts_wf()
        &&& self.entries_wf()
        &&& self.lines_wf()
        &&& self.entries_balanced()
    }

    /// An empty store.
    pub fn new() -> (r: Ledger)
        ensures
            r.wf(),
            r.account_types@.len() == 0,
            r.assets@.len() == 0,
            r.accounts@.len() == 0,
            r.entries@.len() == 0,
            r.lines@.len() == 0,
    {
        Ledger {
            account_types: Vec::new(),
            assets: Vec::new(),
            accounts: Vec::new(),
            entries: Vec::new(),
            lines: Vec::new(),
        }
    }

    /// Registers an account type. Fails with `StorageFailure` only when
    /// the id space is exhausted.
    pub fn create_account_type(
        &mut self,
        name: String,
        normal_balance: NormalBalance,
        description: Option<String>,
    ) -> (r: Result<i64, Error>)
        requires
            old(self).wf(),
        ensures
            final(self).wf(),
            r is Ok <==> old(self).account_types@.len() < i64::MAX,
            r is Err ==> *final(self) == *old(self) && r->Err_0 == Error::StorageFailure,
            r is Ok ==> {
                &&& r->Ok_0 == old(self).account_types@.len() + 1
                &&& final(self).account_types@ == old(self).account_types@.push(
                    AccountType {
                        id: (old(self).account_types@.len() + 1) as i64,
                        name: name,
                        normal_balance: normal_balance,
                        description: description,
                    },
                )
                &&& final(self).assets == old(self).assets
                &&& final(self).accounts == old(self).accounts
                &&& final(self).entries == old(self).entries
                &&& final(self).lines == old(self).lines
            },
    {
        if self.account_types.len() as u64 >= i64::MAX as u64 {
            return Err(Error::StorageFailure);
        }
        let id = self.account_types.len() as i64 + 1;
        self.account_types.push(
            AccountType { id, name, normal_balance, description },
        );
        Ok(id)
    }

    /// Whether some asset already uses this code.
    fn has_asset_code(&self, code: &String) -> (r: bool)
        ensures
            r == exists|i: int|
                0 <= i < self.assets@.len() && (#[trigger] self.assets@[i]).code@ == code@,
    {
        let mut k: usize = 0;
        while k < self.assets.len()
            invariant
                0 <= k <= self.assets@.len(),
                forall|i: int|
                    0 <= i < k ==> (#[trigger] self.assets@[i]).code@ != code@,
            decreases self.assets@.len() - k,
        {
            if self.assets[k].code == *code {
                return true;
            }
            k = k + 1;
        }
        false
    }

    /// Registers an asset. `InvalidData` when the requested precision
    /// exceeds what money values can carry; `StorageFailure` on a
    /// duplicate code or an exhausted id space.
    pub fn create_asset(
        &mut self,
        code: String,
        name: String,
        asset_type: crate::models::AssetType,
        decimals: u32,
        description: Option<String>,
    ) -> (r: Result<i64, Error>)
        requires
            old(self).wf(),
        ensures
            final(self).wf(),
            r is Ok <==> {
                &&& decimals <= MAX_SCALE
                &&& old(self).assets@.len() < i64::MAX
                &&& !exists|i: int|
                    0 <= i < old(self).assets@.len() && (#[trigger] old(
                        self,
                    ).assets@[i]).code@ == code@
            },
            r is Err ==> *final(self) == *old(self),
            r is Err ==> r->Err_0 == (if decimals > MAX_SCALE {
                Error::InvalidData
            } else {
                Error::StorageFailure
            }),
            r is Ok ==> {
                &&& r->Ok_0 == old(self).assets@.len() + 1
                &&& final(self).assets@ == old(self).assets@.push(
                    Asset {
                        id: (old(self).assets@.len() + 1) as i64,
                        code: code,
                        name: name,
                        asset_type: asset_type,
                        decimals: decimals,
                        description: description,
                    },
                )
                &&& final(self).account_types == old(self).account_types
                &&& final(self).accounts == old(self).accounts
                &&& final(self).entries == old(self).entries
                &&& final(self).lines == old(self).lines
            },
    {
        if decimals > MAX_SCALE {
            return Err(Error::InvalidData);
        }
        if self.assets.len() as u64 >= i64::MAX as u64 {
            return Err(Error::StorageFailure);
        }
        if self.has_asset_code(&code) {
            return Err(Error::StorageFailure);
        }
        let id = self.assets.len() as i64 + 1;
        self.assets.push(
            Asset { id, code, name, asset_type, decimals, description },
        );
        Ok(id)
    }

    /// Whether some account already uses this account number.
    fn has_account_number(&self, number: &String) -> (r: bool)
        ensures
            r == exists|i: int|
                0 <= i < self.accounts@.len() && (#[trigger] self.accounts@[i]).account_number@
                    == number@,
    {
        let mut k: usize = 0;
        while k < self.accounts.len()
            invariant
                0 <= k <= self.accounts@.len(),
                forall|i: int|
                    0 <= i < k ==> (#[trigger] self.accounts@[i]).account_number@ != number@,
            decreases self.accounts@.len() - k,
        {
            if self.accounts[k].account_number == *number {
                return true;
            }
            k = k + 1;
        }
        false
    }

    /// Opens an account. `NotFound` for a dangling account type or parent;
    /// `InvalidData` for an implausible date pair; `StorageFailure` for a
    /// duplicate account number or an exhausted id space.
    pub fn create_account(
        &mut self,
        account_number: String,
        name: String,
        account_type_id: i64,
        parent_account_id: Option<i64>,
        is_active: bool,
        opening_date: Date,
        closing_date: Option<Date>,
        description: Option<String>,
    ) -> (r: Result<i64, Error>)
        requires
            old(self).wf(),
        ensures
            final(self).wf(),
            r is Ok <==> {
                &&& valid_id(account_type_id, old(self).account_types@.len())
                &&& (parent_account_id matches Some(p) ==> valid_id(
                    p,
                    old(self).accounts@.len(),
                ))
                &&& opening_date.wf()
                &&& (closing_date matches Some(c) ==> c.wf() && opening_date.spec_le(c))
                &&& old(self).accounts@.len() < i64::MAX
                &&& !exists|i: int|
                    0 <= i < old(self).accounts@.len() && (#[trigger] old(
                        self,
                    ).accounts@[i]).account_number@ == account_number@
            },
            r is Err ==> *final(self) == *old(self),
            r is Err ==> r->Err_0 == (if !valid_id(
                account_type_id,
                old(self).account_types@.len(),
            ) || !(parent_account_id matches Some(p) ==> valid_id(
                p,
                old(self).accounts@.len(),
            )) {
                Error::NotFound
            } else if !opening_date.wf() || !(closing_date matches Some(c) ==> c.wf()
                && opening_date.spec_le(c)) {
                Error::InvalidData
            } else {
                Error::StorageFailure
            }),
            r is Ok ==> {
                &&& r->Ok_0 == old(self).accounts@.len() + 1
                &&& final(self).accounts@ == old(self).accounts@.push(
                    Account {
                        id: (old(self).accounts@.len() + 1) as i64,
                        account_number: account_number,
                        name: name,
                        account_type_id: account_type_id,
                        parent_account_id: parent_account_id,
                        is_active: is_active,
                        opening_date: opening_date,
                        closing_date: closing_date,
                        description: description,
                    },
                )
                &&& final(self).account_types == old(self).account_types
                &&& final(self).assets == old(self).assets
                &&& final(self).entries == old(self).entries
                &&& final(self).lines == old(self).lines
            },
    {
        if account_type_id < 1 || account_type_id > self.account_types.len() as i64 {
            return Err(Error::NotFound);
        }
        match parent_account_id {
            Some(p) => {
                if p < 1 || p > self.accounts.len() as i64 {
                    return Err(Error::NotFound);
                }
            },
            None => {},
        }
        if opening_date.month < 1 || opening_date.month > 12 || opening_date.day < 1
            || opening_date.day > 31 {
            return Err(Error::InvalidData);
        }
        match closing_date {
            Some(c) => {
                if c.month < 1 || c.month > 12 || c.day < 1 || c.day > 31 {
                    return Err(Error::InvalidData);
                }
                if !opening_date.le(&c) {
                    return Err(Error::InvalidData);
                }
            },
            None => {},
        }
        if self.accounts.len() as u64 >= i64::MAX as u64 {
            return Err(Error::StorageFailure);
        }
        if self.has_account_number(&account_number) {
            return Err(Error::StorageFailure);
        }
        let id = self.accounts.len() as i64 + 1;
        self.accounts.push(
            Account {
                id,
                account_number,
                name,
                account_type_id,
                parent_account_id,
                is_active,
                opening_date,
                closing_date,
                description,
            },
        );
        Ok(id)
    }

    /// Moves an entry along its lifecycle. `NotFound` for a dangling id;
    /// `InvalidData` when the move would go backwards — a posted entry is
    /// never un-posted, a void entry stays void.
    pub fn set_entry_status(&mut self, entry_id: i64, status: EntryStatus) -> (r: Result<
        (),
        Error,
    >)
        requires
            old(self).wf(),
        ensures
            final(self).wf(),
            r is Ok <==> valid_id(entry_id, old(self).entries@.len()) && old(
                self,
            ).entries@[entry_id - 1].status.rank() <= status.rank(),
            r is Err ==> *final(self) == *old(self),
            r is Err ==> r->Err_0 == (if !valid_id(entry_id, old(self).entries@.len()) {
                Error::NotFound
            } else {
                Error::InvalidData
            }),
            r is Ok ==> {
                &&& final(self).entries@ == old(self).entries@.update(
                    entry_id - 1,
                    (JournalEntry { status: status, ..old(self).entries@[entry_id - 1] }),
                )
                &&& final(self).account_types == old(self).account_types
                &&& final(self).assets == old(self).assets
                &&& final(self).accounts == old(self).accounts
                &&& final(self).lines == old(self).lines
            },
    {
        if entry_id < 1 || entry_id > self.entries.len() as i64 {
            return Err(Error::NotFound);
        }
        let idx = (entry_id - 1) as usize;
        let old_status = self.entries[idx].status;
        let backwards = match (old_status, status) {
            (EntryStatus::Posted, EntryStatus::Draft) => true,
            (EntryStatus::Void, EntryStatus::Draft) => true,
            (EntryStatus::Void, EntryStatus::Posted) => true,
            _ => false,
        };
        if backwards {
            return Err(Error::InvalidData);
        }
        let updated = clone_entry_with_status(&self.entries[idx], status);
        self.entries.set(idx, updated);
        Ok(())
    }

    /// Reads one journal entry back, void entries included.
    pub fn get_entry(&self, entry_id: i64) -> (r: Option<JournalEntry>)
        requires
            self.wf(),
        ensures
            r is Some <==> valid_id(entry_id, self.entries@.len()),
            r is Some ==> r->Some_0 == self.entries@[entry_id - 1],
    {
        if entry_id < 1 || entry_id > self.entries.len() as i64 {
            return None;
        }
        let idx = (entry_id - 1) as usize;
        Some(clone_entry_with_status(&self.entries[idx], self.entries[idx].status))
    }

    /// Reads the lines of one journal entry, in storage order.
    pub fn get_entry_lines(&self, entry_id: i64) -> (r: Vec<JournalEntryLine>)
        requires
            self.wf(),
        ensures
            r@ == lines_of(self.lines@, entry_id),
    {
        let mut out: Vec<JournalEntryLine> = Vec::new();
        let mut k: usize = 0;
        proof {
            lemma_lines_of_prefix_empty(self.lines@, entry_id);
        }
        while k < self.lines.len()
            invariant
                0 <= k <= self.lines@.len(),
                out@ == lines_of(self.lines@.subrange(0, k as int), entry_id),
            decreases self.lines@.len() - k,
        {
            proof {
                assert(self.lines@.subrange(0, k + 1).drop_last() =~= self.lines@.subrange(
                    0,
                    k as int,
                ));
            }
            if self.lines[k].journal_entry_id == entry_id {
                out.push(clone_line(&self.lines[k]));
            }
            k = k + 1;
        }
        proof {
            assert(self.lines@.subrange(0, self.lines@.len() as int) =~= self.lines@);
        }
        out
    }
}

/// All money values a submission carries are in normal form.
pub open spec fn inputs_wf(ls: Seq<JournalEntryLineInput>) -> bool {
    forall|i: int|
        0 <= i < ls.len() ==> {
            let li = #[trigger] ls[i];
            &&& li.amount.wf()
            &&& li.reference_amount.wf()
            &&& (li.exchange_rate matches Some(x) ==> x.wf())
        }
}

/// Every proposed line resolves its account and its asset.
pub open spec fn refs_ok(l: Ledger, ls: Seq<JournalEntryLineInput>) -> bool {
    forall|i: int|
        0 <= i < ls.len() ==> valid_id((#[trigger] ls[i]).account_id, l.accounts@.len())
            && valid_id(ls[i].asset_id, l.assets@.len())
}

/// Every proposed line moves a strictly positive amount.
pub open spec fn amounts_positive(ls: Seq<JournalEntryLineInput>) -> bool {
    forall|i: int| 0 <= i < ls.len() ==> (#[trigger] ls[i]).amount.val() > 0
}

/// Proposed line numbers are each in `1..=n` and pairwise distinct — with
/// `n` lines, exactly `1..=n`.
pub open spec fn input_line_numbers_complete(ls: Seq<JournalEntryLineInput>) -> bool {
    &&& forall|i: int|
        0 <= i < ls.len() ==> 1 <= (#[trigger] ls[i]).line_number <= ls.len()
    &&& forall|i: int, j: int|
        #![trigger ls[i].line_number, ls[j].line_number]
        0 <= i < j < ls.len() ==> ls[i].line_number != ls[j].line_number
}

/// Every money value of every proposed line fits the persisted encoding
/// exactly: no committed row is ever rounded.
pub open spec fn moneys_persistable(ls: Seq<JournalEntryLineInput>) -> bool {
    forall|i: int|
        0 <= i < ls.len() ==> {
            let li = #[trigger] ls[i];
            &&& persistable(li.amount)
            &&& persistable(li.reference_amount)
            &&& (li.exchange_rate matches Some(x) ==> persistable(x))
        }
}

/// The exact value a cross-asset line's reference amount must equal: the
/// amount times the rate, rounded half-to-even to the reference asset's
/// decimal places. In units of `10^-28`.
pub open spec fn converted_ref_val(a: Money, r: Money, dp: u32) -> int
    recommends
        dp <= MAX_SCALE,
{
    let s = a.scale + r.scale;
    let m = a.mantissa * r.mantissa;
    if s <= dp {
        (m * pow10((dp - s) as nat)) * pow10((MAX_SCALE - dp) as nat)
    } else {
        crate::money::div_round_half_even(m, pow10((s - dp) as nat)) * pow10(
            (MAX_SCALE - dp) as nat,
        )
    }
}

/// The exchange-rate rule of one line: a rate goes with a foreign asset
/// and with nothing else, and the reference amount is exactly the
/// converted — or, same-asset, the original — amount.
pub open spec fn rate_rule_ok(l: Ledger, ref_aid: i64, li: JournalEntryLineInput) -> bool {
    if li.asset_id == ref_aid {
        li.exchange_rate is None && li.reference_amount.val() == li.amount.val()
    } else {
        match li.exchange_rate {
            Some(rate) => li.reference_amount.val() == converted_ref_val(
                li.amount,
                rate,
                l.assets@[ref_aid - 1].decimals,
            ),
            None => false,
        }
    }
}

/// The exchange-rate rule over all proposed lines.
pub open spec fn rates_ok(l: Ledger, ref_aid: i64, ls: Seq<JournalEntryLineInput>) -> bool {
    forall|i: int| 0 <= i < ls.len() ==> rate_rule_ok(l, ref_aid, #[trigger] ls[i])
}

/// A proposed line's signed reference amount: debits positive.
pub open spec fn input_line_signed(li: JournalEntryLineInput) -> int {
    match li.entry_type {
        NormalBalance::Debit => li.reference_amount.val(),
        NormalBalance::Credit => -li.reference_amount.val(),
    }
}

/// Debit sum minus credit sum over the proposed lines.
pub open spec fn sum_signed_input(ls: Seq<JournalEntryLineInput>) -> int
    decreases ls.len(),
{
    if ls.len() == 0 {
        0
    } else {
        sum_signed_input(ls.drop_last()) + input_line_signed(ls.last())
    }
}

/// What submission checks before anything is written: the first rule the
/// proposal breaks, in this fixed order, or nothing.
pub open spec fn spec_submit_check(
    l: Ledger,
    h: JournalEntryInput,
    ls: Seq<JournalEntryLineInput>,
) -> Option<Error> {
    if l.entries@.len() >= i64::MAX || l.lines@.len() + ls.len() > i64::MAX {
        Some(Error::StorageFailure)
    } else if h.status is Void {
        Some(Error::InvalidData)
    } else if ls.len() < 2 {
        Some(Error::InvalidData)
    } else if !valid_id(h.reference_asset_id, l.assets@.len()) {
        Some(Error::NotFound)
    } else if !refs_ok(l, ls) {
        Some(Error::NotFound)
    } else if !amounts_positive(ls) {
        Some(Error::InvalidData)
    } else if !input_line_numbers_complete(ls) {
        Some(Error::InvalidData)
    } else if !moneys_persistable(ls) {
        Some(Error::RangeOverflow)
    } else if !rates_ok(l, h.reference_asset_id, ls) {
        Some(Error::InvalidData)
    } else if sum_signed_input(ls) != 0 {
        Some(
            Error::Unbalanced(
                crate::money::spec_norm(
                    sum_signed_input(ls) / pow10((MAX_SCALE - ENCODE_SCALE) as nat),
                    ENCODE_SCALE as nat,
                ),
            ),
        )
    } else {
        None
    }
}

/// Balance law: a proposal whose debit and credit reference-amount sums
/// differ is never accepted, whatever else it looks like.
pub proof fn lemma_unbalanced_never_accepted(
    l: Ledger,
    h: JournalEntryInput,
    ls: Seq<JournalEntryLineInput>,
)
    requires
        sum_signed_input(ls) != 0,
    ensures
        spec_submit_check(l, h, ls) is Some,
{
}

/// The entry row a submission creates.
pub open spec fn new_entry_of(l: Ledger, h: JournalEntryInput) -> JournalEntry {
    JournalEntry {
        id: (l.entries@.len() + 1) as i64,
        date: h.date,
        description: h.description,
        reference_number: h.reference_number,
        reference_asset_id: h.reference_asset_id,
        status: h.status,
        created_at: h.created_at,
    }
}

/// The committed row a proposed line becomes.
pub open spec fn line_from_input(li: JournalEntryLineInput, id: i64, eid: i64) -> JournalEntryLine {
    JournalEntryLine {
        id: id,
        journal_entry_id: eid,
        account_id: li.account_id,
        asset_id: li.asset_id,
        entry_type: li.entry_type,
        amount: li.amount,
        reference_amount: li.reference_amount,
        exchange_rate: li.exchange_rate,
        line_number: li.line_number,
        description: li.description,
    }
}

/// The rows a submission appends, their ids continuing the line table.
pub open spec fn new_lines_of(l: Ledger, ls: Seq<JournalEntryLineInput>) -> Seq<
    JournalEntryLine,
> {
    Seq::new(
        ls.len(),
        |i: int|
            line_from_input(
                ls[i],
                (l.lines@.len() + i + 1) as i64,
                (l.entries@.len() + 1) as i64,
            ),
    )
}

/// A persistable value's mantissa fits in 64 bits, and its encoding is
/// exact: the raw integer scaled back up is the value itself.
pub proof fn lemma_persistable_bound(m: Money)
    requires
        m.wf(),
        persistable(m),
    ensures
        -0x8000000000000000 <= m.mantissa <= 0x7fffffffffffffff,
        m.encoded_of() == m.mantissa * pow10((ENCODE_SCALE - m.scale) as nat),
        m.encoded_of() * pow10((MAX_SCALE - ENCODE_SCALE) as nat) == m.val(),
{
    let f = pow10((ENCODE_SCALE - m.scale) as nat);
    let p20 = pow10((MAX_SCALE - ENCODE_SCALE) as nat);
    crate::money::lemma_pow10_pos((ENCODE_SCALE - m.scale) as nat);
    crate::money::lemma_pow10_pos((MAX_SCALE - ENCODE_SCALE) as nat);
    vstd::arithmetic::power::lemma_pow_adds(
        10,
        (ENCODE_SCALE - m.scale) as nat,
        (MAX_SCALE - ENCODE_SCALE) as nat,
    );
    assert((m.mantissa as int) * (f * p20) == ((m.mantissa as int) * f) * p20)
        by (nonlinear_arith);
    crate::money::lemma_rhe_exact((m.mantissa as int) * f, p20);
    crate::money::lemma_pow10_vals();
    assert(-0x8000000000000000 <= m.mantissa <= 0x7fffffffffffffff) by (nonlinear_arith)
        requires
            i64::MIN <= (m.mantissa as int) * f <= i64::MAX,
            f >= 1,
    ;
}

/// Filtering distributes over concatenation.
proof fn lemma_lines_of_append(a: Seq<JournalEntryLine>, b: Seq<JournalEntryLine>, eid: i64)
    ensures
        lines_of(a + b, eid) == lines_of(a, eid) + lines_of(b, eid),
    decreases b.len(),
{
    if b.len() == 0 {
        assert(a + b =~= a);
        assert(lines_of(a, eid) + lines_of(b, eid) =~= lines_of(a, eid));
    } else {
        let b0 = b.drop_last();
        lemma_lines_of_append(a, b0, eid);
        assert((a + b).drop_last() =~= a + b0);
        assert((a + b).last() == b.last());
        if b.last().journal_entry_id == eid {
            assert(lines_of(a, eid) + lines_of(b0, eid).push(b.last()) =~= (lines_of(a, eid)
                + lines_of(b0, eid)).push(b.last()));
        }
    }
}

/// A sequence whose lines all belong to other entries filters to nothing.
proof fn lemma_lines_of_absent(b: Seq<JournalEntryLine>, eid: i64)
    requires
        forall|i: int| 0 <= i < b.len() ==> (#[trigger] b[i]).journal_entry_id != eid,
    ensures
        lines_of(b, eid) == Seq::<JournalEntryLine>::empty(),
    decreases b.len(),
{
    if b.len() > 0 {
        lemma_lines_of_absent(b.drop_last(), eid);
    }
}

/// A sequence whose lines all belong to the entry filters to itself.
proof fn lemma_lines_of_all(b: Seq<JournalEntryLine>, eid: i64)
    requires
        forall|i: int| 0 <= i < b.len() ==> (#[trigger] b[i]).journal_entry_id == eid,
    ensures
        lines_of(b, eid) == b,
    decreases b.len(),
{
    if b.len() > 0 {
        lemma_lines_of_all(b.drop_last(), eid);
        assert(b.drop_last().push(b.last()) =~= b);
    }
}

/// The committed rows of a submission sum exactly as the proposal did.
proof fn lemma_sum_new_lines(l: Ledger, ls: Seq<JournalEntryLineInput>)
    ensures
        sum_signed_ref(new_lines_of(l, ls)) == sum_signed_input(ls),
    decreases ls.len(),
{
    let nl = new_lines_of(l, ls);
    if ls.len() == 0 {
        assert(nl.len() == 0);
    } else {
        lemma_sum_new_lines(l, ls.drop_last());
        assert(nl.drop_last() =~= new_lines_of(l, ls.drop_last()));
        assert(nl.last() == line_from_input(
            ls.last(),
            (l.lines@.len() + ls.len()) as i64,
            (l.entries@.len() + 1) as i64,
        ));
    }
}

/// A committed store stays well formed when a checked submission lands.
proof fn lemma_commit_wf(
    l0: Ledger,
    l1: Ledger,
    h: JournalEntryInput,
    ls: Seq<JournalEntryLineInput>,
)
    requires
        l0.wf(),
        inputs_wf(ls),
        spec_submit_check(l0, h, ls) is None,
        l1.account_types == l0.account_types,
        l1.assets == l0.assets,
        l1.accounts == l0.accounts,
        l1.entries@ == l0.entries@.push(new_entry_of(l0, h)),
        l1.lines@ == l0.lines@ + new_lines_of(l0, ls),
    ensures
        l1.wf(),
{
    let eid = (l0.entries@.len() + 1) as i64;
    let nl = new_lines_of(l0, ls);
    assert(l1.types_wf());
    assert(l1.assets_wf());
    assert(l1.accounts_wf());
    assert(l1.entries_wf());
    assert forall|i: int| 0 <= i < l1.lines@.len() implies line_ok(
        #[trigger] l1.lines@[i],
        i,
        l1.entries@.len(),
        l1.accounts@.len(),
        l1.assets@.len(),
    ) by {
        if i < l0.lines@.len() {
            assert(l1.lines@[i] == l0.lines@[i]);
        } else {
            assert(l1.lines@[i] == nl[i - l0.lines@.len()]);
            assert(nl[i - l0.lines@.len()] == line_from_input(
                ls[i - l0.lines@.len()],
                (l0.lines@.len() + (i - l0.lines@.len()) + 1) as i64,
                eid,
            ));
        }
    }
    assert(l1.lines_wf());
    assert forall|e: i64| 1 <= e <= l1.entries@.len() implies {
        let lse = #[trigger] lines_of(l1.lines@, e);
        &&& sum_signed_ref(lse) == 0
        &&& line_numbers_complete(lse)
        &&& lse.len() >= 2
    } by {
        lemma_lines_of_append(l0.lines@, nl, e);
        if e < eid {
            assert forall|i: int| 0 <= i < nl.len() implies (
            #[trigger] nl[i]).journal_entry_id != e by {
                assert(nl[i] == line_from_input(ls[i], (l0.lines@.len() + i + 1) as i64, eid));
            }
            lemma_lines_of_absent(nl, e);
            assert(lines_of(l1.lines@, e) =~= lines_of(l0.lines@, e));
        } else {
            assert forall|i: int| 0 <= i < l0.lines@.len() implies (
            #[trigger] l0.lines@[i]).journal_entry_id != e by {
                assert(line_ok(
                    l0.lines@[i],
                    i,
                    l0.entries@.len(),
                    l0.accounts@.len(),
                    l0.assets@.len(),
                ));
            }
            lemma_lines_of_absent(l0.lines@, e);
            assert forall|i: int| 0 <= i < nl.len() implies (
            #[trigger] nl[i]).journal_entry_id == e by {
                assert(nl[i] == line_from_input(ls[i], (l0.lines@.len() + i + 1) as i64, eid));
            }
            lemma_lines_of_all(nl, e);
            assert(lines_of(l1.lines@, e) =~= nl);
            lemma_sum_new_lines(l0, ls);
            assert(line_numbers_complete(nl)) by {
                assert forall|i: int| 0 <= i < nl.len() implies 1 <= (
                #[trigger] nl[i]).line_number <= nl.len() by {
                    assert(nl[i].line_number == ls[i].line_number);
                }
                assert forall|i: int, j: int|
                    #![trigger nl[i].line_number, nl[j].line_number]
                    0 <= i < j < nl.len() implies nl[i].line_number != nl[j].line_number by {
                    assert(nl[i].line_number == ls[i].line_number);
                    assert(nl[j].line_number == ls[j].line_number);
                }
            }
        }
    }
    assert(l1.entries_balanced());
}

/// The header-level checks that precede the per-line loops: capacity,
/// a non-void status, at least two lines, a resolvable reference asset.
pub open spec fn header_phase_ok(
    l: Ledger,
    h: JournalEntryInput,
    ls: Seq<JournalEntryLineInput>,
) -> bool {
    &&& l.entries@.len() < i64::MAX
    &&& l.lines@.len() + ls.len() <= i64::MAX
    &&& !(h.status is Void)
    &&& ls.len() >= 2
    &&& valid_id(h.reference_asset_id, l.assets@.len())
}

impl Ledger {
    /// Validates a proposed journal entry against the store, writing
    /// nothing: returns the first broken rule, in the order of
    /// [`spec_submit_check`], or nothing when the proposal may commit.
    fn check_submission(
        &self,
        header: &JournalEntryInput,
        lines: &Vec<JournalEntryLineInput>,
    ) -> (r: Option<Error>)
        requires
            self.wf(),
            inputs_wf(lines@),
        ensures
            r == spec_submit_check(*self, *header, lines@),
    {
        let n = lines.len();
        // capacity of the id space
        if self.entries.len() as u64 >= i64::MAX as u64 {
            return Some(Error::StorageFailure);
        }
        if n as u64 > i64::MAX as u64 {
            return Some(Error::StorageFailure);
        }
        if self.lines.len() as u64 > i64::MAX as u64 - n as u64 {
            return Some(Error::StorageFailure);
        }
        // entries persist as drafts or posted, never born void
        match header.status {
            EntryStatus::Void => {
                return Some(Error::InvalidData);
            },
            _ => {},
        }
        // a journal entry moves value between at least two positions
        if n < 2 {
            return Some(Error::InvalidData);
        }
        // the reference asset must resolve
        let ref_aid = header.reference_asset_id;
        if ref_aid < 1 || ref_aid > self.assets.len() as i64 {
            return Some(Error::NotFound);
        }
        // every account and asset must resolve
        let mut k: usize = 0;
        while k < n
            invariant
                0 <= k <= n == lines@.len(),
                self.wf(),
                inputs_wf(lines@),
                header_phase_ok(*self, *header, lines@),
                forall|i: int|
                    0 <= i < k ==> valid_id(
                        (#[trigger] lines@[i]).account_id,
                        self.accounts@.len(),
                    ) && valid_id(lines@[i].asset_id, self.assets@.len()),
            decreases n - k,
        {
            let li = &lines[k];
            if li.account_id < 1 || li.account_id > self.accounts.len() as i64
                || li.asset_id < 1 || li.asset_id > self.assets.len() as i64 {
                return Some(Error::NotFound);
            }
            k = k + 1;
        }
        // every amount is strictly positive
        let mut k: usize = 0;
        while k < n
            invariant
                0 <= k <= n == lines@.len(),
                self.wf(),
                inputs_wf(lines@),
                header_phase_ok(*self, *header, lines@),
                refs_ok(*self, lines@),
                forall|i: int| 0 <= i < k ==> (#[trigger] lines@[i]).amount.val() > 0,
            decreases n - k,
        {
            if !lines[k].amount.is_positive() {
                return Some(Error::InvalidData);
            }
            k = k + 1;
        }
        // line numbers are exactly 1..=n
        let mut seen: Vec<bool> = Vec::new();
        let mut k: usize = 0;
        while k < n
            invariant
                0 <= k <= n,
                seen@.len() == k,
                forall|p: int| 0 <= p < k ==> !(#[trigger] seen@[p]),
            decreases n - k,
        {
            seen.push(false);
            k = k + 1;
        }
        let mut k: usize = 0;
        while k < n
            invariant
                0 <= k <= n == lines@.len(),
                self.wf(),
                inputs_wf(lines@),
                header_phase_ok(*self, *header, lines@),
                refs_ok(*self, lines@),
                amounts_positive(lines@),
                seen@.len() == n,
                forall|i: int| 0 <= i < k ==> 1 <= (#[trigger] lines@[i]).line_number <= n,
                forall|i: int, j: int|
                    #![trigger lines@[i].line_number, lines@[j].line_number]
                    0 <= i < j < k ==> lines@[i].line_number != lines@[j].line_number,
                forall|p: int|
                    0 <= p < n ==> ((#[trigger] seen@[p]) <==> exists|j: int|
                        0 <= j < k && (#[trigger] lines@[j]).line_number == p + 1),
            decreases n - k,
        {
            let ln = lines[k].line_number;
            if ln < 1 || ln > n as i64 {
                return Some(Error::InvalidData);
            }
            let idx = (ln - 1) as usize;
            if seen[idx] {
                proof {
                    let j = choose|j: int|
                        0 <= j < k && (#[trigger] lines@[j]).line_number == idx + 1;
                    assert(lines@[j].line_number == lines@[k as int].line_number);
                }
                return Some(Error::InvalidData);
            }
            seen.set(idx, true);
            k = k + 1;
        }
        // every money value fits the persisted encoding exactly
        let mut k: usize = 0;
        while k < n
            invariant
                0 <= k <= n == lines@.len(),
                self.wf(),
                inputs_wf(lines@),
                header_phase_ok(*self, *header, lines@),
                refs_ok(*self, lines@),
                amounts_positive(lines@),
                input_line_numbers_complete(lines@),
                forall|i: int|
                    0 <= i < k ==> {
                        let li = #[trigger] lines@[i];
                        &&& persistable(li.amount)
                        &&& persistable(li.reference_amount)
                        &&& (li.exchange_rate matches Some(x) ==> persistable(x))
                    },
            decreases n - k,
        {
            let li = &lines[k];
            if li.amount.scale() > ENCODE_SCALE {
                return Some(Error::RangeOverflow);
            }
            match li.amount.encode() {
                Err(_) => {
                    return Some(Error::RangeOverflow);
                },
                Ok(_) => {},
            }
            if li.reference_amount.scale() > ENCODE_SCALE {
                return Some(Error::RangeOverflow);
            }
            match li.reference_amount.encode() {
                Err(_) => {
                    return Some(Error::RangeOverflow);
                },
                Ok(_) => {},
            }
            match &li.exchange_rate {
                Some(x) => {
                    if x.scale() > ENCODE_SCALE {
                        return Some(Error::RangeOverflow);
                    }
                    match x.encode() {
                        Err(_) => {
                            return Some(Error::RangeOverflow);
                        },
                        Ok(_) => {},
                    }
                },
                None => {},
            }
            k = k + 1;
        }
        // the exchange-rate rule of each line
        let mut k: usize = 0;
        while k < n
            invariant
                0 <= k <= n == lines@.len(),
                self.wf(),
                inputs_wf(lines@),
                header_phase_ok(*self, *header, lines@),
                refs_ok(*self, lines@),
                amounts_positive(lines@),
                input_line_numbers_complete(lines@),
                moneys_persistable(lines@),
                ref_aid == header.reference_asset_id,
                forall|i: int| 0 <= i < k ==> rate_rule_ok(*self, ref_aid, #[trigger] lines@[i]),
            decreases n - k,
        {
            let li = &lines[k];
            if li.asset_id == ref_aid {
                match &li.exchange_rate {
                    Some(_) => {
                        return Some(Error::InvalidData);
                    },
                    None => {},
                }
                if !(li.reference_amount == li.amount) {
                    proof {
                        if li.reference_amount.val() == li.amount.val() {
                            crate::money::lemma_val_injective(li.reference_amount, li.amount);
                        }
                    }
                    return Some(Error::InvalidData);
                }
            } else {
                match &li.exchange_rate {
                    None => {
                        return Some(Error::InvalidData);
                    },
                    Some(rate) => {
                        // reading the length pins the table's size to the
                        // usize range, so the id converts to an index
                        let alen = self.assets.len();
                        let dp = self.assets[(ref_aid - 1) as usize].decimals;
                        proof {
                            lemma_persistable_bound(li.amount);
                            lemma_persistable_bound(*rate);
                            assert(li.amount.mantissa * rate.mantissa
                                <= 0x8000000000000000 * 0x8000000000000000
                                && li.amount.mantissa * rate.mantissa >= -(0x8000000000000000
                                * 0x8000000000000000)) by (nonlinear_arith)
                                requires
                                    -0x8000000000000000 <= li.amount.mantissa
                                        <= 0x8000000000000000,
                                    -0x8000000000000000 <= rate.mantissa <= 0x8000000000000000,
                            ;
                        }
                        let m = li.amount.mantissa().checked_mul(rate.mantissa()).unwrap();
                        let s = li.amount.scale() + rate.scale();
                        let required = if s <= dp {
                            let required = Money::new(m, s);
                            proof {
                                vstd::arithmetic::power::lemma_pow_adds(
                                    10,
                                    (dp - s) as nat,
                                    (MAX_SCALE - dp) as nat,
                                );
                                assert(((m as int) * pow10((dp - s) as nat)) * pow10(
                                    (MAX_SCALE - dp) as nat,
                                ) == (m as int) * (pow10((dp - s) as nat) * pow10(
                                    (MAX_SCALE - dp) as nat,
                                ))) by (nonlinear_arith);
                            }
                            required
                        } else {
                            proof {
                                crate::money::lemma_pow10_vals();
                                crate::money::lemma_pow10_increases((s - dp) as nat, 20);
                                crate::money::lemma_pow10_pos((s - dp) as nat);
                            }
                            let q = crate::money::div_rhe(
                                m,
                                crate::money::pow10_i128(s - dp),
                            );
                            Money::new(q, dp)
                        };
                        proof {
                            assert(required.val() == converted_ref_val(li.amount, *rate, dp));
                            assert(required.wf());
                            assert(dp == self.assets@[ref_aid - 1].decimals);
                        }
                        if !(required == li.reference_amount) {
                            proof {
                                if li.reference_amount.val() == converted_ref_val(
                                    li.amount,
                                    *rate,
                                    dp,
                                ) {
                                    crate::money::lemma_val_injective(
                                        required,
                                        li.reference_amount,
                                    );
                                }
                            }
                            proof {
                                assert(!rate_rule_ok(*self, ref_aid, lines@[k as int]));
                            }
                            return Some(Error::InvalidData);
                        }
                    },
                }
            }
            proof {
                assert(rate_rule_ok(*self, ref_aid, lines@[k as int]));
            }
            k = k + 1;
        }
        // the double-entry balance rule
        let ghost p20 = pow10((MAX_SCALE - ENCODE_SCALE) as nat);
        let mut acc: i128 = 0;
        let mut k: usize = 0;
        proof {
            assert(lines@.subrange(0, 0) =~= Seq::<JournalEntryLineInput>::empty());
        }
        while k < n
            invariant
                0 <= k <= n == lines@.len(),
                self.wf(),
                inputs_wf(lines@),
                header_phase_ok(*self, *header, lines@),
                refs_ok(*self, lines@),
                amounts_positive(lines@),
                input_line_numbers_complete(lines@),
                moneys_persistable(lines@),
                rates_ok(*self, header.reference_asset_id, lines@),
                p20 == pow10((MAX_SCALE - ENCODE_SCALE) as nat),
                acc * p20 == sum_signed_input(lines@.subrange(0, k as int)),
                -(k as int) * 0x8000000000000000 <= acc <= (k as int) * 0x8000000000000000,
            decreases n - k,
        {
            let li = &lines[k];
            let raw = match li.reference_amount.encode() {
                Ok(v) => v,
                Err(_) => {
                    // dead: this phase runs after every amount was checked
                    proof {
                        assert(false);
                    }
                    return Some(Error::RangeOverflow);
                },
            };
            proof {
                lemma_persistable_bound(li.reference_amount);
                assert(lines@.subrange(0, k + 1).drop_last() =~= lines@.subrange(0, k as int));
                vstd::arithmetic::mul::lemma_mul_is_distributive_add_other_way(
                    p20,
                    acc as int,
                    if li.entry_type is Debit {
                        raw as int
                    } else {
                        -(raw as int)
                    },
                );
                vstd::arithmetic::mul::lemma_mul_unary_negation(raw as int, p20);
                assert((k as int) * 0x8000000000000000 + 0x8000000000000000 == ((k + 1) as int)
                    * 0x8000000000000000) by (nonlinear_arith);
                assert(((k + 1) as int) * 0x8000000000000000 <= (n as int)
                    * 0x8000000000000000) by (nonlinear_arith)
                    requires k + 1 <= n;
                assert((n as int) * 0x8000000000000000 < 0x80000000000000000000000000000000)
                    by (nonlinear_arith)
                    requires n <= 0xffffffffffffffff;
            }
            let signed: i128 = match li.entry_type {
                NormalBalance::Debit => raw as i128,
                NormalBalance::Credit => -(raw as i128),
            };
            acc = acc + signed;
            k = k + 1;
        }
        proof {
            assert(lines@.subrange(0, n as int) =~= lines@);
            crate::money::lemma_pow10_vals();
        }
        if acc != 0 {
            proof {
                vstd::arithmetic::mul::lemma_mul_nonzero(acc as int, p20);
                vstd::arithmetic::div_mod::lemma_div_multiples_vanish(acc as int, p20);
                crate::money::lemma_spec_norm(acc as int, ENCODE_SCALE as nat);
            }
            let diff = Money::new(acc, ENCODE_SCALE);
            proof {
                crate::money::lemma_val_injective(
                    diff,
                    crate::money::spec_norm(acc as int, ENCODE_SCALE as nat),
                );
            }
            return Some(Error::Unbalanced(diff));
        }
        None
    }

    /// Accepts or rejects a proposed journal entry as one atomic unit.
    ///
    /// A rejected submission leaves the store exactly as it was and
    /// reports the first broken rule, in the order of
    /// [`spec_submit_check`]. An accepted submission appends the header
    /// and all its lines — nothing else changes — and returns the new
    /// entry id. Committed entries therefore always balance: debit and
    /// credit reference-amount sums agree, as [`Ledger::wf`] records.
    pub fn submit_journal_entry(
        &mut self,
        header: JournalEntryInput,
        lines: Vec<JournalEntryLineInput>,
    ) -> (r: Result<i64, Error>)
        requires
            old(self).wf(),
            inputs_wf(lines@),
        ensures
            final(self).wf(),
            r is Ok <==> spec_submit_check(*old(self), header, lines@) is None,
            r is Err ==> *final(self) == *old(self) && Some(r->Err_0) == spec_submit_check(
                *old(self),
                header,
                lines@,
            ),
            r is Ok ==> {
                &&& r->Ok_0 == old(self).entries@.len() + 1
                &&& final(self).entries@ == old(self).entries@.push(
                    new_entry_of(*old(self), header),
                )
                &&& final(self).lines@ == old(self).lines@ + new_lines_of(
                    *old(self),
                    lines@,
                )
                &&& final(self).account_types == old(self).account_types
                &&& final(self).assets == old(self).assets
                &&& final(self).accounts == old(self).accounts
            },
    {
        let ghost l0 = *self;
        let ghost h = header;
        match self.check_submission(&header, &lines) {
            Some(e) => Err(e),
            None => {
                let n = lines.len();
                let eid = self.entries.len() as i64 + 1;
                self.entries.push(
                    JournalEntry {
                        id: eid,
                        date: header.date,
                        description: header.description,
                        reference_number: header.reference_number,
                        reference_asset_id: header.reference_asset_id,
                        status: header.status,
                        created_at: header.created_at,
                    },
                );
                let base = self.lines.len();
                let mut k: usize = 0;
                proof {
                    assert(new_lines_of(l0, lines@).subrange(0, 0) =~= Seq::<
                        JournalEntryLine,
                    >::empty());
                    assert(self.lines@ =~= l0.lines@ + new_lines_of(l0, lines@).subrange(
                        0,
                        0,
                    ));
                }
                while k < n
                    invariant
                        0 <= k <= n == lines@.len(),
                        base == l0.lines@.len(),
                        base + n <= i64::MAX,
                        eid == l0.entries@.len() + 1,
                        self.lines@ == l0.lines@ + new_lines_of(l0, lines@).subrange(
                            0,
                            k as int,
                        ),
                        self.entries@ == l0.entries@.push(new_entry_of(l0, h)),
                        self.account_types == l0.account_types,
                        self.assets == l0.assets,
                        self.accounts == l0.accounts,
                    decreases n - k,
                {
                    let li = &lines[k];
                    let line = JournalEntryLine {
                        id: base as i64 + k as i64 + 1,
                        journal_entry_id: eid,
                        account_id: li.account_id,
                        asset_id: li.asset_id,
                        entry_type: li.entry_type,
                        amount: li.amount,
                        reference_amount: li.reference_amount,
                        exchange_rate: li.exchange_rate,
                        line_number: li.line_number,
                        description: clone_opt_string(&li.description),
                    };
                    proof {
                        assert(new_lines_of(l0, lines@).subrange(0, k + 1) =~= new_lines_of(
                            l0,
                            lines@,
                        ).subrange(0, k as int).push(line));
                    }
                    self.lines.push(line);
                    k = k + 1;
                }
                proof {
                    assert(new_lines_of(l0, lines@).subrange(0, n as int) =~= new_lines_of(
                        l0,
                        lines@,
                    ));
                    lemma_commit_wf(l0, *self, h, lines@);
                }
                Ok(eid)
            },
        }
    }

    /// A plain transfer: debits one account and credits another with the
    /// same amount of one asset, as a two-line journal entry. The entry's
    /// reference asset is the amount's own asset, and its creation time is
    /// its date.
    pub fn insert_transaction(
        &mut self,
        date: i64,
        description: String,
        reference_number: String,
        status: EntryStatus,
        from_account_id: i64,
        to_account_id: i64,
        from_asset_id: i64,
        to_asset_id: i64,
        amount: Money,
    ) -> (r: Result<i64, Error>)
        requires
            old(self).wf(),
            amount.wf(),
        ensures
            final(self).wf(),
            ({
                let (h, ls) = transfer_submission(
                    date,
                    description,
                    reference_number,
                    status,
                    from_account_id,
                    to_account_id,
                    from_asset_id,
                    to_asset_id,
                    amount,
                );
                &&& (r is Ok <==> spec_submit_check(*old(self), h, ls) is None)
                &&& (r is Err ==> *final(self) == *old(self) && Some(r->Err_0)
                    == spec_submit_check(*old(self), h, ls))
                &&& (r is Ok ==> {
                    &&& r->Ok_0 == old(self).entries@.len() + 1
                    &&& final(self).entries@ == old(self).entries@.push(
                        new_entry_of(*old(self), h),
                    )
                    &&& final(self).lines@ == old(self).lines@ + new_lines_of(*old(self), ls)
                    &&& final(self).account_types == old(self).account_types
                    &&& final(self).assets == old(self).assets
                    &&& final(self).accounts == old(self).accounts
                })
            }),
    {
        let ghost spec_inputs = transfer_submission(
            date,
            description,
            reference_number,
            status,
            from_account_id,
            to_account_id,
            from_asset_id,
            to_asset_id,
            amount,
        );
        let header = JournalEntryInput {
            date,
            description,
            reference_number: Some(reference_number),
            reference_asset_id: from_asset_id,
            status,
            created_at: date,
        };
        let debit = JournalEntryLineInput {
            account_id: to_account_id,
            asset_id: to_asset_id,
            entry_type: NormalBalance::Debit,
            amount,
            reference_amount: amount,
            exchange_rate: None,
            line_number: 1,
            description: None,
        };
        let credit = JournalEntryLineInput {
            account_id: from_account_id,
            asset_id: from_asset_id,
            entry_type: NormalBalance::Credit,
            amount,
            reference_amount: amount,
            exchange_rate: None,
            line_number: 2,
            description: None,
        };
        let mut two: Vec<JournalEntryLineInput> = Vec::new();
        two.push(debit);
        two.push(credit);
        proof {
            assert(two@ =~= spec_inputs.1);
        }
        self.submit_journal_entry(header, two)
    }
}

/// The header and the two lines a plain transfer submits: a debit of the
/// destination and a credit of the source.
pub open spec fn transfer_submission(
    date: i64,
    description: String,
    reference_number: String,
    status: EntryStatus,
    from_account_id: i64,
    to_account_id: i64,
    from_asset_id: i64,
    to_asset_id: i64,
    amount: Money,
) -> (JournalEntryInput, Seq<JournalEntryLineInput>) {
    let h = JournalEntryInput {
        date: date,
        description: description,
        reference_number: Some(reference_number),
        reference_asset_id: from_asset_id,
        status: status,
        created_at: date,
    };
    let debit = JournalEntryLineInput {
        account_id: to_account_id,
        asset_id: to_asset_id,
        entry_type: NormalBalance::Debit,
        amount: amount,
        reference_amount: amount,
        exchange_rate: None,
        line_number: 1,
        description: None,
    };
    let credit = JournalEntryLineInput {
        account_id: from_account_id,
        asset_id: from_asset_id,
        entry_type: NormalBalance::Credit,
        amount: amount,
        reference_amount: amount,
        exchange_rate: None,
        line_number: 2,
        description: None,
    };
    (h, seq![debit, credit])
}

/// The empty prefix holds no lines of any entry.
proof fn lemma_lines_of_prefix_empty(lines: Seq<JournalEntryLine>, eid: i64)
    ensures
        lines_of(lines.subrange(0, 0), eid) =~= Seq::<JournalEntryLine>::empty(),
{
    assert(lines.subrange(0, 0) =~= Seq::<JournalEntryLine>::empty());
}

/// A field-exact copy of an entry, with the given status.
fn clone_entry_with_status(e: &JournalEntry, status: EntryStatus) -> (r: JournalEntry)
    ensures
        r == (JournalEntry { status: status, ..*e }),
{
    JournalEntry {
        id: e.id,
        date: e.date,
        description: clone_string(&e.description),
        reference_number: clone_opt_string(&e.reference_number),
        reference_asset_id: e.reference_asset_id,
        status,
        created_at: e.created_at,
    }
}

/// A field-exact copy of a line.
fn clone_line(l: &JournalEntryLine) -> (r: JournalEntryLine)
    ensures
        r == *l,
{
    JournalEntryLine {
        id: l.id,
        journal_entry_id: l.journal_entry_id,
        account_id: l.account_id,
        asset_id: l.asset_id,
        entry_type: l.entry_type,
        amount: l.amount,
        reference_amount: l.reference_amount,
        exchange_rate: l.exchange_rate,
        line_number: l.line_number,
        description: clone_opt_string(&l.description),
    }
}

/// A copy of a string that is known to equal the original.
pub(crate) fn clone_string(s: &String) -> (r: String)
    ensures
        r == *s,
{
    let r = s.clone();
    proof {
        assert(r@ == s@);
    }
    r
}

/// A copy of an optional string that is known to equal the original.
pub(crate) fn clone_opt_string(s: &Option<String>) -> (r: Option<String>)
    ensures
        r == *s,
{
    match s {
        Some(x) => Some(clone_string(x)),
        None => None,
    }
}

} // verus!
