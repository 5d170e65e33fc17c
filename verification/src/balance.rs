//! The balance aggregator: net signed totals per account and asset.
//!
//! Only lines of entries whose status is `Posted` count. A line adds its
//! reference amount when its side matches the owning account's normal
//! balance, and subtracts it otherwise. The report lists every pair with a
//! nonzero total exactly once, ordered by account number and then asset
//! code (byte order of their UTF-8 encodings), and omits zero balances.

use vstd::prelude::*;

use crate::ledger::{clone_string, valid_id, Ledger};
use crate::models::{JournalEntryLine, NormalBalance};
use crate::money::{pow10, Money, ENCODE_SCALE, MAX_SCALE};

verus! {

/// A row of the general balance report.
#[derive(Clone, Debug)]
pub struct GeneralBalanceReport {
    pub account_number: String,
    pub account_name: String,
    pub asset: String,
    pub balance: Money,
}

/// The UTF-8 bytes of a string: what the report is ordered by.
pub open spec fn string_key(s: String) -> Seq<u8> {
    vstd::utf8::encode_utf8(s@)
}

/// Lexicographic byte order.
pub open spec fn bytes_le(a: Seq<u8>, b: Seq<u8>) -> bool
    decreases a.len(),
{
    if a.len() == 0 {
        true
    } else if b.len() == 0 {
        false
    } else if a[0] < b[0] {
        true
    } else if a[0] > b[0] {
        false
    } else {
        bytes_le(a.drop_first(), b.drop_first())
    }
}

/// Report order: account number first, asset code second.
pub open spec fn row_le(a: GeneralBalanceReport, b: GeneralBalanceReport) -> bool {
    if string_key(a.account_number) == string_key(b.account_number) {
        bytes_le(string_key(a.asset), string_key(b.asset))
    } else {
        bytes_le(string_key(a.account_number), string_key(b.account_number))
    }
}

/// The side on which a line's account naturally accumulates.
pub open spec fn account_normal_balance(l: Ledger, aid: i64) -> NormalBalance {
    l.account_types@[l.accounts@[aid - 1].account_type_id - 1].normal_balance
}

/// One line's signed contribution: its reference amount when its side
/// matches the account's normal balance, the negation otherwise — and
/// nothing at all unless its entry is posted.
pub open spec fn line_contribution(l: Ledger, ln: JournalEntryLine) -> int {
    if l.entries@[ln.journal_entry_id - 1].status is Posted {
        if ln.entry_type == account_normal_balance(l, ln.account_id) {
            ln.reference_amount.val()
        } else {
            -ln.reference_amount.val()
        }
    } else {
        0
    }
}

/// The net balance of one account-asset pair over the first `upto` lines.
pub open spec fn balance_val_prefix(l: Ledger, aid: i64, sid: i64, upto: int) -> int
    decreases upto,
{
    if upto <= 0 {
        0
    } else {
        balance_val_prefix(l, aid, sid, upto - 1) + (
        if l.lines@[upto - 1].account_id == aid && l.lines@[upto - 1].asset_id == sid {
            line_contribution(l, l.lines@[upto - 1])
        } else {
            0
        })
    }
}

/// The net balance of one account-asset pair over the whole journal.
pub open spec fn balance_val(l: Ledger, aid: i64, sid: i64) -> int {
    balance_val_prefix(l, aid, sid, l.lines@.len() as int)
}

/// Like [`balance_val_prefix`], with one entry's lines left out.
pub open spec fn balance_val_prefix_excluding(
    l: Ledger,
    eid: i64,
    aid: i64,
    sid: i64,
    upto: int,
) -> int
    decreases upto,
{
    if upto <= 0 {
        0
    } else {
        balance_val_prefix_excluding(l, eid, aid, sid, upto - 1) + (
        if l.lines@[upto - 1].journal_entry_id != eid && l.lines@[upto - 1].account_id == aid
            && l.lines@[upto - 1].asset_id == sid {
            line_contribution(l, l.lines@[upto - 1])
        } else {
            0
        })
    }
}

/// The net balance with one entry's lines left out entirely.
pub open spec fn balance_val_excluding(l: Ledger, eid: i64, aid: i64, sid: i64) -> int {
    balance_val_prefix_excluding(l, eid, aid, sid, l.lines@.len() as int)
}

/// Void exclusion law: an entry that is not posted contributes nothing —
/// every balance equals the aggregation that skips the entry's lines
/// outright, while the entry itself stays in the store and remains
/// readable.
pub proof fn lemma_void_excluded(l: Ledger, eid: i64, aid: i64, sid: i64)
    requires
        valid_id(eid, l.entries@.len()),
        !(l.entries@[eid - 1].status is Posted),
    ensures
        balance_val(l, aid, sid) == balance_val_excluding(l, eid, aid, sid),
{
    lemma_void_excluded_prefix(l, eid, aid, sid, l.lines@.len() as int);
}

/// Induction behind [`lemma_void_excluded`].
proof fn lemma_void_excluded_prefix(l: Ledger, eid: i64, aid: i64, sid: i64, upto: int)
    requires
        valid_id(eid, l.entries@.len()),
        !(l.entries@[eid - 1].status is Posted),
    ensures
        balance_val_prefix(l, aid, sid, upto) == balance_val_prefix_excluding(
            l,
            eid,
            aid,
            sid,
            upto,
        ),
    decreases upto,
{
    if upto > 0 {
        lemma_void_excluded_prefix(l, eid, aid, sid, upto - 1);
    }
}

/// A committed entry always balances: its debit and credit
/// reference-amount sums agree. This is the store invariant made public.
pub proof fn lemma_committed_entries_balance(l: Ledger, eid: i64)
    requires
        l.wf(),
        valid_id(eid, l.entries@.len()),
    ensures
        crate::ledger::sum_signed_ref(crate::ledger::lines_of(l.lines@, eid)) == 0,
{
}

/// A report row with its account and asset resolved: the strings are the
/// account's and the asset's, the balance is exact and nonzero.
pub open spec fn row_matches(
    l: Ledger,
    row: GeneralBalanceReport,
    aid: i64,
    sid: i64,
) -> bool {
    &&& valid_id(aid, l.accounts@.len())
    &&& valid_id(sid, l.assets@.len())
    &&& row.account_number@ == l.accounts@[aid - 1].account_number@
    &&& row.account_name@ == l.accounts@[aid - 1].name@
    &&& row.asset@ == l.assets@[sid - 1].code@
    &&& row.balance.wf()
    &&& row.balance.val() == balance_val(l, aid, sid)
    &&& balance_val(l, aid, sid) != 0
}

/// A report row that reports some real pair's nonzero balance.
pub open spec fn row_ok(l: Ledger, row: GeneralBalanceReport) -> bool {
    exists|aid: i64, sid: i64| #[trigger] row_matches(l, row, aid, sid)
}

/// `bytes_le` is total.
proof fn lemma_bytes_le_total(a: Seq<u8>, b: Seq<u8>)
    ensures
        bytes_le(a, b) || bytes_le(b, a),
    decreases a.len(),
{
    if a.len() > 0 && b.len() > 0 && a[0] == b[0] {
        lemma_bytes_le_total(a.drop_first(), b.drop_first());
    }
}

/// `bytes_le` is reflexive.
proof fn lemma_bytes_le_refl(a: Seq<u8>)
    ensures
        bytes_le(a, a),
    decreases a.len(),
{
    if a.len() > 0 {
        lemma_bytes_le_refl(a.drop_first());
    }
}

/// `row_le` is reflexive.
proof fn lemma_row_le_refl(a: GeneralBalanceReport)
    ensures
        row_le(a, a),
{
    lemma_bytes_le_refl(string_key(a.asset));
}

/// `bytes_le` is antisymmetric.
proof fn lemma_bytes_le_antisym(a: Seq<u8>, b: Seq<u8>)
    requires
        bytes_le(a, b),
        bytes_le(b, a),
    ensures
        a == b,
    decreases a.len(),
{
    if a.len() == 0 {
        assert(b.len() == 0);
        assert(a =~= b);
    } else {
        lemma_bytes_le_antisym(a.drop_first(), b.drop_first());
        assert(a =~= seq![a[0]] + a.drop_first());
        assert(b =~= seq![b[0]] + b.drop_first());
    }
}

/// `bytes_le` is transitive.
proof fn lemma_bytes_le_trans(a: Seq<u8>, b: Seq<u8>, c: Seq<u8>)
    requires
        bytes_le(a, b),
        bytes_le(b, c),
    ensures
        bytes_le(a, c),
    decreases a.len(),
{
    if a.len() > 0 && b.len() > 0 && c.len() > 0 && a[0] == b[0] && b[0] == c[0] {
        lemma_bytes_le_trans(a.drop_first(), b.drop_first(), c.drop_first());
    }
}

/// `row_le` is total.
proof fn lemma_row_le_total(a: GeneralBalanceReport, b: GeneralBalanceReport)
    ensures
        row_le(a, b) || row_le(b, a),
{
    lemma_bytes_le_total(string_key(a.account_number), string_key(b.account_number));
    lemma_bytes_le_total(string_key(a.asset), string_key(b.asset));
}

/// `row_le` is transitive.
proof fn lemma_row_le_trans(
    a: GeneralBalanceReport,
    b: GeneralBalanceReport,
    c: GeneralBalanceReport,
)
    requires
        row_le(a, b),
        row_le(b, c),
    ensures
        row_le(a, c),
{
    let na = string_key(a.account_number);
    let nb = string_key(b.account_number);
    let nc = string_key(c.account_number);
    if na == nb && nb == nc {
        lemma_bytes_le_trans(string_key(a.asset), string_key(b.asset), string_key(c.asset));
    } else if na == nb {
        assert(bytes_le(nb, nc));
    } else if nb == nc {
        assert(bytes_le(na, nc));
    } else {
        lemma_bytes_le_trans(na, nb, nc);
        if na == nc {
            lemma_bytes_le_antisym(nb, nc);
        }
    }
}

/// One account-asset running total while the journal is folded up.
#[derive(Clone, Copy, Debug, PartialEq, Eq, Structural)]
struct PairTotal {
    account_id: i64,
    asset_id: i64,
    scaled: i128,
}

/// Whether some total already tracks this account-asset pair.
spec fn has_key(ts: Seq<PairTotal>, aid: i64, sid: i64) -> bool {
    exists|p: int|
        0 <= p < ts.len() && (#[trigger] ts[p]).account_id == aid && ts[p].asset_id == sid
}

/// Byte order of two strings, executable: mirrors [`bytes_le`].
fn string_le(a: &String, b: &String) -> (r: bool)
    ensures
        r == bytes_le(string_key(*a), string_key(*b)),
{
    let ab = a.as_str().as_bytes();
    let bb = b.as_str().as_bytes();
    let ghost ga = string_key(*a);
    let ghost gb = string_key(*b);
    proof {
        assert(ab@ =~= ga);
        assert(bb@ =~= gb);
        assert(ga.subrange(0, ga.len() as int) =~= ga);
        assert(gb.subrange(0, gb.len() as int) =~= gb);
    }
    let mut i: usize = 0;
    loop
        invariant
            0 <= i <= ga.len(),
            i <= gb.len(),
            ga == string_key(*a),
            gb == string_key(*b),
            ab@ == ga,
            bb@ == gb,
            bytes_le(ga, gb) == bytes_le(ga.subrange(i as int, ga.len() as int), gb.subrange(
                i as int,
                gb.len() as int,
            )),
        decreases ga.len() - i,
    {
        let ghost ra = ga.subrange(i as int, ga.len() as int);
        let ghost rb = gb.subrange(i as int, gb.len() as int);
        if i == ab.len() {
            proof {
                assert(ra.len() == 0);
            }
            return true;
        }
        if i == bb.len() {
            proof {
                assert(rb.len() == 0 && ra.len() > 0);
            }
            return false;
        }
        let ca = ab[i];
        let cb = bb[i];
        proof {
            assert(ra[0] == ga[i as int]);
            assert(rb[0] == gb[i as int]);
            assert(ra.drop_first() =~= ga.subrange(i + 1, ga.len() as int));
            assert(rb.drop_first() =~= gb.subrange(i + 1, gb.len() as int));
        }
        if ca < cb {
            return true;
        }
        if ca > cb {
            return false;
        }
        i = i + 1;
    }
}

/// Index of the total tracking this pair, or the length when none does.
fn find_pair(totals: &Vec<PairTotal>, aid: i64, sid: i64) -> (r: usize)
    ensures
        r <= totals@.len(),
        forall|q: int|
            0 <= q < r ==> !((#[trigger] totals@[q]).account_id == aid && totals@[q].asset_id
                == sid),
        r < totals@.len() ==> totals@[r as int].account_id == aid && totals@[r as int].asset_id
            == sid,
{
    let mut pos: usize = 0;
    while pos < totals.len()
        invariant
            0 <= pos <= totals@.len(),
            forall|q: int|
                0 <= q < pos ==> !((#[trigger] totals@[q]).account_id == aid
                    && totals@[q].asset_id == sid),
        decreases totals@.len() - pos,
    {
        if totals[pos].account_id == aid && totals[pos].asset_id == sid {
            return pos;
        }
        pos = pos + 1;
    }
    pos
}

/// The phase-one facts: each tracked pair's running total is exact, keys
/// are distinct and resolvable, and untracked pairs have aggregated
/// nothing so far.
spec fn totals_inv(l: Ledger, ts: Seq<PairTotal>, upto: int) -> bool {
    &&& forall|p: int, q: int|
        #![trigger ts[p].account_id, ts[q].account_id]
        0 <= p < q < ts.len() ==> (ts[p].account_id != ts[q].account_id || ts[p].asset_id
            != ts[q].asset_id)
    &&& forall|p: int|
        0 <= p < ts.len() ==> {
            let t = #[trigger] ts[p];
            &&& valid_id(t.account_id, l.accounts@.len())
            &&& valid_id(t.asset_id, l.assets@.len())
            &&& t.scaled * pow10((MAX_SCALE - ENCODE_SCALE) as nat) == balance_val_prefix(
                l,
                t.account_id,
                t.asset_id,
                upto,
            )
            &&& -upto * 0x8000000000000000 <= t.scaled <= upto * 0x8000000000000000
        }
    &&& forall|a: i64, s: i64|
        !has_key(ts, a, s) ==> #[trigger] balance_val_prefix(l, a, s, upto) == 0
}

impl Ledger {
    /// The general balance report: one row for every account-asset pair
    /// with a nonzero net balance over posted entries — each pair exactly
    /// once, the balance exact, zero balances omitted, rows ordered by
    /// account number and then by asset code.
    /// The general balance report: one row for every account-asset pair
    /// with a nonzero net balance over posted entries — each pair exactly
    /// once, the balance exact, zero balances omitted, rows ordered by
    /// account number and then by asset code.
    pub fn get_general_balance(&self) -> (r: Vec<GeneralBalanceReport>)
        requires
            self.wf(),
        ensures
            forall|p: int| 0 <= p < r@.len() ==> row_ok(*self, #[trigger] r@[p]),
            forall|aid: i64, sid: i64|
                (valid_id(aid, self.accounts@.len()) && valid_id(sid, self.assets@.len())
                    && #[trigger] balance_val(*self, aid, sid) != 0) ==> exists|p: int|
                    0 <= p < r@.len() && #[trigger] row_matches(*self, r@[p], aid, sid),
            forall|p: int, q: int|
                #![trigger r@[p], r@[q]]
                0 <= p < q < r@.len() ==> (r@[p].account_number@ != r@[q].account_number@
                    || r@[p].asset@ != r@[q].asset@),
            forall|p: int, q: int|
                #![trigger r@[p], r@[q]]
                0 <= p < q < r@.len() ==> row_le(r@[p], r@[q]),
    {
        let totals = self.fold_totals();
        self.build_rows(&totals)
    }

    /// Folds the whole journal into one running total per account-asset
    /// pair.
    fn fold_totals(&self) -> (r: Vec<PairTotal>)
        requires
            self.wf(),
        ensures
            totals_inv(*self, r@, self.lines@.len() as int),
    {
        let ghost l = *self;
        let ghost p20 = pow10((MAX_SCALE - ENCODE_SCALE) as nat);
        let mut totals: Vec<PairTotal> = Vec::new();
        let nlines = self.lines.len();
        let mut j: usize = 0;
        while j < nlines
            invariant
                0 <= j <= nlines == self.lines@.len(),
                self.wf(),
                l == *self,
                p20 == pow10((MAX_SCALE - ENCODE_SCALE) as nat),
                totals_inv(l, totals@, j as int),
            decreases nlines - j,
        {
            let ln = &self.lines[j];
            // reading the length pins the table's size to the usize range
            let elen = self.entries.len();
            let eidx = (ln.journal_entry_id - 1) as usize;
            let delta: i128 = match self.entries[eidx].status {
                crate::models::EntryStatus::Posted => {
                    let alen = self.accounts.len();
                    let aidx = (ln.account_id - 1) as usize;
                    let tlen = self.account_types.len();
                    let tidx = (self.accounts[aidx].account_type_id - 1) as usize;
                    let nb = self.account_types[tidx].normal_balance;
                    let raw = match ln.reference_amount.encode() {
                        Ok(v) => v,
                        Err(_) => {
                            // dead: committed amounts always encode
                            proof {
                                assert(false);
                            }
                            0
                        },
                    };
                    proof {
                        crate::ledger::lemma_persistable_bound(ln.reference_amount);
                        vstd::arithmetic::mul::lemma_mul_unary_negation(raw as int, p20);
                    }
                    if nb == ln.entry_type {
                        raw as i128
                    } else {
                        -(raw as i128)
                    }
                },
                _ => 0,
            };
            proof {
                assert(delta * p20 == line_contribution(l, l.lines@[j as int]));
                crate::money::lemma_pow10_vals();
            }
            let pos = find_pair(&totals, ln.account_id, ln.asset_id);
            let ghost old_totals = totals@;
            if pos < totals.len() {
                let t = totals[pos];
                proof {
                    assert((j as int) * 0x8000000000000000 + 0x8000000000000000 == ((j + 1) as int)
                        * 0x8000000000000000) by (nonlinear_arith);
                    assert(((j + 1) as int) * 0x8000000000000000 <= (nlines as int)
                        * 0x8000000000000000) by (nonlinear_arith)
                        requires j + 1 <= nlines;
                    assert((nlines as int) * 0x8000000000000000
                        < 0x80000000000000000000000000000000) by (nonlinear_arith)
                        requires nlines <= 0xffffffffffffffff;
                    vstd::arithmetic::mul::lemma_mul_is_distributive_add_other_way(
                        p20,
                        t.scaled as int,
                        delta as int,
                    );
                }
                let updated = PairTotal {
                    account_id: t.account_id,
                    asset_id: t.asset_id,
                    scaled: t.scaled + delta,
                };
                totals.set(pos, updated);
                proof {
                    assert forall|p: int| 0 <= p < totals@.len() implies {
                        let tp = #[trigger] totals@[p];
                        tp.scaled * p20 == balance_val_prefix(
                            l,
                            tp.account_id,
                            tp.asset_id,
                            j + 1,
                        )
                    } by {
                        if p != pos {
                            assert(totals@[p] == old_totals[p]);
                            assert(old_totals[p].account_id != t.account_id
                                || old_totals[p].asset_id != t.asset_id);
                        }
                    }
                    assert forall|a: i64, s: i64| !has_key(totals@, a, s) implies #[trigger]
                    balance_val_prefix(l, a, s, j + 1) == 0 by {
                        assert(!has_key(old_totals, a, s)) by {
                            if has_key(old_totals, a, s) {
                                let q = choose|q: int|
                                    0 <= q < old_totals.len() && (#[trigger] old_totals[
                                    q]).account_id == a && old_totals[q].asset_id == s;
                                assert(totals@[q].account_id == a && totals@[q].asset_id == s);
                            }
                        }
                        assert(!(a == t.account_id && s == t.asset_id)) by {
                            if a == t.account_id && s == t.asset_id {
                                assert(totals@[pos as int].account_id == a
                                    && totals@[pos as int].asset_id == s);
                            }
                        }
                        assert(balance_val_prefix(l, a, s, j as int) == 0);
                    }
                }
            } else {
                proof {
                    assert(!has_key(old_totals, ln.account_id, ln.asset_id));
                    assert(balance_val_prefix(l, ln.account_id, ln.asset_id, j as int) == 0);
                    assert(((j + 1) as int) * 0x8000000000000000 >= 0x8000000000000000)
                        by (nonlinear_arith)
                        requires j >= 0;
                }
                totals.push(
                    PairTotal {
                        account_id: ln.account_id,
                        asset_id: ln.asset_id,
                        scaled: delta,
                    },
                );
                proof {
                    assert forall|p: int| 0 <= p < totals@.len() implies {
                        let tp = #[trigger] totals@[p];
                        tp.scaled * p20 == balance_val_prefix(
                            l,
                            tp.account_id,
                            tp.asset_id,
                            j + 1,
                        )
                    } by {
                        if p < old_totals.len() {
                            assert(totals@[p] == old_totals[p]);
                        }
                    }
                    assert forall|a: i64, s: i64| !has_key(totals@, a, s) implies #[trigger]
                    balance_val_prefix(l, a, s, j + 1) == 0 by {
                        assert(!has_key(old_totals, a, s)) by {
                            if has_key(old_totals, a, s) {
                                let q = choose|q: int|
                                    0 <= q < old_totals.len() && (#[trigger] old_totals[
                                    q]).account_id == a && old_totals[q].asset_id == s;
                                assert(totals@[q].account_id == a && totals@[q].asset_id == s);
                            }
                        }
                        assert(!(a == ln.account_id && s == ln.asset_id)) by {
                            if a == ln.account_id && s == ln.asset_id {
                                let last = totals@.len() - 1;
                                assert(totals@[last].account_id == a && totals@[last].asset_id
                                    == s);
                            }
                        }
                        assert(balance_val_prefix(l, a, s, j as int) == 0);
                    }
                }
            }
            j = j + 1;
        }
        totals
    }

    /// Keeps the nonzero totals, one sorted report row each.
    #[verifier::rlimit(80)]
    fn build_rows(&self, totals: &Vec<PairTotal>) -> (r: Vec<GeneralBalanceReport>)
        requires
            self.wf(),
            totals_inv(*self, totals@, self.lines@.len() as int),
        ensures
            forall|p: int| 0 <= p < r@.len() ==> row_ok(*self, #[trigger] r@[p]),
            forall|aid: i64, sid: i64|
                (valid_id(aid, self.accounts@.len()) && valid_id(sid, self.assets@.len())
                    && #[trigger] balance_val(*self, aid, sid) != 0) ==> exists|p: int|
                    0 <= p < r@.len() && #[trigger] row_matches(*self, r@[p], aid, sid),
            forall|p: int, q: int|
                #![trigger r@[p], r@[q]]
                0 <= p < q < r@.len() ==> (r@[p].account_number@ != r@[q].account_number@
                    || r@[p].asset@ != r@[q].asset@),
            forall|p: int, q: int|
                #![trigger r@[p], r@[q]]
                0 <= p < q < r@.len() ==> row_le(r@[p], r@[q]),
    {
        let ghost l = *self;
        let ghost p20 = pow10((MAX_SCALE - ENCODE_SCALE) as nat);
        let mut rows: Vec<GeneralBalanceReport> = Vec::new();
        let ghost mut keys: Seq<(i64, i64)> = Seq::empty();
        let tl = totals.len();
        let mut k: usize = 0;
        while k < tl
            invariant
                0 <= k <= tl == totals@.len(),
                self.wf(),
                l == *self,
                p20 == pow10((MAX_SCALE - ENCODE_SCALE) as nat),
                totals_inv(l, totals@, l.lines@.len() as int),
                keys.len() == rows@.len(),
                forall|p: int|
                    0 <= p < rows@.len() ==> row_matches(
                        l,
                        #[trigger] rows@[p],
                        keys[p].0,
                        keys[p].1,
                    ),
                forall|p: int|
                    0 <= p < keys.len() ==> pair_tracked(totals@, k as int, #[trigger] keys[p]),
                forall|p1: int, p2: int|
                    #![trigger keys[p1], keys[p2]]
                    0 <= p1 < p2 < keys.len() ==> keys[p1] != keys[p2],
                forall|q: int|
                    0 <= q < k && (#[trigger] totals@[q]).scaled != 0 ==> key_listed(
                        keys,
                        (totals@[q].account_id, totals@[q].asset_id),
                    ),
                forall|p: int, q: int|
                    #![trigger rows@[p], rows@[q]]
                    0 <= p < q < rows@.len() ==> row_le(rows@[p], rows@[q]),
            decreases tl - k,
        {
            let t = totals[k];
            if t.scaled != 0 {
                let alen = self.accounts.len();
                let slen = self.assets.len();
                let aidx = (t.account_id - 1) as usize;
                let sidx = (t.asset_id - 1) as usize;
                let row = GeneralBalanceReport {
                    account_number: clone_string(&self.accounts[aidx].account_number),
                    account_name: clone_string(&self.accounts[aidx].name),
                    asset: clone_string(&self.assets[sidx].code),
                    balance: Money::new(t.scaled, ENCODE_SCALE),
                };
                proof {
                    crate::money::lemma_pow10_vals();
                    vstd::arithmetic::mul::lemma_mul_nonzero(t.scaled as int, p20);
                    assert(row_matches(l, row, t.account_id, t.asset_id));
                }
                // find where the row belongs in the order
                let mut pos: usize = 0;
                loop
                    invariant
                        0 <= pos <= rows@.len(),
                        forall|q: int| 0 <= q < pos ==> row_le(#[trigger] rows@[q], row),
                    ensures
                        0 <= pos <= rows@.len(),
                        forall|q: int| 0 <= q < pos ==> row_le(#[trigger] rows@[q], row),
                        pos < rows@.len() ==> row_le(row, rows@[pos as int]),
                    decreases rows@.len() - pos,
                {
                    if pos == rows.len() {
                        break ;
                    }
                    if !report_row_le(&rows[pos], &row) {
                        proof {
                            lemma_row_le_total(rows@[pos as int], row);
                        }
                        break ;
                    }
                    pos = pos + 1;
                }
                let ghost old_rows = rows@;
                let ghost old_keys = keys;
                let ghost newkey = (t.account_id, t.asset_id);
                rows.insert(pos, row);
                proof {
                    keys = old_keys.insert(pos as int, newkey);
                    old_rows.insert_ensures(pos as int, row);
                    old_keys.insert_ensures(pos as int, newkey);
                    lemma_insert_bookkeeping(
                        l,
                        totals@,
                        old_rows,
                        old_keys,
                        rows@,
                        keys,
                        row,
                        newkey,
                        k as int,
                        pos as int,
                    );
                }
            } else {
                proof {
                    assert forall|q: int|
                        0 <= q < k + 1 && (#[trigger] totals@[q]).scaled != 0 implies key_listed(
                        keys,
                        (totals@[q].account_id, totals@[q].asset_id),
                    ) by {}
                }
            }
            k = k + 1;
        }
        proof {
            lemma_report_sound_and_complete(l, totals@, keys, rows@);
            lemma_report_rows_distinct(l, keys, rows@);
        }
        rows
    }
}

/// Whether a pair is the key of one of the first `k` totals.
spec fn pair_tracked(ts: Seq<PairTotal>, k: int, key: (i64, i64)) -> bool {
    exists|q: int|
        0 <= q < k && q < ts.len() && (#[trigger] ts[q]).account_id == key.0 && ts[q].asset_id
            == key.1
}

/// Whether a pair appears among the listed row keys.
spec fn key_listed(keys: Seq<(i64, i64)>, key: (i64, i64)) -> bool {
    exists|p: int| 0 <= p < keys.len() && #[trigger] keys[p] == key
}

/// Soundness and completeness of the finished report: every row reports
/// some pair, and every pair with a nonzero balance has a matching row.
proof fn lemma_report_sound_and_complete(
    l: Ledger,
    ts: Seq<PairTotal>,
    keys: Seq<(i64, i64)>,
    rows: Seq<GeneralBalanceReport>,
)
    requires
        totals_inv(l, ts, l.lines@.len() as int),
        keys.len() == rows.len(),
        forall|p: int|
            0 <= p < rows.len() ==> row_matches(l, #[trigger] rows[p], keys[p].0, keys[p].1),
        forall|q: int|
            0 <= q < ts.len() && (#[trigger] ts[q]).scaled != 0 ==> key_listed(
                keys,
                (ts[q].account_id, ts[q].asset_id),
            ),
    ensures
        forall|p: int| 0 <= p < rows.len() ==> row_ok(l, #[trigger] rows[p]),
        forall|aid: i64, sid: i64|
            (valid_id(aid, l.accounts@.len()) && valid_id(sid, l.assets@.len())
                && #[trigger] balance_val(l, aid, sid) != 0) ==> exists|p: int|
                0 <= p < rows.len() && #[trigger] row_matches(l, rows[p], aid, sid),
{
    let p20 = pow10((MAX_SCALE - ENCODE_SCALE) as nat);
    crate::money::lemma_pow10_vals();
    assert forall|p: int| 0 <= p < rows.len() implies row_ok(l, #[trigger] rows[p]) by {
        assert(row_matches(l, rows[p], keys[p].0, keys[p].1));
    }
    assert forall|aid: i64, sid: i64|
        (valid_id(aid, l.accounts@.len()) && valid_id(sid, l.assets@.len())
            && #[trigger] balance_val(l, aid, sid) != 0) implies exists|p: int|
        0 <= p < rows.len() && #[trigger] row_matches(l, rows[p], aid, sid) by {
        assert(has_key(ts, aid, sid)) by {
            if !has_key(ts, aid, sid) {
                assert(balance_val_prefix(l, aid, sid, l.lines@.len() as int) == 0);
            }
        }
        let q = choose|q: int|
            0 <= q < ts.len() && (#[trigger] ts[q]).account_id == aid && ts[q].asset_id == sid;
        assert(ts[q].scaled != 0) by {
            if ts[q].scaled == 0 {
                assert(ts[q].scaled * p20 == 0);
            }
        }
        assert(key_listed(keys, (ts[q].account_id, ts[q].asset_id)));
        let p = choose|p: int|
            0 <= p < keys.len() && #[trigger] keys[p] == (ts[q].account_id, (ts[q].asset_id));
        assert(row_matches(l, rows[p], aid, sid));
    }
}

/// No two rows of the finished report name one account and asset pair:
/// distinct keys mean distinct strings, account numbers and asset codes
/// being unique in a well-formed store.
proof fn lemma_report_rows_distinct(
    l: Ledger,
    keys: Seq<(i64, i64)>,
    rows: Seq<GeneralBalanceReport>,
)
    requires
        l.wf(),
        keys.len() == rows.len(),
        forall|p: int|
            0 <= p < rows.len() ==> row_matches(l, #[trigger] rows[p], keys[p].0, keys[p].1),
        forall|p1: int, p2: int|
            #![trigger keys[p1], keys[p2]]
            0 <= p1 < p2 < keys.len() ==> keys[p1] != keys[p2],
    ensures
        forall|p: int, q: int|
            #![trigger rows[p], rows[q]]
            0 <= p < q < rows.len() ==> (rows[p].account_number@ != rows[q].account_number@
                || rows[p].asset@ != rows[q].asset@),
{
    assert forall|p: int, q: int|
        #![trigger rows[p], rows[q]]
        0 <= p < q < rows.len() implies (rows[p].account_number@ != rows[q].account_number@
        || rows[p].asset@ != rows[q].asset@) by {
        let (a1, s1) = keys[p];
        let (a2, s2) = keys[q];
        assert(row_matches(l, rows[p], a1, s1));
        assert(row_matches(l, rows[q], a2, s2));
        assert(keys[p] != keys[q]);
        if a1 != a2 {
            assert(l.accounts@[a1 - 1].account_number@ != l.accounts@[a2
                - 1].account_number@);
        } else {
            assert(s1 != s2);
            assert(l.assets@[s1 - 1].code@ != l.assets@[s2 - 1].code@);
        }
    }
}

/// The bookkeeping of one sorted insertion: every row still reports its
/// pair, keys stay tracked, distinct and complete, and the order holds.
#[verifier::rlimit(60)]
proof fn lemma_insert_bookkeeping(
    l: Ledger,
    ts: Seq<PairTotal>,
    old_rows: Seq<GeneralBalanceReport>,
    old_keys: Seq<(i64, i64)>,
    rows: Seq<GeneralBalanceReport>,
    keys: Seq<(i64, i64)>,
    row: GeneralBalanceReport,
    newkey: (i64, i64),
    k: int,
    pos: int,
)
    requires
        0 <= k < ts.len(),
        0 <= pos <= old_rows.len(),
        old_keys.len() == old_rows.len(),
        rows == old_rows.insert(pos, row),
        keys == old_keys.insert(pos, newkey),
        newkey == (ts[k].account_id, ts[k].asset_id),
        row_matches(l, row, newkey.0, newkey.1),
        forall|p: int|
            0 <= p < old_rows.len() ==> row_matches(
                l,
                #[trigger] old_rows[p],
                old_keys[p].0,
                old_keys[p].1,
            ),
        forall|p: int| 0 <= p < old_keys.len() ==> pair_tracked(ts, k, #[trigger] old_keys[p]),
        forall|p1: int, p2: int|
            #![trigger old_keys[p1], old_keys[p2]]
            0 <= p1 < p2 < old_keys.len() ==> old_keys[p1] != old_keys[p2],
        forall|q: int|
            0 <= q < k && (#[trigger] ts[q]).scaled != 0 ==> key_listed(
                old_keys,
                (ts[q].account_id, ts[q].asset_id),
            ),
        forall|q1: int, q2: int|
            #![trigger ts[q1].account_id, ts[q2].account_id]
            0 <= q1 < q2 < ts.len() ==> (ts[q1].account_id != ts[q2].account_id
                || ts[q1].asset_id != ts[q2].asset_id),
        forall|p: int, q: int|
            #![trigger old_rows[p], old_rows[q]]
            0 <= p < q < old_rows.len() ==> row_le(old_rows[p], old_rows[q]),
        forall|q: int| 0 <= q < pos ==> row_le(#[trigger] old_rows[q], row),
        pos < old_rows.len() ==> row_le(row, old_rows[pos]),
    ensures
        keys.len() == rows.len(),
        forall|p: int|
            0 <= p < rows.len() ==> row_matches(l, #[trigger] rows[p], keys[p].0, keys[p].1),
        forall|p: int| 0 <= p < keys.len() ==> pair_tracked(ts, k + 1, #[trigger] keys[p]),
        forall|p1: int, p2: int|
            #![trigger keys[p1], keys[p2]]
            0 <= p1 < p2 < keys.len() ==> keys[p1] != keys[p2],
        forall|q: int|
            0 <= q < k + 1 && (#[trigger] ts[q]).scaled != 0 ==> key_listed(
                keys,
                (ts[q].account_id, ts[q].asset_id),
            ),
        forall|p: int, q: int|
            #![trigger rows[p], rows[q]]
            0 <= p < q < rows.len() ==> row_le(rows[p], rows[q]),
{
    old_rows.insert_ensures(pos, row);
    old_keys.insert_ensures(pos, newkey);
    assert forall|p: int| 0 <= p < rows.len() implies row_matches(
        l,
        #[trigger] rows[p],
        keys[p].0,
        keys[p].1,
    ) by {
        if p < pos {
            assert(rows[p] == old_rows[p] && keys[p] == old_keys[p]);
        } else if p > pos {
            assert(rows[p] == old_rows[p - 1] && keys[p] == old_keys[p - 1]);
        }
    }
    assert forall|p: int| 0 <= p < keys.len() implies pair_tracked(
        ts,
        k + 1,
        #[trigger] keys[p],
    ) by {
        if p < pos {
            assert(keys[p] == old_keys[p]);
            assert(pair_tracked(ts, k, old_keys[p]));
        } else if p > pos {
            assert(keys[p] == old_keys[p - 1]);
            assert(pair_tracked(ts, k, old_keys[p - 1]));
        } else {
            assert(ts[k].account_id == keys[p].0 && ts[k].asset_id == keys[p].1);
        }
    }
    // the new pair was not yet tracked, so it differs from every old key
    assert forall|p: int| 0 <= p < old_keys.len() implies old_keys[p] != newkey by {
        assert(pair_tracked(ts, k, old_keys[p]));
        let q = choose|q: int|
            0 <= q < k && q < ts.len() && (#[trigger] ts[q]).account_id == old_keys[p].0 && ts[
            q].asset_id == old_keys[p].1;
        assert(ts[q].account_id != ts[k].account_id || ts[q].asset_id != ts[k].asset_id);
    }
    assert forall|p1: int, p2: int|
        #![trigger keys[p1], keys[p2]]
        0 <= p1 < p2 < keys.len() implies keys[p1] != keys[p2] by {
        if p1 == pos {
            assert(keys[p2] == old_keys[p2 - 1]);
        } else if p2 == pos {
            assert(keys[p1] == old_keys[p1]);
        } else {
            let o1 = if p1 < pos {
                p1
            } else {
                p1 - 1
            };
            let o2 = if p2 < pos {
                p2
            } else {
                p2 - 1
            };
            assert(keys[p1] == old_keys[o1] && keys[p2] == old_keys[o2]);
            assert(o1 < o2);
        }
    }
    assert forall|q: int|
        0 <= q < k + 1 && (#[trigger] ts[q]).scaled != 0 implies key_listed(
        keys,
        (ts[q].account_id, ts[q].asset_id),
    ) by {
        if q == k {
            assert(keys[pos] == (ts[q].account_id, ts[q].asset_id));
        } else {
            assert(key_listed(old_keys, (ts[q].account_id, ts[q].asset_id)));
            let p0 = choose|p: int|
                0 <= p < old_keys.len() && #[trigger] old_keys[p] == (ts[q].account_id, (
                ts[q].asset_id));
            if p0 < pos {
                assert(keys[p0] == (ts[q].account_id, ts[q].asset_id));
            } else {
                assert(keys[p0 + 1] == (ts[q].account_id, ts[q].asset_id));
            }
        }
    }
    assert forall|p: int, q: int|
        #![trigger rows[p], rows[q]]
        0 <= p < q < rows.len() implies row_le(rows[p], rows[q]) by {
        if p < pos && q == pos {
            assert(rows[p] == old_rows[p]);
        } else if p == pos && q > pos {
            assert(rows[q] == old_rows[q - 1]);
            if q - 1 > pos {
                assert(row_le(old_rows[pos], old_rows[q - 1]));
                lemma_row_le_trans(row, old_rows[pos], old_rows[q - 1]);
            } else {
                assert(rows[q] == old_rows[pos]);
            }
        } else if p < pos && q > pos {
            assert(rows[p] == old_rows[p] && rows[q] == old_rows[q - 1]);
            if q - 1 == p {
                assert(rows[q] == old_rows[p]);
                lemma_row_le_refl(old_rows[p]);
            } else {
                assert(row_le(old_rows[p], old_rows[q - 1]));
            }
        } else if p > pos && q > pos {
            assert(rows[p] == old_rows[p - 1] && rows[q] == old_rows[q - 1]);
        } else if p < pos && q < pos {
            assert(rows[p] == old_rows[p] && rows[q] == old_rows[q]);
        }
    }
}

/// Report order of two rows, executable: mirrors [`row_le`].
fn report_row_le(a: &GeneralBalanceReport, b: &GeneralBalanceReport) -> (r: bool)
    ensures
        r == row_le(*a, *b),
{
    let number_le = string_le(&a.account_number, &b.account_number);
    let number_ge = string_le(&b.account_number, &a.account_number);
    proof {
        if number_le && number_ge {
            lemma_bytes_le_antisym(
                string_key(a.account_number),
                string_key(b.account_number),
            );
        }
        if !number_le && !number_ge {
            lemma_bytes_le_total(
                string_key(a.account_number),
                string_key(b.account_number),
            );
        }
    }
    if number_le && number_ge {
        string_le(&a.asset, &b.asset)
    } else {
        number_le
    }
}

} // verus!
