use ledger::error::Error;
use ledger::ledger::Ledger;
use ledger::models::{
    AssetType, Date, EntryStatus, JournalEntryInput, JournalEntryLineInput, NormalBalance,
};
use ledger::money::Money;

fn money(s: &str) -> Money {
    Money::from_str(s).unwrap()
}

fn date(year: i32, month: u8, day: u8) -> Date {
    Date { year, month, day }
}

fn header(reference_asset_id: i64, status: EntryStatus) -> JournalEntryInput {
    JournalEntryInput {
        date: 1_700_000_000,
        description: String::from("test entry"),
        reference_number: None,
        reference_asset_id,
        status,
        created_at: 1_700_000_000,
    }
}

fn line(
    account_id: i64,
    asset_id: i64,
    entry_type: NormalBalance,
    amount: &str,
    reference_amount: &str,
    exchange_rate: Option<&str>,
    line_number: i64,
) -> JournalEntryLineInput {
    JournalEntryLineInput {
        account_id,
        asset_id,
        entry_type,
        amount: money(amount),
        reference_amount: money(reference_amount),
        exchange_rate: exchange_rate.map(money),
        line_number,
        description: None,
    }
}

/// A chart with a debit-normal account 1101 and a credit-normal account
/// 4100, and the assets USD (2 decimals) and EUR (2 decimals).
fn sample_ledger() -> Ledger {
    let mut l = Ledger::new();
    let t_asset = l
        .create_account_type(String::from("Asset"), NormalBalance::Debit, None)
        .unwrap();
    let t_income = l
        .create_account_type(String::from("Income"), NormalBalance::Credit, None)
        .unwrap();
    l.create_asset(
        String::from("USD"),
        String::from("US Dollar"),
        AssetType::Fiat,
        2,
        None,
    )
    .unwrap();
    l.create_asset(
        String::from("EUR"),
        String::from("Euro"),
        AssetType::Fiat,
        2,
        None,
    )
    .unwrap();
    l.create_account(
        String::from("1101"),
        String::from("Main Checking Account"),
        t_asset,
        None,
        true,
        date(2025, 1, 1),
        None,
        None,
    )
    .unwrap();
    l.create_account(
        String::from("4100"),
        String::from("Salary"),
        t_income,
        None,
        true,
        date(2025, 1, 1),
        None,
        None,
    )
    .unwrap();
    l
}

const USD: i64 = 1;
const EUR: i64 = 2;
const CHECKING: i64 = 1;
const SALARY: i64 = 2;

#[test]
fn submit_balanced_entry_is_accepted() {
    let mut l = sample_ledger();
    let r = l.submit_journal_entry(
        header(USD, EntryStatus::Posted),
        vec![
            line(CHECKING, USD, NormalBalance::Debit, "100.00", "100.00", None, 1),
            line(SALARY, USD, NormalBalance::Credit, "100.00", "100.00", None, 2),
        ],
    );
    assert_eq!(r, Ok(1));
    assert_eq!(l.entries.len(), 1);
    assert_eq!(l.lines.len(), 2);
    assert_eq!(l.get_entry_lines(1).len(), 2);
}

#[test]
fn submit_unbalanced_entry_is_rejected() {
    let mut l = sample_ledger();
    let r = l.submit_journal_entry(
        header(USD, EntryStatus::Posted),
        vec![
            line(CHECKING, USD, NormalBalance::Debit, "100.00", "100.00", None, 1),
            line(SALARY, USD, NormalBalance::Credit, "30.00", "30.00", None, 2),
        ],
    );
    assert_eq!(r, Err(Error::Unbalanced(money("70.00"))));
}

#[test]
fn rejected_submission_changes_nothing() {
    let mut l = sample_ledger();
    l.submit_journal_entry(
        header(USD, EntryStatus::Posted),
        vec![
            line(CHECKING, USD, NormalBalance::Debit, "5.00", "5.00", None, 1),
            line(SALARY, USD, NormalBalance::Credit, "5.00", "5.00", None, 2),
        ],
    )
    .unwrap();
    let entries_before = l.entries.len();
    let lines_before = l.lines.len();
    let r = l.submit_journal_entry(
        header(USD, EntryStatus::Posted),
        vec![
            line(CHECKING, USD, NormalBalance::Debit, "9.00", "9.00", None, 1),
            line(SALARY, USD, NormalBalance::Credit, "8.00", "8.00", None, 2),
        ],
    );
    assert!(r.is_err());
    assert_eq!(l.entries.len(), entries_before);
    assert_eq!(l.lines.len(), lines_before);
}

#[test]
fn aggregation_two_posted_entries() {
    let mut l = sample_ledger();
    // entry A: debit 1101 100.00 USD / credit 4100 100.00 USD
    l.submit_journal_entry(
        header(USD, EntryStatus::Posted),
        vec![
            line(CHECKING, USD, NormalBalance::Debit, "100.00", "100.00", None, 1),
            line(SALARY, USD, NormalBalance::Credit, "100.00", "100.00", None, 2),
        ],
    )
    .unwrap();
    // entry B: debit 4100 30.00 USD / credit 1101 30.00 USD
    l.submit_journal_entry(
        header(USD, EntryStatus::Posted),
        vec![
            line(SALARY, USD, NormalBalance::Debit, "30.00", "30.00", None, 1),
            line(CHECKING, USD, NormalBalance::Credit, "30.00", "30.00", None, 2),
        ],
    )
    .unwrap();
    let report = l.get_general_balance();
    assert_eq!(report.len(), 2);
    assert_eq!(report[0].account_number, "1101");
    assert_eq!(report[0].account_name, "Main Checking Account");
    assert_eq!(report[0].asset, "USD");
    assert_eq!(report[0].balance, money("70.00"));
    assert_eq!(report[1].account_number, "4100");
    assert_eq!(report[1].account_name, "Salary");
    assert_eq!(report[1].asset, "USD");
    assert_eq!(report[1].balance, money("70.00"));
}

#[test]
fn void_entry_excluded_but_queryable() {
    let mut l = sample_ledger();
    l.submit_journal_entry(
        header(USD, EntryStatus::Posted),
        vec![
            line(CHECKING, USD, NormalBalance::Debit, "100.00", "100.00", None, 1),
            line(SALARY, USD, NormalBalance::Credit, "100.00", "100.00", None, 2),
        ],
    )
    .unwrap();
    let second = l
        .submit_journal_entry(
            header(USD, EntryStatus::Posted),
            vec![
                line(SALARY, USD, NormalBalance::Debit, "30.00", "30.00", None, 1),
                line(CHECKING, USD, NormalBalance::Credit, "30.00", "30.00", None, 2),
            ],
        )
        .unwrap();
    l.set_entry_status(second, EntryStatus::Void).unwrap();
    let report = l.get_general_balance();
    assert_eq!(report.len(), 2);
    assert_eq!(report[0].balance, money("100.00"));
    assert_eq!(report[1].balance, money("100.00"));
    // the void entry stays readable, lines and all
    let e = l.get_entry(second).unwrap();
    assert_eq!(e.status, EntryStatus::Void);
    assert_eq!(l.get_entry_lines(second).len(), 2);
}

#[test]
fn draft_entries_are_not_aggregated() {
    let mut l = sample_ledger();
    l.submit_journal_entry(
        header(USD, EntryStatus::Draft),
        vec![
            line(CHECKING, USD, NormalBalance::Debit, "100.00", "100.00", None, 1),
            line(SALARY, USD, NormalBalance::Credit, "100.00", "100.00", None, 2),
        ],
    )
    .unwrap();
    assert_eq!(l.get_general_balance().len(), 0);
}

#[test]
fn cross_asset_missing_rate_rejected() {
    let mut l = sample_ledger();
    let r = l.submit_journal_entry(
        header(USD, EntryStatus::Posted),
        vec![
            line(CHECKING, EUR, NormalBalance::Debit, "100.00", "125.00", None, 1),
            line(SALARY, USD, NormalBalance::Credit, "125.00", "125.00", None, 2),
        ],
    );
    assert_eq!(r, Err(Error::InvalidData));
}

#[test]
fn cross_asset_with_rate_must_match_conversion() {
    let mut l = sample_ledger();
    // 100.00 EUR at 1.25 is exactly 125.00 USD
    let ok = l.submit_journal_entry(
        header(USD, EntryStatus::Posted),
        vec![
            line(
                CHECKING,
                EUR,
                NormalBalance::Debit,
                "100.00",
                "125.00",
                Some("1.25"),
                1,
            ),
            line(SALARY, USD, NormalBalance::Credit, "125.00", "125.00", None, 2),
        ],
    );
    assert_eq!(ok, Ok(1));
    // a mismatched reference amount is rejected
    let bad = l.submit_journal_entry(
        header(USD, EntryStatus::Posted),
        vec![
            line(
                CHECKING,
                EUR,
                NormalBalance::Debit,
                "100.00",
                "124.99",
                Some("1.25"),
                1,
            ),
            line(SALARY, USD, NormalBalance::Credit, "124.99", "124.99", None, 2),
        ],
    );
    assert_eq!(bad, Err(Error::InvalidData));
}

#[test]
fn cross_asset_conversion_rounds_half_to_even() {
    let mut l = sample_ledger();
    // 1.00 EUR at 0.005: 0.005 USD rounds to 0.00 (ties to even)
    let down = l.submit_journal_entry(
        header(USD, EntryStatus::Posted),
        vec![
            line(CHECKING, EUR, NormalBalance::Debit, "1.00", "0.00", Some("0.005"), 1),
            line(SALARY, EUR, NormalBalance::Credit, "1.00", "0.00", Some("0.005"), 2),
        ],
    );
    assert_eq!(down, Ok(1));
    // 3.00 EUR at 0.005: 0.015 USD rounds to 0.02
    let up = l.submit_journal_entry(
        header(USD, EntryStatus::Posted),
        vec![
            line(CHECKING, EUR, NormalBalance::Debit, "3.00", "0.02", Some("0.005"), 1),
            line(SALARY, EUR, NormalBalance::Credit, "3.00", "0.02", Some("0.005"), 2),
        ],
    );
    assert_eq!(up, Ok(2));
}

#[test]
fn same_asset_line_must_not_carry_a_rate() {
    let mut l = sample_ledger();
    let r = l.submit_journal_entry(
        header(USD, EntryStatus::Posted),
        vec![
            line(
                CHECKING,
                USD,
                NormalBalance::Debit,
                "10.00",
                "10.00",
                Some("1.00"),
                1,
            ),
            line(SALARY, USD, NormalBalance::Credit, "10.00", "10.00", None, 2),
        ],
    );
    assert_eq!(r, Err(Error::InvalidData));
}

#[test]
fn line_numbers_must_be_exactly_one_to_n() {
    let mut l = sample_ledger();
    let dup = l.submit_journal_entry(
        header(USD, EntryStatus::Posted),
        vec![
            line(CHECKING, USD, NormalBalance::Debit, "1.00", "1.00", None, 1),
            line(SALARY, USD, NormalBalance::Credit, "1.00", "1.00", None, 1),
        ],
    );
    assert_eq!(dup, Err(Error::InvalidData));
    let gap = l.submit_journal_entry(
        header(USD, EntryStatus::Posted),
        vec![
            line(CHECKING, USD, NormalBalance::Debit, "1.00", "1.00", None, 1),
            line(SALARY, USD, NormalBalance::Credit, "1.00", "1.00", None, 3),
        ],
    );
    assert_eq!(gap, Err(Error::InvalidData));
    // any permutation of 1..=n is fine
    let permuted = l.submit_journal_entry(
        header(USD, EntryStatus::Posted),
        vec![
            line(CHECKING, USD, NormalBalance::Debit, "1.00", "1.00", None, 2),
            line(SALARY, USD, NormalBalance::Credit, "1.00", "1.00", None, 1),
        ],
    );
    assert_eq!(permuted, Ok(1));
}

#[test]
fn too_few_lines_rejected() {
    let mut l = sample_ledger();
    let r = l.submit_journal_entry(
        header(USD, EntryStatus::Posted),
        vec![line(CHECKING, USD, NormalBalance::Debit, "1.00", "1.00", None, 1)],
    );
    assert_eq!(r, Err(Error::InvalidData));
}

#[test]
fn non_positive_amounts_rejected() {
    let mut l = sample_ledger();
    for amount in ["0.00", "-1.00"] {
        let r = l.submit_journal_entry(
            header(USD, EntryStatus::Posted),
            vec![
                line(CHECKING, USD, NormalBalance::Debit, amount, amount, None, 1),
                line(SALARY, USD, NormalBalance::Credit, amount, amount, None, 2),
            ],
        );
        assert_eq!(r, Err(Error::InvalidData), "amount {}", amount);
    }
}

#[test]
fn dangling_references_rejected() {
    let mut l = sample_ledger();
    let bad_account = l.submit_journal_entry(
        header(USD, EntryStatus::Posted),
        vec![
            line(99, USD, NormalBalance::Debit, "1.00", "1.00", None, 1),
            line(SALARY, USD, NormalBalance::Credit, "1.00", "1.00", None, 2),
        ],
    );
    assert_eq!(bad_account, Err(Error::NotFound));
    let bad_asset = l.submit_journal_entry(
        header(USD, EntryStatus::Posted),
        vec![
            line(CHECKING, 99, NormalBalance::Debit, "1.00", "1.00", None, 1),
            line(SALARY, USD, NormalBalance::Credit, "1.00", "1.00", None, 2),
        ],
    );
    assert_eq!(bad_asset, Err(Error::NotFound));
    let bad_reference = l.submit_journal_entry(
        header(99, EntryStatus::Posted),
        vec![
            line(CHECKING, USD, NormalBalance::Debit, "1.00", "1.00", None, 1),
            line(SALARY, USD, NormalBalance::Credit, "1.00", "1.00", None, 2),
        ],
    );
    assert_eq!(bad_reference, Err(Error::NotFound));
}

#[test]
fn entries_are_never_born_void() {
    let mut l = sample_ledger();
    let r = l.submit_journal_entry(
        header(USD, EntryStatus::Void),
        vec![
            line(CHECKING, USD, NormalBalance::Debit, "1.00", "1.00", None, 1),
            line(SALARY, USD, NormalBalance::Credit, "1.00", "1.00", None, 2),
        ],
    );
    assert_eq!(r, Err(Error::InvalidData));
}

#[test]
fn amounts_beyond_encoding_precision_rejected() {
    let mut l = sample_ledger();
    // nine fractional digits cannot be persisted losslessly
    let r = l.submit_journal_entry(
        header(USD, EntryStatus::Posted),
        vec![
            line(
                CHECKING,
                USD,
                NormalBalance::Debit,
                "0.000000001",
                "0.000000001",
                None,
                1,
            ),
            line(
                SALARY,
                USD,
                NormalBalance::Credit,
                "0.000000001",
                "0.000000001",
                None,
                2,
            ),
        ],
    );
    assert_eq!(r, Err(Error::RangeOverflow));
    // as do amounts past the 64-bit scaled range
    let wide = l.submit_journal_entry(
        header(USD, EntryStatus::Posted),
        vec![
            line(
                CHECKING,
                USD,
                NormalBalance::Debit,
                "100000000000",
                "100000000000",
                None,
                1,
            ),
            line(
                SALARY,
                USD,
                NormalBalance::Credit,
                "100000000000",
                "100000000000",
                None,
                2,
            ),
        ],
    );
    assert_eq!(wide, Err(Error::RangeOverflow));
}

#[test]
fn entry_status_moves_forward_only() {
    let mut l = sample_ledger();
    let id = l
        .submit_journal_entry(
            header(USD, EntryStatus::Draft),
            vec![
                line(CHECKING, USD, NormalBalance::Debit, "1.00", "1.00", None, 1),
                line(SALARY, USD, NormalBalance::Credit, "1.00", "1.00", None, 2),
            ],
        )
        .unwrap();
    assert_eq!(l.set_entry_status(id, EntryStatus::Posted), Ok(()));
    assert_eq!(l.get_entry(id).unwrap().status, EntryStatus::Posted);
    assert_eq!(
        l.set_entry_status(id, EntryStatus::Draft),
        Err(Error::InvalidData)
    );
    assert_eq!(l.set_entry_status(id, EntryStatus::Void), Ok(()));
    assert_eq!(
        l.set_entry_status(id, EntryStatus::Posted),
        Err(Error::InvalidData)
    );
    assert_eq!(
        l.set_entry_status(99, EntryStatus::Void),
        Err(Error::NotFound)
    );
}

#[test]
fn create_account_validations() {
    let mut l = sample_ledger();
    let dup = l.create_account(
        String::from("1101"),
        String::from("Duplicate"),
        1,
        None,
        true,
        date(2025, 1, 1),
        None,
        None,
    );
    assert_eq!(dup, Err(Error::StorageFailure));
    let bad_type = l.create_account(
        String::from("1102"),
        String::from("Savings"),
        99,
        None,
        true,
        date(2025, 1, 1),
        None,
        None,
    );
    assert_eq!(bad_type, Err(Error::NotFound));
    let bad_dates = l.create_account(
        String::from("1102"),
        String::from("Savings"),
        1,
        None,
        true,
        date(2025, 6, 1),
        Some(date(2025, 1, 1)),
        None,
    );
    assert_eq!(bad_dates, Err(Error::InvalidData));
    let ok = l.create_account(
        String::from("1102"),
        String::from("Savings"),
        1,
        Some(1),
        true,
        date(2025, 1, 1),
        Some(date(2026, 1, 1)),
        None,
    );
    assert_eq!(ok, Ok(3));
}

#[test]
fn create_asset_validations() {
    let mut l = sample_ledger();
    let dup = l.create_asset(
        String::from("USD"),
        String::from("Duplicate Dollar"),
        AssetType::Fiat,
        2,
        None,
    );
    assert_eq!(dup, Err(Error::StorageFailure));
    let too_fine = l.create_asset(
        String::from("XXX"),
        String::from("Too Fine"),
        AssetType::Crypto,
        29,
        None,
    );
    assert_eq!(too_fine, Err(Error::InvalidData));
    let ok = l.create_asset(
        String::from("ETH"),
        String::from("Ethereum"),
        AssetType::Crypto,
        18,
        None,
    );
    assert_eq!(ok, Ok(3));
}

#[test]
fn insert_transaction_creates_balanced_entry() {
    let mut l = sample_ledger();
    // value flows from the salary account into checking
    let id = l
        .insert_transaction(
            1_700_000_000,
            String::from("Salary"),
            String::from("SALARY-01"),
            EntryStatus::Posted,
            SALARY,
            CHECKING,
            USD,
            USD,
            money("3000.00"),
        )
        .unwrap();
    assert_eq!(id, 1);
    let lines = l.get_entry_lines(id);
    assert_eq!(lines.len(), 2);
    assert_eq!(lines[0].entry_type, NormalBalance::Debit);
    assert_eq!(lines[0].account_id, CHECKING);
    assert_eq!(lines[1].entry_type, NormalBalance::Credit);
    assert_eq!(lines[1].account_id, SALARY);
    let report = l.get_general_balance();
    assert_eq!(report.len(), 2);
    assert_eq!(report[0].account_number, "1101");
    assert_eq!(report[0].balance, money("3000.00"));
    assert_eq!(report[1].account_number, "4100");
    assert_eq!(report[1].balance, money("3000.00"));
}

#[test]
fn report_is_sorted_and_omits_zero_balances() {
    let mut l = sample_ledger();
    // a third account whose number sorts between the two others
    l.create_account(
        String::from("2200"),
        String::from("Loans"),
        2,
        None,
        true,
        date(2025, 1, 1),
        None,
        None,
    )
    .unwrap();
    l.submit_journal_entry(
        header(USD, EntryStatus::Posted),
        vec![
            line(CHECKING, USD, NormalBalance::Debit, "10.00", "10.00", None, 1),
            line(3, USD, NormalBalance::Credit, "10.00", "10.00", None, 2),
        ],
    )
    .unwrap();
    l.submit_journal_entry(
        header(USD, EntryStatus::Posted),
        vec![
            line(SALARY, USD, NormalBalance::Debit, "4.00", "4.00", None, 1),
            line(SALARY, USD, NormalBalance::Credit, "4.00", "4.00", None, 2),
        ],
    )
    .unwrap();
    let report = l.get_general_balance();
    // the salary account nets to zero and is omitted; the rest ascend
    assert_eq!(report.len(), 2);
    assert_eq!(report[0].account_number, "1101");
    assert_eq!(report[0].balance, money("10.00"));
    assert_eq!(report[1].account_number, "2200");
    assert_eq!(report[1].balance, money("10.00"));
}

#[test]
fn multi_asset_balances_split_per_asset() {
    let mut l = sample_ledger();
    l.submit_journal_entry(
        header(USD, EntryStatus::Posted),
        vec![
            line(
                CHECKING,
                EUR,
                NormalBalance::Debit,
                "10.00",
                "12.50",
                Some("1.25"),
                1,
            ),
            line(SALARY, USD, NormalBalance::Credit, "12.50", "12.50", None, 2),
        ],
    )
    .unwrap();
    let report = l.get_general_balance();
    assert_eq!(report.len(), 2);
    // checking holds the euro line, salary the dollar line
    assert_eq!(report[0].account_number, "1101");
    assert_eq!(report[0].asset, "EUR");
    assert_eq!(report[0].balance, money("12.50"));
    assert_eq!(report[1].account_number, "4100");
    assert_eq!(report[1].asset, "USD");
    assert_eq!(report[1].balance, money("12.50"));
}

#[test]
fn test_create_account_type() {
    let mut l = Ledger::new();

    let account_type_id = l
        .create_account_type(String::from("Assets"), NormalBalance::Debit, None)
        .unwrap();
    assert!(account_type_id > 0);
}

#[test]
fn test_create_asset() {
    let mut l = Ledger::new();

    let asset_type_id = l
        .create_account_type(String::from("Assets"), NormalBalance::Debit, None)
        .unwrap();
    let asset_id = l
        .create_asset(
            String::from("USD"),
            String::from("US Dollar"),
            AssetType::Fiat,
            2,
            None,
        )
        .unwrap();

    assert!(asset_type_id > 0);
    assert!(asset_id > 0);
}

#[test]
fn test_create_account() {
    let mut l = Ledger::new();

    // First create an account type
    let account_type_id = l
        .create_account_type(String::from("Assets"), NormalBalance::Debit, None)
        .unwrap();
    let opening_date = date(2024, 3, 14);

    let id = l
        .create_account(
            String::from("1100"),
            String::from("Cash and Bank"),
            account_type_id,
            None,
            true,
            opening_date,
            None,
            None,
        )
        .unwrap();
    assert!(id > 0);
}

#[test]
fn tests_test_create_account_type() {
    let mut l = Ledger::new();

    let id = l
        .create_account_type(
            String::from("Test Account Type"),
            NormalBalance::Debit,
            Some(String::from("Test Description")),
        )
        .unwrap();
    assert!(id > 0);
}

#[test]
fn tests_test_create_asset() {
    let mut l = Ledger::new();

    let id = l
        .create_asset(
            String::from("TEST"),
            String::from("Test Asset"),
            AssetType::Fiat,
            2,
            Some(String::from("Test Description")),
        )
        .unwrap();
    assert!(id > 0);
}

#[test]
fn tests_test_create_account() {
    let mut l = Ledger::new();

    // First create an account type
    let account_type_id = l
        .create_account_type(
            String::from("Test Account Type"),
            NormalBalance::Debit,
            Some(String::from("Test Description")),
        )
        .unwrap();

    let opening_date = date(2023, 1, 1);

    let id = l
        .create_account(
            String::from("1000"),
            String::from("Test Account"),
            account_type_id,
            None,
            true,
            opening_date,
            None,
            Some(String::from("Test Description")),
        )
        .unwrap();
    assert!(id > 0);
}
