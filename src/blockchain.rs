//! Ledger records as the network returns them, the entities assembled from
//! them, and the parsing of a transaction's logical time.
use vstd::prelude::*;

verus! {

/// A decoded payload: which interface description matched, and the
/// structured value (as JSON text) that it produced.
#[derive(Debug, Clone, PartialEq, Eq)]
pub struct DecodedData {
    pub abi_path: String,
    pub data: String,
}

/// The decoded view of a message body.
pub type MessageDecodedData = DecodedData;

/// The decoded view of an account's data section.
pub type AccountDecodedData = DecodedData;

/// A message, optionally with the transaction it produced at its destination.
#[derive(Debug, PartialEq, Eq)]
pub struct Message {
    pub id: String,
    pub src: String,
    pub dst: String,
    pub boc: String,
    pub decoded: Option<MessageDecodedData>,
    pub transaction: Option<Transaction>,
}

/// A transaction and, in emission order, the messages that it emitted.
#[derive(Debug, PartialEq, Eq)]
pub struct Transaction {
    pub id: String,
    pub aborted: bool,
    pub lt: Option<i64>,
    pub exit_code: Option<i64>,
    pub vm_steps: Option<i64>,
    pub messages: Vec<Message>,
}

/// An account with its raw state and sections.
#[derive(Debug, Clone, PartialEq, Eq)]
pub struct Account {
    pub id: String,
    pub boc: String,
    pub code: String,
    pub data: String,
    pub decoded: Option<AccountDecodedData>,
}

/// A message record with its resulting transaction, as queried.
#[derive(Debug, Clone, PartialEq, Eq)]
pub struct GraphQLMessage {
    pub id: String,
    pub src: String,
    pub dst: String,
    pub boc: String,
    pub dst_transaction: GraphQLTransaction,
}

/// A transaction record; `lt` is hexadecimal text, `out_msgs` the ids of the
/// emitted messages in emission order.
#[derive(Debug, Clone, PartialEq, Eq)]
pub struct GraphQLTransaction {
    pub id: String,
    pub aborted: bool,
    pub out_msgs: Vec<String>,
    pub lt: String,
    pub compute: GraphQLTransactionCompute,
}

/// The compute phase of a transaction record.
#[derive(Debug, Clone, PartialEq, Eq)]
pub struct GraphQLTransactionCompute {
    pub exit_code: Option<i64>,
    pub vm_steps: Option<i64>,
}

/// An account record; `boc` is absent for an account without state.
#[derive(Debug, Clone, PartialEq, Eq)]
pub struct GraphQLAccount {
    pub id: String,
    pub boc: Option<String>,
    pub code: String,
    pub data: String,
}

/// Why a lookup on the ledger gave no record to work on.
#[derive(Debug, Clone, PartialEq, Eq)]
pub enum LedgerError {
    /// The query could not be executed.
    Transport(String),
    /// The query matched no record.
    NotFound,
    /// The account exists but holds no state.
    EmptyState,
    /// A record was returned but did not have the expected shape.
    Deserialization(String),
}

/// The record that a point lookup returned: the first of the query's results,
/// or `NotFound` when there is none.
pub fn first_record<T>(records: Vec<T>) -> (r: Result<T, LedgerError>)
    ensures
        records@.len() == 0 ==> r matches Err(LedgerError::NotFound),
        records@.len() > 0 ==> r == Ok::<T, LedgerError>(records@[0]),
{
    let mut records = records;
    if records.len() == 0 {
        Err(LedgerError::NotFound)
    } else {
        Ok(records.swap_remove(0))
    }
}

/// An account lookup: `NotFound` when the query matched nothing,
/// `EmptyState` when the account it matched has no state, else the record.
pub fn account_from_query(records: Vec<GraphQLAccount>) -> (r: Result<GraphQLAccount, LedgerError>)
    ensures
        records@.len() == 0 ==> r matches Err(LedgerError::NotFound),
        records@.len() > 0 && records@[0].boc is None ==> r matches Err(LedgerError::EmptyState),
        records@.len() > 0 && records@[0].boc is Some ==> r == Ok::<GraphQLAccount, LedgerError>(records@[0]),
{
    let account = first_record(records)?;
    if account.boc.is_none() {
        return Err(LedgerError::EmptyState);
    }
    Ok(account)
}

/// A message lookup: `NotFound` when the query matched nothing, else the record.
pub fn message_from_query(records: Vec<GraphQLMessage>) -> (r: Result<GraphQLMessage, LedgerError>)
    ensures
        records@.len() == 0 ==> r matches Err(LedgerError::NotFound),
        records@.len() > 0 ==> r == Ok::<GraphQLMessage, LedgerError>(records@[0]),
{
    first_record(records)
}

/// `s` with its leading radix marker `0x`, if any, removed.
pub open spec fn strip_radix(s: Seq<char>) -> Seq<char> {
    if s.len() >= 2 && s[0] == '0' && s[1] == 'x' {
        s.skip(2)
    } else {
        s
    }
}

pub open spec fn is_hex_digit(c: char) -> bool {
    ('0' <= c && c <= '9') || ('a' <= c && c <= 'f') || ('A' <= c && c <= 'F')
}

pub open spec fn hex_digit_value(c: char) -> int {
    if '0' <= c && c <= '9' {
        c as int - '0' as int
    } else if 'a' <= c && c <= 'f' {
        c as int - 'a' as int + 10
    } else {
        c as int - 'A' as int + 10
    }
}

pub open spec fn all_hex(s: Seq<char>) -> bool {
    forall|i: int| 0 <= i < s.len() ==> is_hex_digit(#[trigger] s[i])
}

/// The number that the hexadecimal digits `s` denote.
pub open spec fn hex_value(s: Seq<char>) -> int
    decreases s.len(),
{
    if s.len() == 0 {
        0
    } else {
        hex_value(s.drop_last()) * 16 + hex_digit_value(s.last())
    }
}

/// Digits with an optional sign, read in base 16 as a 64-bit signed integer:
/// absent when empty, when a character is not a digit, or out of range.
pub open spec fn parse_hex_i64(s: Seq<char>) -> Option<i64> {
    let negative = s.len() > 0 && s[0] == '-';
    let digits = if s.len() > 0 && (s[0] == '-' || s[0] == '+') {
        s.skip(1)
    } else {
        s
    };
    let v = if negative {
        -hex_value(digits)
    } else {
        hex_value(digits)
    };
    if digits.len() > 0 && all_hex(digits) && i64::MIN <= v <= i64::MAX {
        Some(v as i64)
    } else {
        None
    }
}

/// The logical time that the text `s` gives: its leading `0x` marker
/// removed, the rest read in base 16.
pub open spec fn lt_value(s: Seq<char>) -> Option<i64> {
    parse_hex_i64(strip_radix(s))
}

/// Digits after a prefix whose value exceeds `m` keep the value above `m`.
proof fn lemma_hex_value_grows(s: Seq<char>, k: int, m: int)
    requires
        0 <= k <= s.len(),
        all_hex(s),
        m >= 0,
        hex_value(s.take(k)) > m,
    ensures
        hex_value(s) > m,
    decreases s.len() - k,
{
    if k < s.len() {
        let t = s.take(k + 1);
        assert(t.drop_last() =~= s.take(k));
        assert(is_hex_digit(s[k]));
        lemma_hex_value_grows(s, k + 1, m);
    } else {
        assert(s.take(k) =~= s);
    }
}

fn hex_digit_of(c: char) -> (r: Option<u32>)
    ensures
        r.is_some() == is_hex_digit(c),
        r.is_some() ==> r.unwrap() as int == hex_digit_value(c) && r.unwrap() < 16,
{
    if '0' <= c && c <= '9' {
        Some(c as u32 - '0' as u32)
    } else if 'a' <= c && c <= 'f' {
        Some(c as u32 - 'a' as u32 + 10)
    } else if 'A' <= c && c <= 'F' {
        Some(c as u32 - 'A' as u32 + 10)
    } else {
        None
    }
}

/// Parses a transaction's logical time from its hexadecimal text; malformed
/// or out-of-range text gives `None`.
pub fn parse_lt(s: &str) -> (r: Option<i64>)
    ensures
        r == lt_value(s@),
{
    let n = s.unicode_len();
    let p: usize = if n >= 2 && s.get_char(0) == '0' && s.get_char(1) == 'x' { 2 } else { 0 };
    let ghost d = s@.skip(p as int);
    assert(strip_radix(s@) =~= d);
    assert(lt_value(s@) == parse_hex_i64(d));
    if p == n {
        assert(d.len() == 0);
        return None;
    }
    let first = s.get_char(p);
    assert(d[0] == first);
    let negative = first == '-';
    let mut i: usize = if first == '-' || first == '+' { p + 1 } else { p };
    let start = i;
    let ghost digits = s@.subrange(start as int, n as int);
    assert(digits =~= (if first == '-' || first == '+' { d.skip(1) } else { d }));
    if i == n {
        assert(digits.len() == 0);
        return None;
    }
    let limit: u128 = 0x8000_0000_0000_0000;
    let mut mag: u128 = 0;
    while i < n
        invariant
            start <= i <= n,
            n == s@.len(),
            digits == s@.subrange(start as int, n as int),
            lt_value(s@) == parse_hex_i64(d),
            d.len() > 0,
            digits == (if d[0] == '-' || d[0] == '+' { d.skip(1) } else { d }),
            negative == (d[0] == '-'),
            mag <= limit,
            limit == 0x8000_0000_0000_0000u128,
            all_hex(digits.take(i - start)),
            mag as int == hex_value(digits.take(i - start)),
        decreases n - i,
    {
        let c = s.get_char(i);
        let dv = hex_digit_of(c);
        let ghost prefix = digits.take(i - start);
        let ghost next = digits.take(i - start + 1);
        assert(next.drop_last() =~= prefix);
        assert(next.last() == c);
        match dv {
            None => {
                assert(!all_hex(digits)) by {
                    assert(digits[i - start] == c);
                }
                return None;
            },
            Some(v) => {
                mag = mag * 16 + v as u128;
                assert(all_hex(next)) by {
                    assert forall|j: int| 0 <= j < next.len() implies is_hex_digit(#[trigger] next[j]) by {
                        if j < next.len() - 1 {
                            assert(next[j] == prefix[j]);
                        }
                    }
                }
                if mag > limit {
                    assert(!all_hex(digits) || hex_value(digits) > limit) by {
                        if all_hex(digits) {
                            lemma_hex_value_grows(digits, i - start + 1, limit as int);
                        }
                    }
                    return None;
                }
                i = i + 1;
            },
        }
    }
    assert(digits.take(n - start) =~= digits);
    if negative {
        if mag == limit {
            Some(i64::MIN)
        } else {
            Some(-(mag as i64))
        }
    } else if mag == limit {
        None
    } else {
        Some(mag as i64)
    }
}

/// The marker that names an interface-description file.
pub open spec fn abi_marker() -> Seq<char> {
    seq!['.', 'a', 'b', 'i']
}

/// `pat` occurs in `s` as a run of consecutive characters.
pub open spec fn contains_seq(s: Seq<char>, pat: Seq<char>) -> bool {
    exists|i: int| 0 <= i <= s.len() - pat.len() && #[trigger] s.subrange(i, i + pat.len()) == pat
}

/// Whether a path names an interface-description file (`.abi`, `.abi.json`).
pub fn is_abi_path(path: &str) -> (r: bool)
    ensures
        r == contains_seq(path@, abi_marker()),
{
    let n = path.unicode_len();
    if n < 4 {
        return false;
    }
    let mut i: usize = 0;
    while i <= n - 4
        invariant
            n == path@.len(),
            n >= 4,
            i <= n - 3,
            forall|j: int| 0 <= j < i ==> #[trigger] path@.subrange(j, j + 4) != abi_marker(),
        decreases n - i,
    {
        if path.get_char(i) == '.' && path.get_char(i + 1) == 'a' && path.get_char(i + 2) == 'b'
            && path.get_char(i + 3) == 'i' {
            assert(path@.subrange(i as int, i + 4) =~= abi_marker());
            return true;
        }
        assert(path@.subrange(i as int, i + 4)[0] == path@[i as int]);
        assert(path@.subrange(i as int, i + 4)[3] == path@[i + 3]);
        i = i + 1;
    }
    assert(!contains_seq(path@, abi_marker())) by {
        if contains_seq(path@, abi_marker()) {
            let j = choose|j: int| 0 <= j <= path@.len() - 4 && #[trigger] path@.subrange(j, j + 4) == abi_marker();
            assert(path@.subrange(j, j + 4) == abi_marker());
        }
    }
    false
}

/// The paths among `entries` (a path, and whether it is a regular file)
/// that are files named as interface descriptions, in their order.
pub open spec fn abi_selection(entries: Seq<(Seq<char>, bool)>) -> Seq<Seq<char>>
    decreases entries.len(),
{
    if entries.len() == 0 {
        Seq::empty()
    } else {
        let rest = abi_selection(entries.drop_last());
        let e = entries.last();
        if e.1 && contains_seq(e.0, abi_marker()) {
            rest.push(e.0)
        } else {
            rest
        }
    }
}

pub open spec fn entries_view(entries: Seq<(String, bool)>) -> Seq<(Seq<char>, bool)> {
    entries.map_values(|e: (String, bool)| (e.0@, e.1))
}

pub open spec fn paths_view(paths: Seq<String>) -> Seq<Seq<char>> {
    paths.map_values(|p: String| p@)
}

/// Keeps, in directory-traversal order, the entries that are regular files
/// named as interface descriptions.
pub fn select_abi_files(entries: &Vec<(String, bool)>) -> (r: Vec<String>)
    ensures
        paths_view(r@) == abi_selection(entries_view(entries@)),
{
    let mut paths: Vec<String> = Vec::new();
    let mut i: usize = 0;
    while i < entries.len()
        invariant
            i <= entries@.len(),
            paths_view(paths@) == abi_selection(entries_view(entries@.take(i as int))),
        decreases entries@.len() - i,
    {
        let ghost before = paths@;
        assert(entries_view(entries@.take(i + 1)).drop_last() =~= entries_view(entries@.take(i as int)));
        let e = &entries[i];
        if e.1 && is_abi_path(e.0.as_str()) {
            paths.push(e.0.clone());
            assert(paths_view(paths@) =~= paths_view(before).push(e.0@));
        }
        i = i + 1;
    }
    assert(entries@.take(i as int) =~= entries@);
    paths
}

} // verus!
