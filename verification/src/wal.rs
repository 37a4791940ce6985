//! The text write-ahead log: one operation per line.
//!
//! A line is whitespace-trimmed and split on single spaces. The first
//! token names the operation, compared case-insensitively; the second is
//! the key; an insert takes a third token as the value. The writers
//! build the `INSERT key value` and `DELETE key` lines that the parser
//! reads back.

use vstd::prelude::*;
use vstd::string::{StrSliceExecFns, StringExecFns};

verus! {

/// A parsed operation verb.
#[derive(Clone, Copy, Debug, PartialEq, Eq, Structural)]
pub enum WalOperation {
    Insert,
    Delete,
}

/// Why a line failed to parse. `MissingOperation` is reserved: a split
/// line always has a first token, though it may be empty.
#[derive(Clone, Debug)]
pub enum ParseWalError {
    MissingOperation,
    InvalidOperation(String),
    MissingKey,
    MissingValue,
}

impl ParseWalError {
    /// Returns the message, in place of a display implementation.
    pub fn message(&self) -> (r: String)
        ensures
            r@ == "WAL operation error: Could not parse operation."@,
    {
        String::from_str("WAL operation error: Could not parse operation.")
    }
}

/// One parsed line: the verb, the key, and for an insert the value.
#[derive(Debug)]
pub struct WalOperationLog {
    pub operation: WalOperation,
    pub key: String,
    pub value: Option<String>,
}

/// ASCII whitespace, as the line parser trims it.
pub open spec fn is_wal_space(c: char) -> bool {
    c == ' ' || c == '\t' || c == '\r' || c == '\n'
}

/// The characters left after the leading whitespace.
pub open spec fn drop_leading_spaces(s: Seq<char>) -> Seq<char>
    decreases s.len(),
{
    if s.len() > 0 && is_wal_space(s[0]) {
        drop_leading_spaces(s.drop_first())
    } else {
        s
    }
}

/// The characters left after the trailing whitespace.
pub open spec fn drop_trailing_spaces(s: Seq<char>) -> Seq<char>
    decreases s.len(),
{
    if s.len() > 0 && is_wal_space(s.last()) {
        drop_trailing_spaces(s.drop_last())
    } else {
        s
    }
}

/// The line without its surrounding whitespace.
pub open spec fn trimmed(s: Seq<char>) -> Seq<char> {
    drop_trailing_spaces(drop_leading_spaces(s))
}

proof fn lemma_drop_leading(s: Seq<char>, a: int)
    requires
        0 <= a <= s.len(),
        forall|j: int| 0 <= j < a ==> is_wal_space(#[trigger] s[j]),
        a < s.len() ==> !is_wal_space(s[a]),
    ensures
        drop_leading_spaces(s) == s.skip(a),
    decreases a,
{
    if a == 0 {
        assert(s.skip(0) =~= s);
    } else {
        let s2 = s.drop_first();
        assert(forall|j: int| 0 <= j < a - 1 ==> is_wal_space(#[trigger] s2[j]));
        lemma_drop_leading(s2, a - 1);
        assert(s2.skip(a - 1) =~= s.skip(a));
    }
}

proof fn lemma_drop_trailing(s: Seq<char>, b: int)
    requires
        0 <= b <= s.len(),
        forall|j: int| b <= j < s.len() ==> is_wal_space(#[trigger] s[j]),
        b > 0 ==> !is_wal_space(s[b - 1]),
    ensures
        drop_trailing_spaces(s) == s.take(b),
    decreases s.len() - b,
{
    if b == s.len() {
        assert(s.take(b) =~= s);
    } else {
        let s2 = s.drop_last();
        assert(forall|j: int| b <= j < s2.len() ==> is_wal_space(#[trigger] s2[j]));
        lemma_drop_trailing(s2, b);
        assert(s2.take(b) =~= s.take(b));
    }
}

/// Trims the surrounding whitespace from a line.
pub fn trim_str<'a>(s: &'a str) -> (r: &'a str)
    ensures
        r@ == trimmed(s@),
{
    let n = s.unicode_len();
    let mut a: usize = 0;
    loop
        invariant_except_break
            a <= n,
            n == s@.len(),
            forall|j: int| 0 <= j < a ==> is_wal_space(#[trigger] s@[j]),
        ensures
            a <= n,
            n == s@.len(),
            forall|j: int| 0 <= j < a ==> is_wal_space(#[trigger] s@[j]),
            a < n ==> !is_wal_space(s@[a as int]),
        decreases n - a,
    {
        if a >= n {
            break ;
        }
        let c = s.get_char(a);
        if !(c == ' ' || c == '\t' || c == '\r' || c == '\n') {
            break ;
        }
        a = a + 1;
    }
    let mut b: usize = n;
    loop
        invariant_except_break
            a <= b <= n,
            n == s@.len(),
            forall|j: int| b <= j < n ==> is_wal_space(#[trigger] s@[j]),
        ensures
            a <= b <= n,
            forall|j: int| b <= j < n ==> is_wal_space(#[trigger] s@[j]),
            b > a ==> !is_wal_space(s@[b - 1]),
        decreases b,
    {
        if b <= a {
            break ;
        }
        let c = s.get_char(b - 1);
        if !(c == ' ' || c == '\t' || c == '\r' || c == '\n') {
            break ;
        }
        b = b - 1;
    }
    let t = s.substring_char(a, b);
    proof {
        lemma_drop_leading(s@, a as int);
        if b > a {
            lemma_drop_trailing(s@.skip(a as int), b - a as int);
        } else {
            lemma_drop_trailing(s@.skip(a as int), 0);
        }
        assert(s@.skip(a as int).take(b - a) =~= s@.subrange(a as int, b as int));
    }
    t
}

/// The character, ASCII-lowercased.
pub open spec fn lower_char(c: char) -> char {
    if 65 <= c as u32 && c as u32 <= 90 {
        (((c as u32) + 32) as u8) as char
    } else {
        c
    }
}

/// The token, ASCII-lowercased character by character.
pub open spec fn lowered(s: Seq<char>) -> Seq<char> {
    s.map_values(|c: char| lower_char(c))
}

/// Relies on String::push: appends one character to the string.
#[verifier::external_body]
fn push_char(out: &mut String, c: char)
    ensures
        final(out)@ == old(out)@.push(c),
{
    out.push(c);
}

/// Builds the ASCII-lowercased copy of a token.
fn to_lowercase_token(s: &str) -> (r: String)
    ensures
        r@ == lowered(s@),
{
    let n = s.unicode_len();
    let mut out = String::new();
    let mut i: usize = 0;
    while i < n
        invariant
            i <= n,
            n == s@.len(),
            out@.len() == i,
            forall|j: int| 0 <= j < i ==> out@[j] == lower_char(#[trigger] s@[j]),
        decreases n - i,
    {
        let c = s.get_char(i);
        let u = c as u32;
        let lc = if 65 <= u && u <= 90 {
            ((u + 32) as u8) as char
        } else {
            c
        };
        push_char(&mut out, lc);
        i = i + 1;
    }
    proof {
        assert(out@ =~= lowered(s@));
    }
    out
}

/// Compares two strings character by character.
fn str_chars_eq(a: &str, b: &str) -> (r: bool)
    ensures
        r == (a@ == b@),
{
    let n = a.unicode_len();
    if n != b.unicode_len() {
        return false;
    }
    let mut i: usize = 0;
    while i < n
        invariant
            i <= n,
            n == a@.len() && n == b@.len(),
            forall|j: int| 0 <= j < i ==> a@[j] == b@[j],
        decreases n - i,
    {
        if a.get_char(i) != b.get_char(i) {
            return false;
        }
        i = i + 1;
    }
    proof {
        assert(a@ =~= b@);
    }
    true
}

/// The word `insert`.
pub open spec fn insert_word() -> Seq<char> {
    seq!['i', 'n', 's', 'e', 'r', 't']
}

/// The word `delete`.
pub open spec fn delete_word() -> Seq<char> {
    seq!['d', 'e', 'l', 'e', 't', 'e']
}

impl WalOperation {
    /// Parses an operation verb: the token is trimmed, lowercased and
    /// matched against `insert` and `delete`; anything else fails,
    /// carrying the lowercased token.
    pub fn from_str(s: &str) -> (r: Result<WalOperation, ParseWalError>)
        ensures
            match r {
                Ok(op) => (op == WalOperation::Insert && lowered(trimmed(s@)) == insert_word())
                    || (op == WalOperation::Delete && lowered(trimmed(s@)) == delete_word()),
                Err(e) => {
                    &&& lowered(trimmed(s@)) != insert_word()
                    &&& lowered(trimmed(s@)) != delete_word()
                    &&& e matches ParseWalError::InvalidOperation(w) && w@ == lowered(
                        trimmed(s@),
                    )
                },
            },
    {
        let t = trim_str(s);
        let low = to_lowercase_token(t);
        proof {
            reveal_strlit("insert");
            reveal_strlit("delete");
            assert("insert"@ =~= insert_word());
            assert("delete"@ =~= delete_word());
        }
        if str_chars_eq(low.as_str(), "insert") {
            Ok(WalOperation::Insert)
        } else if str_chars_eq(low.as_str(), "delete") {
            Ok(WalOperation::Delete)
        } else {
            Err(ParseWalError::InvalidOperation(low))
        }
    }
}

/// The index of the first space, or the length when there is none.
pub open spec fn first_space_at(s: Seq<char>) -> nat
    decreases s.len(),
{
    if s.len() == 0 {
        0
    } else if s[0] == ' ' {
        0
    } else {
        1 + first_space_at(s.drop_first())
    }
}

/// The tokens of a line: the runs between single spaces. A line always
/// has at least one token; doubled spaces yield empty tokens.
pub open spec fn tokens(s: Seq<char>) -> Seq<Seq<char>>
    decreases s.len(),
{
    let i = first_space_at(s) as int;
    if i >= s.len() {
        seq![s]
    } else {
        seq![s.take(i)] + tokens(s.skip(i + 1))
    }
}

proof fn lemma_first_space_at(s: Seq<char>, i: int)
    requires
        0 <= i <= s.len(),
        forall|j: int| 0 <= j < i ==> (#[trigger] s[j]) != ' ',
        i < s.len() ==> s[i] == ' ',
    ensures
        first_space_at(s) == i,
    decreases i,
{
    if i == 0 {
    } else {
        let s2 = s.drop_first();
        assert(forall|j: int| 0 <= j < i - 1 ==> (#[trigger] s2[j]) != ' ');
        lemma_first_space_at(s2, i - 1);
    }
}

proof fn lemma_tokens_nonempty(s: Seq<char>)
    ensures
        tokens(s).len() >= 1,
{
}

/// Splits off the first token: the run before the first space, and the
/// rest of the line after that space when there is one.
fn split_token<'a>(s: &'a str) -> (r: (&'a str, Option<&'a str>))
    ensures
        first_space_at(s@) >= s@.len() ==> r.0@ == s@ && r.1 is None,
        first_space_at(s@) < s@.len() ==> {
            &&& r.0@ == s@.take(first_space_at(s@) as int)
            &&& r.1 matches Some(rest) && rest@ == s@.skip(first_space_at(s@) as int + 1)
        },
{
    let n = s.unicode_len();
    let mut i: usize = 0;
    loop
        invariant_except_break
            i <= n,
            n == s@.len(),
            forall|j: int| 0 <= j < i ==> (#[trigger] s@[j]) != ' ',
        ensures
            i <= n,
            n == s@.len(),
            forall|j: int| 0 <= j < i ==> (#[trigger] s@[j]) != ' ',
            i < n ==> s@[i as int] == ' ',
        decreases n - i,
    {
        if i >= n {
            break ;
        }
        if s.get_char(i) == ' ' {
            break ;
        }
        i = i + 1;
    }
    proof {
        lemma_first_space_at(s@, i as int);
    }
    if i >= n {
        (s, None)
    } else {
        let w = s.substring_char(0, i);
        let rest = s.substring_char(i + 1, n);
        proof {
            assert(w@ =~= s@.take(i as int));
            assert(rest@ =~= s@.skip(i as int + 1));
        }
        (w, Some(rest))
    }
}

impl WalOperationLog {
    /// Parses a line: the verb, the key, and for an insert the value.
    /// Tokens past the third are ignored; a delete may carry a value.
    pub fn from_str(s: &str) -> (r: Result<WalOperationLog, ParseWalError>)
        ensures
            ({
                let words = tokens(trimmed(s@));
                match r {
                    Ok(log) => {
                        &&& (log.operation == WalOperation::Insert ==> lowered(trimmed(words[0]))
                            == insert_word())
                        &&& (log.operation == WalOperation::Delete ==> lowered(trimmed(words[0]))
                            == delete_word())
                        &&& words.len() >= 2
                        &&& log.key@ == words[1]
                        &&& match log.value {
                            Some(v) => words.len() >= 3 && v@ == words[2],
                            None => log.operation == WalOperation::Delete && words.len() == 2,
                        }
                    },
                    Err(e) => match e {
                        ParseWalError::MissingOperation => false,
                        ParseWalError::InvalidOperation(w) => {
                            &&& lowered(trimmed(words[0])) != insert_word()
                            &&& lowered(trimmed(words[0])) != delete_word()
                            &&& w@ == lowered(trimmed(words[0]))
                        },
                        ParseWalError::MissingKey => words.len() == 1 && (lowered(
                            trimmed(words[0]),
                        ) == insert_word() || lowered(trimmed(words[0])) == delete_word()),
                        ParseWalError::MissingValue => words.len() == 2 && lowered(
                            trimmed(words[0]),
                        ) == insert_word(),
                    },
                }
            }),
    {
        let t = trim_str(s);
        let ghost words = tokens(trimmed(s@));
        let (w0, rest1) = split_token(t);
        proof {
            if first_space_at(t@) >= t@.len() {
                assert(words =~= seq![t@]);
            } else {
                assert(words =~= seq![w0@] + tokens(t@.skip(first_space_at(t@) as int + 1)));
            }
            assert(words[0] == w0@);
        }
        let op = match WalOperation::from_str(w0) {
            Ok(op) => op,
            Err(e) => { return Err(e) },
        };
        match rest1 {
            None => Err(ParseWalError::MissingKey),
            Some(r1) => {
                proof {
                    lemma_tokens_nonempty(r1@);
                    assert(words.len() == 1 + tokens(r1@).len());
                    assert(forall|j: int|
                        0 <= j < tokens(r1@).len() ==> words[j + 1] == #[trigger] tokens(r1@)[j]);
                }
                let (w1, rest2) = split_token(r1);
                proof {
                    if first_space_at(r1@) >= r1@.len() {
                        assert(tokens(r1@) =~= seq![r1@]);
                    } else {
                        assert(tokens(r1@) =~= seq![w1@] + tokens(
                            r1@.skip(first_space_at(r1@) as int + 1),
                        ));
                    }
                    assert(tokens(r1@)[0] == w1@);
                    assert(words[1] == w1@);
                }
                let key = String::from_str(w1);
                match rest2 {
                    None => {
                        proof {
                            assert(words.len() == 2);
                        }
                        match op {
                            WalOperation::Insert => Err(ParseWalError::MissingValue),
                            WalOperation::Delete => Ok(
                                WalOperationLog { operation: op, key, value: None },
                            ),
                        }
                    },
                    Some(r2) => {
                        proof {
                            lemma_tokens_nonempty(r2@);
                            assert(tokens(r1@) =~= seq![w1@] + tokens(r2@));
                            assert(words.len() >= 3);
                            assert(words[2] == tokens(r2@)[0]);
                        }
                        let (w2, _rest3) = split_token(r2);
                        proof {
                            if first_space_at(r2@) >= r2@.len() {
                                assert(tokens(r2@) =~= seq![r2@]);
                            } else {
                                assert(tokens(r2@) =~= seq![w2@] + tokens(
                                    r2@.skip(first_space_at(r2@) as int + 1),
                                ));
                            }
                            assert(words[2] == w2@);
                        }
                        let value = String::from_str(w2);
                        Ok(WalOperationLog { operation: op, key, value: Some(value) })
                    },
                }
            },
        }
    }
}

/// Builds the newline-terminated `INSERT key value` line that records
/// an insert.
pub fn insert_line(key: &str, value: &str) -> (r: String)
    ensures
        r@ == seq!['I', 'N', 'S', 'E', 'R', 'T', ' '] + key@ + seq![' '] + value@ + seq!['\n'],
{
    let mut out = String::from_str("INSERT ");
    out.append(key);
    out.append(" ");
    out.append(value);
    out.append("\n");
    proof {
        reveal_strlit("INSERT ");
        reveal_strlit(" ");
        reveal_strlit("\n");
        assert("INSERT "@ =~= seq!['I', 'N', 'S', 'E', 'R', 'T', ' ']);
        assert(out@ =~= seq!['I', 'N', 'S', 'E', 'R', 'T', ' '] + key@ + seq![' '] + value@
            + seq!['\n']);
    }
    out
}

/// Builds the newline-terminated `DELETE key` line that records a
/// delete.
pub fn delete_line(key: &str) -> (r: String)
    ensures
        r@ == seq!['D', 'E', 'L', 'E', 'T', 'E', ' '] + key@ + seq!['\n'],
{
    let mut out = String::from_str("DELETE ");
    out.append(key);
    out.append("\n");
    proof {
        reveal_strlit("DELETE ");
        reveal_strlit("\n");
        assert("DELETE "@ =~= seq!['D', 'E', 'L', 'E', 'T', 'E', ' ']);
        assert(out@ =~= seq!['D', 'E', 'L', 'E', 'T', 'E', ' '] + key@ + seq!['\n']);
    }
    out
}

} // verus!
