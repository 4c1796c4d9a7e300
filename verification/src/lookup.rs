//! The texts that the storage layer is addressed with: the statement that
//! looks up the postings of a set of terms, and the address of the database.

use vstd::prelude::*;
use vstd::string::*;

verus! {

/// The character of a decimal digit.
pub open spec fn digit_char(d: nat) -> char {
    if d == 0 {
        '0'
    } else if d == 1 {
        '1'
    } else if d == 2 {
        '2'
    } else if d == 3 {
        '3'
    } else if d == 4 {
        '4'
    } else if d == 5 {
        '5'
    } else if d == 6 {
        '6'
    } else if d == 7 {
        '7'
    } else if d == 8 {
        '8'
    } else {
        '9'
    }
}

/// A number in decimal, without leading zeros.
pub open spec fn decimal(n: nat) -> Seq<char>
    decreases n,
{
    if n < 10 {
        seq![digit_char(n)]
    } else {
        decimal(n / 10).push(digit_char(n % 10))
    }
}

/// The placeholder of the parameter with the given number: `$7::text`.
pub open spec fn placeholder(number: nat) -> Seq<char> {
    seq!['$'] + decimal(number) + "::text"@
}

/// The placeholders of the parameters 1 to `count`, with commas between them.
pub open spec fn placeholders(count: nat) -> Seq<char>
    decreases count,
{
    if count == 0 {
        Seq::empty()
    } else if count == 1 {
        placeholder(1)
    } else {
        placeholders((count - 1) as nat) + seq![','] + placeholder(count)
    }
}

/// The statement up to its list of parameters.
pub open spec fn statement_head() -> Seq<char> {
    "SELECT k.word, k.documents_containing_word, wk.occurrences, wk.position, w.url, w.word_count, w.title, w.description
        FROM keywords k
        INNER JOIN website_keywords wk ON k.id = wk.keyword_id
        INNER JOIN websites w ON wk.website_id = w.id
        WHERE k.word in ("@
}

/// The statement behind its list of parameters.
pub open spec fn statement_tail() -> Seq<char> {
    ")
        "@
}

/// The statement that looks up the postings of `count` terms.
pub open spec fn statement(count: nat) -> Seq<char> {
    statement_head() + placeholders(count) + statement_tail()
}

/// The address of the database `name` on `host` for the given user.
pub open spec fn address(
    user: Seq<char>,
    password: Seq<char>,
    host: Seq<char>,
    name: Seq<char>,
) -> Seq<char> {
    "postgres://"@ + user + ":"@ + password + "@"@ + host + "/"@ + name
}

fn digit(d: usize) -> (c: char)
    requires
        d < 10,
    ensures
        c == digit_char(d as nat),
{
    if d == 0 {
        '0'
    } else if d == 1 {
        '1'
    } else if d == 2 {
        '2'
    } else if d == 3 {
        '3'
    } else if d == 4 {
        '4'
    } else if d == 5 {
        '5'
    } else if d == 6 {
        '6'
    } else if d == 7 {
        '7'
    } else if d == 8 {
        '8'
    } else {
        '9'
    }
}

fn push_decimal(out: &mut String, n: usize)
    ensures
        final(out)@ == old(out)@ + decimal(n as nat),
    decreases n,
{
    if n >= 10 {
        push_decimal(out, n / 10);
    }
    out.push(digit(n % 10));
    assert(final(out)@ =~= old(out)@ + decimal(n as nat));
}

fn push_placeholder(out: &mut String, number: usize)
    ensures
        final(out)@ == old(out)@ + placeholder(number as nat),
{
    out.push('$');
    push_decimal(out, number);
    out.append("::text");
    assert(final(out)@ =~= old(out)@ + placeholder(number as nat));
}

/// The statement that looks up the postings of `count` terms: it selects,
/// for each pair of a term and a page that holds it, the term, the number of
/// pages that hold the term, the occurrences and position of the term in the
/// page, and the page's URL, word count, title and description. The terms
/// are its parameters `$1` to `$count`, each bound as text.
pub fn keyword_statement(count: usize) -> (r: String)
    ensures
        r@ == statement(count as nat),
{
    let mut out: String = String::from_str(
        "SELECT k.word, k.documents_containing_word, wk.occurrences, wk.position, w.url, w.word_count, w.title, w.description
        FROM keywords k
        INNER JOIN website_keywords wk ON k.id = wk.keyword_id
        INNER JOIN websites w ON wk.website_id = w.id
        WHERE k.word in (",
    );
    let mut i: usize = 0;
    assert(out@ =~= statement_head() + placeholders(0));
    while i < count
        invariant
            i <= count,
            out@ == statement_head() + placeholders(i as nat),
        decreases count - i,
    {
        if i > 0 {
            out.push(',');
        }
        push_placeholder(&mut out, i + 1);
        assert(out@ =~= statement_head() + placeholders((i + 1) as nat));
        i += 1;
    }
    out.append(")
        ");
    out
}

/// The address under which the database `name` on `host` is reached by `user`.
pub fn connection_url(user: &str, password: &str, host: &str, name: &str) -> (r: String)
    ensures
        r@ == address(user@, password@, host@, name@),
{
    let mut out: String = String::from_str("postgres://");
    out.append(user);
    out.append(":");
    out.append(password);
    out.append("@");
    out.append(host);
    out.append("/");
    out.append(name);
    out
}

} // verus!
