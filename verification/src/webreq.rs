//! The pure half of the content-fetch feature: building request URLs,
//! deciding what a resolve response means, and formatting search results
//! into one reply line.  The HTTP calls themselves happen outside the
//! verified library and hand back plain strings.

use vstd::prelude::*;
use vstd::string::{StrSliceExecFns, StringExecFns, StringSliceAdditionalSpecFns};

verus! {

/// What `percent_encode` over the non-alphanumeric set returns for the
/// given bytes; a fixed function of the bytes alone.
pub uninterp spec fn percent_enc(b: Seq<u8>) -> Seq<char>;

/// Relies on `percent_encoding::percent_encode` with the
/// `NON_ALPHANUMERIC` set: every byte outside `0-9A-Za-z` is written as
/// `%XX`.  The result depends on the input bytes alone.
#[verifier::external_body]
pub fn urlencode(q: &[u8]) -> (r: String)
    ensures
        r@ == percent_enc(q@),
{
    percent_encoding::percent_encode(q, percent_encoding::NON_ALPHANUMERIC).to_string()
}

/// The decimal digit characters of a number, most significant first.
pub open spec fn dec_digits(n: nat) -> Seq<char>
    decreases n,
{
    if n < 10 {
        seq![digit_char(n)]
    } else {
        dec_digits(n / 10).push(digit_char(n % 10))
    }
}

/// The character for one decimal digit.
pub open spec fn digit_char(d: nat) -> char {
    if d == 0 {
        '0'
    } else if d == 1 {
        '1'
    } else if d == 2 {
        '2'
    } else if d == 3 {
        '3'
    } else if d == 4 {
        '4'
    } else if d == 5 {
        '5'
    } else if d == 6 {
        '6'
    } else if d == 7 {
        '7'
    } else if d == 8 {
        '8'
    } else {
        '9'
    }
}

fn digit_str(d: usize) -> (r: &'static str)
    requires
        d < 10,
    ensures
        r@ == seq![digit_char(d as nat)],
{
    proof {
        reveal_strlit("0");
        reveal_strlit("1");
        reveal_strlit("2");
        reveal_strlit("3");
        reveal_strlit("4");
        reveal_strlit("5");
        reveal_strlit("6");
        reveal_strlit("7");
        reveal_strlit("8");
        reveal_strlit("9");
    }
    if d == 0 {
        "0"
    } else if d == 1 {
        "1"
    } else if d == 2 {
        "2"
    } else if d == 3 {
        "3"
    } else if d == 4 {
        "4"
    } else if d == 5 {
        "5"
    } else if d == 6 {
        "6"
    } else if d == 7 {
        "7"
    } else if d == 8 {
        "8"
    } else {
        "9"
    }
}

/// A number written in decimal.
pub fn usize_to_string(n: usize) -> (s: String)
    ensures
        s@ == dec_digits(n as nat),
    decreases n,
{
    if n < 10 {
        digit_str(n).to_owned()
    } else {
        let mut s = usize_to_string(n / 10);
        s.append(digit_str(n % 10));
        s
    }
}

/// The URL that resolves a free-form name to a canonical one.
pub fn resolve_url(base: &str, name: &[u8]) -> (r: String)
    ensures
        r@ == base@ + ("/api-helper/resolve/")@ + percent_enc(name@),
{
    let mut s = base.to_owned();
    s.append("/api-helper/resolve/");
    let enc = urlencode(name);
    s.append(enc.as_str());
    s
}

/// The URL of the text-art lines for a resolved name (already encoded by
/// the resolver).
pub fn irc_url(base: &str, moose: &str) -> (r: String)
    ensures
        r@ == base@ + ("/irc/")@ + moose@,
{
    let mut s = base.to_owned();
    s.append("/irc/");
    s.append(moose);
    s
}

/// The URL of the image for a resolved name.
pub fn img_url(base: &str, moose: &str) -> (r: String)
    ensures
        r@ == base@ + ("/img/")@ + moose@,
{
    let mut s = base.to_owned();
    s.append("/img/");
    s.append(moose);
    s
}

/// The URL of a search query.
pub fn search_url(base: &str, query: &[u8]) -> (r: String)
    ensures
        r@ == base@ + ("/search?p=0&q=")@ + percent_enc(query@),
{
    let mut s = base.to_owned();
    s.append("/search?p=0&q=");
    let enc = urlencode(query);
    s.append(enc.as_str());
    s
}

/// The gallery URL pointed to when search is disabled.
pub fn gallery_url(base: &str, query: &[u8]) -> (r: String)
    ensures
        r@ == base@ + ("/gallery/0?q=")@ + percent_enc(query@),
{
    let mut s = base.to_owned();
    s.append("/gallery/0?q=");
    let enc = urlencode(query);
    s.append(enc.as_str());
    s
}

/// What a resolve response means: a reported error status carries the
/// upstream message as the failure text, anything else is the resolved
/// name.
pub fn resolve_outcome(status: &str, msg: String) -> (r: Result<String, String>)
    ensures
        status.spec_bytes() == ("error").spec_bytes() ==> (r matches Err(e) && e@ == msg@),
        status.spec_bytes() != ("error").spec_bytes() ==> (r matches Ok(m) && m@ == msg@),
{
    if crate::parse::eq_bytes(status.as_bytes(), "error".as_bytes()) {
        Err(msg)
    } else {
        Ok(msg)
    }
}

/// One search hit: a name and the gallery page it is on.
pub struct SearchEntry {
    pub name: String,
    pub page: usize,
}

/// The reply text for one search hit: the name in bold marks, then the
/// page number.
pub open spec fn entry_str(e: SearchEntry) -> Seq<char> {
    ("\u{2}")@ + e.name@ + ("\u{2} p.")@ + dec_digits(e.page as nat)
}

/// The reply text for all hits from `i` on, comma-separated.
pub open spec fn entries_str(rs: Seq<SearchEntry>, i: int) -> Seq<char>
    decreases rs.len() - i when 0 <= i <= rs.len()
{
    if i >= rs.len() {
        Seq::empty()
    } else if i == 0 {
        entry_str(rs[i]) + entries_str(rs, i + 1)
    } else {
        (", ")@ + entry_str(rs[i]) + entries_str(rs, i + 1)
    }
}

/// Format the hits of a search into one reply line; no hits at all get a
/// fixed error text.
pub fn format_search_results(results: &Vec<SearchEntry>) -> (r: String)
    ensures
        results@.len() == 0 ==> r@ == ("Error: No results found.")@,
        results@.len() > 0 ==> r@ == entries_str(results@, 0),
{
    let n = results.len();
    if n == 0 {
        return "Error: No results found.".to_owned();
    }
    let mut s = String::new();
    let mut i: usize = 0;
    while i < n
        invariant
            i <= n,
            n == results@.len(),
            s@ + entries_str(results@, i as int) == entries_str(results@, 0),
        decreases n - i,
    {
        let ghost old_s = s@;
        let ghost e = results@[i as int];
        if i > 0 {
            s.append(", ");
        }
        s.append("\u{2}");
        s.append(results[i].name.as_str());
        s.append("\u{2} p.");
        let page = usize_to_string(results[i].page);
        s.append(page.as_str());
        proof {
            if i > 0 {
                assert(s@ =~= old_s + ((", ")@ + entry_str(e)));
                assert(old_s + ((", ")@ + entry_str(e)) + entries_str(results@, i + 1) =~= old_s
                    + entries_str(results@, i as int));
            } else {
                assert(s@ =~= old_s + entry_str(e));
                assert(old_s + entry_str(e) + entries_str(results@, i + 1) =~= old_s + entries_str(
                    results@,
                    i as int,
                ));
            }
        }
        i = i + 1;
    }
    proof {
        assert(entries_str(results@, n as int) =~= Seq::<char>::empty());
        assert(s@ + Seq::<char>::empty() =~= s@);
    }
    s
}

} // verus!
