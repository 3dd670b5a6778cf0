//! How a tool server wants its client to log in, and whether the client has tried already.

use vstd::prelude::*;
use crate::text;
use crate::text::{chars_of, is_blank, is_whitespace, lower_chars_of, stands_at};

verus! {

/// A header that the user has configured for a server.
#[derive(Debug, Clone, PartialEq, Eq)]
pub struct ConfiguredHeader {
    pub name: String,
    pub value: String,
}

/// A character that the name of an HTTP header may hold.
pub open spec fn token_char(c: char) -> bool {
    ||| 'a' <= c <= 'z'
    ||| 'A' <= c <= 'Z'
    ||| '0' <= c <= '9'
    ||| c == '!' || c == '#' || c == '$' || c == '%' || c == '&' || c == '\''
    ||| c == '*' || c == '+' || c == '-' || c == '.' || c == '^' || c == '_'
    ||| c == '`' || c == '|' || c == '~'
}

/// A name that an HTTP header can have.
pub open spec fn header_name(s: Seq<char>) -> bool {
    1 <= s.len() <= 65535 && forall|i: int| 0 <= i < s.len() ==> token_char(#[trigger] s[i])
}

/// A character that the value of an HTTP header may hold.
pub open spec fn value_char(c: char) -> bool {
    (c as u32 >= 32 && c as u32 != 127) || c == '\t'
}

/// A value that an HTTP header can have.
pub open spec fn header_value(s: Seq<char>) -> bool {
    forall|i: int| 0 <= i < s.len() ==> value_char(#[trigger] s[i])
}

/// Wraps `http::HeaderName::from_bytes`. It accepts exactly the names of one to 65535
/// token characters.
#[verifier::external_body]
fn is_header_name(name: &str) -> (r: bool)
    ensures
        r == header_name(name@),
{
    http::HeaderName::from_bytes(name.as_bytes()).is_ok()
}

/// Wraps `http::HeaderValue::from_str`. It accepts exactly the texts without control
/// characters other than the tab.
#[verifier::external_body]
fn is_header_value(value: &str) -> (r: bool)
    ensures
        r == header_value(value@),
{
    http::HeaderValue::from_str(value).is_ok()
}

/// A header by which clients log in.
pub open spec fn credential_name(name: Seq<char>) -> bool {
    let s = text::lower(name);
    s == "authorization"@ || s == "x-api-key"@ || s == "api-key"@
}

pub open spec fn valid_header(h: ConfiguredHeader) -> bool {
    header_name(h.name@) && header_value(h.value@)
}

/// The client sends something to log in with. Where one header cannot be sent, none is.
pub open spec fn credential_supplied(headers: Seq<ConfiguredHeader>) -> bool {
    &&& forall|k: int| 0 <= k < headers.len() ==> valid_header(#[trigger] headers[k])
    &&& exists|k: int|
        0 <= k < headers.len() && credential_name((#[trigger] headers[k]).name@) && !text::blank(
            headers[k].value@,
        )
}

fn same_chars(a: &Vec<char>, b: &str) -> (r: bool)
    ensures
        r == (a@ == b@),
{
    let other: Vec<char> = chars_of(b);
    if a.len() != other.len() {
        return false;
    }
    let found: bool = stands_at(a, &other, 0);
    proof {
        assert(a@.subrange(0, a@.len() as int) =~= a@);
    }
    found
}

fn is_credential_name(name: &str) -> (r: bool)
    ensures
        r == credential_name(name@),
{
    let s: Vec<char> = lower_chars_of(name);
    same_chars(&s, "authorization") || same_chars(&s, "x-api-key") || same_chars(&s, "api-key")
}

/// Whether the configured headers hold something to log in with that is really sent.
pub fn has_caller_supplied_credential(headers: &Vec<ConfiguredHeader>) -> (r: bool)
    ensures
        r == credential_supplied(headers@),
{
    let mut found: bool = false;
    let mut i: usize = 0;
    while i < headers.len()
        invariant
            i <= headers.len(),
            forall|k: int| 0 <= k < i ==> valid_header(#[trigger] headers@[k]),
            found == exists|k: int|
                0 <= k < i && credential_name((#[trigger] headers@[k]).name@) && !text::blank(
                    headers@[k].value@,
                ),
        decreases headers.len() - i,
    {
        let header: &ConfiguredHeader = &headers[i];
        if !is_header_name(header.name.as_str()) || !is_header_value(header.value.as_str()) {
            assert(!valid_header(headers@[i as int]));
            return false;
        }
        if is_credential_name(header.name.as_str()) && !is_blank(header.value.as_str()) {
            assert(credential_name(headers@[i as int].name@));
            found = true;
        }
        i += 1;
    }
    found
}

/// Where a position of a challenge stands.
#[derive(Debug, Clone, Copy, PartialEq, Eq, Structural)]
pub enum Place {
    Outside,
    Quoted,
    /// Behind a backslash in a quoted value.
    Escaped,
}

/// The place behind `c`.
pub open spec fn next_place(place: Place, c: char) -> Place {
    match place {
        Place::Outside => if c == '"' {
            Place::Quoted
        } else {
            Place::Outside
        },
        Place::Quoted => if c == '"' {
            Place::Outside
        } else if c == '\\' {
            Place::Escaped
        } else {
            Place::Quoted
        },
        Place::Escaped => Place::Quoted,
    }
}

/// The place in front of position `i`.
pub open spec fn place_at(s: Seq<char>, i: int) -> Place
    decreases i,
{
    if i <= 0 {
        Place::Outside
    } else {
        next_place(place_at(s, i - 1), s[i - 1])
    }
}

/// `s` holds only white space from `a` up to `b`.
pub open spec fn blank_between(s: Seq<char>, a: int, b: int) -> bool {
    forall|i: int| a <= i < b ==> text::whitespace(#[trigger] s[i])
}

/// A parameter may start at `q`: behind the scheme, or behind a comma that is not quoted.
pub open spec fn parameter_start(s: Seq<char>, q: int) -> bool {
    q == 6 || (q > 6 && s[q - 1] == ',' && place_at(s, q - 1) == Place::Outside)
}

/// The name of a parameter starts at `p`.
pub open spec fn name_starts(s: Seq<char>, p: int) -> bool {
    exists|q: int| 6 <= q <= p && #[trigger] parameter_start(s, q) && blank_between(s, q, p)
}

/// The name of a parameter ends at `e`: an equals sign follows.
pub open spec fn name_ends(s: Seq<char>, e: int) -> bool {
    exists|q: int| e <= q < s.len() && #[trigger] s[q] == '=' && blank_between(s, e, q)
}

/// The parameter that points to the login service stands at `p`.
pub open spec fn metadata_at(s: Seq<char>, p: int) -> bool {
    &&& text::occurs_at(s, "resource_metadata"@, p)
    &&& place_at(s, p) == Place::Outside
    &&& name_starts(s, p)
    &&& name_ends(s, p + "resource_metadata"@.len())
}

/// The challenge asks for a token and says where the login service is. Names in quoted
/// values do not count, and a challenge with an open quote says nothing.
pub open spec fn oauth_challenge(challenge: Seq<char>) -> bool {
    let s = text::lower(challenge);
    &&& text::occurs_at(s, "bearer"@, 0)
    &&& s.len() > 6
    &&& text::whitespace(s[6])
    &&& place_at(s, s.len() as int) == Place::Outside
    &&& exists|p: int| metadata_at(s, p)
}

fn places_of(s: &Vec<char>) -> (r: Vec<Place>)
    ensures
        r.len() == s.len() + 1,
        forall|i: int| 0 <= i <= s.len() ==> #[trigger] r@[i] == place_at(s@, i),
{
    let mut places: Vec<Place> = Vec::new();
    let mut place: Place = Place::Outside;
    let mut i: usize = 0;
    places.push(place);
    while i < s.len()
        invariant
            i <= s.len(),
            places.len() == i + 1,
            place == place_at(s@, i as int),
            forall|k: int| 0 <= k <= i ==> #[trigger] places@[k] == place_at(s@, k),
        decreases s.len() - i,
    {
        let c: char = s[i];
        place = match place {
            Place::Outside => if c == '"' {
                Place::Quoted
            } else {
                Place::Outside
            },
            Place::Quoted => if c == '"' {
                Place::Outside
            } else if c == '\\' {
                Place::Escaped
            } else {
                Place::Quoted
            },
            Place::Escaped => Place::Quoted,
        };
        places.push(place);
        i += 1;
    }
    places
}

fn starts_name(s: &Vec<char>, places: &Vec<Place>, p: usize) -> (r: bool)
    requires
        p <= s.len(),
        places.len() == s.len() + 1,
        forall|i: int| 0 <= i <= s.len() ==> #[trigger] places@[i] == place_at(s@, i),
    ensures
        r == name_starts(s@, p as int),
{
    if p < 6 {
        return false;
    }
    let mut q: usize = p;
    while q > 6
        invariant
            6 <= q <= p <= s.len(),
            places.len() == s.len() + 1,
            forall|i: int| 0 <= i <= s.len() ==> #[trigger] places@[i] == place_at(s@, i),
            blank_between(s@, q as int, p as int),
            forall|k: int| q < k <= p ==> !#[trigger] parameter_start(s@, k),
        decreases q,
    {
        if s[q - 1] == ',' && places[q - 1] == Place::Outside {
            assert(parameter_start(s@, q as int));
            return true;
        }
        assert(!parameter_start(s@, q as int));
        if !is_whitespace(s[q - 1]) {
            proof {
                assert forall|k: int| 6 <= k <= p && blank_between(s@, k, p as int) implies !(
                #[trigger] parameter_start(s@, k)) by {
                    if k < q {
                        assert(text::whitespace(s@[q - 1]));
                    }
                }
            }
            return false;
        }
        q -= 1;
    }
    assert(parameter_start(s@, 6));
    true
}

fn ends_name(s: &Vec<char>, e: usize) -> (r: bool)
    requires
        e <= s.len(),
    ensures
        r == name_ends(s@, e as int),
{
    let mut q: usize = e;
    while q < s.len()
        invariant
            e <= q <= s.len(),
            blank_between(s@, e as int, q as int),
            forall|k: int| e <= k < q ==> #[trigger] s@[k] != '=',
        decreases s.len() - q,
    {
        if s[q] == '=' {
            assert(s@[q as int] == '=');
            return true;
        }
        if !is_whitespace(s[q]) {
            proof {
                assert forall|k: int| e <= k < s@.len() && #[trigger] s@[k]
                    == '=' implies !blank_between(s@, e as int, k) by {
                    assert(q < k);
                    assert(!text::whitespace(s@[q as int]));
                }
            }
            return false;
        }
        assert(s@[q as int] != '=');
        q += 1;
    }
    false
}

/// Whether a challenge asks for a login at a service that it names.
pub fn is_oauth_challenge(challenge: &str) -> (r: bool)
    ensures
        r == oauth_challenge(challenge@),
{
    let s: Vec<char> = lower_chars_of(challenge);
    let scheme: Vec<char> = chars_of("bearer");
    let wanted: Vec<char> = chars_of("resource_metadata");
    if !stands_at(&s, &scheme, 0) || s.len() <= 6 || !is_whitespace(s[6]) {
        return false;
    }
    let places: Vec<Place> = places_of(&s);
    if places[s.len()] != Place::Outside {
        return false;
    }
    let mut p: usize = 0;
    while p < s.len()
        invariant
            p <= s.len(),
            wanted@ == "resource_metadata"@,
            s@ == text::lower(challenge@),
            text::occurs_at(s@, "bearer"@, 0),
            s@.len() > 6,
            text::whitespace(s@[6]),
            place_at(s@, s@.len() as int) == Place::Outside,
            places.len() == s.len() + 1,
            forall|i: int| 0 <= i <= s.len() ==> #[trigger] places@[i] == place_at(s@, i),
            forall|k: int| 0 <= k < p ==> !#[trigger] metadata_at(s@, k),
        decreases s.len() - p,
    {
        if places[p] == Place::Outside && stands_at(&s, &wanted, p) && starts_name(&s, &places, p)
            && ends_name(&s, p + wanted.len()) {
            assert(metadata_at(s@, p as int));
            return true;
        }
        assert(!metadata_at(s@, p as int));
        p += 1;
    }
    proof {
        reveal_strlit("resource_metadata");
        assert forall|k: int| !#[trigger] metadata_at(s@, k) by {
            if metadata_at(s@, k) {
                assert(k < s@.len());
            }
        }
    }
    false
}

/// The client logs in by itself exactly where all headers can be sent and one of them is
/// `Authorization`, `X-API-Key` or `API-Key`, in whatever case, with a value that is not blank.
pub proof fn law_which_headers_are_credentials(headers: Seq<ConfiguredHeader>)
    ensures
        credential_supplied(headers) <==> {
            &&& forall|k: int|
                0 <= k < headers.len() ==> header_name((#[trigger] headers[k]).name@)
                    && header_value(headers[k].value@)
            &&& exists|k: int, i: int|
                0 <= k < headers.len() && 0 <= i < headers[k].value@.len() && !text::whitespace(
                    #[trigger] headers[k].value@[i],
                ) && (text::lower(headers[k].name@) == "authorization"@ || text::lower(
                    headers[k].name@,
                ) == "x-api-key"@ || text::lower(headers[k].name@) == "api-key"@)
        },
{
    if exists|k: int|
        0 <= k < headers.len() && credential_name((#[trigger] headers[k]).name@) && !text::blank(
            headers[k].value@,
        ) {
        let k = choose|k: int|
            0 <= k < headers.len() && credential_name((#[trigger] headers[k]).name@)
                && !text::blank(headers[k].value@);
        let v = headers[k].value@;
        let i = choose|i: int| 0 <= i < v.len() && !text::whitespace(#[trigger] v[i]);
        assert(!text::whitespace(headers[k].value@[i]));
    }
    if exists|k: int, i: int|
        0 <= k < headers.len() && 0 <= i < headers[k].value@.len() && !text::whitespace(
            #[trigger] headers[k].value@[i],
        ) && (text::lower(headers[k].name@) == "authorization"@ || text::lower(headers[k].name@)
            == "x-api-key"@ || text::lower(headers[k].name@) == "api-key"@) {
        let (k, i) = choose|k: int, i: int|
            0 <= k < headers.len() && 0 <= i < headers[k].value@.len() && !text::whitespace(
                #[trigger] headers[k].value@[i],
            ) && (text::lower(headers[k].name@) == "authorization"@ || text::lower(
                headers[k].name@,
            ) == "x-api-key"@ || text::lower(headers[k].name@) == "api-key"@);
        assert(credential_name(headers[k].name@));
        assert(!text::blank(headers[k].value@));
    }
}

/// A quote opens a quoted value or closes it: without backslashes, a position is outside of
/// quotes exactly where an even number of them stands in front of it.
pub proof fn law_quotes_open_and_close(s: Seq<char>, i: int)
    requires
        0 <= i <= s.len(),
        forall|k: int| 0 <= k < i ==> #[trigger] s[k] != '\\',
    ensures
        place_at(s, i) == Place::Outside <==> s.take(i).filter(|c: char| c == '"').len() % 2 == 0,
        place_at(s, i) == Place::Quoted <==> s.take(i).filter(|c: char| c == '"').len() % 2 == 1,
    decreases i,
{
    reveal(Seq::filter);
    if i > 0 {
        law_quotes_open_and_close(s, i - 1);
        assert(s.take(i).drop_last() =~= s.take(i - 1));
        assert(s.take(i).last() == s[i - 1]);
    }
}

/// A backslash in a quoted value takes the meaning from the character behind it, a quote
/// included; outside of quotes it means nothing.
pub proof fn law_backslash_protects_one_character(s: Seq<char>, i: int)
    requires
        0 <= i,
        i + 1 < s.len(),
        s[i] == '\\',
    ensures
        place_at(s, i) == Place::Quoted ==> place_at(s, i + 2) == Place::Quoted,
        place_at(s, i) == Place::Outside ==> place_at(s, i + 1) == Place::Outside,
{
    reveal_with_fuel(place_at, 3);
}

/// A challenge names a login service exactly where it is of the scheme Bearer, in whatever
/// case, followed by white space, closes its quotes, and has the parameter `resource_metadata`
/// outside of quotes: first, or behind a comma outside of quotes, and with an equals sign
/// behind it, with nothing but white space in between.
pub proof fn law_which_challenges_name_a_login_service(challenge: Seq<char>)
    ensures
        ({
            let s = text::lower(challenge);
            oauth_challenge(challenge) <==> {
                &&& s.len() > 6
                &&& s.subrange(0, 6) == "bearer"@
                &&& text::whitespace(s[6])
                &&& place_at(s, s.len() as int) == Place::Outside
                &&& exists|q: int, p: int, n: int, e: int|
                    6 <= q <= p <= n <= e < s.len() && text::blank(#[trigger] s.subrange(q, p))
                        && #[trigger] s.subrange(p, n) == "resource_metadata"@ && text::blank(
                        #[trigger] s.subrange(n, e),
                    ) && s[e] == '=' && place_at(s, p) == Place::Outside && (q == 6 || (s[q - 1]
                        == ',' && place_at(s, q - 1) == Place::Outside))
            }
        }),
{
    let s = text::lower(challenge);
    reveal_strlit("bearer");
    reveal_strlit("resource_metadata");
    if exists|p: int| metadata_at(s, p) {
        let p = choose|p: int| metadata_at(s, p);
        let n = p + 17;
        let q = choose|q: int|
            6 <= q <= p && #[trigger] parameter_start(s, q) && blank_between(s, q, p);
        let e = choose|e: int|
            n <= e < s.len() && #[trigger] s[e] == '=' && blank_between(s, n, e);
        assert(s.subrange(p, n) == "resource_metadata"@);
        assert forall|i: int| 0 <= i < s.subrange(q, p).len() implies text::whitespace(
            #[trigger] s.subrange(q, p)[i],
        ) by {
            assert(text::whitespace(s[q + i]));
        }
        assert forall|i: int| 0 <= i < s.subrange(n, e).len() implies text::whitespace(
            #[trigger] s.subrange(n, e)[i],
        ) by {
            assert(text::whitespace(s[n + i]));
        }
        assert(text::blank(s.subrange(q, p)) && text::blank(s.subrange(n, e)));
    }
    if exists|q: int, p: int, n: int, e: int|
            6 <= q <= p <= n <= e < s.len() && text::blank(#[trigger] s.subrange(q, p))
                && #[trigger] s.subrange(p, n) == "resource_metadata"@ && text::blank(
                #[trigger] s.subrange(n, e),
            ) && s[e] == '=' && place_at(s, p) == Place::Outside && (q == 6 || (s[q - 1]
                == ',' && place_at(s, q - 1) == Place::Outside)) {
        let (q, p, n, e) = choose|q: int, p: int, n: int, e: int|
            6 <= q <= p <= n <= e < s.len() && text::blank(#[trigger] s.subrange(q, p))
                && #[trigger] s.subrange(p, n) == "resource_metadata"@ && text::blank(
                #[trigger] s.subrange(n, e),
            ) && s[e] == '=' && place_at(s, p) == Place::Outside && (q == 6 || (s[q - 1] == ','
                && place_at(s, q - 1) == Place::Outside));
        assert(n == p + 17) by {
            assert(s.subrange(p, n).len() == n - p);
        }
        assert forall|i: int| q <= i < p implies text::whitespace(#[trigger] s[i]) by {
            assert(text::whitespace(s.subrange(q, p)[i - q]));
        }
        assert forall|i: int| n <= i < e implies text::whitespace(#[trigger] s[i]) by {
            assert(text::whitespace(s.subrange(n, e)[i - n]));
        }
        assert(parameter_start(s, q) && blank_between(s, q, p));
        assert(name_starts(s, p));
        assert(s[e] == '=' && blank_between(s, n, e));
        assert(name_ends(s, n));
        assert(metadata_at(s, p));
    }
}

/// The simplest challenge of this kind names its service, whatever the service is: the scheme, a
/// space, the parameter, and a value without quotes.
pub proof fn law_plain_challenge_names_a_login_service(value: Seq<char>)
    requires
        forall|i: int| 0 <= i < value.len() ==> #[trigger] value[i] != '"',
    ensures
        oauth_challenge("Bearer resource_metadata="@ + value),
        oauth_challenge("bearer resource_metadata="@ + value),
{
    reveal_strlit("Bearer resource_metadata=");
    reveal_strlit("bearer resource_metadata=");
    assert(text::lower("Bearer resource_metadata="@) =~= "bearer resource_metadata="@);
    assert(text::lower("bearer resource_metadata="@) =~= "bearer resource_metadata="@);
    lemma_plain_challenge("Bearer resource_metadata="@, value);
    lemma_plain_challenge("bearer resource_metadata="@, value);
}

proof fn lemma_no_quotes(s: Seq<char>, i: int)
    requires
        0 <= i <= s.len(),
        forall|k: int| 0 <= k < s.len() ==> #[trigger] s[k] != '"',
    ensures
        place_at(s, i) == Place::Outside,
    decreases i,
{
    if i > 0 {
        lemma_no_quotes(s, i - 1);
    }
}

proof fn lemma_plain_challenge(front: Seq<char>, value: Seq<char>)
    requires
        front.len() == 25,
        text::lower(front) == "bearer resource_metadata="@,
        forall|i: int| 0 <= i < front.len() ==> #[trigger] front[i] != '"',
        forall|i: int| 0 <= i < value.len() ==> #[trigger] value[i] != '"',
    ensures
        oauth_challenge(front + value),
{
    let c = front + value;
    let s = text::lower(c);
    let f = text::lower(front);
    reveal_strlit("bearer resource_metadata=");
    reveal_strlit("bearer");
    reveal_strlit("resource_metadata");
    assert forall|i: int| 0 <= i < 25 implies #[trigger] s[i] == f[i] by {
        assert(c[i] == front[i]);
    }
    assert forall|i: int| 0 <= i < s.len() implies #[trigger] s[i] != '"' by {
        if i < 25 {
            assert(c[i] == front[i]);
        } else {
            assert(c[i] == value[i - 25]);
        }
    }
    lemma_no_quotes(s, s.len() as int);
    lemma_no_quotes(s, 7);
    assert(s.subrange(0, 6) =~= "bearer"@);
    assert(s.subrange(7, 24) =~= "resource_metadata"@);
    assert(s[6] == ' ');
    assert(s[24] == '=');
    assert(text::whitespace(s[6]));
    assert(text::blank(s.subrange(6, 7)));
    assert(text::blank(s.subrange(24, 24)));
    law_which_challenges_name_a_login_service(c);
}

/// A header can be sent exactly where its name holds one to 65535 visible ASCII characters,
/// none of them a delimiter, and its value no control characters other than the tab.
pub proof fn law_which_headers_can_be_sent(h: ConfiguredHeader)
    ensures
        valid_header(h) <==> {
            &&& 0 < h.name@.len() < 65536
            &&& forall|i: int|
                0 <= i < h.name@.len() ==> {
                    let c = #[trigger] h.name@[i];
                    &&& '!' <= c <= '~'
                    &&& c != '"' && c != '(' && c != ')' && c != ',' && c != '/' && c != ':'
                    &&& c != ';' && c != '<' && c != '=' && c != '>' && c != '?' && c != '@'
                    &&& c != '[' && c != '\\' && c != ']' && c != '{' && c != '}'
                }
            &&& forall|i: int|
                0 <= i < h.value@.len() ==> (#[trigger] h.value@[i] == '\t' || !(
                h.value@[i] as u32 <= 31 || h.value@[i] as u32 == 127))
        },
{
    assert forall|c: char| token_char(c) <==> {
        &&& '!' <= c <= '~'
        &&& c != '"' && c != '(' && c != ')' && c != ',' && c != '/' && c != ':'
        &&& c != ';' && c != '<' && c != '=' && c != '>' && c != '?' && c != '@'
        &&& c != '[' && c != '\\' && c != ']' && c != '{' && c != '}'
    } by {}
    if !header_name(h.name@) && h.name@.len() > 0 && h.name@.len() < 65536 {
        let i = choose|i: int| 0 <= i < h.name@.len() && !token_char(#[trigger] h.name@[i]);
        assert(!token_char(h.name@[i]));
    }
    if header_name(h.name@) {
        assert forall|i: int| 0 <= i < h.name@.len() implies token_char(#[trigger] h.name@[i]) by {}
    }
    if !header_value(h.value@) {
        let i = choose|i: int| 0 <= i < h.value@.len() && !value_char(#[trigger] h.value@[i]);
        assert(!value_char(h.value@[i]));
    }
}

} // verus!
