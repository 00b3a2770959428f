//! Web addresses.
use crate::text::text_of;
use url::Url;
use vstd::prelude::*;
use vstd::string::*;

verus! {

/// What `Url::parse` finds in a text: the scheme, the host if there is one,
/// and the port if one is given that is not the usual one of the scheme.
/// `None` where the text is no address.
pub uninterp spec fn url_parts(url: Seq<char>) -> Option<
    (Seq<char>, Option<Seq<char>>, Option<u16>),
>;

/// The address that comes of adding pairs to the query of an address with
/// `query_pairs_mut` and `extend_pairs`. `None` where the text is no address.
pub uninterp spec fn url_with_query(
    url: Seq<char>,
    pairs: Seq<(Seq<char>, Seq<char>)>,
) -> Option<Seq<char>>;

/// The texts of a list of pairs.
pub open spec fn pair_texts(pairs: Seq<(String, String)>) -> Seq<(Seq<char>, Seq<char>)> {
    pairs.map_values(|p: (String, String)| (p.0@, p.1@))
}

/// Calls `Url::parse`, and `scheme`, `host_str` and `port` on its result.
/// They depend on the text alone.
#[verifier::external_body]
pub(crate) fn parse_url(url: &str) -> (r: Option<(String, Option<String>, Option<u16>)>)
    ensures
        match r {
            Some((scheme, host, port)) => url_parts(url@) == Some(
                (scheme@, text_of(host), port),
            ),
            None => url_parts(url@) is None,
        },
{
    let parsed = Url::parse(url).ok()?;
    let host = parsed.host_str().map(String::from);
    Some((parsed.scheme().to_string(), host, parsed.port()))
}

/// How many bytes the address has that `Url::parse` makes of a text. `None`
/// where the text is no address.
pub uninterp spec fn url_length(url: Seq<char>) -> Option<nat>;

/// Calls `Url::parse`, and `as_str` on its result for the length: it depends
/// on the text alone.
#[verifier::external_body]
pub(crate) fn parsed_length(url: &str) -> (r: Option<usize>)
    ensures
        match r {
            Some(n) => url_length(url@) == Some(n as nat),
            None => url_length(url@) is None,
        },
{
    Some(Url::parse(url).ok()?.as_str().len())
}

/// The longest address that is extended, in bytes. `Url` counts the bytes of an
/// address in 32 bits, and the query that is added has to fit in.
pub const MAX_URL_LENGTH: usize = 0xffff_c000;

/// The longest query that an address is extended by, in characters. A
/// character takes up to twelve bytes.
pub const MAX_QUERY_LENGTH: usize = 1000;

/// The text is no address, or one that leaves room for a query.
pub open spec fn is_extendable(url: Seq<char>) -> bool {
    url_length(url) matches Some(n) ==> n <= MAX_URL_LENGTH
}

/// Tells whether a text is no address, or one that leaves room for a query
pub fn check_url_length(url: &str) -> (r: bool)
    ensures
        r == is_extendable(url@),
{
    match parsed_length(url) {
        Some(n) => n <= MAX_URL_LENGTH,
        None => true,
    }
}

/// How many characters some pairs take in a query: their texts, and `=` and
/// `&` for each.
pub open spec fn query_length(pairs: Seq<(Seq<char>, Seq<char>)>) -> nat
    decreases pairs.len(),
{
    if pairs.len() == 0 {
        0
    } else {
        query_length(pairs.drop_last()) + pairs.last().0.len() + pairs.last().1.len() + 2
    }
}

/// Pairs that are short make a short query.
pub proof fn lemma_query_length(pairs: Seq<(Seq<char>, Seq<char>)>, most: nat)
    requires
        forall|i: int|
            0 <= i < pairs.len() ==> (#[trigger] pairs[i]).0.len() + pairs[i].1.len() <= most,
    ensures
        query_length(pairs) <= pairs.len() * (most + 2),
    decreases pairs.len(),
{
    if pairs.len() > 0 {
        let front = pairs.drop_last();
        assert forall|i: int| 0 <= i < front.len() implies (#[trigger] front[i]).0.len()
            + front[i].1.len() <= most by {
            assert(pairs[i] == front[i]);
        }
        lemma_query_length(front, most);
        assert(pairs[pairs.len() - 1] == pairs.last());
        assert(pairs.len() * (most + 2) == front.len() * (most + 2) + (most + 2))
            by (nonlinear_arith)
            requires
                pairs.len() == front.len() + 1,
        ;
    }
}

/// Calls `Url::parse`, and `query_pairs_mut` and `extend_pairs` on its
/// result. The address that comes out depends on the text and the pairs
/// alone, and there is one where the text is an address. Both are bounded:
/// where the bytes before a query or a fragment do not count in 32 bits, `Url`
/// panics.
#[verifier::external_body]
pub(crate) fn extend_query(url: &str, pairs: &Vec<(String, String)>) -> (r: Option<String>)
    requires
        is_extendable(url@),
        query_length(pair_texts(pairs@)) <= MAX_QUERY_LENGTH,
    ensures
        text_of(r) == url_with_query(url@, pair_texts(pairs@)),
        r is Some <==> url_length(url@) is Some,
{
    let mut parsed = Url::parse(url).ok()?;
    parsed.query_pairs_mut().extend_pairs(pairs);
    Some(parsed.into())
}

/// An address leaves room for a query unless it is about as long as addresses
/// can be: four gigabytes, of which the query takes a few kilobytes.
pub proof fn law_long_addresses_can_be_extended(url: Seq<char>)
    ensures
        url_length(url) is None ==> is_extendable(url),
        url_length(url) is Some && url_length(url)->0 + 16384 <= 0x1_0000_0000 ==> is_extendable(
            url,
        ),
{
}

/// The texts of pairs go together with the pairs, one by one.
pub proof fn law_pairs_are_one_by_one(pairs: Seq<(String, String)>, i: int)
    requires
        0 <= i < pairs.len(),
    ensures
        pair_texts(pairs).len() == pairs.len(),
        pair_texts(pairs)[i] == (pairs[i].0@, pairs[i].1@),
{
}

} // verus!
