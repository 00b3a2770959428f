//! Magnet links
use crate::error::SweetMagnetError;
use crate::text::{
    ascii_alphanumeric, chars_of, hex_digit, same_text, starts_with, string_of, text_of, texts,
};
use vstd::prelude::*;
use vstd::slice::slice_subrange;
use vstd::string::*;
use vstd::utf8::encode_utf8;

verus! {

/// The value of a hexadecimal digit.
pub open spec fn hex_value(c: char) -> Option<nat> {
    if '0' <= c <= '9' {
        Some((c as u32 - '0' as u32) as nat)
    } else if 'a' <= c <= 'f' {
        Some((c as u32 - 'a' as u32 + 10) as nat)
    } else if 'A' <= c <= 'F' {
        Some((c as u32 - 'A' as u32 + 10) as nat)
    } else {
        None
    }
}

/// The value of a hexadecimal digit
pub(crate) fn hex_value_of(c: char) -> (r: Option<u8>)
    ensures
        match r {
            Some(n) => n < 16 && hex_value(c) == Some(n as nat),
            None => hex_value(c) is None,
        },
{
    if '0' <= c && c <= '9' {
        Some((c as u32 - 48) as u8)
    } else if 'a' <= c && c <= 'f' {
        Some((c as u32 - 97 + 10) as u8)
    } else if 'A' <= c && c <= 'F' {
        Some((c as u32 - 65 + 10) as u8)
    } else {
        None
    }
}

/// The text with spaces for plus signs.
pub open spec fn spaced(s: Seq<char>) -> Seq<char> {
    s.map_values(
        |c: char|
            if c == '+' {
                ' '
            } else {
                c
            },
    )
}

/// The text with the character of that number for each `%` that two
/// hexadecimal digits follow. Where something else follows, `%` and up to two
/// characters after it are kept.
pub open spec fn unescaped(s: Seq<char>) -> Seq<char>
    decreases s.len(),
{
    if s.len() == 0 {
        Seq::empty()
    } else if s[0] != '%' {
        seq![s[0]] + unescaped(s.skip(1))
    } else if s.len() < 3 {
        s
    } else {
        match (hex_value(s[1]), hex_value(s[2])) {
            (Some(high), Some(low)) => seq![(16 * high + low) as char] + unescaped(s.skip(3)),
            _ => s.take(3) + unescaped(s.skip(3)),
        }
    }
}

/// What a text in a link stands for.
pub open spec fn percent_decoded(s: Seq<char>) -> Seq<char> {
    unescaped(spaced(s))
}

/// Decodes the characters of a text in a link.
fn decode_chars(input: &[char]) -> (output: Vec<char>)
    ensures
        output@ == percent_decoded(input@),
{
    let mut chars: Vec<char> = Vec::new();
    let mut i: usize = 0;
    while i < input.len()
        invariant
            i <= input@.len(),
            chars@ == spaced(input@).take(i as int),
        decreases input@.len() - i,
    {
        let c = if input[i] == '+' {
            ' '
        } else {
            input[i]
        };
        chars.push(c);
        proof {
            assert(spaced(input@).take(i + 1) =~= spaced(input@).take(i as int).push(c));
        }
        i += 1;
    }
    proof {
        assert(chars@ =~= spaced(input@));
        assert(chars@.skip(0) =~= chars@);
    }
    let mut output: Vec<char> = Vec::new();
    let total: usize = chars.len();
    let mut at: usize = 0;
    while at < total
        invariant
            at <= total == chars@.len(),
            output@ + unescaped(chars@.skip(at as int)) == unescaped(chars@),
        decreases total - at,
    {
        let ghost rest = chars@.skip(at as int);
        let ghost before = output@;
        if chars[at] != '%' {
            output.push(chars[at]);
            at += 1;
            proof {
                assert(rest.skip(1) =~= chars@.skip(at as int));
                assert(before + (seq![rest[0]] + unescaped(rest.skip(1))) =~= output@ + unescaped(
                    rest.skip(1),
                ));
            }
        } else if total - at < 3 {
            output.push('%');
            if total - at == 2 {
                output.push(chars[at + 1]);
            }
            proof {
                assert(output@ =~= before + rest);
                assert(chars@.skip(total as int) =~= Seq::empty());
                assert(output@ + unescaped(chars@.skip(total as int)) =~= output@);
            }
            at = total;
        } else {
            match (hex_value_of(chars[at + 1]), hex_value_of(chars[at + 2])) {
                (Some(high), Some(low)) => {
                    let byte: u8 = 16 * high + low;
                    output.push(byte as char);
                },
                _ => {
                    output.push('%');
                    output.push(chars[at + 1]);
                    output.push(chars[at + 2]);
                },
            }
            at += 3;
            proof {
                let head = output@.skip(before.len() as int);
                assert(output@ =~= before + head);
                assert(rest.skip(3) =~= chars@.skip(at as int));
                match (hex_value(rest[1]), hex_value(rest[2])) {
                    (Some(high), Some(low)) => {
                        assert(head =~= seq![(16 * high + low) as char]);
                    },
                    _ => {
                        assert(head =~= rest.take(3));
                    },
                }
                assert(before + (head + unescaped(rest.skip(3))) =~= output@ + unescaped(
                    rest.skip(3),
                ));
            }
        }
    }
    proof {
        assert(chars@.skip(at as int) =~= Seq::empty());
        assert(output@ + unescaped(chars@.skip(at as int)) =~= output@);
    }
    output
}

/// Helper function to decode URL-encoded strings
pub fn percent_decode(input: &str) -> (output: String)
    ensures
        output@ == percent_decoded(input@),
{
    let chars = chars_of(input);
    let decoded = decode_chars(chars.as_slice());
    string_of(decoded.as_slice())
}

/// The place of the first `c`, or the length.
pub open spec fn first_index(s: Seq<char>, c: char) -> int
    decreases s.len(),
{
    if s.len() == 0 {
        0
    } else if s[0] == c {
        0
    } else {
        1 + first_index(s.skip(1), c)
    }
}

/// There is one place that `first_index` can be.
proof fn lemma_first_index(s: Seq<char>, c: char, i: int)
    requires
        0 <= i <= s.len(),
        i < s.len() ==> s[i] == c,
        forall|j: int| 0 <= j < i ==> s[j] != c,
    ensures
        first_index(s, c) == i,
    decreases s.len(),
{
    if s.len() > 0 && i > 0 {
        assert forall|j: int| 0 <= j < i - 1 implies s.skip(1)[j] != c by {
            assert(s[j + 1] != c);
        }
        lemma_first_index(s.skip(1), c, i - 1);
    }
}

/// The place of the first `c` from `from` on, or the length
fn find_char(chars: &[char], c: char, from: usize) -> (r: usize)
    requires
        from <= chars@.len(),
    ensures
        from <= r <= chars@.len(),
        r == from + first_index(chars@.skip(from as int), c),
{
    let mut i: usize = from;
    while i < chars.len()
        invariant
            from <= i <= chars@.len(),
            forall|j: int| from <= j < i ==> chars@[j] != c,
        decreases chars@.len() - i,
    {
        if chars[i] == c {
            proof {
                lemma_first_index(chars@.skip(from as int), c, i - from);
            }
            return i;
        }
        i += 1;
    }
    proof {
        lemma_first_index(chars@.skip(from as int), c, i - from);
    }
    i
}

/// The parts of a text between separators. There is always at least one.
pub open spec fn split(s: Seq<char>, separator: char) -> Seq<Seq<char>>
    decreases s.len(),
{
    let i = first_index(s, separator);
    if 0 <= i < s.len() {
        seq![s.take(i)] + split(s.skip(i + 1), separator)
    } else {
        seq![s]
    }
}

/// The text without the prefix, as often as it occurs at the start.
pub open spec fn without_prefix(s: Seq<char>, prefix: Seq<char>) -> Seq<char>
    decreases s.len(),
{
    if prefix.len() > 0 && prefix.is_prefix_of(s) {
        without_prefix(s.skip(prefix.len() as int), prefix)
    } else {
        s
    }
}

/// Parameters by name
#[derive(Debug, Clone)]
pub struct Params {
    entries: Vec<(String, String)>,
}

/// The value in the last entry with the name.
spec fn lookup(entries: Seq<(String, String)>, name: Seq<char>) -> Option<Seq<char>>
    decreases entries.len(),
{
    if entries.len() == 0 {
        None
    } else if entries.last().0@ == name {
        Some(entries.last().1@)
    } else {
        lookup(entries.drop_last(), name)
    }
}

/// Two entries do not have the same name.
spec fn names_differ(entries: Seq<(String, String)>) -> bool {
    forall|i: int, j: int|
        0 <= i < j < entries.len() ==> #[trigger] entries[i].0@ != #[trigger] entries[j].0@
}

/// Where names differ, each entry is found.
proof fn lemma_lookup(entries: Seq<(String, String)>, i: int)
    requires
        names_differ(entries),
        0 <= i < entries.len(),
    ensures
        lookup(entries, entries[i].0@) == Some(entries[i].1@),
    decreases entries.len(),
{
    if i < entries.len() - 1 {
        let front = entries.drop_last();
        assert(names_differ(front)) by {
            assert forall|a: int, b: int| 0 <= a < b < front.len() implies #[trigger] front[a].0@
                != #[trigger] front[b].0@ by {
                assert(entries[a].0@ != entries[b].0@);
            }
        }
        lemma_lookup(front, i);
        assert(entries[i].0@ != entries[entries.len() - 1].0@);
    }
}

/// A name that no entry has is not found.
proof fn lemma_lookup_none(entries: Seq<(String, String)>, name: Seq<char>)
    requires
        forall|i: int| 0 <= i < entries.len() ==> #[trigger] entries[i].0@ != name,
    ensures
        lookup(entries, name) is None,
    decreases entries.len(),
{
    if entries.len() > 0 {
        let front = entries.drop_last();
        assert forall|i: int| 0 <= i < front.len() implies #[trigger] front[i].0@ != name by {
            assert(entries[i].0@ != name);
        }
        lemma_lookup_none(front, name);
        assert(entries[entries.len() - 1].0@ != name);
    }
}

impl View for Params {
    type V = Map<Seq<char>, Seq<char>>;

    closed spec fn view(&self) -> Map<Seq<char>, Seq<char>> {
        Map::new(
            |name: Seq<char>| lookup(self.entries@, name) is Some,
            |name: Seq<char>| lookup(self.entries@, name)->0,
        )
    }
}

impl Params {
    /// No name occurs twice.
    pub closed spec fn wf(self) -> bool {
        names_differ(self.entries@)
    }

    /// No parameters
    pub fn new() -> (p: Self)
        ensures
            p.wf(),
            p@ == Map::<Seq<char>, Seq<char>>::empty(),
    {
        let p = Params { entries: Vec::new() };
        proof {
            assert(p@ =~= Map::<Seq<char>, Seq<char>>::empty());
        }
        p
    }

    /// How many parameters there are
    pub fn len(&self) -> (n: usize)
        requires
            self.wf(),
        ensures
            self@.dom().finite(),
            n == self@.len(),
    {
        proof {
            lemma_entry_count(self.entries@, self@);
        }
        self.entries.len()
    }

    /// The value of a parameter
    pub fn get(&self, name: &str) -> (r: Option<&String>)
        requires
            self.wf(),
        ensures
            match r {
                Some(value) => self@.contains_key(name@) && self@[name@] == value@,
                None => !self@.contains_key(name@),
            },
    {
        let mut i: usize = 0;
        while i < self.entries.len()
            invariant
                i <= self.entries@.len(),
                self.wf(),
                forall|j: int| 0 <= j < i ==> #[trigger] self.entries@[j].0@ != name@,
            decreases self.entries@.len() - i,
        {
            if same_text(self.entries[i].0.as_str(), name) {
                proof {
                    lemma_lookup(self.entries@, i as int);
                }
                return Some(&self.entries[i].1);
            }
            i += 1;
        }
        proof {
            lemma_lookup_none(self.entries@, name@);
        }
        None
    }

    /// Set a parameter
    pub fn insert(&mut self, name: String, value: String)
        requires
            old(self).wf(),
        ensures
            final(self).wf(),
            final(self)@ == old(self)@.insert(name@, value@),
    {
        let ghost before = self.entries@;
        let mut i: usize = 0;
        while i < self.entries.len()
            invariant
                i <= self.entries@.len(),
                self.entries@ == before,
                before == old(self).entries@,
                names_differ(before),
                forall|j: int| 0 <= j < i ==> #[trigger] before[j].0@ != name@,
            decreases self.entries@.len() - i,
        {
            if same_text(self.entries[i].0.as_str(), name.as_str()) {
                self.entries.set(i, (name, value));
                proof {
                    lemma_set_entry(before, self.entries@, i as int);
                    assert(self@ =~= old(self)@.insert(name@, value@));
                }
                return;
            }
            i += 1;
        }
        self.entries.push((name, value));
        proof {
            let after = self.entries@;
            assert(after.drop_last() =~= before);
            assert(names_differ(after)) by {
                assert forall|a: int, b: int| 0 <= a < b < after.len() implies (
                #[trigger] after[a].0@) != (#[trigger] after[b].0@) by {
                    assert(before[a] == after[a]);
                }
            }
            assert(self@ =~= old(self)@.insert(name@, value@));
        }
    }
}

/// A new value for a name changes what is found for that name alone.
proof fn lemma_set_entry(
    before: Seq<(String, String)>,
    after: Seq<(String, String)>,
    i: int,
)
    requires
        names_differ(before),
        0 <= i < before.len(),
        after == before.update(i, after[i]),
        after[i].0@ == before[i].0@,
    ensures
        names_differ(after),
        forall|name: Seq<char>| #[trigger]
            lookup(after, name) == if name == after[i].0@ {
                Some(after[i].1@)
            } else {
                lookup(before, name)
            },
{
    assert(names_differ(after)) by {
        assert forall|a: int, b: int| 0 <= a < b < after.len() implies #[trigger] after[a].0@
            != #[trigger] after[b].0@ by {
            assert(before[a].0@ != before[b].0@);
        }
    }
    assert forall|name: Seq<char>| #[trigger] lookup(after, name) == if name == after[i].0@ {
        Some(after[i].1@)
    } else {
        lookup(before, name)
    } by {
        if exists|j: int| 0 <= j < after.len() && #[trigger] after[j].0@ == name {
            let j = choose|j: int| 0 <= j < after.len() && #[trigger] after[j].0@ == name;
            lemma_lookup(after, j);
            lemma_lookup(before, j);
        } else {
            assert forall|j: int| 0 <= j < before.len() implies #[trigger] before[j].0@ != name by {
                assert(after[j].0@ != name);
            }
            lemma_lookup_none(after, name);
            lemma_lookup_none(before, name);
            assert(after[i].0@ != name);
        }
    }
}

/// Where names differ, there are as many names as entries.
proof fn lemma_entry_count(
    entries: Seq<(String, String)>,
    found: Map<Seq<char>, Seq<char>>,
)
    requires
        names_differ(entries),
        forall|name: Seq<char>| #[trigger]
            found.contains_key(name) <==> lookup(entries, name) is Some,
    ensures
        found.dom().finite(),
        found.len() == entries.len(),
    decreases entries.len(),
{
    if entries.len() == 0 {
        assert(found.dom() =~= Set::empty());
    } else {
        let front = entries.drop_last();
        let last = entries.last().0@;
        assert(names_differ(front)) by {
            assert forall|a: int, b: int| 0 <= a < b < front.len() implies #[trigger] front[a].0@
                != #[trigger] front[b].0@ by {
                assert(entries[a].0@ != entries[b].0@);
            }
        }
        assert forall|i: int| 0 <= i < front.len() implies #[trigger] front[i].0@ != last by {
            assert(entries[i].0@ != entries[entries.len() - 1].0@);
        }
        lemma_lookup_none(front, last);
        let rest = found.remove(last);
        lemma_entry_count(front, rest);
        assert(found.dom() =~= rest.dom().insert(last));
    }
}

/// Why a text is no magnet link.
#[derive(Debug, Clone, Copy, PartialEq, Eq, Structural)]
pub enum LinkError {
    /// It does not start as one.
    Format,
    /// The info hash does not have forty bytes.
    HashLength,
    /// There is no info hash.
    NoHash,
}

impl LinkError {
    /// What the error says.
    pub open spec fn text(self) -> Seq<char> {
        match self {
            LinkError::Format => "Invalid magnet link format"@,
            LinkError::HashLength => "Invalid info hash length"@,
            LinkError::NoHash => "Missing or invalid info hash"@,
        }
    }

    fn error(self) -> (e: SweetMagnetError)
        ensures
            e matches SweetMagnetError::MagnetParse(s) && s@ == self.text(),
    {
        SweetMagnetError::MagnetParse(
            match self {
                LinkError::Format => "Invalid magnet link format".to_string(),
                LinkError::HashLength => "Invalid info hash length".to_string(),
                LinkError::NoHash => "Missing or invalid info hash".to_string(),
            },
        )
    }
}

/// What is known of a magnet link after some of its parts.
#[verifier::ext_equal]
pub struct Link {
    pub info_hash: Option<Seq<char>>,
    pub display_name: Option<Seq<char>>,
    pub trackers: Seq<Seq<char>>,
    pub params: Map<Seq<char>, Seq<char>>,
}

/// Nothing is known of a magnet link yet.
pub open spec fn no_link() -> Link {
    Link {
        info_hash: None,
        display_name: None,
        trackers: Seq::empty(),
        params: Map::empty(),
    }
}

/// What is known after one more parameter. `None` where it is an info hash of
/// the wrong length.
pub open spec fn link_with(link: Link, name: Seq<char>, value: Seq<char>) -> Option<Link> {
    let params = link.params.insert(name, value);
    if name == "xt"@ {
        if "urn:btih:"@.is_prefix_of(value) {
            let hash = without_prefix(value, "urn:btih:"@);
            if encode_utf8(hash).len() == 40 {
                Some(Link { info_hash: Some(hash), params, ..link })
            } else {
                None
            }
        } else {
            Some(Link { params, ..link })
        }
    } else if name == "dn"@ {
        Some(Link { display_name: Some(value), params, ..link })
    } else if "tr"@.is_prefix_of(name) {
        Some(Link { trackers: link.trackers.push(value), params, ..link })
    } else {
        Some(Link { params, ..link })
    }
}

/// What is known after one more part of the link: a name, `=` and a value. A
/// part without `=` says nothing.
pub open spec fn link_after(link: Link, part: Seq<char>) -> Option<Link> {
    let i = first_index(part, '=');
    if i < part.len() {
        link_with(link, part.take(i), percent_decoded(part.skip(i + 1)))
    } else {
        Some(link)
    }
}

/// What is known after some more parts of the link.
pub open spec fn link_after_all(link: Link, parts: Seq<Seq<char>>) -> Option<Link>
    decreases parts.len(),
{
    if parts.len() == 0 {
        Some(link)
    } else {
        match link_after(link, parts[0]) {
            Some(next) => link_after_all(next, parts.skip(1)),
            None => None,
        }
    }
}

/// What a magnet link says.
pub open spec fn link_of(uri: Seq<char>) -> Result<Link, LinkError> {
    if !"magnet:?"@.is_prefix_of(uri) {
        Err(LinkError::Format)
    } else {
        match link_after_all(no_link(), split(uri.skip(8), '&')) {
            None => Err(LinkError::HashLength),
            Some(link) => if link.info_hash is None {
                Err(LinkError::NoHash)
            } else {
                Ok(link)
            },
        }
    }
}

/// Represents a parsed magnet link with its components
#[derive(Debug, Clone)]
pub struct MagnetLink {
    /// Info hash of the torrent
    pub info_hash: String,
    /// Display name of the content
    pub display_name: Option<String>,
    /// List of tracker URLs
    pub trackers: Vec<String>,
    /// Other parameters in the magnet link
    pub params: Params,
}

impl View for MagnetLink {
    type V = Link;

    open spec fn view(&self) -> Link {
        Link {
            info_hash: Some(self.info_hash@),
            display_name: text_of(self.display_name),
            trackers: texts(self.trackers@),
            params: self.params@,
        }
    }
}

/// A magnet link while it is read.
struct Reading {
    info_hash: Option<String>,
    display_name: Option<String>,
    trackers: Vec<String>,
    params: Params,
}

impl View for Reading {
    type V = Link;

    closed spec fn view(&self) -> Link {
        Link {
            info_hash: text_of(self.info_hash),
            display_name: text_of(self.display_name),
            trackers: texts(self.trackers@),
            params: self.params@,
        }
    }
}

/// The text without the prefix "urn:btih:", as often as it occurs at the
/// start
fn trim_urn(value: &[char]) -> (r: String)
    ensures
        r@ == without_prefix(value@, "urn:btih:"@),
{
    proof {
        reveal_strlit("urn:btih:");
    }
    let mut rest = value;
    while starts_with(rest, "urn:btih:")
        invariant
            "urn:btih:"@.len() == 9,
            without_prefix(rest@, "urn:btih:"@) == without_prefix(value@, "urn:btih:"@),
        decreases rest@.len(),
    {
        let ghost before = rest@;
        rest = slice_subrange(rest, 9, rest.len());
        proof {
            assert(rest@ =~= before.skip(9));
        }
    }
    string_of(rest)
}

impl Reading {
    /// Take one more parameter. Says whether the info hash, if it is one, has
    /// the right length.
    fn take(&mut self, name: &[char], value: &[char]) -> (ok: bool)
        requires
            old(self).params.wf(),
        ensures
            final(self).params.wf(),
            match link_with(old(self)@, name@, value@) {
                Some(link) => ok && final(self)@ == link,
                None => !ok,
            },
    {
        let name = string_of(name);
        let value_text = string_of(value);
        let name_chars = chars_of(name.as_str());
        if same_text(name.as_str(), "xt") {
            if starts_with(value, "urn:btih:") {
                let hash = trim_urn(value);
                if hash.as_str().as_bytes().len() != 40 {
                    return false;
                }
                self.info_hash = Some(hash);
            }
        } else if same_text(name.as_str(), "dn") {
            self.display_name = Some(value_text.clone());
        } else if starts_with(name_chars.as_slice(), "tr") {
            let ghost before = self.trackers@;
            self.trackers.push(value_text.clone());
            proof {
                assert(texts(self.trackers@) =~= texts(before).push(value@));
            }
        }
        self.params.insert(name, value_text);
        true
    }

    /// Take one more part of the link
    fn take_part(&mut self, part: &[char]) -> (ok: bool)
        requires
            old(self).params.wf(),
        ensures
            final(self).params.wf(),
            match link_after(old(self)@, part@) {
                Some(link) => ok && final(self)@ == link,
                None => !ok,
            },
    {
        let i = find_char(part, '=', 0);
        proof {
            assert(part@.skip(0) =~= part@);
        }
        if i < part.len() {
            let name = slice_subrange(part, 0, i);
            let raw = slice_subrange(part, i + 1, part.len());
            let value = decode_chars(raw);
            proof {
                assert(name@ =~= part@.take(i as int));
                assert(raw@ =~= part@.skip(i + 1));
            }
            self.take(name, value.as_slice())
        } else {
            true
        }
    }
}

impl MagnetLink {
    /// Parse a magnet link from a string
    pub fn parse(magnet_uri: &str) -> (r: Result<Self, SweetMagnetError>)
        ensures
            match r {
                Ok(link) => link_of(magnet_uri@) == Ok::<Link, LinkError>(link@)
                    && link.params.wf(),
                Err(SweetMagnetError::MagnetParse(text)) => link_of(magnet_uri@) matches Err(e)
                    && text@ == e.text(),
                Err(_) => false,
            },
    {
        let chars = chars_of(magnet_uri);
        if !starts_with(chars.as_slice(), "magnet:?") {
            return Err(LinkError::Format.error());
        }
        proof {
            reveal_strlit("magnet:?");
        }
        let query = slice_subrange(chars.as_slice(), 8, chars.len());
        let ghost uri = magnet_uri@;
        let ghost parts = split(query@, '&');
        proof {
            assert(query@ =~= uri.skip(8));
            assert(query@.skip(0) =~= query@);
        }
        let mut reading = Reading {
            info_hash: None,
            display_name: None,
            trackers: Vec::new(),
            params: Params::new(),
        };
        proof {
            assert(reading@ == no_link());
        }
        let mut at: usize = 0;
        let mut more = true;
        let total: usize = query.len();
        while more
            invariant
                at <= total == query@.len(),
                reading.params.wf(),
                link_after_all(no_link(), parts) == link_after_all(
                    reading@,
                    if more {
                        split(query@.skip(at as int), '&')
                    } else {
                        Seq::empty()
                    },
                ),
                uri == magnet_uri@,
                "magnet:?"@.is_prefix_of(uri),
                parts == split(uri.skip(8), '&'),
            decreases
                    total - at,
                    if more {
                        1int
                    } else {
                        0int
                    },
        {
            let ghost rest = query@.skip(at as int);
            let end = find_char(query, '&', at);
            let part = slice_subrange(query, at, end);
            proof {
                assert(part@ =~= rest.take(end - at));
                let all = split(rest, '&');
                assert(all[0] == part@);
                if end < total {
                    assert(all.skip(1) =~= split(rest.skip(end - at + 1), '&'));
                    assert(rest.skip(end - at + 1) =~= query@.skip(end + 1));
                } else {
                    assert(all.skip(1) =~= Seq::empty());
                }
            }
            if !reading.take_part(part) {
                return Err(LinkError::HashLength.error());
            }
            if end < total {
                at = end + 1;
            } else {
                more = false;
            }
        }
        match reading.info_hash {
            Some(info_hash) => Ok(
                MagnetLink {
                    info_hash,
                    display_name: reading.display_name,
                    trackers: reading.trackers,
                    params: reading.params,
                },
            ),
            None => Err(LinkError::NoHash.error()),
        }
    }

    /// Get the torrent info hash
    pub fn info_hash(&self) -> (s: &str)
        ensures
            s@ == self.info_hash@,
    {
        self.info_hash.as_str()
    }

    /// What the link is called: its display name, or a default based on the
    /// info hash.
    pub open spec fn called(self) -> Seq<char> {
        match self.display_name {
            Some(name) => name@,
            None => "torrent-"@ + self.info_hash@,
        }
    }

    /// Get the display name or a default based on the info hash
    pub fn name(&self) -> (s: String)
        ensures
            s@ == self.called(),
    {
        match &self.display_name {
            Some(name) => name.clone(),
            None => {
                let mut s = "torrent-".to_string();
                s.append(self.info_hash.as_str());
                s
            },
        }
    }
}

/// A text without `%` and `+` stands for itself.
pub proof fn law_plain_text_stands_for_itself(s: Seq<char>)
    requires
        forall|i: int| 0 <= i < s.len() ==> #[trigger] s[i] != '%' && s[i] != '+',
    ensures
        percent_decoded(s) == s,
{
    assert(spaced(s) =~= s);
    lemma_unescaped_plain(s);
}

proof fn lemma_unescaped_plain(s: Seq<char>)
    requires
        forall|i: int| 0 <= i < s.len() ==> #[trigger] s[i] != '%',
    ensures
        unescaped(s) == s,
    decreases s.len(),
{
    if s.len() > 0 {
        assert forall|i: int| 0 <= i < s.skip(1).len() implies #[trigger] s.skip(1)[i] != '%' by {
            assert(s[i + 1] != '%');
        }
        lemma_unescaped_plain(s.skip(1));
        assert(seq![s[0]] + s.skip(1) =~= s);
    }
}

/// The info hash of every link that is accepted has forty bytes.
pub proof fn law_info_hash_has_forty_bytes(uri: Seq<char>)
    requires
        link_of(uri) is Ok,
    ensures
        link_of(uri)->Ok_0.info_hash is Some,
        encode_utf8(link_of(uri)->Ok_0.info_hash->0).len() == 40,
{
    lemma_hash_length(no_link(), split(uri.skip(8), '&'));
}

proof fn lemma_hash_length(link: Link, parts: Seq<Seq<char>>)
    requires
        link.info_hash matches Some(hash) ==> encode_utf8(hash).len() == 40,
        link_after_all(link, parts) is Some,
    ensures
        link_after_all(link, parts)->0.info_hash matches Some(hash) ==> encode_utf8(hash).len()
            == 40,
    decreases parts.len(),
{
    if parts.len() > 0 {
        let next = link_after(link, parts[0])->0;
        lemma_hash_length(next, parts.skip(1));
    }
}

/// The shortest link with an info hash of forty letters and digits is
/// accepted, and gives just that info hash.
pub proof fn law_short_link_gives_the_info_hash(hash: Seq<char>)
    requires
        hash.len() == 40,
        forall|i: int| 0 <= i < hash.len() ==> ascii_alphanumeric(#[trigger] hash[i]),
    ensures
        link_of("magnet:?xt=urn:btih:"@ + hash) matches Ok(link) && link.info_hash == Some(hash)
            && link.display_name is None && link.trackers == Seq::<Seq<char>>::empty(),
{
    reveal_strlit("magnet:?xt=urn:btih:");
    reveal_strlit("magnet:?");
    reveal_strlit("urn:btih:");
    reveal_strlit("xt");
    let uri = "magnet:?xt=urn:btih:"@ + hash;
    let value = "urn:btih:"@ + hash;
    let query = uri.skip(8);
    assert("magnet:?"@ =~= uri.take(8));
    assert forall|i: int| 0 <= i < query.len() implies #[trigger] query[i] != '&' by {
        if i >= 12 {
            assert(query[i] == hash[i - 12]);
        }
    }
    lemma_first_index(query, '&', query.len() as int);
    assert(split(query, '&') =~= seq![query]);
    assert forall|j: int| 0 <= j < 2 implies query[j] != '=' by {}
    lemma_first_index(query, '=', 2);
    assert(query.take(2) =~= "xt"@);
    assert(query.skip(3) =~= value);
    assert forall|i: int| 0 <= i < value.len() implies #[trigger] value[i] != '%' && value[i]
        != '+' by {
        if i >= 9 {
            assert(value[i] == hash[i - 9]);
        }
    }
    law_plain_text_stands_for_itself(value);
    lemma_hash_value(hash);
    let link = link_after(no_link(), query)->0;
    assert(split(query, '&').skip(1) =~= Seq::empty());
    assert(link_after_all(link, Seq::empty()) == Some(link));
    assert(link_after_all(no_link(), split(query, '&')) == Some(link));
}

/// A character for a link: `%` and two hexadecimal digits where its number is
/// below 256, else the character itself.
pub open spec fn escaped_char(c: char) -> Seq<char> {
    if (c as u32) < 256 {
        seq!['%', hex_digit((c as u32 / 16) as nat), hex_digit((c as u32 % 16) as nat)]
    } else {
        seq![c]
    }
}

/// A text for a link.
pub open spec fn escaped(s: Seq<char>) -> Seq<char>
    decreases s.len(),
{
    if s.len() == 0 {
        Seq::empty()
    } else {
        escaped_char(s[0]) + escaped(s.skip(1))
    }
}

/// The character can stand in the value of a parameter.
pub open spec fn is_safe(c: char) -> bool {
    c != '+' && c != '&'
}

proof fn lemma_escaped_is_safe(s: Seq<char>)
    ensures
        forall|i: int| 0 <= i < escaped(s).len() ==> is_safe(#[trigger] escaped(s)[i]),
    decreases s.len(),
{
    if s.len() > 0 {
        lemma_escaped_is_safe(s.skip(1));
        let head = escaped_char(s[0]);
        let rest = escaped(s.skip(1));
        assert forall|i: int| 0 <= i < head.len() implies is_safe(#[trigger] head[i]) by {}
        assert forall|i: int| 0 <= i < escaped(s).len() implies is_safe(
            #[trigger] escaped(s)[i],
        ) by {
            if i < head.len() {
                assert(escaped(s)[i] == head[i]);
            } else {
                assert(escaped(s)[i] == rest[i - head.len()]);
            }
        }
    }
}

proof fn lemma_unescaped_escaped(s: Seq<char>)
    ensures
        unescaped(escaped(s)) == s,
    decreases s.len(),
{
    if s.len() > 0 {
        lemma_unescaped_escaped(s.skip(1));
        let c = s[0];
        let all = escaped(s);
        let rest = escaped(s.skip(1));
        if (c as u32) < 256 {
            let high = (c as u32 / 16) as nat;
            let low = (c as u32 % 16) as nat;
            assert(all[0] == '%' && all[1] == hex_digit(high) && all[2] == hex_digit(low));
            assert(hex_value(hex_digit(high)) == Some(high));
            assert(hex_value(hex_digit(low)) == Some(low));
            assert(16 * high + low == c as u32);
            vstd::utf8::char_u32_cast(c, c as u32);
            assert((16 * high + low) as char == c);
            assert(all.skip(3) =~= rest);
        } else {
            assert(all[0] == c);
            assert(all.skip(1) =~= rest);
        }
        assert(seq![c] + s.skip(1) =~= s);
    }
}

/// Every text is read back from its form for a link.
pub proof fn law_escaped_text_is_read_back(s: Seq<char>)
    ensures
        percent_decoded(escaped(s)) == s,
{
    lemma_escaped_is_safe(s);
    assert(spaced(escaped(s)) =~= escaped(s)) by {
        assert forall|i: int| 0 <= i < escaped(s).len() implies spaced(escaped(s))[i]
            == escaped(s)[i] by {
            assert(is_safe(escaped(s)[i]));
        }
    }
    lemma_unescaped_escaped(s);
}

/// The parts of a link, with `&` between them.
pub open spec fn with_ampersands(parts: Seq<Seq<char>>) -> Seq<char>
    decreases parts.len(),
{
    if parts.len() == 0 {
        Seq::empty()
    } else if parts.len() == 1 {
        parts[0]
    } else {
        parts[0] + seq!['&'] + with_ampersands(parts.skip(1))
    }
}

proof fn lemma_split_parts(parts: Seq<Seq<char>>)
    requires
        parts.len() > 0,
        forall|i: int, j: int|
            0 <= i < parts.len() && 0 <= j < parts[i].len() ==> #[trigger] parts[i][j] != '&',
    ensures
        split(with_ampersands(parts), '&') == parts,
    decreases parts.len(),
{
    let all = with_ampersands(parts);
    let first = parts[0];
    if parts.len() == 1 {
        assert forall|j: int| 0 <= j < all.len() implies all[j] != '&' by {
            assert(parts[0][j] != '&');
        }
        lemma_first_index(all, '&', all.len() as int);
        assert(split(all, '&') =~= parts);
    } else {
        let rest = parts.skip(1);
        assert forall|i: int, j: int| 0 <= i < rest.len() && 0 <= j < rest[i].len() implies
            #[trigger] rest[i][j] != '&' by {
            assert(parts[i + 1][j] != '&');
        }
        lemma_split_parts(rest);
        assert forall|j: int| 0 <= j < first.len() implies all[j] != '&' by {
            assert(parts[0][j] != '&');
        }
        lemma_first_index(all, '&', first.len() as int);
        assert(all.take(first.len() as int) =~= first);
        assert(all.skip(first.len() as int + 1) =~= with_ampersands(rest));
        assert(split(all, '&') =~= seq![first] + rest);
        assert(seq![first] + rest =~= parts);
    }
}

/// The part of a link for a parameter.
pub open spec fn parameter(name: Seq<char>, value: Seq<char>) -> Seq<char> {
    name + seq!['='] + value
}

/// The parts of a link for some trackers.
pub open spec fn tracker_parts(trackers: Seq<Seq<char>>) -> Seq<Seq<char>> {
    trackers.map_values(|t: Seq<char>| parameter("tr"@, escaped(t)))
}

/// The text of a link with an info hash, a display name and trackers.
pub open spec fn link_text(
    hash: Seq<char>,
    display_name: Seq<char>,
    trackers: Seq<Seq<char>>,
) -> Seq<char> {
    "magnet:?"@ + with_ampersands(
        seq![
            parameter("xt"@, "urn:btih:"@ + hash),
            parameter("dn"@, escaped(display_name)),
        ] + tracker_parts(trackers),
    )
}

/// What a parameter without special characters in its name says.
proof fn lemma_parameter(link: Link, name: Seq<char>, value: Seq<char>)
    requires
        forall|i: int| 0 <= i < name.len() ==> name[i] != '=',
    ensures
        link_after(link, parameter(name, value)) == link_with(link, name, percent_decoded(value)),
{
    let part = parameter(name, value);
    lemma_first_index(part, '=', name.len() as int);
    assert(part.take(name.len() as int) =~= name);
    assert(part.skip(name.len() as int + 1) =~= value);
}

proof fn lemma_tracker_parts(link: Link, trackers: Seq<Seq<char>>)
    ensures
        link_after_all(link, tracker_parts(trackers)) matches Some(l) && l.info_hash
            == link.info_hash && l.display_name == link.display_name && l.trackers
            == link.trackers + trackers,
    decreases trackers.len(),
{
    reveal_strlit("tr");
    reveal_strlit("xt");
    reveal_strlit("dn");
    let parts = tracker_parts(trackers);
    if trackers.len() > 0 {
        let t = trackers[0];
        lemma_parameter(link, "tr"@, escaped(t));
        law_escaped_text_is_read_back(t);
        assert("tr"@[0] != "xt"@[0]);
        assert("tr"@[0] != "dn"@[0]);
        assert("tr"@ =~= "tr"@.take(2));
        let next = link_after(link, parts[0])->0;
        assert(next.trackers == link.trackers.push(t));
        lemma_tracker_parts(next, trackers.skip(1));
        assert(parts.skip(1) =~= tracker_parts(trackers.skip(1)));
        assert(link.trackers.push(t) + trackers.skip(1) =~= link.trackers + trackers);
    } else {
        assert(link.trackers + trackers =~= link.trackers);
    }
}

/// A link gives back the info hash, the display name and the trackers that it
/// was made of, whatever characters are in the name and the trackers.
pub proof fn law_link_gives_its_parts(
    hash: Seq<char>,
    display_name: Seq<char>,
    trackers: Seq<Seq<char>>,
)
    requires
        hash.len() == 40,
        forall|i: int| 0 <= i < hash.len() ==> ascii_alphanumeric(#[trigger] hash[i]),
    ensures
        link_of(link_text(hash, display_name, trackers)) matches Ok(link) && link.info_hash
            == Some(hash) && link.display_name == Some(display_name) && link.trackers == trackers,
{
    reveal_strlit("magnet:?");
    reveal_strlit("urn:btih:");
    reveal_strlit("xt");
    reveal_strlit("dn");
    reveal_strlit("tr");
    let value = "urn:btih:"@ + hash;
    let xt = parameter("xt"@, value);
    let dn = parameter("dn"@, escaped(display_name));
    let tail = tracker_parts(trackers);
    let parts = seq![xt, dn] + tail;
    let uri = link_text(hash, display_name, trackers);
    assert("magnet:?"@ =~= uri.take(8));
    assert(uri.skip(8) =~= with_ampersands(parts));
    assert forall|i: int, j: int| 0 <= i < parts.len() && 0 <= j < parts[i].len() implies
        #[trigger] parts[i][j] != '&' by {
        if i == 0 {
            if j >= 12 {
                assert(parts[i][j] == hash[j - 12]);
            }
        } else if i == 1 {
            lemma_escaped_is_safe(display_name);
            if j >= 3 {
                assert(parts[i][j] == escaped(display_name)[j - 3]);
                assert(is_safe(escaped(display_name)[j - 3]));
            }
        } else {
            let t = trackers[i - 2];
            lemma_escaped_is_safe(t);
            assert(parts[i] == parameter("tr"@, escaped(t)));
            if j >= 3 {
                assert(parts[i][j] == escaped(t)[j - 3]);
                assert(is_safe(escaped(t)[j - 3]));
            }
        }
    }
    lemma_split_parts(parts);

    assert forall|i: int| 0 <= i < value.len() implies #[trigger] value[i] != '%' && value[i]
        != '+' by {
        if i >= 9 {
            assert(value[i] == hash[i - 9]);
        }
    }
    law_plain_text_stands_for_itself(value);
    lemma_parameter(no_link(), "xt"@, value);
    lemma_hash_value(hash);
    let first = link_after(no_link(), xt)->0;
    assert(first.info_hash == Some(hash));
    assert(first.trackers == Seq::<Seq<char>>::empty());

    law_escaped_text_is_read_back(display_name);
    lemma_parameter(first, "dn"@, escaped(display_name));
    assert("dn"@[0] != "xt"@[0]);
    let second = link_after(first, dn)->0;
    assert(second.display_name == Some(display_name));

    lemma_tracker_parts(second, trackers);
    assert(parts.skip(1) =~= seq![dn] + tail);
    assert((seq![dn] + tail).skip(1) =~= tail);
    assert(link_after_all(no_link(), parts) == link_after_all(first, seq![dn] + tail));
    assert(link_after_all(first, seq![dn] + tail) == link_after_all(second, tail));
    assert(Seq::<Seq<char>>::empty() + trackers =~= trackers);
}

/// The info hash in the value of its parameter.
proof fn lemma_hash_value(hash: Seq<char>)
    requires
        hash.len() == 40,
        forall|i: int| 0 <= i < hash.len() ==> ascii_alphanumeric(#[trigger] hash[i]),
    ensures
        "urn:btih:"@.is_prefix_of("urn:btih:"@ + hash),
        without_prefix("urn:btih:"@ + hash, "urn:btih:"@) == hash,
        encode_utf8(hash).len() == 40,
{
    reveal_strlit("urn:btih:");
    let value = "urn:btih:"@ + hash;
    assert("urn:btih:"@ =~= value.take(9));
    assert(value.skip(9) =~= hash);
    assert(!"urn:btih:"@.is_prefix_of(hash)) by {
        assert("urn:btih:"@[3] == ':');
        assert(ascii_alphanumeric(hash[3]));
        if "urn:btih:"@.is_prefix_of(hash) {
            assert(hash.take(9)[3] == ':');
        }
    }
    assert(without_prefix(hash, "urn:btih:"@) == hash);
    assert(without_prefix(value, "urn:btih:"@) == hash);
    assert(vstd::utf8::is_ascii_chars(hash)) by {
        assert forall|i: int| 0 <= i < hash.len() implies '\0' <= #[trigger] hash[i]
            <= '\u{7f}' by {
            assert(ascii_alphanumeric(hash[i]));
        }
    }
    vstd::utf8::is_ascii_chars_encode_utf8(hash);
}

/// The character is a hexadecimal digit, of either case, for the number.
pub open spec fn is_digit_for(c: char, n: int) -> bool {
    ||| 0 <= n < 10 && c as u32 == 48 + n
    ||| 10 <= n < 16 && c as u32 == 65 + (n - 10)
    ||| 10 <= n < 16 && c as u32 == 97 + (n - 10)
}

/// Hexadecimal digits of either case stand for their numbers, and no other
/// character does.
pub proof fn law_hexadecimal_digits(c: char, n: int)
    ensures
        is_digit_for(c, n) ==> hex_value(c) == Some(n as nat),
        (forall|k: int| !#[trigger] is_digit_for(c, k)) ==> hex_value(c) is None,
{
    if hex_value(c) is Some {
        assert(is_digit_for(c, hex_value(c)->0 as int));
    }
}

/// Spaces for plus signs are put character by character.
proof fn lemma_spaced_parts(a: Seq<char>, b: Seq<char>)
    ensures
        spaced(a + b) == spaced(a) + spaced(b),
{
    assert(spaced(a + b) =~= spaced(a) + spaced(b));
}

/// `%` and two hexadecimal digits of either case stand for the character of
/// that number, and what follows stands for what it does on its own.
pub proof fn law_escape_stands_for_its_character(c: char, h: char, l: char, rest: Seq<char>)
    requires
        (c as u32) < 256,
        is_digit_for(h, c as u32 as int / 16),
        is_digit_for(l, c as u32 as int % 16),
    ensures
        percent_decoded(seq!['%', h, l] + rest) == seq![c] + percent_decoded(rest),
{
    let head = seq!['%', h, l];
    let high = (c as u32 / 16) as nat;
    let low = (c as u32 % 16) as nat;
    law_hexadecimal_digits(h, high as int);
    law_hexadecimal_digits(l, low as int);
    lemma_spaced_parts(head, rest);
    assert(spaced(head) =~= head);
    let all = spaced(head + rest);
    assert(all[0] == '%' && all[1] == h && all[2] == l);
    assert(all.skip(3) =~= spaced(rest));
    assert(16 * high + low == c as u32);
    vstd::utf8::char_u32_cast(c, c as u32);
    assert((16 * high + low) as char == c);
}

/// A plus sign stands for a space, and any other character but `%` for itself,
/// wherever it stands before the rest.
pub proof fn law_characters_stand_for_themselves(c: char, rest: Seq<char>)
    requires
        c != '%',
    ensures
        percent_decoded(Seq::empty()) == Seq::<char>::empty(),
        c != '+' ==> percent_decoded(seq![c] + rest) == seq![c] + percent_decoded(rest),
        c == '+' ==> percent_decoded(seq![c] + rest) == seq![' '] + percent_decoded(rest),
{
    assert(spaced(Seq::empty()) =~= Seq::empty());
    lemma_spaced_parts(seq![c], rest);
    let all = spaced(seq![c] + rest);
    assert(all.skip(1) =~= spaced(rest));
}

/// A character with a space for a plus sign.
pub open spec fn plain_char(c: char) -> char {
    if c == '+' {
        ' '
    } else {
        c
    }
}

/// `%` that no two hexadecimal digits follow is kept together with the two
/// characters after it; at the end of a text with what is left.
pub proof fn law_broken_escapes_are_kept(a: char, b: char, rest: Seq<char>)
    requires
        (forall|k: int| !#[trigger] is_digit_for(a, k)) || (forall|k: int|
            !#[trigger] is_digit_for(b, k)),
    ensures
        percent_decoded(seq!['%', a, b] + rest) == seq!['%', plain_char(a), plain_char(b)]
            + percent_decoded(rest),
{
    let head = seq!['%', a, b];
    law_hexadecimal_digits(a, 0);
    law_hexadecimal_digits(b, 0);
    lemma_spaced_parts(head, rest);
    let all = spaced(head + rest);
    assert(spaced(head) =~= seq!['%', plain_char(a), plain_char(b)]);
    assert(all.take(3) =~= spaced(head));
    assert(all.skip(3) =~= spaced(rest));
    assert(hex_value(' ') is None && hex_value('+') is None);
}

/// At the end of a text `%` is kept, alone or with one character.
pub proof fn law_escapes_that_are_cut_off_are_kept(a: char)
    ensures
        percent_decoded(seq!['%']) == seq!['%'],
        percent_decoded(seq!['%', a]) == seq!['%', plain_char(a)],
{
    assert(spaced(seq!['%']) =~= seq!['%']);
    assert(spaced(seq!['%', a]) =~= seq!['%', plain_char(a)]);
}

/// What a parameter says, by its name: `xt` with the prefix of BitTorrent gives
/// the info hash, which must have forty bytes; `dn` gives the display name; a
/// name that starts with `tr` gives one more tracker. The value is decoded, and
/// may itself hold `=`. Every parameter is kept, and nothing else changes.
pub proof fn law_parameters_by_name(link: Link, name: Seq<char>, value: Seq<char>)
    requires
        forall|i: int| 0 <= i < name.len() ==> name[i] != '=',
    ensures
        ({
            let text = percent_decoded(value);
            let after = link_after(link, parameter(name, value));
            let params = link.params.insert(name, text);
            let is_tracker = name.len() >= 2 && name[0] == 't' && name[1] == 'r';
            &&& name == "dn"@ ==> after == Some(Link { display_name: Some(text), params, ..link })
            &&& is_tracker ==> after == Some(
                Link { trackers: link.trackers.push(text), params, ..link },
            )
            &&& name == "xt"@ && !"urn:btih:"@.is_prefix_of(text) ==> after == Some(
                Link { params, ..link },
            )
            &&& name != "xt"@ && name != "dn"@ && !is_tracker ==> after == Some(
                Link { params, ..link },
            )
        }),
{
    reveal_strlit("xt");
    reveal_strlit("dn");
    reveal_strlit("tr");
    lemma_parameter(link, name, value);
    if name.len() >= 2 && name[0] == 't' && name[1] == 'r' {
        assert(name.take(2) =~= "tr"@);
        assert("xt"@[0] == 'x');
        assert("dn"@[0] == 'd');
    } else if "tr"@.is_prefix_of(name) {
        assert(name.take(2)[0] == 't' && name.take(2)[1] == 'r');
    }
}

/// A part without `=` says nothing.
pub proof fn law_part_without_a_value_says_nothing(link: Link, part: Seq<char>)
    requires
        forall|i: int| 0 <= i < part.len() ==> part[i] != '=',
    ensures
        link_after(link, part) == Some(link),
{
    lemma_first_index(part, '=', part.len() as int);
}

/// An info hash is what follows the prefix of BitTorrent, however often the
/// prefix occurs. It is taken where it has forty bytes, and refused otherwise,
/// whatever was known before.
pub proof fn law_info_hash_follows_its_prefix(link: Link, value: Seq<char>, hash: Seq<char>)
    requires
        percent_decoded(value) == "urn:btih:"@ + hash || percent_decoded(value) == "urn:btih:"@
            + "urn:btih:"@ + hash,
        !"urn:btih:"@.is_prefix_of(hash),
    ensures
        encode_utf8(hash).len() == 40 ==> link_after(link, parameter("xt"@, value)) == Some(
            Link {
                info_hash: Some(hash),
                params: link.params.insert("xt"@, percent_decoded(value)),
                ..link
            },
        ),
        encode_utf8(hash).len() != 40 ==> link_after(link, parameter("xt"@, value)) is None,
{
    reveal_strlit("xt");
    reveal_strlit("urn:btih:");
    let prefix = "urn:btih:"@;
    let once = prefix + hash;
    let twice = prefix + prefix + hash;
    lemma_parameter(link, "xt"@, value);
    assert(once.take(9) =~= prefix);
    assert(once.skip(9) =~= hash);
    assert(twice.take(9) =~= prefix);
    assert(twice.skip(9) =~= once);
    assert(without_prefix(hash, prefix) == hash);
    assert(without_prefix(once, prefix) == hash);
    assert(without_prefix(twice, prefix) == hash);
}

/// The prefix is taken off as often as it occurs.
pub proof fn law_prefix_is_taken_off(s: Seq<char>, prefix: Seq<char>)
    requires
        prefix.len() > 0,
    ensures
        without_prefix(prefix + s, prefix) == without_prefix(s, prefix),
        !prefix.is_prefix_of(s) ==> without_prefix(s, prefix) == s,
        !prefix.is_prefix_of(without_prefix(s, prefix)),
    decreases s.len(),
{
    let all = prefix + s;
    assert(all.take(prefix.len() as int) =~= prefix);
    assert(all.skip(prefix.len() as int) =~= s);
    if prefix.is_prefix_of(s) {
        let rest = s.skip(prefix.len() as int);
        law_prefix_is_taken_off(rest, prefix);
    }
}

/// The parts of a link are taken one after the other: what is known after all
/// of them is what is known after the last, on top of what is known after
/// those before it.
pub proof fn law_parts_are_taken_in_order(link: Link, parts: Seq<Seq<char>>, last: Seq<char>)
    ensures
        link_after_all(link, Seq::empty()) == Some(link),
        link_after_all(link, parts.push(last)) == match link_after_all(link, parts) {
            Some(before) => link_after(before, last),
            None => None,
        },
    decreases parts.len(),
{
    let all = parts.push(last);
    if parts.len() == 0 {
        assert(all.skip(1) =~= Seq::empty());
        assert(all[0] == last);
        match link_after(link, last) {
            Some(next) => assert(link_after_all(next, Seq::empty()) == Some(next)),
            None => {},
        }
    } else {
        assert(all[0] == parts[0]);
        assert(all.skip(1) =~= parts.skip(1).push(last));
        match link_after(link, parts[0]) {
            Some(next) => law_parts_are_taken_in_order(next, parts.skip(1), last),
            None => {},
        }
    }
}

/// A link is "magnet:?" and its parts with `&` between them. It is refused
/// where it starts with anything else, where an info hash has the wrong length,
/// and where there is none; else it says what its parts say.
pub proof fn law_link_is_made_of_its_parts(parts: Seq<Seq<char>>, uri: Seq<char>)
    requires
        parts.len() > 0,
        forall|i: int, j: int|
            0 <= i < parts.len() && 0 <= j < parts[i].len() ==> #[trigger] parts[i][j] != '&',
    ensures
        link_of("magnet:?"@ + with_ampersands(parts)) == match link_after_all(
            Link {
                info_hash: None,
                display_name: None,
                trackers: Seq::empty(),
                params: Map::empty(),
            },
            parts,
        ) {
            Some(link) => if link.info_hash is Some {
                Ok::<Link, LinkError>(link)
            } else {
                Err::<Link, LinkError>(LinkError::NoHash)
            },
            None => Err::<Link, LinkError>(LinkError::HashLength),
        },
        !"magnet:?"@.is_prefix_of(uri) ==> link_of(uri) == Err::<Link, LinkError>(
            LinkError::Format,
        ),
{
    reveal_strlit("magnet:?");
    let all = "magnet:?"@ + with_ampersands(parts);
    assert(all.take(8) =~= "magnet:?"@);
    assert(all.skip(8) =~= with_ampersands(parts));
    lemma_split_parts(parts);
}

/// A link with any number of trackers, names and other parameters in any
/// order gives all trackers, in order, and the last display name.
pub proof fn law_trackers_come_in_order(
    link: Link,
    parts: Seq<Seq<char>>,
    name: Seq<char>,
    tracker: Seq<char>,
)
    requires
        link_after_all(link, parts) is Some,
        forall|i: int| 0 <= i < name.len() ==> name[i] != '=',
        name.len() >= 2,
        name[0] == 't',
        name[1] == 'r',
    ensures
        link_after_all(link, parts.push(parameter(name, escaped(tracker)))) matches Some(l)
            && l.trackers == link_after_all(link, parts)->0.trackers.push(tracker),
        link_after_all(link, parts.push(parameter("dn"@, escaped(tracker)))) matches Some(l)
            && l.display_name == Some(tracker),
{
    reveal_strlit("dn");
    law_parts_are_taken_in_order(link, parts, parameter(name, escaped(tracker)));
    law_parts_are_taken_in_order(link, parts, parameter("dn"@, escaped(tracker)));
    law_parameters_by_name(link_after_all(link, parts)->0, name, escaped(tracker));
    law_parameters_by_name(link_after_all(link, parts)->0, "dn"@, escaped(tracker));
    law_escaped_text_is_read_back(tracker);
}

/// What a link shows is what its fields hold, and it is called by its display
/// name, or else by its info hash.
pub proof fn law_link_shows_its_fields(link: MagnetLink)
    ensures
        link@.info_hash == Some(link.info_hash@),
        link.display_name is Some ==> link@.display_name == Some(link.display_name->0@),
        link.display_name is None ==> link@.display_name is None,
        link@.trackers.len() == link.trackers@.len(),
        forall|i: int|
            0 <= i < link.trackers@.len() ==> #[trigger] link@.trackers[i] == link.trackers@[i]@,
        link@.params == link.params@,
        link.display_name is Some ==> link.called() == link.display_name->0@,
        link.display_name is None ==> link.called() == "torrent-"@ + link.info_hash@,
{
}

/// The place of the first such character: there it stands, and not before.
/// Without one it is the length.
pub proof fn law_first_place(s: Seq<char>, c: char)
    ensures
        0 <= first_index(s, c) <= s.len(),
        first_index(s, c) < s.len() ==> s[first_index(s, c)] == c,
        forall|i: int| 0 <= i < first_index(s, c) ==> #[trigger] s[i] != c,
    decreases s.len(),
{
    if s.len() > 0 && s[0] != c {
        let rest = s.skip(1);
        law_first_place(rest, c);
        assert forall|i: int| 0 <= i < first_index(s, c) implies #[trigger] s[i] != c by {
            if i > 0 {
                assert(rest[i - 1] == s[i]);
            }
        }
    }
}

} // verus!
