//! Where the entries of a dictionary stand in bencoded data, and whether a key
//! occurs twice among them.
use crate::bencode::{
    find_integer_end, find_string_end, integer_end, is_shallow, lemma_integer_end,
    lemma_string_end, nested_from, string_end, MAX_DEPTH,
};
use crate::wire::same_bytes;
use vstd::prelude::*;
use vstd::utf8::encode_utf8;

verus! {

/// Where a value ends of which `open` lists and dictionaries are open at `at`.
pub open spec fn end_from(data: Seq<u8>, at: nat, open: nat) -> nat
    decreases data.len() - at,
    via end_from_decreases
{
    if at >= data.len() {
        data.len()
    } else if data[at as int] == 105 {
        let end = integer_end(data, at + 1);
        if open == 0 {
            end
        } else {
            end_from(data, end, open)
        }
    } else if data[at as int] == 108 || data[at as int] == 100 {
        end_from(data, at + 1, open + 1)
    } else if data[at as int] == 101 {
        if open <= 1 {
            at + 1
        } else {
            end_from(data, at + 1, (open - 1) as nat)
        }
    } else if 48 <= data[at as int] <= 57 {
        match string_end(data, at + 1, (data[at as int] - 48) as nat) {
            Some(end) => if open == 0 {
                end
            } else {
                end_from(data, end, open)
            },
            None => data.len(),
        }
    } else {
        data.len()
    }
}

#[via_fn]
proof fn end_from_decreases(data: Seq<u8>, at: nat, open: nat) {
    if at < data.len() {
        lemma_integer_end(data, at + 1);
        lemma_string_end(data, at + 1, (data[at as int] - 48) as nat);
    }
}

/// Where the value at `at` ends.
pub open spec fn value_end(data: Seq<u8>, at: nat) -> nat {
    end_from(data, at, 0)
}

/// A value ends after its first byte, in the data.
pub proof fn lemma_end_from(data: Seq<u8>, at: nat, open: nat)
    requires
        at <= data.len(),
    ensures
        at <= end_from(data, at, open) <= data.len(),
        at < data.len() ==> at < end_from(data, at, open),
    decreases data.len() - at,
{
    if at < data.len() {
        lemma_integer_end(data, at + 1);
        lemma_string_end(data, at + 1, (data[at as int] - 48) as nat);
        if data[at as int] == 105 {
            lemma_end_from(data, integer_end(data, at + 1), open);
        } else if data[at as int] == 108 || data[at as int] == 100 {
            lemma_end_from(data, at + 1, open + 1);
        } else if data[at as int] == 101 {
            if open > 1 {
                lemma_end_from(data, at + 1, (open - 1) as nat);
            }
        } else if 48 <= data[at as int] <= 57 {
            match string_end(data, at + 1, (data[at as int] - 48) as nat) {
                Some(end) => lemma_end_from(data, end, open),
                None => {},
            }
        }
    }
}

/// The place after the next colon.
pub open spec fn after_colon(data: Seq<u8>, at: nat) -> nat
    decreases data.len() - at,
{
    if at >= data.len() {
        data.len()
    } else if data[at as int] == 58 {
        at + 1
    } else {
        after_colon(data, at + 1)
    }
}

/// The byte string at `at`, and where it ends. `None` where there is none.
pub open spec fn string_at(data: Seq<u8>, at: nat) -> Option<(Seq<u8>, nat)> {
    if at < data.len() && 48 <= data[at as int] <= 57 {
        match string_end(data, at + 1, (data[at as int] - 48) as nat) {
            Some(end) => Some((data.subrange(after_colon(data, at) as int, end as int), end)),
            None => None,
        }
    } else {
        None
    }
}

/// The bytes of a byte string stand between the colon and its end.
proof fn lemma_after_colon(data: Seq<u8>, at: nat, n: nat)
    requires
        string_end(data, at, n) is Some,
    ensures
        at < after_colon(data, at) <= string_end(data, at, n)->0,
        data[after_colon(data, at) - 1] == 58,
    decreases data.len() - at,
{
    if at < data.len() && 48 <= data[at as int] <= 57 {
        lemma_after_colon(data, at + 1, n * 10 + (data[at as int] - 48) as nat);
    }
}

/// A byte string ends in the data.
proof fn lemma_string_at(data: Seq<u8>, at: nat)
    ensures
        string_at(data, at) matches Some((_, end)) ==> at < after_colon(data, at) <= end
            <= data.len() && data[after_colon(data, at) - 1] == 58,
{
    if string_at(data, at) is Some {
        let first = (data[at as int] - 48) as nat;
        lemma_after_colon(data, at + 1, first);
        lemma_string_end(data, at + 1, first);
        assert(after_colon(data, at) == after_colon(data, at + 1));
    }
}

/// Where the value under a key stands, among the entries of a dictionary from
/// `at` on. `None` where the key does not occur.
pub open spec fn field_at(data: Seq<u8>, at: nat, key: Seq<u8>) -> Option<nat>
    decreases data.len() - at,
    via field_at_decreases
{
    match string_at(data, at) {
        Some((found, end)) => if found == key {
            Some(end)
        } else {
            field_at(data, value_end(data, end), key)
        },
        None => None,
    }
}

#[via_fn]
proof fn field_at_decreases(data: Seq<u8>, at: nat, key: Seq<u8>) {
    lemma_string_at(data, at);
    if let Some((_, end)) = string_at(data, at) {
        lemma_end_from(data, end, 0);
    }
}

/// The value under a key stands in the data.
proof fn lemma_field_at(data: Seq<u8>, at: nat, key: Seq<u8>)
    ensures
        field_at(data, at, key) matches Some(place) ==> at < place <= data.len(),
    decreases data.len() - at,
{
    lemma_string_at(data, at);
    if let Some((found, end)) = string_at(data, at) {
        lemma_end_from(data, end, 0);
        if found != key {
            lemma_field_at(data, value_end(data, end), key);
        }
    }
}

/// A key occurs twice among the entries of a dictionary from `at` on.
pub open spec fn is_repeated(data: Seq<u8>, at: nat, key: Seq<char>) -> bool {
    match field_at(data, at, encode_utf8(key)) {
        Some(place) => field_at(data, value_end(data, place), encode_utf8(key)) is Some,
        None => false,
    }
}

/// Up to the end of a dictionary, every key from `at` on is a byte string.
pub open spec fn has_string_keys(data: Seq<u8>, at: nat) -> bool
    decreases data.len() - at,
    via has_string_keys_decreases
{
    match string_at(data, at) {
        Some((_, end)) => has_string_keys(data, value_end(data, end)),
        None => at < data.len() && data[at as int] == 101,
    }
}

#[via_fn]
proof fn has_string_keys_decreases(data: Seq<u8>, at: nat) {
    lemma_string_at(data, at);
    if let Some((_, end)) = string_at(data, at) {
        lemma_end_from(data, end, 0);
    }
}

/// Where an item of a list stands, `i` items after the one at `at`.
pub open spec fn item_at(data: Seq<u8>, at: nat, i: nat) -> nat
    decreases i,
{
    if i == 0 {
        at
    } else {
        item_at(data, value_end(data, at), (i - 1) as nat)
    }
}

/// Finds where a value ends.
pub(crate) fn find_value_end(data: &[u8], from: usize) -> (end: usize)
    requires
        from <= data@.len(),
    ensures
        end == value_end(data@, from as nat),
        from <= end <= data@.len(),
{
    let mut at: usize = from;
    let mut open: usize = 0;
    proof {
        lemma_end_from(data@, from as nat, 0);
    }
    while at < data.len()
        invariant
            from <= at <= data@.len(),
            open <= at,
            value_end(data@, from as nat) == end_from(data@, at as nat, open as nat),
            from <= value_end(data@, from as nat) <= data@.len(),
        decreases data@.len() - at,
    {
        let byte: u8 = data[at];
        let total: usize = data.len();
        if byte == 105 {
            proof {
                lemma_integer_end(data@, (at + 1) as nat);
            }
            at = find_integer_end(data, at + 1);
            if open == 0 {
                return at;
            }
        } else if byte == 108 || byte == 100 {
            open += 1;
            at += 1;
        } else if byte == 101 {
            at += 1;
            if open <= 1 {
                return at;
            }
            open -= 1;
        } else if 48 <= byte && byte <= 57 {
            proof {
                lemma_string_end(data@, (at + 1) as nat, (byte - 48) as nat);
            }
            match find_string_end(data, at + 1, byte - 48) {
                Some(end) => {
                    at = end;
                    if open == 0 {
                        return at;
                    }
                },
                None => return total,
            }
        } else {
            return total;
        }
    }
    at
}

/// Finds where an item of a list stands.
pub(crate) fn find_item(data: &[u8], from: usize, i: usize) -> (place: usize)
    requires
        from <= data@.len(),
    ensures
        place == item_at(data@, from as nat, i as nat),
        place <= data@.len(),
{
    let mut at: usize = from;
    let mut left: usize = i;
    while left > 0
        invariant
            at <= data@.len(),
            item_at(data@, from as nat, i as nat) == item_at(data@, at as nat, left as nat),
        decreases left,
    {
        at = find_value_end(data, at);
        left -= 1;
    }
    at
}

/// Finds the byte string at `at`: where its bytes start, and where they end.
fn find_string(data: &[u8], at: usize) -> (r: Option<(usize, usize)>)
    requires
        at <= data@.len(),
    ensures
        match r {
            Some((start, end)) => {
                &&& string_at(data@, at as nat) == Some(
                    (data@.subrange(start as int, end as int), end as nat),
                )
                &&& at < start <= end <= data@.len()
            },
            None => string_at(data@, at as nat) is None,
        },
{
    if at >= data.len() || !(48 <= data[at] && data[at] <= 57) {
        return None;
    }
    let end = match find_string_end(data, at + 1, data[at] - 48) {
        Some(end) => end,
        None => return None,
    };
    proof {
        lemma_string_at(data@, at as nat);
    }
    let mut start: usize = at;
    while data[start] != 58
        invariant
            at <= start < data@.len(),
            after_colon(data@, at as nat) == after_colon(data@, start as nat),
            start < after_colon(data@, at as nat) <= end <= data@.len(),
            data@[after_colon(data@, at as nat) - 1] == 58,
        decreases data@.len() - start,
    {
        proof {
            assert(after_colon(data@, start as nat) == after_colon(data@, (start + 1) as nat));
        }
        start += 1;
    }
    Some((start + 1, end))
}

/// Finds where the value under a key stands.
pub(crate) fn find_field(data: &[u8], from: usize, key: &str) -> (r: Option<usize>)
    requires
        from <= data@.len(),
    ensures
        match r {
            Some(place) => field_at(data@, from as nat, encode_utf8(key@)) == Some(place as nat)
                && from < place <= data@.len(),
            None => field_at(data@, from as nat, encode_utf8(key@)) is None,
        },
{
    let mut at: usize = from;
    let name = key.as_bytes();
    loop
        invariant
            from <= at <= data@.len(),
            name@ == encode_utf8(key@),
            field_at(data@, from as nat, name@) == field_at(data@, at as nat, name@),
        decreases data@.len() - at,
    {
        match find_string(data, at) {
            Some((start, end)) => {
                let found = vstd::slice::slice_subrange(data, start, end);
                if same_bytes(found, name) {
                    return Some(end);
                }
                at = find_value_end(data, end);
            },
            None => return None,
        }
    }
}

/// Tells whether a key occurs twice among the entries from `at` on.
pub(crate) fn check_repeated(data: &[u8], at: usize, key: &str) -> (r: bool)
    requires
        at <= data@.len(),
    ensures
        r == is_repeated(data@, at as nat, key@),
{
    match find_field(data, at, key) {
        Some(place) => {
            let next = find_value_end(data, place);
            find_field(data, next, key).is_some()
        },
        None => false,
    }
}

/// Tells whether every key from `at` on is a byte string.
pub(crate) fn check_string_keys(data: &[u8], from: usize) -> (r: bool)
    requires
        from <= data@.len(),
    ensures
        r == has_string_keys(data@, from as nat),
{
    let mut at: usize = from;
    loop
        invariant
            from <= at <= data@.len(),
            has_string_keys(data@, from as nat) == has_string_keys(data@, at as nat),
        decreases data@.len() - at,
    {
        match find_string(data, at) {
            Some((_, end)) => {
                at = find_value_end(data, end);
            },
            None => return at < data.len() && data[at] == 101,
        }
    }
}

/// A value as it is written: an integer by what stands between its marks, a
/// byte string, a list, or a dictionary in which a key may occur again.
pub enum Raw {
    Int(Seq<u8>),
    Str(Seq<u8>),
    List(Seq<Raw>),
    Dict(Seq<(Seq<u8>, Raw)>),
}

/// The decimal digits of a number.
pub open spec fn digit_bytes(n: nat) -> Seq<u8>
    decreases n,
{
    if n < 10 {
        seq![(48 + n) as u8]
    } else {
        digit_bytes(n / 10).push((48 + n % 10) as u8)
    }
}

/// The bytes of a byte string: its length, a colon, and the string.
pub open spec fn string_bytes(s: Seq<u8>) -> Seq<u8> {
    digit_bytes(s.len()) + seq![58u8] + s
}

/// The bytes of a value.
pub open spec fn raw_bytes(r: Raw) -> Seq<u8>
    decreases r,
{
    match r {
        Raw::Int(digits) => seq![105u8] + digits + seq![101u8],
        Raw::Str(s) => string_bytes(s),
        Raw::List(l) => seq![108u8] + list_bytes(l) + seq![101u8],
        Raw::Dict(d) => seq![100u8] + entry_bytes(d) + seq![101u8],
    }
}

/// The bytes of the items of a list.
pub open spec fn list_bytes(l: Seq<Raw>) -> Seq<u8>
    decreases l,
{
    if l.len() == 0 {
        Seq::empty()
    } else {
        list_bytes(l.drop_last()) + raw_bytes(l.last())
    }
}

/// The bytes of the entries of a dictionary.
pub open spec fn entry_bytes(d: Seq<(Seq<u8>, Raw)>) -> Seq<u8>
    decreases d,
{
    if d.len() == 0 {
        Seq::empty()
    } else {
        entry_bytes(d.drop_last()) + (string_bytes(d.last().0) + raw_bytes(d.last().1))
    }
}

/// No integer in the value has the mark of its end in it.
pub open spec fn is_plain(r: Raw) -> bool
    decreases r,
{
    match r {
        Raw::Int(digits) => forall|i: int| 0 <= i < digits.len() ==> digits[i] != 101,
        Raw::Str(_) => true,
        Raw::List(l) => forall|i: int| 0 <= i < l.len() ==> is_plain(#[trigger] l[i]),
        Raw::Dict(d) => forall|i: int| 0 <= i < d.len() ==> is_plain((#[trigger] d[i]).1),
    }
}

/// The bytes stand in the data at `at`.
pub open spec fn stands_at(data: Seq<u8>, at: nat, bytes: Seq<u8>) -> bool {
    &&& at + bytes.len() <= data.len()
    &&& forall|i: int| 0 <= i < bytes.len() ==> data[at + i] == #[trigger] bytes[i]
}

/// The first of the bytes that stand in the data.
proof fn lemma_first_byte(data: Seq<u8>, at: nat, bytes: Seq<u8>)
    requires
        stands_at(data, at, bytes),
        bytes.len() > 0,
    ensures
        data[at as int] == bytes[0],
{
}

/// The parts of bytes stand where the bytes do.
proof fn lemma_parts_stand(data: Seq<u8>, at: nat, a: Seq<u8>, b: Seq<u8>)
    requires
        stands_at(data, at, a + b),
    ensures
        stands_at(data, at, a),
        stands_at(data, at + a.len(), b),
{
    assert forall|i: int| 0 <= i < a.len() implies data[at + i] == #[trigger] a[i] by {
        assert((a + b)[i] == a[i]);
    }
    assert forall|i: int| 0 <= i < b.len() implies data[at + a.len() + i] == #[trigger] b[i] by {
        assert((a + b)[a.len() + i] == b[i]);
    }
}

/// Digits are read as their number.
proof fn lemma_digits(data: Seq<u8>, at: nat, m: nat)
    requires
        stands_at(data, at, digit_bytes(m)),
    ensures
        digit_bytes(m).len() > 0,
        string_end(data, at, 0) == string_end(data, at + digit_bytes(m).len(), m),
        after_colon(data, at) == after_colon(data, at + digit_bytes(m).len()),
        48 <= data[at as int] <= 57,
    decreases m,
{
    let digits = digit_bytes(m);
    if m < 10 {
        lemma_first_byte(data, at, digits);
    } else {
        let front = digit_bytes(m / 10);
        let last = (48 + m % 10) as u8;
        assert(digits =~= front + seq![last]);
        lemma_parts_stand(data, at, front, seq![last]);
        lemma_digits(data, at, m / 10);
        let place = at + front.len();
        lemma_first_byte(data, place, seq![last]);
    }
}

/// A byte string is found where it stands.
proof fn lemma_string_stands(data: Seq<u8>, at: nat, s: Seq<u8>)
    requires
        stands_at(data, at, string_bytes(s)),
    ensures
        string_at(data, at) == Some((s, at + string_bytes(s).len())),
{
    let digits = digit_bytes(s.len());
    assert(string_bytes(s) =~= digits + (seq![58u8] + s));
    lemma_parts_stand(data, at, digits, seq![58u8] + s);
    lemma_digits(data, at, s.len());
    let place = at + digits.len();
    lemma_parts_stand(data, place, seq![58u8], s);
    lemma_first_byte(data, place, seq![58u8]);
    let first = (data[at as int] - 48) as nat;
    assert(string_end(data, at, 0) == string_end(data, at + 1, first));
    assert(string_end(data, place, s.len()) == Some(place + 1 + s.len()));
    assert(after_colon(data, place) == place + 1);
}

/// An integer is found where it stands.
proof fn lemma_integer_stands(data: Seq<u8>, at: nat, digits: Seq<u8>)
    requires
        stands_at(data, at, digits + seq![101u8]),
        forall|i: int| 0 <= i < digits.len() ==> digits[i] != 101,
    ensures
        integer_end(data, at) == at + digits.len() + 1,
    decreases digits.len(),
{
    let all = digits + seq![101u8];
    lemma_first_byte(data, at, all);
    if digits.len() > 0 {
        assert(all[0] == digits[0]);
        let rest = digits.skip(1);
        assert(all =~= seq![digits[0]] + (rest + seq![101u8]));
        lemma_parts_stand(data, at, seq![digits[0]], rest + seq![101u8]);
        lemma_integer_stands(data, at + 1, rest);
    }
}

/// A value ends where it does.
proof fn lemma_value_stands(data: Seq<u8>, at: nat, open: nat, r: Raw)
    requires
        stands_at(data, at, raw_bytes(r)),
        is_plain(r),
    ensures
        raw_bytes(r).len() > 0,
        open == 0 ==> end_from(data, at, open) == at + raw_bytes(r).len(),
        open > 0 ==> end_from(data, at, open) == end_from(data, at + raw_bytes(r).len(), open),
    decreases r,
{
    let bytes = raw_bytes(r);
    match r {
        Raw::Int(digits) => {
            assert(bytes =~= seq![105u8] + (digits + seq![101u8]));
            lemma_parts_stand(data, at, seq![105u8], digits + seq![101u8]);
            lemma_first_byte(data, at, seq![105u8]);
            lemma_integer_stands(data, at + 1, digits);
        },
        Raw::Str(s) => {
            lemma_string_stands(data, at, s);
        },
        Raw::List(l) => {
            let items = list_bytes(l);
            assert(bytes =~= seq![108u8] + (items + seq![101u8]));
            lemma_parts_stand(data, at, seq![108u8], items + seq![101u8]);
            lemma_parts_stand(data, at + 1, items, seq![101u8]);
            lemma_first_byte(data, at, seq![108u8]);
            let end = at + 1 + items.len();
            lemma_first_byte(data, end, seq![101u8]);
            lemma_items_stand(data, at + 1, open + 1, l);
        },
        Raw::Dict(d) => {
            let entries = entry_bytes(d);
            assert(bytes =~= seq![100u8] + (entries + seq![101u8]));
            lemma_parts_stand(data, at, seq![100u8], entries + seq![101u8]);
            lemma_parts_stand(data, at + 1, entries, seq![101u8]);
            lemma_first_byte(data, at, seq![100u8]);
            let end = at + 1 + entries.len();
            lemma_first_byte(data, end, seq![101u8]);
            lemma_entries_stand(data, at + 1, open + 1, d);
        },
    }
}

/// The items of a list are passed one by one.
proof fn lemma_items_stand(data: Seq<u8>, at: nat, open: nat, l: Seq<Raw>)
    requires
        stands_at(data, at, list_bytes(l)),
        open > 0,
        forall|i: int| 0 <= i < l.len() ==> is_plain(#[trigger] l[i]),
    ensures
        end_from(data, at, open) == end_from(data, at + list_bytes(l).len(), open),
    decreases l,
{
    if l.len() > 0 {
        let front = l.drop_last();
        assert(l[l.len() - 1] == l.last());
        lemma_parts_stand(data, at, list_bytes(front), raw_bytes(l.last()));
        assert forall|i: int| 0 <= i < front.len() implies is_plain(#[trigger] front[i]) by {
            assert(l[i] == front[i]);
        }
        lemma_items_stand(data, at, open, front);
        lemma_value_stands(data, at + list_bytes(front).len(), open, l.last());
    }
}

/// The entries of a dictionary are passed one by one.
proof fn lemma_entries_stand(data: Seq<u8>, at: nat, open: nat, d: Seq<(Seq<u8>, Raw)>)
    requires
        stands_at(data, at, entry_bytes(d)),
        open > 0,
        forall|i: int| 0 <= i < d.len() ==> is_plain((#[trigger] d[i]).1),
    ensures
        end_from(data, at, open) == end_from(data, at + entry_bytes(d).len(), open),
    decreases d,
{
    if d.len() > 0 {
        let front = d.drop_last();
        assert(d[d.len() - 1] == d.last());
        let key = string_bytes(d.last().0);
        let value = raw_bytes(d.last().1);
        lemma_parts_stand(data, at, entry_bytes(front), key + value);
        let place = at + entry_bytes(front).len();
        lemma_parts_stand(data, place, key, value);
        assert forall|i: int| 0 <= i < front.len() implies is_plain((#[trigger] front[i]).1) by {
            assert(d[i] == front[i]);
        }
        lemma_entries_stand(data, at, open, front);
        lemma_string_stands(data, place, d.last().0);
        lemma_value_stands(data, place + key.len(), open, d.last().1);
    }
}

/// A value ends behind its bytes, whatever stands before and behind it.
pub proof fn law_values_end_behind_their_bytes(before: Seq<u8>, r: Raw, behind: Seq<u8>)
    requires
        is_plain(r),
    ensures
        value_end(before + raw_bytes(r) + behind, before.len()) == before.len() + raw_bytes(
            r,
        ).len(),
{
    let data = before + raw_bytes(r) + behind;
    assert(stands_at(data, before.len(), raw_bytes(r)));
    lemma_value_stands(data, before.len(), 0, r);
}

/// Where an entry of a dictionary starts.
pub open spec fn entry_start(at: nat, d: Seq<(Seq<u8>, Raw)>, i: int) -> nat {
    at + entry_bytes(d.take(i)).len()
}

/// An entry stands behind those before it.
proof fn lemma_entry_stands(data: Seq<u8>, at: nat, d: Seq<(Seq<u8>, Raw)>, i: int)
    requires
        stands_at(data, at, entry_bytes(d)),
        0 <= i < d.len(),
        forall|k: int| 0 <= k < d.len() ==> is_plain((#[trigger] d[k]).1),
    ensures
        string_at(data, entry_start(at, d, i)) == Some(
            (d[i].0, entry_start(at, d, i) + string_bytes(d[i].0).len()),
        ),
        value_end(data, entry_start(at, d, i) + string_bytes(d[i].0).len()) == entry_start(
            at,
            d,
            i + 1,
        ),
    decreases d.len(),
{
    let front = d.drop_last();
    let key = string_bytes(d.last().0);
    let value = raw_bytes(d.last().1);
    lemma_parts_stand(data, at, entry_bytes(front), key + value);
    assert(d[d.len() - 1] == d.last());
    if i == d.len() - 1 {
        let place = at + entry_bytes(front).len();
        assert(d.take(i) =~= front);
        assert(d.take(i + 1) =~= d);
        lemma_parts_stand(data, place, key, value);
        lemma_string_stands(data, place, d.last().0);
        lemma_value_stands(data, place + key.len(), 0, d.last().1);
    } else {
        assert forall|k: int| 0 <= k < front.len() implies is_plain((#[trigger] front[k]).1) by {
            assert(d[k] == front[k]);
        }
        assert(front.take(i) =~= d.take(i));
        assert(front.take(i + 1) =~= d.take(i + 1));
        lemma_entry_stands(data, at, front, i);
    }
}

/// The key is the first of its kind from `from` on.
pub open spec fn is_first_with(d: Seq<(Seq<u8>, Raw)>, key: Seq<u8>, from: int, i: int) -> bool {
    &&& from <= i < d.len()
    &&& d[i].0 == key
    &&& forall|j: int| from <= j < i ==> (#[trigger] d[j]).0 != key
}

/// A key is found at its first entry.
proof fn lemma_field_is_found(data: Seq<u8>, at: nat, d: Seq<(Seq<u8>, Raw)>, key: Seq<u8>, from: int)
    requires
        stands_at(data, at, entry_bytes(d)),
        at + entry_bytes(d).len() < data.len(),
        data[(at + entry_bytes(d).len()) as int] == 101,
        0 <= from <= d.len(),
        forall|k: int| 0 <= k < d.len() ==> is_plain((#[trigger] d[k]).1),
    ensures
        forall|i: int| #[trigger]
            is_first_with(d, key, from, i) ==> field_at(data, entry_start(at, d, from), key)
                == Some(entry_start(at, d, i) + string_bytes(key).len()),
        (forall|j: int| from <= j < d.len() ==> (#[trigger] d[j]).0 != key) ==> field_at(
            data,
            entry_start(at, d, from),
            key,
        ) is None,
        has_string_keys(data, entry_start(at, d, from)),
    decreases d.len() - from,
{
    if from < d.len() {
        lemma_entry_stands(data, at, d, from);
        lemma_field_is_found(data, at, d, key, from + 1);
        if d[from].0 != key {
            assert forall|i: int| #[trigger] is_first_with(d, key, from, i) implies field_at(
                data,
                entry_start(at, d, from),
                key,
            ) == Some(entry_start(at, d, i) + string_bytes(key).len()) by {
                assert(is_first_with(d, key, from + 1, i));
            }
        } else {
            assert forall|i: int| #[trigger] is_first_with(d, key, from, i) implies i == from by {
                if i > from {
                    assert(d[from].0 != key);
                }
            }
        }
    } else {
        assert(d.take(from) =~= d);
    }
}

/// Two entries have the key.
pub open spec fn is_twice(d: Seq<(Seq<u8>, Raw)>, key: Seq<char>) -> bool {
    exists|i: int, j: int|
        0 <= i < j < d.len() && (#[trigger] d[i]).0 == encode_utf8(key) && (#[trigger] d[j]).0
            == encode_utf8(key)
}

/// In a dictionary as it is written, wherever it stands, a key counts as
/// repeated just where two entries have it; and all of its keys are byte
/// strings.
pub proof fn lemma_repeated_keys(data: Seq<u8>, at: nat, d: Seq<(Seq<u8>, Raw)>, key: Seq<char>)
    requires
        stands_at(data, at, entry_bytes(d)),
        at + entry_bytes(d).len() < data.len(),
        data[(at + entry_bytes(d).len()) as int] == 101,
        forall|k: int| 0 <= k < d.len() ==> is_plain((#[trigger] d[k]).1),
    ensures
        is_repeated(data, at, key) <==> is_twice(d, key),
        has_string_keys(data, at),
{
    let name = encode_utf8(key);
    assert(d.take(0) =~= Seq::empty());
    assert(entry_start(at, d, 0) == at);
    lemma_field_is_found(data, at, d, name, 0);
    if exists|i: int| 0 <= i < d.len() && (#[trigger] d[i]).0 == name {
        let any = choose|i: int| 0 <= i < d.len() && (#[trigger] d[i]).0 == name;
        let i = lemma_first_with(d, name, 0, any);
        assert(is_first_with(d, name, 0, i));
        lemma_entry_stands(data, at, d, i);
        lemma_field_is_found(data, at, d, name, i + 1);
        if exists|j: int| i < j < d.len() && (#[trigger] d[j]).0 == name {
            let other = choose|j: int| i < j < d.len() && (#[trigger] d[j]).0 == name;
            let j = lemma_first_with(d, name, i + 1, other);
            assert(is_first_with(d, name, i + 1, j));
            assert(d[i].0 == name && d[j].0 == name);
        } else if is_twice(d, key) {
            let (a, b) = choose|a: int, b: int|
                0 <= a < b < d.len() && (#[trigger] d[a]).0 == name && (#[trigger] d[b]).0 == name;
            if a < i {
                assert(d[a].0 != name);
            }
            assert(d[b].0 == name);
        }
    }
}

/// In a dictionary as it is written, whatever stands behind it, a key counts as
/// repeated just where two entries have it; and all of its keys are byte
/// strings.
pub proof fn law_repeated_keys_are_found(
    d: Seq<(Seq<u8>, Raw)>,
    behind: Seq<u8>,
    key: Seq<char>,
)
    requires
        is_plain(Raw::Dict(d)),
    ensures
        is_repeated(raw_bytes(Raw::Dict(d)) + behind, 1, key) <==> is_twice(d, key),
        has_string_keys(raw_bytes(Raw::Dict(d)) + behind, 1),
{
    let data = raw_bytes(Raw::Dict(d)) + behind;
    let entries = entry_bytes(d);
    assert(stands_at(data, 1, entries));
    assert(data[(1 + entries.len()) as int] == 101);
    assert forall|k: int| 0 <= k < d.len() implies is_plain((#[trigger] d[k]).1) by {}
    lemma_repeated_keys(data, 1, d, key);
}

/// The value under a key stands behind its first entry.
pub proof fn lemma_field_stands(
    data: Seq<u8>,
    at: nat,
    d: Seq<(Seq<u8>, Raw)>,
    key: Seq<u8>,
    i: int,
)
    requires
        stands_at(data, at, entry_bytes(d)),
        at + entry_bytes(d).len() < data.len(),
        data[(at + entry_bytes(d).len()) as int] == 101,
        forall|k: int| 0 <= k < d.len() ==> is_plain((#[trigger] d[k]).1),
    ensures
        is_first_with(d, key, 0, i) ==> field_at(data, at, key) is Some && stands_at(
            data,
            field_at(data, at, key)->0,
            raw_bytes(d[i].1),
        ),
        (forall|j: int| 0 <= j < d.len() ==> (#[trigger] d[j]).0 != key) ==> field_at(data, at, key)
            is None,
{
    assert(d.take(0) =~= Seq::empty());
    assert(entry_start(at, d, 0) == at);
    lemma_field_is_found(data, at, d, key, 0);
    if is_first_with(d, key, 0, i) {
        lemma_entry_place(data, at, d, i);
    }
}

/// The parts of an entry stand behind those before it.
proof fn lemma_entry_place(data: Seq<u8>, at: nat, d: Seq<(Seq<u8>, Raw)>, i: int)
    requires
        stands_at(data, at, entry_bytes(d)),
        0 <= i < d.len(),
    ensures
        stands_at(data, entry_start(at, d, i) + string_bytes(d[i].0).len(), raw_bytes(d[i].1)),
    decreases d.len(),
{
    let front = d.drop_last();
    let key = string_bytes(d.last().0);
    let value = raw_bytes(d.last().1);
    lemma_parts_stand(data, at, entry_bytes(front), key + value);
    if i == d.len() - 1 {
        assert(d.take(i) =~= front);
        lemma_parts_stand(data, at + entry_bytes(front).len(), key, value);
    } else {
        assert(front.take(i) =~= d.take(i));
        lemma_entry_place(data, at, front, i);
    }
}

/// Where an item of a list starts.
pub open spec fn item_start(at: nat, l: Seq<Raw>, i: int) -> nat {
    at + list_bytes(l.take(i)).len()
}

/// An item stands behind those before it, and the next behind it.
pub proof fn lemma_item_stands(data: Seq<u8>, at: nat, l: Seq<Raw>, i: int)
    requires
        stands_at(data, at, list_bytes(l)),
        0 <= i < l.len(),
        forall|k: int| 0 <= k < l.len() ==> is_plain(#[trigger] l[k]),
    ensures
        stands_at(data, item_start(at, l, i), raw_bytes(l[i])),
        value_end(data, item_start(at, l, i)) == item_start(at, l, i + 1),
    decreases l.len(),
{
    let front = l.drop_last();
    assert(l[l.len() - 1] == l.last());
    lemma_parts_stand(data, at, list_bytes(front), raw_bytes(l.last()));
    if i == l.len() - 1 {
        assert(l.take(i) =~= front);
        assert(l.take(i + 1) =~= l);
        lemma_value_stands(data, at + list_bytes(front).len(), 0, l.last());
    } else {
        assert forall|k: int| 0 <= k < front.len() implies is_plain(#[trigger] front[k]) by {
            assert(l[k] == front[k]);
        }
        assert(front.take(i) =~= l.take(i));
        assert(front.take(i + 1) =~= l.take(i + 1));
        lemma_item_stands(data, at, front, i);
    }
}

/// What a value starts with, and what stands behind that.
pub proof fn lemma_marks(data: Seq<u8>, at: nat, r: Raw)
    requires
        stands_at(data, at, raw_bytes(r)),
    ensures
        at < data.len(),
        data[at as int] == 100 <==> r is Dict,
        data[at as int] == 108 <==> r is List,
        data[at as int] != 101,
        r matches Raw::Dict(d) ==> stands_at(data, at + 1, entry_bytes(d)) && at + 1 + entry_bytes(
            d,
        ).len() < data.len() && data[(at + 1 + entry_bytes(d).len()) as int] == 101,
        r matches Raw::List(l) ==> stands_at(data, at + 1, list_bytes(l)) && at + 1 + list_bytes(
            l,
        ).len() < data.len() && data[(at + 1 + list_bytes(l).len()) as int] == 101,
{
    let bytes = raw_bytes(r);
    match r {
        Raw::Int(digits) => {
            assert(bytes =~= seq![105u8] + (digits + seq![101u8]));
            lemma_parts_stand(data, at, seq![105u8], digits + seq![101u8]);
            lemma_first_byte(data, at, seq![105u8]);
        },
        Raw::Str(s) => {
            lemma_string_stands(data, at, s);
        },
        Raw::List(l) => {
            let items = list_bytes(l);
            assert(bytes =~= seq![108u8] + (items + seq![101u8]));
            lemma_parts_stand(data, at, seq![108u8], items + seq![101u8]);
            lemma_parts_stand(data, at + 1, items, seq![101u8]);
            lemma_first_byte(data, at, seq![108u8]);
            lemma_first_byte(data, at + 1 + items.len(), seq![101u8]);
        },
        Raw::Dict(d) => {
            let entries = entry_bytes(d);
            assert(bytes =~= seq![100u8] + (entries + seq![101u8]));
            lemma_parts_stand(data, at, seq![100u8], entries + seq![101u8]);
            lemma_parts_stand(data, at + 1, entries, seq![101u8]);
            lemma_first_byte(data, at, seq![100u8]);
            lemma_first_byte(data, at + 1 + entries.len(), seq![101u8]);
        },
    }
}

/// Where there is an entry with a key, there is a first.
pub proof fn lemma_first_with(d: Seq<(Seq<u8>, Raw)>, key: Seq<u8>, from: int, any: int) -> (i: int)
    requires
        0 <= from <= any < d.len(),
        d[any].0 == key,
    ensures
        is_first_with(d, key, from, i),
    decreases any - from,
{
    if d[from].0 == key {
        from
    } else {
        lemma_first_with(d, key, from + 1, any)
    }
}

/// The lists and dictionaries of the value are nested at most so deep.
pub open spec fn is_nested_within(r: Raw, depth: nat) -> bool
    decreases r,
{
    match r {
        Raw::Int(_) => true,
        Raw::Str(_) => true,
        Raw::List(l) => depth > 0 && forall|i: int|
            0 <= i < l.len() ==> is_nested_within(#[trigger] l[i], (depth - 1) as nat),
        Raw::Dict(d) => depth > 0 && forall|i: int|
            0 <= i < d.len() ==> is_nested_within((#[trigger] d[i]).1, (depth - 1) as nat),
    }
}

/// The depth of a value is seen in its bytes.
proof fn lemma_depth_of_value(data: Seq<u8>, at: nat, open: nat, max: nat, r: Raw)
    requires
        stands_at(data, at, raw_bytes(r)),
        is_plain(r),
        open <= max,
    ensures
        nested_from(data, at, open, max) <==> is_nested_within(r, (max - open) as nat) && (open == 0
            || nested_from(data, at + raw_bytes(r).len(), open, max)),
    decreases r,
{
    let bytes = raw_bytes(r);
    match r {
        Raw::Int(digits) => {
            assert(bytes =~= seq![105u8] + (digits + seq![101u8]));
            lemma_parts_stand(data, at, seq![105u8], digits + seq![101u8]);
            lemma_first_byte(data, at, seq![105u8]);
            lemma_integer_stands(data, at + 1, digits);
        },
        Raw::Str(s) => {
            lemma_string_stands(data, at, s);
        },
        Raw::List(l) => {
            let items = list_bytes(l);
            assert(bytes =~= seq![108u8] + (items + seq![101u8]));
            lemma_parts_stand(data, at, seq![108u8], items + seq![101u8]);
            lemma_parts_stand(data, at + 1, items, seq![101u8]);
            lemma_first_byte(data, at, seq![108u8]);
            let end = at + 1 + items.len();
            lemma_first_byte(data, end, seq![101u8]);
            if open < max {
                lemma_depth_of_items(data, at + 1, open + 1, max, l);
                assert(nested_from(data, end, open + 1, max) <==> open == 0 || nested_from(
                    data,
                    end + 1,
                    open,
                    max,
                ));
            }
        },
        Raw::Dict(d) => {
            let entries = entry_bytes(d);
            assert(bytes =~= seq![100u8] + (entries + seq![101u8]));
            lemma_parts_stand(data, at, seq![100u8], entries + seq![101u8]);
            lemma_parts_stand(data, at + 1, entries, seq![101u8]);
            lemma_first_byte(data, at, seq![100u8]);
            let end = at + 1 + entries.len();
            lemma_first_byte(data, end, seq![101u8]);
            if open < max {
                lemma_depth_of_entries(data, at + 1, open + 1, max, d);
                assert(nested_from(data, end, open + 1, max) <==> open == 0 || nested_from(
                    data,
                    end + 1,
                    open,
                    max,
                ));
            }
        },
    }
}

/// The depth of the items of a list is seen in their bytes.
proof fn lemma_depth_of_items(data: Seq<u8>, at: nat, open: nat, max: nat, l: Seq<Raw>)
    requires
        stands_at(data, at, list_bytes(l)),
        0 < open <= max,
        forall|i: int| 0 <= i < l.len() ==> is_plain(#[trigger] l[i]),
    ensures
        nested_from(data, at, open, max) <==> (forall|i: int|
            0 <= i < l.len() ==> is_nested_within(#[trigger] l[i], (max - open) as nat))
            && nested_from(data, at + list_bytes(l).len(), open, max),
    decreases l,
{
    if l.len() > 0 {
        let front = l.drop_last();
        let room = (max - open) as nat;
        assert(l[l.len() - 1] == l.last());
        lemma_parts_stand(data, at, list_bytes(front), raw_bytes(l.last()));
        assert forall|i: int| 0 <= i < front.len() implies is_plain(#[trigger] front[i]) by {
            assert(l[i] == front[i]);
        }
        lemma_depth_of_items(data, at, open, max, front);
        lemma_depth_of_value(data, at + list_bytes(front).len(), open, max, l.last());
        if forall|i: int| 0 <= i < l.len() ==> is_nested_within(#[trigger] l[i], room) {
            assert forall|i: int| 0 <= i < front.len() implies is_nested_within(
                #[trigger] front[i],
                room,
            ) by {
                assert(l[i] == front[i]);
            }
        }
        if (forall|i: int| 0 <= i < front.len() ==> is_nested_within(#[trigger] front[i], room))
            && is_nested_within(l.last(), room) {
            assert forall|i: int| 0 <= i < l.len() implies is_nested_within(
                #[trigger] l[i],
                room,
            ) by {
                if i < front.len() {
                    assert(l[i] == front[i]);
                }
            }
        }
    }
}

/// The depth of the entries of a dictionary is seen in their bytes.
proof fn lemma_depth_of_entries(
    data: Seq<u8>,
    at: nat,
    open: nat,
    max: nat,
    d: Seq<(Seq<u8>, Raw)>,
)
    requires
        stands_at(data, at, entry_bytes(d)),
        0 < open <= max,
        forall|i: int| 0 <= i < d.len() ==> is_plain((#[trigger] d[i]).1),
    ensures
        nested_from(data, at, open, max) <==> (forall|i: int|
            0 <= i < d.len() ==> is_nested_within((#[trigger] d[i]).1, (max - open) as nat))
            && nested_from(data, at + entry_bytes(d).len(), open, max),
    decreases d,
{
    if d.len() > 0 {
        let front = d.drop_last();
        let room = (max - open) as nat;
        let key = string_bytes(d.last().0);
        let value = raw_bytes(d.last().1);
        assert(d[d.len() - 1] == d.last());
        lemma_parts_stand(data, at, entry_bytes(front), key + value);
        let place = at + entry_bytes(front).len();
        lemma_parts_stand(data, place, key, value);
        assert forall|i: int| 0 <= i < front.len() implies is_plain((#[trigger] front[i]).1) by {
            assert(d[i] == front[i]);
        }
        lemma_depth_of_entries(data, at, open, max, front);
        lemma_string_stands(data, place, d.last().0);
        assert(nested_from(data, place, open, max) == nested_from(
            data,
            place + key.len(),
            open,
            max,
        ));
        lemma_depth_of_value(data, place + key.len(), open, max, d.last().1);
        if forall|i: int| 0 <= i < d.len() ==> is_nested_within((#[trigger] d[i]).1, room) {
            assert forall|i: int| 0 <= i < front.len() implies is_nested_within(
                (#[trigger] front[i]).1,
                room,
            ) by {
                assert(d[i] == front[i]);
            }
        }
        if (forall|i: int| 0 <= i < front.len() ==> is_nested_within((#[trigger] front[i]).1, room))
            && is_nested_within(d.last().1, room) {
            assert forall|i: int| 0 <= i < d.len() implies is_nested_within(
                (#[trigger] d[i]).1,
                room,
            ) by {
                if i < front.len() {
                    assert(d[i] == front[i]);
                }
            }
        }
    }
}

/// A value as it is written, whatever stands behind it, is shallow just where
/// its lists and dictionaries are nested at most two thousand and forty-eight
/// deep; what its byte strings hold does not count.
pub proof fn law_depth_is_that_of_the_value(r: Raw, behind: Seq<u8>)
    requires
        is_plain(r),
    ensures
        is_shallow(raw_bytes(r) + behind) <==> is_nested_within(r, 2048),
{
    let data = raw_bytes(r) + behind;
    assert(stands_at(data, 0, raw_bytes(r)));
    lemma_depth_of_value(data, 0, 0, MAX_DEPTH as nat, r);
}

} // verus!
