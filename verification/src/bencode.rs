//! Bencoded values: plain data, and its two ways to and from bytes.
use crate::text::from_utf8;
use crate::wire::same_bytes;
use serde_bencode::value::Value;
use vstd::prelude::*;
use vstd::slice::slice_to_vec;
use vstd::string::*;
use vstd::utf8::{decode_utf8, encode_utf8, valid_utf8};

verus! {

/// What a bencoded value is: an integer, a byte string, a list, or a
/// dictionary from byte strings to values.
pub enum Tree {
    Int(i64),
    Bytes(Seq<u8>),
    List(Seq<Tree>),
    Dict(Map<Seq<u8>, Tree>),
}

impl Tree {
    /// The value under a key, where this is a dictionary that has the key.
    pub open spec fn field(self, key: Seq<u8>) -> Option<Tree> {
        match self {
            Tree::Dict(m) => if m.contains_key(key) {
                Some(m[key])
            } else {
                None
            },
            _ => None,
        }
    }

    /// The value under a key that is a text.
    pub open spec fn named(self, name: Seq<char>) -> Option<Tree> {
        self.field(encode_utf8(name))
    }

    /// This dictionary with a value under a key that is a text.
    pub open spec fn insert_named(self, name: Seq<char>, value: Tree) -> Tree {
        Tree::Dict(self->Dict_0.insert(encode_utf8(name), value))
    }

    /// The integer that this is, if it is one.
    pub open spec fn integer(self) -> Option<i64> {
        match self {
            Tree::Int(n) => Some(n),
            _ => None,
        }
    }

    /// The byte string that this is, if it is one.
    pub open spec fn byte_string(self) -> Option<Seq<u8>> {
        match self {
            Tree::Bytes(b) => Some(b),
            _ => None,
        }
    }

    /// The text that this is, if it is a byte string in UTF-8.
    pub open spec fn text(self) -> Option<Seq<char>> {
        match self {
            Tree::Bytes(b) => if valid_utf8(b) {
                Some(decode_utf8(b))
            } else {
                None
            },
            _ => None,
        }
    }

    /// The number that this is, if it is an integer from 0 to `max`.
    pub open spec fn number(self, max: nat) -> Option<nat> {
        match self {
            Tree::Int(n) => if 0 <= n <= max {
                Some(n as nat)
            } else {
                None
            },
            _ => None,
        }
    }

    /// The bytes that this holds: those of a byte string, or those of a list
    /// of integers from 0 to 255.
    pub open spec fn byte_list(self) -> Option<Seq<u8>> {
        match self {
            Tree::Bytes(b) => Some(b),
            Tree::List(l) => if forall|i: int| 0 <= i < l.len() ==> is_byte(#[trigger] l[i]) {
                Some(Seq::new(l.len(), |i: int| l[i]->Int_0 as u8))
            } else {
                None
            },
            _ => None,
        }
    }

    /// This is a dictionary in which every key is a text.
    pub open spec fn has_text_keys(self) -> bool {
        match self {
            Tree::Dict(m) => forall|k: Seq<u8>| #[trigger] m.contains_key(k) ==> valid_utf8(k),
            _ => false,
        }
    }
}

/// How deep lists and dictionaries may be nested. Each level takes stack when
/// values are read and written, and a thread has two megabytes of it unless it
/// was given more.
pub const MAX_DEPTH: usize = 2048;

impl Tree {
    /// Lists and dictionaries are nested at most so deep.
    pub open spec fn within(self, depth: nat) -> bool
        decreases depth,
    {
        match self {
            Tree::Int(_) => true,
            Tree::Bytes(_) => true,
            Tree::List(l) => depth > 0 && forall|i: int|
                0 <= i < l.len() ==> (#[trigger] l[i]).within((depth - 1) as nat),
            Tree::Dict(m) => depth > 0 && forall|k: Seq<u8>| #[trigger]
                m.contains_key(k) ==> m[k].within((depth - 1) as nat),
        }
    }
}

/// A deeper bound holds as well.
proof fn lemma_within_more(tree: Tree, depth: nat)
    requires
        tree.within(depth),
    ensures
        tree.within(depth + 1),
    decreases depth,
{
    match tree {
        Tree::List(l) => {
            assert forall|i: int| 0 <= i < l.len() implies (#[trigger] l[i]).within(depth) by {
                lemma_within_more(l[i], (depth - 1) as nat);
            }
        },
        Tree::Dict(m) => {
            assert forall|k: Seq<u8>| #[trigger] m.contains_key(k) implies m[k].within(depth) by {
                lemma_within_more(m[k], (depth - 1) as nat);
            }
        },
        _ => {},
    }
}

/// What a dictionary holds is nested no deeper than the dictionary.
pub proof fn lemma_field_within(dict: Tree, name: Seq<char>, depth: nat)
    requires
        dict.within(depth),
        dict.named(name) is Some,
    ensures
        dict.named(name)->0.within(depth),
{
    let key = encode_utf8(name);
    assert(dict->Dict_0.contains_key(key));
    lemma_within_more(dict.named(name)->0, (depth - 1) as nat);
}

/// A dictionary is one level deeper than what it holds.
pub proof fn lemma_insert_within(dict: Tree, name: Seq<char>, value: Tree, depth: nat)
    requires
        dict is Dict,
        dict.within(depth + 1),
        value.within(depth),
    ensures
        dict.insert_named(name, value).within(depth + 1),
{
    let key = encode_utf8(name);
    let m = dict->Dict_0;
    let n = m.insert(key, value);
    assert forall|k: Seq<u8>| #[trigger] n.contains_key(k) implies n[k].within(depth) by {
        if k != key {
            assert(m.contains_key(k));
        }
    }
}

/// Where an integer ends whose digits start at `at`: after the next `e`.
pub open spec fn integer_end(data: Seq<u8>, at: nat) -> nat
    decreases data.len() - at,
{
    if at >= data.len() {
        data.len()
    } else if data[at as int] == 101 {
        at + 1
    } else {
        integer_end(data, at + 1)
    }
}

/// Where a byte string ends of whose length the digits before `at` say `n`:
/// after further digits, `:`, and so many bytes. `None` where there is no such
/// byte string.
pub open spec fn string_end(data: Seq<u8>, at: nat, n: nat) -> Option<nat>
    decreases data.len() - at,
{
    if at >= data.len() {
        None
    } else if data[at as int] == 58 {
        if at + 1 + n <= data.len() {
            Some(at + 1 + n)
        } else {
            None
        }
    } else if 48 <= data[at as int] <= 57 {
        string_end(data, at + 1, n * 10 + (data[at as int] - 48) as nat)
    } else {
        None
    }
}

/// From `at` on, where `open` lists and dictionaries are open, at most `max`
/// are ever open at once, up to the end of the value or to the first byte that
/// no value has there.
pub open spec fn nested_from(data: Seq<u8>, at: nat, open: nat, max: nat) -> bool
    decreases data.len() - at,
    via nested_from_decreases
{
    if at >= data.len() {
        true
    } else if data[at as int] == 105 {
        open == 0 || nested_from(data, integer_end(data, at + 1), open, max)
    } else if data[at as int] == 108 || data[at as int] == 100 {
        open < max && nested_from(data, at + 1, open + 1, max)
    } else if data[at as int] == 101 {
        open <= 1 || nested_from(data, at + 1, (open - 1) as nat, max)
    } else if 48 <= data[at as int] <= 57 {
        open == 0 || match string_end(data, at + 1, (data[at as int] - 48) as nat) {
            Some(end) => nested_from(data, end, open, max),
            None => true,
        }
    } else {
        true
    }
}

#[via_fn]
proof fn nested_from_decreases(data: Seq<u8>, at: nat, open: nat, max: nat) {
    if at < data.len() {
        lemma_integer_end(data, at + 1);
        lemma_string_end(data, at + 1, (data[at as int] - 48) as nat);
    }
}

/// An integer ends in the data.
pub proof fn lemma_integer_end(data: Seq<u8>, at: nat)
    requires
        at <= data.len(),
    ensures
        at <= integer_end(data, at) <= data.len(),
    decreases data.len() - at,
{
    if at < data.len() && data[at as int] != 101 {
        lemma_integer_end(data, at + 1);
    }
}

/// A byte string ends in the data.
pub proof fn lemma_string_end(data: Seq<u8>, at: nat, n: nat)
    ensures
        string_end(data, at, n) matches Some(end) ==> at + n < end <= data.len(),
    decreases data.len() - at,
{
    if at < data.len() && 48 <= data[at as int] <= 57 {
        lemma_string_end(data, at + 1, n * 10 + (data[at as int] - 48) as nat);
    }
}

/// The lists and dictionaries of the value at the start of the data are nested
/// at most `MAX_DEPTH` deep.
pub open spec fn is_shallow(data: Seq<u8>) -> bool {
    nested_from(data, 0, 0, MAX_DEPTH as nat)
}

/// An integer ends where it did, or where the data now end.
proof fn lemma_integer_end_in_prefix(data: Seq<u8>, n: nat, at: nat)
    requires
        at <= n <= data.len(),
    ensures
        integer_end(data.take(n as int), at) == if integer_end(data, at) <= n {
            integer_end(data, at)
        } else {
            n
        },
    decreases n - at,
{
    lemma_integer_end(data, at);
    if at < n && data[at as int] != 101 {
        lemma_integer_end_in_prefix(data, n, at + 1);
    }
}

/// A byte string ends where it did, if it is still there.
proof fn lemma_string_end_in_prefix(data: Seq<u8>, n: nat, at: nat, length: nat)
    requires
        n <= data.len(),
    ensures
        string_end(data.take(n as int), at, length) matches Some(end) ==> string_end(
            data,
            at,
            length,
        ) == Some(end),
    decreases n - at,
{
    if at < n && 48 <= data[at as int] <= 57 {
        lemma_string_end_in_prefix(data, n, at + 1, length * 10 + (data[at as int] - 48) as nat);
    }
}

/// The start of the data is nested no deeper.
proof fn lemma_nested_in_prefix(data: Seq<u8>, n: nat, at: nat, open: nat, max: nat)
    requires
        at <= n <= data.len(),
        nested_from(data, at, open, max),
    ensures
        nested_from(data.take(n as int), at, open, max),
    decreases n - at,
{
    let start = data.take(n as int);
    assert(nested_from(start, n, open, max));
    if at < n {
        assert(start[at as int] == data[at as int]);
        if data[at as int] == 105 {
            lemma_integer_end(data, at + 1);
            lemma_integer_end_in_prefix(data, n, at + 1);
            if open > 0 && integer_end(data, at + 1) <= n {
                lemma_nested_in_prefix(data, n, integer_end(data, at + 1), open, max);
            }
        } else if data[at as int] == 108 || data[at as int] == 100 {
            lemma_nested_in_prefix(data, n, at + 1, open + 1, max);
        } else if data[at as int] == 101 {
            if open > 1 {
                lemma_nested_in_prefix(data, n, at + 1, (open - 1) as nat, max);
            }
        } else if 48 <= data[at as int] <= 57 {
            let first = (data[at as int] - 48) as nat;
            lemma_string_end(start, at + 1, first);
            lemma_string_end_in_prefix(data, n, at + 1, first);
            if open > 0 && string_end(start, at + 1, first) is Some {
                lemma_nested_in_prefix(data, n, string_end(start, at + 1, first)->0, open, max);
            }
        }
    }
}

/// The start of shallow data is shallow.
pub proof fn lemma_start_is_shallow(data: Seq<u8>, n: nat)
    requires
        n <= data.len(),
        is_shallow(data),
    ensures
        is_shallow(data.take(n as int)),
{
    lemma_nested_in_prefix(data, n, 0, 0, MAX_DEPTH as nat);
}

/// Finds where an integer ends.
pub(crate) fn find_integer_end(data: &[u8], from: usize) -> (end: usize)
    requires
        from <= data@.len(),
    ensures
        end == integer_end(data@, from as nat),
{
    let mut at: usize = from;
    while at < data.len()
        invariant
            from <= at <= data@.len(),
            integer_end(data@, from as nat) == integer_end(data@, at as nat),
        decreases data@.len() - at,
    {
        if data[at] == 101 {
            return at + 1;
        }
        at += 1;
    }
    at
}

/// Finds where a byte string ends.
pub(crate) fn find_string_end(data: &[u8], from: usize, first: u8) -> (r: Option<usize>)
    requires
        from <= data@.len(),
        first < 10,
    ensures
        match r {
            Some(end) => string_end(data@, from as nat, first as nat) == Some(end as nat),
            None => string_end(data@, from as nat, first as nat) is None,
        },
{
    let mut at: usize = from;
    let mut n: u128 = first as u128;
    while at < data.len()
        invariant
            from <= at <= data@.len(),
            n <= data@.len() || n < 10,
            string_end(data@, from as nat, first as nat) == string_end(
                data@,
                at as nat,
                n as nat,
            ),
        decreases data@.len() - at,
    {
        let byte: u8 = data[at];
        let total: usize = data.len();
        if byte == 58 {
            if n <= (total - at - 1) as u128 {
                return Some(at + 1 + n as usize);
            }
            return None;
        }
        if !(48 <= byte && byte <= 57) {
            return None;
        }
        n = n * 10 + (byte - 48) as u128;
        at += 1;
        if n > total as u128 {
            proof {
                lemma_string_end(data@, at as nat, n as nat);
            }
            return None;
        }
    }
    None
}

/// Tells whether the value at the start of the data is nested at most
/// `MAX_DEPTH` deep. It is not looked at whether there is such a value.
pub fn check_depth(data: &[u8]) -> (r: bool)
    ensures
        r == is_shallow(data@),
{
    let mut at: usize = 0;
    let mut open: usize = 0;
    while at < data.len()
        invariant
            at <= data@.len(),
            open <= MAX_DEPTH,
            is_shallow(data@) == nested_from(data@, at as nat, open as nat, MAX_DEPTH as nat),
        decreases data@.len() - at,
    {
        let byte: u8 = data[at];
        if byte == 105 {
            if open == 0 {
                return true;
            }
            proof {
                lemma_integer_end(data@, (at + 1) as nat);
            }
            at = find_integer_end(data, at + 1);
        } else if byte == 108 || byte == 100 {
            if open == MAX_DEPTH {
                return false;
            }
            open += 1;
            at += 1;
        } else if byte == 101 {
            if open <= 1 {
                return true;
            }
            open -= 1;
            at += 1;
        } else if 48 <= byte && byte <= 57 {
            if open == 0 {
                return true;
            }
            proof {
                lemma_string_end(data@, (at + 1) as nat, (byte - 48) as nat);
            }
            match find_string_end(data, at + 1, byte - 48) {
                Some(end) => {
                    at = end;
                },
                None => return true,
            }
        } else {
            return true;
        }
    }
    true
}

/// An integer from 0 to 255.
pub open spec fn is_byte(t: Tree) -> bool {
    match t {
        Tree::Int(n) => 0 <= n <= 255,
        _ => false,
    }
}

/// A bencoded value as plain data. A dictionary is a list of entries, in
/// which a later entry replaces an earlier one with the same key.
#[derive(Debug)]
pub enum Bencode {
    Int(i64),
    Bytes(Vec<u8>),
    List(Vec<Bencode>),
    Dict(Vec<(Vec<u8>, Bencode)>),
}

/// The dictionary that a list of entries stands for.
pub open spec fn dict_tree(entries: Seq<(Vec<u8>, Bencode)>) -> Map<Seq<u8>, Tree>
    decreases entries,
{
    if entries.len() == 0 {
        Map::empty()
    } else {
        dict_tree(entries.drop_last()).insert(entries.last().0@, entries.last().1.tree())
    }
}

impl Bencode {
    /// The value that this data stands for.
    pub open spec fn tree(self) -> Tree
        decreases self,
    {
        match self {
            Bencode::Int(n) => Tree::Int(n),
            Bencode::Bytes(b) => Tree::Bytes(b@),
            Bencode::List(l) => Tree::List(
                Seq::new(
                    l@.len(),
                    |i: int|
                        if 0 <= i < l@.len() {
                            l@[i].tree()
                        } else {
                            arbitrary()
                        },
                ),
            ),
            Bencode::Dict(d) => Tree::Dict(dict_tree(d@)),
        }
    }
}

/// The value that optional data stand for.
pub open spec fn tree_of(b: Option<&Bencode>) -> Option<Tree> {
    match b {
        Some(b) => Some(b.tree()),
        None => None,
    }
}

/// The keys of the dictionary are those of the entries.
proof fn lemma_dict_keys(entries: Seq<(Vec<u8>, Bencode)>, key: Seq<u8>)
    ensures
        dict_tree(entries).contains_key(key) <==> exists|i: int|
            0 <= i < entries.len() && #[trigger] entries[i].0@ == key,
    decreases entries.len(),
{
    if entries.len() > 0 {
        let front = entries.drop_last();
        lemma_dict_keys(front, key);
        if dict_tree(entries).contains_key(key) {
            if entries.last().0@ != key {
                let i = choose|i: int| 0 <= i < front.len() && #[trigger] front[i].0@ == key;
                assert(entries[i].0@ == key);
            } else {
                assert(entries[entries.len() - 1].0@ == key);
            }
        }
        if exists|i: int| 0 <= i < entries.len() && #[trigger] entries[i].0@ == key {
            let i = choose|i: int| 0 <= i < entries.len() && #[trigger] entries[i].0@ == key;
            if i < front.len() {
                assert(front[i].0@ == key);
            }
        }
    }
}

impl Bencode {
    /// A dictionary without entries
    pub fn dict() -> (b: Self)
        ensures
            b.tree() == Tree::Dict(Map::empty()),
    {
        let entries: Vec<(Vec<u8>, Bencode)> = Vec::new();
        proof {
            assert(dict_tree(entries@) == Map::<Seq<u8>, Tree>::empty());
        }
        Bencode::Dict(entries)
    }

    /// The dictionary with one more entry
    pub fn with(self, name: &str, value: Bencode) -> (b: Self)
        requires
            self.tree() is Dict,
        ensures
            b.tree() == self.tree().insert_named(name@, value.tree()),
    {
        match self {
            Bencode::Dict(entries) => {
                let mut entries = entries;
                let ghost before = entries@;
                entries.push((slice_to_vec(name.as_bytes()), value));
                proof {
                    assert(entries@.drop_last() =~= before);
                    assert(dict_tree(entries@) == dict_tree(before).insert(
                        encode_utf8(name@),
                        value.tree(),
                    ));
                }
                Bencode::Dict(entries)
            },
            other => other,
        }
    }

    /// The value under a key, where this is a dictionary that has the key
    pub fn get(&self, name: &str) -> (r: Option<&Bencode>)
        ensures
            match r {
                Some(b) => self.tree().named(name@) == Some(b.tree()),
                None => self.tree().named(name@) is None,
            },
    {
        let key = name.as_bytes();
        match self {
            Bencode::Dict(d) => {
                let mut i: usize = d.len();
                proof {
                    assert(d@.take(i as int) =~= d@);
                }
                while i > 0
                    invariant
                        i <= d@.len(),
                        *self == Bencode::Dict(*d),
                        key@ == encode_utf8(name@),
                        dict_tree(d@).contains_key(key@) == dict_tree(
                            d@.take(i as int),
                        ).contains_key(key@),
                        dict_tree(d@)[key@] == dict_tree(d@.take(i as int))[key@],
                    decreases i,
                {
                    i -= 1;
                    proof {
                        assert(d@.take(i + 1).drop_last() =~= d@.take(i as int));
                    }
                    if same_bytes(d[i].0.as_slice(), key) {
                        return Some(&d[i].1);
                    }
                }
                None
            },
            _ => None,
        }
    }

    /// The integer that this is, if it is one
    pub fn integer(&self) -> (r: Option<i64>)
        ensures
            r == self.tree().integer(),
    {
        match self {
            Bencode::Int(n) => Some(*n),
            _ => None,
        }
    }

    /// The byte string that this is, if it is one
    pub fn byte_string(&self) -> (r: Option<&Vec<u8>>)
        ensures
            match r {
                Some(b) => self.tree().byte_string() == Some(b@),
                None => self.tree().byte_string() is None,
            },
    {
        match self {
            Bencode::Bytes(b) => Some(b),
            _ => None,
        }
    }

    /// The text that this is, if it is a byte string in UTF-8
    pub fn text(&self) -> (r: Option<String>)
        ensures
            match r {
                Some(s) => self.tree().text() == Some(s@),
                None => self.tree().text() is None,
            },
    {
        match self {
            Bencode::Bytes(b) => match from_utf8(b.as_slice()) {
                Some(s) => Some(s.to_string()),
                None => None,
            },
            _ => None,
        }
    }

    /// The number that this is, if it is an integer from 0 to `max`
    pub fn number(&self, max: u64) -> (r: Option<u64>)
        ensures
            match r {
                Some(n) => self.tree().number(max as nat) == Some(n as nat),
                None => self.tree().number(max as nat) is None,
            },
    {
        match self {
            Bencode::Int(n) => if *n >= 0 && *n as u64 <= max {
                Some(*n as u64)
            } else {
                None
            },
            _ => None,
        }
    }

    /// The bytes of a byte string, or of a list of integers from 0 to 255
    pub fn byte_list(&self) -> (r: Option<Vec<u8>>)
        ensures
            match r {
                Some(b) => self.tree().byte_list() == Some(b@),
                None => self.tree().byte_list() is None,
            },
    {
        match self {
            Bencode::Bytes(b) => Some(b.clone()),
            Bencode::List(l) => {
                let ghost trees = self.tree()->List_0;
                let mut bytes: Vec<u8> = Vec::new();
                let mut i: usize = 0;
                while i < l.len()
                    invariant
                        i <= l@.len(),
                        bytes@.len() == i,
                        *self == Bencode::List(*l),
                        trees == self.tree()->List_0,
                        trees.len() == l@.len(),
                        forall|j: int| 0 <= j < l@.len() ==> #[trigger] trees[j] == l@[j].tree(),
                        forall|j: int|
                            0 <= j < i ==> is_byte(#[trigger] trees[j]) && bytes@[j]
                                == trees[j]->Int_0 as u8,
                    decreases l@.len() - i,
                {
                    match l[i].number(255) {
                        Some(n) => bytes.push(n as u8),
                        None => {
                            proof {
                                assert(!is_byte(trees[i as int]));
                            }
                            return None;
                        },
                    }
                    i += 1;
                }
                proof {
                    assert(bytes@ =~= Seq::new(trees.len(), |i: int| trees[i]->Int_0 as u8));
                    assert(self.tree().byte_list() is Some);
                }
                Some(bytes)
            },
            _ => None,
        }
    }

    /// The values of a list, if this is one
    pub fn list(&self) -> (r: Option<&Vec<Bencode>>)
        ensures
            match r {
                Some(l) => self.tree() is List && self.tree()->List_0.len() == l@.len() && (forall|
                    i: int,
                |
                    0 <= i < l@.len() ==> (#[trigger] l@[i]).tree() == self.tree()->List_0[i]),
                None => !(self.tree() is List),
            },
    {
        match self {
            Bencode::List(l) => Some(l),
            _ => None,
        }
    }

    /// Tells whether this is a dictionary
    pub fn is_dict(&self) -> (r: bool)
        ensures
            r == self.tree() is Dict,
    {
        matches!(self, Bencode::Dict(_))
    }

    /// Tells whether this is a dictionary in which every key is a text
    pub fn has_text_keys(&self) -> (r: bool)
        ensures
            r == self.tree().has_text_keys(),
    {
        match self {
            Bencode::Dict(d) => {
                let mut i: usize = 0;
                while i < d.len()
                    invariant
                        i <= d@.len(),
                        *self == Bencode::Dict(*d),
                        forall|j: int| 0 <= j < i ==> valid_utf8(#[trigger] d@[j].0@),
                    decreases d@.len() - i,
                {
                    if from_utf8(d[i].0.as_slice()).is_none() {
                        proof {
                            lemma_dict_keys(d@, d@[i as int].0@);
                            assert(self.tree() == Tree::Dict(dict_tree(d@)));
                            assert(self.tree()->Dict_0.contains_key(d@[i as int].0@));
                            assert(!valid_utf8(d@[i as int].0@));
                        }
                        return false;
                    }
                    i += 1;
                }
                proof {
                    assert forall|k: Seq<u8>| #[trigger]
                        dict_tree(d@).contains_key(k) implies valid_utf8(k) by {
                        lemma_dict_keys(d@, k);
                    }
                    assert(self.tree() == Tree::Dict(dict_tree(d@)));
                }
                true
            },
            _ => false,
        }
    }
}

/// `serde_bencode::value::Value`, a bencoded value.
#[verifier::external_type_specification]
#[verifier::external_body]
pub struct ExValue(serde_bencode::value::Value);

/// `serde_bencode::Error`.
#[verifier::external_type_specification]
#[verifier::external_body]
pub struct ExBencodeError(serde_bencode::Error);

/// What a `Value` holds.
pub uninterp spec fn value_tree(v: serde_bencode::value::Value) -> Tree;

/// What `serde_bencode::from_bytes` reads in the bytes, for a `Value`: `None`
/// where it fails.
pub uninterp spec fn decoded(data: Seq<u8>) -> Option<Tree>;

/// What `serde_bencode::to_bytes` writes for a `Value`.
pub uninterp spec fn encoded(tree: Tree) -> Seq<u8>;

/// The outermost layer of a `Value`, its parts borrowed.
enum Layer<'a> {
    Int(i64),
    Bytes(&'a Vec<u8>),
    List(&'a Vec<Value>),
    Dict(Vec<(&'a Vec<u8>, &'a Value)>),
}

/// The outermost layer of a `Value` that is to be made.
enum NewLayer {
    Int(i64),
    Bytes(Vec<u8>),
    List(Vec<Value>),
    Dict(Vec<(Vec<u8>, Value)>),
}

/// The dictionary that a list of entries stands for; a later entry replaces
/// an earlier one with the same key.
spec fn entries_tree(entries: Seq<(Vec<u8>, Value)>) -> Map<Seq<u8>, Tree>
    decreases entries.len(),
{
    if entries.len() == 0 {
        Map::empty()
    } else {
        entries_tree(entries.drop_last()).insert(
            entries.last().0@,
            value_tree(entries.last().1),
        )
    }
}

/// The entries without the borrows.
spec fn owned_entries(entries: Seq<(&Vec<u8>, &Value)>) -> Seq<(Vec<u8>, Value)> {
    entries.map_values(|e: (&Vec<u8>, &Value)| (*e.0, *e.1))
}

/// No two entries have the same key.
spec fn keys_differ(entries: Seq<(Vec<u8>, Value)>) -> bool {
    forall|i: int, j: int|
        0 <= i < j < entries.len() ==> #[trigger] entries[i].0@ != #[trigger] entries[j].0@
}

/// The values that a list of `Value` holds.
spec fn list_tree(values: Seq<Value>) -> Seq<Tree> {
    values.map_values(|v: Value| value_tree(v))
}

/// Calls `serde_bencode::from_bytes` for a `Value`: the value, or that there
/// is none, depends on the bytes alone. It calls itself for each list and
/// dictionary in another one, so that the nesting is bounded, and what it
/// reads is nested no deeper than the bytes are.
#[verifier::external_body]
fn decode_value(data: &[u8]) -> (r: Result<Value, serde_bencode::Error>)
    requires
        is_shallow(data@),
    ensures
        match r {
            Ok(v) => decoded(data@) == Some(value_tree(v)) && value_tree(v).within(
                MAX_DEPTH as nat,
            ),
            Err(_) => decoded(data@) is None,
        },
{
    serde_bencode::from_bytes(data)
}

/// Calls `serde_bencode::to_bytes` for a `Value`: it succeeds, its result
/// depends on what the value holds alone and is nested as the value is, and
/// `from_bytes` reads the same value back. It calls itself for each list and
/// dictionary in another one, so that the nesting is bounded.
#[verifier::external_body]
fn encode_value(v: &Value) -> (r: Result<Vec<u8>, serde_bencode::Error>)
    requires
        value_tree(*v).within(MAX_DEPTH as nat),
    ensures
        match r {
            Ok(b) => {
                &&& b@ == encoded(value_tree(*v))
                &&& decoded(b@) == Some(value_tree(*v))
                &&& is_shallow(b@)
            },
            Err(_) => false,
        },
{
    serde_bencode::to_bytes(v)
}

/// Tells the variants of a `Value` apart. The entries of a dictionary come in
/// some order, each key once.
#[verifier::external_body]
fn open_value(v: &Value) -> (layer: Layer<'_>)
    ensures
        match layer {
            Layer::Int(n) => value_tree(*v) == Tree::Int(n),
            Layer::Bytes(b) => value_tree(*v) == Tree::Bytes(b@),
            Layer::List(l) => value_tree(*v) == Tree::List(list_tree(l@)),
            Layer::Dict(d) => value_tree(*v) == Tree::Dict(entries_tree(owned_entries(d@)))
                && keys_differ(owned_entries(d@)),
        },
{
    match v {
        Value::Int(n) => Layer::Int(*n),
        Value::Bytes(b) => Layer::Bytes(b),
        Value::List(l) => Layer::List(l),
        Value::Dict(d) => Layer::Dict(d.iter().collect()),
    }
}

/// Makes a `Value` of its parts.
#[verifier::external_body]
fn close_value(layer: NewLayer) -> (v: Value)
    ensures
        match layer {
            NewLayer::Int(n) => value_tree(v) == Tree::Int(n),
            NewLayer::Bytes(b) => value_tree(v) == Tree::Bytes(b@),
            NewLayer::List(l) => value_tree(v) == Tree::List(list_tree(l@)),
            NewLayer::Dict(d) => value_tree(v) == Tree::Dict(entries_tree(d@)),
        },
{
    match layer {
        NewLayer::Int(n) => Value::Int(n),
        NewLayer::Bytes(b) => Value::Bytes(b),
        NewLayer::List(l) => Value::List(l),
        NewLayer::Dict(d) => Value::Dict(d.into_iter().collect()),
    }
}

proof fn lemma_entries_tree_finite(entries: Seq<(Vec<u8>, Value)>)
    ensures
        entries_tree(entries).dom().finite(),
    decreases entries.len(),
{
    if entries.len() > 0 {
        lemma_entries_tree_finite(entries.drop_last());
    }
}

/// Where no key occurs twice, each entry is in the dictionary.
proof fn lemma_entries_tree_has(entries: Seq<(Vec<u8>, Value)>, i: int)
    requires
        keys_differ(entries),
        0 <= i < entries.len(),
    ensures
        entries_tree(entries).contains_key(entries[i].0@),
        entries_tree(entries)[entries[i].0@] == value_tree(entries[i].1),
    decreases entries.len(),
{
    let front = entries.drop_last();
    if i < entries.len() - 1 {
        assert(keys_differ(front)) by {
            assert forall|a: int, b: int| 0 <= a < b < front.len() implies #[trigger] front[a].0@
                != #[trigger] front[b].0@ by {
                assert(entries[a].0@ != entries[b].0@);
            }
        }
        lemma_entries_tree_has(front, i);
        assert(entries[i].0@ != entries[entries.len() - 1].0@);
    }
}

/// The plain data of a `Value`.
fn from_value(v: &Value) -> (b: Bencode)
    ensures
        b.tree() == value_tree(*v),
    decreases value_tree(*v),
{
    match open_value(v) {
        Layer::Int(n) => Bencode::Int(n),
        Layer::Bytes(b) => Bencode::Bytes(b.clone()),
        Layer::List(l) => {
            let mut list: Vec<Bencode> = Vec::new();
            let mut i: usize = 0;
            while i < l.len()
                invariant
                    i <= l@.len(),
                    list@.len() == i,
                    value_tree(*v) == Tree::List(list_tree(l@)),
                    forall|j: int|
                        0 <= j < i ==> (#[trigger] list@[j]).tree() == value_tree(l@[j]),
                decreases l@.len() - i,
            {
                proof {
                    let trees = list_tree(l@);
                    assert(trees[i as int] == value_tree(l@[i as int]));
                    assert(decreases_to!(value_tree(*v) => value_tree(*v)->List_0));
                    assert(decreases_to!(trees => trees[i as int]));
                }
                let item = from_value(&l[i]);
                list.push(item);
                i += 1;
            }
            let b = Bencode::List(list);
            proof {
                assert(b.tree()->List_0 =~= list_tree(l@));
            }
            b
        },
        Layer::Dict(d) => {
            let mut dict: Vec<(Vec<u8>, Bencode)> = Vec::new();
            let mut i: usize = 0;
            let ghost entries = owned_entries(d@);
            while i < d.len()
                invariant
                    i <= d@.len(),
                    entries == owned_entries(d@),
                    keys_differ(entries),
                    value_tree(*v) == Tree::Dict(entries_tree(entries)),
                    dict_tree(dict@) == entries_tree(entries.take(i as int)),
                decreases d@.len() - i,
            {
                proof {
                    lemma_entries_tree_finite(entries);
                    lemma_entries_tree_has(entries, i as int);
                    let m = entries_tree(entries);
                    assert(decreases_to!(value_tree(*v) => value_tree(*v)->Dict_0));
                    assert(decreases_to!(m => m[entries[i as int].0@]));
                }
                let item = from_value(d[i].1);
                let ghost before = dict@;
                dict.push((d[i].0.clone(), item));
                proof {
                    assert(dict@.drop_last() =~= before);
                    assert(entries.take(i + 1).drop_last() =~= entries.take(i as int));
                }
                i += 1;
            }
            proof {
                assert(entries.take(i as int) =~= entries);
            }
            Bencode::Dict(dict)
        },
    }
}

/// The `Value` of plain data.
fn to_value(b: &Bencode) -> (v: Value)
    ensures
        value_tree(v) == b.tree(),
    decreases *b,
{
    match b {
        Bencode::Int(n) => close_value(NewLayer::Int(*n)),
        Bencode::Bytes(s) => close_value(NewLayer::Bytes(s.clone())),
        Bencode::List(l) => {
            let mut list: Vec<Value> = Vec::new();
            let mut i: usize = 0;
            while i < l.len()
                invariant
                    i <= l@.len(),
                    list@.len() == i,
                    *b == Bencode::List(*l),
                    forall|j: int|
                        0 <= j < i ==> value_tree(#[trigger] list@[j]) == l@[j].tree(),
                decreases l@.len() - i,
            {
                proof {
                    assert(decreases_to!(*b => b->List_0));
                    assert(decreases_to!(b->List_0 => b->List_0[i as int]));
                }
                let item = to_value(&l[i]);
                list.push(item);
                i += 1;
            }
            proof {
                assert(b.tree()->List_0 =~= list_tree(list@));
            }
            close_value(NewLayer::List(list))
        },
        Bencode::Dict(d) => {
            let mut dict: Vec<(Vec<u8>, Value)> = Vec::new();
            let mut i: usize = 0;
            while i < d.len()
                invariant
                    i <= d@.len(),
                    *b == Bencode::Dict(*d),
                    entries_tree(dict@) == dict_tree(d@.take(i as int)),
                decreases d@.len() - i,
            {
                proof {
                    assert(decreases_to!(*b => b->Dict_0));
                    assert(decreases_to!(b->Dict_0 => b->Dict_0[i as int]));
                    assert(decreases_to!(b->Dict_0[i as int] => b->Dict_0[i as int].1));
                }
                let item = to_value(&d[i].1);
                let ghost before = dict@;
                dict.push((d[i].0.clone(), item));
                proof {
                    assert(dict@.drop_last() =~= before);
                    assert(d@.take(i + 1).drop_last() =~= d@.take(i as int));
                }
                i += 1;
            }
            proof {
                assert(d@.take(i as int) =~= d@);
            }
            close_value(NewLayer::Dict(dict))
        },
    }
}

/// Reads a bencoded value. What follows the value is not looked at. That the
/// data are not nested too deep for it is told by `check_depth`.
pub fn decode(data: &[u8]) -> (r: Option<Bencode>)
    requires
        is_shallow(data@),
    ensures
        match r {
            Some(b) => decoded(data@) == Some(b.tree()) && b.tree().within(MAX_DEPTH as nat),
            None => decoded(data@) is None,
        },
{
    match decode_value(data) {
        Ok(v) => Some(from_value(&v)),
        Err(_) => None,
    }
}

/// Writes a value in bencoded form.
pub fn encode(b: &Bencode) -> (r: Vec<u8>)
    requires
        b.tree().within(MAX_DEPTH as nat),
    ensures
        r@ == encoded(b.tree()),
        is_shallow(r@),
        decoded(r@) == Some(b.tree()),
{
    let v = to_value(b);
    match encode_value(&v) {
        Ok(bytes) => bytes,
        Err(_) => Vec::new(),
    }
}

/// A dictionary that is given an entry has it, and has all others as before.
pub proof fn law_entries_are_found(dict: Tree, name: Seq<char>, value: Tree, other: Seq<char>)
    requires
        dict is Dict,
    ensures
        dict.insert_named(name, value).named(name) == Some(value),
        other != name ==> dict.insert_named(name, value).named(other) == dict.named(other),
{
    if other != name {
        vstd::utf8::encode_utf8_decode_utf8(name);
        vstd::utf8::encode_utf8_decode_utf8(other);
    }
}

/// Data that are no longer than the limit are never nested too deep.
pub proof fn law_short_data_are_shallow(data: Seq<u8>)
    requires
        data.len() <= 2048,
    ensures
        is_shallow(data),
{
    lemma_nested_by_length(data, 0, 0);
}

/// At most one list or dictionary opens at each byte.
proof fn lemma_nested_by_length(data: Seq<u8>, at: nat, open: nat)
    requires
        open <= at,
        at <= data.len() <= MAX_DEPTH,
    ensures
        nested_from(data, at, open, MAX_DEPTH as nat),
    decreases data.len() - at,
{
    if at < data.len() {
        lemma_integer_end(data, at + 1);
        let first = (data[at as int] - 48) as nat;
        lemma_string_end(data, at + 1, first);
        if data[at as int] == 105 {
            lemma_nested_by_length(data, integer_end(data, at + 1), open);
        } else if data[at as int] == 108 || data[at as int] == 100 {
            lemma_nested_by_length(data, at + 1, open + 1);
        } else if data[at as int] == 101 {
            if open > 0 {
                lemma_nested_by_length(data, at + 1, (open - 1) as nat);
            }
        } else if 48 <= data[at as int] <= 57 {
            match string_end(data, at + 1, first) {
                Some(end) => lemma_nested_by_length(data, end, open),
                None => {},
            }
        }
    }
}

/// What is read of an integer: itself as an integer, and as a number just
/// where it is in range.
pub proof fn law_integers_are_read(n: i64, max: nat)
    ensures
        Tree::Int(n).integer() == Some(n),
        0 <= n <= max ==> Tree::Int(n).number(max) == Some(n as nat),
        n < 0 || n > max ==> Tree::Int(n).number(max) is None,
        Tree::Int(n).text() is None,
        Tree::Int(n).byte_string() is None,
        Tree::Int(n).byte_list() is None,
{
}

/// What is read of a byte string: its bytes, and the text that they encode.
pub proof fn law_byte_strings_are_read(bytes: Seq<u8>, text: Seq<char>, max: nat)
    ensures
        Tree::Bytes(bytes).byte_string() == Some(bytes),
        Tree::Bytes(bytes).byte_list() == Some(bytes),
        Tree::Bytes(encode_utf8(text)).text() == Some(text),
        !valid_utf8(bytes) ==> Tree::Bytes(bytes).text() is None,
        Tree::Bytes(bytes).integer() is None,
        Tree::Bytes(bytes).number(max) is None,
{
    vstd::utf8::encode_utf8_valid_utf8(text);
    vstd::utf8::encode_utf8_decode_utf8(text);
}

/// A list of integers from 0 to 255 is read as those bytes, in order; a list
/// with anything else in it is not.
pub proof fn law_lists_of_bytes_are_read(bytes: Seq<u8>, other: Seq<Tree>, k: int)
    ensures
        Tree::List(bytes.map_values(|b: u8| Tree::Int(b as i64))).byte_list() == Some(bytes),
        0 <= k < other.len() && !(other[k] matches Tree::Int(n) && 0 <= n <= 255) ==> Tree::List(
            other,
        ).byte_list() is None,
{
    let l = bytes.map_values(|b: u8| Tree::Int(b as i64));
    assert forall|i: int| 0 <= i < l.len() implies is_byte(#[trigger] l[i]) by {}
    assert(Seq::new(l.len(), |i: int| l[i]->Int_0 as u8) =~= bytes);
    if 0 <= k < other.len() && !(other[k] matches Tree::Int(n) && 0 <= n <= 255) {
        assert(!is_byte(other[k]));
    }
}

/// The value under a name is the one that a dictionary has under the bytes of
/// the name; other values have no names.
pub proof fn law_names_are_keys(m: Map<Seq<u8>, Tree>, name: Seq<char>, other: Tree)
    ensures
        m.contains_key(encode_utf8(name)) ==> Tree::Dict(m).named(name) == Some(
            m[encode_utf8(name)],
        ),
        !m.contains_key(encode_utf8(name)) ==> Tree::Dict(m).named(name) is None,
        !(other is Dict) ==> other.named(name) is None && !other.has_text_keys(),
        Tree::Dict(m).has_text_keys() <==> forall|k: Seq<u8>| #[trigger]
            m.contains_key(k) ==> valid_utf8(k),
{
}

/// Plain data stand for the value that they show, and a later entry of a
/// dictionary comes before an earlier one.
pub proof fn law_data_stand_for_values(
    n: i64,
    bytes: Vec<u8>,
    list: Vec<Bencode>,
    entries: Seq<(Vec<u8>, Bencode)>,
    key: Vec<u8>,
    value: Bencode,
)
    ensures
        Bencode::Int(n).tree() == Tree::Int(n),
        Bencode::Bytes(bytes).tree() == Tree::Bytes(bytes@),
        Bencode::List(list).tree() is List,
        Bencode::List(list).tree()->List_0.len() == list@.len(),
        forall|i: int|
            0 <= i < list@.len() ==> #[trigger] Bencode::List(list).tree()->List_0[i]
                == list@[i].tree(),
        dict_tree(Seq::empty()) == Map::<Seq<u8>, Tree>::empty(),
        dict_tree(entries.push((key, value))) == dict_tree(entries).insert(key@, value.tree()),
{
    assert(entries.push((key, value)).drop_last() =~= entries);
}

} // verus!
