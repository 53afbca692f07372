use vstd::prelude::*;

verus! {

/// A Bencode value as a mathematical object: what a [`Value`] stands for.
pub enum Bencode {
    /// An integer of any size.
    Integer(int),
    /// A sequence of bytes, which need not be text.
    ByteString(Seq<u8>),
    /// The items of a list, in the order in which they were encoded.
    List(Seq<Bencode>),
    /// The entries of a dictionary, each a key and its value, in their order.
    /// In a value that is [`Bencode::well_formed`] no two of them have the
    /// same key.
    Dict(Seq<(Seq<u8>, Bencode)>),
}

/// A decoded Bencode value.
#[derive(Debug, PartialEq, Eq)]
pub enum Value {
    /// A signed integer.
    Integer(i64),
    /// Raw bytes; whether they are text is for the reader of a field to decide.
    ByteString(Vec<u8>),
    /// The items of a list, in the order in which they were encoded.
    List(Vec<Value>),
    /// A dictionary.
    Dict(Dict),
}

/// A dictionary from byte-string keys to values that keeps its keys in the
/// order in which they were first inserted and holds no key twice.
#[derive(Debug, PartialEq, Eq)]
pub struct Dict {
    entries: Vec<(Vec<u8>, Value)>,
}

/// The values that the items of a list stand for.
pub open spec fn list_view(items: Seq<Value>) -> Seq<Bencode>
    decreases items,
{
    Seq::new(
        items.len(),
        |i: int|
            if 0 <= i < items.len() {
                items[i]@
            } else {
                arbitrary()
            },
    )
}

/// The keys and values that the entries of a dictionary stand for.
pub open spec fn entries_view(entries: Seq<(Vec<u8>, Value)>) -> Seq<(Seq<u8>, Bencode)>
    decreases entries,
{
    Seq::new(
        entries.len(),
        |i: int|
            if 0 <= i < entries.len() {
                (entries[i].0@, entries[i].1@)
            } else {
                arbitrary()
            },
    )
}

impl View for Value {
    type V = Bencode;

    open spec fn view(&self) -> Bencode
        decreases self,
    {
        match self {
            Value::Integer(n) => Bencode::Integer(*n as int),
            Value::ByteString(bytes) => Bencode::ByteString(bytes@),
            Value::List(items) => Bencode::List(list_view(items@)),
            Value::Dict(dict) => Bencode::Dict(dict@),
        }
    }
}

impl View for Dict {
    type V = Seq<(Seq<u8>, Bencode)>;

    closed spec fn view(&self) -> Seq<(Seq<u8>, Bencode)>
        decreases self,
    {
        entries_view(self.entries@)
    }
}

/// The index of the first entry from `from` on whose key is `key`, or the
/// number of entries if there is none.
pub open spec fn find_key(entries: Seq<(Seq<u8>, Bencode)>, key: Seq<u8>, from: int) -> int
    decreases entries.len() - from,
{
    if from < 0 || from >= entries.len() {
        entries.len() as int
    } else if entries[from].0 == key {
        from
    } else {
        find_key(entries, key, from + 1)
    }
}

/// The value that `entries` holds under `key`, if any.
pub open spec fn dict_get(entries: Seq<(Seq<u8>, Bencode)>, key: Seq<u8>) -> Option<Bencode> {
    let i = find_key(entries, key, 0);
    if i < entries.len() {
        Some(entries[i].1)
    } else {
        None
    }
}

/// The entries after `value` has been stored under `key`: a key that is
/// present keeps its place and takes the new value, so the last value stored
/// under a key is the one that stays; a new key goes to the end.
pub open spec fn dict_insert(
    entries: Seq<(Seq<u8>, Bencode)>,
    key: Seq<u8>,
    value: Bencode,
) -> Seq<(Seq<u8>, Bencode)> {
    let i = find_key(entries, key, 0);
    if i < entries.len() {
        entries.update(i, (key, value))
    } else {
        entries.push((key, value))
    }
}

/// Whether no key occurs in two entries.
pub open spec fn keys_distinct(entries: Seq<(Seq<u8>, Bencode)>) -> bool {
    forall|i: int, j: int|
        0 <= i < j < entries.len() ==> (#[trigger] entries[i]).0 != (#[trigger] entries[j]).0
}

/// The entries after each of `entries` has been stored in `stored`, the
/// first of them first, as [`dict_insert`] says.
pub open spec fn insert_all(
    stored: Seq<(Seq<u8>, Bencode)>,
    entries: Seq<(Seq<u8>, Bencode)>,
) -> Seq<(Seq<u8>, Bencode)>
    decreases entries.len(),
{
    if entries.len() == 0 {
        stored
    } else {
        insert_all(
            dict_insert(stored, entries.first().0, entries.first().1),
            entries.drop_first(),
        )
    }
}

/// The value of the last of `entries` whose key is `key`, if there is one.
pub open spec fn last_under(entries: Seq<(Seq<u8>, Bencode)>, key: Seq<u8>) -> Option<Bencode>
    decreases entries.len(),
{
    if entries.len() == 0 {
        None
    } else if entries.last().0 == key {
        Some(entries.last().1)
    } else {
        last_under(entries.drop_last(), key)
    }
}

/// The items of a list, each as [`Bencode::normalized`] gives it.
pub open spec fn normalized_items(items: Seq<Bencode>) -> Seq<Bencode>
    decreases items,
{
    Seq::new(
        items.len(),
        |i: int|
            if 0 <= i < items.len() {
                items[i].normalized()
            } else {
                arbitrary()
            },
    )
}

/// The entries of a dictionary, each with its value as
/// [`Bencode::normalized`] gives it.
pub open spec fn normalized_entries(entries: Seq<(Seq<u8>, Bencode)>) -> Seq<(Seq<u8>, Bencode)>
    decreases entries,
{
    Seq::new(
        entries.len(),
        |i: int|
            if 0 <= i < entries.len() {
                (entries[i].0, entries[i].1.normalized())
            } else {
                arbitrary()
            },
    )
}

impl Bencode {
    /// Whether the integers of this value fit into 64 bits and the lengths
    /// of its byte strings and keys into `usize`.
    pub open spec fn fits(self) -> bool
        decreases self,
    {
        match self {
            Bencode::Integer(n) => i64::MIN <= n <= i64::MAX,
            Bencode::ByteString(bytes) => bytes.len() <= usize::MAX,
            Bencode::List(items) => forall|i: int|
                0 <= i < items.len() ==> (#[trigger] items[i]).fits(),
            Bencode::Dict(entries) => forall|i: int|
                0 <= i < entries.len() ==> {
                    &&& (#[trigger] entries[i]).0.len() <= usize::MAX
                    &&& entries[i].1.fits()
                },
        }
    }

    /// Whether no dictionary in this value holds a key twice.
    pub open spec fn keys_differ(self) -> bool
        decreases self,
    {
        match self {
            Bencode::Integer(_) => true,
            Bencode::ByteString(_) => true,
            Bencode::List(items) => forall|i: int|
                0 <= i < items.len() ==> (#[trigger] items[i]).keys_differ(),
            Bencode::Dict(entries) => {
                &&& keys_distinct(entries)
                &&& forall|i: int|
                    0 <= i < entries.len() ==> (#[trigger] entries[i]).1.keys_differ()
            },
        }
    }

    /// Whether a [`Value`] can hold this value: its numbers fit, and no
    /// dictionary in it holds a key twice.
    pub open spec fn well_formed(self) -> bool {
        self.fits() && self.keys_differ()
    }

    /// Whether the lists and dictionaries of this value are nested at most
    /// `depth` deep, the value itself included.
    pub open spec fn nests_within(self, depth: nat) -> bool
        decreases self,
    {
        match self {
            Bencode::Integer(_) => true,
            Bencode::ByteString(_) => true,
            Bencode::List(items) => depth > 0 && forall|i: int|
                0 <= i < items.len() ==> (#[trigger] items[i]).nests_within((depth - 1) as nat),
            Bencode::Dict(entries) => depth > 0 && forall|i: int|
                0 <= i < entries.len() ==> (#[trigger] entries[i]).1.nests_within(
                    (depth - 1) as nat,
                ),
        }
    }

    /// This value as dictionaries hold it: where the entries of a dictionary
    /// repeat a key, the first of them keeps its place and takes the value
    /// of the last, and the others are dropped.
    pub open spec fn normalized(self) -> Bencode
        decreases self,
    {
        match self {
            Bencode::Integer(_) => self,
            Bencode::ByteString(_) => self,
            Bencode::List(items) => Bencode::List(normalized_items(items)),
            Bencode::Dict(entries) => Bencode::Dict(
                insert_all(Seq::empty(), normalized_entries(entries)),
            ),
        }
    }
}

impl Dict {
    #[verifier::type_invariant]
    spec fn holds_no_key_twice(self) -> bool {
        keys_distinct(self@)
    }

    /// A dictionary without entries.
    pub fn new() -> (dict: Dict)
        ensures
            dict@ == Seq::<(Seq<u8>, Bencode)>::empty(),
    {
        let dict = Dict { entries: Vec::new() };
        dict
    }

    /// The number of entries, none of which has the key of another.
    pub fn len(&self) -> (n: usize)
        ensures
            n == self@.len(),
            keys_distinct(self@),
    {
        proof {
            use_type_invariant(self);
        }
        self.entries.len()
    }

    /// The entries in the order of their keys' first insertion, none of
    /// which has the key of another.
    pub fn entries(&self) -> (entries: &Vec<(Vec<u8>, Value)>)
        ensures
            entries_view(entries@) == self@,
            keys_distinct(self@),
    {
        proof {
            use_type_invariant(self);
        }
        &self.entries
    }

    /// The value stored under `key`, if there is one. The keys are searched
    /// one by one.
    pub fn get(&self, key: &[u8]) -> (r: Option<&Value>)
        ensures
            match r {
                Some(value) => dict_get(self@, key@) == Some(value@),
                None => dict_get(self@, key@) is None,
            },
    {
        let i = position_of(&self.entries, key);
        if i < self.entries.len() {
            Some(&self.entries[i].1)
        } else {
            None
        }
    }

    /// Stores `value` under `key`. A key that is present keeps its place and
    /// its old value is dropped; a new key becomes the last entry. The keys
    /// are searched one by one.
    pub fn insert(&mut self, key: Vec<u8>, value: Value)
        ensures
            final(self)@ == dict_insert(old(self)@, key@, value@),
    {
        proof {
            use_type_invariant(&*self);
            lemma_insert_keeps_keys_distinct(self@, key@, value@);
        }
        let mut entries: Vec<(Vec<u8>, Value)> = Vec::new();
        core::mem::swap(&mut self.entries, &mut entries);
        let ghost before = entries_view(entries@);
        let i = position_of(&entries, key.as_slice());
        if i < entries.len() {
            entries.set(i, (key, value));
        } else {
            entries.push((key, value));
        }
        assert(entries_view(entries@) =~= dict_insert(before, key@, value@));
        self.entries = entries;
    }
}

/// The index of the first entry whose key is `key`, or the number of entries
/// if there is none.
fn position_of(entries: &Vec<(Vec<u8>, Value)>, key: &[u8]) -> (i: usize)
    ensures
        i == find_key(entries_view(entries@), key@, 0),
        i <= entries@.len(),
{
    let mut i: usize = 0;
    while i < entries.len()
        invariant
            0 <= i <= entries@.len(),
            find_key(entries_view(entries@), key@, 0) == find_key(
                entries_view(entries@),
                key@,
                i as int,
            ),
        decreases entries@.len() - i,
    {
        if bytes_equal(entries[i].0.as_slice(), key) {
            return i;
        }
        i = i + 1;
    }
    i
}

/// Tests whether two byte strings hold the same bytes.
pub fn bytes_equal(a: &[u8], b: &[u8]) -> (r: bool)
    ensures
        r == (a@ == b@),
{
    if a.len() != b.len() {
        return false;
    }
    let mut i: usize = 0;
    while i < a.len()
        invariant
            a@.len() == b@.len(),
            0 <= i <= a@.len(),
            forall|j: int| 0 <= j < i ==> a@[j] == b@[j],
        decreases a@.len() - i,
    {
        if a[i] != b[i] {
            return false;
        }
        i = i + 1;
    }
    assert(a@ =~= b@);
    true
}

/// A search for a key needs to look no further than its first occurrence,
/// and finds nothing among entries with other keys.
pub proof fn lemma_find_key(entries: Seq<(Seq<u8>, Bencode)>, key: Seq<u8>, from: int)
    requires
        0 <= from <= entries.len(),
    ensures
        from <= find_key(entries, key, from) <= entries.len(),
        find_key(entries, key, from) < entries.len() ==> entries[find_key(entries, key, from)].0
            == key,
        forall|i: int|
            from <= i < find_key(entries, key, from) ==> (#[trigger] entries[i]).0 != key,
    decreases entries.len() - from,
{
    if from < entries.len() && entries[from].0 != key {
        lemma_find_key(entries, key, from + 1);
    }
}

/// Storing a value under a key keeps the keys distinct.
pub proof fn lemma_insert_keeps_keys_distinct(
    entries: Seq<(Seq<u8>, Bencode)>,
    key: Seq<u8>,
    value: Bencode,
)
    requires
        keys_distinct(entries),
    ensures
        keys_distinct(dict_insert(entries, key, value)),
{
    lemma_find_key(entries, key, 0);
}

/// The value stored last under a key is the one found under it, the values
/// under other keys stay as they were, and no entry changes its place or its
/// key.
pub proof fn lemma_insert_then_get(
    entries: Seq<(Seq<u8>, Bencode)>,
    key: Seq<u8>,
    value: Bencode,
    other: Seq<u8>,
)
    ensures
        dict_get(dict_insert(entries, key, value), key) == Some(value),
        other != key ==> dict_get(dict_insert(entries, key, value), other) == dict_get(
            entries,
            other,
        ),
        forall|i: int|
            0 <= i < entries.len() ==> (#[trigger] dict_insert(entries, key, value)[i]).0
                == entries[i].0,
{
    let after = dict_insert(entries, key, value);
    lemma_find_key(entries, key, 0);
    lemma_find_key(after, key, 0);
    lemma_find_key(entries, other, 0);
    lemma_find_key(after, other, 0);
    let at = find_key(entries, key, 0);
    assert(after[at] == (key, value));
    if other != key {
        let before = find_key(entries, other, 0);
        if before < entries.len() {
            assert(after[before] == entries[before]);
        }
    }
}

/// The last entry under a key is the last among all but the first entry,
/// or else the first entry if that has the key.
pub proof fn lemma_last_under_first(entries: Seq<(Seq<u8>, Bencode)>, key: Seq<u8>)
    requires
        entries.len() > 0,
    ensures
        last_under(entries, key) == match last_under(entries.drop_first(), key) {
            Some(value) => Some(value),
            None => if entries.first().0 == key {
                Some(entries.first().1)
            } else {
                None
            },
        },
    decreases entries.len(),
{
    if entries.len() > 1 {
        assert(entries.drop_last().drop_first() =~= entries.drop_first().drop_last());
        lemma_last_under_first(entries.drop_last(), key);
    } else {
        assert(entries.drop_last() =~= entries.drop_first());
    }
}

/// After entries have been stored one after another, what is found under a
/// key is the value of the last of them with that key, or what was found
/// before if none of them has it.
pub proof fn lemma_insert_all_keeps_last(
    stored: Seq<(Seq<u8>, Bencode)>,
    entries: Seq<(Seq<u8>, Bencode)>,
    key: Seq<u8>,
)
    ensures
        dict_get(insert_all(stored, entries), key) == match last_under(entries, key) {
            Some(value) => Some(value),
            None => dict_get(stored, key),
        },
    decreases entries.len(),
{
    if entries.len() > 0 {
        let first = entries.first();
        lemma_last_under_first(entries, key);
        lemma_insert_then_get(stored, first.0, first.1, key);
        lemma_insert_all_keeps_last(
            dict_insert(stored, first.0, first.1),
            entries.drop_first(),
            key,
        );
    }
}

} // verus!
