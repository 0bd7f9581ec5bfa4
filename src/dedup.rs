use vstd::prelude::*;

use crate::item::{decimal, digit_char};

verus! {

/// The decimal numbers of `ids`, separated by commas.
pub open spec fn joined_ids(ids: Seq<u64>) -> Seq<char>
    decreases ids.len(),
{
    if ids.len() == 0 {
        Seq::empty()
    } else if ids.len() == 1 {
        decimal(ids[0] as nat)
    } else {
        joined_ids(ids.drop_last()).push(',') + decimal(ids.last() as nat)
    }
}

/// The compact JSON array of a list of identifiers: `[1,2,3]`.
pub open spec fn ids_json(ids: Seq<u64>) -> Seq<char> {
    seq!['['] + joined_ids(ids) + seq![']']
}

/// The list of identifiers that serde_json reads from a text, if the text
/// is a JSON array of unsigned 64-bit integers.
pub uninterp spec fn ids_from_json(text: Seq<char>) -> Option<Seq<u64>>;

/// Relies on `serde_json::to_string`: a list of integers is written as a
/// compact array of their decimal numbers, and writing it into memory
/// cannot fail.
#[verifier::external_body]
fn encode_ids(ids: &Vec<u64>) -> (r: Option<String>)
    ensures
        match r {
            Some(text) => text@ == ids_json(ids@),
            None => false,
        },
{
    serde_json::to_string(ids).ok()
}

/// Relies on `serde_json::from_str`: whether a text reads as a list of
/// integers, and which list, depends on the text alone, and a compact array
/// of decimal numbers reads as the list of those numbers.
#[verifier::external_body]
fn decode_ids(text: &str) -> (r: Option<Vec<u64>>)
    ensures
        match r {
            Some(ids) => ids_from_json(text@) == Some(ids@),
            None => ids_from_json(text@) is None,
        },
        forall|v: Seq<u64>|
            text@ == #[trigger] ids_json(v) ==> match r {
                Some(ids) => ids@ == v,
                None => false,
            },
{
    serde_json::from_str::<Vec<u64>>(text).ok()
}

/// What could be read from the cache file at startup.
#[derive(Clone, Debug)]
pub enum CacheRead {
    /// There is no cache location, or no file there yet.
    Absent,
    /// The file exists but reading it failed.
    Unreadable,
    /// The file's contents.
    Text(String),
}

/// Why the set loaded at startup is empty although a cache file was there.
#[derive(Clone, Copy, Debug, PartialEq, Eq, Structural)]
pub enum LoadWarning {
    Unreadable,
    Corrupt,
}

/// The identifiers of the items already handled.
///
/// Identifiers are kept once each, in the order in which they were added,
/// in a list rather than a hash set: the stored text of a set then depends
/// on how the set was built alone, not on a hasher seeded anew in each
/// process.
#[derive(Clone, Debug)]
pub struct DedupSet {
    ids: Vec<u64>,
}

/// Appending an element to a list adds it to the list's set.
pub proof fn lemma_push_to_set(s: Seq<u64>, x: u64)
    ensures
        s.push(x).to_set() == s.to_set().insert(x),
{
    assert forall|y: u64| #[trigger] s.push(x).contains(y) <==> (s.contains(y) || y == x) by {
        if s.contains(y) {
            let k = choose|k: int| 0 <= k < s.len() && s[k] == y;
            assert(s.push(x)[k] == y);
        }
        if y == x {
            assert(s.push(x)[s.len() as int] == x);
        }
        if s.push(x).contains(y) {
            let k = choose|k: int| 0 <= k < s.len() + 1 && s.push(x)[k] == y;
            if k < s.len() {
                assert(s[k] == y);
            }
        }
    }
    assert(s.push(x).to_set() =~= s.to_set().insert(x));
}

/// The set that a load of the stored text `text` yields.
pub open spec fn loaded_set(text: Seq<char>) -> Set<u64> {
    match ids_from_json(text) {
        Some(ids) => ids.to_set(),
        None => Set::empty(),
    }
}

impl View for DedupSet {
    type V = Set<u64>;

    open spec fn view(&self) -> Set<u64> {
        self.listed().to_set()
    }
}

impl DedupSet {
    /// The identifiers in the order in which they were added.
    pub closed spec fn listed(&self) -> Seq<u64> {
        self.ids@
    }

    /// Each identifier is listed once.
    pub closed spec fn wf(&self) -> bool {
        self.ids@.no_duplicates()
    }

    pub fn new() -> (r: DedupSet)
        ensures
            r.wf(),
            r@ == Set::<u64>::empty(),
            r.listed() == Seq::<u64>::empty(),
    {
        let r = DedupSet { ids: Vec::new() };
        assert(r@ =~= Set::<u64>::empty());
        r
    }

    pub fn len(&self) -> (r: usize)
        requires
            self.wf(),
        ensures
            r == self@.len(),
    {
        proof {
            self.ids@.unique_seq_to_set();
        }
        self.ids.len()
    }

    pub fn contains(&self, id: u64) -> (r: bool)
        requires
            self.wf(),
        ensures
            r == self@.contains(id),
    {
        let mut i: usize = 0;
        while i < self.ids.len()
            invariant
                0 <= i <= self.ids@.len(),
                forall|k: int| 0 <= k < i ==> self.ids@[k] != id,
            decreases self.ids@.len() - i,
        {
            if self.ids[i] == id {
                return true;
            }
            i = i + 1;
        }
        false
    }

    /// Adds one identifier; adding one that is there already changes nothing.
    pub fn insert(&mut self, id: u64)
        requires
            old(self).wf(),
        ensures
            final(self).wf(),
            final(self)@ == old(self)@.insert(id),
            old(self)@.contains(id) ==> final(self).listed() == old(self).listed(),
            !old(self)@.contains(id) ==> final(self).listed() == old(self).listed().push(id),
    {
        if !self.contains(id) {
            self.ids.push(id);
            proof {
                lemma_push_to_set(old(self).ids@, id);
            }
        }
        assert(self@ =~= old(self)@.insert(id));
    }

    /// Adds a batch of identifiers.
    pub fn extend(&mut self, ids: &Vec<u64>)
        requires
            old(self).wf(),
        ensures
            final(self).wf(),
            final(self)@ == old(self)@.union(ids@.to_set()),
    {
        let mut i: usize = 0;
        while i < ids.len()
            invariant
                0 <= i <= ids@.len(),
                self.wf(),
                self@ == old(self)@.union(ids@.take(i as int).to_set()),
            decreases ids@.len() - i,
        {
            self.insert(ids[i]);
            assert(ids@.take(i + 1) =~= ids@.take(i as int).push(ids@[i as int]));
            proof {
                lemma_push_to_set(ids@.take(i as int), ids@[i as int]);
            }
            i = i + 1;
        }
        assert(ids@.take(ids@.len() as int) =~= ids@);
        assert(self@ =~= old(self)@.union(ids@.to_set()));
    }

    /// The set of the identifiers in `ids`, each kept once, in order of
    /// first appearance.
    pub fn from_ids(ids: &Vec<u64>) -> (r: DedupSet)
        ensures
            r.wf(),
            r@ == ids@.to_set(),
    {
        let mut r = DedupSet::new();
        r.extend(ids);
        assert(r@ =~= ids@.to_set());
        r
    }

    /// The identifiers, each once, in the order in which they were added.
    pub fn to_ids(&self) -> (r: Vec<u64>)
        requires
            self.wf(),
        ensures
            r@ == self.listed(),
            r@.no_duplicates(),
            r@.to_set() == self@,
    {
        self.ids.clone()
    }

    /// The text to store: the JSON array of the identifiers.
    pub fn to_json(&self) -> (r: String)
        requires
            self.wf(),
        ensures
            r@ == ids_json(self.listed()),
    {
        match encode_ids(&self.ids) {
            Some(text) => text,
            None => String::new(),
        }
    }

    /// The set read back from stored text, or `None` when the text is not a
    /// JSON array of identifiers.
    pub fn from_json(text: &str) -> (r: Option<DedupSet>)
        ensures
            match r {
                Some(set) => set.wf() && ids_from_json(text@) is Some && set@ == loaded_set(text@),
                None => ids_from_json(text@) is None,
            },
            forall|v: Seq<u64>|
                text@ == #[trigger] ids_json(v) ==> match r {
                    Some(set) => set@ == v.to_set(),
                    None => false,
                },
    {
        match decode_ids(text) {
            Some(ids) => Some(DedupSet::from_ids(&ids)),
            None => None,
        }
    }

    /// The set to start with, from what could be read of the cache file.
    ///
    /// This never fails: a missing file gives the empty set, and an
    /// unreadable or corrupt one gives the empty set with a warning.
    pub fn load(read: CacheRead) -> (r: (DedupSet, Option<LoadWarning>))
        ensures
            r.0.wf(),
            match read {
                CacheRead::Absent => r.0@ == Set::<u64>::empty() && r.1 is None,
                CacheRead::Unreadable => r.0@ == Set::<u64>::empty() && r.1 == Some(
                    LoadWarning::Unreadable,
                ),
                CacheRead::Text(text) => r.0@ == loaded_set(text@) && (r.1 == if ids_from_json(
                    text@,
                ) is Some {
                    None
                } else {
                    Some(LoadWarning::Corrupt)
                }) && r.0@ == stored_set(text@) && forall|v: Seq<u64>|
                    text@ == #[trigger] ids_json(v) ==> r.0@ == v.to_set() && r.1 is None,
            },

    {
        match read {
            CacheRead::Absent => (DedupSet::new(), None),
            CacheRead::Unreadable => (DedupSet::new(), Some(LoadWarning::Unreadable)),
            CacheRead::Text(text) => match DedupSet::from_json(text.as_str()) {
                Some(set) => (set, None),
                None => (DedupSet::new(), Some(LoadWarning::Corrupt)),
            },
        }
    }
}

/// A decimal rendering holds at least one character, and no comma.
proof fn lemma_decimal_shape(n: nat)
    ensures
        decimal(n).len() >= 1,
        n >= 10 ==> decimal(n).len() >= 2,
        forall|i: int| 0 <= i < decimal(n).len() ==> #[trigger] decimal(n)[i] != ',',
    decreases n,
{
    if n >= 10 {
        lemma_decimal_shape(n / 10);
    }
}

/// Different numbers have different decimal renderings.
proof fn lemma_decimal_injective(a: nat, b: nat)
    requires
        decimal(a) == decimal(b),
    ensures
        a == b,
    decreases a,
{
    lemma_decimal_shape(a);
    lemma_decimal_shape(b);
    if a < 10 && b < 10 {
        assert(decimal(a) == seq![digit_char(a)]);
        assert(decimal(b) == seq![digit_char(b)]);
        assert(decimal(a)[0] == decimal(b)[0]);
        assert(seq![digit_char(a)][0] == digit_char(a));
        assert(seq![digit_char(b)][0] == digit_char(b));
        assert(digit_char(a) == digit_char(b));
        assert(a == 0 || a == 1 || a == 2 || a == 3 || a == 4 || a == 5 || a == 6 || a == 7 || a
            == 8 || a == 9);
        assert(b == 0 || b == 1 || b == 2 || b == 3 || b == 4 || b == 5 || b == 6 || b == 7 || b
            == 8 || b == 9);
    } else if a >= 10 && b >= 10 {
        let da = decimal(a);
        let db = decimal(b);
        assert(da.last() == db.last());
        assert(da.drop_last() =~= decimal(a / 10));
        assert(db.drop_last() =~= decimal(b / 10));
        lemma_decimal_injective(a / 10, b / 10);
    } else {
        assert(decimal(a).len() == decimal(b).len());
    }
}

/// A text that ends in a comma and a comma-free tail splits there in one way.
proof fn lemma_split_at_last_comma(x: Seq<char>, d1: Seq<char>, y: Seq<char>, d2: Seq<char>)
    requires
        x.push(',') + d1 == y.push(',') + d2,
        forall|i: int| 0 <= i < d1.len() ==> #[trigger] d1[i] != ',',
        forall|i: int| 0 <= i < d2.len() ==> #[trigger] d2[i] != ',',
    ensures
        x == y,
        d1 == d2,
{
    let l = x.push(',') + d1;
    let r = y.push(',') + d2;
    assert(l.len() == r.len());
    assert(l.len() == x.len() + 1 + d1.len());
    assert(r.len() == y.len() + 1 + d2.len());
    if d1.len() < d2.len() {
        let k = x.len() as int;
        assert(l[k] == ',');
        assert(r[k] == d2[k - y.len() - 1]);
    } else if d2.len() < d1.len() {
        let k = y.len() as int;
        assert(x.push(',').len() == x.len() + 1);
        assert(k >= x.len() + 1);
        assert(r[k] == ',');
        assert(l[k] == d1[k - x.len() - 1]);
    }
    assert(x =~= l.subrange(0, x.len() as int));
    assert(y =~= r.subrange(0, y.len() as int));
    assert(d1 =~= l.subrange(x.len() as int + 1, l.len() as int));
    assert(d2 =~= r.subrange(y.len() as int + 1, r.len() as int));
}

/// A joined list of two or more numbers holds a comma.
proof fn lemma_joined_has_comma(v: Seq<u64>)
    requires
        v.len() >= 2,
    ensures
        joined_ids(v)[joined_ids(v.drop_last()).len() as int] == ',',
        joined_ids(v).len() > joined_ids(v.drop_last()).len(),
{
}

/// Different lists are joined into different texts.
proof fn lemma_joined_injective(v: Seq<u64>, w: Seq<u64>)
    requires
        joined_ids(v) == joined_ids(w),
    ensures
        v == w,
    decreases v.len(),
{
    if v.len() >= 1 {
        lemma_decimal_shape(v.last() as nat);
    }
    if w.len() >= 1 {
        lemma_decimal_shape(w.last() as nat);
    }
    if v.len() >= 2 && w.len() >= 2 {
        lemma_split_at_last_comma(
            joined_ids(v.drop_last()),
            decimal(v.last() as nat),
            joined_ids(w.drop_last()),
            decimal(w.last() as nat),
        );
        lemma_joined_injective(v.drop_last(), w.drop_last());
        lemma_decimal_injective(v.last() as nat, w.last() as nat);
        assert(v =~= v.drop_last().push(v.last()));
        assert(w =~= w.drop_last().push(w.last()));
    } else if v.len() == 1 && w.len() == 1 {
        lemma_decimal_injective(v[0] as nat, w[0] as nat);
        assert(v =~= w);
    } else if v.len() >= 2 && w.len() == 1 {
        lemma_joined_has_comma(v);
        let k = joined_ids(v.drop_last()).len() as int;
        assert(decimal(w[0] as nat)[k] != ',');
    } else if v.len() == 1 && w.len() >= 2 {
        lemma_joined_has_comma(w);
        let k = joined_ids(w.drop_last()).len() as int;
        assert(decimal(v[0] as nat)[k] != ',');
    } else {
        if v.len() >= 2 {
            lemma_joined_has_comma(v);
        }
        if w.len() >= 2 {
            lemma_joined_has_comma(w);
        }
        assert(joined_ids(v).len() == joined_ids(w).len());
        assert(v =~= w);
    }
}

/// Different lists are written as different texts.
pub proof fn lemma_ids_json_injective(v: Seq<u64>, w: Seq<u64>)
    requires
        ids_json(v) == ids_json(w),
    ensures
        v == w,
{
    let jv = joined_ids(v);
    let jw = joined_ids(w);
    assert(jv =~= ids_json(v).subrange(1, ids_json(v).len() - 1));
    assert(jw =~= ids_json(w).subrange(1, ids_json(w).len() - 1));
    lemma_joined_injective(v, w);
}

/// The set that a load of stored text yields: the set of the list that the
/// text is the JSON array of, else what the JSON layer reads from it.
pub open spec fn stored_set(text: Seq<char>) -> Set<u64> {
    if exists|v: Seq<u64>| text == ids_json(v) {
        (choose|v: Seq<u64>| text == ids_json(v)).to_set()
    } else {
        loaded_set(text)
    }
}

/// Loading the text that a set is stored as gives back the same set.
pub proof fn lemma_store_then_load(set: DedupSet)
    ensures
        stored_set(ids_json(set.listed())) == set@,
{
    let text = ids_json(set.listed());
    let v = choose|v: Seq<u64>| text == ids_json(v);
    lemma_ids_json_injective(v, set.listed());
}

} // verus!
