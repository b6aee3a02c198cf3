//! The phone book: a mapping from contact names to phone entries.
//!
//! The book is an association list kept strictly sorted by name in
//! code-point order, the iteration order of `BTreeMap<String, _>`. Sorting
//! makes iteration deterministic, which the serialized format relies on;
//! strict sorting makes the names unique, so the list is a mapping.

use crate::entry::PhoneEntry;
use crate::text::lemma_lex_connected;
use crate::text::lemma_lex_irrefl;
use crate::text::lemma_lex_trans;
use crate::text::lex_lt;
use crate::text::str_eq;
use crate::text::str_lt;
use vstd::prelude::*;

verus! {

/// The view of one entry: its mobile and work fields.
pub type EntryV = (Seq<char>, Seq<char>);

/// The view of one record: a name and its entry.
pub type RecV = (Seq<char>, EntryV);

/// Records strictly ascending by name: sorted iteration and unique keys.
pub open spec fn sorted_by_name(s: Seq<RecV>) -> bool {
    forall|i: int, j: int| 0 <= i < j < s.len() ==> lex_lt(s[i].0, s[j].0)
}

/// The mapping a record sequence denotes. On sequences with unique names
/// (the only ones the book holds) each name maps to its record's entry.
pub open spec fn map_of(s: Seq<RecV>) -> Map<Seq<char>, EntryV>
    decreases s.len(),
{
    if s.len() == 0 {
        Map::empty()
    } else {
        map_of(s.subrange(1, s.len() as int)).insert(s[0].0, s[0].1)
    }
}

/// Insertion into a sorted record sequence: replaces the record of an
/// equal name, otherwise splices the new record in at its sorted place.
pub open spec fn spec_insert(s: Seq<RecV>, k: Seq<char>, v: EntryV) -> Seq<RecV>
    decreases s.len(),
{
    if s.len() == 0 {
        seq![(k, v)]
    } else if lex_lt(s[0].0, k) {
        seq![s[0]] + spec_insert(s.subrange(1, s.len() as int), k, v)
    } else if s[0].0 == k {
        seq![(k, v)] + s.subrange(1, s.len() as int)
    } else {
        seq![(k, v)] + s
    }
}

/// Removal from a record sequence: drops the first record of the name.
pub open spec fn spec_remove(s: Seq<RecV>, k: Seq<char>) -> Seq<RecV>
    decreases s.len(),
{
    if s.len() == 0 {
        s
    } else if s[0].0 == k {
        s.subrange(1, s.len() as int)
    } else {
        seq![s[0]] + spec_remove(s.subrange(1, s.len() as int), k)
    }
}

/// A name is in the mapping exactly when some record carries it.
pub proof fn lemma_map_of_contains(s: Seq<RecV>, k: Seq<char>)
    ensures
        map_of(s).contains_key(k) <==> (exists|i: int| 0 <= i < s.len() && s[i].0 == k),
    decreases s.len(),
{
    if s.len() > 0 {
        let tail = s.subrange(1, s.len() as int);
        lemma_map_of_contains(tail, k);
        if map_of(s).contains_key(k) {
            if s[0].0 == k {
                assert(s[0].0 == k && 0 < s.len());
            } else {
                let i = choose|i: int| 0 <= i < tail.len() && tail[i].0 == k;
                assert(s[i + 1].0 == k);
            }
        }
        if exists|i: int| 0 <= i < s.len() && s[i].0 == k {
            let i = choose|i: int| 0 <= i < s.len() && s[i].0 == k;
            if i > 0 {
                assert(tail[i - 1].0 == k);
            }
        }
    }
}

/// Every name of the inserted sequence is the new name or an old one.
pub proof fn lemma_insert_keys(s: Seq<RecV>, k: Seq<char>, v: EntryV)
    ensures
        forall|i: int|
            0 <= i < spec_insert(s, k, v).len() ==> (spec_insert(s, k, v)[i].0 == k || (exists|
                j: int,
            | 0 <= j < s.len() && s[j].0 == #[trigger] spec_insert(s, k, v)[i].0)),
    decreases s.len(),
{
    let r = spec_insert(s, k, v);
    if s.len() == 0 {
    } else {
        let tail = s.subrange(1, s.len() as int);
        if lex_lt(s[0].0, k) {
            lemma_insert_keys(tail, k, v);
            let rt = spec_insert(tail, k, v);
            assert forall|i: int| 0 <= i < r.len() implies (r[i].0 == k || (exists|j: int|
                0 <= j < s.len() && s[j].0 == #[trigger] r[i].0)) by {
                if i == 0 {
                    assert(s[0].0 == r[0].0);
                } else {
                    assert(r[i] == rt[i - 1]);
                    if rt[i - 1].0 != k {
                        let j = choose|j: int| 0 <= j < tail.len() && tail[j].0 == rt[i - 1].0;
                        assert(s[j + 1].0 == r[i].0);
                    }
                }
            }
        } else if s[0].0 == k {
            assert forall|i: int| 0 <= i < r.len() implies (r[i].0 == k || (exists|j: int|
                0 <= j < s.len() && s[j].0 == #[trigger] r[i].0)) by {
                if i > 0 {
                    assert(r[i] == tail[i - 1]);
                    assert(s[i].0 == r[i].0);
                }
            }
        } else {
            assert forall|i: int| 0 <= i < r.len() implies (r[i].0 == k || (exists|j: int|
                0 <= j < s.len() && s[j].0 == #[trigger] r[i].0)) by {
                if i > 0 {
                    assert(s[i - 1].0 == r[i].0);
                }
            }
        }
    }
}

/// Insertion keeps the records strictly sorted.
pub proof fn lemma_insert_sorted(s: Seq<RecV>, k: Seq<char>, v: EntryV)
    requires
        sorted_by_name(s),
    ensures
        sorted_by_name(spec_insert(s, k, v)),
    decreases s.len(),
{
    let r = spec_insert(s, k, v);
    if s.len() == 0 {
    } else {
        let tail = s.subrange(1, s.len() as int);
        assert(sorted_by_name(tail));
        if lex_lt(s[0].0, k) {
            lemma_insert_sorted(tail, k, v);
            lemma_insert_keys(tail, k, v);
            let rt = spec_insert(tail, k, v);
            assert forall|i: int, j: int| 0 <= i < j < r.len() implies lex_lt(
                r[i].0,
                r[j].0,
            ) by {
                if i == 0 {
                    // r[j] is a record of the inserted tail: its name is k
                    // or one of the tail's names, both above s[0].0.
                    assert(r[j] == rt[j - 1]);
                    if rt[j - 1].0 == k {
                    } else {
                        let m = choose|m: int| 0 <= m < tail.len() && tail[m].0 == rt[j - 1].0;
                        assert(lex_lt(s[0].0, s[m + 1].0));
                    }
                } else {
                    assert(r[i] == rt[i - 1] && r[j] == rt[j - 1]);
                }
            }
        } else if s[0].0 == k {
            assert forall|i: int, j: int| 0 <= i < j < r.len() implies lex_lt(
                r[i].0,
                r[j].0,
            ) by {
                if i == 0 {
                    assert(r[j] == tail[j - 1]);
                    assert(lex_lt(s[0].0, s[j].0));
                } else {
                    assert(r[i] == tail[i - 1] && r[j] == tail[j - 1]);
                    assert(lex_lt(s[i].0, s[j].0));
                }
            }
        } else {
            lemma_lex_connected_cases(s[0].0, k);
            assert(lex_lt(k, s[0].0));
            assert forall|i: int, j: int| 0 <= i < j < r.len() implies lex_lt(
                r[i].0,
                r[j].0,
            ) by {
                if i == 0 {
                    assert(r[j] == s[j - 1]);
                    if j == 1 {
                    } else {
                        assert(lex_lt(s[0].0, s[j - 1].0));
                        lemma_lex_trans(k, s[0].0, s[j - 1].0);
                    }
                } else {
                    assert(r[i] == s[i - 1] && r[j] == s[j - 1]);
                    assert(lex_lt(s[i - 1].0, s[j - 1].0));
                }
            }
        }
    }
}

/// Of two distinct names that are not ordered one way, the other holds.
proof fn lemma_lex_connected_cases(a: Seq<char>, b: Seq<char>)
    requires
        !lex_lt(a, b),
        a != b,
    ensures
        lex_lt(b, a),
{
    if !lex_lt(b, a) {
        lemma_lex_connected(a, b);
    }
}

/// Insertion means exactly `insert` on the denoted mapping.
pub proof fn lemma_insert_map(s: Seq<RecV>, k: Seq<char>, v: EntryV)
    requires
        sorted_by_name(s),
    ensures
        map_of(spec_insert(s, k, v)) == map_of(s).insert(k, v),
    decreases s.len(),
{
    let r = spec_insert(s, k, v);
    if s.len() == 0 {
        assert(r == seq![(k, v)]);
        assert(r.subrange(1, r.len() as int) =~= Seq::<RecV>::empty());
        assert(map_of(r) == map_of(r.subrange(1, r.len() as int)).insert(k, v));
        assert(map_of(Seq::<RecV>::empty()) == Map::<Seq<char>, EntryV>::empty());
        assert(map_of(r) =~= map_of(s).insert(k, v));
    } else {
        let tail = s.subrange(1, s.len() as int);
        assert(sorted_by_name(tail));
        if lex_lt(s[0].0, k) {
            lemma_insert_map(tail, k, v);
            let rt = spec_insert(tail, k, v);
            assert(r =~= seq![s[0]] + rt);
            assert(r.subrange(1, r.len() as int) =~= rt);
            // map_of(r) == map_of(rt).insert(s[0]) == map_of(tail).insert(k, v).insert(s[0])
            // and the two inserts commute because the names differ.
            lemma_lex_irrefl(s[0].0);
            assert(s[0].0 != k);
            assert(r.len() > 0 && r[0] == s[0]);
            assert(map_of(r) == map_of(r.subrange(1, r.len() as int)).insert(r[0].0, r[0].1));
            assert(map_of(r) == map_of(tail).insert(k, v).insert(s[0].0, s[0].1));
            assert(map_of(s) == map_of(tail).insert(s[0].0, s[0].1));
            assert(map_of(r) =~= map_of(s).insert(k, v));
        } else if s[0].0 == k {
            assert(r.subrange(1, r.len() as int) =~= tail);
            assert(r[0] == (k, v));
            assert(map_of(r) =~= map_of(s).insert(k, v));
        } else {
            assert(r.subrange(1, r.len() as int) =~= s);
            assert(map_of(r) =~= map_of(s).insert(k, v));
        }
    }
}

/// Removal keeps the records strictly sorted.
pub proof fn lemma_remove_sorted(s: Seq<RecV>, k: Seq<char>)
    requires
        sorted_by_name(s),
    ensures
        sorted_by_name(spec_remove(s, k)),
        spec_remove(s, k).len() <= s.len(),
        forall|i: int|
            0 <= i < spec_remove(s, k).len() ==> exists|j: int|
                0 <= j < s.len() && s[j] == #[trigger] spec_remove(s, k)[i],
    decreases s.len(),
{
    let r = spec_remove(s, k);
    if s.len() == 0 {
    } else {
        let tail = s.subrange(1, s.len() as int);
        assert(sorted_by_name(tail));
        if s[0].0 == k {
            assert forall|i: int| 0 <= i < r.len() implies exists|j: int|
                0 <= j < s.len() && s[j] == #[trigger] r[i] by {
                assert(s[i + 1] == r[i]);
            }
        } else {
            lemma_remove_sorted(tail, k);
            let rt = spec_remove(tail, k);
            assert forall|i: int| 0 <= i < r.len() implies exists|j: int|
                0 <= j < s.len() && s[j] == #[trigger] r[i] by {
                if i == 0 {
                    assert(s[0] == r[0]);
                } else {
                    assert(r[i] == rt[i - 1]);
                    let j = choose|j: int| 0 <= j < tail.len() && tail[j] == rt[i - 1];
                    assert(s[j + 1] == r[i]);
                }
            }
            assert forall|i: int, j: int| 0 <= i < j < r.len() implies lex_lt(
                r[i].0,
                r[j].0,
            ) by {
                if i == 0 {
                    assert(r[j] == rt[j - 1]);
                    let m = choose|m: int| 0 <= m < tail.len() && tail[m] == rt[j - 1];
                    assert(lex_lt(s[0].0, s[m + 1].0));
                } else {
                    assert(r[i] == rt[i - 1] && r[j] == rt[j - 1]);
                }
            }
        }
    }
}

/// Removal means exactly `remove` on the denoted mapping.
pub proof fn lemma_remove_map(s: Seq<RecV>, k: Seq<char>)
    requires
        sorted_by_name(s),
    ensures
        map_of(spec_remove(s, k)) == map_of(s).remove(k),
    decreases s.len(),
{
    let r = spec_remove(s, k);
    if s.len() == 0 {
        assert(map_of(r) =~= map_of(s).remove(k));
    } else {
        let tail = s.subrange(1, s.len() as int);
        assert(sorted_by_name(tail));
        if s[0].0 == k {
            // The names after the head are all above k, so the tail's
            // mapping has no record of k to begin with.
            lemma_map_of_contains(tail, k);
            assert forall|i: int| 0 <= i < tail.len() implies tail[i].0 != k by {
                assert(lex_lt(s[0].0, s[i + 1].0));
                lemma_lex_irrefl(k);
            }
            assert(map_of(r) =~= map_of(s).remove(k));
        } else {
            lemma_remove_map(tail, k);
            assert(r.subrange(1, r.len() as int) =~= spec_remove(tail, k));
            assert(map_of(r) =~= map_of(s).remove(k));
        }
    }
}

/// Where the scan of an insertion stops, the spliced form of the result.
proof fn lemma_spec_insert_at(s: Seq<RecV>, k: Seq<char>, v: EntryV, i: int)
    requires
        sorted_by_name(s),
        0 <= i <= s.len(),
        forall|j: int| 0 <= j < i ==> lex_lt(s[j].0, k),
        i < s.len() ==> !lex_lt(s[i].0, k),
    ensures
        i < s.len() && s[i].0 == k ==> spec_insert(s, k, v) == s.subrange(0, i) + seq![(k, v)]
            + s.subrange(i + 1, s.len() as int),
        !(i < s.len() && s[i].0 == k) ==> spec_insert(s, k, v) == s.subrange(0, i) + seq![(k, v)]
            + s.subrange(i, s.len() as int),
    decreases s.len(),
{
    let r = spec_insert(s, k, v);
    if i == 0 {
        if s.len() == 0 {
            assert(r =~= s.subrange(0, 0) + seq![(k, v)] + s.subrange(0, 0));
        } else if s[0].0 == k {
            assert(r =~= s.subrange(0, 0) + seq![(k, v)] + s.subrange(1, s.len() as int));
        } else {
            assert(r =~= s.subrange(0, 0) + seq![(k, v)] + s.subrange(0, s.len() as int));
        }
    } else {
        let tail = s.subrange(1, s.len() as int);
        assert(sorted_by_name(tail));
        assert(lex_lt(s[0].0, k));
        assert forall|j: int| 0 <= j < i - 1 implies lex_lt(tail[j].0, k) by {
            assert(tail[j] == s[j + 1]);
        }
        lemma_spec_insert_at(tail, k, v, i - 1);
        if i < s.len() && s[i].0 == k {
            assert(tail[i - 1].0 == k);
            assert(r =~= seq![s[0]] + (tail.subrange(0, i - 1) + seq![(k, v)] + tail.subrange(
                i,
                tail.len() as int,
            )));
            assert(r =~= s.subrange(0, i) + seq![(k, v)] + s.subrange(i + 1, s.len() as int));
        } else {
            assert(r =~= seq![s[0]] + (tail.subrange(0, i - 1) + seq![(k, v)] + tail.subrange(
                i - 1,
                tail.len() as int,
            )));
            assert(r =~= s.subrange(0, i) + seq![(k, v)] + s.subrange(i, s.len() as int));
        }
    }
}

/// Where the scan of a removal finds the name, the spliced form of the
/// result.
proof fn lemma_spec_remove_at(s: Seq<RecV>, k: Seq<char>, i: int)
    requires
        0 <= i < s.len(),
        s[i].0 == k,
        forall|j: int| 0 <= j < i ==> s[j].0 != k,
    ensures
        spec_remove(s, k) == s.subrange(0, i) + s.subrange(i + 1, s.len() as int),
    decreases s.len(),
{
    let r = spec_remove(s, k);
    if i == 0 {
        assert(r =~= s.subrange(0, 0) + s.subrange(1, s.len() as int));
    } else {
        let tail = s.subrange(1, s.len() as int);
        assert(tail[i - 1].0 == k);
        assert forall|j: int| 0 <= j < i - 1 implies tail[j].0 != k by {
            assert(tail[j] == s[j + 1]);
        }
        lemma_spec_remove_at(tail, k, i - 1);
        assert(r =~= seq![s[0]] + (tail.subrange(0, i - 1) + tail.subrange(i, tail.len() as int)));
        assert(r =~= s.subrange(0, i) + s.subrange(i + 1, s.len() as int));
    }
}

/// Removing a name no record carries changes nothing.
proof fn lemma_spec_remove_absent(s: Seq<RecV>, k: Seq<char>)
    requires
        forall|j: int| 0 <= j < s.len() ==> s[j].0 != k,
    ensures
        spec_remove(s, k) == s,
    decreases s.len(),
{
    if s.len() > 0 {
        let tail = s.subrange(1, s.len() as int);
        assert forall|j: int| 0 <= j < tail.len() implies tail[j].0 != k by {
            assert(tail[j] == s[j + 1]);
        }
        lemma_spec_remove_absent(tail, k);
        assert(spec_remove(s, k) =~= s);
    }
}

/// Inserting a name above every present name appends the record.
pub proof fn lemma_insert_append(s: Seq<RecV>, k: Seq<char>, v: EntryV)
    requires
        forall|j: int| 0 <= j < s.len() ==> lex_lt(s[j].0, k),
    ensures
        spec_insert(s, k, v) == s.push((k, v)),
    decreases s.len(),
{
    if s.len() == 0 {
        assert(spec_insert(s, k, v) =~= s.push((k, v)));
    } else {
        let tail = s.subrange(1, s.len() as int);
        assert forall|j: int| 0 <= j < tail.len() implies lex_lt(tail[j].0, k) by {
            assert(tail[j] == s[j + 1]);
        }
        lemma_insert_append(tail, k, v);
        assert(spec_insert(s, k, v) =~= s.push((k, v)));
    }
}

/// One scan step past a record of another name leaves the denoted
/// mapping's verdict on the sought name unchanged.
proof fn lemma_map_of_step(s: Seq<RecV>, i: int, k: Seq<char>)
    requires
        0 <= i < s.len(),
        s[i].0 != k,
    ensures
        map_of(s.subrange(i, s.len() as int)).contains_key(k) == map_of(
            s.subrange(i + 1, s.len() as int),
        ).contains_key(k),
        map_of(s.subrange(i + 1, s.len() as int)).contains_key(k) ==> map_of(
            s.subrange(i, s.len() as int),
        )[k] == map_of(s.subrange(i + 1, s.len() as int))[k],
{
    let u = s.subrange(i, s.len() as int);
    assert(u.len() > 0 && u[0] == s[i]);
    assert(u.subrange(1, u.len() as int) =~= s.subrange(i + 1, s.len() as int));
}

/// The phone book itself.
pub struct PhoneBook {
    records: Vec<(String, PhoneEntry)>,
}

impl View for PhoneBook {
    type V = Seq<RecV>;

    closed spec fn view(&self) -> Seq<RecV> {
        self.records@.map_values(|r: (String, PhoneEntry)| (r.0@, r.1@))
    }
}

impl PhoneBook {
    /// The book's invariant: records strictly sorted by name.
    pub open spec fn wf(&self) -> bool {
        sorted_by_name(self@)
    }

    /// The mapping the book denotes.
    pub open spec fn as_map(&self) -> Map<Seq<char>, EntryV> {
        map_of(self@)
    }

    /// An empty book.
    pub fn new() -> (r: PhoneBook)
        ensures
            r@ == Seq::<RecV>::empty(),
            r.wf(),
    {
        let r = PhoneBook { records: Vec::new() };
        proof {
            assert(r@ =~= Seq::<RecV>::empty());
        }
        r
    }

    /// The number of records.
    pub fn len(&self) -> (n: usize)
        ensures
            n == self@.len(),
    {
        self.records.len()
    }

    /// Whether the book holds no records.
    pub fn is_empty(&self) -> (r: bool)
        ensures
            r == (self@.len() == 0),
    {
        self.records.len() == 0
    }

    /// The name of the record at a position, in iteration order.
    pub fn name_at(&self, i: usize) -> (r: &String)
        requires
            i < self@.len(),
        ensures
            r@ == self@[i as int].0,
    {
        &self.records[i].0
    }

    /// The entry of the record at a position, in iteration order.
    pub fn entry_at(&self, i: usize) -> (r: &PhoneEntry)
        requires
            i < self@.len(),
        ensures
            r@ == self@[i as int].1,
    {
        &self.records[i].1
    }

    /// The position where a name's record stands or would be inserted:
    /// everything before it is strictly below the name.
    fn find_pos(&self, name: &str) -> (i: usize)
        ensures
            i <= self@.len(),
            forall|j: int| 0 <= j < i ==> lex_lt(self@[j].0, name@),
            i < self@.len() ==> !lex_lt(self@[i as int].0, name@),
    {
        let n = self.records.len();
        let mut i: usize = 0;
        while i < n
            invariant
                i <= n,
                n == self@.len(),
                forall|j: int| 0 <= j < i ==> lex_lt(self@[j].0, name@),
            decreases n - i,
        {
            proof {
                assert(self@[i as int].0 == self.records@[i as int].0@);
            }
            if !str_lt(self.records[i].0.as_str(), name) {
                return i;
            }
            i = i + 1;
        }
        i
    }

    /// Looks a name up in the mapping the book denotes.
    pub fn get(&self, name: &str) -> (r: Option<&PhoneEntry>)
        ensures
            match r {
                Some(e) => self.as_map().contains_key(name@) && e@ == self.as_map()[name@],
                None => !self.as_map().contains_key(name@),
            },
    {
        let n = self.records.len();
        let mut i: usize = 0;
        proof {
            assert(self@.subrange(0, n as int) =~= self@);
        }
        while i < n
            invariant
                i <= n,
                n == self@.len(),
                map_of(self@).contains_key(name@) == map_of(
                    self@.subrange(i as int, n as int),
                ).contains_key(name@),
                map_of(self@.subrange(i as int, n as int)).contains_key(name@) ==> map_of(
                    self@,
                )[name@] == map_of(self@.subrange(i as int, n as int))[name@],
            decreases n - i,
        {
            proof {
                assert(self@[i as int] == (self.records@[i as int].0@, self.records@[i as int].1@));
            }
            if str_eq(self.records[i].0.as_str(), name) {
                proof {
                    let u = self@.subrange(i as int, n as int);
                    assert(u.len() > 0 && u[0] == self@[i as int]);
                }
                return Some(&self.records[i].1);
            }
            proof {
                lemma_map_of_step(self@, i as int, name@);
            }
            i = i + 1;
        }
        proof {
            assert(self@.subrange(n as int, n as int) =~= Seq::<RecV>::empty());
        }
        None
    }

    /// Whether the mapping holds a record of the name.
    pub fn contains_key(&self, name: &str) -> (r: bool)
        ensures
            r == self.as_map().contains_key(name@),
    {
        match self.get(name) {
            Some(_) => true,
            None => false,
        }
    }

    /// Puts an entry under a name, replacing the entry of an equal name:
    /// on the denoted mapping, exactly `insert`.
    pub fn insert(&mut self, name: String, entry: PhoneEntry)
        requires
            old(self).wf(),
        ensures
            final(self)@ == spec_insert(old(self)@, name@, entry@),
            final(self).wf(),
            final(self).as_map() == old(self).as_map().insert(name@, entry@),
    {
        let n = self.records.len();
        let i = self.find_pos(name.as_str());
        proof {
            lemma_spec_insert_at(self@, name@, entry@, i as int);
            lemma_insert_sorted(self@, name@, entry@);
            lemma_insert_map(self@, name@, entry@);
        }
        let mut replace = false;
        if i < n {
            proof {
                assert(self@[i as int].0 == self.records@[i as int].0@);
            }
            if str_eq(self.records[i].0.as_str(), name.as_str()) {
                replace = true;
            }
        }
        if replace {
            self.records.remove(i);
            self.records.insert(i, (name, entry));
            proof {
                assert(self@ =~= old(self)@.subrange(0, i as int) + seq![(name@, entry@)] + old(
                    self,
                )@.subrange(i as int + 1, n as int));
            }
        } else {
            self.records.insert(i, (name, entry));
            proof {
                if i < n {
                    lemma_lex_irrefl(name@);
                }
                assert(self@ =~= old(self)@.subrange(0, i as int) + seq![(name@, entry@)] + old(
                    self,
                )@.subrange(i as int, n as int));
            }
        }
    }

    /// Takes the record of a name out, handing its entry back: on the
    /// denoted mapping, exactly `remove`.
    pub fn remove(&mut self, name: &str) -> (r: Option<PhoneEntry>)
        requires
            old(self).wf(),
        ensures
            final(self)@ == spec_remove(old(self)@, name@),
            final(self).wf(),
            final(self).as_map() == old(self).as_map().remove(name@),
            r is Some <==> old(self).as_map().contains_key(name@),
            match r {
                Some(e) => e@ == old(self).as_map()[name@],
                None => true,
            },
    {
        let n = self.records.len();
        let mut i: usize = 0;
        proof {
            assert(self@.subrange(0, n as int) =~= self@);
        }
        while i < n
            invariant
                i <= n,
                n == self@.len(),
                *self == *old(self),
                old(self).wf(),
                forall|j: int| 0 <= j < i ==> self@[j].0 != name@,
                map_of(self@).contains_key(name@) == map_of(
                    self@.subrange(i as int, n as int),
                ).contains_key(name@),
                map_of(self@.subrange(i as int, n as int)).contains_key(name@) ==> map_of(
                    self@,
                )[name@] == map_of(self@.subrange(i as int, n as int))[name@],
            decreases n - i,
        {
            proof {
                assert(self@[i as int] == (self.records@[i as int].0@, self.records@[i as int].1@));
            }
            if str_eq(self.records[i].0.as_str(), name) {
                proof {
                    let u = self@.subrange(i as int, n as int);
                    assert(u.len() > 0 && u[0] == self@[i as int]);
                    lemma_spec_remove_at(self@, name@, i as int);
                    lemma_remove_sorted(self@, name@);
                    lemma_remove_map(self@, name@);
                }
                let rec = self.records.remove(i);
                proof {
                    assert(self@ =~= old(self)@.subrange(0, i as int) + old(self)@.subrange(
                        i as int + 1,
                        n as int,
                    ));
                }
                return Some(rec.1);
            }
            proof {
                lemma_map_of_step(self@, i as int, name@);
            }
            i = i + 1;
        }
        proof {
            assert(self@.subrange(n as int, n as int) =~= Seq::<RecV>::empty());
            lemma_spec_remove_absent(self@, name@);
            lemma_remove_map(self@, name@);
            assert(self.as_map().remove(name@) =~= self.as_map());
        }
        None
    }

    /// Drops every record.
    pub fn clear(&mut self)
        ensures
            final(self)@ == Seq::<RecV>::empty(),
            final(self).wf(),
    {
        self.records.clear();
        proof {
            assert(self@ =~= Seq::<RecV>::empty());
        }
    }
}

} // verus!
