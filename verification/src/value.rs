//! The VDF value type: a string or a map from string keys to values, with the
//! map's entries kept in increasing key order and each key present at most once.
use vstd::prelude::*;
use crate::text::{string_of, key_lt, lemma_key_lt_total, lemma_key_lt_irreflexive, lemma_key_lt_transitive, lemma_key_lt_asymmetric, KeyOrder, compare_keys, key_chars};

verus! {

/// The mathematical model of a VDF value.
pub enum VdfTree {
    Str(Seq<char>),
    Obj(Seq<(Seq<char>, VdfTree)>),
}

/// A value of a VDF document: a string, or a nested map.
#[derive(Debug)]
pub enum VdfValue {
    Str(String),
    Obj(VdfMap),
}

/// A VDF map: its entries in increasing key order (see `key_lt`), each key once
/// (`entries_wf`), as `new` and `parse` make it and as its methods keep it when
/// the values stored are well formed themselves.
#[derive(Debug)]
pub struct VdfMap {
    entries: Vec<(String, VdfValue)>,
}

pub closed spec fn value_view(v: VdfValue) -> VdfTree
    decreases v,
{
    match v {
        VdfValue::Str(s) => VdfTree::Str(s@),
        VdfValue::Obj(m) => VdfTree::Obj(entries_view(m.entries@)),
    }
}

pub closed spec fn entries_view(s: Seq<(String, VdfValue)>) -> Seq<(Seq<char>, VdfTree)>
    decreases s,
{
    if s.len() == 0 {
        seq![]
    } else {
        let last = s[s.len() - 1];
        entries_view(s.subrange(0, s.len() - 1)).push((last.0@, value_view(last.1)))
    }
}

impl View for VdfMap {
    type V = Seq<(Seq<char>, VdfTree)>;

    closed spec fn view(&self) -> Seq<(Seq<char>, VdfTree)> {
        entries_view(self.entries@)
    }
}

impl View for VdfValue {
    type V = VdfTree;

    open spec fn view(&self) -> VdfTree {
        match self {
            VdfValue::Str(s) => VdfTree::Str(s@),
            VdfValue::Obj(m) => VdfTree::Obj(m@),
        }
    }
}

proof fn lemma_value_view(v: VdfValue)
    ensures
        value_view(v) == v@,
{
}

proof fn lemma_entries_view(s: Seq<(String, VdfValue)>)
    ensures
        entries_view(s).len() == s.len(),
        forall|i: int|
            0 <= i < s.len() ==> #[trigger] entries_view(s)[i] == (s[i].0@, s[i].1@),
    decreases s.len(),
{
    if s.len() > 0 {
        lemma_entries_view(s.subrange(0, s.len() - 1));
        assert forall|i: int| 0 <= i < s.len() implies #[trigger] entries_view(s)[i] == (
            s[i].0@,
            s[i].1@,
        ) by {
            lemma_value_view(s[i].1);
            if i < s.len() - 1 {
                assert(s.subrange(0, s.len() - 1)[i] == s[i]);
            }
        }
    }
}

/// Changing one entry's value changes that entry of the view.
proof fn lemma_entries_view_update_value(s: Seq<(String, VdfValue)>, i: int)
    requires
        0 <= i < s.len(),
    ensures
        forall|x: VdfValue|
            #[trigger] entries_view(s.update(i, (s[i].0, x))) == entries_view(s).update(
                i,
                (s[i].0@, x@),
            ),
{
    assert forall|x: VdfValue|
        #[trigger] entries_view(s.update(i, (s[i].0, x))) == entries_view(s).update(
            i,
            (s[i].0@, x@),
        ) by {
        lemma_entries_view(s);
        lemma_entries_view(s.update(i, (s[i].0, x)));
        assert(entries_view(s.update(i, (s[i].0, x))) =~= entries_view(s).update(i, (s[i].0@, x@)));
    }
}

/// Inserting a key larger than every key of a prefix leaves that prefix in place.
pub proof fn lemma_insert_after_smaller(
    m: Seq<(Seq<char>, VdfTree)>,
    k: Seq<char>,
    v: VdfTree,
    i: int,
)
    requires
        0 <= i <= m.len(),
        forall|j: int| 0 <= j < i ==> key_lt(#[trigger] m[j].0, k),
    ensures
        insert_entry(m, k, v) == m.take(i) + insert_entry(m.skip(i), k, v),
    decreases i,
{
    if i == 0 {
        assert(m.skip(0) =~= m);
        assert(m.take(0) + insert_entry(m, k, v) =~= insert_entry(m, k, v));
    } else {
        assert(key_lt(m[0].0, k));
        lemma_key_lt_irreflexive(k);
        lemma_key_lt_asymmetric(m[0].0, k);
        assert forall|j: int| 0 <= j < i - 1 implies key_lt(#[trigger] m.drop_first()[j].0, k) by {
            assert(m.drop_first()[j] == m[j + 1]);
        }
        lemma_insert_after_smaller(m.drop_first(), k, v, i - 1);
        assert(m.drop_first().skip(i - 1) =~= m.skip(i));
        assert(seq![m[0]] + (m.drop_first().take(i - 1) + insert_entry(m.skip(i), k, v)) =~= m.take(
            i,
        ) + insert_entry(m.skip(i), k, v));
    }
}

/// Keys strictly increasing.
pub open spec fn keys_sorted(m: Seq<(Seq<char>, VdfTree)>) -> bool {
    forall|i: int, j: int| 0 <= i < j < m.len() ==> key_lt(#[trigger] m[i].0, #[trigger] m[j].0)
}

/// Well-formed tree: every map in it has strictly increasing keys.
pub open spec fn tree_wf(t: VdfTree) -> bool
    decreases t,
{
    match t {
        VdfTree::Str(_) => true,
        VdfTree::Obj(m) => keys_sorted(m) && values_wf(m),
    }
}

/// Well-formed entries: sorted keys and well-formed values.
pub open spec fn entries_wf(m: Seq<(Seq<char>, VdfTree)>) -> bool {
    &&& keys_sorted(m)
    &&& values_wf(m)
}

/// Every value of the entries is a well-formed tree.
pub open spec fn values_wf(m: Seq<(Seq<char>, VdfTree)>) -> bool
    decreases m,
{
    if m.len() == 0 {
        true
    } else {
        tree_wf(m[0].1) && values_wf(m.subrange(1, m.len() as int))
    }
}

pub proof fn lemma_values_wf(m: Seq<(Seq<char>, VdfTree)>)
    ensures
        values_wf(m) <==> forall|i: int| 0 <= i < m.len() ==> tree_wf(#[trigger] m[i].1),
    decreases m.len(),
{
    if m.len() > 0 {
        lemma_values_wf(m.drop_first());
        if forall|i: int| 0 <= i < m.len() ==> tree_wf(#[trigger] m[i].1) {
            assert forall|i: int| 0 <= i < m.drop_first().len() implies tree_wf(
                #[trigger] m.drop_first()[i].1,
            ) by {
                assert(m.drop_first()[i] == m[i + 1]);
            }
        }
        if values_wf(m) {
            assert forall|i: int| 0 <= i < m.len() implies tree_wf(#[trigger] m[i].1) by {
                if i > 0 {
                    assert(m.drop_first()[i - 1] == m[i]);
                }
            }
        }
    }
}

/// The value stored under `k`: that of the first entry with key `k`.
pub open spec fn lookup(m: Seq<(Seq<char>, VdfTree)>, k: Seq<char>) -> Option<VdfTree>
    decreases m.len(),
{
    if m.len() == 0 {
        None
    } else if m[0].0 == k {
        Some(m[0].1)
    } else {
        lookup(m.drop_first(), k)
    }
}

/// Ordered insertion: replaces the value of the first entry with key `k`, or
/// puts a new entry before the first larger key (at the end if none is larger).
pub open spec fn insert_entry(m: Seq<(Seq<char>, VdfTree)>, k: Seq<char>, v: VdfTree) -> Seq<
    (Seq<char>, VdfTree),
>
    decreases m.len(),
{
    if m.len() == 0 {
        seq![(k, v)]
    } else if m[0].0 == k {
        m.update(0, (k, v))
    } else if key_lt(k, m[0].0) {
        seq![(k, v)] + m
    } else {
        seq![m[0]] + insert_entry(m.drop_first(), k, v)
    }
}

/// Removal of the first entry with key `k`.
pub open spec fn remove_entry(m: Seq<(Seq<char>, VdfTree)>, k: Seq<char>) -> Seq<
    (Seq<char>, VdfTree),
>
    decreases m.len(),
{
    if m.len() == 0 {
        m
    } else if m[0].0 == k {
        m.drop_first()
    } else {
        seq![m[0]] + remove_entry(m.drop_first(), k)
    }
}

/// The first index at which key `k` stands, if any.
pub open spec fn first_index(m: Seq<(Seq<char>, VdfTree)>, k: Seq<char>, i: int) -> bool {
    &&& 0 <= i < m.len()
    &&& m[i].0 == k
    &&& forall|j: int| 0 <= j < i ==> #[trigger] m[j].0 != k
}

pub proof fn lemma_lookup_first(m: Seq<(Seq<char>, VdfTree)>, k: Seq<char>, i: int)
    requires
        first_index(m, k, i),
    ensures
        lookup(m, k) == Some(m[i].1),
        remove_entry(m, k) == m.remove(i),
    decreases i,
{
    if i > 0 {
        assert(m[0].0 != k);
        assert(first_index(m.drop_first(), k, i - 1)) by {
            assert forall|j: int| 0 <= j < i - 1 implies #[trigger] m.drop_first()[j].0 != k by {
                assert(m.drop_first()[j] == m[j + 1]);
            }
        }
        lemma_lookup_first(m.drop_first(), k, i - 1);
        assert(m.remove(i) =~= seq![m[0]] + m.drop_first().remove(i - 1));
    } else {
        assert(m.remove(0) =~= m.drop_first());
    }
}

pub proof fn lemma_lookup_none(m: Seq<(Seq<char>, VdfTree)>, k: Seq<char>)
    requires
        forall|j: int| 0 <= j < m.len() ==> #[trigger] m[j].0 != k,
    ensures
        lookup(m, k) is None,
        remove_entry(m, k) == m,
    decreases m.len(),
{
    if m.len() > 0 {
        assert(m[0].0 != k);
        assert forall|j: int| 0 <= j < m.drop_first().len() implies #[trigger] m.drop_first()[j].0
            != k by {
            assert(m.drop_first()[j] == m[j + 1]);
        }
        lemma_lookup_none(m.drop_first(), k);
        assert(m =~= seq![m[0]] + m.drop_first());
    }
}


/// Replaces the value of the first entry with key `k`.
pub open spec fn replace_first(m: Seq<(Seq<char>, VdfTree)>, k: Seq<char>, v: VdfTree) -> Seq<
    (Seq<char>, VdfTree),
>
    decreases m.len(),
{
    if m.len() == 0 {
        m
    } else if m[0].0 == k {
        m.update(0, (k, v))
    } else {
        seq![m[0]] + replace_first(m.drop_first(), k, v)
    }
}

pub proof fn lemma_replace_first(m: Seq<(Seq<char>, VdfTree)>, k: Seq<char>, i: int, v: VdfTree)
    requires
        first_index(m, k, i),
    ensures
        replace_first(m, k, v) == m.update(i, (k, v)),
    decreases i,
{
    if i > 0 {
        assert(first_index(m.drop_first(), k, i - 1)) by {
            assert forall|j: int| 0 <= j < i - 1 implies #[trigger] m.drop_first()[j].0 != k by {
                assert(m.drop_first()[j] == m[j + 1]);
            }
        }
        lemma_replace_first(m.drop_first(), k, i - 1, v);
        assert(m.update(i, (k, v)) =~= seq![m[0]] + m.drop_first().update(i - 1, (k, v)));
    }
}

/// Storing back the value that is already there changes nothing.
pub proof fn lemma_replace_same(m: Seq<(Seq<char>, VdfTree)>, k: Seq<char>, x: VdfTree)
    requires
        lookup(m, k) == Some(x),
    ensures
        replace_first(m, k, x) == m,
    decreases m.len(),
{
    if m.len() > 0 {
        if m[0].0 == k {
            assert(m.update(0, (k, x)) =~= m);
        } else {
            lemma_replace_same(m.drop_first(), k, x);
            assert(seq![m[0]] + m.drop_first() =~= m);
        }
    }
}

impl VdfMap {
    /// An empty map.
    pub fn new() -> (m: VdfMap)
        ensures
            m@ == Seq::<(Seq<char>, VdfTree)>::empty(),
            entries_wf(m@),
    {
        proof {
            lemma_entries_view(Seq::<(String, VdfValue)>::empty());
            lemma_values_wf(Seq::<(Seq<char>, VdfTree)>::empty());
        }
        let m = VdfMap { entries: Vec::new() };
        assert(m@ =~= Seq::<(Seq<char>, VdfTree)>::empty());
        m
    }

    /// Number of entries.
    pub fn len(&self) -> (n: usize)
        ensures
            n == self@.len(),
    {
        proof {
            lemma_entries_view(self.entries@);
        }
        self.entries.len()
    }

    /// The key of the `i`-th entry (entries are in increasing key order).
    pub fn key_at(&self, i: usize) -> (k: &String)
        requires
            i < self@.len(),
        ensures
            k@ == self@[i as int].0,
    {
        proof {
            lemma_entries_view(self.entries@);
        }
        &self.entries[i].0
    }

    /// The value of the `i`-th entry.
    pub fn value_at(&self, i: usize) -> (v: &VdfValue)
        requires
            i < self@.len(),
        ensures
            v@ == self@[i as int].1,
    {
        proof {
            lemma_entries_view(self.entries@);
        }
        &self.entries[i].1
    }

    /// The value of the `i`-th entry, to be changed in place.
    pub fn value_at_mut(&mut self, i: usize) -> (v: &mut VdfValue)
        requires
            i < old(self)@.len(),
        ensures
            v@ == old(self)@[i as int].1,
            final(self)@ == old(self)@.update(i as int, (old(self)@[i as int].0, final(v)@)),
            entries_wf(old(self)@) && tree_wf(final(v)@) ==> entries_wf(final(self)@),
    {
        proof {
            lemma_entries_view(self.entries@);
            assert forall|x: VdfTree| entries_wf(self@) && tree_wf(x) implies entries_wf(
                #[trigger] self@.update(i as int, (self@[i as int].0, x)),
            ) by {
                lemma_update_wf(self@, i as int, x);
            }
        }
        proof {
            lemma_entries_view_update_value(self.entries@, i as int);
        }
        let e = &mut self.entries[i];
        &mut e.1
    }

    /// The index of the first entry with key `key`, if any.
    fn find(&self, key: &str) -> (r: Option<usize>)
        ensures
            match r {
                Some(i) => first_index(self@, key@, i as int),
                None => forall|j: int| 0 <= j < self@.len() ==> #[trigger] self@[j].0 != key@,
            },
    {
        proof {
            lemma_entries_view(self.entries@);
        }
        let k = string_of(key);
        let mut i: usize = 0;
        while i < self.entries.len()
            invariant
                i <= self.entries@.len(),
                k@ == key@,
                entries_view(self.entries@).len() == self.entries@.len(),
                forall|j: int|
                    0 <= j < self.entries@.len() ==> #[trigger] entries_view(self.entries@)[j] == (
                        self.entries@[j].0@,
                        self.entries@[j].1@,
                    ),
                forall|j: int| 0 <= j < i ==> #[trigger] self@[j].0 != key@,
            decreases self.entries@.len() - i,
        {
            if self.entries[i].0 == k {
                return Some(i);
            }
            i = i + 1;
        }
        None
    }

    /// The value stored under `key`.
    pub fn get(&self, key: &str) -> (r: Option<&VdfValue>)
        ensures
            match r {
                Some(v) => lookup(self@, key@) == Some(v@),
                None => lookup(self@, key@) is None,
            },
    {
        match self.find(key) {
            Some(i) => {
                proof {
                    lemma_lookup_first(self@, key@, i as int);
                }
                Some(self.value_at(i))
            },
            None => {
                proof {
                    lemma_lookup_none(self@, key@);
                }
                None
            },
        }
    }

    /// The value stored under `key`, to be changed in place.
    pub fn get_mut(&mut self, key: &str) -> (r: Option<&mut VdfValue>)
        ensures
            match r {
                Some(v) => {
                    &&& lookup(old(self)@, key@) == Some(v@)
                    &&& final(self)@ == replace_first(old(self)@, key@, final(v)@)
                    &&& entries_wf(old(self)@) && tree_wf(final(v)@) ==> entries_wf(final(self)@)
                },
                None => {
                    &&& lookup(old(self)@, key@) is None
                    &&& final(self)@ == old(self)@
                },
            },
    {
        match self.find(key) {
            Some(i) => {
                proof {
                    lemma_lookup_first(self@, key@, i as int);
                    assert forall|x: VdfTree| #[trigger] replace_first(self@, key@, x) == self@.update(
                        i as int,
                        (self@[i as int].0, x),
                    ) by {
                        lemma_replace_first(self@, key@, i as int, x);
                    }
                    assert forall|x: VdfTree| entries_wf(self@) && tree_wf(x) implies entries_wf(
                        #[trigger] replace_first(self@, key@, x),
                    ) by {
                        lemma_replace_wf(self@, key@, x);
                    }
                }
                Some(self.value_at_mut(i))
            },
            None => {
                proof {
                    lemma_lookup_none(self@, key@);
                }
                None
            },
        }
    }

    /// Stores `value` under `key` (see `insert_entry`).
    pub fn insert(&mut self, key: String, value: VdfValue)
        ensures
            final(self)@ == insert_entry(old(self)@, key@, value@),
            entries_wf(old(self)@) && tree_wf(value@) ==> entries_wf(final(self)@),
    {
        proof {
            if entries_wf(self@) && tree_wf(value@) {
                lemma_insert_wf(self@, key@, value@);
            }
        }
        self.insert_at(key, value);
    }

    /// Stores `value` under `key` like `insert`, and gives the index where the key
    /// now stands; any other value stored there instead gives the map that
    /// inserting that value would.
    fn insert_at(&mut self, key: String, value: VdfValue) -> (p: usize)
        ensures
            final(self)@ == insert_entry(old(self)@, key@, value@),
            p < final(self)@.len(),
            final(self)@[p as int] == (key@, value@),
            forall|w: VdfTree| #[trigger] insert_entry(old(self)@, key@, w) == final(self)@.update(
                p as int,
                (key@, w),
            ),
    {
        proof {
            lemma_entries_view(self.entries@);
        }
        let ghost m = self@;
        let kc = key_chars(&key);
        let mut i: usize = 0;
        while i < self.entries.len()
            invariant
                i <= self.entries@.len(),
                m == self@,
                m == old(self)@,
                m == entries_view(self.entries@),
                kc@ == key@,
                m.len() == self.entries@.len(),
                forall|j: int|
                    0 <= j < self.entries@.len() ==> #[trigger] m[j] == (
                        self.entries@[j].0@,
                        self.entries@[j].1@,
                    ),
                forall|j: int| 0 <= j < i ==> key_lt(#[trigger] m[j].0, key@),
            decreases self.entries@.len() - i,
        {
            let ec = key_chars(&self.entries[i].0);
            match compare_keys(&kc, &ec) {
                KeyOrder::Equal => {
                    proof {
                        assert forall|w: VdfTree| #[trigger] insert_entry(m, key@, w) == m.update(
                            i as int,
                            (key@, w),
                        ) by {
                            lemma_insert_after_smaller(m, key@, w, i as int);
                            assert(m.skip(i as int)[0] == m[i as int]);
                            assert(m.take(i as int) + m.skip(i as int).update(0, (key@, w))
                                =~= m.update(i as int, (key@, w)));
                        }
                    }
                    let ghost kv = (key@, value@);
                    self.entries.set(i, (key, value));
                    proof {
                        lemma_entries_view(self.entries@);
                        assert(m.update(i as int, kv) =~= entries_view(self.entries@));
                        assert forall|w: VdfTree| #[trigger] m.update(i as int, (kv.0, w))
                            == entries_view(self.entries@).update(i as int, (kv.0, w)) by {
                            assert(m.update(i as int, (kv.0, w)) =~= m.update(i as int, kv).update(
                                i as int,
                                (kv.0, w),
                            ));
                        }
                    }
                    return i;
                },
                KeyOrder::Less => {
                    proof {
                        assert forall|w: VdfTree| #[trigger] insert_entry(m, key@, w) == m.insert(
                            i as int,
                            (key@, w),
                        ) by {
                            lemma_insert_after_smaller(m, key@, w, i as int);
                            assert(m.skip(i as int)[0] == m[i as int]);
                            assert(m.take(i as int) + (seq![(key@, w)] + m.skip(i as int))
                                =~= m.insert(i as int, (key@, w)));
                        }
                    }
                    let ghost kv = (key@, value@);
                    self.entries.insert(i, (key, value));
                    proof {
                        lemma_entries_view(self.entries@);
                        assert(m.insert(i as int, kv) =~= entries_view(self.entries@));
                        assert forall|w: VdfTree| #[trigger] m.insert(i as int, (kv.0, w))
                            == entries_view(self.entries@).update(i as int, (kv.0, w)) by {
                            assert(m.insert(i as int, (kv.0, w)) =~= m.insert(i as int, kv).update(
                                i as int,
                                (kv.0, w),
                            ));
                        }
                    }
                    return i;
                },
                KeyOrder::Greater => {
                    i = i + 1;
                },
            }
        }
        proof {
            assert forall|w: VdfTree| #[trigger] insert_entry(m, key@, w) == m.push((key@, w)) by {
                lemma_insert_after_smaller(m, key@, w, i as int);
                assert(m.skip(i as int) =~= Seq::<(Seq<char>, VdfTree)>::empty());
                assert(m.take(i as int) + seq![(key@, w)] =~= m.push((key@, w)));
            }
        }
        let ghost kv = (key@, value@);
        self.entries.push((key, value));
        proof {
            lemma_entries_view(self.entries@);
            assert(m.push(kv) =~= entries_view(self.entries@));
            assert forall|w: VdfTree| #[trigger] m.push((kv.0, w)) == entries_view(
                self.entries@,
            ).update(i as int, (kv.0, w)) by {
                assert(m.push((kv.0, w)) =~= m.push(kv).update(i as int, (kv.0, w)));
            }
        }
        i
    }

    /// The value stored under `key`, a new empty map being stored there first if
    /// the key is absent; to be changed in place (as `entry(key).or_insert(..)`).
    pub fn entry_or_insert_obj(&mut self, key: &str) -> (v: &mut VdfValue)
        ensures
            v@ == or_empty_obj(lookup(old(self)@, key@)),
            final(self)@ == put_entry(old(self)@, key@, final(v)@),
            entries_wf(old(self)@) && tree_wf(final(v)@) ==> entries_wf(final(self)@),
    {
        proof {
            assert forall|x: VdfTree| entries_wf(self@) && tree_wf(x) implies entries_wf(
                #[trigger] put_entry(self@, key@, x),
            ) by {
                lemma_put_wf(self@, key@, x);
            }
        }
        match self.find(key) {
            Some(i) => {
                proof {
                    lemma_lookup_first(self@, key@, i as int);
                    assert forall|x: VdfTree| #[trigger] replace_first(self@, key@, x) == self@.update(
                        i as int,
                        (self@[i as int].0, x),
                    ) by {
                        lemma_replace_first(self@, key@, i as int, x);
                    }
                }
                self.value_at_mut(i)
            },
            None => {
                proof {
                    lemma_lookup_none(self@, key@);
                }
                let empty = VdfMap::new();
                let p = self.insert_at(string_of(key), VdfValue::Obj(empty));
                self.value_at_mut(p)
            },
        }
    }

    /// Removes the entry with key `key`, giving back its value.
    pub fn remove(&mut self, key: &str) -> (r: Option<VdfValue>)
        ensures
            match r {
                Some(v) => lookup(old(self)@, key@) == Some(v@),
                None => lookup(old(self)@, key@) is None,
            },
            final(self)@ == remove_entry(old(self)@, key@),
            entries_wf(old(self)@) ==> entries_wf(final(self)@),
    {
        proof {
            if entries_wf(self@) {
                lemma_remove_wf(self@, key@);
            }
        }
        match self.find(key) {
            Some(i) => {
                proof {
                    lemma_entries_view(self.entries@);
                    lemma_lookup_first(self@, key@, i as int);
                }
                let ghost m = self@;
                let (_, v) = self.entries.remove(i);
                proof {
                    lemma_entries_view(self.entries@);
                    assert(m.remove(i as int) =~= entries_view(self.entries@));
                }
                Some(v)
            },
            None => {
                proof {
                    lemma_lookup_none(self@, key@);
                }
                None
            },
        }
    }
}

/// Every key of `insert_entry(m, k, v)` is `k` or a key of `m`.
pub proof fn lemma_insert_keys(m: Seq<(Seq<char>, VdfTree)>, k: Seq<char>, v: VdfTree)
    ensures
        forall|j: int|
            0 <= j < insert_entry(m, k, v).len() ==> (#[trigger] insert_entry(m, k, v)[j]).0 == k
                || exists|l: int| 0 <= l < m.len() && m[l].0 == insert_entry(m, k, v)[j].0,
        insert_entry(m, k, v).len() <= m.len() + 1,
    decreases m.len(),
{
    if m.len() > 0 && m[0].0 != k && !key_lt(k, m[0].0) {
        lemma_insert_keys(m.drop_first(), k, v);
        let r = insert_entry(m, k, v);
        assert forall|j: int| 0 <= j < r.len() implies (#[trigger] r[j]).0 == k || exists|l: int|
            0 <= l < m.len() && m[l].0 == r[j].0 by {
            if j == 0 {
                assert(m[0].0 == r[0].0);
            } else {
                let rr = insert_entry(m.drop_first(), k, v);
                assert(r[j] == rr[j - 1]);
                if rr[j - 1].0 != k {
                    let l = choose|l: int|
                        0 <= l < m.drop_first().len() && m.drop_first()[l].0 == rr[j - 1].0;
                    assert(m[l + 1].0 == r[j].0);
                }
            }
        }
    } else if m.len() > 0 && m[0].0 == k {
        let r = insert_entry(m, k, v);
        assert forall|j: int| 0 <= j < r.len() implies (#[trigger] r[j]).0 == k || exists|l: int|
            0 <= l < m.len() && m[l].0 == r[j].0 by {
            if j > 0 {
                assert(m[j].0 == r[j].0);
            }
        }
    } else if m.len() > 0 {
        let r = insert_entry(m, k, v);
        assert forall|j: int| 0 <= j < r.len() implies (#[trigger] r[j]).0 == k || exists|l: int|
            0 <= l < m.len() && m[l].0 == r[j].0 by {
            if j > 0 {
                assert(m[j - 1].0 == r[j].0);
            }
        }
    }
}

/// Every entry of `insert_entry(m, k, v)` is `(k, v)` or an entry of `m`.
pub proof fn lemma_insert_elements(m: Seq<(Seq<char>, VdfTree)>, k: Seq<char>, v: VdfTree)
    ensures
        forall|j: int|
            0 <= j < insert_entry(m, k, v).len() ==> #[trigger] insert_entry(m, k, v)[j] == (k, v)
                || exists|l: int| 0 <= l < m.len() && m[l] == insert_entry(m, k, v)[j],
    decreases m.len(),
{
    let r = insert_entry(m, k, v);
    if m.len() > 0 && m[0].0 != k && !key_lt(k, m[0].0) {
        lemma_insert_elements(m.drop_first(), k, v);
        let rr = insert_entry(m.drop_first(), k, v);
        assert forall|j: int| 0 <= j < r.len() implies #[trigger] r[j] == (k, v) || exists|l: int|
            0 <= l < m.len() && m[l] == r[j] by {
            if j == 0 {
                assert(m[0] == r[0]);
            } else {
                assert(r[j] == rr[j - 1]);
                if rr[j - 1] != (k, v) {
                    let l = choose|l: int|
                        0 <= l < m.drop_first().len() && m.drop_first()[l] == rr[j - 1];
                    assert(m[l + 1] == r[j]);
                }
            }
        }
    } else if m.len() > 0 && m[0].0 == k {
        assert forall|j: int| 0 <= j < r.len() implies #[trigger] r[j] == (k, v) || exists|l: int|
            0 <= l < m.len() && m[l] == r[j] by {
            if j > 0 {
                assert(m[j] == r[j]);
            }
        }
    } else if m.len() > 0 {
        assert forall|j: int| 0 <= j < r.len() implies #[trigger] r[j] == (k, v) || exists|l: int|
            0 <= l < m.len() && m[l] == r[j] by {
            if j > 0 {
                assert(m[j - 1] == r[j]);
            }
        }
    }
}

/// A key that reads as present stands at its first index with that value.
pub proof fn lemma_lookup_some(m: Seq<(Seq<char>, VdfTree)>, k: Seq<char>)
    ensures
        lookup(m, k) matches Some(x) ==> exists|i: int| first_index(m, k, i) && m[i].1 == x,
    decreases m.len(),
{
    if m.len() > 0 && m[0].0 != k {
        lemma_lookup_some(m.drop_first(), k);
        if lookup(m, k) is Some {
            let i = choose|i: int|
                first_index(m.drop_first(), k, i) && m.drop_first()[i].1 == lookup(m, k)->Some_0;
            assert(first_index(m, k, i + 1)) by {
                assert forall|j: int| 0 <= j < i + 1 implies #[trigger] m[j].0 != k by {
                    if j > 0 {
                        assert(m[j] == m.drop_first()[j - 1]);
                    }
                }
            }
        }
    } else if m.len() > 0 {
        assert(first_index(m, k, 0));
    }
}

/// Changing the value of one entry to a well-formed tree keeps a map well formed.
pub proof fn lemma_update_wf(m: Seq<(Seq<char>, VdfTree)>, i: int, v: VdfTree)
    requires
        entries_wf(m),
        0 <= i < m.len(),
        tree_wf(v),
    ensures
        entries_wf(m.update(i, (m[i].0, v))),
{
    let r = m.update(i, (m[i].0, v));
    lemma_values_wf(m);
    assert forall|j: int| 0 <= j < r.len() implies tree_wf(#[trigger] r[j].1) by {}
    lemma_values_wf(r);
    assert forall|a: int, b: int| 0 <= a < b < r.len() implies key_lt(
        #[trigger] r[a].0,
        #[trigger] r[b].0,
    ) by {
        assert(r[a].0 == m[a].0);
        assert(r[b].0 == m[b].0);
    }
}

/// Ordered insertion keeps a map well formed.
pub proof fn lemma_insert_wf(m: Seq<(Seq<char>, VdfTree)>, k: Seq<char>, v: VdfTree)
    requires
        entries_wf(m),
        tree_wf(v),
    ensures
        entries_wf(insert_entry(m, k, v)),
    decreases m.len(),
{
    let r = insert_entry(m, k, v);
    lemma_values_wf(m);
    if m.len() == 0 {
        lemma_values_wf(r);
    } else if m[0].0 == k {
        assert forall|i: int| 0 <= i < r.len() implies tree_wf(#[trigger] r[i].1) by {
        }
        lemma_values_wf(r);
        assert forall|i: int, j: int| 0 <= i < j < r.len() implies key_lt(
            #[trigger] r[i].0,
            #[trigger] r[j].0,
        ) by {
            assert(r[i].0 == m[i].0);
            assert(r[j].0 == m[j].0);
        }
    } else if key_lt(k, m[0].0) {
        assert forall|i: int| 0 <= i < r.len() implies tree_wf(#[trigger] r[i].1) by {
            if i > 0 {
                assert(r[i] == m[i - 1]);
            }
        }
        lemma_values_wf(r);
        assert forall|i: int, j: int| 0 <= i < j < r.len() implies key_lt(
            #[trigger] r[i].0,
            #[trigger] r[j].0,
        ) by {
            assert(r[j] == m[j - 1]);
            if i == 0 {
                if j > 1 {
                    lemma_key_lt_transitive(k, m[0].0, m[j - 1].0);
                }
            } else {
                assert(r[i] == m[i - 1]);
            }
        }
    } else {
        let rest = m.drop_first();
        lemma_key_lt_total(k, m[0].0);
        assert(entries_wf(rest)) by {
            lemma_values_wf(rest);
            assert forall|i: int| 0 <= i < rest.len() implies tree_wf(#[trigger] rest[i].1) by {
                assert(rest[i] == m[i + 1]);
            }
            assert forall|i: int, j: int| 0 <= i < j < rest.len() implies key_lt(
                #[trigger] rest[i].0,
                #[trigger] rest[j].0,
            ) by {
                assert(rest[i] == m[i + 1]);
                assert(rest[j] == m[j + 1]);
            }
        }
        lemma_insert_wf(rest, k, v);
        lemma_insert_keys(rest, k, v);
        let rr = insert_entry(rest, k, v);
        lemma_values_wf(rr);
        assert(r == seq![m[0]] + rr);
        assert forall|i: int| 0 <= i < r.len() implies tree_wf(#[trigger] r[i].1) by {
            if i > 0 {
                assert(r[i] == rr[i - 1]);
            }
        }
        lemma_values_wf(r);
        assert forall|i: int, j: int| 0 <= i < j < r.len() implies key_lt(
            #[trigger] r[i].0,
            #[trigger] r[j].0,
        ) by {
            assert(r[j] == rr[j - 1]);
            if i == 0 {
                if rr[j - 1].0 != k {
                    let l = choose|l: int| 0 <= l < rest.len() && rest[l].0 == rr[j - 1].0;
                    assert(rest[l] == m[l + 1]);
                }
            } else {
                assert(r[i] == rr[i - 1]);
            }
        }
    }
}

/// After storing `v` under `k`, reading `k` gives `v`, and every other key reads
/// as before.
pub proof fn lemma_lookup_insert(m: Seq<(Seq<char>, VdfTree)>, k: Seq<char>, v: VdfTree, other: Seq<char>)
    ensures
        lookup(insert_entry(m, k, v), k) == Some(v),
        other != k ==> lookup(insert_entry(m, k, v), other) == lookup(m, other),
    decreases m.len(),
{
    if m.len() == 0 {
        assert(insert_entry(m, k, v).drop_first() =~= m);
    } else {
        let r = insert_entry(m, k, v);
        if m[0].0 == k {
            assert(r.drop_first() =~= m.drop_first());
        } else if key_lt(k, m[0].0) {
            assert(r.drop_first() =~= m);
        } else {
            lemma_lookup_insert(m.drop_first(), k, v, other);
            assert(r.drop_first() =~= insert_entry(m.drop_first(), k, v));
        }
    }
}

/// In a well-formed map, after removing `k` it reads as absent, and every other
/// key reads as before.
pub proof fn lemma_lookup_remove(m: Seq<(Seq<char>, VdfTree)>, k: Seq<char>, other: Seq<char>)
    requires
        keys_sorted(m),
    ensures
        lookup(remove_entry(m, k), k) is None,
        other != k ==> lookup(remove_entry(m, k), other) == lookup(m, other),
    decreases m.len(),
{
    if m.len() > 0 {
        let rest = m.drop_first();
        assert(keys_sorted(rest)) by {
            assert forall|i: int, j: int| 0 <= i < j < rest.len() implies key_lt(
                #[trigger] rest[i].0,
                #[trigger] rest[j].0,
            ) by {
                assert(rest[i] == m[i + 1]);
                assert(rest[j] == m[j + 1]);
            }
        }
        if m[0].0 == k {
            assert forall|j: int| 0 <= j < rest.len() implies #[trigger] rest[j].0 != k by {
                assert(rest[j] == m[j + 1]);
                assert(key_lt(m[0].0, m[j + 1].0));
                lemma_key_lt_irreflexive(k);
            }
            lemma_lookup_none(rest, k);
        } else {
            lemma_lookup_remove(rest, k, other);
            assert((seq![m[0]] + remove_entry(rest, k)).drop_first() =~= remove_entry(rest, k));
        }
    }
}

/// Removing a key keeps a map well formed.
pub proof fn lemma_remove_wf(m: Seq<(Seq<char>, VdfTree)>, k: Seq<char>)
    requires
        entries_wf(m),
    ensures
        entries_wf(remove_entry(m, k)),
{
    lemma_lookup_some(m, k);
    if lookup(m, k) is Some {
        let i = choose|i: int| first_index(m, k, i) && m[i].1 == lookup(m, k)->Some_0;
        lemma_lookup_first(m, k, i);
        let r = m.remove(i);
        lemma_values_wf(m);
        assert forall|j: int| 0 <= j < r.len() implies tree_wf(#[trigger] r[j].1) by {
            let j2 = if j < i { j } else { j + 1 };
            assert(r[j] == m[j2]);
        }
        lemma_values_wf(r);
        assert forall|a: int, b: int| 0 <= a < b < r.len() implies key_lt(
            #[trigger] r[a].0,
            #[trigger] r[b].0,
        ) by {
            let a2 = if a < i { a } else { a + 1 };
            let b2 = if b < i { b } else { b + 1 };
            assert(r[a] == m[a2] && r[b] == m[b2]);
        }
    } else {
        lemma_lookup_absent(m, k);
        lemma_lookup_none(m, k);
    }
}

proof fn lemma_lookup_absent(m: Seq<(Seq<char>, VdfTree)>, k: Seq<char>)
    requires
        lookup(m, k) is None,
    ensures
        forall|j: int| 0 <= j < m.len() ==> #[trigger] m[j].0 != k,
    decreases m.len(),
{
    if m.len() > 0 {
        lemma_lookup_absent(m.drop_first(), k);
        assert forall|j: int| 0 <= j < m.len() implies #[trigger] m[j].0 != k by {
            if j > 0 {
                assert(m[j] == m.drop_first()[j - 1]);
            }
        }
    }
}

/// Replacing the value of a key by a well-formed tree keeps a map well formed.
pub proof fn lemma_replace_wf(m: Seq<(Seq<char>, VdfTree)>, k: Seq<char>, v: VdfTree)
    requires
        entries_wf(m),
        tree_wf(v),
    ensures
        entries_wf(replace_first(m, k, v)),
{
    lemma_lookup_some(m, k);
    if lookup(m, k) is Some {
        let i = choose|i: int| first_index(m, k, i) && m[i].1 == lookup(m, k)->Some_0;
        lemma_replace_first(m, k, i, v);
        assert(m.update(i, (k, v)) == m.update(i, (m[i].0, v)));
        lemma_update_wf(m, i, v);
    } else {
        lemma_replace_absent(m, k, v);
    }
}

/// Storing a well-formed tree under a key keeps a map well formed.
pub proof fn lemma_put_wf(m: Seq<(Seq<char>, VdfTree)>, k: Seq<char>, v: VdfTree)
    requires
        entries_wf(m),
        tree_wf(v),
    ensures
        entries_wf(put_entry(m, k, v)),
{
    if lookup(m, k) is Some {
        lemma_replace_wf(m, k, v);
    } else {
        lemma_insert_wf(m, k, v);
    }
}

proof fn lemma_replace_absent(m: Seq<(Seq<char>, VdfTree)>, k: Seq<char>, v: VdfTree)
    requires
        lookup(m, k) is None,
    ensures
        replace_first(m, k, v) == m,
    decreases m.len(),
{
    if m.len() > 0 {
        lemma_replace_absent(m.drop_first(), k, v);
        assert(seq![m[0]] + m.drop_first() =~= m);
    }
}

/// Replacing the value of a present key makes it read as the new value, and
/// every other key reads as before.
pub proof fn lemma_lookup_replace(m: Seq<(Seq<char>, VdfTree)>, k: Seq<char>, v: VdfTree, other: Seq<char>)
    ensures
        lookup(m, k) is Some ==> lookup(replace_first(m, k, v), k) == Some(v),
        other != k ==> lookup(replace_first(m, k, v), other) == lookup(m, other),
    decreases m.len(),
{
    if m.len() > 0 {
        let r = replace_first(m, k, v);
        if m[0].0 == k {
            assert(r.drop_first() =~= m.drop_first());
        } else {
            lemma_lookup_replace(m.drop_first(), k, v, other);
            assert(r.drop_first() =~= replace_first(m.drop_first(), k, v));
        }
    }
}

/// After storing `v` under `k` (in place or by insertion), `k` reads as `v` and
/// every other key reads as before.
pub proof fn lemma_lookup_put(m: Seq<(Seq<char>, VdfTree)>, k: Seq<char>, v: VdfTree, other: Seq<char>)
    ensures
        lookup(put_entry(m, k, v), k) == Some(v),
        other != k ==> lookup(put_entry(m, k, v), other) == lookup(m, other),
{
    lemma_lookup_replace(m, k, v, other);
    lemma_lookup_insert(m, k, v, other);
}

/// The value found, or an empty map when there is none.
pub open spec fn or_empty_obj(o: Option<VdfTree>) -> VdfTree {
    match o {
        Some(t) => t,
        None => VdfTree::Obj(Seq::empty()),
    }
}

/// Stores `v` under `k`: in place of the first entry with key `k` when there is
/// one, else by ordered insertion.
pub open spec fn put_entry(m: Seq<(Seq<char>, VdfTree)>, k: Seq<char>, v: VdfTree) -> Seq<
    (Seq<char>, VdfTree),
> {
    if lookup(m, k) is Some {
        replace_first(m, k, v)
    } else {
        insert_entry(m, k, v)
    }
}

/// The value under key `k` of a map value; strings hold no keys.
pub open spec fn tree_get(t: VdfTree, k: Seq<char>) -> Option<VdfTree> {
    match t {
        VdfTree::Obj(m) => lookup(m, k),
        VdfTree::Str(_) => None,
    }
}

impl VdfValue {
    /// The value stored under `key`, when this value is a map.
    pub fn get(&self, key: &str) -> (r: Option<&VdfValue>)
        ensures
            match r {
                Some(v) => tree_get(self@, key@) == Some(v@),
                None => tree_get(self@, key@) is None,
            },
    {
        match self {
            VdfValue::Obj(map) => map.get(key),
            _ => None,
        }
    }

    /// The value stored under `key`, when this value is a map, to be changed in place.
    pub fn get_mut(&mut self, key: &str) -> (r: Option<&mut VdfValue>)
        ensures
            match r {
                Some(v) => {
                    &&& old(self)@ is Obj
                    &&& tree_get(old(self)@, key@) == Some(v@)
                    &&& final(self)@ == VdfTree::Obj(
                        replace_first(old(self)@->Obj_0, key@, final(v)@),
                    )
                    &&& tree_wf(old(self)@) && tree_wf(final(v)@) ==> tree_wf(final(self)@)
                },
                None => {
                    &&& tree_get(old(self)@, key@) is None
                    &&& final(self)@ == old(self)@
                },
            },
    {
        match self {
            VdfValue::Obj(map) => map.get_mut(key),
            _ => None,
        }
    }

    /// The string, when this value is a string.
    pub fn get_str(&self) -> (r: Option<&str>)
        ensures
            match r {
                Some(s) => self@ == VdfTree::Str(s@),
                None => self@ is Obj,
            },
    {
        match self {
            VdfValue::Str(s) => Some(s.as_str()),
            _ => None,
        }
    }

    /// The map, when this value is a map.
    pub fn get_obj(&self) -> (r: Option<&VdfMap>)
        ensures
            match r {
                Some(m) => self@ == VdfTree::Obj(m@),
                None => self@ is Str,
            },
    {
        match self {
            VdfValue::Obj(map) => Some(map),
            _ => None,
        }
    }

    /// The map, when this value is a map, to be changed in place.
    pub fn get_obj_mut(&mut self) -> (r: Option<&mut VdfMap>)
        ensures
            match r {
                Some(m) => {
                    &&& old(self)@ == VdfTree::Obj(m@)
                    &&& final(self)@ == VdfTree::Obj(final(m)@)
                },
                None => {
                    &&& old(self)@ is Str
                    &&& final(self)@ == old(self)@
                },
            },
    {
        match self {
            VdfValue::Obj(map) => Some(map),
            _ => None,
        }
    }
}

} // verus!
