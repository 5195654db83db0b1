//! The definition table: referenced types that need a definition of their
//! own, keyed by simplified form, kept in increasing key order so that
//! iteration does not depend on the order of registration.
use vstd::prelude::*;
use crate::text::chars_of;

verus! {

/// Strict lexicographic order on character sequences (by code point).
pub open spec fn key_less(a: Seq<char>, b: Seq<char>) -> bool
    decreases a.len(),
{
    if b.len() == 0 {
        false
    } else if a.len() == 0 {
        true
    } else if a[0] != b[0] {
        a[0] < b[0]
    } else {
        key_less(a.drop_first(), b.drop_first())
    }
}

pub proof fn lemma_key_less_irreflexive(a: Seq<char>)
    ensures
        !key_less(a, a),
    decreases a.len(),
{
    if a.len() > 0 {
        lemma_key_less_irreflexive(a.drop_first());
    }
}

pub proof fn lemma_key_less_transitive(a: Seq<char>, b: Seq<char>, c: Seq<char>)
    requires
        key_less(a, b),
        key_less(b, c),
    ensures
        key_less(a, c),
    decreases a.len(),
{
    if a.len() > 0 && b.len() > 0 && c.len() > 0 && a[0] == b[0] && b[0] == c[0] {
        lemma_key_less_transitive(a.drop_first(), b.drop_first(), c.drop_first());
    }
}

pub proof fn lemma_key_less_total(a: Seq<char>, b: Seq<char>)
    ensures
        a == b || key_less(a, b) || key_less(b, a),
        !(key_less(a, b) && key_less(b, a)),
    decreases a.len(),
{
    if a.len() > 0 && b.len() > 0 {
        if a[0] == b[0] {
            lemma_key_less_total(a.drop_first(), b.drop_first());
            if a.drop_first() == b.drop_first() {
                assert(a =~= seq![a[0]] + a.drop_first());
                assert(b =~= seq![b[0]] + b.drop_first());
            }
        }
    } else if a.len() == 0 && b.len() == 0 {
        assert(a =~= b);
    }
}

proof fn lemma_key_less_skip(a: Seq<char>, b: Seq<char>, i: int)
    requires
        0 <= i <= a.len(),
        i <= b.len(),
        a.take(i) == b.take(i),
    ensures
        key_less(a, b) == key_less(a.skip(i), b.skip(i)),
    decreases i,
{
    if i > 0 {
        assert(a[0] == a.take(i)[0]);
        assert(b[0] == b.take(i)[0]);
        assert(a.drop_first().take(i - 1) =~= a.take(i).drop_first());
        assert(b.drop_first().take(i - 1) =~= b.take(i).drop_first());
        lemma_key_less_skip(a.drop_first(), b.drop_first(), i - 1);
        assert(a.drop_first().skip(i - 1) =~= a.skip(i));
        assert(b.drop_first().skip(i - 1) =~= b.skip(i));
    } else {
        assert(a.skip(0) =~= a);
        assert(b.skip(0) =~= b);
    }
}

/// Three-way comparison of two keys in the order of [`key_less`].
fn compare_keys(a: &Vec<char>, b: &Vec<char>) -> (r: i8)
    ensures
        (r == 0) == (a@ == b@),
        (r < 0) == key_less(a@, b@),
        (r > 0) == key_less(b@, a@),
{
    let mut i: usize = 0;
    while i < a.len() && i < b.len() && a[i] == b[i]
        invariant
            i <= a@.len(),
            i <= b@.len(),
            a@.take(i as int) == b@.take(i as int),
        decreases a@.len() - i,
    {
        proof {
            assert(a@.take(i + 1) =~= a@.take(i as int).push(a@[i as int]));
            assert(b@.take(i + 1) =~= b@.take(i as int).push(b@[i as int]));
        }
        i += 1;
    }
    proof {
        lemma_key_less_skip(a@, b@, i as int);
        lemma_key_less_skip(b@, a@, i as int);
        lemma_key_less_total(a@, b@);
        lemma_key_less_irreflexive(a@);
        if i == a@.len() && i == b@.len() {
            assert(a@ =~= a@.take(i as int));
            assert(b@ =~= b@.take(i as int));
        }
    }
    if i == a.len() && i == b.len() {
        0
    } else if i == a.len() {
        assert(a@.skip(i as int).len() == 0);
        -1
    } else if i == b.len() {
        assert(b@.skip(i as int).len() == 0);
        1
    } else if a[i] < b[i] {
        assert(a@.skip(i as int)[0] == a@[i as int]);
        assert(b@.skip(i as int)[0] == b@[i as int]);
        -1
    } else {
        assert(a@.skip(i as int)[0] == a@[i as int]);
        assert(b@.skip(i as int)[0] == b@[i as int]);
        1
    }
}

/// The entries with their strings seen as character sequences.
pub open spec fn entries_view(e: Seq<(String, String)>) -> Seq<(Seq<char>, Seq<char>)> {
    e.map_values(|p: (String, String)| (p.0@, p.1@))
}

/// The map that a sequence of entries stands for (a later entry wins).
pub open spec fn map_of(e: Seq<(Seq<char>, Seq<char>)>) -> Map<Seq<char>, Seq<char>>
    decreases e.len(),
{
    if e.len() == 0 {
        Map::empty()
    } else {
        map_of(e.drop_last()).insert(e.last().0, e.last().1)
    }
}

/// Keys in strictly increasing order.
pub open spec fn sorted_keys(e: Seq<(Seq<char>, Seq<char>)>) -> bool {
    forall|i: int, j: int| 0 <= i < j < e.len() ==> key_less(#[trigger] e[i].0, #[trigger] e[j].0)
}

pub proof fn lemma_map_of_sorted(e: Seq<(Seq<char>, Seq<char>)>)
    requires
        sorted_keys(e),
    ensures
        forall|j: int| 0 <= j < e.len() ==> #[trigger] map_of(e).contains_key(e[j].0),
        forall|j: int| 0 <= j < e.len() ==> #[trigger] map_of(e)[e[j].0] == e[j].1,
        forall|k: Seq<char>| #[trigger] map_of(e).contains_key(k) ==> exists|j: int| 0 <= j < e.len() && e[j].0 == k,
        map_of(e).dom().finite(),
        map_of(e).dom().len() == e.len(),
    decreases e.len(),
{
    if e.len() > 0 {
        let d = e.drop_last();
        assert(sorted_keys(d)) by {
            assert forall|a: int, b: int| 0 <= a < b < d.len() implies key_less(#[trigger] d[a].0, #[trigger] d[b].0) by {
                assert(d[a] == e[a] && d[b] == e[b]);
            }
        }
        lemma_map_of_sorted(d);
        let last = e.last();
        let n = e.len() - 1;
        assert(map_of(e) == map_of(d).insert(last.0, last.1));
        assert(last == e[n]);
        assert forall|j: int| 0 <= j < n implies e[j].0 != last.0 by {
            assert(key_less(e[j].0, e[n].0));
            lemma_key_less_irreflexive(e[j].0);
        }
        assert forall|j: int| 0 <= j < e.len() implies #[trigger] map_of(e).contains_key(e[j].0) by {
            if j < n {
                assert(d[j] == e[j]);
                assert(map_of(d).contains_key(d[j].0));
            }
        }
        assert forall|j: int| 0 <= j < e.len() implies #[trigger] map_of(e)[e[j].0] == e[j].1 by {
            if j < n {
                assert(d[j] == e[j]);
                assert(map_of(d)[d[j].0] == d[j].1);
            }
        }
        assert forall|k: Seq<char>| #[trigger] map_of(e).contains_key(k) implies exists|j: int| 0 <= j < e.len() && e[j].0 == k by {
            if k != last.0 {
                assert(map_of(d).contains_key(k));
                let j = choose|j: int| 0 <= j < d.len() && d[j].0 == k;
                assert(e[j] == d[j]);
            }
        }
        if map_of(d).contains_key(last.0) {
            let j = choose|j: int| 0 <= j < d.len() && d[j].0 == last.0;
            assert(e[j] == d[j]);
        }
    }
}

/// Two key-ordered entry sequences that stand for the same map are equal.
pub proof fn lemma_sorted_unique(e1: Seq<(Seq<char>, Seq<char>)>, e2: Seq<(Seq<char>, Seq<char>)>)
    requires
        sorted_keys(e1),
        sorted_keys(e2),
        map_of(e1) == map_of(e2),
    ensures
        e1 == e2,
    decreases e1.len(),
{
    lemma_map_of_sorted(e1);
    lemma_map_of_sorted(e2);
    if e1.len() == 0 {
        assert(e2.len() == 0);
        assert(e1 =~= e2);
    } else {
        let n = e1.len() - 1;
        let k1 = e1[n].0;
        let k2 = e2[n].0;
        assert(map_of(e1).contains_key(k1));
        assert(map_of(e2).contains_key(k2));
        let j1 = choose|j: int| 0 <= j < e1.len() && e1[j].0 == k2;
        let j2 = choose|j: int| 0 <= j < e2.len() && e2[j].0 == k1;
        if k1 != k2 {
            assert(j1 != n);
            assert(key_less(e1[j1].0, e1[n].0));
            assert(j2 != n);
            assert(key_less(e2[j2].0, e2[n].0));
            lemma_key_less_total(k1, k2);
        }
        assert(map_of(e1)[e1[n].0] == e1[n].1);
        assert(map_of(e2)[e2[n].0] == e2[n].1);
        let d1 = e1.drop_last();
        let d2 = e2.drop_last();
        assert(sorted_keys(d1)) by {
            assert forall|a: int, b: int| 0 <= a < b < d1.len() implies key_less(#[trigger] d1[a].0, #[trigger] d1[b].0) by {
                assert(d1[a] == e1[a] && d1[b] == e1[b]);
            }
        }
        assert(sorted_keys(d2)) by {
            assert forall|a: int, b: int| 0 <= a < b < d2.len() implies key_less(#[trigger] d2[a].0, #[trigger] d2[b].0) by {
                assert(d2[a] == e2[a] && d2[b] == e2[b]);
            }
        }
        lemma_map_of_sorted(d1);
        lemma_map_of_sorted(d2);
        assert(!map_of(d1).contains_key(k1)) by {
            if map_of(d1).contains_key(k1) {
                let j = choose|j: int| 0 <= j < d1.len() && d1[j].0 == k1;
                assert(key_less(e1[j].0, e1[n].0));
                lemma_key_less_irreflexive(k1);
            }
        }
        assert(!map_of(d2).contains_key(k1)) by {
            if map_of(d2).contains_key(k1) {
                let j = choose|j: int| 0 <= j < d2.len() && d2[j].0 == k1;
                assert(key_less(e2[j].0, e2[n].0));
                lemma_key_less_irreflexive(k1);
            }
        }
        assert(map_of(e1) == map_of(d1).insert(k1, e1[n].1));
        assert(map_of(e2) == map_of(d2).insert(k1, e2[n].1));
        assert(map_of(d1) =~= map_of(e1).remove(k1));
        assert(map_of(d2) =~= map_of(e2).remove(k1));
        lemma_sorted_unique(d1, d2);
        assert(e1 =~= d1.push(e1[n]));
        assert(e2 =~= d2.push(e2[n]));
    }
}

/// A definition table: simplified reference key to the written form of the
/// referenced type.
#[derive(Debug)]
pub struct DefinitionTable {
    entries: Vec<(String, String)>,
}

impl View for DefinitionTable {
    type V = Map<Seq<char>, Seq<char>>;

    open spec fn view(&self) -> Map<Seq<char>, Seq<char>> {
        map_of(self.entries())
    }
}

impl DefinitionTable {
    /// The entries, in increasing key order.
    pub closed spec fn entries(&self) -> Seq<(Seq<char>, Seq<char>)> {
        entries_view(self.entries@)
    }

    /// Well-formed: keys in strictly increasing order.
    pub open spec fn wf(&self) -> bool {
        sorted_keys(self.entries())
    }

    /// Two well-formed tables with the same contents hold the same entries
    /// in the same order, whatever order the keys were inserted in.
    pub proof fn lemma_canonical(a: &DefinitionTable, b: &DefinitionTable)
        requires
            a.wf(),
            b.wf(),
            a@ == b@,
        ensures
            a.entries() == b.entries(),
    {
        lemma_sorted_unique(a.entries(), b.entries());
    }

    /// An empty table.
    pub fn new() -> (r: DefinitionTable)
        ensures
            r.wf(),
            r@ == Map::<Seq<char>, Seq<char>>::empty(),
            r.entries().len() == 0,
    {
        let r = DefinitionTable { entries: Vec::new() };
        assert(r.entries() =~= Seq::<(Seq<char>, Seq<char>)>::empty());
        r
    }

    /// Registers `key` with the written form `value`. A new key takes its
    /// place in key order; a key already present gets the new value, so
    /// inserting the same pair twice changes nothing the second time.
    pub fn insert(&mut self, key: String, value: String)
        requires
            old(self).wf(),
        ensures
            final(self).wf(),
            final(self)@ == old(self)@.insert(key@, value@),
    {
        proof {
            lemma_map_of_sorted(self.entries());
        }
        let k = chars_of(key.as_str());
        let n = self.entries.len();
        let mut i: usize = 0;
        let mut found = false;
        while i < n
            invariant_except_break
                n == self.entries@.len(),
                self.entries() == old(self).entries(),
                i <= n,
                forall|j: int| 0 <= j < i ==> key_less(#[trigger] self.entries()[j].0, k@),
                !found,
            ensures
                n == self.entries@.len(),
                self.entries() == old(self).entries(),
                i <= n,
                forall|j: int| 0 <= j < i ==> key_less(#[trigger] self.entries()[j].0, k@),
                found ==> i < n && self.entries()[i as int].0 == k@,
                !found ==> i == n || key_less(k@, self.entries()[i as int].0),
            decreases n - i,
        {
            let c = chars_of(self.entries[i].0.as_str());
            assert(self.entries()[i as int].0 == self.entries@[i as int].0@);
            let ord = compare_keys(&c, &k);
            if ord == 0 {
                found = true;
                break;
            }
            if ord > 0 {
                break;
            }
            i += 1;
        }
        let ghost e = self.entries();
        let ghost kv = (key@, value@);
        let ghost target = map_of(e).insert(key@, value@);
        if found {
            self.entries.set(i, (key, value));
            proof {
                let e2 = self.entries();
                assert(e2 =~= e.update(i as int, kv));
                assert(sorted_keys(e2)) by {
                    assert forall|a: int, b: int| 0 <= a < b < e2.len() implies key_less(#[trigger] e2[a].0, #[trigger] e2[b].0) by {
                        assert(key_less(e[a].0, e[b].0));
                    }
                }
                lemma_map_of_sorted(e2);
                assert forall|x: Seq<char>| #[trigger] map_of(e2).contains_key(x) == target.contains_key(x)
                    && (target.contains_key(x) ==> map_of(e2)[x] == target[x]) by {
                    if map_of(e2).contains_key(x) {
                        let j = choose|j: int| 0 <= j < e2.len() && e2[j].0 == x;
                        assert(map_of(e).contains_key(e[j].0));
                    }
                    if target.contains_key(x) && x != key@ {
                        let j = choose|j: int| 0 <= j < e.len() && e[j].0 == x;
                        assert(map_of(e2).contains_key(e2[j].0));
                        assert(map_of(e2)[e2[j].0] == e2[j].1);
                        assert(map_of(e)[e[j].0] == e[j].1);
                        assert(j != i);
                    }
                    if x == key@ {
                        assert(map_of(e2).contains_key(e2[i as int].0));
                        assert(map_of(e2)[e2[i as int].0] == e2[i as int].1);
                    }
                }
                assert(map_of(e2) =~= target);
            }
        } else {
            self.entries.insert(i, (key, value));
            proof {
                let e2 = self.entries();
                assert(e2 =~= e.insert(i as int, kv));
                assert(sorted_keys(e2)) by {
                    assert forall|a: int, b: int| 0 <= a < b < e2.len() implies key_less(#[trigger] e2[a].0, #[trigger] e2[b].0) by {
                        if b < i {
                            assert(key_less(e[a].0, e[b].0));
                        } else if b == i {
                            assert(key_less(e[a].0, k@));
                        } else if a > i {
                            assert(key_less(e[a - 1].0, e[b - 1].0));
                        } else if a == i {
                            if b - 1 > i {
                                assert(key_less(e[i as int].0, e[b - 1].0));
                                lemma_key_less_transitive(k@, e[i as int].0, e[b - 1].0);
                            }
                        } else {
                            assert(key_less(e[a].0, e[b - 1].0));
                        }
                    }
                }
                lemma_map_of_sorted(e2);
                assert forall|x: Seq<char>| #[trigger] map_of(e2).contains_key(x) == target.contains_key(x)
                    && (target.contains_key(x) ==> map_of(e2)[x] == target[x]) by {
                    if map_of(e2).contains_key(x) {
                        let j = choose|j: int| 0 <= j < e2.len() && e2[j].0 == x;
                        if j < i {
                            assert(map_of(e).contains_key(e[j].0));
                        } else if j > i {
                            assert(map_of(e).contains_key(e[j - 1].0));
                        }
                    }
                    if target.contains_key(x) && x != key@ {
                        let j = choose|j: int| 0 <= j < e.len() && e[j].0 == x;
                        assert(map_of(e)[e[j].0] == e[j].1);
                        if j < i {
                            assert(map_of(e2).contains_key(e2[j].0));
                            assert(map_of(e2)[e2[j].0] == e2[j].1);
                        } else {
                            assert(map_of(e2).contains_key(e2[j + 1].0));
                            assert(map_of(e2)[e2[j + 1].0] == e2[j + 1].1);
                        }
                    }
                    if x == key@ {
                        assert(map_of(e2).contains_key(e2[i as int].0));
                        assert(map_of(e2)[e2[i as int].0] == e2[i as int].1);
                    }
                }
                assert(map_of(e2) =~= target);
            }
        }
    }

    /// The number of keys.
    pub fn len(&self) -> (r: usize)
        requires
            self.wf(),
        ensures
            r == self@.len(),
            r == self.entries().len(),
    {
        proof {
            lemma_map_of_sorted(self.entries());
        }
        self.entries.len()
    }

    /// Index of the entry whose key is `k`, if any.
    fn find(&self, k: &Vec<char>) -> (r: Option<usize>)
        requires
            self.wf(),
        ensures
            match r {
                Some(i) => i < self.entries().len() && self.entries()[i as int].0 == k@,
                None => !self@.contains_key(k@),
            },
    {
        proof {
            lemma_map_of_sorted(self.entries());
        }
        let mut i: usize = 0;
        while i < self.entries.len()
            invariant
                i <= self.entries().len(),
                self.entries().len() == self.entries@.len(),
                forall|j: int| 0 <= j < i ==> self.entries()[j].0 != k@,
            decreases self.entries@.len() - i,
        {
            let c = chars_of(self.entries[i].0.as_str());
            assert(self.entries()[i as int].0 == self.entries@[i as int].0@);
            if crate::text::range_eq(&c, 0, c.len(), k) {
                assert(c@.subrange(0, c@.len() as int) =~= c@);
                return Some(i);
            }
            assert(c@.subrange(0, c@.len() as int) =~= c@);
            i += 1;
        }
        None
    }

    /// Whether `key` has an entry.
    pub fn contains_key(&self, key: &str) -> (r: bool)
        requires
            self.wf(),
        ensures
            r == self@.contains_key(key@),
    {
        proof {
            lemma_map_of_sorted(self.entries());
        }
        let k = chars_of(key);
        match self.find(&k) {
            Some(i) => true,
            None => false,
        }
    }

    /// The written form registered under `key`, if any.
    pub fn get(&self, key: &str) -> (r: Option<&String>)
        requires
            self.wf(),
        ensures
            match r {
                Some(v) => self@.contains_key(key@) && v@ == self@[key@],
                None => !self@.contains_key(key@),
            },
    {
        proof {
            lemma_map_of_sorted(self.entries());
        }
        let k = chars_of(key);
        match self.find(&k) {
            Some(i) => {
                assert(self.entries()[i as int].1 == self.entries@[i as int].1@);
                assert(self@.contains_key(self.entries()[i as int].0));
                assert(self@[self.entries()[i as int].0] == self.entries()[i as int].1);
                Some(&self.entries[i].1)
            },
            None => None,
        }
    }

    /// The key and written form of the `i`-th entry in key order.
    pub fn entry(&self, i: usize) -> (r: (&String, &String))
        requires
            i < self.entries().len(),
        ensures
            r.0@ == self.entries()[i as int].0,
            r.1@ == self.entries()[i as int].1,
    {
        let e = &self.entries[i];
        (&e.0, &e.1)
    }
}

} // verus!
