//! Frequency mappings: a map from character to occurrence count, together
//! with the merge operation that sums two mappings and its algebraic laws.

use vstd::prelude::*;

verus! {

/// Count of `c` in mapping `m`, with characters outside the domain
/// counting as zero occurrences.
pub open spec fn mcount(m: Map<char, nat>, c: char) -> nat {
    if m.contains_key(c) {
        m[c]
    } else {
        0
    }
}

/// Merge of two frequency mappings: the domain is the union of the two
/// domains and the counts add.
pub open spec fn spec_merge(a: Map<char, nat>, b: Map<char, nat>) -> Map<char, nat> {
    Map::new(
        |c: char| a.contains_key(c) || b.contains_key(c),
        |c: char| mcount(a, c) + mcount(b, c),
    )
}

/// The count that the merge of `a` and `b` assigns to any character is the
/// sum of the counts that `a` and `b` assign to it.
pub proof fn lemma_mcount_merge(a: Map<char, nat>, b: Map<char, nat>, c: char)
    ensures
        mcount(spec_merge(a, b), c) == mcount(a, c) + mcount(b, c),
{
}

/// Merging is commutative: `merge(a, b) == merge(b, a)`.
pub proof fn lemma_merge_commutative(a: Map<char, nat>, b: Map<char, nat>)
    ensures
        spec_merge(a, b) == spec_merge(b, a),
{
    assert(spec_merge(a, b) =~= spec_merge(b, a));
}

/// Merging is associative: `merge(merge(a, b), c) == merge(a, merge(b, c))`.
pub proof fn lemma_merge_associative(a: Map<char, nat>, b: Map<char, nat>, c: Map<char, nat>)
    ensures
        spec_merge(spec_merge(a, b), c) == spec_merge(a, spec_merge(b, c)),
{
    assert(spec_merge(spec_merge(a, b), c) =~= spec_merge(a, spec_merge(b, c)));
}

/// The empty mapping is a unit for merging: `merge(a, empty) == a`.
pub proof fn lemma_merge_empty(a: Map<char, nat>)
    ensures
        spec_merge(a, Map::empty()) == a,
{
    assert(spec_merge(a, Map::empty()) =~= a);
}

/// Sum of all counts in an entry list.
spec fn entries_total(s: Seq<(char, usize)>) -> nat
    decreases s.len(),
{
    if s.len() == 0 {
        0
    } else {
        entries_total(s.drop_last()) + s.last().1 as nat
    }
}

/// Lookup in an entry list; when a key occurs twice the later entry wins,
/// matching `entries_map`.
spec fn entries_get(s: Seq<(char, usize)>, c: char) -> Option<usize>
    decreases s.len(),
{
    if s.len() == 0 {
        None
    } else if s.last().0 == c {
        Some(s.last().1)
    } else {
        entries_get(s.drop_last(), c)
    }
}

/// The mapping that an entry list denotes.
spec fn entries_map(s: Seq<(char, usize)>) -> Map<char, nat>
    decreases s.len(),
{
    if s.len() == 0 {
        Map::empty()
    } else {
        entries_map(s.drop_last()).insert(s.last().0, s.last().1 as nat)
    }
}

/// No character occurs as the key of two entries.
spec fn entries_distinct(s: Seq<(char, usize)>) -> bool {
    forall|i: int, j: int| 0 <= i < j < s.len() ==> (#[trigger] s[i]).0 != (#[trigger] s[j]).0
}

proof fn lemma_entries_get_map(s: Seq<(char, usize)>, c: char)
    ensures
        entries_map(s).contains_key(c) <==> entries_get(s, c) is Some,
        entries_get(s, c) matches Some(v) ==> entries_map(s)[c] == v as nat,
    decreases s.len(),
{
    if s.len() > 0 {
        lemma_entries_get_map(s.drop_last(), c);
    }
}

proof fn lemma_entries_get_key_exists(s: Seq<(char, usize)>, c: char)
    ensures
        entries_get(s, c) is Some <==> exists|i: int| 0 <= i < s.len() && (#[trigger] s[i]).0 == c,
    decreases s.len(),
{
    if s.len() > 0 {
        lemma_entries_get_key_exists(s.drop_last(), c);
        if s.last().0 == c {
            assert(s[s.len() - 1].0 == c);
        } else if entries_get(s.drop_last(), c) is Some {
            let i = choose|i: int| 0 <= i < s.drop_last().len() && (#[trigger] s.drop_last()[i]).0 == c;
            assert(s[i].0 == c);
        } else {
            assert forall|i: int| 0 <= i < s.len() implies (#[trigger] s[i]).0 != c by {
                if i < s.len() - 1 {
                    assert(s.drop_last()[i] == s[i]);
                }
            }
        }
    }
}

proof fn lemma_entries_get_at_index(s: Seq<(char, usize)>, i: int)
    requires
        entries_distinct(s),
        0 <= i < s.len(),
    ensures
        entries_get(s, s[i].0) == Some(s[i].1),
    decreases s.len(),
{
    if i == s.len() - 1 {
    } else {
        assert(s[i].0 != s.last().0);
        assert(s.drop_last()[i] == s[i]);
        lemma_entries_get_at_index(s.drop_last(), i);
    }
}

proof fn lemma_entries_value_le_total(s: Seq<(char, usize)>, c: char)
    ensures
        entries_get(s, c) matches Some(v) ==> v <= entries_total(s),
    decreases s.len(),
{
    if s.len() > 0 {
        lemma_entries_value_le_total(s.drop_last(), c);
    }
}

proof fn lemma_entries_total_update(s: Seq<(char, usize)>, i: int, e: (char, usize))
    requires
        0 <= i < s.len(),
    ensures
        entries_total(s.update(i, e)) + s[i].1 == entries_total(s) + e.1,
    decreases s.len(),
{
    if i == s.len() - 1 {
        assert(s.update(i, e).drop_last() =~= s.drop_last());
    } else {
        assert(s.update(i, e).drop_last() =~= s.drop_last().update(i, e));
        lemma_entries_total_update(s.drop_last(), i, e);
    }
}

proof fn lemma_entries_map_update(s: Seq<(char, usize)>, i: int, v: usize)
    requires
        entries_distinct(s),
        0 <= i < s.len(),
    ensures
        entries_map(s.update(i, (s[i].0, v))) == entries_map(s).insert(s[i].0, v as nat),
    decreases s.len(),
{
    let t = s.update(i, (s[i].0, v));
    if i == s.len() - 1 {
        assert(t.drop_last() =~= s.drop_last());
        assert(entries_map(t) =~= entries_map(s).insert(s[i].0, v as nat));
    } else {
        assert(t.drop_last() =~= s.drop_last().update(i, (s[i].0, v)));
        assert(s.drop_last()[i] == s[i]);
        lemma_entries_map_update(s.drop_last(), i, v);
        assert(s[i].0 != s.last().0);
        assert(entries_map(t) =~= entries_map(s).insert(s[i].0, v as nat));
    }
}

/// A frequency mapping from character to occurrence count, with each
/// character held at most once.
#[derive(Debug)]
pub struct FrequencyMap {
    entries: Vec<(char, usize)>,
}

impl View for FrequencyMap {
    type V = Map<char, nat>;

    closed spec fn view(&self) -> Map<char, nat> {
        entries_map(self.entries@)
    }
}

impl FrequencyMap {
    /// Well-formed: no character is held twice.
    pub closed spec fn wf(&self) -> bool {
        entries_distinct(self.entries@)
    }

    /// Sum of all counts held in the mapping.
    pub closed spec fn total(&self) -> nat {
        entries_total(self.entries@)
    }

    /// The empty mapping.
    pub fn new() -> (r: Self)
        ensures
            r.wf(),
            r@ == Map::<char, nat>::empty(),
            r.total() == 0,
    {
        FrequencyMap { entries: Vec::new() }
    }

    fn lookup(&self, c: char) -> (r: Option<usize>)
        ensures
            r == entries_get(self.entries@, c),
    {
        let s = Ghost(self.entries@);
        let mut i = self.entries.len();
        assert(s@.subrange(0, i as int) =~= s@);
        while i > 0
            invariant
                0 <= i <= s@.len(),
                s@ == self.entries@,
                entries_get(s@, c) == entries_get(s@.subrange(0, i as int), c),
            decreases i,
        {
            let prefix = Ghost(s@.subrange(0, i as int));
            assert(prefix@.last() == s@[i - 1]);
            assert(prefix@.drop_last() =~= s@.subrange(0, i - 1));
            let e = self.entries[i - 1];
            if e.0 == c {
                return Some(e.1);
            }
            i = i - 1;
        }
        assert(s@.subrange(0, 0) =~= Seq::<(char, usize)>::empty());
        None
    }

    /// The count recorded for `c`, with zero for a character the mapping
    /// does not hold.
    pub fn get(&self, c: char) -> (r: usize)
        ensures
            r as nat == mcount(self@, c),
    {
        proof {
            lemma_entries_get_map(self.entries@, c);
        }
        match self.lookup(c) {
            Some(v) => v,
            None => 0,
        }
    }

    /// Adds `n` occurrences of `c`, creating the entry when absent. The
    /// character ends up in the domain even when `n` is zero.
    pub fn add_count(&mut self, c: char, n: usize)
        requires
            old(self).wf(),
            old(self).total() + n <= usize::MAX,
        ensures
            final(self).wf(),
            final(self)@ == old(self)@.insert(c, (mcount(old(self)@, c) + n) as nat),
            final(self).total() == old(self).total() + n,
    {
        let ghost s = self.entries@;
        let mut i: usize = 0;
        while i < self.entries.len()
            invariant
                0 <= i <= s.len(),
                s == self.entries@,
                s == old(self).entries@,
                entries_distinct(s),
                entries_total(s) + n <= usize::MAX,
                forall|j: int| 0 <= j < i ==> (#[trigger] s[j]).0 != c,
            decreases s.len() - i,
        {
            let e = self.entries[i];
            if e.0 == c {
                proof {
                    lemma_entries_get_at_index(s, i as int);
                    lemma_entries_value_le_total(s, c);
                    lemma_entries_get_map(s, c);
                }
                let v = e.1 + n;
                self.entries[i] = (c, v);
                proof {
                    lemma_entries_total_update(s, i as int, (c, v));
                    lemma_entries_map_update(s, i as int, v);
                    assert(entries_distinct(self.entries@)) by {
                        assert forall|p: int, q: int|
                            0 <= p < q < self.entries@.len() implies (#[trigger] self.entries@[p]).0
                            != (#[trigger] self.entries@[q]).0 by {
                            assert(self.entries@[p].0 == s[p].0);
                            assert(self.entries@[q].0 == s[q].0);
                        }
                    }
                }
                return ;
            }
            i = i + 1;
        }
        proof {
            lemma_entries_get_key_exists(s, c);
            lemma_entries_get_map(s, c);
            assert(entries_get(s, c) is None);
        }
        self.entries.push((c, n));
        proof {
            assert(self.entries@.drop_last() =~= s);
            assert(entries_distinct(self.entries@)) by {
                assert forall|p: int, q: int|
                    0 <= p < q < self.entries@.len() implies (#[trigger] self.entries@[p]).0
                    != (#[trigger] self.entries@[q]).0 by {
                    if q < s.len() {
                        assert(self.entries@[p] == s[p]);
                        assert(self.entries@[q] == s[q]);
                    } else {
                        assert(self.entries@[p] == s[p]);
                        assert(self.entries@[q].0 == c);
                    }
                }
            }
        }
    }

    /// Sum of all counts held in the mapping, as an executable value.
    pub fn total_count(&self) -> (r: usize)
        requires
            self.total() <= usize::MAX,
        ensures
            r as nat == self.total(),
    {
        let ghost s = self.entries@;
        let mut sum: usize = 0;
        let mut i: usize = 0;
        proof {
            assert(s.subrange(0, 0) =~= Seq::<(char, usize)>::empty());
        }
        while i < self.entries.len()
            invariant
                0 <= i <= s.len(),
                s == self.entries@,
                entries_total(s) <= usize::MAX,
                sum as nat == entries_total(s.subrange(0, i as int)),
                sum <= entries_total(s),
            decreases s.len() - i,
        {
            proof {
                lemma_entries_prefix_total_le(s, i as int);
            }
            sum = sum + self.entries[i].1;
            i = i + 1;
        }
        proof {
            assert(s.subrange(0, s.len() as int) =~= s);
        }
        sum
    }

    /// How many distinct characters the mapping holds.
    pub fn distinct_count(&self) -> (r: usize)
        requires
            self.wf(),
        ensures
            r as nat == self@.dom().len(),
    {
        proof {
            lemma_entries_dom_len(self.entries@);
        }
        self.entries.len()
    }
}

impl PartialEq for FrequencyMap {
    /// Two mappings are equal when they hold the same characters with the
    /// same counts, whatever order their entries sit in.
    fn eq(&self, other: &Self) -> (r: bool) {
        let ghost se = self.entries@;
        let ghost oe = other.entries@;
        let mut i: usize = 0;
        while i < self.entries.len()
            invariant
                0 <= i <= se.len(),
                se == self.entries@,
                oe == other.entries@,
                forall|j: int|
                    0 <= j < i ==> entries_get(se, (#[trigger] se[j]).0) == entries_get(
                        oe,
                        se[j].0,
                    ),
            decreases se.len() - i,
        {
            let c = self.entries[i].0;
            let a = self.lookup(c);
            let b = other.lookup(c);
            let same = match (a, b) {
                (Some(x), Some(y)) => x == y,
                (None, None) => true,
                _ => false,
            };
            if !same {
                proof {
                    lemma_entries_get_map(se, c);
                    lemma_entries_get_map(oe, c);
                }
                return false;
            }
            i = i + 1;
        }
        let mut k: usize = 0;
        while k < other.entries.len()
            invariant
                0 <= k <= oe.len(),
                se == self.entries@,
                oe == other.entries@,
                forall|j: int|
                    0 <= j < se.len() ==> entries_get(se, (#[trigger] se[j]).0) == entries_get(
                        oe,
                        se[j].0,
                    ),
                forall|j: int|
                    0 <= j < k ==> entries_get(se, (#[trigger] oe[j]).0) == entries_get(
                        oe,
                        oe[j].0,
                    ),
            decreases oe.len() - k,
        {
            let c = other.entries[k].0;
            let a = self.lookup(c);
            let b = other.lookup(c);
            let same = match (a, b) {
                (Some(x), Some(y)) => x == y,
                (None, None) => true,
                _ => false,
            };
            if !same {
                proof {
                    lemma_entries_get_map(se, c);
                    lemma_entries_get_map(oe, c);
                }
                return false;
            }
            k = k + 1;
        }
        proof {
            assert forall|c: char|
                entries_map(se).contains_key(c) <==> entries_map(oe).contains_key(c) by {
                lemma_entries_get_map(se, c);
                lemma_entries_get_map(oe, c);
                lemma_entries_get_key_exists(se, c);
                lemma_entries_get_key_exists(oe, c);
            }
            assert forall|c: char| entries_map(se).contains_key(c) implies entries_map(se)[c]
                == entries_map(oe)[c] by {
                lemma_entries_get_map(se, c);
                lemma_entries_get_map(oe, c);
                lemma_entries_get_key_exists(se, c);
            }
            assert(entries_map(se) =~= entries_map(oe));
        }
        true
    }
}

impl vstd::std_specs::cmp::PartialEqSpecImpl for FrequencyMap {
    open spec fn obeys_eq_spec() -> bool {
        true
    }

    open spec fn eq_spec(&self, other: &FrequencyMap) -> bool {
        self@ == other@
    }
}

proof fn lemma_entries_dom_len(s: Seq<(char, usize)>)
    requires
        entries_distinct(s),
    ensures
        entries_map(s).dom().finite(),
        entries_map(s).dom().len() == s.len(),
    decreases s.len(),
{
    if s.len() > 0 {
        let t = s.drop_last();
        assert(entries_distinct(t)) by {
            assert forall|p: int, q: int|
                0 <= p < q < t.len() implies (#[trigger] t[p]).0 != (#[trigger] t[q]).0 by {
                assert(t[p] == s[p]);
                assert(t[q] == s[q]);
            }
        }
        lemma_entries_dom_len(t);
        lemma_entries_get_key_exists(t, s.last().0);
        lemma_entries_get_map(t, s.last().0);
        assert forall|i: int| 0 <= i < t.len() implies (#[trigger] t[i]).0 != s.last().0 by {
            assert(t[i] == s[i]);
            assert(s[i].0 != s[s.len() - 1].0);
        }
        assert(!entries_map(t).contains_key(s.last().0));
        assert(entries_map(s).dom() =~= entries_map(t).dom().insert(s.last().0));
    }
}

/// Merges two frequency mappings: for every character, its count in the
/// result is the sum of its counts in `a` and `b`.
pub fn add_frequencies(a: FrequencyMap, b: FrequencyMap) -> (r: FrequencyMap)
    requires
        a.wf(),
        b.wf(),
        a.total() + b.total() <= usize::MAX,
    ensures
        r.wf(),
        r@ == spec_merge(a@, b@),
        r.total() == a.total() + b.total(),
{
    let ghost bs = b.entries@;
    let ghost av = a@;
    let ghost atotal = a.total();
    let mut out = a;
    let mut i: usize = 0;
    assert(bs.subrange(0, 0) =~= Seq::<(char, usize)>::empty());
    assert(out@ =~= spec_merge(av, entries_map(bs.subrange(0, 0))));
    while i < b.entries.len()
        invariant
            0 <= i <= bs.len(),
            bs == b.entries@,
            b.wf(),
            atotal + b.total() <= usize::MAX,
            out.wf(),
            out@ == spec_merge(av, entries_map(bs.subrange(0, i as int))),
            out.total() == atotal + entries_total(bs.subrange(0, i as int)),
        decreases bs.len() - i,
    {
        let ghost prefix = bs.subrange(0, i as int);
        let e = b.entries[i];
        proof {
            lemma_entries_prefix_total_le(bs, i as int);
            lemma_entries_get_prefix_none(bs, i as int);
            lemma_entries_get_map(prefix, e.0);
        }
        out.add_count(e.0, e.1);
        proof {
            assert(bs.subrange(0, i + 1).drop_last() =~= prefix);
            assert(entries_map(bs.subrange(0, i + 1)) == entries_map(prefix).insert(
                e.0,
                e.1 as nat,
            ));
            assert(!entries_map(prefix).contains_key(e.0));
            assert(out@ =~= spec_merge(av, entries_map(bs.subrange(0, i + 1))));
        }
        i = i + 1;
    }
    proof {
        assert(bs.subrange(0, bs.len() as int) =~= bs);
    }
    out
}

/// The total of a prefix, extended by the next entry, stays within the
/// total of the whole list.
proof fn lemma_entries_prefix_total_le(s: Seq<(char, usize)>, i: int)
    requires
        0 <= i < s.len(),
    ensures
        entries_total(s.subrange(0, i)) + s[i].1 == entries_total(s.subrange(0, i + 1)),
        entries_total(s.subrange(0, i + 1)) <= entries_total(s),
    decreases s.len(),
{
    assert(s.subrange(0, i + 1).drop_last() =~= s.subrange(0, i));
    assert(s.subrange(0, i + 1).last() == s[i]);
    if i + 1 == s.len() {
        assert(s.subrange(0, i + 1) =~= s);
    } else {
        let t = s.drop_last();
        assert(t.subrange(0, i) =~= s.subrange(0, i));
        assert(t.subrange(0, i + 1) =~= s.subrange(0, i + 1));
        assert(t[i] == s[i]);
        lemma_entries_prefix_total_le(t, i);
    }
}

/// In a duplicate-free list, the key at position `i` does not occur in the
/// prefix before `i`.
proof fn lemma_entries_get_prefix_none(s: Seq<(char, usize)>, i: int)
    requires
        entries_distinct(s),
        0 <= i < s.len(),
    ensures
        entries_get(s.subrange(0, i), s[i].0) is None,
{
    let prefix = s.subrange(0, i);
    lemma_entries_get_key_exists(prefix, s[i].0);
    assert forall|j: int| 0 <= j < prefix.len() implies (#[trigger] prefix[j]).0 != s[i].0 by {
        assert(prefix[j] == s[j]);
    }
}

} // verus!
