//! A small mapping from identifiers to amounts, kept in insertion order.

use crate::text::same_text;
use vstd::prelude::*;

verus! {

/// One identifier with its amount.
#[derive(Debug)]
pub struct Entry {
    pub name: String,
    pub value: i64,
}

/// A mapping from identifiers to amounts in which no identifier occurs
/// twice. Entries stay in the order in which their identifiers first came.
#[derive(Debug)]
pub struct Ledger {
    pub entries: Vec<Entry>,
}

/// No identifier occurs twice.
pub open spec fn distinct_names(s: Seq<(Seq<char>, int)>) -> bool {
    forall|i: int, j: int| 0 <= i < j < s.len() ==> (#[trigger] s[i]).0 != (#[trigger] s[j]).0
}

/// Some entry is filed under `name`.
pub open spec fn has_name(s: Seq<(Seq<char>, int)>, name: Seq<char>) -> bool {
    exists|i: int| 0 <= i < s.len() && (#[trigger] s[i]).0 == name
}

/// The place of an entry filed under `name`.
pub open spec fn index_of(s: Seq<(Seq<char>, int)>, name: Seq<char>) -> int {
    choose|i: int| 0 <= i < s.len() && (#[trigger] s[i]).0 == name
}

/// The amount filed under `name`, if there is one.
pub open spec fn value_of(s: Seq<(Seq<char>, int)>, name: Seq<char>) -> Option<int> {
    if has_name(s, name) {
        Some(s[index_of(s, name)].1)
    } else {
        None
    }
}

/// The mapping with `value` filed under `name`: in place of the amount that
/// was there, or as a new last entry.
pub open spec fn with_value(s: Seq<(Seq<char>, int)>, name: Seq<char>, value: int) -> Seq<
    (Seq<char>, int),
> {
    if has_name(s, name) {
        s.update(index_of(s, name), (name, value))
    } else {
        s.push((name, value))
    }
}

/// The smallest amount of the mapping, or 0 where it is empty.
pub open spec fn least(s: Seq<(Seq<char>, int)>) -> int
    decreases s.len(),
{
    if s.len() == 0 {
        0
    } else if s.len() == 1 {
        s[0].1
    } else if s.last().1 < least(s.drop_last()) {
        s.last().1
    } else {
        least(s.drop_last())
    }
}

/// The largest amount of the mapping, or 0 where it is empty.
pub open spec fn greatest(s: Seq<(Seq<char>, int)>) -> int
    decreases s.len(),
{
    if s.len() == 0 {
        0
    } else if s.len() == 1 {
        s[0].1
    } else if s.last().1 > greatest(s.drop_last()) {
        s.last().1
    } else {
        greatest(s.drop_last())
    }
}

/// The sum of the amounts of the mapping.
pub open spec fn sum_of(s: Seq<(Seq<char>, int)>) -> int
    decreases s.len(),
{
    if s.len() == 0 {
        0
    } else {
        sum_of(s.drop_last()) + s.last().1
    }
}

/// The amount filed under `name`, or 0 where there is none.
pub open spec fn amount(s: Seq<(Seq<char>, int)>, name: Seq<char>) -> int {
    match value_of(s, name) {
        Some(value) => value,
        None => 0,
    }
}

/// An entry put in the place of another changes the sum by the difference
/// of the two amounts.
pub proof fn lemma_sum_update(s: Seq<(Seq<char>, int)>, i: int, entry: (Seq<char>, int))
    requires
        0 <= i < s.len(),
    ensures
        sum_of(s.update(i, entry)) == sum_of(s) - s[i].1 + entry.1,
    decreases s.len(),
{
    let after = s.update(i, entry);
    if i == s.len() - 1 {
        assert(after.drop_last() =~= s.drop_last());
    } else {
        assert(after.drop_last() =~= s.drop_last().update(i, entry));
        lemma_sum_update(s.drop_last(), i, entry);
    }
}

/// Filing an amount changes the sum by what the amount differs from the one
/// that was filed under the identifier before.
pub proof fn lemma_sum_with_value(s: Seq<(Seq<char>, int)>, name: Seq<char>, value: int)
    ensures
        sum_of(with_value(s, name, value)) == sum_of(s) - amount(s, name) + value,
{
    if has_name(s, name) {
        lemma_sum_update(s, index_of(s, name), (name, value));
    } else {
        assert(s.push((name, value)).drop_last() =~= s);
    }
}

/// In a mapping that is not empty, `least` and `greatest` are amounts of
/// the mapping, and every amount lies between them.
pub proof fn lemma_least_greatest(s: Seq<(Seq<char>, int)>)
    requires
        s.len() > 0,
    ensures
        forall|i: int| 0 <= i < s.len() ==> least(s) <= (#[trigger] s[i]).1 <= greatest(s),
        exists|i: int| 0 <= i < s.len() && (#[trigger] s[i]).1 == least(s),
        exists|i: int| 0 <= i < s.len() && (#[trigger] s[i]).1 == greatest(s),
    decreases s.len(),
{
    if s.len() == 1 {
        assert(s[0].1 == least(s));
        assert(s[0].1 == greatest(s));
    } else {
        let init = s.drop_last();
        lemma_least_greatest(init);
        let lo = choose|i: int| 0 <= i < init.len() && (#[trigger] init[i]).1 == least(init);
        let hi = choose|i: int| 0 <= i < init.len() && (#[trigger] init[i]).1 == greatest(init);
        assert(s[lo] == init[lo]);
        assert(s[hi] == init[hi]);
        assert(s[s.len() - 1] == s.last());
        assert forall|i: int| 0 <= i < s.len() implies least(s) <= (#[trigger] s[i]).1
            <= greatest(s) by {
            if i < init.len() {
                assert(s[i] == init[i]);
            }
        }
    }
}

/// In a mapping without repeated identifiers, the amount filed under the
/// identifier at place `i` is the amount at place `i`.
pub proof fn lemma_value_at(s: Seq<(Seq<char>, int)>, i: int)
    requires
        distinct_names(s),
        0 <= i < s.len(),
    ensures
        has_name(s, s[i].0),
        index_of(s, s[i].0) == i,
        value_of(s, s[i].0) == Some(s[i].1),
{
    assert(has_name(s, s[i].0));
    let j = index_of(s, s[i].0);
    if j < i {
        assert(s[j].0 != s[i].0);
    } else if i < j {
        assert(s[i].0 != s[j].0);
    }
}

/// Filing an amount keeps identifiers unrepeated, files that amount under
/// its identifier and leaves all other identifiers as they were.
pub proof fn lemma_with_value(s: Seq<(Seq<char>, int)>, name: Seq<char>, value: int)
    requires
        distinct_names(s),
    ensures
        distinct_names(with_value(s, name, value)),
        value_of(with_value(s, name, value), name) == Some(value),
        forall|other: Seq<char>|
            other != name ==> value_of(with_value(s, name, value), other) == value_of(s, other),
        with_value(s, name, value).len() == if has_name(s, name) {
            s.len()
        } else {
            s.len() + 1
        },
{
    let t = with_value(s, name, value);
    let at = if has_name(s, name) {
        index_of(s, name)
    } else {
        s.len() as int
    };
    assert(t[at] == (name, value));
    assert forall|i: int, j: int| 0 <= i < j < t.len() implies (#[trigger] t[i]).0 != (
    #[trigger] t[j]).0 by {
        if i != at && i < s.len() {
            assert(t[i] == s[i]);
        }
        if j != at && j < s.len() {
            assert(t[j] == s[j]);
        }
    }
    lemma_value_at(t, at);
    assert forall|other: Seq<char>| other != name implies value_of(t, other) == value_of(
        s,
        other,
    ) by {
        if has_name(s, other) {
            let k = index_of(s, other);
            assert(t[k] == s[k]);
            lemma_value_at(s, k);
            lemma_value_at(t, k);
        } else if has_name(t, other) {
            let k = index_of(t, other);
            assert(k != at);
            assert(t[k] == s[k]);
        }
    }
}

/// The two mappings file the same amounts under the same identifiers, in
/// whatever order.
pub open spec fn same_amounts(a: Seq<(Seq<char>, int)>, b: Seq<(Seq<char>, int)>) -> bool {
    &&& distinct_names(a)
    &&& distinct_names(b)
    &&& forall|name: Seq<char>| #![trigger value_of(a, name)] value_of(a, name) == value_of(b, name)
}

/// The least amount of one mapping is no less than that of another that
/// files the same amounts, and its greatest amount no greater.
proof fn lemma_same_amounts_one_way(a: Seq<(Seq<char>, int)>, b: Seq<(Seq<char>, int)>)
    requires
        same_amounts(a, b),
        a.len() > 0,
    ensures
        b.len() > 0,
        least(b) <= least(a),
        greatest(a) <= greatest(b),
{
    lemma_least_greatest(a);
    let lo = choose|i: int| 0 <= i < a.len() && (#[trigger] a[i]).1 == least(a);
    let hi = choose|i: int| 0 <= i < a.len() && (#[trigger] a[i]).1 == greatest(a);
    lemma_value_at(a, lo);
    lemma_value_at(a, hi);
    assert(value_of(a, a[lo].0) == value_of(b, a[lo].0));
    assert(value_of(a, a[hi].0) == value_of(b, a[hi].0));
    assert(has_name(b, a[lo].0));
    lemma_least_greatest(b);
    let at_lo = index_of(b, a[lo].0);
    let at_hi = index_of(b, a[hi].0);
    assert(least(b) <= b[at_lo].1 <= greatest(b));
    assert(least(b) <= b[at_hi].1 <= greatest(b));
}

/// Mappings that file the same amounts have the same least and the same
/// greatest amount.
pub proof fn lemma_same_amounts(a: Seq<(Seq<char>, int)>, b: Seq<(Seq<char>, int)>)
    requires
        same_amounts(a, b),
    ensures
        least(a) == least(b),
        greatest(a) == greatest(b),
        a.len() == 0 <==> b.len() == 0,
{
    assert(same_amounts(b, a)) by {
        assert forall|name: Seq<char>|
            #![trigger value_of(b, name)]
            value_of(b, name) == value_of(a, name) by {
            assert(value_of(a, name) == value_of(b, name));
        }
    }
    if a.len() > 0 {
        lemma_same_amounts_one_way(a, b);
        lemma_same_amounts_one_way(b, a);
    } else if b.len() > 0 {
        lemma_same_amounts_one_way(b, a);
    }
}

/// Mappings that file the same amounts still do once the same amount has
/// been filed with both under the same identifier.
pub proof fn lemma_same_amounts_with_value(
    a: Seq<(Seq<char>, int)>,
    b: Seq<(Seq<char>, int)>,
    name: Seq<char>,
    value: int,
)
    requires
        same_amounts(a, b),
    ensures
        same_amounts(with_value(a, name, value), with_value(b, name, value)),
{
    lemma_with_value(a, name, value);
    lemma_with_value(b, name, value);
    let (after_a, after_b) = (with_value(a, name, value), with_value(b, name, value));
    assert forall|other: Seq<char>|
        #![trigger value_of(after_a, other)]
        value_of(after_a, other) == value_of(after_b, other) by {
        if other != name {
            assert(value_of(a, other) == value_of(b, other));
        }
    }
}

impl View for Ledger {
    type V = Seq<(Seq<char>, int)>;

    open spec fn view(&self) -> Seq<(Seq<char>, int)> {
        Seq::new(
            self.entries@.len(),
            |i: int| (self.entries@[i].name@, self.entries@[i].value as int),
        )
    }
}

impl Ledger {
    /// No identifier occurs twice.
    pub open spec fn wf(&self) -> bool {
        distinct_names(self@)
    }

    /// Whether no identifier occurs twice.
    pub fn check(&self) -> (valid: bool)
        ensures
            valid == self.wf(),
    {
        let mut j: usize = 0;
        while j < self.entries.len()
            invariant
                j <= self.entries@.len(),
                forall|a: int, b: int|
                    0 <= a < b < j ==> (#[trigger] self@[a]).0 != (#[trigger] self@[b]).0,
            decreases self.entries.len() - j,
        {
            let mut i: usize = 0;
            while i < j
                invariant
                    j < self.entries@.len(),
                    i <= j,
                    forall|a: int| 0 <= a < i ==> (#[trigger] self@[a]).0 != self@[j as int].0,
                decreases j - i,
            {
                if same_text(self.entries[i].name.as_str(), self.entries[j].name.as_str()) {
                    assert(self@[i as int].0 == self@[j as int].0);
                    return false;
                }
                i = i + 1;
            }
            j = j + 1;
        }
        true
    }

    /// The empty mapping.
    pub fn new() -> (ledger: Ledger)
        ensures
            ledger@ == Seq::<(Seq<char>, int)>::empty(),
            ledger.wf(),
    {
        let ledger = Ledger { entries: Vec::new() };
        assert(ledger@ =~= Seq::<(Seq<char>, int)>::empty());
        ledger
    }

    /// The number of entries.
    pub fn len(&self) -> (n: usize)
        ensures
            n == self@.len(),
    {
        self.entries.len()
    }

    /// The amount filed under `name`, if there is one.
    pub fn get(&self, name: &str) -> (value: Option<i64>)
        requires
            self.wf(),
        ensures
            match value {
                Some(v) => value_of(self@, name@) == Some(v as int),
                None => value_of(self@, name@) is None,
            },
    {
        let mut i: usize = 0;
        while i < self.entries.len()
            invariant
                self.wf(),
                i <= self.entries.len(),
                forall|k: int| 0 <= k < i ==> (#[trigger] self@[k]).0 != name@,
            decreases self.entries.len() - i,
        {
            if same_text(self.entries[i].name.as_str(), name) {
                proof {
                    assert(self@[i as int].0 == name@);
                    lemma_value_at(self@, i as int);
                }
                return Some(self.entries[i].value);
            }
            i = i + 1;
        }
        None
    }

    /// Files `value` under `name`, in place of the amount that was there or
    /// as a new last entry.
    pub fn set(&mut self, name: &str, value: i64)
        requires
            old(self).wf(),
        ensures
            final(self).wf(),
            final(self)@ == with_value(old(self)@, name@, value as int),
    {
        proof {
            lemma_with_value(self@, name@, value as int);
        }
        let mut i: usize = 0;
        while i < self.entries.len()
            invariant
                self.wf(),
                *self == *old(self),
                i <= self.entries.len(),
                forall|k: int| 0 <= k < i ==> (#[trigger] self@[k]).0 != name@,
            decreases self.entries.len() - i,
        {
            if same_text(self.entries[i].name.as_str(), name) {
                proof {
                    assert(self@[i as int].0 == name@);
                    lemma_value_at(self@, i as int);
                }
                let ghost before = self@;
                let entry = Entry { name: name.to_owned(), value };
                self.entries.set(i, entry);
                assert(self@ =~= before.update(i as int, (name@, value as int)));
                return ;
            }
            i = i + 1;
        }
        let ghost before = self@;
        self.entries.push(Entry { name: name.to_owned(), value });
        assert(self@ =~= before.push((name@, value as int)));
    }

    /// The smallest amount, or 0 where the mapping is empty.
    pub fn min_value(&self) -> (m: i64)
        ensures
            m == least(self@),
    {
        if self.entries.len() == 0 {
            return 0;
        }
        let mut m: i64 = self.entries[0].value;
        let mut i: usize = 1;
        assert(self@.take(1).len() == 1);
        while i < self.entries.len()
            invariant
                1 <= i <= self.entries.len(),
                m == least(self@.take(i as int)),
            decreases self.entries.len() - i,
        {
            proof {
                assert(self@.take(i as int + 1).drop_last() =~= self@.take(i as int));
                assert(self@.take(i as int + 1).last() == self@[i as int]);
            }
            if self.entries[i].value < m {
                m = self.entries[i].value;
            }
            i = i + 1;
        }
        assert(self@.take(self.entries.len() as int) =~= self@);
        m
    }

    /// The largest amount, or 0 where the mapping is empty.
    pub fn max_value(&self) -> (m: i64)
        ensures
            m == greatest(self@),
    {
        if self.entries.len() == 0 {
            return 0;
        }
        let mut m: i64 = self.entries[0].value;
        let mut i: usize = 1;
        assert(self@.take(1).len() == 1);
        while i < self.entries.len()
            invariant
                1 <= i <= self.entries.len(),
                m == greatest(self@.take(i as int)),
            decreases self.entries.len() - i,
        {
            proof {
                assert(self@.take(i as int + 1).drop_last() =~= self@.take(i as int));
                assert(self@.take(i as int + 1).last() == self@[i as int]);
            }
            if self.entries[i].value > m {
                m = self.entries[i].value;
            }
            i = i + 1;
        }
        assert(self@.take(self.entries.len() as int) =~= self@);
        m
    }
}

} // verus!
