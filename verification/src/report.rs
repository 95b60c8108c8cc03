//! The repetition index and the ranked report.
//!
//! A repetition index maps each literal value to the set of addresses where
//! it occurs, keyed in order of first occurrence; the addresses of one value
//! are kept deduplicated, in insertion order.  The ranked report re-orders
//! the index by descending address count — stably, so values with equal
//! counts keep their first-occurrence order — and drops every entry whose
//! count is below the threshold.

use vstd::prelude::*;

verus! {

/// One value and every address where it occurs.
pub struct ReportEntry {
    pub value: String,
    pub addresses: Vec<String>,
}

/// Mathematical image of a `ReportEntry`.
#[verifier::ext_equal]
pub struct EntryV {
    pub value: Seq<char>,
    pub addresses: Seq<Seq<char>>,
}

impl View for ReportEntry {
    type V = EntryV;

    open spec fn view(&self) -> EntryV {
        EntryV { value: self.value@, addresses: self.addresses.deep_view() }
    }
}

impl DeepView for ReportEntry {
    type V = EntryV;

    open spec fn deep_view(&self) -> EntryV {
        self@
    }
}

/// A value-to-addresses mapping in order of first value occurrence; also the
/// shape of the ranked report.
pub struct RepetitionIndex {
    pub entries: Vec<ReportEntry>,
}

impl View for RepetitionIndex {
    type V = Seq<EntryV>;

    open spec fn view(&self) -> Seq<EntryV> {
        self.entries.deep_view()
    }
}

/// The index of the entry holding `value`, or -1.
pub open spec fn value_index(s: Seq<EntryV>, value: Seq<char>) -> int
    decreases s.len(),
{
    if s.len() == 0 {
        -1
    } else {
        let r = value_index(s.drop_last(), value);
        if r >= 0 {
            r
        } else if s.last().value == value {
            s.len() - 1
        } else {
            -1
        }
    }
}

/// One (address, value) pair added to an index: a new value opens a new
/// entry, a known value gains the address unless it is already recorded.
pub open spec fn insert_pair(s: Seq<EntryV>, addr: Seq<char>, value: Seq<char>) -> Seq<EntryV> {
    let j = value_index(s, value);
    if j < 0 {
        s.push(EntryV { value, addresses: seq![addr] })
    } else if s[j].addresses.contains(addr) {
        s
    } else {
        s.update(j, EntryV { value, addresses: s[j].addresses.push(addr) })
    }
}

/// The index built from a sequence of (address, value) pairs, in order.
pub open spec fn index_spec(pairs: Seq<(Seq<char>, Seq<char>)>) -> Seq<EntryV>
    decreases pairs.len(),
{
    if pairs.len() == 0 {
        Seq::empty()
    } else {
        insert_pair(index_spec(pairs.drop_last()), pairs.last().0, pairs.last().1)
    }
}

/// The largest address count of any entry.
pub open spec fn max_count(s: Seq<EntryV>) -> nat
    decreases s.len(),
{
    if s.len() == 0 {
        0
    } else {
        let m = max_count(s.drop_last());
        if s.last().addresses.len() > m {
            s.last().addresses.len()
        } else {
            m
        }
    }
}

/// The entries of `s` whose address count is exactly `d`, in order.
pub open spec fn with_count(s: Seq<EntryV>, d: nat) -> Seq<EntryV>
    decreases s.len(),
{
    if s.len() == 0 {
        Seq::empty()
    } else {
        with_count(s.drop_last(), d) + if s.last().addresses.len() == d {
            seq![s.last()]
        } else {
            Seq::empty()
        }
    }
}

/// The entries of `s` whose address count is at least `t`, in order.
pub open spec fn keep_ge(s: Seq<EntryV>, t: nat) -> Seq<EntryV>
    decreases s.len(),
{
    if s.len() == 0 {
        Seq::empty()
    } else {
        keep_ge(s.drop_last(), t) + if s.last().addresses.len() >= t {
            seq![s.last()]
        } else {
            Seq::empty()
        }
    }
}

/// The entries of `s` with count `d` first, then those with count `d - 1`,
/// and so on, stopping above the threshold `t` (and above zero, which no
/// entry of a built index reaches).
pub open spec fn ranked_from(s: Seq<EntryV>, d: nat, t: nat) -> Seq<EntryV>
    decreases d,
{
    if d == 0 || d < t {
        Seq::empty()
    } else {
        with_count(s, d) + ranked_from(s, (d - 1) as nat, t)
    }
}

/// The ranked report of an index: sorted by descending address count, ties
/// kept in index (first-occurrence) order, pruned below the threshold.
pub open spec fn ranked(s: Seq<EntryV>, t: nat) -> Seq<EntryV> {
    ranked_from(s, max_count(s), t)
}

proof fn lemma_value_index_props(s: Seq<EntryV>, value: Seq<char>)
    ensures
        value_index(s, value) >= -1,
        value_index(s, value) >= 0 ==> 0 <= value_index(s, value) < s.len() && s[value_index(
            s,
            value,
        )].value == value,
        value_index(s, value) == -1 ==> forall|k: int| 0 <= k < s.len() ==> s[k].value != value,
    decreases s.len(),
{
    if s.len() > 0 {
        lemma_value_index_props(s.drop_last(), value);
        if value_index(s, value) == -1 {
            assert forall|k: int| 0 <= k < s.len() implies s[k].value != value by {
                if k < s.len() - 1 {
                    assert(s.drop_last()[k] == s[k]);
                }
            }
        }
    }
}

/// A deduplicated address set: no address stands in it twice.
pub open spec fn no_dup(a: Seq<Seq<char>>) -> bool {
    forall|x: int, y: int| 0 <= x < y < a.len() ==> a[x] != a[y]
}

/// A well-formed index: values are unique, every entry holds at least one
/// address, and no entry records an address twice.
pub open spec fn wf_index(s: Seq<EntryV>) -> bool {
    &&& forall|i: int, j: int| 0 <= i < j < s.len() ==> s[i].value != s[j].value
    &&& forall|i: int| 0 <= i < s.len() ==> s[i].addresses.len() >= 1
    &&& forall|i: int| 0 <= i < s.len() ==> no_dup(s[i].addresses)
}

proof fn lemma_insert_pair_wf(s: Seq<EntryV>, addr: Seq<char>, value: Seq<char>)
    requires
        wf_index(s),
    ensures
        wf_index(insert_pair(s, addr, value)),
{
    lemma_value_index_props(s, value);
    let j = value_index(s, value);
    if j < 0 {
        let r = s.push(EntryV { value, addresses: seq![addr] });
        assert forall|a: int, b: int| 0 <= a < b < r.len() implies r[a].value != r[b].value by {
            if b < s.len() {
                assert(r[a] == s[a] && r[b] == s[b]);
            } else {
                assert(r[b].value == value && r[a] == s[a]);
            }
        }
        assert(wf_index(r));
    } else if s[j].addresses.contains(addr) {
    } else {
        let r = s.update(j, EntryV { value, addresses: s[j].addresses.push(addr) });
        assert forall|a: int, b: int| 0 <= a < b < r.len() implies r[a].value != r[b].value by {
            assert(r[a].value == s[a].value && r[b].value == s[b].value);
        }
        assert forall|i: int| 0 <= i < r.len() implies no_dup(r[i].addresses) by {
            if i == j {
                let w = s[j].addresses.push(addr);
                assert forall|x: int, y: int| 0 <= x < y < w.len() implies w[x] != w[y] by {
                    if y < s[j].addresses.len() {
                        assert(w[x] == s[j].addresses[x] && w[y] == s[j].addresses[y]);
                    } else {
                        assert(w[y] == addr && w[x] == s[j].addresses[x]);
                        assert(!s[j].addresses.contains(addr));
                    }
                }
            } else {
                assert(r[i] == s[i]);
            }
        }
        assert(wf_index(r));
    }
}

/// How often pairs carry the value `v`.
pub open spec fn pair_count(pairs: Seq<(Seq<char>, Seq<char>)>, v: Seq<char>) -> nat
    decreases pairs.len(),
{
    if pairs.len() == 0 {
        0
    } else {
        pair_count(pairs.drop_last(), v) + if pairs.last().1 == v {
            1nat
        } else {
            0nat
        }
    }
}

proof fn lemma_pair_count_one(pairs: Seq<(Seq<char>, Seq<char>)>, v: Seq<char>, p: int)
    requires
        0 <= p < pairs.len(),
        pairs[p].1 == v,
    ensures
        pair_count(pairs, v) >= 1,
    decreases pairs.len(),
{
    if p < pairs.len() - 1 {
        assert(pairs.drop_last()[p] == pairs[p]);
        lemma_pair_count_one(pairs.drop_last(), v, p);
    } else {
        assert(pairs.last() == pairs[p]);
    }
}

proof fn lemma_pair_count_two(pairs: Seq<(Seq<char>, Seq<char>)>, v: Seq<char>, p0: int, p1: int)
    requires
        0 <= p0 < p1 < pairs.len(),
        pairs[p0].1 == v,
        pairs[p1].1 == v,
    ensures
        pair_count(pairs, v) >= 2,
    decreases pairs.len(),
{
    if p1 == pairs.len() - 1 {
        assert(pairs.last() == pairs[p1]);
        assert(pairs.drop_last()[p0] == pairs[p0]);
        lemma_pair_count_one(pairs.drop_last(), v, p0);
    } else {
        assert(pairs.drop_last()[p0] == pairs[p0]);
        assert(pairs.drop_last()[p1] == pairs[p1]);
        lemma_pair_count_two(pairs.drop_last(), v, p0, p1);
    }
}

proof fn lemma_index_provenance(pairs: Seq<(Seq<char>, Seq<char>)>)
    ensures
        forall|k: int, x: int| #![trigger index_spec(pairs)[k].addresses[x]]
            0 <= k < index_spec(pairs).len() && 0 <= x < index_spec(pairs)[k].addresses.len()
                ==> exists|p: int|
                0 <= p < pairs.len() && pairs[p].0 == index_spec(pairs)[k].addresses[x]
                    && pairs[p].1 == index_spec(pairs)[k].value,
    decreases pairs.len(),
{
    if pairs.len() > 0 {
        let pre = pairs.drop_last();
        lemma_index_provenance(pre);
        let s = index_spec(pre);
        let a0 = pairs.last().0;
        let v0 = pairs.last().1;
        lemma_value_index_props(s, v0);
        let j = value_index(s, v0);
        let idx = index_spec(pairs);
        assert(idx == insert_pair(s, a0, v0));
        assert(pairs[pairs.len() - 1] == pairs.last());
        assert forall|k: int, x: int| #![trigger idx[k].addresses[x]]
            0 <= k < idx.len() && 0 <= x < idx[k].addresses.len() implies exists|p: int|
            0 <= p < pairs.len() && pairs[p].0 == idx[k].addresses[x] && pairs[p].1
                == idx[k].value by {
            let within_s = if j < 0 {
                k < s.len()
            } else if s[j].addresses.contains(a0) {
                true
            } else {
                k != j || x < s[j].addresses.len()
            };
            if within_s && (j < 0 || s[j].addresses.contains(a0) || k != j) {
                assert(idx[k] == s[k]);
                assert(s[k].addresses[x] == idx[k].addresses[x]);
                let p = choose|p: int|
                    0 <= p < pre.len() && pre[p].0 == s[k].addresses[x] && pre[p].1 == s[k].value;
                assert(pre[p] == pairs[p]);
                assert(0 <= p < pairs.len() && pairs[p].0 == idx[k].addresses[x] && pairs[p].1
                    == idx[k].value);
            } else if within_s {
                // the updated entry, an address it already had
                assert(k == j && x < s[j].addresses.len());
                assert(idx[j].addresses[x] == s[j].addresses[x]);
                assert(idx[j].value == v0 && s[j].value == v0);
                let p = choose|p: int|
                    0 <= p < pre.len() && pre[p].0 == s[j].addresses[x] && pre[p].1 == s[j].value;
                assert(pre[p] == pairs[p]);
                assert(0 <= p < pairs.len() && pairs[p].0 == idx[k].addresses[x] && pairs[p].1
                    == idx[k].value);
            } else {
                // the address added by the last pair
                assert(idx[k].addresses[x] == a0 && idx[k].value == v0);
                assert(pairs[pairs.len() - 1].0 == a0 && pairs[pairs.len() - 1].1 == v0);
            }
        }
    }
}

/// A value occurring exactly once in the scanned pairs never appears in a
/// report ranked with a threshold of two or more.
pub proof fn lemma_once_never_reported(pairs: Seq<(Seq<char>, Seq<char>)>, v: Seq<char>, t: nat)
    requires
        pair_count(pairs, v) == 1,
        t >= 2,
    ensures
        forall|k: int|
            0 <= k < ranked(index_spec(pairs), t).len() ==> ranked(index_spec(pairs), t)[k].value
                != v,
{
    let s = index_spec(pairs);
    lemma_index_spec_wf(pairs);
    lemma_index_provenance(pairs);
    lemma_ranked_from_props(s, max_count(s), t);
    let r = ranked(s, t);
    assert forall|k: int| 0 <= k < r.len() implies r[k].value != v by {
        if r[k].value == v {
            let m = choose|m: int| 0 <= m < s.len() && r[k] == s[m];
            assert(s[m].value == v);
            assert(s[m].addresses.len() >= t >= 2);
            let b0 = s[m].addresses[0];
            let b1 = s[m].addresses[1];
            assert(b0 != b1);
            let p0 = choose|p: int|
                0 <= p < pairs.len() && pairs[p].0 == s[m].addresses[0] && pairs[p].1
                    == s[m].value;
            let p1 = choose|p: int|
                0 <= p < pairs.len() && pairs[p].0 == s[m].addresses[1] && pairs[p].1
                    == s[m].value;
            assert(p0 != p1);
            if p0 < p1 {
                lemma_pair_count_two(pairs, v, p0, p1);
            } else {
                lemma_pair_count_two(pairs, v, p1, p0);
            }
        }
    }
}

/// Every index built from a pair sequence is well-formed.
pub proof fn lemma_index_spec_wf(pairs: Seq<(Seq<char>, Seq<char>)>)
    ensures
        wf_index(index_spec(pairs)),
    decreases pairs.len(),
{
    if pairs.len() > 0 {
        lemma_index_spec_wf(pairs.drop_last());
        lemma_insert_pair_wf(index_spec(pairs.drop_last()), pairs.last().0, pairs.last().1);
    }
}

proof fn lemma_with_count_props(s: Seq<EntryV>, d: nat)
    ensures
        forall|k: int| #![trigger with_count(s, d)[k]]
            0 <= k < with_count(s, d).len() ==> with_count(s, d)[k].addresses.len() == d
                && exists|m: int| 0 <= m < s.len() && with_count(s, d)[k] == s[m],
    decreases s.len(),
{
    if s.len() > 0 {
        let pre = s.drop_last();
        lemma_with_count_props(pre, d);
        let w = with_count(s, d);
        let wp = with_count(pre, d);
        assert forall|k: int| #![trigger w[k]] 0 <= k < w.len() implies w[k].addresses.len() == d
            && exists|m: int| 0 <= m < s.len() && w[k] == s[m] by {
            if k < wp.len() {
                assert(w[k] == wp[k]);
                let m = choose|m: int| 0 <= m < pre.len() && wp[k] == pre[m];
                assert(pre[m] == s[m]);
                assert(0 <= m < s.len() && w[k] == s[m]);
            } else {
                assert(w[k] == s.last());
                assert(s.last() == s[s.len() - 1]);
                assert(0 <= s.len() - 1 < s.len() && w[k] == s[s.len() - 1]);
            }
        }
    }
}

proof fn lemma_with_count_pairs(s: Seq<EntryV>, d: nat)
    ensures
        forall|k1: int, k2: int| #![trigger with_count(s, d)[k1], with_count(s, d)[k2]]
            0 <= k1 < k2 < with_count(s, d).len() ==> exists|m1: int, m2: int|
                0 <= m1 < m2 < s.len() && with_count(s, d)[k1] == s[m1] && with_count(s, d)[k2]
                    == s[m2],
    decreases s.len(),
{
    if s.len() > 0 {
        let pre = s.drop_last();
        lemma_with_count_pairs(pre, d);
        lemma_with_count_props(pre, d);
        let w = with_count(s, d);
        let wp = with_count(pre, d);
        assert forall|k1: int, k2: int| #![trigger w[k1], w[k2]]
            0 <= k1 < k2 < w.len() implies exists|m1: int, m2: int|
            0 <= m1 < m2 < s.len() && w[k1] == s[m1] && w[k2] == s[m2] by {
            if k2 < wp.len() {
                assert(w[k1] == wp[k1] && w[k2] == wp[k2]);
                let (m1, m2) = choose|m1: int, m2: int|
                    0 <= m1 < m2 < pre.len() && wp[k1] == pre[m1] && wp[k2] == pre[m2];
                assert(pre[m1] == s[m1] && pre[m2] == s[m2]);
                assert(0 <= m1 < m2 < s.len() && w[k1] == s[m1] && w[k2] == s[m2]);
            } else {
                assert(w[k1] == wp[k1]);
                assert(w[k2] == s.last());
                let m1 = choose|m1: int| 0 <= m1 < pre.len() && wp[k1] == pre[m1];
                assert(pre[m1] == s[m1]);
                let m2 = s.len() - 1;
                assert(0 <= m1 < m2 < s.len() && w[k1] == s[m1] && w[k2] == s[m2]);
            }
        }
    }
}

proof fn lemma_ranked_from_props(s: Seq<EntryV>, d: nat, t: nat)
    ensures
        forall|k: int| #![trigger ranked_from(s, d, t)[k]]
            0 <= k < ranked_from(s, d, t).len() ==> {
                &&& t <= ranked_from(s, d, t)[k].addresses.len() <= d
                &&& ranked_from(s, d, t)[k].addresses.len() >= 1
                &&& exists|m: int| 0 <= m < s.len() && ranked_from(s, d, t)[k] == s[m]
            },
    decreases d,
{
    if !(d == 0 || d < t) {
        lemma_with_count_props(s, d);
        lemma_ranked_from_props(s, (d - 1) as nat, t);
        let r = ranked_from(s, d, t);
        let w = with_count(s, d);
        let rest = ranked_from(s, (d - 1) as nat, t);
        assert forall|k: int| #![trigger r[k]] 0 <= k < r.len() implies {
            &&& t <= r[k].addresses.len() <= d
            &&& r[k].addresses.len() >= 1
            &&& exists|m: int| 0 <= m < s.len() && r[k] == s[m]
        } by {
            if k < w.len() {
                assert(r[k] == w[k]);
            } else {
                assert(r[k] == rest[k - w.len()]);
            }
        }
    }
}

/// Between two values with unequal address counts, the one with the greater
/// count stands no later in the ranked report: the report is sorted by
/// non-increasing address count.
pub proof fn lemma_ranked_sorted(s: Seq<EntryV>, t: nat)
    ensures
        forall|i: int, j: int|
            0 <= i <= j < ranked(s, t).len() ==> ranked(s, t)[i].addresses.len() >= ranked(
                s,
                t,
            )[j].addresses.len(),
{
    lemma_ranked_from_sorted(s, max_count(s), t);
}

proof fn lemma_ranked_from_sorted(s: Seq<EntryV>, d: nat, t: nat)
    ensures
        forall|i: int, j: int|
            0 <= i <= j < ranked_from(s, d, t).len() ==> ranked_from(s, d, t)[i].addresses.len()
                >= ranked_from(s, d, t)[j].addresses.len(),
    decreases d,
{
    if !(d == 0 || d < t) {
        lemma_with_count_props(s, d);
        lemma_ranked_from_props(s, (d - 1) as nat, t);
        lemma_ranked_from_sorted(s, (d - 1) as nat, t);
        let r = ranked_from(s, d, t);
        let w = with_count(s, d);
        let rest = ranked_from(s, (d - 1) as nat, t);
        assert forall|i: int, j: int| 0 <= i <= j < r.len() implies r[i].addresses.len()
            >= r[j].addresses.len() by {
            if i < w.len() {
                assert(r[i] == w[i]);
            } else {
                assert(r[i] == rest[i - w.len()]);
            }
            if j < w.len() {
                assert(r[j] == w[j]);
            } else {
                assert(r[j] == rest[j - w.len()]);
            }
        }
    }
}

proof fn lemma_ranked_from_unique(s: Seq<EntryV>, d: nat, t: nat)
    requires
        wf_index(s),
    ensures
        forall|k1: int, k2: int| #![trigger ranked_from(s, d, t)[k1], ranked_from(s, d, t)[k2]]
            0 <= k1 < k2 < ranked_from(s, d, t).len() ==> ranked_from(s, d, t)[k1].value
                != ranked_from(s, d, t)[k2].value,
    decreases d,
{
    if !(d == 0 || d < t) {
        lemma_with_count_props(s, d);
        lemma_with_count_pairs(s, d);
        lemma_ranked_from_props(s, (d - 1) as nat, t);
        lemma_ranked_from_unique(s, (d - 1) as nat, t);
        let r = ranked_from(s, d, t);
        let w = with_count(s, d);
        let rest = ranked_from(s, (d - 1) as nat, t);
        assert forall|k1: int, k2: int| #![trigger r[k1], r[k2]]
            0 <= k1 < k2 < r.len() implies r[k1].value != r[k2].value by {
            if k2 < w.len() {
                assert(r[k1] == w[k1] && r[k2] == w[k2]);
                let (m1, m2) = choose|m1: int, m2: int|
                    0 <= m1 < m2 < s.len() && w[k1] == s[m1] && w[k2] == s[m2];
                assert(s[m1].value != s[m2].value);
            } else if k1 < w.len() {
                assert(r[k1] == w[k1] && r[k2] == rest[k2 - w.len()]);
                if r[k1].value == r[k2].value {
                    let m1 = choose|m1: int| 0 <= m1 < s.len() && w[k1] == s[m1];
                    let m2 = choose|m2: int| 0 <= m2 < s.len() && rest[k2 - w.len()] == s[m2];
                    if m1 < m2 {
                        assert(s[m1].value != s[m2].value);
                    } else if m2 < m1 {
                        assert(s[m2].value != s[m1].value);
                    } else {
                        assert(s[m1].addresses.len() == d);
                        assert(s[m2].addresses.len() <= d - 1);
                    }
                }
            } else {
                assert(r[k1] == rest[k1 - w.len()] && r[k2] == rest[k2 - w.len()]);
            }
        }
    }
}

/// No value appears twice in a ranked report of a well-formed index: the
/// report's value keys stay unique.
pub proof fn lemma_ranked_keys_unique(s: Seq<EntryV>, t: nat)
    requires
        wf_index(s),
    ensures
        forall|k1: int, k2: int| #![trigger ranked(s, t)[k1], ranked(s, t)[k2]]
            0 <= k1 < k2 < ranked(s, t).len() ==> ranked(s, t)[k1].value != ranked(s, t)[k2].value,
{
    lemma_ranked_from_unique(s, max_count(s), t);
}

proof fn lemma_keep_ge_concat(a: Seq<EntryV>, b: Seq<EntryV>, t: nat)
    ensures
        keep_ge(a + b, t) == keep_ge(a, t) + keep_ge(b, t),
    decreases b.len(),
{
    if b.len() == 0 {
        assert(a + b =~= a);
        assert(keep_ge(b, t) =~= Seq::<EntryV>::empty());
        assert(keep_ge(a, t) + keep_ge(b, t) =~= keep_ge(a, t));
    } else {
        lemma_keep_ge_concat(a, b.drop_last(), t);
        assert((a + b).drop_last() =~= a + b.drop_last());
        assert((a + b).last() == b.last());
        assert(keep_ge(a + b, t) == keep_ge(a + b.drop_last(), t) + if b.last().addresses.len()
            >= t {
            seq![b.last()]
        } else {
            Seq::<EntryV>::empty()
        });
        assert(keep_ge(a + b, t) =~= keep_ge(a, t) + keep_ge(b, t));
    }
}

proof fn lemma_keep_ge_with_count(s: Seq<EntryV>, d: nat, t: nat)
    ensures
        d >= t ==> keep_ge(with_count(s, d), t) == with_count(s, d),
        d < t ==> keep_ge(with_count(s, d), t) == Seq::<EntryV>::empty(),
    decreases s.len(),
{
    if s.len() == 0 {
        assert(keep_ge(with_count(s, d), t) =~= Seq::<EntryV>::empty());
    } else {
        let pre = s.drop_last();
        lemma_keep_ge_with_count(pre, d, t);
        let tail: Seq<EntryV> = if s.last().addresses.len() == d {
            seq![s.last()]
        } else {
            Seq::empty()
        };
        lemma_keep_ge_concat(with_count(pre, d), tail, t);
        if s.last().addresses.len() == d {
            assert(tail.drop_last() =~= Seq::<EntryV>::empty());
            assert(keep_ge(Seq::<EntryV>::empty(), t) == Seq::<EntryV>::empty());
            assert(tail.last() == s.last());
            assert(keep_ge(tail, t) == keep_ge(tail.drop_last(), t) + if tail.last().addresses.len()
                >= t {
                seq![tail.last()]
            } else {
                Seq::<EntryV>::empty()
            });
        }
        if d >= t {
            assert(keep_ge(tail, t) =~= tail);
            assert(keep_ge(with_count(s, d), t) =~= with_count(s, d));
        } else {
            assert(keep_ge(tail, t) =~= Seq::<EntryV>::empty());
            assert(keep_ge(with_count(s, d), t) =~= Seq::<EntryV>::empty());
        }
    }
}

proof fn lemma_ranked_from_threshold(s: Seq<EntryV>, d: nat, t1: nat, t2: nat)
    requires
        t1 <= t2,
    ensures
        ranked_from(s, d, t2) == keep_ge(ranked_from(s, d, t1), t2),
    decreases d,
{
    if d == 0 || d < t1 {
        assert(ranked_from(s, d, t1) == Seq::<EntryV>::empty());
        assert(ranked_from(s, d, t2) == Seq::<EntryV>::empty());
        assert(keep_ge(ranked_from(s, d, t1), t2) == Seq::<EntryV>::empty());
    } else {
        lemma_ranked_from_threshold(s, (d - 1) as nat, t1, t2);
        lemma_keep_ge_concat(with_count(s, d), ranked_from(s, (d - 1) as nat, t1), t2);
        lemma_keep_ge_with_count(s, d, t2);
        if d < t2 {
            assert(ranked_from(s, d, t2) == Seq::<EntryV>::empty());
            assert(keep_ge(ranked_from(s, d, t1), t2) =~= Seq::<EntryV>::empty());
        } else {
            assert(keep_ge(ranked_from(s, d, t1), t2) =~= ranked_from(s, d, t2));
        }
    }
}

/// Raising the threshold only filters the report: the report at the higher
/// threshold is exactly the lower-threshold report with the entries below
/// the higher threshold removed, so its value keys are a subset and the
/// shared entries keep their relative order.
pub proof fn lemma_ranked_threshold(s: Seq<EntryV>, t1: nat, t2: nat)
    requires
        t1 <= t2,
    ensures
        ranked(s, t2) == keep_ge(ranked(s, t1), t2),
{
    lemma_ranked_from_threshold(s, max_count(s), t1, t2);
}


/// Element-for-element copy of a vector of strings.
fn clone_strings(v: &Vec<String>) -> (r: Vec<String>)
    ensures
        r@ == v@,
{
    let mut r: Vec<String> = Vec::new();
    let mut i: usize = 0;
    while i < v.len()
        invariant
            i <= v.len(),
            r@ == v@.take(i as int),
        decreases v.len() - i,
    {
        r.push(v[i].clone());
        proof {
            assert(r@ =~= v@.take(i + 1));
        }
        i += 1;
    }
    proof {
        assert(v@.take(v.len() as int) =~= v@);
    }
    r
}

/// Whether `s` already stands among `v`.
fn contains_string(v: &Vec<String>, s: &String) -> (r: bool)
    ensures
        r == v.deep_view().contains(s@),
{
    let mut found = false;
    let mut i: usize = 0;
    while i < v.len()
        invariant
            i <= v.len(),
            found ==> v.deep_view().contains(s@),
            !found ==> forall|k: int| 0 <= k < i ==> v.deep_view()[k] != s@,
        decreases v.len() - i,
    {
        if !found {
            if v[i] == *s {
                found = true;
                proof {
                    assert(v.deep_view()[i as int] == s@);
                }
            }
        }
        i += 1;
    }
    found
}

impl ReportEntry {
    /// A copy equal to `self` in value and addresses.
    pub fn duplicate(&self) -> (r: ReportEntry)
        ensures
            r@ == self@,
    {
        let r = ReportEntry { value: self.value.clone(), addresses: clone_strings(&self.addresses) };
        proof {
            assert(r@.addresses =~= self@.addresses);
            assert(r@ =~= self@);
        }
        r
    }
}

/// Finds the entry holding `value`: whether one exists, and its index.
fn find_value(entries: &Vec<ReportEntry>, value: &String) -> (r: (bool, usize))
    ensures
        r.0 <==> value_index(entries.deep_view(), value@) >= 0,
        r.0 ==> r.1 as int == value_index(entries.deep_view(), value@),
{
    let ghost dv = entries.deep_view();
    let mut found = false;
    let mut idx: usize = 0;
    let mut i: usize = 0;
    while i < entries.len()
        invariant
            i <= entries.len(),
            dv == entries.deep_view(),
            found <==> value_index(dv.take(i as int), value@) >= 0,
            !found ==> value_index(dv.take(i as int), value@) == -1,
            found ==> idx as int == value_index(dv.take(i as int), value@),
        decreases entries.len() - i,
    {
        proof {
            assert(dv.take(i + 1).drop_last() =~= dv.take(i as int));
            assert(dv.take(i + 1).last() == dv[i as int]);
        }
        let m = entries[i].value == *value;
        proof {
            assert(m == (dv[i as int].value == value@));
        }
        if m && !found {
            found = true;
            idx = i;
        }
        i += 1;
    }
    proof {
        assert(dv.take(entries.len() as int) =~= dv);
    }
    (found, idx)
}

impl RepetitionIndex {
    /// An empty index.
    pub fn new() -> (r: RepetitionIndex)
        ensures
            r@ == Seq::<EntryV>::empty(),
    {
        let r = RepetitionIndex { entries: Vec::new() };
        proof {
            assert(r@ =~= Seq::<EntryV>::empty());
        }
        r
    }

    /// Records one (address, value) occurrence.
    pub fn insert(&mut self, addr: String, value: String)
        ensures
            final(self)@ == insert_pair(old(self)@, addr@, value@),
    {
        let ghost s0 = self@;
        let ghost a0 = addr@;
        let ghost v0 = value@;
        let (found, j) = find_value(&self.entries, &value);
        if !found {
            let mut addrs: Vec<String> = Vec::new();
            addrs.push(addr);
            self.entries.push(ReportEntry { value, addresses: addrs });
            proof {
                assert(addrs.deep_view() =~= seq![a0]);
                assert(self@ =~= s0.push(EntryV { value: v0, addresses: seq![a0] }));
            }
        } else {
            proof {
                lemma_value_index_props(s0, v0);
            }
            if contains_string(&self.entries[j].addresses, &addr) {
                proof {
                    assert(self@ == insert_pair(s0, a0, v0));
                }
            } else {
                let ent_value = self.entries[j].value.clone();
                let mut new_addrs = clone_strings(&self.entries[j].addresses);
                new_addrs.push(addr);
                self.entries[j] = ReportEntry { value: ent_value, addresses: new_addrs };
                proof {
                    assert(new_addrs.deep_view() =~= s0[j as int].addresses.push(a0));
                    assert(self@ =~= s0.update(
                        j as int,
                        EntryV { value: v0, addresses: s0[j as int].addresses.push(a0) },
                    ));
                }
            }
        }
    }

    /// The ranked report: entries re-ordered by descending address count,
    /// ties in first-occurrence order, pruned below the threshold.
    pub fn rank(self, min_repetitions: usize) -> (r: RepetitionIndex)
        ensures
            r@ == ranked(self@, min_repetitions as nat),
    {
        let ghost dv = self@;
        let ghost t = min_repetitions as nat;
        let mut m: usize = 0;
        let mut i: usize = 0;
        while i < self.entries.len()
            invariant
                i <= self.entries.len(),
                dv == self@,
                m as nat == max_count(dv.take(i as int)),
            decreases self.entries.len() - i,
        {
            proof {
                assert(dv.take(i + 1).drop_last() =~= dv.take(i as int));
                assert(dv.take(i + 1).last() == dv[i as int]);
                assert(dv[i as int].addresses.len() == self.entries[i as int].addresses@.len());
            }
            let c = self.entries[i].addresses.len();
            if c > m {
                m = c;
            }
            i += 1;
        }
        proof {
            assert(dv.take(self.entries.len() as int) =~= dv);
        }
        let mut out: Vec<ReportEntry> = Vec::new();
        let ghost dmax = m as nat;
        let mut d: usize = m;
        while d > 0 && d >= min_repetitions
            invariant
                dv == self@,
                t == min_repetitions as nat,
                d <= m,
                dmax == m as nat,
                ranked_from(dv, dmax, t) == out.deep_view() + ranked_from(dv, d as nat, t),
            decreases d,
        {
            let ghost prev = out.deep_view();
            let mut j: usize = 0;
            while j < self.entries.len()
                invariant
                    j <= self.entries.len(),
                    dv == self@,
                    out.deep_view() == prev + with_count(dv.take(j as int), d as nat),
                decreases self.entries.len() - j,
            {
                proof {
                    assert(dv.take(j + 1).drop_last() =~= dv.take(j as int));
                    assert(dv.take(j + 1).last() == dv[j as int]);
                    assert(dv[j as int].addresses.len() == self.entries[j as int].addresses@.len());
                }
                if self.entries[j].addresses.len() == d {
                    let e = self.entries[j].duplicate();
                    proof {
                        assert(e@ == dv[j as int]);
                        assert(with_count(dv.take(j + 1), d as nat) == with_count(
                            dv.take(j as int),
                            d as nat,
                        ) + seq![dv[j as int]]);
                    }
                    let ghost before = out.deep_view();
                    out.push(e);
                    proof {
                        assert(out.deep_view() =~= before.push(dv[j as int]));
                        assert(before.push(dv[j as int]) =~= prev + with_count(
                            dv.take(j + 1),
                            d as nat,
                        ));
                        assert(out.deep_view() == prev + with_count(dv.take(j + 1), d as nat));
                    }
                } else {
                    proof {
                        assert(with_count(dv.take(j + 1), d as nat) =~= with_count(
                            dv.take(j as int),
                            d as nat,
                        ));
                    }
                }
                j += 1;
            }
            proof {
                assert(dv.take(self.entries.len() as int) =~= dv);
                assert(ranked_from(dv, d as nat, t) == with_count(dv, d as nat) + ranked_from(
                    dv,
                    (d - 1) as nat,
                    t,
                ));
                assert(prev + with_count(dv, d as nat) + ranked_from(dv, (d - 1) as nat, t) =~= prev
                    + (with_count(dv, d as nat) + ranked_from(dv, (d - 1) as nat, t)));
            }
            d -= 1;
        }
        proof {
            assert(ranked_from(dv, d as nat, t) =~= Seq::<EntryV>::empty());
            assert(out.deep_view() + Seq::<EntryV>::empty() =~= out.deep_view());
        }
        RepetitionIndex { entries: out }
    }
}

} // verus!
