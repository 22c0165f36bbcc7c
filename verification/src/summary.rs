//! Parsing and aggregation of the incoming per-user summary.
//!
//! The summary is tab-separated; each useful row carries a composite
//! name ending in `..._GRC_<cpid>` and a cumulative credit.  Rows that
//! fail the shape filters are skipped; a row that passes them but
//! carries an unparseable credit is fatal.  Credits of rows that share
//! an identifier are summed before any record is updated.

use crate::chars::sanitize;
use crate::chars::sanitized;
use crate::chars::split_chars;
use crate::chars::split_seq;
use crate::chars::str_eq_chars;
use crate::chars::string_of_hex_chars;
use crate::fixed::parse_fixed;
use crate::fixed::parse_fixed_spec;
use crate::hex::is_md5_hex_chars;
use crate::hex::is_md5_hex_seq;
use crate::table::views_of;
use vstd::prelude::*;

verus! {

/// The shape filters of one summary row: four tab-separated fields, a
/// sanitised name that is not the header, at least three
/// underscore-separated name parts, the tag `GRC` before a well-formed
/// identifier.  The result is the identifier and the raw credit field.
pub open spec fn row_shape(l: Seq<char>) -> Option<(Seq<char>, Seq<char>)> {
    let parts = split_seq(l, '\t');
    let full_name = sanitized(parts[0]);
    if parts.len() != 4 || full_name == "name"@ {
        None
    } else {
        let name_parts = split_seq(full_name, '_');
        if name_parts.len() < 3 {
            None
        } else {
            let cpid = name_parts.last();
            let tag = name_parts[name_parts.len() - 2];
            if tag == "GRC"@ && is_md5_hex_seq(cpid) {
                Some((cpid, parts[1]))
            } else {
                None
            }
        }
    }
}

/// A row the aggregator accepts: skipped, or with a parseable credit.
pub open spec fn row_ok(l: Seq<char>) -> bool {
    match row_shape(l) {
        Some((_, f)) => parse_fixed_spec(f) is Some,
        None => true,
    }
}

/// The credit a row contributes, if any.
pub open spec fn row_credit(l: Seq<char>) -> Option<(Seq<char>, u64)> {
    match row_shape(l) {
        Some((k, f)) => match parse_fixed_spec(f) {
            Some(v) => Some((k, v)),
            None => None,
        },
        None => None,
    }
}

/// Saturating addition of credits.
pub open spec fn sat_add(a: u64, b: u64) -> u64 {
    if a + b > u64::MAX {
        u64::MAX
    } else {
        (a + b) as u64
    }
}

pub open spec fn get_or_zero(m: Map<Seq<char>, u64>, k: Seq<char>) -> u64 {
    if m.dom().contains(k) {
        m[k]
    } else {
        0
    }
}

/// The per-identifier credit sums of a sequence of summary rows.
pub open spec fn deltas_map(lines: Seq<Seq<char>>) -> Map<Seq<char>, u64>
    decreases lines.len(),
{
    if lines.len() == 0 {
        Map::<Seq<char>, u64>::empty()
    } else {
        let m = deltas_map(lines.drop_last());
        match row_credit(lines.last()) {
            Some((k, v)) => m.insert(k, sat_add(get_or_zero(m, k), v)),
            None => m,
        }
    }
}

pub open spec fn rows_ok(lines: Seq<Seq<char>>) -> bool {
    forall|i: int| 0 <= i < lines.len() ==> row_ok(#[trigger] lines[i])
}

/// The error of the summary reader: the index of the first row whose
/// shape passed the filters but whose credit did not parse.
#[derive(Clone, Copy, PartialEq, Eq, Structural, Debug)]
pub struct SummaryError {
    pub line: usize,
}

/// One accumulated credit sum.
pub type DeltaEntry = (String, u64);

/// Entries have pairwise-distinct, well-formed identifiers.
pub open spec fn unique_delta_keys(s: Seq<DeltaEntry>) -> bool {
    forall|i: int, j: int| 0 <= i < j < s.len() ==> s[i].0@ != s[j].0@
}

pub open spec fn all_delta_keys_hex(s: Seq<DeltaEntry>) -> bool {
    forall|i: int| 0 <= i < s.len() ==> is_md5_hex_seq((#[trigger] s[i]).0@)
}

/// The map a vector of delta entries stands for.
pub open spec fn delta_map_of(s: Seq<DeltaEntry>) -> Map<Seq<char>, u64>
    decreases s.len(),
{
    if s.len() == 0 {
        Map::<Seq<char>, u64>::empty()
    } else {
        delta_map_of(s.drop_last()).insert(s.last().0@, s.last().1)
    }
}

pub open spec fn has_delta_key(s: Seq<DeltaEntry>, k: Seq<char>) -> bool {
    exists|i: int| 0 <= i < s.len() && s[i].0@ == k
}

pub proof fn lemma_delta_map_dom(s: Seq<DeltaEntry>)
    ensures
        forall|k: Seq<char>| #[trigger] delta_map_of(s).dom().contains(k) <==> has_delta_key(s, k),
    decreases s.len(),
{
    if s.len() == 0 {
    } else {
        lemma_delta_map_dom(s.drop_last());
        assert forall|k: Seq<char>| #[trigger]
            delta_map_of(s).dom().contains(k) <==> has_delta_key(s, k) by {
            if delta_map_of(s).dom().contains(k) {
                if k == s.last().0@ {
                    assert(has_delta_key(s, k)) by {
                        assert(0 <= s.len() - 1 < s.len() && s[s.len() - 1].0@ == k);
                    }
                } else {
                    assert(delta_map_of(s.drop_last()).dom().contains(k));
                    assert(has_delta_key(s.drop_last(), k));
                    let i = choose|i: int|
                        0 <= i < s.drop_last().len() && s.drop_last()[i].0@ == k;
                    assert(has_delta_key(s, k)) by {
                        assert(0 <= i < s.len() && s[i].0@ == k);
                    }
                }
            }
            if has_delta_key(s, k) {
                let i = choose|i: int| 0 <= i < s.len() && s[i].0@ == k;
                if i == s.len() - 1 {
                    assert(delta_map_of(s).dom().contains(k));
                } else {
                    assert(has_delta_key(s.drop_last(), k)) by {
                        assert(0 <= i < s.drop_last().len() && s.drop_last()[i].0@ == k);
                    }
                    assert(delta_map_of(s.drop_last()).dom().contains(k));
                    assert(delta_map_of(s).dom().contains(k));
                }
            }
        }
    }
}

pub proof fn lemma_delta_map_index(s: Seq<DeltaEntry>, i: int)
    requires
        unique_delta_keys(s),
        0 <= i < s.len(),
    ensures
        delta_map_of(s).dom().contains(s[i].0@),
        delta_map_of(s)[s[i].0@] == s[i].1,
    decreases s.len(),
{
    if i == s.len() - 1 {
    } else {
        assert(unique_delta_keys(s.drop_last()));
        lemma_delta_map_index(s.drop_last(), i);
        assert(s[i].0@ != s.last().0@);
    }
}

/// Replacing the entry that holds a key updates the map at that key.
proof fn lemma_delta_map_update(s: Seq<DeltaEntry>, i: int, e: DeltaEntry)
    requires
        unique_delta_keys(s),
        0 <= i < s.len(),
        s[i].0@ == e.0@,
    ensures
        delta_map_of(s.update(i, e)) == delta_map_of(s).insert(e.0@, e.1),
    decreases s.len(),
{
    if i == s.len() - 1 {
        assert(s.update(i, e).drop_last() =~= s.drop_last());
        assert(s.update(i, e).last() == e);
        assert(delta_map_of(s).insert(e.0@, e.1) =~= delta_map_of(s.drop_last()).insert(
            e.0@,
            e.1,
        ));
    } else {
        assert(unique_delta_keys(s.drop_last()));
        assert(s.update(i, e).drop_last() =~= s.drop_last().update(i, e));
        assert(s.update(i, e).last() == s.last());
        lemma_delta_map_update(s.drop_last(), i, e);
        assert(e.0@ != s.last().0@);
        assert(delta_map_of(s.drop_last()).insert(e.0@, e.1).insert(s.last().0@, s.last().1)
            =~= delta_map_of(s.drop_last()).insert(s.last().0@, s.last().1).insert(e.0@, e.1));
    }
}

/// The per-identifier credit sums, as an insertable collection.
pub struct DeltaTable {
    pub entries: Vec<DeltaEntry>,
}

impl View for DeltaTable {
    type V = Map<Seq<char>, u64>;

    open spec fn view(&self) -> Map<Seq<char>, u64> {
        delta_map_of(self.entries@)
    }
}

impl DeltaTable {
    pub open spec fn wf(&self) -> bool {
        unique_delta_keys(self.entries@) && all_delta_keys_hex(self.entries@)
    }

    pub fn new() -> (d: DeltaTable)
        ensures
            d.wf(),
            d@ == Map::<Seq<char>, u64>::empty(),
            d.entries@.len() == 0,
    {
        DeltaTable { entries: Vec::new() }
    }

    /// The number of distinct identifiers accumulated.
    pub fn len(&self) -> (n: usize)
        ensures
            n == self.entries@.len(),
    {
        self.entries.len()
    }

    fn find(&self, key: &String) -> (r: Option<usize>)
        ensures
            match r {
                Some(i) => i < self.entries@.len() && self.entries@[i as int].0@ == key@,
                None => forall|j: int|
                    0 <= j < self.entries@.len() ==> (#[trigger] self.entries@[j]).0@ != key@,
            },
    {
        let mut i: usize = 0;
        while i < self.entries.len()
            invariant
                0 <= i <= self.entries@.len(),
                forall|j: int| 0 <= j < i ==> (#[trigger] self.entries@[j]).0@ != key@,
            decreases self.entries@.len() - i,
        {
            if self.entries[i].0 == *key {
                return Some(i);
            }
            i = i + 1;
        }
        None
    }

    /// Accumulates one credit into the sum for its identifier.
    pub fn accumulate(&mut self, cpid: &Vec<char>, score: u64)
        requires
            old(self).wf(),
            is_md5_hex_seq(cpid@),
        ensures
            final(self).wf(),
            final(self)@ == old(self)@.insert(
                cpid@,
                sat_add(get_or_zero(old(self)@, cpid@), score),
            ),
    {
        proof {
            lemma_delta_map_dom(self.entries@);
        }
        let key = string_of_hex_chars(cpid);
        let found = self.find(&key);
        match found {
            Some(i) => {
                let ghost pre = self.entries@;
                proof {
                    lemma_delta_map_index(pre, i as int);
                }
                let entry = self.entries.remove(i);
                let total = match entry.1.checked_add(score) {
                    Some(v) => v,
                    None => u64::MAX,
                };
                let e: DeltaEntry = (entry.0, total);
                self.entries.insert(i, e);
                proof {
                    assert(self.entries@ =~= pre.update(i as int, e));
                    lemma_delta_map_update(pre, i as int, e);
                    assert(unique_delta_keys(self.entries@)) by {
                        assert(forall|a: int|
                            0 <= a < self.entries@.len() && a != i ==> self.entries@[a] == pre[a]);
                        assert(self.entries@[i as int].0@ == pre[i as int].0@);
                    }
                    assert(all_delta_keys_hex(self.entries@));
                }
            },
            None => {
                let ghost pre = self.entries@;
                let e: DeltaEntry = (key, score);
                self.entries.push(e);
                proof {
                    assert(self.entries@.drop_last() =~= pre);
                    assert(self.entries@.last() == e);
                    assert(get_or_zero(old(self)@, cpid@) == 0);
                    assert(unique_delta_keys(self.entries@));
                    assert(all_delta_keys_hex(self.entries@));
                }
            },
        }
    }
}

/// Builds the per-identifier credit sums from the summary's lines.  A
/// row that passes the shape filters but carries an unparseable credit
/// is fatal: the error names the first one.
pub fn parse_summary(lines: &Vec<Vec<char>>) -> (r: Result<DeltaTable, SummaryError>)
    ensures
        match r {
            Ok(d) => {
                &&& d.wf()
                &&& rows_ok(views_of(lines@))
                &&& d@ == deltas_map(views_of(lines@))
            },
            Err(e) => {
                &&& e.line < lines@.len()
                &&& !row_ok(views_of(lines@)[e.line as int])
                &&& forall|j: int| 0 <= j < e.line ==> row_ok(#[trigger] views_of(lines@)[j])
            },
        },
{
    let ghost ls = views_of(lines@);
    let mut d = DeltaTable::new();
    let mut i: usize = 0;
    proof {
        assert(ls.take(0) =~= Seq::<Seq<char>>::empty());
    }
    while i < lines.len()
        invariant
            0 <= i <= lines@.len(),
            ls == views_of(lines@),
            d.wf(),
            d@ == deltas_map(ls.take(i as int)),
            forall|j: int| 0 <= j < i ==> row_ok(#[trigger] ls[j]),
        decreases lines@.len() - i,
    {
        let line = &lines[i];
        proof {
            assert(ls[i as int] == line@);
            assert(ls.take(i as int + 1).drop_last() =~= ls.take(i as int));
            assert(ls.take(i as int + 1).last() == ls[i as int]);
        }
        let parts = split_chars(line, '\t');
        proof {
            crate::chars::lemma_split_seq_len(line@, '\t');
            assert(parts@.map_values(|p: Vec<char>| p@)[0] == parts@[0]@);
        }
        let full_name = sanitize(&parts[0]);
        if parts.len() != 4 || str_eq_chars(&full_name, "name") {
            i = i + 1;
            continue ;
        }
        proof {
            assert(parts@.map_values(|p: Vec<char>| p@)[1] == parts@[1]@);
        }
        let name_parts = split_chars(&full_name, '_');
        proof {
            crate::chars::lemma_split_seq_len(full_name@, '_');
        }
        if name_parts.len() < 3 {
            i = i + 1;
            continue ;
        }
        proof {
            assert(parts@.map_values(|p: Vec<char>| p@).len() == split_seq(line@, '\t').len());
            assert(name_parts@.map_values(|p: Vec<char>| p@)[name_parts@.len() - 1]
                == name_parts@[name_parts@.len() - 1]@);
            assert(name_parts@.map_values(|p: Vec<char>| p@)[name_parts@.len() - 2]
                == name_parts@[name_parts@.len() - 2]@);
        }
        let cpid = &name_parts[name_parts.len() - 1];
        let tag = &name_parts[name_parts.len() - 2];
        if !str_eq_chars(tag, "GRC") {
            i = i + 1;
            continue ;
        }
        if !is_md5_hex_chars(cpid) {
            i = i + 1;
            continue ;
        }
        let score = match parse_fixed(&parts[1]) {
            Some(v) => v,
            None => {
                return Err(SummaryError { line: i });
            },
        };
        d.accumulate(cpid, score);
        i = i + 1;
    }
    proof {
        assert(ls.take(ls.len() as int) =~= ls);
    }
    Ok(d)
}


/// A delta table with distinct identifiers has exactly one map entry
/// per accumulated sum.
pub proof fn lemma_delta_map_card(s: Seq<DeltaEntry>)
    requires
        unique_delta_keys(s),
    ensures
        delta_map_of(s).dom().finite(),
        delta_map_of(s).dom().len() == s.len(),
    decreases s.len(),
{
    broadcast use vstd::set::axiom_set_insert_len;

    if s.len() == 0 {
        assert(delta_map_of(s).dom() =~= Set::<Seq<char>>::empty());
    } else {
        assert(unique_delta_keys(s.drop_last()));
        lemma_delta_map_card(s.drop_last());
        lemma_delta_map_dom(s.drop_last());
        assert(!has_delta_key(s.drop_last(), s.last().0@)) by {
            if has_delta_key(s.drop_last(), s.last().0@) {
                let j = choose|j: int|
                    0 <= j < s.drop_last().len() && (#[trigger] s.drop_last()[j]).0@ == s.last().0@;
                assert(s[j].0@ == s[s.len() - 1].0@);
            }
        }
        assert(!delta_map_of(s.drop_last()).dom().contains(s.last().0@));
        assert(delta_map_of(s).dom() =~= delta_map_of(s.drop_last()).dom().insert(s.last().0@));
    }
}


/// Exchanging two neighbouring summary rows changes no accumulated sum.
/// In particular the order of rows sharing an identifier is immaterial:
/// their credits are summed, and saturating addition is commutative and
/// associative.  Any reordering of rows is a chain of such exchanges.
pub proof fn lemma_deltas_swap_adjacent(lines: Seq<Seq<char>>, i: int)
    requires
        0 <= i,
        i + 1 < lines.len(),
    ensures
        deltas_map(lines.update(i, lines[i + 1]).update(i + 1, lines[i])) == deltas_map(lines),
    decreases lines.len(),
{
    let sw = lines.update(i, lines[i + 1]).update(i + 1, lines[i]);
    if i + 1 < lines.len() - 1 {
        assert(sw.drop_last() =~= lines.drop_last().update(i, lines.drop_last()[i + 1]).update(
            i + 1,
            lines.drop_last()[i],
        ));
        assert(sw.last() == lines.last());
        lemma_deltas_swap_adjacent(lines.drop_last(), i);
    } else {
        let pre = lines.drop_last().drop_last();
        let a = lines[i];
        let b = lines[i + 1];
        assert(lines.drop_last() =~= pre.push(a));
        assert(sw.drop_last() =~= pre.push(b));
        assert(sw.last() == a);
        assert(lines.last() == b);
        assert(pre.push(a).drop_last() =~= pre);
        assert(pre.push(b).drop_last() =~= pre);
        assert(pre.push(a).last() == a);
        assert(pre.push(b).last() == b);
        let m = deltas_map(pre);
        match (row_credit(a), row_credit(b)) {
            (Some((ka, va)), Some((kb, vb))) => {
                if ka == kb {
                    let g = get_or_zero(m, ka);
                    let ma = m.insert(ka, sat_add(g, va));
                    let mb = m.insert(ka, sat_add(g, vb));
                    assert(deltas_map(pre.push(a)) == ma);
                    assert(deltas_map(pre.push(b)) == mb);
                    assert(get_or_zero(ma, ka) == sat_add(g, va));
                    assert(get_or_zero(mb, ka) == sat_add(g, vb));
                    assert(deltas_map(lines) == ma.insert(ka, sat_add(sat_add(g, va), vb)));
                    assert(deltas_map(sw) == mb.insert(ka, sat_add(sat_add(g, vb), va)));
                    assert(sat_add(sat_add(g, va), vb) == sat_add(sat_add(g, vb), va));
                    assert(deltas_map(sw) =~= deltas_map(lines));
                } else {
                    let ma = m.insert(ka, sat_add(get_or_zero(m, ka), va));
                    let mb = m.insert(kb, sat_add(get_or_zero(m, kb), vb));
                    assert(deltas_map(pre.push(a)) == ma);
                    assert(deltas_map(pre.push(b)) == mb);
                    assert(get_or_zero(ma, kb) == get_or_zero(m, kb));
                    assert(get_or_zero(mb, ka) == get_or_zero(m, ka));
                    assert(deltas_map(lines) == ma.insert(kb, sat_add(get_or_zero(m, kb), vb)));
                    assert(deltas_map(sw) == mb.insert(ka, sat_add(get_or_zero(m, ka), va)));
                    assert(deltas_map(sw) =~= deltas_map(lines));
                }
            },
            (Some((ka, va)), None) => {
                let ma = m.insert(ka, sat_add(get_or_zero(m, ka), va));
                assert(deltas_map(pre.push(a)) == ma);
                assert(deltas_map(pre.push(b)) == m);
                assert(deltas_map(lines) == ma);
                assert(deltas_map(sw) == ma);
            },
            (None, Some((kb, vb))) => {
                let mb = m.insert(kb, sat_add(get_or_zero(m, kb), vb));
                assert(deltas_map(pre.push(a)) == m);
                assert(deltas_map(pre.push(b)) == mb);
                assert(deltas_map(lines) == mb);
                assert(deltas_map(sw) == mb);
            },
            (None, None) => {
                assert(deltas_map(pre.push(a)) == m);
                assert(deltas_map(pre.push(b)) == m);
                assert(deltas_map(lines) == m);
                assert(deltas_map(sw) == m);
            },
        }
    }
}


/// Moving one row to the end changes no accumulated sum.
proof fn lemma_deltas_move_to_end(s: Seq<Seq<char>>, j: int)
    requires
        0 <= j < s.len(),
    ensures
        deltas_map(s.remove(j).push(s[j])) == deltas_map(s),
    decreases s.len() - j,
{
    if j == s.len() - 1 {
        assert(s.remove(j).push(s[j]) =~= s);
    } else {
        let sw = s.update(j, s[j + 1]).update(j + 1, s[j]);
        lemma_deltas_swap_adjacent(s, j);
        assert(sw.remove(j + 1) =~= s.remove(j));
        assert(sw[j + 1] == s[j]);
        lemma_deltas_move_to_end(sw, j + 1);
        assert(sw.remove(j + 1).push(sw[j + 1]) =~= s.remove(j).push(s[j]));
    }
}

/// The accumulated sums do not depend on the order of the summary's
/// rows at all: any two row sequences that hold the same rows, each the
/// same number of times, produce the same sums.
pub proof fn lemma_deltas_permutation(l1: Seq<Seq<char>>, l2: Seq<Seq<char>>)
    requires
        l1.to_multiset() == l2.to_multiset(),
    ensures
        deltas_map(l1) == deltas_map(l2),
    decreases l1.len(),
{
    broadcast use vstd::seq_lib::group_to_multiset_ensures;

    if l1.len() == 0 {
        assert(l2.to_multiset().len() == 0);
        assert(l1 =~= l2);
    } else {
        let x = l1.last();
        assert(l1.contains(x)) by {
            assert(l1[l1.len() - 1] == x);
        }
        assert(l2.to_multiset().count(x) > 0);
        assert(l2.contains(x));
        let j = choose|j: int| 0 <= j < l2.len() && l2[j] == x;
        lemma_deltas_move_to_end(l2, j);
        let l2m = l2.remove(j).push(x);
        assert(l1.drop_last().to_multiset() =~= l1.to_multiset().remove(x)) by {
            assert(l1.remove(l1.len() - 1) =~= l1.drop_last());
            assert(l1.remove(l1.len() - 1).to_multiset() =~= l1.to_multiset().remove(x));
        }
        assert(l2.remove(j).to_multiset() =~= l2.to_multiset().remove(x));
        lemma_deltas_permutation(l1.drop_last(), l2.remove(j));
        assert(l2m.drop_last() =~= l2.remove(j));
        assert(l2m.last() == x);
        let m = deltas_map(l1.drop_last());
        assert(deltas_map(l2m.drop_last()) == m);
        match row_credit(x) {
            Some((k, v)) => {
                assert(deltas_map(l1) == m.insert(k, sat_add(get_or_zero(m, k), v)));
                assert(deltas_map(l2m) == m.insert(k, sat_add(get_or_zero(m, k), v)));
            },
            None => {
                assert(deltas_map(l1) == m);
                assert(deltas_map(l2m) == m);
            },
        }
    }
}

} // verus!
