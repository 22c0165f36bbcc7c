//! The user table: a keyed collection of participant records, with the
//! checkpoint codec that loads and re-serializes it.
//!
//! The table is a vector of records with pairwise-distinct identifiers;
//! its view is the map from identifier to numeric fields.

use crate::chars::lines_spec;
use crate::chars::lemma_split_no_sep;
use crate::chars::lemma_split_prepend_no_sep;
use crate::chars::split_chars;
use crate::chars::split_seq;
use crate::chars::string_of_hex_chars;
use crate::chars::strip_cr;
use crate::fixed::fixed_str;
use crate::fixed::lemma_fixed_str_chars;
use crate::fixed::lemma_parse_fixed_str;
use crate::fixed::parse_fixed;
use crate::fixed::parse_fixed_spec;
use crate::hex::is_md5_hex_chars;
use crate::hex::is_md5_hex_seq;
use crate::user::csv_body;
use crate::user::csv_line;
use crate::user::xml_block;
use crate::user::User;
use crate::user::UserStats;
use vstd::prelude::*;
use vstd::string::StringExecFns;

verus! {

/// The views of a vector of character vectors.
pub open spec fn views_of(lines: Seq<Vec<char>>) -> Seq<Seq<char>> {
    lines.map_values(|l: Vec<char>| l@)
}

/// No two records share an identifier.
pub open spec fn unique_cpids(s: Seq<User>) -> bool {
    forall|i: int, j: int| 0 <= i < j < s.len() ==> s[i].cpid@ != s[j].cpid@
}

/// Every record is well formed.
pub open spec fn all_wf(s: Seq<User>) -> bool {
    forall|i: int| 0 <= i < s.len() ==> (#[trigger] s[i]).wf()
}

/// The map a record vector stands for: later records win.
pub open spec fn table_map(s: Seq<User>) -> Map<Seq<char>, UserStats>
    decreases s.len(),
{
    if s.len() == 0 {
        Map::<Seq<char>, UserStats>::empty()
    } else {
        table_map(s.drop_last()).insert(s.last().cpid@, s.last().stats())
    }
}

/// Some record carries this identifier.
pub open spec fn has_cpid(s: Seq<User>, k: Seq<char>) -> bool {
    exists|i: int| 0 <= i < s.len() && s[i].cpid@ == k
}

pub proof fn lemma_table_map_dom(s: Seq<User>)
    ensures
        forall|k: Seq<char>| #[trigger] table_map(s).dom().contains(k) <==> has_cpid(s, k),
    decreases s.len(),
{
    if s.len() == 0 {
    } else {
        lemma_table_map_dom(s.drop_last());
        assert forall|k: Seq<char>| #[trigger]
            table_map(s).dom().contains(k) <==> has_cpid(s, k) by {
            if table_map(s).dom().contains(k) {
                if k == s.last().cpid@ {
                    assert(has_cpid(s, k)) by {
                        assert(0 <= s.len() - 1 < s.len() && s[s.len() - 1].cpid@ == k);
                    }
                } else {
                    assert(table_map(s.drop_last()).dom().contains(k));
                    assert(has_cpid(s.drop_last(), k));
                    let i = choose|i: int|
                        0 <= i < s.drop_last().len() && s.drop_last()[i].cpid@ == k;
                    assert(has_cpid(s, k)) by {
                        assert(0 <= i < s.len() && s[i].cpid@ == k);
                    }
                }
            }
            if has_cpid(s, k) {
                let i = choose|i: int| 0 <= i < s.len() && s[i].cpid@ == k;
                if i == s.len() - 1 {
                    assert(table_map(s).dom().contains(k));
                } else {
                    assert(has_cpid(s.drop_last(), k)) by {
                        assert(0 <= i < s.drop_last().len() && s.drop_last()[i].cpid@ == k);
                    }
                    assert(table_map(s.drop_last()).dom().contains(k));
                    assert(table_map(s).dom().contains(k));
                }
            }
        }
    }
}

pub proof fn lemma_table_map_index(s: Seq<User>, i: int)
    requires
        unique_cpids(s),
        0 <= i < s.len(),
    ensures
        table_map(s).dom().contains(s[i].cpid@),
        table_map(s)[s[i].cpid@] == s[i].stats(),
    decreases s.len(),
{
    if i == s.len() - 1 {
    } else {
        assert(unique_cpids(s.drop_last()));
        lemma_table_map_index(s.drop_last(), i);
        assert(s[i].cpid@ != s.last().cpid@);
    }
}

/// Replacing the record that holds a key updates the map at that key.
pub proof fn lemma_table_map_update(s: Seq<User>, i: int, u: User)
    requires
        unique_cpids(s),
        0 <= i < s.len(),
        s[i].cpid@ == u.cpid@,
    ensures
        table_map(s.update(i, u)) == table_map(s).insert(u.cpid@, u.stats()),
    decreases s.len(),
{
    if i == s.len() - 1 {
        assert(s.update(i, u).drop_last() =~= s.drop_last());
        assert(s.update(i, u).last() == u);
        assert(table_map(s).insert(u.cpid@, u.stats()) =~= table_map(s.drop_last()).insert(
            u.cpid@,
            u.stats(),
        ));
    } else {
        assert(unique_cpids(s.drop_last()));
        assert(s.update(i, u).drop_last() =~= s.drop_last().update(i, u));
        assert(s.update(i, u).last() == s.last());
        lemma_table_map_update(s.drop_last(), i, u);
        assert(u.cpid@ != s.last().cpid@);
        assert(table_map(s.drop_last()).insert(u.cpid@, u.stats()).insert(
            s.last().cpid@,
            s.last().stats(),
        ) =~= table_map(s.drop_last()).insert(s.last().cpid@, s.last().stats()).insert(
            u.cpid@,
            u.stats(),
        ));
    }
}

/// The error of the checkpoint loader: the index of the first malformed
/// line.
#[derive(Clone, Copy, PartialEq, Eq, Structural, Debug)]
pub struct LoadError {
    pub line: usize,
}

/// The meaning of one checkpoint line: four comma-separated fields,
/// three fixed-point scalars and a well-formed identifier.
pub open spec fn parse_csv_line(l: Seq<char>) -> Option<(Seq<char>, UserStats)> {
    let parts = split_seq(l, ',');
    if parts.len() != 4 {
        None
    } else if !is_md5_hex_seq(parts[3]) {
        None
    } else {
        match (parse_fixed_spec(parts[0]), parse_fixed_spec(parts[1]), parse_fixed_spec(parts[2])) {
            (Some(t), Some(e), Some(ts)) => Some(
                (parts[3], UserStats { total_credit: t, expavg_credit: e, expavg_time: ts }),
            ),
            _ => None,
        }
    }
}

/// A line the loader accepts: empty, or a well-formed record.
pub open spec fn csv_line_ok(l: Seq<char>) -> bool {
    l.len() == 0 || parse_csv_line(l) is Some
}

/// The table a sequence of checkpoint lines stands for: empty lines are
/// skipped, malformed lines ignored here (the loader rejects them), and
/// a repeated identifier keeps its last record.
pub open spec fn load_map(lines: Seq<Seq<char>>) -> Map<Seq<char>, UserStats>
    decreases lines.len(),
{
    if lines.len() == 0 {
        Map::<Seq<char>, UserStats>::empty()
    } else {
        let m = load_map(lines.drop_last());
        match parse_csv_line(lines.last()) {
            Some((k, st)) => m.insert(k, st),
            None => m,
        }
    }
}

/// The user table.
#[derive(Debug)]
pub struct UserTable {
    pub users: Vec<User>,
}

impl View for UserTable {
    type V = Map<Seq<char>, UserStats>;

    open spec fn view(&self) -> Map<Seq<char>, UserStats> {
        table_map(self.users@)
    }
}

impl UserTable {
    /// All records well formed, all identifiers distinct.
    pub open spec fn wf(&self) -> bool {
        all_wf(self.users@) && unique_cpids(self.users@)
    }

    /// An empty table.
    pub fn new() -> (t: UserTable)
        ensures
            t.wf(),
            t@ == Map::<Seq<char>, UserStats>::empty(),
            t.users@.len() == 0,
    {
        UserTable { users: Vec::new() }
    }

    /// The number of records.
    pub fn len(&self) -> (n: usize)
        ensures
            n == self.users@.len(),
    {
        self.users.len()
    }

    /// The position of the record with this identifier, if any.
    pub fn find(&self, cpid: &String) -> (r: Option<usize>)
        ensures
            match r {
                Some(i) => i < self.users@.len() && self.users@[i as int].cpid@ == cpid@,
                None => forall|j: int|
                    0 <= j < self.users@.len() ==> (#[trigger] self.users@[j]).cpid@ != cpid@,
            },
    {
        let mut i: usize = 0;
        while i < self.users.len()
            invariant
                0 <= i <= self.users@.len(),
                forall|j: int| 0 <= j < i ==> (#[trigger] self.users@[j]).cpid@ != cpid@,
            decreases self.users@.len() - i,
        {
            if self.users[i].cpid == *cpid {
                return Some(i);
            }
            i = i + 1;
        }
        None
    }

    /// Inserts a record, replacing any record with the same identifier.
    pub fn put(&mut self, u: User)
        requires
            old(self).wf(),
            u.wf(),
        ensures
            final(self).wf(),
            final(self)@ == old(self)@.insert(u.cpid@, u.stats()),
            final(self).users@.len() >= old(self).users@.len(),
    {
        let found = self.find(&u.cpid);
        match found {
            Some(i) => {
                let ghost pre = self.users@;
                let ghost uv = u;
                self.users.remove(i);
                self.users.insert(i, u);
                proof {
                    assert(self.users@ =~= pre.update(i as int, uv));
                    lemma_table_map_update(pre, i as int, uv);
                    assert(unique_cpids(self.users@)) by {
                        assert(forall|a: int, b: int|
                            0 <= a < b < self.users@.len() ==> self.users@[a].cpid@
                                != self.users@[b].cpid@) by {
                            assert(forall|a: int|
                                0 <= a < self.users@.len() && a != i ==> self.users@[a]
                                    == pre[a]);
                            assert(self.users@[i as int].cpid@ == pre[i as int].cpid@);
                        }
                    }
                    assert(all_wf(self.users@));
                }
            },
            None => {
                let ghost pre = self.users@;
                let ghost uv = u;
                self.users.push(u);
                proof {
                    assert(self.users@.drop_last() =~= pre);
                    assert(self.users@.last() == uv);
                    assert(all_wf(self.users@));
                    assert(unique_cpids(self.users@));
                }
            },
        }
    }

    /// Loads a checkpoint from its lines.  A malformed line is fatal:
    /// the error names the first one.  Empty lines are skipped, and a
    /// repeated identifier keeps its last record.
    pub fn load(lines: &Vec<Vec<char>>) -> (r: Result<UserTable, LoadError>)
        ensures
            match r {
                Ok(t) => {
                    &&& t.wf()
                    &&& forall|i: int|
                        0 <= i < lines@.len() ==> csv_line_ok(#[trigger] views_of(lines@)[i])
                    &&& t@ == load_map(views_of(lines@))
                },
                Err(e) => {
                    &&& e.line < lines@.len()
                    &&& !csv_line_ok(views_of(lines@)[e.line as int])
                    &&& forall|j: int| 0 <= j < e.line ==> csv_line_ok(#[trigger] views_of(lines@)[j])
                },
            },
    {
        let ghost ls = views_of(lines@);
        let mut t = UserTable::new();
        let mut i: usize = 0;
        proof {
            assert(ls.take(0) =~= Seq::<Seq<char>>::empty());
        }
        while i < lines.len()
            invariant
                0 <= i <= lines@.len(),
                ls == views_of(lines@),
                t.wf(),
                t@ == load_map(ls.take(i as int)),
                forall|j: int| 0 <= j < i ==> csv_line_ok(#[trigger] ls[j]),
            decreases lines@.len() - i,
        {
            let line = &lines[i];
            proof {
                assert(ls[i as int] == line@);
                assert(ls.take(i as int + 1).drop_last() =~= ls.take(i as int));
                assert(ls.take(i as int + 1).last() == ls[i as int]);
            }
            if line.len() == 0 {
                i = i + 1;
                continue ;
            }
            let parts = split_chars(line, ',');
            proof {
                crate::chars::lemma_split_seq_len(line@, ',');
                assert(parts@.len() == split_seq(line@, ',').len());
            }
            if parts.len() != 4 {
                return Err(LoadError { line: i });
            }
            proof {
                assert(parts@.map_values(|p: Vec<char>| p@)[0] == parts@[0]@);
                assert(parts@.map_values(|p: Vec<char>| p@)[1] == parts@[1]@);
                assert(parts@.map_values(|p: Vec<char>| p@)[2] == parts@[2]@);
                assert(parts@.map_values(|p: Vec<char>| p@)[3] == parts@[3]@);
            }
            if !is_md5_hex_chars(&parts[3]) {
                return Err(LoadError { line: i });
            }
            let total = match parse_fixed(&parts[0]) {
                Some(v) => v,
                None => {
                    return Err(LoadError { line: i });
                },
            };
            let expavg = match parse_fixed(&parts[1]) {
                Some(v) => v,
                None => {
                    return Err(LoadError { line: i });
                },
            };
            let time = match parse_fixed(&parts[2]) {
                Some(v) => v,
                None => {
                    return Err(LoadError { line: i });
                },
            };
            let cpid = string_of_hex_chars(&parts[3]);
            let u = User { cpid, total_credit: total, expavg_credit: expavg, expavg_time: time };
            proof {
                assert(u.wf());
                assert(parse_csv_line(line@) == Some((u.cpid@, u.stats())));
            }
            t.put(u);
            i = i + 1;
        }
        proof {
            assert(ls.take(ls.len() as int) =~= ls);
        }
        Ok(t)
    }

    /// The checkpoint text of the table: one line per record, in table
    /// order.
    pub fn to_csv_string(&self) -> (r: String)
        ensures
            r@ == csv_text(self.users@),
    {
        let mut out = String::new();
        let mut i: usize = 0;
        proof {
            assert(self.users@.take(0) =~= Seq::<User>::empty());
        }
        while i < self.users.len()
            invariant
                0 <= i <= self.users@.len(),
                out@ == csv_text(self.users@.take(i as int)),
            decreases self.users@.len() - i,
        {
            let line = self.users[i].to_csv();
            out.append(line.as_str());
            proof {
                assert(self.users@.take(i as int + 1).drop_last() =~= self.users@.take(i as int));
                assert(self.users@.take(i as int + 1).last() == self.users@[i as int]);
            }
            i = i + 1;
        }
        proof {
            assert(self.users@.take(self.users@.len() as int) =~= self.users@);
        }
        out
    }

    /// The BOINC XML text of the table: one block per record, in table
    /// order, with no outer envelope.
    pub fn to_xml_string(&self) -> (r: String)
        ensures
            r@ == xml_text(self.users@),
    {
        let mut out = String::new();
        let mut i: usize = 0;
        proof {
            assert(self.users@.take(0) =~= Seq::<User>::empty());
        }
        while i < self.users.len()
            invariant
                0 <= i <= self.users@.len(),
                out@ == xml_text(self.users@.take(i as int)),
            decreases self.users@.len() - i,
        {
            let block = self.users[i].to_xml();
            out.append(block.as_str());
            proof {
                assert(self.users@.take(i as int + 1).drop_last() =~= self.users@.take(i as int));
                assert(self.users@.take(i as int + 1).last() == self.users@[i as int]);
            }
            i = i + 1;
        }
        proof {
            assert(self.users@.take(self.users@.len() as int) =~= self.users@);
        }
        out
    }
}

/// The checkpoint text of a record vector.
pub open spec fn csv_text(s: Seq<User>) -> Seq<char>
    decreases s.len(),
{
    if s.len() == 0 {
        Seq::<char>::empty()
    } else {
        csv_text(s.drop_last()) + csv_line(s.last().cpid@, s.last().stats())
    }
}

/// The XML text of a record vector.
pub open spec fn xml_text(s: Seq<User>) -> Seq<char>
    decreases s.len(),
{
    if s.len() == 0 {
        Seq::<char>::empty()
    } else {
        xml_text(s.drop_last()) + xml_block(s.last().cpid@, s.last().stats())
    }
}


/// The checkpoint bodies of a record vector, one per record.
pub open spec fn bodies_of(s: Seq<User>) -> Seq<Seq<char>> {
    s.map_values(|u: User| csv_body(u.cpid@, u.stats()))
}

/// A record's checkpoint body parses back to the record, and contains
/// neither newline nor carriage return.
pub proof fn lemma_parse_csv_body(cpid: Seq<char>, st: UserStats)
    requires
        is_md5_hex_seq(cpid),
    ensures
        parse_csv_line(csv_body(cpid, st)) == Some((cpid, st)),
        csv_body(cpid, st).len() > 0,
        forall|i: int| 0 <= i < csv_body(cpid, st).len() ==> #[trigger] csv_body(cpid, st)[i] != '\n',
        csv_body(cpid, st).last() != '\r',
{
    let fa = fixed_str(st.total_credit);
    let fb = fixed_str(st.expavg_credit);
    let fc = fixed_str(st.expavg_time);
    let body = csv_body(cpid, st);
    lemma_fixed_str_chars(st.total_credit);
    lemma_fixed_str_chars(st.expavg_credit);
    lemma_fixed_str_chars(st.expavg_time);
    assert(forall|i: int| 0 <= i < fa.len() ==> #[trigger] fa[i] != ',' && fa[i] != '\n');
    assert(forall|i: int| 0 <= i < fb.len() ==> #[trigger] fb[i] != ',' && fb[i] != '\n');
    assert(forall|i: int| 0 <= i < fc.len() ==> #[trigger] fc[i] != ',' && fc[i] != '\n');
    assert(forall|i: int|
        0 <= i < cpid.len() ==> #[trigger] cpid[i] != ',' && cpid[i] != '\n' && cpid[i] != '\r');
    let r2 = fc + seq![','] + cpid;
    let r1 = fb + seq![','] + r2;
    assert(body =~= fa + seq![','] + r1);
    lemma_split_no_sep(cpid, ',');
    lemma_split_prepend_no_sep(fc, cpid, ',');
    assert(split_seq(r2, ',') == seq![fc] + seq![cpid]);
    lemma_split_prepend_no_sep(fb, r2, ',');
    lemma_split_prepend_no_sep(fa, r1, ',');
    let parts = split_seq(body, ',');
    assert(parts =~~= seq![fa, fb, fc, cpid]);
    lemma_parse_fixed_str(st.total_credit);
    lemma_parse_fixed_str(st.expavg_credit);
    lemma_parse_fixed_str(st.expavg_time);
    assert(parse_csv_line(body) == Some((cpid, st)));
    assert(body.last() == cpid.last());
    assert(forall|i: int| 0 <= i < body.len() ==> #[trigger] body[i] != '\n') by {
        assert(forall|i: int| 0 <= i < fa.len() ==> body[i] == fa[i]);
        assert(body[fa.len() as int] == ',');
        assert(forall|i: int|
            0 <= i < fb.len() ==> body[fa.len() + 1 + i] == fb[i]);
        assert(body[fa.len() + 1 + fb.len() as int] == ',');
        assert(forall|i: int|
            0 <= i < fc.len() ==> body[fa.len() + fb.len() + 2 + i] == fc[i]);
        assert(body[fa.len() + fb.len() + fc.len() + 2 as int] == ',');
        assert(forall|i: int|
            0 <= i < cpid.len() ==> body[fa.len() + fb.len() + fc.len() + 3 + i] == cpid[i]);
    }
}

/// The checkpoint text, read from the left: first line, then the rest.
proof fn lemma_csv_text_left(s: Seq<User>)
    requires
        s.len() > 0,
    ensures
        csv_text(s) == csv_line(s[0].cpid@, s[0].stats()) + csv_text(s.drop_first()),
    decreases s.len(),
{
    if s.len() == 1 {
        assert(s.drop_last() =~= Seq::<User>::empty());
        assert(s.drop_first() =~= Seq::<User>::empty());
        assert(csv_text(s) =~= csv_line(s[0].cpid@, s[0].stats()) + csv_text(s.drop_first()));
    } else {
        lemma_csv_text_left(s.drop_last());
        assert(s.drop_last()[0] == s[0]);
        assert(s.drop_last().drop_first() =~= s.drop_first().drop_last());
        assert(s.drop_first().last() == s.last());
        assert(csv_text(s) == csv_text(s.drop_last()) + csv_line(s.last().cpid@, s.last().stats()));
        assert(csv_text(s.drop_first()) == csv_text(s.drop_first().drop_last()) + csv_line(
            s.last().cpid@,
            s.last().stats(),
        ));
        assert(csv_text(s) =~= csv_line(s[0].cpid@, s[0].stats()) + csv_text(s.drop_first()));
    }
}

/// Splitting the checkpoint text on newlines gives the record bodies,
/// followed by one empty piece for the trailing newline.
proof fn lemma_split_csv_text(s: Seq<User>)
    requires
        all_wf(s),
    ensures
        split_seq(csv_text(s), '\n') == bodies_of(s) + seq![Seq::<char>::empty()],
    decreases s.len(),
{
    if s.len() == 0 {
        assert(split_seq(csv_text(s), '\n') =~~= bodies_of(s) + seq![Seq::<char>::empty()]);
    } else {
        lemma_csv_text_left(s);
        let body0 = csv_body(s[0].cpid@, s[0].stats());
        lemma_parse_csv_body(s[0].cpid@, s[0].stats());
        assert(csv_text(s) =~= body0 + seq!['\n'] + csv_text(s.drop_first()));
        lemma_split_prepend_no_sep(body0, csv_text(s.drop_first()), '\n');
        assert(all_wf(s.drop_first()));
        lemma_split_csv_text(s.drop_first());
        assert(bodies_of(s.drop_first()) =~= bodies_of(s).drop_first());
        assert(bodies_of(s)[0] == body0);
        assert(split_seq(csv_text(s), '\n') =~~= bodies_of(s) + seq![Seq::<char>::empty()]);
    }
}

/// Loading the record bodies rebuilds the table's map.
proof fn lemma_load_map_of_bodies(s: Seq<User>)
    requires
        all_wf(s),
    ensures
        load_map(bodies_of(s)) == table_map(s),
    decreases s.len(),
{
    if s.len() == 0 {
        assert(load_map(bodies_of(s)) =~= table_map(s));
    } else {
        assert(all_wf(s.drop_last()));
        lemma_load_map_of_bodies(s.drop_last());
        assert(bodies_of(s).drop_last() =~= bodies_of(s.drop_last()));
        assert(bodies_of(s).last() == csv_body(s.last().cpid@, s.last().stats()));
        lemma_parse_csv_body(s.last().cpid@, s.last().stats());
    }
}

/// Round trip: the logical lines of a stored table load back to exactly
/// the table's map, and every such line is acceptable to the loader.
pub proof fn lemma_store_load_round_trip(t: &UserTable)
    requires
        t.wf(),
    ensures
        lines_spec(csv_text(t.users@)) == bodies_of(t.users@),
        forall|i: int|
            0 <= i < bodies_of(t.users@).len() ==> csv_line_ok(#[trigger] bodies_of(t.users@)[i]),
        load_map(lines_spec(csv_text(t.users@))) == t@,
{
    let s = t.users@;
    lemma_split_csv_text(s);
    let parts = split_seq(csv_text(s), '\n');
    let bodies = bodies_of(s);
    assert(parts.last().len() == 0);
    assert(parts.drop_last() =~= bodies);
    assert(forall|i: int| 0 <= i < bodies.len() ==> #[trigger] bodies[i] == csv_body(s[i].cpid@, s[i].stats()));
    assert forall|i: int| 0 <= i < bodies.len() implies strip_cr(#[trigger] bodies[i]) == bodies[i] by {
        lemma_parse_csv_body(s[i].cpid@, s[i].stats());
    }
    assert(lines_spec(csv_text(s)) =~= bodies) by {
        assert(parts.drop_last().map_values(|l: Seq<char>| strip_cr(l)) =~= bodies);
    }
    assert forall|i: int| 0 <= i < bodies.len() implies csv_line_ok(#[trigger] bodies[i]) by {
        lemma_parse_csv_body(s[i].cpid@, s[i].stats());
    }
    lemma_load_map_of_bodies(s);
}


/// A table with distinct identifiers has exactly one map entry per
/// record.
pub proof fn lemma_table_map_card(s: Seq<User>)
    requires
        unique_cpids(s),
    ensures
        table_map(s).dom().finite(),
        table_map(s).dom().len() == s.len(),
    decreases s.len(),
{
    broadcast use vstd::set::axiom_set_insert_len;

    if s.len() == 0 {
        assert(table_map(s).dom() =~= Set::<Seq<char>>::empty());
    } else {
        assert(unique_cpids(s.drop_last()));
        lemma_table_map_card(s.drop_last());
        lemma_table_map_dom(s.drop_last());
        assert(!has_cpid(s.drop_last(), s.last().cpid@)) by {
            if has_cpid(s.drop_last(), s.last().cpid@) {
                let j = choose|j: int|
                    0 <= j < s.drop_last().len() && s.drop_last()[j].cpid@ == s.last().cpid@;
                assert(s[j].cpid@ == s[s.len() - 1].cpid@);
            }
        }
        assert(!table_map(s.drop_last()).dom().contains(s.last().cpid@));
        assert(table_map(s).dom() =~= table_map(s.drop_last()).dom().insert(s.last().cpid@));
    }
}

} // verus!
