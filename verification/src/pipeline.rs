//! The aggregation pipeline: load the checkpoint, sum the summary's
//! credits per identifier, apply the RAC update to every affected
//! record, and emit the updated table as checkpoint CSV and BOINC XML.
//!
//! All file reading and writing stays with the caller; the pipeline
//! works on the texts and hands the outputs back.

use crate::chars::lines_spec;
use crate::chars::split_lines;
use crate::fixed::SCALE;
use crate::hex::is_md5_hex_seq;
use crate::summary::deltas_map;
use crate::summary::has_delta_key;
use crate::summary::lemma_delta_map_dom;
use crate::summary::lemma_delta_map_index;
use crate::summary::parse_summary;
use crate::summary::rows_ok;
use crate::summary::DeltaTable;
use crate::table::all_wf;
use crate::table::csv_line_ok;
use crate::table::csv_text;
use crate::table::has_cpid;
use crate::table::lemma_table_map_dom;
use crate::table::lemma_table_map_index;
use crate::table::lemma_table_map_update;
use crate::table::load_map;
use crate::table::table_map;
use crate::table::unique_cpids;
use crate::table::views_of;
use crate::table::xml_text;
use crate::table::UserTable;
use crate::user::lemma_replay_identity;
use crate::user::lemma_total_credit_monotone;
use crate::user::rac_step;
use crate::user::User;
use crate::user::UserStats;
use vstd::prelude::*;

verus! {

/// The recorded fields for an identifier, or the all-zero fresh record
/// for one never seen.
pub open spec fn stats_or_new(m: Map<Seq<char>, UserStats>, k: Seq<char>) -> UserStats {
    if m.dom().contains(k) {
        m[k]
    } else {
        UserStats { total_credit: 0, expavg_credit: 0, expavg_time: 0 }
    }
}

/// The table after one run: every identifier with a credit sum gets one
/// RAC update against it, every other record is untouched, and a fresh
/// record is created for an identifier not yet in the table.
pub open spec fn merge_map(
    m: Map<Seq<char>, UserStats>,
    d: Map<Seq<char>, u64>,
    now: u64,
) -> Map<Seq<char>, UserStats> {
    Map::new(
        |k: Seq<char>| m.dom().contains(k) || d.dom().contains(k),
        |k: Seq<char>|
            if d.dom().contains(k) {
                rac_step(stats_or_new(m, k), d[k], now)
            } else {
                m[k]
            },
    )
}

/// Applies one RAC update to the record with this identifier, creating
/// it first if the table lacks it.
pub fn apply_delta(t: &mut UserTable, cpid: &String, new_total: u64, now: u64)
    requires
        old(t).wf(),
        is_md5_hex_seq(cpid@),
    ensures
        final(t).wf(),
        final(t)@ == old(t)@.insert(
            cpid@,
            rac_step(stats_or_new(old(t)@, cpid@), new_total, now),
        ),
{
    proof {
        lemma_table_map_dom(t.users@);
    }
    let found = t.find(cpid);
    match found {
        Some(i) => {
            proof {
                lemma_table_map_index(t.users@, i as int);
            }
            let ghost pre = t.users@;
            let mut u = t.users.remove(i);
            u.update_stats(new_total, now);
            let ghost uv = u;
            t.users.insert(i, u);
            proof {
                assert(t.users@ =~= pre.update(i as int, uv));
                assert(uv.cpid@ == cpid@);
                assert(stats_or_new(table_map(pre), cpid@) == pre[i as int].stats());
                lemma_table_map_update(pre, i as int, uv);
                assert(unique_cpids(t.users@)) by {
                    assert(forall|a: int|
                        0 <= a < t.users@.len() && a != i ==> t.users@[a] == pre[a]);
                    assert(t.users@[i as int].cpid@ == pre[i as int].cpid@);
                }
                assert(all_wf(t.users@));
            }
        },
        None => {
            proof {
                assert(!has_cpid(t.users@, cpid@)) by {
                    if has_cpid(t.users@, cpid@) {
                        let j = choose|j: int|
                            0 <= j < t.users@.len() && t.users@[j].cpid@ == cpid@;
                    }
                }
                assert(!table_map(t.users@).dom().contains(cpid@));
            }
            let ghost pre = t.users@;
            let mut u = User::new(cpid);
            u.update_stats(new_total, now);
            let ghost uv = u;
            t.users.push(u);
            proof {
                assert(t.users@.drop_last() =~= pre);
                assert(t.users@.last() == uv);
                assert(stats_or_new(table_map(pre), cpid@) == (UserStats {
                    total_credit: 0,
                    expavg_credit: 0,
                    expavg_time: 0,
                }));
                assert(all_wf(t.users@));
                assert(unique_cpids(t.users@));
            }
        },
    }
}

/// Applies the whole credit-sum table to the user table.
pub fn apply_deltas(t: &mut UserTable, d: &DeltaTable, now: u64)
    requires
        old(t).wf(),
        d.wf(),
    ensures
        final(t).wf(),
        final(t)@ == merge_map(old(t)@, d@, now),
{
    let ghost m0 = t@;
    let ghost ds = d.entries@;
    proof {
        lemma_delta_map_dom(ds);
        assert(ds.take(0) =~= Seq::<crate::summary::DeltaEntry>::empty());
        assert forall|k: Seq<char>| #[trigger]
            t@.dom().contains(k) <==> (m0.dom().contains(k) || has_delta_key(
                ds.take(0),
                k,
            )) by {
            if has_delta_key(ds.take(0), k) {
                let j = choose|j: int| 0 <= j < ds.take(0).len() && (#[trigger] ds.take(0)[j]).0@ == k;
            }
        }
    }
    let mut i: usize = 0;
    while i < d.entries.len()
        invariant
            0 <= i <= ds.len(),
            ds == d.entries@,
            d.wf(),
            t.wf(),
            m0 == old(t)@,
            forall|k: Seq<char>| #[trigger]
                t@.dom().contains(k) <==> (m0.dom().contains(k) || has_delta_key(
                    ds.take(i as int),
                    k,
                )),
            forall|j: int|
                0 <= j < i ==> t@[(#[trigger] ds[j]).0@] == rac_step(
                    stats_or_new(m0, ds[j].0@),
                    ds[j].1,
                    now,
                ),
            forall|k: Seq<char>|
                (#[trigger] t@.dom().contains(k) && !has_delta_key(ds.take(i as int), k)) ==> (
                m0.dom().contains(k) && t@[k] == m0[k]),
        decreases ds.len() - i,
    {
        let e = &d.entries[i];
        let ghost ki = ds[i as int].0@;
        let ghost pre_map = t@;
        proof {
            assert(!has_delta_key(ds.take(i as int), ki)) by {
                if has_delta_key(ds.take(i as int), ki) {
                    let j = choose|j: int|
                        0 <= j < ds.take(i as int).len() && (#[trigger] ds.take(i as int)[j]).0@ == ki;
                    assert(ds[j].0@ == ds[i as int].0@);
                }
            }
            assert(stats_or_new(pre_map, ki) == stats_or_new(m0, ki));
        }
        apply_delta(t, &e.0, e.1, now);
        proof {
            assert(ds.take(i as int + 1).drop_last() =~= ds.take(i as int));
            assert(ds.take(i as int + 1).last() == ds[i as int]);
            assert forall|k: Seq<char>| #[trigger]
                t@.dom().contains(k) <==> (m0.dom().contains(k) || has_delta_key(
                    ds.take(i as int + 1),
                    k,
                )) by {
                if t@.dom().contains(k) {
                    if k == ki {
                        assert(has_delta_key(ds.take(i as int + 1), k)) by {
                            assert(ds.take(i as int + 1)[i as int].0@ == k);
                        }
                    } else {
                        assert(pre_map.dom().contains(k));
                        if has_delta_key(ds.take(i as int), k) {
                            let j = choose|j: int|
                                0 <= j < ds.take(i as int).len() && (#[trigger] ds.take(i as int)[j]).0@ == k;
                            assert(has_delta_key(ds.take(i as int + 1), k)) by {
                                assert(ds.take(i as int + 1)[j].0@ == k);
                            }
                        }
                    }
                }
                if m0.dom().contains(k) {
                    assert(t@.dom().contains(k));
                }
                if has_delta_key(ds.take(i as int + 1), k) {
                    let j = choose|j: int|
                        0 <= j < ds.take(i as int + 1).len() && (#[trigger] ds.take(i as int + 1)[j]).0@ == k;
                    if j == i {
                        assert(t@.dom().contains(k));
                    } else {
                        assert(has_delta_key(ds.take(i as int), k)) by {
                            assert(ds.take(i as int)[j].0@ == k);
                        }
                        assert(pre_map.dom().contains(k));
                        assert(t@.dom().contains(k));
                    }
                }
            }
            assert forall|j: int| 0 <= j < i + 1 implies t@[(#[trigger] ds[j]).0@] == rac_step(
                stats_or_new(m0, ds[j].0@),
                ds[j].1,
                now,
            ) by {
                if j < i {
                    assert(ds[j].0@ != ki);
                    assert(t@[ds[j].0@] == pre_map[ds[j].0@]);
                }
            }
            assert forall|k: Seq<char>|
                (#[trigger] t@.dom().contains(k) && !has_delta_key(
                    ds.take(i as int + 1),
                    k,
                )) implies (m0.dom().contains(k) && t@[k] == m0[k]) by {
                assert(!has_delta_key(ds.take(i as int), k)) by {
                    if has_delta_key(ds.take(i as int), k) {
                        let j = choose|j: int|
                            0 <= j < ds.take(i as int).len() && (#[trigger] ds.take(i as int)[j]).0@ == k;
                        assert(ds.take(i as int + 1)[j].0@ == k);
                    }
                }
                assert(k != ki) by {
                    if k == ki {
                        assert(ds.take(i as int + 1)[i as int].0@ == k);
                    }
                }
                assert(pre_map.dom().contains(k));
            }
        }
        i = i + 1;
    }
    proof {
        assert(ds.take(ds.len() as int) =~= ds);
        assert forall|k: Seq<char>| true implies (t@.dom().contains(k) <==> merge_map(
            m0,
            d@,
            now,
        ).dom().contains(k)) && (t@.dom().contains(k) ==> t@[k] == merge_map(m0, d@, now)[k]) by {
            if d@.dom().contains(k) {
                assert(has_delta_key(ds, k));
                let j = choose|j: int| 0 <= j < ds.len() && (#[trigger] ds[j]).0@ == k;
                lemma_delta_map_index(ds, j);
                assert(d@[k] == ds[j].1);
                assert(t@[k] == rac_step(stats_or_new(m0, k), d@[k], now));
            } else {
                if t@.dom().contains(k) {
                    assert(!has_delta_key(ds, k));
                    assert(t@[k] == m0[k]);
                }
                if m0.dom().contains(k) {
                    assert(t@.dom().contains(k));
                }
            }
        }
        assert(t@ =~= merge_map(m0, d@, now));
    }
}

/// What a run can fail on: a malformed checkpoint line (corruption) or
/// a summary row whose credit does not parse.  Each names the first
/// offending line.
#[derive(Clone, Copy, PartialEq, Eq, Structural, Debug)]
pub enum RunError {
    BadCheckpointLine { line: usize },
    BadSummaryLine { line: usize },
}

/// Everything a run produces: the updated table, the two output texts,
/// and the progress counts the caller may log.
#[derive(Debug)]
pub struct RunOutput {
    /// The table after every update.
    pub table: UserTable,
    /// The next checkpoint: the table as CSV.
    pub checkpoint_csv: String,
    /// The table as BOINC XML records, with no outer envelope.
    pub boinc_xml: String,
    /// How many records the checkpoint held.
    pub loaded: usize,
    /// How many distinct identifiers the summary contributed.
    pub merged: usize,
}

/// The logical lines of the checkpoint text, if one was found.
pub open spec fn checkpoint_lines(cp: Option<&String>) -> Seq<Seq<char>> {
    match cp {
        Some(s) => lines_spec(s@),
        None => Seq::<Seq<char>>::empty(),
    }
}

/// One whole run over the checkpoint text (absent on a first run) and
/// the summary text, at one fixed timestamp in whole Unix seconds.
pub fn run(checkpoint: Option<&String>, summary: &String, now_secs: u64) -> (r: Result<
    RunOutput,
    RunError,
>)
    requires
        now_secs <= 184_467_440_737,
    ensures
        match r {
            Ok(out) => {
                &&& out.table.wf()
                &&& forall|i: int|
                    0 <= i < checkpoint_lines(checkpoint).len() ==> csv_line_ok(
                        #[trigger] checkpoint_lines(checkpoint)[i],
                    )
                &&& rows_ok(lines_spec(summary@))
                &&& out.table@ == merge_map(
                    load_map(checkpoint_lines(checkpoint)),
                    deltas_map(lines_spec(summary@)),
                    (now_secs * SCALE) as u64,
                )
                &&& out.checkpoint_csv@ == csv_text(out.table.users@)
                &&& out.boinc_xml@ == xml_text(out.table.users@)
                &&& out.loaded == load_map(checkpoint_lines(checkpoint)).dom().len()
                &&& out.merged == deltas_map(lines_spec(summary@)).dom().len()
            },
            Err(RunError::BadCheckpointLine { line }) => {
                &&& checkpoint is Some
                &&& line < checkpoint_lines(checkpoint).len()
                &&& !csv_line_ok(checkpoint_lines(checkpoint)[line as int])
                &&& forall|j: int|
                    0 <= j < line ==> csv_line_ok(#[trigger] checkpoint_lines(checkpoint)[j])
            },
            Err(RunError::BadSummaryLine { line }) => {
                &&& forall|i: int|
                    0 <= i < checkpoint_lines(checkpoint).len() ==> csv_line_ok(
                        #[trigger] checkpoint_lines(checkpoint)[i],
                    )
                &&& line < lines_spec(summary@).len()
                &&& !crate::summary::row_ok(lines_spec(summary@)[line as int])
                &&& forall|j: int|
                    0 <= j < line ==> crate::summary::row_ok(#[trigger] lines_spec(summary@)[j])
            },
        },
{
    let now: u64 = now_secs * SCALE;
    let table = match checkpoint {
        Some(cp) => {
            let cl = split_lines(cp);
            proof {
                assert(views_of(cl@) == lines_spec(cp@));
            }
            match UserTable::load(&cl) {
                Ok(t) => t,
                Err(e) => {
                    return Err(RunError::BadCheckpointLine { line: e.line });
                },
            }
        },
        None => UserTable::new(),
    };
    let mut table = table;
    proof {
        crate::table::lemma_table_map_card(table.users@);
    }
    let loaded = table.len();
    let sl = split_lines(summary);
    proof {
        assert(views_of(sl@) == lines_spec(summary@));
    }
    let deltas = match parse_summary(&sl) {
        Ok(d) => d,
        Err(e) => {
            return Err(RunError::BadSummaryLine { line: e.line });
        },
    };
    proof {
        crate::summary::lemma_delta_map_card(deltas.entries@);
    }
    let merged = deltas.len();
    apply_deltas(&mut table, &deltas, now);
    let checkpoint_csv = table.to_csv_string();
    let boinc_xml = table.to_xml_string();
    Ok(RunOutput { table, checkpoint_csv, boinc_xml, loaded, merged })
}

/// Every identifier in a well-formed table is MD5-shaped hexadecimal;
/// in particular every record a run writes out carries one.
pub proof fn lemma_table_keys_hex(t: &UserTable)
    requires
        t.wf(),
    ensures
        forall|k: Seq<char>| #[trigger] t@.dom().contains(k) ==> is_md5_hex_seq(k),
{
    lemma_table_map_dom(t.users@);
    assert forall|k: Seq<char>| #[trigger] t@.dom().contains(k) implies is_md5_hex_seq(k) by {
        assert(has_cpid(t.users@, k));
        let i = choose|i: int| 0 <= i < t.users@.len() && t.users@[i].cpid@ == k;
        assert(t.users@[i].wf());
    }
}

/// Cumulative credit never decreases across a run: every record that
/// was in the table before the merge has at least its old total after.
pub proof fn lemma_merge_total_monotone(
    m: Map<Seq<char>, UserStats>,
    d: Map<Seq<char>, u64>,
    now: u64,
)
    ensures
        forall|k: Seq<char>| #[trigger]
            m.dom().contains(k) ==> merge_map(m, d, now)[k].total_credit >= m[k].total_credit,
{
    assert forall|k: Seq<char>| #[trigger]
        m.dom().contains(k) implies merge_map(m, d, now)[k].total_credit
        >= m[k].total_credit by {
        if d.dom().contains(k) {
            lemma_total_credit_monotone(stats_or_new(m, k), d[k], now);
        }
    }
}

/// Every record the summary touched with at least its recorded total is
/// stamped with the run's timestamp.
pub proof fn lemma_merge_sets_time(m: Map<Seq<char>, UserStats>, d: Map<Seq<char>, u64>, now: u64)
    ensures
        forall|k: Seq<char>|
            (#[trigger] d.dom().contains(k) && d[k] >= stats_or_new(m, k).total_credit)
                ==> merge_map(m, d, now)[k].expavg_time == now,
{
}

/// Replaying a run is absorbed: merging the same credit sums at the
/// same timestamp a second time leaves the table unchanged.
pub proof fn lemma_merge_idempotent(m: Map<Seq<char>, UserStats>, d: Map<Seq<char>, u64>, now: u64)
    ensures
        merge_map(merge_map(m, d, now), d, now) == merge_map(m, d, now),
{
    let m1 = merge_map(m, d, now);
    let m2 = merge_map(m1, d, now);
    assert forall|k: Seq<char>| #[trigger]
        m2.dom().contains(k) implies m1.dom().contains(k) && m2[k] == m1[k] by {
        if d.dom().contains(k) {
            assert(m1[k] == rac_step(stats_or_new(m, k), d[k], now));
            assert(stats_or_new(m1, k) == m1[k]);
            lemma_replay_identity(stats_or_new(m, k), d[k], now);
        }
    }
    assert(m2 =~= m1);
}


/// A full replay is absorbed.  A run leaves behind a checkpoint text
/// and a table that is the merge of the credit sums into the previous
/// state; loading that checkpoint back and merging the same sums at the
/// same timestamp yields exactly the same table again.
pub proof fn lemma_run_replay(
    t: &UserTable,
    m: Map<Seq<char>, UserStats>,
    d: Map<Seq<char>, u64>,
    now: u64,
)
    requires
        t.wf(),
        t@ == merge_map(m, d, now),
    ensures
        merge_map(load_map(lines_spec(csv_text(t.users@))), d, now) == t@,
{
    crate::table::lemma_store_load_round_trip(t);
    lemma_merge_idempotent(m, d, now);
}

} // verus!
