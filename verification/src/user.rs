//! The per-participant record: identity plus three decayed-credit
//! scalars, with the RAC update and the two external text renderings.

use crate::fixed::fixed_str;
use crate::fixed::push_fixed;
use crate::fixed::SCALE;
use crate::hex::is_md5_hex_seq;
use crate::rac::contribution;
use crate::rac::decayed_part;
use crate::rac::lemma_weight_bounds;
use crate::rac::new_expavg;
use crate::rac::weight_of;
use vstd::arithmetic::div_mod::lemma_div_multiples_vanish;
use vstd::arithmetic::div_mod::lemma_div_of0;
use vstd::prelude::*;
use vstd::string::StringExecFns;

verus! {

/// The three numeric fields of a record, as one copyable value.
#[derive(Clone, Copy, PartialEq, Eq, Structural, Debug)]
pub struct UserStats {
    /// Cumulative credit ever awarded, in fixed point.
    pub total_credit: u64,
    /// Exponentially decayed credit rate (credit per day), in fixed
    /// point.
    pub expavg_credit: u64,
    /// When the running average was last updated, in fixed-point Unix
    /// seconds; zero means never.
    pub expavg_time: u64,
}

/// A participant record.
#[derive(Debug)]
pub struct User {
    /// The cross-project identifier: 32 hexadecimal digits.
    pub cpid: String,
    pub total_credit: u64,
    pub expavg_credit: u64,
    pub expavg_time: u64,
}

/// The clamped elapsed interval: zero when the clock ran backwards.
pub open spec fn diff_of(now: u64, t: u64) -> u64 {
    if now >= t {
        (now - t) as u64
    } else {
        0
    }
}

/// One full RAC update on the numeric fields, given the new cumulative
/// total and the current time.
pub open spec fn rac_step(s: UserStats, new_total: u64, now: u64) -> UserStats {
    if new_total < s.total_credit {
        s
    } else if s.expavg_time == 0 {
        UserStats { total_credit: new_total, expavg_credit: s.expavg_credit, expavg_time: now }
    } else {
        UserStats {
            total_credit: new_total,
            expavg_credit: new_expavg(
                s.expavg_credit,
                (new_total - s.total_credit) as u64,
                diff_of(now, s.expavg_time),
            ),
            expavg_time: now,
        }
    }
}

/// The checkpoint line of a record, without its terminator: the three
/// scalars and the identifier, comma-separated.
pub open spec fn csv_body(cpid: Seq<char>, s: UserStats) -> Seq<char> {
    fixed_str(s.total_credit) + seq![','] + fixed_str(s.expavg_credit) + seq![','] + fixed_str(
        s.expavg_time,
    ) + seq![','] + cpid
}

/// The checkpoint line of a record: its body, newline-terminated.
pub open spec fn csv_line(cpid: Seq<char>, s: UserStats) -> Seq<char> {
    csv_body(cpid, s) + seq!['\n']
}

/// The BOINC XML block of a record: five newline-terminated lines.
pub open spec fn xml_block(cpid: Seq<char>, s: UserStats) -> Seq<char> {
    "<user>\n<total_credit>"@ + fixed_str(s.total_credit) + "</total_credit>\n<expavg_credit>"@
        + fixed_str(s.expavg_credit) + "</expavg_credit>\n<expavg_time>"@ + fixed_str(
        s.expavg_time,
    ) + "</expavg_time>\n<cpid>"@ + cpid + "</cpid>\n</user>\n"@
}

impl User {
    /// The numeric fields as one value.
    pub open spec fn stats(&self) -> UserStats {
        UserStats {
            total_credit: self.total_credit,
            expavg_credit: self.expavg_credit,
            expavg_time: self.expavg_time,
        }
    }

    /// A well-formed record carries a well-formed identifier.
    pub open spec fn wf(&self) -> bool {
        is_md5_hex_seq(self.cpid@)
    }

    /// A fresh record for a newly seen participant: all-zero credit, no
    /// observation yet.
    pub fn new(cpid: &String) -> (u: User)
        ensures
            u.cpid@ == cpid@,
            u.stats() == (UserStats { total_credit: 0, expavg_credit: 0, expavg_time: 0 }),
    {
        User { cpid: cpid.clone(), total_credit: 0, expavg_credit: 0, expavg_time: 0 }
    }

    /// Applies the RAC update for a newly reported cumulative total.
    pub fn update_stats(&mut self, new_total_credit: u64, now: u64)
        ensures
            final(self).cpid == old(self).cpid,
            final(self).stats() == rac_step(old(self).stats(), new_total_credit, now),
    {
        if new_total_credit < self.total_credit {
            return ;
        }
        let work = new_total_credit - self.total_credit;
        self.total_credit = new_total_credit;
        if self.expavg_time > 0 {
            let diff = if now >= self.expavg_time {
                now - self.expavg_time
            } else {
                0
            };
            self.expavg_credit = crate::rac::apply_decay(self.expavg_credit, work, diff);
        }
        self.expavg_time = now;
    }

    /// The checkpoint line of this record.
    pub fn to_csv(&self) -> (r: String)
        ensures
            r@ == csv_line(self.cpid@, self.stats()),
    {
        let mut out = String::new();
        push_fixed(&mut out, self.total_credit);
        proof {
            reveal_strlit(",");
            assert(","@ =~= seq![',']);
        }
        out.append(",");
        push_fixed(&mut out, self.expavg_credit);
        out.append(",");
        push_fixed(&mut out, self.expavg_time);
        out.append(",");
        out.append(self.cpid.as_str());
        proof {
            reveal_strlit("\n");
            assert("\n"@ =~= seq!['\n']);
        }
        out.append("\n");
        proof {
            assert(out@ =~= csv_line(self.cpid@, self.stats()));
        }
        out
    }

    /// The BOINC XML block of this record.
    pub fn to_xml(&self) -> (r: String)
        ensures
            r@ == xml_block(self.cpid@, self.stats()),
    {
        let mut out = String::new();
        out.append("<user>\n<total_credit>");
        push_fixed(&mut out, self.total_credit);
        out.append("</total_credit>\n<expavg_credit>");
        push_fixed(&mut out, self.expavg_credit);
        out.append("</expavg_credit>\n<expavg_time>");
        push_fixed(&mut out, self.expavg_time);
        out.append("</expavg_time>\n<cpid>");
        out.append(self.cpid.as_str());
        out.append("</cpid>\n</user>\n");
        proof {
            assert(out@ =~= xml_block(self.cpid@, self.stats()));
        }
        out
    }
}

/// A report of less credit than already recorded changes nothing: the
/// update is the identity on the record.
pub proof fn lemma_negative_work_identity(s: UserStats, new_total: u64, now: u64)
    requires
        new_total < s.total_credit,
    ensures
        rac_step(s, new_total, now) == s,
{
}

/// Cumulative credit never decreases across an update.
pub proof fn lemma_total_credit_monotone(s: UserStats, new_total: u64, now: u64)
    ensures
        rac_step(s, new_total, now).total_credit >= s.total_credit,
{
}

/// An update that reports at least the recorded total stamps the record
/// with the current time.
pub proof fn lemma_update_sets_time(s: UserStats, new_total: u64, now: u64)
    requires
        new_total >= s.total_credit,
    ensures
        rac_step(s, new_total, now).expavg_time == now,
{
}

/// Replaying the same report at the same time is absorbed: the second
/// update sees no new work over a zero interval and leaves the record as
/// the first update left it.
pub proof fn lemma_replay_identity(s: UserStats, new_total: u64, now: u64)
    ensures
        rac_step(rac_step(s, new_total, now), new_total, now) == rac_step(s, new_total, now),
{
    if new_total < s.total_credit {
    } else {
        let s1 = rac_step(s, new_total, now);
        assert(s1.total_credit == new_total);
        if s1.expavg_time == 0 {
        } else {
            let e = s1.expavg_credit;
            assert(diff_of(now, now) == 0);
            lemma_weight_bounds(0);
            assert(weight_of(0) == SCALE);
            lemma_div_multiples_vanish(e as int, SCALE as int);
            assert((e as int) * (SCALE as int) == (SCALE as int) * (e as int)) by (nonlinear_arith);
            assert(decayed_part(e, SCALE as int) == e);
            lemma_div_of0(7 * SCALE as int);
            assert(contribution(0, 0, SCALE as int) == 0);
            assert(new_expavg(e, 0, 0) == e);
        }
    }
}

} // verus!
