use fath2boinc::pipeline::run;
use fath2boinc::pipeline::RunError;

const CPID: &str = "0123456789abcdef0123456789abcdef";
const CPID2: &str = "ffffffffffffffffffffffffffffffff";

#[test]
fn first_observation_from_empty() {
    let summary = format!("team_GRC_{}\t100.0\tx\ty\n", CPID);
    let out = run(None, &summary, 1_000_000_000).unwrap();
    assert_eq!(out.loaded, 0);
    assert_eq!(out.merged, 1);
    assert_eq!(
        out.checkpoint_csv,
        format!("100.00000000,0.00000000,1000000000.00000000,{}\n", CPID)
    );
    let xml = format!(
        "<user>\n<total_credit>100.00000000</total_credit>\n<expavg_credit>0.00000000</expavg_credit>\n<expavg_time>1000000000.00000000</expavg_time>\n<cpid>{}</cpid>\n</user>\n",
        CPID
    );
    assert_eq!(out.boinc_xml, xml);
}

#[test]
fn second_observation_one_day_later() {
    let checkpoint = format!("100.00000000,0.00000000,1000000000.00000000,{}\n", CPID);
    let summary = format!("team_GRC_{}\t200.0\tx\ty\n", CPID);
    let out = run(Some(&checkpoint), &summary, 1_000_086_400).unwrap();
    assert_eq!(out.loaded, 1);
    assert_eq!(out.merged, 1);
    assert_eq!(
        out.checkpoint_csv,
        format!("200.00000000,9.42763200,1000086400.00000000,{}\n", CPID)
    );
}

#[test]
fn one_second_interval() {
    let checkpoint = format!("0.00000000,10.00000000,1000000000.00000000,{}\n", CPID);
    let summary = format!("team_GRC_{}\t1.0\tx\ty\n", CPID);
    let out = run(Some(&checkpoint), &summary, 1_000_000_001).unwrap();
    assert_eq!(
        out.checkpoint_csv,
        format!("1.00000000,10.09848460,1000000001.00000000,{}\n", CPID)
    );
}

#[test]
fn negative_work_leaves_record_verbatim() {
    let checkpoint = format!("500.00000000,7.00000000,1000000000.00000000,{}\n", CPID);
    let summary = format!("team_GRC_{}\t400.0\tx\ty\n", CPID);
    let out = run(Some(&checkpoint), &summary, 1_000_086_400).unwrap();
    assert_eq!(out.checkpoint_csv, checkpoint);
}

#[test]
fn summary_filtering_keeps_only_well_formed_rows() {
    let summary = format!(
        "team_ABC_{}\t10.0\tx\ty\nshort_{}\t20.0\tx\ty\nname\t0\t0\t0\nteam_GRC_notahexstring00000000000000000\t30.0\tx\ty\nteam_GRC_{}\t40.0\tx\ty\n",
        CPID, CPID, CPID
    );
    let out = run(None, &summary, 1_000_000_000).unwrap();
    assert_eq!(out.merged, 1);
    assert_eq!(
        out.checkpoint_csv,
        format!("40.00000000,0.00000000,1000000000.00000000,{}\n", CPID)
    );
}

#[test]
fn rows_sharing_a_cpid_are_summed_first() {
    let summary = format!(
        "alpha_GRC_{}\t30.0\tx\ty\nbeta_GRC_{}\t70.0\tx\ty\n",
        CPID, CPID
    );
    let out = run(None, &summary, 1_000_000_000).unwrap();
    assert_eq!(out.merged, 1);
    assert_eq!(
        out.checkpoint_csv,
        format!("100.00000000,0.00000000,1000000000.00000000,{}\n", CPID)
    );
}

#[test]
fn reordering_rows_of_one_cpid_gives_the_same_output() {
    let forward = format!(
        "alpha_GRC_{}\t30.0\tx\ty\nbeta_GRC_{}\t70.0\tx\ty\n",
        CPID, CPID
    );
    let backward = format!(
        "beta_GRC_{}\t70.0\tx\ty\nalpha_GRC_{}\t30.0\tx\ty\n",
        CPID, CPID
    );
    let a = run(None, &forward, 1_000_000_000).unwrap();
    let b = run(None, &backward, 1_000_000_000).unwrap();
    assert_eq!(a.checkpoint_csv, b.checkpoint_csv);
    assert_eq!(a.boinc_xml, b.boinc_xml);
}

#[test]
fn name_sanitisation_strips_injection_characters() {
    let summary = format!("bad,<guy>_GRC_{}\t5.0\tx\ty\n", CPID);
    let out = run(None, &summary, 1_000_000_000).unwrap();
    assert_eq!(out.merged, 1);
    assert_eq!(
        out.checkpoint_csv,
        format!("5.00000000,0.00000000,1000000000.00000000,{}\n", CPID)
    );
}

#[test]
fn replaying_a_run_changes_nothing() {
    let summary = format!(
        "team_GRC_{}\t123.456\tx\ty\nother_GRC_{}\t7.5\tx\ty\n",
        CPID, CPID2
    );
    let first = run(None, &summary, 1_000_086_400).unwrap();
    let second = run(Some(&first.checkpoint_csv), &summary, 1_000_086_400).unwrap();
    assert_eq!(second.checkpoint_csv, first.checkpoint_csv);
    assert_eq!(second.boinc_xml, first.boinc_xml);
}

#[test]
fn stored_checkpoint_loads_back_unchanged() {
    let summary = format!(
        "team_GRC_{}\t123.456\tx\ty\nother_GRC_{}\t7.5\tx\ty\n",
        CPID, CPID2
    );
    let first = run(None, &summary, 1_000_086_400).unwrap();
    let empty = String::new();
    let reloaded = run(Some(&first.checkpoint_csv), &empty, 1_000_172_800).unwrap();
    assert_eq!(reloaded.loaded, 2);
    assert_eq!(reloaded.merged, 0);
    assert_eq!(reloaded.checkpoint_csv, first.checkpoint_csv);
}

#[test]
fn duplicate_checkpoint_cpid_last_wins() {
    let checkpoint = format!(
        "1.00000000,0.00000000,0.00000000,{}\n2.00000000,0.00000000,0.00000000,{}\n",
        CPID, CPID
    );
    let empty = String::new();
    let out = run(Some(&checkpoint), &empty, 1_000_000_000).unwrap();
    assert_eq!(out.loaded, 1);
    assert_eq!(
        out.checkpoint_csv,
        format!("2.00000000,0.00000000,0.00000000,{}\n", CPID)
    );
}

#[test]
fn malformed_checkpoint_line_is_fatal() {
    let good = format!("1.00000000,0.00000000,0.00000000,{}\n", CPID);
    let empty = String::new();
    let bad_cases = [
        String::from("garbage\n"),
        format!("1.0,2.0,{}\n", CPID),
        format!("1.0,2.0,3.0,4.0,{}\n", CPID),
        String::from("1.0,2.0,3.0,nothexnothexnothexnothexnothexno\n"),
        format!("1.0,x,3.0,{}\n", CPID),
    ];
    for bad in bad_cases.iter() {
        let checkpoint = format!("{}{}", good, bad);
        let r = run(Some(&checkpoint), &empty, 1_000_000_000);
        assert_eq!(r.unwrap_err(), RunError::BadCheckpointLine { line: 1 });
    }
}

#[test]
fn unparseable_summary_credit_is_fatal() {
    let summary = format!("team_GRC_{}\tnotanumber\tx\ty\n", CPID);
    let r = run(None, &summary, 1_000_000_000);
    assert_eq!(r.unwrap_err(), RunError::BadSummaryLine { line: 0 });
}

#[test]
fn summary_rows_failing_shape_are_not_fatal() {
    let summary = String::from("just_some_text\nname\t0\t0\t0\n");
    let out = run(None, &summary, 1_000_000_000).unwrap();
    assert_eq!(out.merged, 0);
    assert_eq!(out.checkpoint_csv, "");
    assert_eq!(out.boinc_xml, "");
}

#[test]
fn crlf_lines_are_accepted() {
    let checkpoint = format!("1.00000000,0.00000000,0.00000000,{}\r\n", CPID);
    let empty = String::new();
    let out = run(Some(&checkpoint), &empty, 1_000_000_000).unwrap();
    assert_eq!(out.loaded, 1);
    assert_eq!(
        out.checkpoint_csv,
        format!("1.00000000,0.00000000,0.00000000,{}\n", CPID)
    );
}
