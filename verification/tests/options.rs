//! Command-line options and the plans that they give.

use ultravec::bench::VariantSet;
use ultravec::cli::{parse_opts, single_bits, validate_option, OptFault, Options};
use ultravec::hnsw::HnswCodec;
use ultravec::ivf::IvfCodec;
use ultravec::plans::{
    dataset_request, parse_backend, parse_command, plan_bench, plan_coldstart, plan_companion,
    plan_diag, plan_hnsw, plan_ivf, plan_recon, plan_stream, rounded_root, Backend, Command,
    PlanError, Protocol, ReconTask,
};
use ultravec::rotation::{rotation_rounds, rotation_seed, rotor_kind, RotorKind};
use ultravec::text::{chars_of, decimal_of, parse_natural, split, trim};

fn args(values: &[&str]) -> Vec<String> {
    values.iter().map(|value| (*value).to_string()).collect()
}

fn opts(values: &[&str]) -> Options {
    parse_opts(&args(values)).unwrap()
}

fn fault(values: &[&str]) -> (OptFault, usize) {
    match parse_opts(&args(values)) {
        Ok(_) => panic!("accepted"),
        Err(e) => (e.fault, e.at),
    }
}

#[test]
fn strict_parser_accepts_known_options() {
    let parsed = parse_opts(&args(&[
        "--dataset",
        "data.fvecs",
        "--bits",
        "1,2,4",
        "--sota3",
    ]))
    .unwrap();
    assert_eq!(parsed.get("bits").unwrap(), "1,2,4");
    assert_eq!(parsed.get("sota3").unwrap(), "true");
}

#[test]
fn strict_parser_accepts_fit_path_and_reconstruction_backends() {
    let parsed = parse_opts(&args(&[
        "--backend",
        "dehub",
        "--fit",
        "data/base.fvecs",
        "--dataset",
        "data/query.fvecs",
    ]))
    .unwrap();
    assert_eq!(parsed.get("fit").unwrap(), "data/base.fvecs");

    for backend in [
        "trellis",
        "trellis-lr",
        "rabitq",
        "pvq",
        "baseline",
        "blockquant",
        "pq",
        "ultraquant",
        "dehub",
    ] {
        assert!(parse_opts(&args(&["--backend", backend])).is_ok());
    }
}

#[test]
fn strict_parser_rejects_unknown_missing_and_invalid_options() {
    assert!(parse_opts(&args(&["--unknown", "x"])).is_err());
    assert!(parse_opts(&args(&["--dataset"])).is_err());
    assert!(parse_opts(&args(&["orphan"])).is_err());
    assert!(parse_opts(&args(&["--bits", "0"])).is_err());
    assert!(parse_opts(&args(&["--seed", "not-a-number"])).is_err());
}

#[test]
fn every_fault_is_told_with_its_place() {
    assert_eq!(fault(&["--sota3", "orphan"]), (OptFault::Positional, 1));
    assert_eq!(fault(&["--bits", "2", "--bits", "3"]), (OptFault::Duplicate, 2));
    assert_eq!(fault(&["--unknown", "x"]), (OptFault::Unknown, 0));
    assert_eq!(fault(&["--sota", "--dataset"]), (OptFault::MissingValue, 1));
    assert_eq!(fault(&["--dataset", "--bits"]), (OptFault::MissingValue, 0));
    assert_eq!(fault(&["--seed", "x"]), (OptFault::NotANumber, 0));
    assert_eq!(fault(&["--nprobe", ""]), (OptFault::EmptyList, 0));
    assert_eq!(fault(&["--nprobe", "1,x"]), (OptFault::NotAList, 0));
    assert_eq!(fault(&["--bits", "two"]), (OptFault::NotBits, 0));
    assert_eq!(fault(&["--bits", "17"]), (OptFault::BitsOutOfRange, 0));
    assert_eq!(fault(&["--metric", "l2"]), (OptFault::Metric, 0));
    assert_eq!(fault(&["--backend", "other"]), (OptFault::Backend, 0));
    assert_eq!(fault(&["--dataset", ""]), (OptFault::EmptyValue, 0));
}

#[test]
fn a_valid_value_is_accepted() {
    assert_eq!(validate_option("metric", "cosine"), Ok(()));
    assert_eq!(validate_option("nprobe", " 1, 2 ,4"), Ok(()));
    assert_eq!(validate_option("bits", "1, 16"), Ok(()));
}

#[test]
fn one_bit_width_is_read_from_bits() {
    assert_eq!(single_bits(&opts(&[]), 2), Ok(2));
    assert_eq!(single_bits(&opts(&["--bits", " 3 "]), 2), Ok(3));
    assert_eq!(single_bits(&opts(&["--bits", "1,2"]), 2), Err(OptFault::NotBits));
}

#[test]
fn numbers_are_read_and_written_in_decimal() {
    assert_eq!(decimal_of(0), "0");
    assert_eq!(decimal_of(18_446_744_073_709_551_615), "18446744073709551615");
    assert_eq!(parse_natural(&chars_of("+12"), 12), Some(12));
    assert_eq!(parse_natural(&chars_of("13"), 12), None);
    assert_eq!(parse_natural(&chars_of("1 "), 12), None);
    assert_eq!(parse_natural(&chars_of(""), 12), None);
    assert_eq!(parse_natural(&chars_of(&decimal_of(907)), 1000), Some(907));
    assert_eq!(trim(&chars_of("\t a b\n")), chars_of("a b"));
    assert_eq!(
        split(&chars_of("a,,b"), ','),
        vec![chars_of("a"), chars_of(""), chars_of("b")]
    );
}

#[test]
fn rotation_seed_defaults_to_the_value_the_evidence_was_recorded_at() {
    assert_eq!(rotation_seed(None), 42);
}

#[test]
fn rotation_settings_fall_back_to_their_defaults() {
    assert_eq!(rotation_seed(Some("7")), 7);
    assert_eq!(rotation_seed(Some("seven")), 42);
    assert_eq!(rotation_rounds(None), 3);
    assert_eq!(rotation_rounds(Some("4")), 4);
    assert_eq!(rotor_kind(Some("pca"), 10), RotorKind::Pca);
    assert_eq!(rotor_kind(Some("pca"), 0), RotorKind::Hadamard);
    assert_eq!(rotor_kind(Some("itq"), 10), RotorKind::Itq);
    assert_eq!(rotor_kind(None, 10), RotorKind::Hadamard);
}

#[test]
fn commands_are_known_by_name() {
    assert_eq!(parse_command("bench"), Some(Command::Bench));
    assert_eq!(parse_command("companion"), Some(Command::Companion));
    assert_eq!(parse_command("-h"), Some(Command::Help));
    assert_eq!(parse_command("train"), None);
    assert_eq!(parse_backend("dehub"), Some(Backend::Dehub));
    assert_eq!(parse_backend("other"), None);
}

#[test]
fn a_dataset_is_asked_for_by_path() {
    let d = dataset_request(&opts(&["--dataset", "a.fvecs", "--max", "9"])).unwrap();
    assert_eq!(d.path, "a.fvecs");
    assert_eq!(d.max, 9);
    assert_eq!(dataset_request(&opts(&[])).err(), Some(PlanError::NoDataset));
}

#[test]
fn a_bench_plan_has_its_defaults() {
    let p = plan_bench(&opts(&["--dataset", "a.fvecs"])).unwrap();
    assert_eq!(p.bits, vec![5]);
    assert_eq!(p.n_queries, 150);
    assert_eq!(p.seed, 42);
    assert_eq!(p.set, VariantSet::Full);
    assert_eq!(p.protocol, Protocol::Split);
    assert_eq!(p.query_max, 0);
}

#[test]
fn a_bench_plan_takes_the_first_selected_set_and_protocol() {
    let p = plan_bench(&opts(&[
        "--dataset", "a", "--bits", "1,2,4", "--pq", "--sota3", "--metric", "ip", "--query-file",
        "q", "--query-max", "10",
    ]))
    .unwrap();
    assert_eq!(p.bits, vec![1, 2, 4]);
    assert_eq!(p.set, VariantSet::Sota3);
    assert_eq!(p.protocol, Protocol::IpExternal);
    assert_eq!(p.query_max, 10);
    let gold = plan_bench(&opts(&["--dataset", "a", "--gold-file", "g"]));
    assert_eq!(gold.err(), Some(PlanError::NoQueryFile));
    assert_eq!(plan_bench(&opts(&[])).err(), Some(PlanError::NoDataset));
}

#[test]
fn an_ivf_plan_has_its_defaults() {
    let p = plan_ivf(&opts(&["--dataset", "a", "--query-file", "q"]), 1000).unwrap();
    assert_eq!(p.bits, 2);
    assert_eq!(p.reps, 3);
    assert_eq!(p.nlist, 32);
    assert_eq!(p.nprobes, vec![1, 2, 4, 8, 16, 32, 64, 128]);
    assert_eq!(
        p.codecs,
        vec![
            IvfCodec::Baseline,
            IvfCodec::Rabitq,
            IvfCodec::TrellisRecon,
            IvfCodec::TrellisCodes,
            IvfCodec::Pvq,
            IvfCodec::TrellisShortlist { c: 256, asym: true, rnorm: true },
        ]
    );
    assert!(p.rerank.is_none());
    assert_eq!(p.rerank_probe, 1);
}

#[test]
fn an_ivf_plan_lists_one_shortlist_codec_per_size() {
    let p = plan_ivf(
        &opts(&[
            "--dataset", "a", "--query-file", "q", "--codecs", "pvq,trellis-shortlist,nothing",
            "--shortlist", "128,0,512", "--shortlist-scorer", "ham", "--shortlist-rnorm", "0",
            "--nlist", "1", "--rerank", "0,50", "--nprobe", "4,8",
        ]),
        10,
    )
    .unwrap();
    assert_eq!(p.nlist, 2);
    assert_eq!(
        p.codecs,
        vec![
            IvfCodec::Pvq,
            IvfCodec::TrellisShortlist { c: 128, asym: false, rnorm: false },
            IvfCodec::TrellisShortlist { c: 512, asym: false, rnorm: false },
        ]
    );
    assert_eq!(p.rerank, Some(vec![0, 50]));
    assert_eq!(p.rerank_probe, 4);
}

#[test]
fn an_ivf_plan_tells_what_is_missing() {
    let none = plan_ivf(&opts(&["--dataset", "a", "--codecs", "x", "--query-file", "q"]), 10);
    assert_eq!(none.err(), Some(PlanError::NoCodecs));
    let no_queries = plan_ivf(&opts(&["--dataset", "a"]), 10);
    assert_eq!(no_queries.err(), Some(PlanError::NoQueryFile));
    let list = plan_ivf(&opts(&["--dataset", "a", "--bits", "1,2"]), 10);
    assert_eq!(list.err(), Some(PlanError::Bits));
}

#[test]
fn the_rounded_root_rounds_to_nearest() {
    assert_eq!(rounded_root(0), 0);
    assert_eq!(rounded_root(2), 1);
    assert_eq!(rounded_root(3), 2);
    assert_eq!(rounded_root(1_000_000), 1000);
    for n in [5u64, 6, 7, 12, 13, 99_999, 123_456_789] {
        assert_eq!(rounded_root(n), (n as f64).sqrt().round() as u64);
    }
}

#[test]
fn a_graph_plan_has_its_defaults() {
    let p = plan_hnsw(&opts(&["--dataset", "a", "--query-file", "q"])).unwrap();
    assert_eq!((p.m, p.ef_construction), (16, 200));
    assert_eq!(p.efs, vec![16, 32, 64, 128, 256]);
    assert_eq!(p.codecs.len(), 5);
    assert_eq!(p.codecs[0], HnswCodec::Fp32);
    let named = plan_hnsw(&opts(&[
        "--dataset", "a", "--query-file", "q", "--codecs", "trellis-codes-only, baseline",
    ]))
    .unwrap();
    assert_eq!(named.codecs, vec![HnswCodec::TrellisCodesOnly, HnswCodec::Baseline]);
}

#[test]
fn sweep_plans_have_their_defaults() {
    let o = opts(&["--dataset", "a", "--query-file", "q"]);
    assert_eq!(
        plan_coldstart(&o).unwrap().sizes,
        vec![64, 128, 256, 512, 1000, 2000, 5000, 20000, 0]
    );
    assert_eq!(plan_companion(&o).unwrap().sizes, vec![50, 100, 200, 500, 1000, 2000]);
    let s = plan_stream(&o).unwrap();
    assert_eq!((s.groups, s.window, s.graph), (10, None, None));
    let g = plan_stream(&opts(&[
        "--dataset", "a", "--query-file", "q", "--graph", "--window", "3", "--m", "8",
    ]))
    .unwrap();
    assert_eq!((g.window, g.graph), (Some(3), Some((8, 64))));
    let d = plan_diag(&o).unwrap();
    assert_eq!((d.sample_db, d.sample_q, d.n_queries), (1000, 100, 200));
    assert_eq!(d.query_max, Some(100));
}

#[test]
fn a_reconstruction_plan_needs_an_output() {
    let o = opts(&["--dataset", "a"]);
    assert_eq!(plan_recon(&o).err(), Some(PlanError::NoOutput));
    let timed = plan_recon(&opts(&["--dataset", "a", "--decode-bench", "5"])).unwrap();
    assert_eq!(timed.task, ReconTask::DecodeBench { rounds: 5 });
    let p = plan_recon(&opts(&[
        "--dataset", "a", "--out", "b", "--backend", "dehub", "--budget-bytes", "34",
    ]))
    .unwrap();
    assert_eq!(p.bits, 2);
    assert_eq!(p.task, ReconTask::Write { backend: Backend::Dehub, budget: Some(34) });
}
