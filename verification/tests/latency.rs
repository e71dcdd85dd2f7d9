use core_to_core_latency::args::CliArgs;
use core_to_core_latency::arithmetic::Arithmetic;
use core_to_core_latency::bench::cas;
use core_to_core_latency::bench::csv_output::{
    created_message, csv_path, failed_message, per_address_line, PerAddressRow,
};
use core_to_core_latency::bench::record::RecordError;
use core_to_core_latency::bench::sweep::{run_bench, PairRecord, Step, Sweep};
use core_to_core_latency::bench::{Bench, Count, Stats};
use core_to_core_latency::cores::CoreId;
use core_to_core_latency::double::Double;
use std::cell::Cell;

struct Floats;

fn d(x: f64) -> Double {
    Double { bits: x.to_bits() }
}

fn f(x: Double) -> f64 {
    f64::from_bits(x.bits)
}

fn floats(values: &[Double]) -> Vec<f64> {
    values.iter().map(|v| f(*v)).collect()
}

fn doubles(values: &[f64]) -> Vec<Double> {
    values.iter().map(|v| d(*v)).collect()
}

impl Arithmetic for Floats {
    fn plus(&self, a: Double, b: Double) -> Double {
        d(f(a) + f(b))
    }
    fn times(&self, a: Double, b: Double) -> Double {
        d(f(a) * f(b))
    }
    fn over(&self, a: Double, b: Double) -> Double {
        d(f(a) / f(b))
    }
    fn square_root(&self, a: Double) -> Double {
        d(f(a).sqrt())
    }
    fn from_count(&self, n: u128) -> Double {
        d(n as f64)
    }
    fn sum(&self, values: &[Double]) -> Double {
        d(floats(values).iter().sum::<f64>())
    }
    fn mean(&self, values: &[Double]) -> Double {
        d(ndarray::arr1(&floats(values)).mean().unwrap())
    }
    fn std_dev(&self, values: &[Double]) -> Double {
        d(ndarray::arr1(&floats(values)).std(1.0))
    }
    fn fixed(&self, a: Double, decimals: usize) -> String {
        format!("{:.*}", decimals, f(a))
    }
}

/// A benchmark whose latencies depend on the cores alone.
struct Fixed {
    symmetric: bool,
    addresses: usize,
    ptrs: Vec<usize>,
    numa: usize,
}

impl Bench for Fixed {
    fn run(&self, cores: (CoreId, CoreId), num_iterations: Count, num_samples: Count) -> Vec<Vec<Double>> {
        assert_eq!(num_iterations, 7);
        (0..self.addresses)
            .map(|a| {
                let base = (10 * cores.0.id + cores.1.id + 100 * a) as f64;
                (0..num_samples)
                    .map(|s| if s == 0 { d(1e9) } else { d(base + 10.0 * s as f64) })
                    .collect()
            })
            .collect()
    }
    fn is_symmetric(&self) -> bool {
        self.symmetric
    }
    fn num_addresses(&self) -> usize {
        self.addresses
    }
    fn address_ptrs(&self) -> Vec<usize> {
        self.ptrs.clone()
    }
    fn mem_numa(&self) -> usize {
        self.numa
    }
}

struct Plain;

impl Bench for Plain {
    fn run(&self, _: (CoreId, CoreId), _: Count, _: Count) -> Vec<Vec<Double>> {
        vec![]
    }
}

fn args(num_samples: Count, csv: bool) -> CliArgs {
    let mut args = CliArgs::default();
    args.num_iterations = 7;
    args.num_samples = num_samples;
    args.csv = csv;
    args
}

fn cores(ids: &[usize]) -> Vec<CoreId> {
    ids.iter().map(|&id| CoreId { id }).collect()
}

/// Performs all steps of a run; returns what is printed and the pairs measured.
fn perform(run: &mut Sweep, bench: &Fixed) -> (String, Vec<(usize, usize)>) {
    let mut text = run.header_text();
    let mut pairs = Vec::new();
    loop {
        match run.step(bench) {
            Step::Print(t) => text.push_str(&t),
            Step::Skip => {}
            Step::Measure => {
                let before = format!("{:?}", run.cursor);
                let digits: Vec<usize> = before
                    .split(|c: char| !c.is_ascii_digit())
                    .filter(|s| !s.is_empty())
                    .map(|s| s.parse().unwrap())
                    .collect();
                pairs.push((digits[0], digits[1]));
                text.push_str(&run.measure(bench, &Floats).unwrap());
            }
            Step::Done => return (text, pairs),
        }
    }
}

fn header(ids: &[usize]) -> String {
    let mut text = format!("    {: >3}", "");
    for id in ids {
        text.push_str(&format!(" {: >4}{: >4}", id, ""));
    }
    text
}

#[test]
fn stats_of_an_even_sample() {
    let s = Stats::compute(&doubles(&[4.0, 1.0, 3.0, 2.0]), &Floats).unwrap();
    assert_eq!(f(s.mean), 2.5);
    assert_eq!(f(s.median), 2.5);
    assert_eq!(f(s.min), 1.0);
    assert_eq!(f(s.max), 4.0);
    let std = (5.0f64 / 3.0).sqrt();
    assert!((f(s.cv_percent) - std / 2.5 * 100.0).abs() < 1e-9);
}

#[test]
fn stats_of_an_odd_sample_with_nan() {
    let s = Stats::compute(&doubles(&[f64::NAN, 9.0, 1.0, f64::NAN, 5.0]), &Floats).unwrap();
    assert_eq!(f(s.mean), 5.0);
    assert_eq!(f(s.median), 5.0);
    assert_eq!(f(s.min), 1.0);
    assert_eq!(f(s.max), 9.0);
    assert_eq!(f(s.cv_percent), 80.0);
}

#[test]
fn stats_of_one_number() {
    let s = Stats::compute(&doubles(&[7.5]), &Floats).unwrap();
    assert_eq!(floats(&[s.mean, s.median, s.min, s.max, s.cv_percent]), vec![7.5, 7.5, 7.5, 7.5, 0.0]);
}

#[test]
fn no_stats_without_numbers() {
    assert!(Stats::compute(&[], &Floats).is_none());
    assert!(Stats::compute(&doubles(&[f64::NAN, f64::NAN]), &Floats).is_none());
}

#[test]
fn variation_is_zero_without_a_positive_mean() {
    assert_eq!(f(Stats::compute(&doubles(&[-1.0, -3.0]), &Floats).unwrap().cv_percent), 0.0);
    assert_eq!(f(Stats::compute(&doubles(&[-1.0, 1.0]), &Floats).unwrap().cv_percent), 0.0);
}

#[test]
fn first_least_and_last_greatest() {
    let s = Stats::compute(&doubles(&[0.0, -0.0]), &Floats).unwrap();
    assert_eq!(s.min, d(0.0));
    assert_eq!(s.max, d(-0.0));
    let s = Stats::compute(&doubles(&[-0.0, 0.0, -0.0]), &Floats).unwrap();
    assert_eq!(s.min, d(-0.0));
    assert_eq!(s.median, d(0.0));
    assert_eq!(s.max, d(-0.0));
}

#[test]
fn methods_of_a_benchmark_by_default() {
    assert!(Plain.is_symmetric());
    assert_eq!(Plain.num_addresses(), 1);
    assert!(Plain.address_ptrs().is_empty());
    assert_eq!(Plain.mem_numa(), 0);
}

#[test]
fn symmetric_run() {
    let bench = Fixed { symmetric: true, addresses: 1, ptrs: vec![], numa: 0 };
    let mut run = run_bench(cores(&[0, 1, 12]), &args(2, false), &bench);
    let (text, pairs) = perform(&mut run, &bench);
    assert_eq!(pairs, vec![(1, 0), (2, 0), (2, 1)]);
    let cell = |mean: &str, dev: &str| format!(" \u{1b}[1;37m{}\u{1b}[0m\u{1b}[2;37m+-{}\u{1b}[0m", mean, dev);
    let expected = format!(
        "{}\n      0\n      1{}\n     12{}{}\n",
        header(&[0, 1, 12]),
        cell("  25", "5 "),
        cell(" 135", "5 "),
        cell(" 136", "5 ")
    );
    assert_eq!(text, expected);
    assert_eq!(run.running_count, 6);
    assert_eq!(f(run.running_sum), 20.0 + 30.0 + 130.0 + 140.0 + 131.0 + 141.0);
    assert!(run.per_address_rows.is_empty());
    assert!(run.matrix_csv(&Floats).is_none());
    assert!(run.csv_files("report", "cas", &Floats).is_none());
    let bold = |s: &str| format!("\u{1b}[1;37m{}\u{1b}[0m", s);
    let dim = |s: &str| format!("\u{1b}[2;37m{}\u{1b}[0m", s);
    assert_eq!(
        run.report(&Floats),
        format!(
            "\n    {} (robust to outliers):\n      Min  latency: {}ns cores: (1,0)\n      Max  latency: {}ns cores: (12,1)\n    {} (sensitive to outliers):\n      Min  latency: {}ns cores: (1,0)\n      Max  latency: {}ns cores: (12,1)\n    Overall mean latency: {}ns\n",
            dim("Median-based stats"),
            bold("25.0"),
            bold("136.0"),
            dim("Mean-based stats"),
            bold("25.0"),
            bold("136.0"),
            bold("98.7")
        )
    );
    match run.step(&bench) {
        Step::Done => {}
        _ => panic!("the run goes on"),
    }
}

#[test]
fn run_in_both_orders_with_tables() {
    let bench = Fixed { symmetric: false, addresses: 2, ptrs: vec![0xbeef], numa: 3 };
    let mut run = run_bench(cores(&[4, 5]), &args(1, true), &bench);
    let (text, pairs) = perform(&mut run, &bench);
    assert_eq!(pairs, vec![(0, 1), (1, 0)]);
    let cell = |mean: &str| format!(" \u{1b}[1;37m{}\u{1b}[0m\u{1b}[2;37m+-99\u{1b}[0m", mean);
    assert_eq!(
        text,
        format!(
            "{}\n      4         {}\n      5{}         \n",
            header(&[4, 5]),
            cell(" 105"),
            cell(" 114")
        )
    );
    let (addresses, pairs) = run.csv_files("out/report", "cas", &Floats).unwrap();
    assert_eq!(addresses.path, "out/report.cas.per_address.csv");
    assert_eq!(
        addresses.text,
        "ping_core,pong_core,ping_numa,pong_numa,mem_numa,address,vaddr,mean_latency,median_latency,min_latency,max_latency,cv_percent\n\
         4,5,0,0,3,0,0xbeef,55.00,55.00,55.00,55.00,0.00\n\
         4,5,0,0,3,1,0x0,155.00,155.00,155.00,155.00,0.00\n\
         5,4,0,0,3,0,0xbeef,64.00,64.00,64.00,64.00,0.00\n\
         5,4,0,0,3,1,0x0,164.00,164.00,164.00,164.00,0.00\n"
    );
    assert_eq!(pairs.path, "out/report.cas.summary.csv");
    assert_eq!(
        pairs.text,
        "ping_core,pong_core,ping_numa,pong_numa,mem_numa,mean_of_means,mean_of_medians,min_latency,max_latency,cv_percent\n\
         4,5,0,0,3,105.00,105.00,55.00,155.00,67.34\n\
         5,4,0,0,3,114.00,114.00,64.00,164.00,62.03\n"
    );
    assert_eq!(run.matrix_csv(&Floats).unwrap(), ",4,5\n4,,105.0\n5,114.0,\n");
}

#[test]
fn matrix_of_a_symmetric_run_is_mirrored() {
    let bench = Fixed { symmetric: true, addresses: 1, ptrs: vec![], numa: 0 };
    let mut run = run_bench(cores(&[0, 1, 2]), &args(1, true), &bench);
    perform(&mut run, &bench);
    assert_eq!(
        run.matrix_csv(&Floats).unwrap(),
        ",0,1,2\n0,,20.0,30.0\n1,20.0,,31.0\n2,30.0,31.0,\n"
    );
    assert_eq!(run.per_pair_summaries.len(), 3);
}

#[test]
fn every_pair_is_measured_once() {
    for n in 2..8usize {
        for symmetric in [true, false] {
            let ids: Vec<usize> = (0..n).collect();
            let bench = Fixed { symmetric, addresses: 1, ptrs: vec![], numa: 0 };
            let mut run = run_bench(cores(&ids), &args(1, false), &bench);
            let (_, pairs) = perform(&mut run, &bench);
            let count = if symmetric { n * (n - 1) / 2 } else { n * (n - 1) };
            assert_eq!(pairs.len(), count);
            for i in 0..n {
                for j in 0..n {
                    let times = pairs.iter().filter(|p| **p == (i, j)).count();
                    let expected = if symmetric { j < i } else { i != j };
                    assert_eq!(times, expected as usize);
                }
            }
        }
    }
}

/// A run that stands at its first pair.
fn at_first_pair(num_samples: Count, addresses: usize) -> Sweep {
    let bench = Fixed { symmetric: true, addresses, ptrs: vec![], numa: 0 };
    let mut run = run_bench(cores(&[0, 1]), &args(num_samples, true), &bench);
    loop {
        match run.step(&bench) {
            Step::Measure => return run,
            Step::Done => panic!("no pair"),
            _ => {}
        }
    }
}

#[test]
fn durations_that_do_not_fit_are_rejected() {
    let mut run = at_first_pair(2, 2);
    let row = doubles(&[1.0, 2.0, 3.0]);
    assert_eq!(run.record(&vec![], &Plain, &Floats), Err(RecordError::Shape { address: 0 }));
    assert_eq!(run.record(&vec![row.clone()], &Plain, &Floats), Err(RecordError::Shape { address: 1 }));
    assert_eq!(
        run.record(&vec![row.clone(), vec![]], &Plain, &Floats),
        Err(RecordError::Shape { address: 1 })
    );
    assert_eq!(
        run.record(&vec![doubles(&[1.0, 2.0, 3.0, 4.0]), row.clone()], &Plain, &Floats),
        Err(RecordError::Shape { address: 0 })
    );
    assert_eq!(run.running_count, 0);
    assert!(run.record(&vec![row.clone(), row], &Plain, &Floats).is_ok());
    assert_eq!(run.running_count, 4);
}

#[test]
fn too_many_samples_to_count_are_rejected() {
    let mut run = at_first_pair(2, 1);
    run.running_count = u64::MAX - 1;
    let row = doubles(&[1.0, 2.0, 3.0]);
    assert_eq!(run.record(&vec![row], &Plain, &Floats), Err(RecordError::Overflow));
    assert_eq!(run.running_count, u64::MAX - 1);
    assert!(run.record(&vec![doubles(&[1.0, 2.0])], &Plain, &Floats).is_ok());
    assert_eq!(run.running_count, u64::MAX);
}

#[test]
fn pair_without_numbers_leaves_no_trace_in_the_tables() {
    let mut run = at_first_pair(2, 1);
    let text = run.record(&vec![doubles(&[1.0, f64::NAN, f64::NAN])], &Plain, &Floats).unwrap();
    assert_eq!(text, " \u{1b}[1;37m NaN\u{1b}[0m\u{1b}[2;37m+-70\u{1b}[0m");
    assert!(run.per_address_rows.is_empty());
    assert!(run.per_pair_summaries.is_empty());
    assert!(run.min_latency_by_mean.is_none());
    assert_eq!(run.running_count, 2);
    assert_eq!(run.matrix_csv(&Floats).unwrap(), ",0,1\n0,,\n1,,\n");
}

#[test]
fn address_with_fewer_samples_counts_for_those_it_has() {
    let mut run = at_first_pair(2, 2);
    let text = run
        .record(&vec![doubles(&[0.0, 10.0, 20.0]), doubles(&[0.0, 30.0])], &Plain, &Floats)
        .unwrap();
    // The averages are 10 / 2 + 30 / 2 and 20 / 2.
    assert_eq!(text, " \u{1b}[1;37m  15\u{1b}[0m\u{1b}[2;37m+-5 \u{1b}[0m");
    assert_eq!(run.running_count, 3);
    assert_eq!(f(run.per_pair_summaries[0].mean_of_means), 22.5);
}

#[test]
fn extremes_keep_the_first_of_equal_latencies() {
    let bench = Fixed { symmetric: true, addresses: 1, ptrs: vec![], numa: 0 };
    let mut run = run_bench(cores(&[0, 1, 2]), &args(1, false), &bench);
    loop {
        match run.step(&bench) {
            Step::Measure => {
                run.record(&vec![doubles(&[0.0, 42.0])], &Plain, &Floats).unwrap();
            }
            Step::Done => break,
            _ => {}
        }
    }
    let least = run.min_latency_by_mean.unwrap();
    let greatest = run.max_latency_by_median.unwrap();
    assert_eq!((least.i, least.j, f(least.value)), (1, 0, 42.0));
    assert_eq!((greatest.i, greatest.j, f(greatest.value)), (1, 0, 42.0));
}

#[test]
fn extremes_keep_a_nan_that_comes_first() {
    let mut run = at_first_pair(2, 1);
    run.record(&vec![doubles(&[0.0, f64::INFINITY, f64::NEG_INFINITY])], &Plain, &Floats).unwrap();
    assert!(f(run.min_latency_by_mean.unwrap().value).is_nan());
    assert!(run.per_pair_summaries.is_empty());
    assert_eq!(run.per_address_rows.len(), 1);
}

#[test]
fn header_of_the_matrix_has_a_field_for_each_core() {
    let bench = Fixed { symmetric: true, addresses: 1, ptrs: vec![], numa: 0 };
    let run = run_bench(cores(&[1, 0, 1]), &args(1, true), &bench);
    assert_eq!(run.matrix_csv(&Floats).unwrap(), ",1,0,1\n1,,,\n0,,,\n1,,,\n");
}

#[test]
fn table_file_names_and_messages() {
    assert_eq!(csv_path("report", "msg_passing", "summary"), "report.msg_passing.summary.csv");
    assert_eq!(created_message("a.csv"), "    Writing CSV: a.csv\n");
    assert_eq!(
        failed_message("a.csv", "no space"),
        "    ERROR: Failed to create a.csv: no space\n"
    );
}

#[test]
fn line_of_an_address() {
    let row = PerAddressRow {
        ping_core: 10,
        pong_core: 2,
        ping_numa: 0,
        pong_numa: 1,
        mem_numa: 2,
        address: 33,
        vaddr: 0x7fff_0040,
        mean: d(1.005),
        median: d(2.0),
        min: d(0.125),
        max: d(1234.5),
        cv_percent: d(f64::NAN),
    };
    assert_eq!(
        per_address_line(&row, &Floats),
        "10,2,0,1,2,33,0x7fff0040,1.00,2.00,0.12,1234.50,NaN\n"
    );
}

#[test]
fn flags_start_at_ping() {
    let bench = cas::Bench::new(3);
    assert_eq!(bench.flags, vec![cas::PING; 3]);
    assert_eq!(bench.num_addresses(), 3);
    assert_eq!(cas::Bench::new(0).num_addresses(), 0);
}

#[test]
fn sides_take_turns() {
    let mut flag = cas::PING;
    let mut order = Vec::new();
    for role in [cas::Role::Ping, cas::Role::Pong, cas::Role::Pong, cas::Role::Ping, cas::Role::Ping] {
        if flag == role.awaited() {
            flag = role.left_behind();
            order.push(role);
        }
    }
    assert_eq!(order, vec![cas::Role::Pong, cas::Role::Ping]);
    assert_eq!(flag, cas::PING);
}

#[test]
fn cas_run_on_recycled_flags() {
    let bench = cas::Bench::new(2);
    let mut run = bench.start(false, CoreId { id: 4 }, CoreId { id: 5 }, 10, 3);
    assert_eq!(run.exchanges(), 30);
    assert_eq!(run.step(), cas::Step::Measure(0));
    run.measured(&[2000, 1000, 10], &Floats);
    assert_eq!(run.step(), cas::Step::Reset(0));
    run.advance();
    assert_eq!(run.step(), cas::Step::Measure(1));
    run.measured(&[20, 40, 60], &Floats);
    assert_eq!(run.step(), cas::Step::Reset(1));
    run.advance();
    assert_eq!(run.step(), cas::Step::Finish);
    let results = run.finish();
    assert_eq!(floats(&results[0]), vec![100.0, 50.0, 0.5]);
    assert_eq!(floats(&results[1]), vec![1.0, 2.0, 3.0]);
}

#[test]
fn cas_run_on_flags_of_its_own() {
    let bench = cas::Bench::new(1);
    let mut run = bench.start(true, CoreId { id: 4 }, CoreId { id: 5 }, 1, 1);
    assert_eq!(run.step(), cas::Step::Pin(CoreId { id: 4 }));
    run.advance();
    assert_eq!(run.step(), cas::Step::MapFlags(64));
    run.advance();
    assert_eq!(run.step(), cas::Step::Measure(0));
    run.measured(&[8], &Floats);
    run.advance();
    assert_eq!(run.step(), cas::Step::Finish);
    assert_eq!(floats(&run.finish()[0]), vec![4.0]);
    let none = cas::Bench::new(0).start(false, CoreId { id: 0 }, CoreId { id: 1 }, 1, 1);
    assert_eq!(none.step(), cas::Step::Finish);
    assert!(none.finish().is_empty());
}

#[test]
fn cells_are_padded_like_floats() {
    for x in [0.0, 0.4, 3.0, 99.6, 12345.6, -3.0, f64::INFINITY] {
        let mut run = at_first_pair(2, 1);
        let text = run.record(&vec![doubles(&[0.0, x, x + 4.0])], &Plain, &Floats).unwrap();
        let samples = ndarray::arr1(&[x, x + 4.0]);
        let mean = format!("{: >4.0}", samples.mean().unwrap());
        let dev = format!("+-{: <2.0}", samples.std(1.0).min(99.0) / 2.0f64.sqrt());
        assert_eq!(
            text,
            format!(" \u{1b}[1;37m{}\u{1b}[0m\u{1b}[2;37m{}\u{1b}[0m", mean, dev)
        );
    }
}

#[test]
fn nans_count_for_nothing() {
    let with = Stats::compute(&doubles(&[f64::NAN, 9.0, 1.0, f64::NAN, 6.0]), &Floats).unwrap();
    let without = Stats::compute(&doubles(&[9.0, 1.0, 6.0]), &Floats).unwrap();
    assert_eq!(with, without);
    assert_eq!(f(with.median), 6.0);
}

#[test]
fn order_of_the_values_does_not_matter() {
    for values in [[1.0, 2.0, 4.0, 8.0], [8.0, 4.0, 2.0, 1.0], [4.0, 1.0, 8.0, 2.0]] {
        let s = Stats::compute(&doubles(&values), &Floats).unwrap();
        assert_eq!((f(s.min), f(s.max), f(s.median)), (1.0, 8.0, 3.0));
    }
    for values in [[-2.0, 0.0, f64::NAN, 5.0], [5.0, f64::NAN, -2.0, -0.0]] {
        let s = Stats::compute(&doubles(&values), &Floats).unwrap();
        assert_eq!((f(s.min), f(s.max), f(s.median)), (-2.0, 5.0, 0.0));
    }
}

#[test]
fn zero_away_from_the_middle_does_not_matter() {
    for values in [[0.0, 3.0, 5.0, 9.0], [9.0, -0.0, 5.0, 3.0], [3.0, 5.0, 1e9, 0.0]] {
        let s = Stats::compute(&doubles(&values), &Floats).unwrap();
        assert_eq!((f(s.min), f(s.median)), (0.0, 4.0));
    }
}

#[test]
fn unit_does_not_matter() {
    let values = [3.0, 1.5, 10.0, 7.25, 2.0];
    for n in 1..=values.len() {
        let s = Stats::compute(&doubles(&values[..n]), &Floats).unwrap();
        for scale in [0.5, 2.0, 1024.0] {
            let scaled: Vec<f64> = values[..n].iter().map(|x| x * scale).collect();
            let t = Stats::compute(&doubles(&scaled), &Floats).unwrap();
            assert_eq!(f(t.min), scale * f(s.min));
            assert_eq!(f(t.max), scale * f(s.max));
            assert_eq!(f(t.median), scale * f(s.median));
            assert_eq!(f(t.mean), scale * f(s.mean));
            assert_eq!(t.cv_percent, s.cv_percent);
        }
    }
}

#[test]
fn one_outlier_does_not_move_the_median() {
    for n in 3..9usize {
        let mut values: Vec<f64> = (0..n).map(|k| (k * k + 1) as f64).collect();
        let before = Stats::compute(&doubles(&values), &Floats).unwrap();
        values[n - 1] = 1e12;
        let after = Stats::compute(&doubles(&values), &Floats).unwrap();
        assert_eq!(after.median, before.median);
        assert_eq!(after.min, before.min);
        assert_eq!(f(after.max), 1e12);
    }
}

#[test]
fn durations_that_warm_up_count_for_nothing() {
    let mut shown = Vec::new();
    for warmup in [0.0, 5.0, 1e30, f64::NAN] {
        let mut run = at_first_pair(2, 2);
        let durations = vec![doubles(&[warmup, 10.0, 20.0]), doubles(&[-warmup, 30.0, 50.0])];
        let text = run.record(&durations, &Plain, &Floats).unwrap();
        assert_eq!(f(run.running_sum), 110.0);
        assert_eq!(run.running_count, 4);
        assert_eq!(run.per_address_rows.len(), 2);
        assert_eq!(f(run.per_address_rows[0].min), 10.0);
        assert_eq!(f(run.per_address_rows[1].max), 50.0);
        assert_eq!(f(run.max_latency_by_mean.unwrap().value), 27.5);
        shown.push(text);
    }
    assert!(shown.iter().all(|t| *t == shown[0]));
    let long = doubles(&[1.0, 2.0, 3.0, 4.0]);
    for warmup in [0.0, f64::NAN] {
        let mut run = at_first_pair(2, 2);
        let durations = vec![doubles(&[warmup, 10.0, 20.0]), long.clone()];
        assert_eq!(run.record(&durations, &Plain, &Floats), Err(RecordError::Shape { address: 1 }));
    }
}

#[test]
fn run_accounts_for_all_pairs_in_both_orders() {
    let bench = Fixed { symmetric: false, addresses: 2, ptrs: vec![64, 128], numa: 1 };
    let mut run = run_bench(cores(&[0, 1, 2]), &args(2, true), &bench);
    assert_eq!(f(run.running_sum), 0.0);
    assert!(run.per_address_rows.is_empty() && run.per_pair_summaries.is_empty());
    assert!(run.legacy_matrix.iter().all(|row| row.iter().all(|x| f(*x).is_nan())));
    let (_, pairs) = perform(&mut run, &bench);
    assert_eq!(pairs, vec![(0, 1), (0, 2), (1, 0), (1, 2), (2, 0), (2, 1)]);
    assert_eq!(run.per_address_rows.len(), 12);
    assert_eq!(run.per_pair_summaries.len(), 6);
    for (k, &(i, j)) in pairs.iter().enumerate() {
        let base = (10 * i + j) as f64;
        for address in 0..2usize {
            let row = run.per_address_rows[2 * k + address];
            assert_eq!((row.ping_core, row.pong_core), (i, j));
            assert_eq!((row.mem_numa, row.address, row.vaddr), (1, address, 64 * (address + 1)));
            assert_eq!(f(row.mean), base + 100.0 * address as f64 + 15.0);
        }
        let summary = run.per_pair_summaries[k];
        assert_eq!((summary.ping_core, summary.pong_core, summary.mem_numa), (i, j, 1));
        assert_eq!(f(summary.mean_of_means), base + 65.0);
        assert_eq!(f(summary.mean_of_medians), base + 65.0);
        assert_eq!((f(summary.min), f(summary.max)), (base + 15.0, base + 115.0));
        assert_eq!(f(run.legacy_matrix[i][j]), base + 65.0);
    }
    let least = run.min_latency_by_mean.unwrap();
    let greatest = run.max_latency_by_mean.unwrap();
    assert_eq!((f(least.value), least.i, least.j), (66.0, 0, 1));
    assert_eq!((f(greatest.value), greatest.i, greatest.j), (86.0, 2, 1));
    assert_eq!(run.min_latency_by_median, run.min_latency_by_mean);
    assert_eq!(run.max_latency_by_median, run.max_latency_by_mean);
    assert_eq!(f(run.running_sum), 1824.0);
    assert_eq!(run.running_count, 24);
}

#[test]
fn run_accounts_for_pairs_with_and_without_numbers() {
    let bench = Fixed { symmetric: true, addresses: 1, ptrs: vec![], numa: 5 };
    let mut run = run_bench(cores(&[0, 1, 2]), &args(3, true), &bench);
    let mut given = vec![
        vec![doubles(&[99.0, 1.0, 2.0, 6.0])],
        vec![doubles(&[99.0, f64::NAN, f64::NAN, f64::NAN])],
        vec![doubles(&[99.0, 2.0, 2.0, 2.0])],
    ]
    .into_iter();
    loop {
        match run.step(&bench) {
            Step::Measure => {
                run.record(&given.next().unwrap(), &bench, &Floats).unwrap();
            }
            Step::Done => break,
            _ => {}
        }
    }
    assert!(given.next().is_none());
    let ids: Vec<(usize, usize)> =
        run.per_address_rows.iter().map(|r| (r.ping_core, r.pong_core)).collect();
    assert_eq!(ids, vec![(1, 0), (2, 1)]);
    assert!(run.per_address_rows.iter().all(|r| r.mem_numa == 5));
    assert_eq!(run.per_pair_summaries.len(), 2);
    assert_eq!(run.per_pair_summaries[1].mem_numa, 5);
    assert_eq!(f(run.per_pair_summaries[0].mean_of_means), 3.0);
    assert_eq!(f(run.per_pair_summaries[0].mean_of_medians), 2.0);
    let of = |e: Option<core_to_core_latency::bench::sweep::Extreme>| {
        let e = e.unwrap();
        (f(e.value), e.i, e.j)
    };
    assert_eq!(of(run.min_latency_by_mean), (2.0, 2, 1));
    assert_eq!(of(run.max_latency_by_mean), (3.0, 1, 0));
    assert_eq!(of(run.min_latency_by_median), (2.0, 1, 0));
    assert_eq!(of(run.max_latency_by_median), (2.0, 1, 0));
    assert_eq!((f(run.legacy_matrix[1][0]), f(run.legacy_matrix[0][1])), (3.0, 3.0));
    assert_eq!((f(run.legacy_matrix[2][1]), f(run.legacy_matrix[1][2])), (2.0, 2.0));
    assert!(f(run.legacy_matrix[2][0]).is_nan() && f(run.legacy_matrix[0][2]).is_nan());
    assert!(f(run.running_sum).is_nan());
    assert_eq!(run.running_count, 9);
}

#[test]
fn cas_run_leaves_all_flags_at_ping() {
    for no_recycling in [false, true] {
        let bench = cas::Bench::new(3);
        let mut flags = bench.flags.clone();
        let mut run = bench.start(no_recycling, CoreId { id: 0 }, CoreId { id: 1 }, 5, 2);
        loop {
            match run.step() {
                cas::Step::Measure(k) => {
                    for _ in 0..run.exchanges() {
                        for role in [cas::Role::Pong, cas::Role::Ping] {
                            assert_eq!(flags[k], role.awaited());
                            flags[k] = role.left_behind();
                        }
                    }
                    run.measured(&[10, 20], &Floats);
                }
                cas::Step::Reset(k) => {
                    flags[k] = cas::PING;
                    run.advance();
                }
                cas::Step::Finish => break,
                _ => run.advance(),
            }
        }
        assert_eq!(flags, vec![cas::PING; 3]);
        let results = run.finish();
        assert_eq!(results.len(), 3);
        assert!(results.iter().all(|row| row.len() == 2));
    }
}

/// A benchmark that answers otherwise each time it is asked.
struct Fickle {
    symmetric: Vec<bool>,
    asked_symmetric: Cell<usize>,
    asked_numa: Cell<usize>,
}

impl Bench for Fickle {
    fn run(&self, cores: (CoreId, CoreId), _: Count, _: Count) -> Vec<Vec<Double>> {
        let x = (10 * cores.0.id + cores.1.id) as f64;
        vec![doubles(&[0.0, x]), doubles(&[0.0, x + 2.0])]
    }
    fn is_symmetric(&self) -> bool {
        let k = self.asked_symmetric.get();
        self.asked_symmetric.set(k + 1);
        self.symmetric[k]
    }
    fn num_addresses(&self) -> usize {
        2
    }
    fn mem_numa(&self) -> usize {
        let k = self.asked_numa.get();
        self.asked_numa.set(k + 1);
        k
    }
}

#[test]
fn benchmark_is_asked_at_each_use() {
    let bench = Fickle {
        symmetric: vec![true, false, false, true, true, false, true],
        asked_symmetric: Cell::new(0),
        asked_numa: Cell::new(0),
    };
    let mut run = run_bench(cores(&[4, 5]), &args(1, true), &bench);
    let mut shown = Vec::new();
    loop {
        match run.step(&bench) {
            Step::Print(text) => shown.push(text),
            Step::Skip => shown.push(String::from("skip")),
            Step::Measure => {
                run.measure(&bench, &Floats).unwrap();
                shown.push(String::from("measure"));
            }
            Step::Done => break,
        }
    }
    assert_eq!(
        shown,
        vec!["      4", "         ", "measure", "\n", "      5", "measure", "skip", "\n"]
    );
    assert_eq!(bench.asked_symmetric.get(), 7);
    assert_eq!(bench.asked_numa.get(), 6);
    let numas: Vec<usize> = run.per_address_rows.iter().map(|r| r.mem_numa).collect();
    assert_eq!(numas, vec![0, 1, 3, 4]);
    let numas: Vec<usize> = run.per_pair_summaries.iter().map(|r| r.mem_numa).collect();
    assert_eq!(numas, vec![2, 5]);
    assert_eq!((f(run.legacy_matrix[0][1]), f(run.legacy_matrix[1][0])), (46.0, 55.0));
}

#[test]
fn benchmark_is_asked_no_more_without_tables() {
    let bench = Fickle {
        symmetric: vec![false, true, false, false, true],
        asked_symmetric: Cell::new(0),
        asked_numa: Cell::new(0),
    };
    let mut run = run_bench(cores(&[4, 5]), &args(1, false), &bench);
    let mut pairs = 0;
    loop {
        match run.step(&bench) {
            Step::Measure => {
                run.measure(&bench, &Floats).unwrap();
                pairs += 1;
            }
            Step::Done => break,
            _ => {}
        }
    }
    assert_eq!((pairs, bench.asked_symmetric.get(), bench.asked_numa.get()), (2, 5, 0));
}

#[test]
fn noted_pair_goes_into_the_tables() {
    let mut run = at_first_pair(1, 1);
    let s = Stats::compute(&doubles(&[2.0, 4.0]), &Floats).unwrap();
    let rec = PairRecord {
        i: 1,
        j: 0,
        stats: vec![None, Some(s)],
        numas: vec![7, 8],
        mean_of_means: d(3.0),
        mean_of_medians: d(2.5),
        pair_stats: Some(s),
        symmetric: false,
        pair_numa: 9,
    };
    run.note(&rec, d(6.0), 2);
    assert_eq!(run.per_address_rows.len(), 1);
    assert_eq!((run.per_address_rows[0].mem_numa, run.per_address_rows[0].address), (8, 1));
    assert_eq!(run.per_pair_summaries[0].mem_numa, 9);
    assert_eq!(f(run.legacy_matrix[1][0]), 3.0);
    assert!(f(run.legacy_matrix[0][1]).is_nan());
    assert_eq!((f(run.running_sum), run.running_count), (6.0, 2));
    assert_eq!(f(run.min_latency_by_median.unwrap().value), 2.5);
}

#[test]
fn steps_depend_on_the_answer() {
    let mut run = run_bench(cores(&[4, 5]), &args(1, false), &Plain);
    assert!(matches!(run.proceed(true), Step::Print(_)));
    assert!(matches!(run.proceed(true), Step::Skip));
    assert!(matches!(run.proceed(false), Step::Measure));
    assert!(matches!(run.proceed(true), Step::Measure));
}

#[test]
fn arguments_can_be_cloned() {
    let a = args(9, true);
    let b = a.clone();
    assert_eq!((b.num_samples, b.csv, b.csv_output_prefix), (9, true, a.csv_output_prefix));
}
