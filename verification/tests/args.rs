use core_to_core_latency::args::{affinity_warning, CliArgs, Selection};
use core_to_core_latency::text::{decimal_text, hexadecimal_text};

#[test]
fn defaults() {
    let args = CliArgs::default();
    assert_eq!(args.num_iterations, 1000);
    assert_eq!(args.num_samples, 300);
    assert_eq!(args.num_addresses, 1);
    assert!(!args.csv);
    assert_eq!(args.csv_output_prefix, "report");
    assert_eq!(args.bench, vec![1]);
    assert!(args.cores.is_empty());
    assert!(!args.no_recycling);
}

#[test]
fn banner_tells_the_counts() {
    assert_eq!(
        CliArgs::default().banner_text(12),
        "Num cores: 12\nNum iterations per samples: 1000\nNum samples: 300\n"
    );
}

#[test]
fn there_must_be_an_address() {
    let mut args = CliArgs::default();
    assert_eq!(args.addresses_error(), None);
    args.num_addresses = 0;
    assert_eq!(args.addresses_error(), Some("ERROR: --num-addresses must be at least 1"));
}

#[test]
fn benchmarks_by_number() {
    assert_eq!(Selection::select(1), Ok(Selection::Cas));
    assert_eq!(Selection::select(2), Ok(Selection::ReadWrite));
    assert_eq!(Selection::select(3), Ok(Selection::MsgPassing));
    assert_eq!(Selection::select(0), Err("--bench should be 1, 2 or 3"));
    assert_eq!(Selection::select(4), Err("--bench should be 1, 2 or 3"));
    assert_eq!(Selection::Cas.name(), "cas");
    assert_eq!(Selection::ReadWrite.name(), "read_write");
    assert_eq!(Selection::MsgPassing.name(), "msg_passing");
    assert_eq!(
        Selection::Cas.heading_text(),
        "\n1) CAS latency on a single shared cache line\n\n"
    );
    assert_eq!(
        Selection::ReadWrite.heading_text(),
        "\n2) Single-writer single-reader latency on two shared cache lines\n\n"
    );
    assert_eq!(
        Selection::MsgPassing.heading_text(),
        "\n3) Message passing. One writer and one reader on many cache line\n\n"
    );
}

#[test]
fn warning_is_bold_red() {
    assert_eq!(
        affinity_warning(),
        "\u{1b}[1;31mWARN macOS may ignore thread-CPU affinity (we can't select a CPU to run on). Results may be inaccurate\u{1b}[0m\n"
    );
}

#[test]
fn numerals() {
    for n in [0usize, 1, 9, 10, 15, 16, 255, 256, 1000, 123456789, usize::MAX] {
        assert_eq!(decimal_text(n), format!("{}", n));
        assert_eq!(hexadecimal_text(n), format!("{:x}", n));
    }
}
