//! The command line: what a run is asked for.

use crate::bench::Count;
use crate::style::{bold_red, paint_bold_red};
use crate::text::{decimal, decimal_text};
use vstd::prelude::*;
use vstd::string::*;

verus! {

pub const DEFAULT_NUM_SAMPLES: Count = 300;

pub const DEFAULT_NUM_ITERATIONS_PER_SAMPLE: Count = 1000;

pub const DEFAULT_NUM_ADDRESSES: usize = 1;

/// What a run is asked for.
#[derive(Clone)]
pub struct CliArgs {
    /// The number of iterations per sample.
    pub num_iterations: Count,
    /// The number of samples.
    pub num_samples: Count,
    /// The number of addresses to test, each on a cache line of its own.
    pub num_addresses: usize,
    /// Whether to write tables of the latencies.
    pub csv: bool,
    /// What the names of the table files start with.
    pub csv_output_prefix: String,
    /// The benchmarks to run, by number.
    pub bench: Vec<usize>,
    /// The cores, by number or inclusive range; all of them where it is empty.
    pub cores: Vec<String>,
    /// Whether to map fresh memory for each pair of cores.
    pub no_recycling: bool,
}

impl Default for CliArgs {
    fn default() -> (r: CliArgs)
        ensures
            r.num_iterations == 1000,
            r.num_samples == 300,
            r.num_addresses == 1,
            !r.csv,
            r.csv_output_prefix@ == "report"@,
            r.bench@ == seq![1usize],
            r.cores@.len() == 0,
            !r.no_recycling,
    {
        let mut bench: Vec<usize> = Vec::new();
        bench.push(1);
        let r = CliArgs {
            num_iterations: DEFAULT_NUM_ITERATIONS_PER_SAMPLE,
            num_samples: DEFAULT_NUM_SAMPLES,
            num_addresses: DEFAULT_NUM_ADDRESSES,
            csv: false,
            csv_output_prefix: String::from_str("report"),
            bench,
            cores: Vec::new(),
            no_recycling: false,
        };
        assert(r.bench@ =~= seq![1usize]);
        r
    }
}

/// A benchmark, as the command line selects it.
#[derive(Clone, Copy, PartialEq, Eq, Structural, Debug)]
pub enum Selection {
    /// Compare-and-swap on one shared cache line.
    Cas,
    /// One writer and one reader on two shared cache lines.
    ReadWrite,
    /// One writer and one reader on many cache lines, by the clock.
    MsgPassing,
}

impl Selection {
    /// The benchmark with the given number.
    pub open spec fn numbered(n: int) -> Option<Selection> {
        if n == 1 {
            Some(Selection::Cas)
        } else if n == 2 {
            Some(Selection::ReadWrite)
        } else if n == 3 {
            Some(Selection::MsgPassing)
        } else {
            None
        }
    }

    /// The name of the benchmark in file names.
    pub open spec fn bench_name(self) -> Seq<char> {
        match self {
            Selection::Cas => "cas"@,
            Selection::ReadWrite => "read_write"@,
            Selection::MsgPassing => "msg_passing"@,
        }
    }

    /// What is printed before the benchmark runs.
    pub open spec fn heading(self) -> Seq<char> {
        match self {
            Selection::Cas => "\n1) CAS latency on a single shared cache line\n\n"@,
            Selection::ReadWrite =>
                "\n2) Single-writer single-reader latency on two shared cache lines\n\n"@,
            Selection::MsgPassing =>
                "\n3) Message passing. One writer and one reader on many cache line\n\n"@,
        }
    }

    /// The benchmark with the given number, or what is wrong with the number.
    pub fn select(n: usize) -> (r: Result<Selection, &'static str>)
        ensures
            match r {
                Ok(s) => Selection::numbered(n as int) == Some(s),
                Err(e) => Selection::numbered(n as int) == None::<Selection> && e@
                    == "--bench should be 1, 2 or 3"@,
            },
    {
        match n {
            1 => Ok(Selection::Cas),
            2 => Ok(Selection::ReadWrite),
            3 => Ok(Selection::MsgPassing),
            _ => Err("--bench should be 1, 2 or 3"),
        }
    }

    /// The name of the benchmark in file names.
    pub fn name(self) -> (r: &'static str)
        ensures
            r@ == self.bench_name(),
    {
        match self {
            Selection::Cas => "cas",
            Selection::ReadWrite => "read_write",
            Selection::MsgPassing => "msg_passing",
        }
    }

    /// What is printed before the benchmark runs.
    pub fn heading_text(self) -> (r: &'static str)
        ensures
            r@ == self.heading(),
    {
        match self {
            Selection::Cas => "\n1) CAS latency on a single shared cache line\n\n",
            Selection::ReadWrite =>
                "\n2) Single-writer single-reader latency on two shared cache lines\n\n",
            Selection::MsgPassing =>
                "\n3) Message passing. One writer and one reader on many cache line\n\n",
        }
    }
}

/// What is printed before the benchmarks: the number of cores, of iterations and of
/// samples.
pub open spec fn banner(num_cores: nat, num_iterations: nat, num_samples: nat) -> Seq<char> {
    "Num cores: "@ + decimal(num_cores) + "\nNum iterations per samples: "@ + decimal(
        num_iterations,
    ) + "\nNum samples: "@ + decimal(num_samples) + "\n"@
}

impl CliArgs {
    /// What is printed before the benchmarks, on `num_cores` cores.
    pub fn banner_text(&self, num_cores: usize) -> (r: String)
        ensures
            r@ == banner(num_cores as nat, self.num_iterations as nat, self.num_samples as nat),
    {
        let mut r = String::from_str("Num cores: ");
        r.append(decimal_text(num_cores).as_str());
        r.append("\nNum iterations per samples: ");
        r.append(decimal_text(self.num_iterations as usize).as_str());
        r.append("\nNum samples: ");
        r.append(decimal_text(self.num_samples as usize).as_str());
        r.append("\n");
        r
    }

    /// What is wrong with the number of addresses, if anything: there must be at
    /// least one.
    pub fn addresses_error(&self) -> (r: Option<&'static str>)
        ensures
            match r {
                Some(s) => self.num_addresses == 0 && s@
                    == "ERROR: --num-addresses must be at least 1"@,
                None => self.num_addresses > 0,
            },
    {
        if self.num_addresses == 0 {
            Some("ERROR: --num-addresses must be at least 1")
        } else {
            None
        }
    }
}

/// What is printed where the system may not honour a choice of cores.
pub fn affinity_warning() -> (r: String)
    ensures
        r@ == bold_red(
            "WARN macOS may ignore thread-CPU affinity (we can't select a CPU to run on). Results may be inaccurate"@,
        ) + "\n"@,
{
    let mut r = paint_bold_red(
        "WARN macOS may ignore thread-CPU affinity (we can't select a CPU to run on). Results may be inaccurate",
    );
    r.append("\n");
    r
}

/// The benchmarks have the numbers from one to three, and no other number is one. Each
/// has a name of its own.
pub proof fn lemma_selection(n: usize, r: Result<Selection, &'static str>)
    requires
        call_ensures(Selection::select, (n,), r),
    ensures
        r is Ok <==> 1 <= n <= 3,
        n == 1 ==> r == Ok::<Selection, &'static str>(Selection::Cas),
        n == 2 ==> r == Ok::<Selection, &'static str>(Selection::ReadWrite),
        n == 3 ==> r == Ok::<Selection, &'static str>(Selection::MsgPassing),
        r matches Err(e) ==> e@ == "--bench should be 1, 2 or 3"@,
{
}

/// What is printed before the benchmarks tells the three numbers, each in a line of its
/// own, in decimal.
pub proof fn lemma_banner(args: &CliArgs, num_cores: usize, r: String)
    requires
        call_ensures(CliArgs::banner_text, (args, num_cores), r),
    ensures
        r@ == seq![
            "Num cores: "@ + decimal(num_cores as nat) + "\n"@,
            "Num iterations per samples: "@ + decimal(args.num_iterations as nat) + "\n"@,
            "Num samples: "@ + decimal(args.num_samples as nat) + "\n"@,
        ].flatten(),
{
    let a = "Num cores: "@ + decimal(num_cores as nat) + "\n"@;
    let b = "Num iterations per samples: "@ + decimal(args.num_iterations as nat) + "\n"@;
    let c = "Num samples: "@ + decimal(args.num_samples as nat) + "\n"@;
    reveal_strlit("\n");
    reveal_strlit("Num iterations per samples: ");
    reveal_strlit("\nNum iterations per samples: ");
    reveal_strlit("Num samples: ");
    reveal_strlit("\nNum samples: ");
    assert("\nNum iterations per samples: "@ =~= "\n"@ + "Num iterations per samples: "@);
    assert("\nNum samples: "@ =~= "\n"@ + "Num samples: "@);
    seq![a].lemma_flatten_one_element();
    seq![a].lemma_flatten_push(b);
    seq![a, b].lemma_flatten_push(c);
    assert(seq![a].push(b) =~= seq![a, b]);
    assert(seq![a, b].push(c) =~= seq![a, b, c]);
    assert(r@ =~= a + b + c);
}

/// There is something wrong with the number of addresses exactly where there are none.
pub proof fn lemma_addresses_error(args: &CliArgs, r: Option<&'static str>)
    requires
        call_ensures(CliArgs::addresses_error, (args,), r),
    ensures
        r is Some <==> args.num_addresses == 0,
{
}

} // verus!
