use vstd::prelude::*;
use crate::services::report::ReportFormat;

verus! {

/// The default depth of the scan, in levels.
pub const DEFAULT_DEPTH: usize = 10;

/// The scan options given on the command line, as far as the GUI mode reads
/// them. Whether the minimum size is the default is decided where the
/// options are parsed.
pub struct ScanArgs {
    pub path: Option<String>,
    pub min_size_is_default: bool,
    pub no_sort: bool,
    pub depth: usize,
    pub format: ReportFormat,
    pub output: Option<String>,
}

/// Whether `--gui` comes with scan options, so that the text report is
/// generated before the GUI opens it: a path, a minimum size other than the
/// default, `--no-sort`, a depth other than the default, an output path, or
/// a format other than CSV.
pub fn should_generate_report_before_gui(args: &ScanArgs) -> (b: bool)
    ensures
        b == (args.path is Some || !args.min_size_is_default || args.no_sort || args.depth != DEFAULT_DEPTH
            || args.output is Some || args.format != ReportFormat::Csv),
{
    args.path.is_some() || !args.min_size_is_default || args.no_sort || args.depth != DEFAULT_DEPTH
        || args.output.is_some() || args.format != ReportFormat::Csv
}

/// Whether an output path is given that differs from the GUI's report path,
/// which the GUI mode refuses when it generates the report.
pub fn output_conflicts_with_gui(output: &Option<String>, gui_path: &String) -> (b: bool)
    ensures
        b == (output matches Some(o) && o@ != gui_path@),
{
    match output {
        Some(o) => !(*o == *gui_path),
        None => false,
    }
}

} // verus!
