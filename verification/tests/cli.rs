use rusize::cli::{should_generate_report_before_gui, output_conflicts_with_gui, ScanArgs, DEFAULT_DEPTH};
use rusize::services::report::ReportFormat;

fn base_args() -> ScanArgs {
    ScanArgs {
        path: None,
        min_size_is_default: true,
        no_sort: false,
        depth: DEFAULT_DEPTH,
        format: ReportFormat::Csv,
        output: None,
    }
}

#[test]
fn gui_only_mode_does_not_trigger_regeneration() {
    assert!(!should_generate_report_before_gui(&base_args()));
}

#[test]
fn gui_with_path_triggers_regeneration() {
    let mut args = base_args();
    args.path = Some("C:/".to_string());

    assert!(should_generate_report_before_gui(&args));
}

#[test]
fn gui_with_text_format_triggers_regeneration() {
    let mut args = base_args();
    args.format = ReportFormat::Text;

    assert!(should_generate_report_before_gui(&args));
}

#[test]
fn gui_with_other_options_triggers_regeneration() {
    let mut args = base_args();
    args.min_size_is_default = false;
    assert!(should_generate_report_before_gui(&args));
    let mut args = base_args();
    args.no_sort = true;
    assert!(should_generate_report_before_gui(&args));
    let mut args = base_args();
    args.depth = 3;
    assert!(should_generate_report_before_gui(&args));
    let mut args = base_args();
    args.output = Some("out.txt".to_string());
    assert!(should_generate_report_before_gui(&args));
    let mut args = base_args();
    args.format = ReportFormat::Json;
    assert!(should_generate_report_before_gui(&args));
}

#[test]
fn gui_output_must_match_report_path() {
    let gui = "report.txt".to_string();
    assert!(!output_conflicts_with_gui(&None, &gui));
    assert!(!output_conflicts_with_gui(&Some("report.txt".to_string()), &gui));
    assert!(output_conflicts_with_gui(&Some("other.txt".to_string()), &gui));
}

#[test]
fn report_format_defaults_to_csv() {
    assert_eq!(ReportFormat::default(), ReportFormat::Csv);
}
