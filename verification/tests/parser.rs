use cosmic_ext_applet_container_manager::{domain::Backend, parser::parse_container_list};

#[test]
fn parses_runtime_fields_and_reports_malformed_rows() {
    let row = "0123456789abcdef\tregistry/team/web:latest\tmy-web\trunning\tUp 3 hours\n";
    let items = parse_container_list(Backend::Podman, row).unwrap();
    assert_eq!(items.len(), 1);
    assert_eq!(items[0].backend, Backend::Podman);
    assert_eq!(items[0].name, "my-web");
    assert_eq!(items[0].status, "Up 3 hours");
    let error = parse_container_list(Backend::Docker, "id\ttoo-few\n").unwrap_err();
    assert!(error.to_string().contains("line 1"));
}

#[test]
fn blank_lines_are_skipped_but_counted() {
    let output = "\n  \t \r\nid1\tim\tn1\trunning\tUp\r\n\nbad row\n";
    let error = parse_container_list(Backend::Docker, output).unwrap_err();
    assert_eq!(error.line(), 5);
    assert_eq!(error.to_string(), "invalid container output on line 5");
}

#[test]
fn carriage_returns_and_extra_tabs() {
    let output = "a\tb\tc\td\te\tf\r\nx\ty\tz\tw\tv";
    let items = parse_container_list(Backend::Docker, output).unwrap();
    assert_eq!(items.len(), 2);
    assert_eq!(items[0].id, "a");
    assert_eq!(items[0].status, "e\tf");
    assert_eq!(items[1].status, "v");
    assert_eq!(items[1].backend, Backend::Docker);
}

#[test]
fn empty_fields_are_rejected() {
    let error = parse_container_list(Backend::Podman, "ok\tok\tok\tok\tok\nid\t\tname\tstate\tstatus\n")
        .unwrap_err();
    assert_eq!(error.line(), 2);
    let error = parse_container_list(Backend::Podman, "id\timage\tname\tstate\t\n").unwrap_err();
    assert_eq!(error.line(), 1);
}

#[test]
fn empty_output_has_no_containers() {
    assert!(parse_container_list(Backend::Podman, "").unwrap().is_empty());
    assert!(parse_container_list(Backend::Podman, "\n\n   \n").unwrap().is_empty());
}

#[test]
fn printed_rows_parse_back() {
    let output = "id1\tteam/web:1\tweb\trunning\tUp\nid2\tteam/db:2\tdb\texited\tExited (0)\n";
    let items = parse_container_list(Backend::Docker, output).unwrap();
    let rendered: String = items
        .iter()
        .map(|c| format!("{}\t{}\t{}\t{}\t{}\n", c.id, c.image, c.name, c.state, c.status))
        .collect();
    assert_eq!(rendered, output);
}

#[test]
fn line_numbers_beyond_nine_are_rendered_in_decimal() {
    let mut output = String::new();
    for _ in 0..11 {
        output.push('\n');
    }
    output.push_str("broken\n");
    let error = parse_container_list(Backend::Docker, &output).unwrap_err();
    assert_eq!(error.to_string(), "invalid container output on line 12");
}
