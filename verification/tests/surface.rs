use vissue::surface::{
    cli_verbs, mutating_cli_verbs, mutating_mcp_tools, mutating_socket_methods, parse_schema_text,
    socket_methods, Operation,
};

fn op(cli: &str, socket: &str, mcp: &str, mutates: bool, aliases: &[&str]) -> Operation {
    Operation {
        cli: cli.into(),
        socket: socket.into(),
        mcp: mcp.into(),
        mutates,
        local: false,
        aliases: aliases.iter().map(|a| a.to_string()).collect(),
        note: String::new(),
        fields: Vec::new(),
    }
}

fn sample() -> Vec<Operation> {
    vec![
        op("create", "issue/create", "vissue_create", true, &[]),
        op("list", "issue/list", "vissue_list", false, &["ls"]),
        op("append", "issue/append", "", true, &[]),
        op("", "org/show", "vissue_org", false, &[]),
        op("serve", "", "", true, &[]),
    ]
}

#[test]
fn the_filters_pick_the_surface_they_name() {
    let ops = sample();
    assert_eq!(socket_methods(&ops), vec!["issue/create", "issue/list", "issue/append", "org/show"]);
    assert_eq!(mutating_socket_methods(&ops), vec!["issue/create", "issue/append"]);
    assert_eq!(mutating_cli_verbs(&ops), vec!["create", "append", "serve"]);
    assert_eq!(mutating_mcp_tools(&ops), vec!["vissue_create"]);
}

#[test]
fn cli_verbs_carry_aliases_and_skip_flag_only_rows() {
    let ops = sample();
    assert_eq!(cli_verbs(&ops), vec!["create", "list", "ls", "append", "serve"]);
    assert!(cli_verbs(&[]).is_empty());
}

#[test]
fn the_schema_text_reads_back_rows_and_field_counts() {
    let text = [
        "@0xabc;\n",
        "struct Operation { cli @0 :Text; }\n",
        "const operations :List(Operation) = [\n",
        "  ( cli = \"create\", socket = \"issue/create\", mcp = \"vissue_create\", mutates = true,\n",
        "    fields = [\n",
        "      ( cli = \"title\", tool = \"title\", socket = \"title\" ),\n",
        "      ( cli = \"priority\", tool = \"priority\", socket = \"priority\" ) ] ),\n",
        "  ( cli = \"list\", socket = \"issue/list\", mcp = \"\", mutates = false ),\n",
        "];\n",
    ].concat();
    let rows = parse_schema_text(&text);
    assert_eq!(
        rows,
        vec![
            ("create".to_string(), "issue/create".to_string(), "vissue_create".to_string(), 2),
            ("list".to_string(), "issue/list".to_string(), String::new(), 0),
        ]
    );
}

#[test]
fn a_text_without_the_constant_has_no_rows() {
    assert!(parse_schema_text("( cli = \"x\", socket = \"y\", mcp = \"z\", mutates = true )").is_empty());
    assert!(parse_schema_text("").is_empty());
}
