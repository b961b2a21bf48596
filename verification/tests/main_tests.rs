use jesper::config::{
    default_config, framework_name, mode_file_path, parse_framework, select_abi_files,
    select_solidity_files, ConfigError, Framework, Modes,
};
use jesper::find_selector::find_selector;
use jesper::handle_parse_all_files::{
    abi_files_usable, get_prepared_errors_from_abi_files, handle_parse_all_files,
    prepare_error_from_abi_input, ABIInput, SolidityABI,
};
use jesper::parse_sol_file::{
    cleanup_text_input, is_comment_line, is_message_line, parse_args_from_cleaned_error,
    parse_sol_file, SolParseError,
};
use jesper::strmap::StrMap;

#[test]
fn it_works() {}

fn input(ty: &str, name: &str) -> ABIInput {
    ABIInput {
        name: Some(name.to_string()),
        _type: Some(ty.to_string()),
        internal_type: Some(ty.to_string()),
    }
}

fn error_entry(name: &str, types: &[&str]) -> SolidityABI {
    SolidityABI {
        _type: "error".to_string(),
        name: Some(name.to_string()),
        inputs: Some(types.iter().map(|t| input(t, "")).collect()),
    }
}

const CONTRACT: &str = "contract MyContract {
    error ErrIsContract();
    //#Message: \"USDG: NotVetoCouncilMember\"
    error ErrNotVetoCouncilMember();
    //#Message: \"Cannot send to {user}\"
    error ErrCannotSendToUser(address user, address sender);
}
";

#[test]
fn cleanup_normalises_a_declaration() {
    assert_eq!(
        cleanup_text_input("  error   ErrCannotSendToUser( address user,  address sender );"),
        "ErrCannotSendToUser(address user,address sender)"
    );
    assert_eq!(cleanup_text_input("error\tE\n(uint a)\t;"), "E (uint a) ");
    assert_eq!(cleanup_text_input(""), "");
}

#[test]
fn comment_lines() {
    assert!(is_comment_line("   // a comment"));
    assert!(is_comment_line(" * inside a block comment"));
    assert!(is_comment_line("uint x = a * b;"));
    assert!(!is_comment_line("error ErrX();"));
    assert!(!is_comment_line("/ not quite"));
}

#[test]
fn message_lines() {
    assert_eq!(
        is_message_line("    //#Message: \"USDG: NotVetoCouncilMember\"  "),
        (true, Some("\"USDG: NotVetoCouncilMember\"".to_string()))
    );
    assert_eq!(is_message_line("//# Message: spaced"), (true, Some("spaced".to_string())));
    assert_eq!(is_message_line("//#MESSAGE: shouting"), (true, Some("#MESSAGE: shouting".to_string())));
    assert_eq!(is_message_line("// just a comment"), (false, None));
    assert_eq!(is_message_line("//#Messages: x"), (false, None));
}

#[test]
fn arguments_of_a_cleaned_declaration() {
    let args = parse_args_from_cleaned_error("ErrCannotSendToUser(address user,address sender)".to_string());
    assert_eq!(args.len(), 2);
    assert_eq!(args[0]._type.as_deref(), Some("address"));
    assert_eq!(args[0].name.as_deref(), Some("user"));
    assert_eq!(args[0].internal_type.as_deref(), Some("address"));
    assert_eq!(args[1].name.as_deref(), Some("sender"));
    assert!(parse_args_from_cleaned_error("ErrIsContract()".to_string()).is_empty());
    let unnamed = parse_args_from_cleaned_error("E(uint256)".to_string());
    assert_eq!(unnamed.len(), 1);
    assert_eq!(unnamed[0].name.as_deref(), Some(""));
    assert_eq!(unnamed[0]._type.as_deref(), Some("uint256"));
}

#[test]
fn selectors_of_known_signatures() {
    assert_eq!(find_selector("Error(string)"), "0x08c379a0");
    assert_eq!(find_selector("Panic(uint256)"), "0x4e487b71");
    assert_eq!(find_selector("transfer(address,uint256)"), "0xa9059cbb");
}

#[test]
fn signature_of_an_abi_error() {
    let entry = error_entry("ErrCannotSendToUser", &["address", "address"]);
    let (signature, inputs) = prepare_error_from_abi_input(&entry);
    assert_eq!(signature, "ErrCannotSendToUser(address,address)");
    assert_eq!(inputs.len(), 2);
    let (signature, inputs) = prepare_error_from_abi_input(&error_entry("ErrIsContract", &[]));
    assert_eq!(signature, "ErrIsContract()");
    assert!(inputs.is_empty());
}

#[test]
fn prepared_errors_skip_other_entries() {
    let function = SolidityABI { _type: "function".to_string(), name: Some("f".to_string()), inputs: None };
    let files = vec![
        vec![error_entry("Error", &["string"]), function],
        vec![error_entry("Panic", &["uint256"])],
    ];
    assert!(abi_files_usable(&files));
    let (selectors, errors) = get_prepared_errors_from_abi_files(&files);
    assert_eq!(errors, vec!["Error(string)".to_string(), "Panic(uint256)".to_string()]);
    assert_eq!(selectors, vec!["0x08c379a0".to_string(), "0x4e487b71".to_string()]);
}

#[test]
fn incomplete_error_entries_are_not_usable() {
    let nameless = SolidityABI { _type: "error".to_string(), name: None, inputs: Some(vec![]) };
    assert!(!abi_files_usable(&vec![vec![nameless]]));
    assert!(!abi_files_usable(&vec![vec![error_entry("E", &[])]]));
}

#[test]
fn scanning_a_contract() {
    let (messages, selectors) = match parse_sol_file(CONTRACT) {
        Ok(r) => r,
        Err(e) => panic!("scan failed: {:?}", e),
    };
    let plain = messages.get(&"ErrIsContract".to_string()).unwrap();
    assert_eq!(plain.error_message, "");
    assert!(plain.args.is_empty());
    let veto = messages.get(&"ErrNotVetoCouncilMember".to_string()).unwrap();
    assert_eq!(veto.error_message, "\"USDG: NotVetoCouncilMember\"");
    let send = messages.get(&"ErrCannotSendToUser".to_string()).unwrap();
    assert_eq!(send.error_message, "\"Cannot send to {user}\"");
    assert_eq!(send.args.len(), 2);
    assert_eq!(send.args[1].name.as_deref(), Some("sender"));
    assert_eq!(messages.entries().len(), 3);
    let temp = selectors.get(&"ErrCannotSendToUser".to_string()).unwrap();
    assert_eq!(temp.cleaned_error, "ErrCannotSendToUser(address user,address sender)");
    assert_eq!(temp.identifier, find_selector("ErrCannotSendToUser"));
}

#[test]
fn a_comment_without_message_records_nothing() {
    let source = "contract C {\n    // plain comment\n    error ErrNoMessage();\n}\n";
    let (messages, selectors) = parse_sol_file(source).unwrap();
    assert!(messages.get(&"ErrNoMessage".to_string()).is_none());
    assert!(selectors.get(&"ErrNoMessage".to_string()).is_some());
}

#[test]
fn messages_are_looked_for_at_most_ten_lines_up() {
    let mut near = String::from("contract C {\n//#Message: found\n");
    for _ in 0..9 {
        near.push_str("// filler\n");
    }
    near.push_str("error ErrFar();\n");
    let (messages, _) = parse_sol_file(&near).unwrap();
    assert_eq!(messages.get(&"ErrFar".to_string()).unwrap().error_message, "found");

    let mut far = String::from("contract C {\n//#Message: lost\n");
    for _ in 0..10 {
        far.push_str("// filler\n");
    }
    far.push_str("error ErrFar();\n");
    let (messages, _) = parse_sol_file(&far).unwrap();
    assert!(messages.get(&"ErrFar".to_string()).is_none());
}

#[test]
fn short_error_names_are_refused() {
    assert_eq!(parse_sol_file("contract C {\nerror E();\n}").err(), Some(SolParseError::ShortIdentifier));
}

#[test]
fn whole_run_pairs_selectors_with_messages() {
    let (messages, _) = parse_sol_file(CONTRACT).unwrap();
    let files = vec![vec![
        error_entry("ErrCannotSendToUser", &["address", "address"]),
        error_entry("ErrUnknown", &["uint256"]),
    ]];
    let (merged, output) = handle_parse_all_files(&files, &vec![messages]);
    assert_eq!(merged.entries().len(), 3);
    let selector = find_selector("ErrCannotSendToUser(address,address)");
    let out = output.get(&selector).unwrap();
    assert_eq!(out.error_name, "ErrCannotSendToUser(address,address)");
    assert_eq!(out.solidity_message_and_args.error_message, "Cannot send to {user}");
    assert_eq!(out.solidity_message_and_args.args.len(), 2);
    let unknown = output.get(&find_selector("ErrUnknown(uint256)")).unwrap();
    assert_eq!(unknown.solidity_message_and_args.error_message, "");
    assert!(unknown.solidity_message_and_args.args.is_empty());
}

#[test]
fn later_sources_override_earlier_ones() {
    let (first, _) = parse_sol_file("contract A {\n//#Message: \"one\"\nerror ErrSame();\n}").unwrap();
    let (second, _) = parse_sol_file("contract B {\n//#Message: \"two\"\nerror ErrSame();\n}").unwrap();
    let files = vec![vec![error_entry("ErrSame", &[])]];
    let (merged, output) = handle_parse_all_files(&files, &vec![first, second]);
    assert_eq!(merged.get(&"ErrSame".to_string()).unwrap().error_message, "\"two\"");
    let out = output.get(&find_selector("ErrSame()")).unwrap();
    assert_eq!(out.solidity_message_and_args.error_message, "two");
}

#[test]
fn unquoted_messages_become_empty() {
    let (messages, _) = parse_sol_file("contract A {\n//#Message: bare words\nerror ErrBare();\n}").unwrap();
    let files = vec![vec![error_entry("ErrBare", &[])]];
    let (_, output) = handle_parse_all_files(&files, &vec![messages]);
    let out = output.get(&find_selector("ErrBare()")).unwrap();
    assert_eq!(out.solidity_message_and_args.error_message, "");
}

#[test]
fn framework_names() {
    assert_eq!(parse_framework("Foundry"), Ok(Framework::Foundry));
    assert_eq!(parse_framework("HARDHAT"), Ok(Framework::Hardhat));
    assert_eq!(parse_framework("truffle"), Err(ConfigError::InvalidFramework));
    assert_eq!(framework_name(Framework::Foundry), "foundry");
    assert_eq!(framework_name(Framework::Hardhat), "hardhat");
}

#[test]
fn file_selection() {
    let found = vec![
        "./out/A.sol/A.json".to_string(),
        "./out/A.sol/A.json.bak".to_string(),
        "./out/B.json".to_string(),
    ];
    assert_eq!(select_abi_files(&found), vec!["./out/A.sol/A.json".to_string(), "./out/B.json".to_string()]);
    let sources = vec!["./src/A.sol".to_string(), "./src/A.t.sol".to_string(), "./src/readme.md".to_string()];
    let extra = vec!["./lib/X.sol".to_string()];
    assert_eq!(
        select_solidity_files(&sources, &extra),
        vec!["./src/A.sol".to_string(), "./lib/X.sol".to_string()]
    );
}

#[test]
fn mode_file_paths() {
    assert_eq!(mode_file_path("./jasper-bindings", Modes::EthersV5), "./jasper-bindings/jesperParseErrorEthersV5.ts");
    assert_eq!(mode_file_path("./jasper-bindings/", Modes::Viem), "./jasper-bindings/jesperParseErrorViem.ts");
    assert_eq!(jesper::config::bindings_file_path("./jesper-bindings/"), "./jesper-bindings/jesper-bindings.ts");
}

#[test]
fn default_configuration() {
    let c = default_config();
    assert_eq!(c.output_folder, "./jasper-bindings");
    assert!(c.typescript);
    assert_eq!(c.framework, Framework::Foundry);
    assert_eq!(c.contracts_path, "./src");
    assert_eq!(c.excluded_files, vec!["./contracts/Migrations.sol".to_string()]);
    assert!(c.extra_included_files.is_empty());
    assert_eq!(c.modes, vec![Modes::EthersV5]);
}

#[test]
fn string_map_keeps_the_last_value() {
    let mut m: StrMap<String> = StrMap::new();
    m.insert("a".to_string(), "1".to_string());
    m.insert("b".to_string(), "2".to_string());
    m.insert("a".to_string(), "3".to_string());
    assert_eq!(m.get(&"a".to_string()), Some(&"3".to_string()));
    assert_eq!(m.get(&"b".to_string()), Some(&"2".to_string()));
    assert_eq!(m.get(&"c".to_string()), None);
    assert_eq!(m.entries().len(), 2);
}

#[test]
fn cleaned_declarations_hold_no_semicolon() {
    for text in ["error Foo(;;);", "; error X();", "error A(uint a; uint b);;"] {
        assert!(!cleanup_text_input(text).contains(';'));
    }
}

#[test]
fn ascii_message_lines_are_comment_lines() {
    for line in ["//#Message: a", "  //# Message: b  ", "//#MESSAGE: c", "//#Message: Größe ÄÖÜ", "\u{3000}//#MESSAGE: Ĳ"] {
        assert!(is_message_line(line).0);
        assert!(is_comment_line(line));
    }
}

#[test]
fn a_later_declaration_line_replaces_an_earlier_one() {
    let source = "contract C {\n//#Message: first\nerror ErrTwice();\n//#Message: second\nerror ErrTwice();\n}\n";
    let (messages, _) = parse_sol_file(source).unwrap();
    assert_eq!(messages.get(&"ErrTwice".to_string()).unwrap().error_message, "second");
    assert_eq!(messages.entries().len(), 1);
}

#[test]
fn a_message_on_the_first_line_is_read() {
    let source = "//#Message: \"Hi there\"\nerror ErrHiThere();\n";
    let (messages, _) = parse_sol_file(source).unwrap();
    let entry = messages.get(&"ErrHiThere".to_string()).unwrap();
    assert_eq!(entry.error_message, "\"Hi there\"");
    assert!(entry.args.is_empty());
}

#[test]
fn the_lookup_reaches_the_first_line_within_ten() {
    let mut source = String::from("//#Message: top\n");
    for _ in 0..9 {
        source.push_str("// filler\n");
    }
    source.push_str("error ErrTen();\n");
    let (messages, _) = parse_sol_file(&source).unwrap();
    assert_eq!(messages.get(&"ErrTen".to_string()).unwrap().error_message, "top");
}

#[test]
fn one_output_entry_per_selector() {
    let files = vec![
        vec![error_entry("ErrDup", &["uint256"])],
        vec![error_entry("ErrDup", &["uint256"])],
    ];
    let (_, output) = handle_parse_all_files(&files, &vec![]);
    assert_eq!(output.entries().len(), 1);
    let out = output.get(&find_selector("ErrDup(uint256)")).unwrap();
    assert_eq!(out.error_name, "ErrDup(uint256)");
}

#[test]
fn framework_names_read_back() {
    for f in [Framework::Foundry, Framework::Hardhat] {
        assert_eq!(parse_framework(&framework_name(f)), Ok(f));
    }
}

#[test]
fn selectors_are_ten_hex_characters() {
    for sig in ["ErrIsContract()", "ErrCannotSendToUser(address,address)", "Größe(uint8)"] {
        let s = find_selector(sig);
        assert_eq!(s.len(), 10);
        assert!(s.starts_with("0x"));
        assert!(s[2..].chars().all(|c| c.is_ascii_hexdigit() && !c.is_ascii_uppercase()));
    }
    assert_ne!(find_selector("ErrA()"), find_selector("ErrB()"));
}

#[test]
fn errors_module_text() {
    assert_eq!(
        jesper::handle_parse_all_files::errors_module("{}"),
        "export const errors:JasperObject = {};"
    );
}

#[test]
fn selector_text_of_a_hash() {
    let hash = vec![0x08u8, 0xc3, 0x79, 0xa0, 0xff, 0x00];
    assert_eq!(jesper::find_selector::selector_from_hash(&hash), "0x08c379a0");
    assert_eq!(jesper::find_selector::selector_from_hash(&vec![0, 1, 0xab, 0x10]), "0x0001ab10");
}

#[test]
fn kept_declarations_start_with_their_name() {
    let source = "contract C {\n    error ErrTwice(uint a);\n    error ErrTwice(uint a, uint b);\n}\n";
    let (_, selectors) = parse_sol_file(source).unwrap();
    let temp = selectors.get(&"ErrTwice".to_string()).unwrap();
    assert_eq!(temp.cleaned_error, "ErrTwice(uint a,uint b)");
    assert!(temp.cleaned_error.starts_with("ErrTwice("));
    assert_eq!(temp.identifier, find_selector("ErrTwice"));
}
