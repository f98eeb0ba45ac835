use runner_directives::discover::{NodeKind, TsNode, find_exported_runners, find_exported_schemas, line_number};
use runner_directives::metadata::{extract_file_metadata, has_use_runner_directive};

fn node(kind: NodeKind, start: usize, text: &str, children: Vec<TsNode>) -> TsNode {
    TsNode { kind, start, text: text.to_string(), children }
}

fn names_of(runners: &[runner_directives::types::RunnerInfo]) -> Vec<String> {
    runners.iter().map(|r| r.name.clone()).collect()
}

/// The tree of:
/// `export async function fetchData() { "use runner"; return 1; }`
/// `export const FetchDataSchema = { input: "none" };`
fn two_line_fixture() -> (Vec<u8>, TsNode) {
    let line1 = "export async function fetchData() { \"use runner\"; return 1; }";
    let line2 = "export const FetchDataSchema = { input: \"none\" };";
    let source = format!("{}\n{}\n", line1, line2);
    let l2 = line1.len() + 1;
    let tree = node(NodeKind::Other, 0, "", vec![
        node(NodeKind::ExportStatement, 0, "", vec![
            node(NodeKind::FunctionDeclaration, 7, "", vec![
                node(NodeKind::AsyncKeyword, 7, "async", vec![]),
                node(NodeKind::Identifier, 22, "fetchData", vec![]),
            ]),
        ]),
        node(NodeKind::ExportStatement, l2, "", vec![
            node(NodeKind::LexicalDeclaration, l2 + 7, "", vec![
                node(NodeKind::VariableDeclarator, l2 + 13, "", vec![
                    node(NodeKind::Identifier, l2 + 13, "FetchDataSchema", vec![]),
                    node(NodeKind::Other, l2 + 31, "", vec![]),
                ]),
            ]),
        ]),
    ]);
    (source.into_bytes(), tree)
}

#[test]
fn runner_and_schema_extracted_from_two_line_file() {
    let (source, tree) = two_line_fixture();
    let runners = find_exported_runners(&source, &tree);
    assert_eq!(runners.len(), 1);
    assert_eq!(runners[0].name, "fetchData");
    assert_eq!(runners[0].line, 1);
    let schemas = find_exported_schemas(&source, &tree, &names_of(&runners));
    assert_eq!(schemas.len(), 1);
    assert_eq!(schemas[0].name, "FetchDataSchema");
    assert_eq!(schemas[0].runner_name, Some("fetchData".to_string()));
    assert_eq!(schemas[0].line, 2);
}

#[test]
fn extract_file_metadata_combines_and_normalizes() {
    let (source, tree) = two_line_fixture();
    let m = extract_file_metadata("src\\runners\\fetch.ts", &source, &tree);
    assert_eq!(m.file, "src/runners/fetch.ts");
    assert_eq!(m.runners.len(), 1);
    assert_eq!(m.runners[0].name, "fetchData");
    assert_eq!(m.schemas.len(), 1);
    assert_eq!(m.schemas[0].runner_name, Some("fetchData".to_string()));
}

#[test]
fn non_async_function_is_not_a_runner() {
    let source = b"export function plainOne() {}\n".to_vec();
    let tree = node(NodeKind::Other, 0, "", vec![
        node(NodeKind::ExportStatement, 0, "", vec![
            node(NodeKind::FunctionDeclaration, 7, "", vec![
                node(NodeKind::Identifier, 16, "plainOne", vec![]),
            ]),
        ]),
    ]);
    assert_eq!(find_exported_runners(&source, &tree).len(), 0);
}

#[test]
fn unexported_async_function_is_not_a_runner() {
    let source = b"async function hidden() {}\n".to_vec();
    let tree = node(NodeKind::Other, 0, "", vec![
        node(NodeKind::FunctionDeclaration, 0, "", vec![
            node(NodeKind::AsyncKeyword, 0, "async", vec![]),
            node(NodeKind::Identifier, 15, "hidden", vec![]),
        ]),
    ]);
    assert_eq!(find_exported_runners(&source, &tree).len(), 0);
}

#[test]
fn exported_async_arrow_is_a_runner() {
    let source = b"export const doWork = async () => { return 2; };\n".to_vec();
    let tree = node(NodeKind::Other, 0, "", vec![
        node(NodeKind::ExportStatement, 0, "", vec![
            node(NodeKind::LexicalDeclaration, 7, "", vec![
                node(NodeKind::VariableDeclarator, 13, "", vec![
                    node(NodeKind::Identifier, 13, "doWork", vec![]),
                    node(NodeKind::ArrowFunction, 22, "", vec![
                        node(NodeKind::AsyncKeyword, 22, "async", vec![]),
                    ]),
                ]),
            ]),
        ]),
    ]);
    let runners = find_exported_runners(&source, &tree);
    assert_eq!(runners.len(), 1);
    assert_eq!(runners[0].name, "doWork");
    assert_eq!(runners[0].line, 1);
}

#[test]
fn arrow_async_marker_inherited_from_the_declaration() {
    let source = b"export const doWork = async () => 2;\n".to_vec();
    let tree = node(NodeKind::Other, 0, "", vec![
        node(NodeKind::ExportStatement, 0, "", vec![
            node(NodeKind::LexicalDeclaration, 7, "", vec![
                node(NodeKind::AsyncKeyword, 22, "async", vec![]),
                node(NodeKind::VariableDeclarator, 13, "", vec![
                    node(NodeKind::Identifier, 13, "doWork", vec![]),
                    node(NodeKind::ArrowFunction, 28, "", vec![]),
                ]),
            ]),
        ]),
    ]);
    let runners = find_exported_runners(&source, &tree);
    assert_eq!(runners.len(), 1);
    assert_eq!(runners[0].name, "doWork");
}

#[test]
fn plain_arrow_is_not_a_runner() {
    let source = b"export const doWork = () => 2;\n".to_vec();
    let tree = node(NodeKind::Other, 0, "", vec![
        node(NodeKind::ExportStatement, 0, "", vec![
            node(NodeKind::LexicalDeclaration, 7, "", vec![
                node(NodeKind::VariableDeclarator, 13, "", vec![
                    node(NodeKind::Identifier, 13, "doWork", vec![]),
                    node(NodeKind::ArrowFunction, 22, "", vec![]),
                ]),
            ]),
        ]),
    ]);
    assert_eq!(find_exported_runners(&source, &tree).len(), 0);
}

#[test]
fn schema_without_matching_runner_has_no_runner_name() {
    let source = b"export const UserSchema = {};\n".to_vec();
    let tree = node(NodeKind::Other, 0, "", vec![
        node(NodeKind::ExportStatement, 0, "", vec![
            node(NodeKind::LexicalDeclaration, 7, "", vec![
                node(NodeKind::VariableDeclarator, 13, "", vec![
                    node(NodeKind::Identifier, 13, "UserSchema", vec![]),
                ]),
            ]),
        ]),
    ]);
    let schemas = find_exported_schemas(&source, &tree, &vec!["fetchData".to_string()]);
    assert_eq!(schemas.len(), 1);
    assert_eq!(schemas[0].name, "UserSchema");
    assert_eq!(schemas[0].runner_name, None);
}

#[test]
fn schema_match_takes_the_first_runner_in_discovery_order() {
    let source = b"export const fetchUserSchema = {};\n".to_vec();
    let tree = node(NodeKind::Other, 0, "", vec![
        node(NodeKind::ExportStatement, 0, "", vec![
            node(NodeKind::LexicalDeclaration, 7, "", vec![
                node(NodeKind::VariableDeclarator, 13, "", vec![
                    node(NodeKind::Identifier, 13, "fetchUserSchema", vec![]),
                ]),
            ]),
        ]),
    ]);
    let names = vec!["fetch".to_string(), "fetchUser".to_string()];
    let schemas = find_exported_schemas(&source, &tree, &names);
    assert_eq!(schemas.len(), 1);
    assert_eq!(schemas[0].runner_name, Some("fetch".to_string()));
}

#[test]
fn exported_name_without_schema_marker_is_ignored() {
    let source = b"export const settings = {};\n".to_vec();
    let tree = node(NodeKind::Other, 0, "", vec![
        node(NodeKind::ExportStatement, 0, "", vec![
            node(NodeKind::LexicalDeclaration, 7, "", vec![
                node(NodeKind::VariableDeclarator, 13, "", vec![
                    node(NodeKind::Identifier, 13, "settings", vec![]),
                ]),
            ]),
        ]),
    ]);
    assert_eq!(find_exported_schemas(&source, &tree, &Vec::new()).len(), 0);
}

#[test]
fn schema_marker_is_found_case_insensitively() {
    let source = b"export const USERSCHEMA = {};\n".to_vec();
    let tree = node(NodeKind::Other, 0, "", vec![
        node(NodeKind::ExportStatement, 0, "", vec![
            node(NodeKind::LexicalDeclaration, 7, "", vec![
                node(NodeKind::VariableDeclarator, 13, "", vec![
                    node(NodeKind::Identifier, 13, "USERSCHEMA", vec![]),
                ]),
            ]),
        ]),
    ]);
    let schemas = find_exported_schemas(&source, &tree, &vec!["user".to_string()]);
    assert_eq!(schemas.len(), 1);
    assert_eq!(schemas[0].name, "USERSCHEMA");
    assert_eq!(schemas[0].runner_name, Some("user".to_string()));
}

#[test]
fn property_identifier_names_a_runner() {
    let source = b"export async function withProp() {}\n".to_vec();
    let tree = node(NodeKind::Other, 0, "", vec![
        node(NodeKind::ExportStatement, 0, "", vec![
            node(NodeKind::FunctionDeclaration, 7, "", vec![
                node(NodeKind::AsyncKeyword, 7, "async", vec![]),
                node(NodeKind::PropertyIdentifier, 22, "withProp", vec![]),
            ]),
        ]),
    ]);
    let runners = find_exported_runners(&source, &tree);
    assert_eq!(runners.len(), 1);
    assert_eq!(runners[0].name, "withProp");
}

#[test]
fn line_numbers_count_preceding_newlines() {
    let source = b"a\nb\nc\nexport\n".to_vec();
    assert_eq!(line_number(&source, 0), 1);
    assert_eq!(line_number(&source, 2), 2);
    assert_eq!(line_number(&source, 6), 4);
}

#[test]
fn files_without_the_pragma_are_skipped() {
    assert!(!has_use_runner_directive(
        "export async function fetchData() { return 1; }"
    ));
    assert!(has_use_runner_directive("const x = 1; \"use runner\";"));
    assert!(has_use_runner_directive("const x = 1; 'use runner';"));
    assert!(!has_use_runner_directive("// says use runner without quotes"));
}
