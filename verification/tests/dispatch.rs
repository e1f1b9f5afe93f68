use arg_fn::Append;
use arg_fn::ArgTable;
use arg_fn::Collect;
use arg_fn::Ignore;
use arg_fn::Parser;
use arg_fn::SetSwitch;
use arg_fn::Switches;

fn toks(words: &[&str]) -> Vec<String> {
    words.iter().map(|w| w.to_string()).collect()
}

#[test]
fn readme_example() {
    let cfg = Switches { values: vec![false, false] };
    let result = Parser::new(cfg, Ignore)
        .arg("-foo".to_string(), SetSwitch { index: 0, value: true })
        .arg("-nofoo".to_string(), SetSwitch { index: 0, value: false })
        .arg("-bar".to_string(), SetSwitch { index: 1, value: true })
        .arg("-nobar".to_string(), SetSwitch { index: 1, value: false })
        .parse(toks(&["-bar", "-nofoo", "-foo", "-nobar", "-foo"]));
    assert_eq!(result.values, vec![true, false]);
}

#[test]
fn empty_input_returns_initial() {
    let cfg = Switches { values: vec![true, false] };
    let result = Parser::new(cfg, Ignore)
        .arg("-on".to_string(), SetSwitch { index: 1, value: true })
        .parse(Vec::new());
    assert_eq!(result.values, vec![true, false]);
}

#[test]
fn empty_input_with_empty_table() {
    let result = Parser::<Vec<String>, Ignore, Collect>::new(vec!["kept".to_string()], Collect)
        .parse(Vec::new());
    assert_eq!(result, vec!["kept".to_string()]);
}

#[test]
fn later_registration_wins() {
    let cfg = Switches { values: vec![false] };
    let result = Parser::new(cfg, Ignore)
        .arg("-k".to_string(), SetSwitch { index: 0, value: false })
        .arg("-k".to_string(), SetSwitch { index: 0, value: true })
        .parse(toks(&["-k"]));
    assert_eq!(result.values, vec![true]);
}

#[test]
fn fallback_receives_exact_token() {
    let result = Parser::<Vec<String>, Ignore, Collect>::new(Vec::new(), Collect)
        .parse(toks(&["--weird"]));
    assert_eq!(result, vec!["--weird".to_string()]);
}

#[test]
fn unmatched_tokens_collected_in_order() {
    let result = Parser::new(Vec::new(), Collect)
        .arg("-a".to_string(), Ignore)
        .arg("-b".to_string(), Ignore)
        .parse(toks(&["x", "-a", "y", "-b", "z"]));
    assert_eq!(result, toks(&["x", "y", "z"]));
}

#[test]
fn one_callback_per_token_in_input_order() {
    let result = Parser::new(Vec::new(), Collect)
        .arg("-a".to_string(), Append { text: "saw a".to_string() })
        .arg("-b".to_string(), Append { text: "saw b".to_string() })
        .parse(toks(&["-a", "x", "-b", "-a"]));
    assert_eq!(result, toks(&["saw a", "x", "saw b", "saw a"]));
}

#[test]
fn with_arguments_matches_fluent() {
    let input = ["-a", "-b", "-a", "?"];

    let mut table = ArgTable::new();
    table.insert("-a".to_string(), SetSwitch { index: 0, value: true });
    table.insert("-b".to_string(), SetSwitch { index: 1, value: true });
    let prebuilt = Parser::with_arguments(
        Switches { values: vec![false, false] },
        table,
        Ignore,
    )
        .arg("-a".to_string(), SetSwitch { index: 0, value: false })
        .parse(toks(&input));

    let fluent = Parser::new(Switches { values: vec![false, false] }, Ignore)
        .arg("-a".to_string(), SetSwitch { index: 0, value: true })
        .arg("-b".to_string(), SetSwitch { index: 1, value: true })
        .arg("-a".to_string(), SetSwitch { index: 0, value: false })
        .parse(toks(&input));

    assert_eq!(prebuilt.values, fluent.values);
    assert_eq!(prebuilt.values, vec![false, true]);
}

#[test]
fn set_switch_out_of_range_changes_nothing() {
    let cfg = Switches { values: vec![false] };
    let result = Parser::new(cfg, Ignore)
        .arg("-k".to_string(), SetSwitch { index: 5, value: true })
        .parse(toks(&["-k"]));
    assert_eq!(result.values, vec![false]);
}

#[test]
fn default_parser_ignores_every_token() {
    let parser: Parser<Vec<String>, Ignore, Ignore> = Default::default();
    let result = parser.parse(toks(&["-x", "-y"]));
    assert_eq!(result, Vec::<String>::new());
}

#[test]
fn matched_token_is_not_handed_to_fallback() {
    let result = Parser::new(Vec::new(), Collect)
        .arg("-quiet".to_string(), Ignore)
        .parse(toks(&["-quiet", "loud"]));
    assert_eq!(result, vec!["loud".to_string()]);
}
