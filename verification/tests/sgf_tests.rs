use sgf::parse_identifier;
use sgf::parse_node;
use sgf::parse_property;
use sgf::parse_sequence;
use sgf::parse_sgf_string;
use sgf::parse_value;
use sgf::board::Board;
use sgf::board::PlayerDependant;
use sgf::board::BLACK;
use sgf::board::WHITE;

fn chars(s: &str) -> Vec<char> {
    s.chars().collect()
}

fn rest(input: &[char], pos: usize) -> String {
    input[pos..].iter().collect()
}

#[test]
fn parse_value_test() {
    let input = chars("[abc]123");
    let (value, pos) = parse_value(&input, 0).unwrap();
    assert_eq!(value, "abc".to_owned());
    assert_eq!(rest(&input, pos), "123");

    let input = chars("[ab\\]c]123");
    let (value, pos) = parse_value(&input, 0).unwrap();
    assert_eq!(value, "ab]c".to_owned());
    assert_eq!(rest(&input, pos), "123");

    let input = chars("abc\\]");
    assert!(parse_value(&input, 0).is_err());
}

#[test]
fn parse_identifier_test() {
    let input = chars("ABC[123]");
    let (id, pos) = parse_identifier(&input, 0).unwrap();
    assert_eq!(id, "ABC".to_owned());
    assert_eq!(rest(&input, pos), "[123]");

    let input = chars("ab");
    assert!(parse_identifier(&input, 0).is_err());
}

#[test]
fn parse_property_test() {
    let input = chars("AB[12][34]");
    let ((id, values), pos) = parse_property(&input, 0).unwrap();
    assert_eq!(rest(&input, pos), "");
    assert_eq!(id, "AB".to_owned());
    assert_eq!(values, vec!["12".to_owned(), "34".to_owned()]);
}

#[test]
fn plain_value_parses_to_itself() {
    let input = chars("[hello world]");
    let (value, pos) = parse_value(&input, 0).unwrap();
    assert_eq!(value, "hello world".to_owned());
    assert_eq!(pos, input.len());
}

#[test]
fn escaped_bracket_is_decoded() {
    let input = chars("[ab\\]c]");
    let (value, pos) = parse_value(&input, 0).unwrap();
    assert_eq!(value, "ab]c".to_owned());
    assert_eq!(pos, input.len());
}

#[test]
fn empty_value_yields_empty_string() {
    let input = chars("[]");
    let (value, pos) = parse_value(&input, 0).unwrap();
    assert_eq!(value, "".to_owned());
    assert_eq!(pos, 2);
}

#[test]
fn malformed_values_are_rejected() {
    // missing closing bracket
    assert!(parse_value(&chars("[abc"), 0).is_err());
    // input ends in the middle of an escape
    assert!(parse_value(&chars("[abc\\"), 0).is_err());
    // an escape that is not `\]`
    assert!(parse_value(&chars("[a\\bc]"), 0).is_err());
    // cursor not on a `[`
    assert!(parse_value(&chars("abc"), 0).is_err());
}

#[test]
fn identifier_rejects_lowercase() {
    assert!(parse_identifier(&chars("ab"), 0).is_err());
    assert!(parse_identifier(&chars("1AB"), 0).is_err());
    assert!(parse_identifier(&chars(""), 0).is_err());
}

#[test]
fn property_requires_a_value() {
    // an identifier with no following bracket is not a property
    assert!(parse_property(&chars("AB"), 0).is_err());
    assert!(parse_property(&chars("AB;"), 0).is_err());
}

#[test]
fn node_accepts_zero_properties() {
    let input = chars(";");
    let (node, pos) = parse_node(&input, 0).unwrap();
    assert_eq!(pos, 1);
    assert_eq!(node.property_count(), 0);
    assert_eq!(node.get("AB"), None);
}

#[test]
fn node_requires_leading_semicolon() {
    assert!(parse_node(&chars("AB[12]"), 0).is_err());
    assert!(parse_node(&chars(""), 0).is_err());
}

#[test]
fn node_duplicate_identifier_keeps_last() {
    let input = chars(";AB[1]AB[2]");
    let (node, pos) = parse_node(&input, 0).unwrap();
    assert_eq!(pos, input.len());
    assert_eq!(node.property_count(), 1);
    assert_eq!(node.get("AB"), Some(&vec!["2".to_owned()]));
}

#[test]
fn sequence_requires_one_node() {
    assert!(parse_sequence(&chars(""), 0).is_err());
    assert!(parse_sequence(&chars("(;)"), 0).is_err());

    let input = chars(";B[aa];W[bb]");
    let (nodes, pos) = parse_sequence(&input, 0).unwrap();
    assert_eq!(pos, input.len());
    assert_eq!(nodes.len(), 2);
    assert_eq!(nodes[0].get("B"), Some(&vec!["aa".to_owned()]));
    assert_eq!(nodes[1].get("W"), Some(&vec!["bb".to_owned()]));
}

#[test]
fn game_tree_recursion() {
    let trees = parse_sgf_string("(;B[aa](;W[bb])(;W[cc]))").unwrap();
    assert_eq!(trees.len(), 1);
    let tree = &trees[0];
    assert_eq!(tree.nodes.len(), 1);
    assert_eq!(tree.nodes[0].property_count(), 1);
    assert_eq!(tree.nodes[0].get("B"), Some(&vec!["aa".to_owned()]));
    assert_eq!(tree.children.len(), 2);
    assert_eq!(tree.children[0].nodes.len(), 1);
    assert_eq!(tree.children[0].nodes[0].get("W"), Some(&vec!["bb".to_owned()]));
    assert!(tree.children[0].children.is_empty());
    assert_eq!(tree.children[1].nodes.len(), 1);
    assert_eq!(tree.children[1].nodes[0].get("W"), Some(&vec!["cc".to_owned()]));
    assert!(tree.children[1].children.is_empty());
}

#[test]
fn top_level_rejects_trailing_input() {
    assert!(parse_sgf_string("(;B[aa])").is_ok());
    assert!(parse_sgf_string("(;B[aa])garbage").is_err());
}

#[test]
fn top_level_rejects_malformed_documents() {
    assert!(parse_sgf_string("").is_err());
    assert!(parse_sgf_string("()").is_err());
    assert!(parse_sgf_string("(;B[aa]").is_err());
    assert!(parse_sgf_string(";B[aa]").is_err());
    assert!(parse_sgf_string("(;B)").is_err());
}

#[test]
fn top_level_accepts_several_trees() {
    let trees = parse_sgf_string("(;B[aa])(;W[bb];B[cc])").unwrap();
    assert_eq!(trees.len(), 2);
    assert_eq!(trees[0].nodes[0].get("B"), Some(&vec!["aa".to_owned()]));
    assert_eq!(trees[1].nodes.len(), 2);
    assert_eq!(trees[1].nodes[0].get("W"), Some(&vec!["bb".to_owned()]));
    assert_eq!(trees[1].nodes[1].get("B"), Some(&vec!["cc".to_owned()]));
}

#[test]
fn parsing_twice_yields_equal_trees() {
    let text = "(;B[aa]C[a\\]b](;W[bb])(;W[cc];B[dd]))";
    let first = parse_sgf_string(text).unwrap();
    let second = parse_sgf_string(text).unwrap();
    assert_eq!(first, second);
}

#[test]
fn player_dependant_stores_per_player() {
    let pd: PlayerDependant<u64> = PlayerDependant::new([3, 7]);
    assert_eq!(*pd.get(WHITE), 3);
    assert_eq!(*pd.get(BLACK), 7);
}

#[test]
fn board_holds_dimensions() {
    let board = Board {
        intersections: [
            PlayerDependant::new([0, 0]),
            PlayerDependant::new([0, 0]),
            PlayerDependant::new([0, 0]),
            PlayerDependant::new([0, 0]),
            PlayerDependant::new([0, 0]),
            PlayerDependant::new([0, 0]),
        ],
        size: (9, 9),
    };
    assert_eq!(board.size, (9, 9));
    assert_eq!(*board.intersections[0].get(BLACK), 0);
}
