use sokoban_solver::config::Format;
use sokoban_solver::level::Level;
use sokoban_solver::parser::{parse_format, ParserErr};

fn assert_failure(input_level: &str, expected_err: ParserErr) {
    assert_eq!(input_level.parse::<Level>().unwrap_err(), expected_err);
}

fn assert_success_custom(input_level: &str) {
    let level = parse_format(input_level, Format::Custom).unwrap();
    assert_eq!(
        level.format(Format::Custom).to_string(),
        input_level.trim_start_matches('\n')
    );
}

fn assert_success_xsb(input_level: &str) {
    let level = parse_format(input_level, Format::Xsb).unwrap();
    assert_eq!(
        level.format(Format::Xsb).to_string(),
        input_level.trim_start_matches('\n')
    );
}

#[test]
fn custom_fail_empty() {
    let level = "";
    assert_failure(level, ParserErr::NoPlayer);
}

#[test]
fn custom_fail_no_player() {
    let level = r"
<><><>
<>  <>
<><><>
";
    assert_failure(level, ParserErr::NoPlayer);
}

#[test]
fn custom_fail_remover_and_goals() {
    let level = r"
<><><><>
<>P  R<>
<> _  <>
<><><><>
";
    assert_failure(level, ParserErr::RemoverAndGoals);
}

#[test]
fn custom_fail_box_on_remover() {
    let level = r"
<><><><>
<>P BR<>
<><><><>
";
    assert_failure(level, ParserErr::BoxOnRemover);
}

#[test]
fn parser_custom_goals() {
    let level = r"
<><><><><>
<> _B_<><>
<>B B <><>
<>  P_<><>
<><><><><>
";
    assert_success_custom(level);
}

#[test]
fn parser_custom_player() {
    let level = r"
<><><>
<>P <>
<><><>
";
    assert_success_custom(level);
}

#[test]
fn xsb_fail_pos() {
    let level = r"
#####
#@X.#
#####
";
    assert_failure(level, ParserErr::Pos(1, 2));
}

#[test]
fn xsb_simplest() {
    let level = r"
#####
#@$.#
#####
";
    assert_success_xsb(level);
}

#[test]
fn xsb_corner_boxes() {
    let level = r"
*###*
#@$.#
*###*
";
    assert_success_xsb(level);
}

#[test]
fn xsb_original_1() {
    let level = r"
    #####
    #   #
    #$  #
  ###  $##
  #  $ $ #
### # ## #   ######
#   # ## #####  ..#
# $  $          ..#
##### ### #@##  ..#
    #     #########
    #######
";
    assert_success_xsb(level);
}

// Levels with a remover are read too.
#[test]
fn parser_custom_remover_read() {
    let level = r"
<><><><><>
<>  B <><>
<>B   <><>
<>  P  R<>
<><><><><>
";
    assert_success_custom(level);
}

#[test]
fn parser_errors() {
    assert_failure("#####\n#@@.#\n#####", ParserErr::MultiplePlayers);
    assert_failure("#####\n#@rr#\n#####", ParserErr::MultipleRemovers);
    assert_failure("#####\n# $.#\n#####", ParserErr::NoPlayer);
    assert_failure("#####\n#@r.#\n#####", ParserErr::RemoverAndGoals);
    assert_eq!(ParserErr::Pos(1, 2).to_string(), "Invalid cell at pos: [1, 2]");
}

#[test]
fn format_detected_from_first_cell() {
    // the first character is an XSB wall, so this is XSB
    assert_failure("#<", ParserErr::Pos(0, 1));
    assert_failure("#<>", ParserErr::Pos(0, 1));
    // leading whitespace is skipped before looking for a custom wall
    assert_failure("  \n<x", ParserErr::Pos(1, 0));
}
