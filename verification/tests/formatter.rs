use sokoban_solver::config::Format;
use sokoban_solver::formatter::{parse, ParseErr};

fn assert_success_custom(input_level: &str) {
    let (map, state) = parse(input_level, Format::Custom).unwrap();
    assert_eq!(
        map.format_with_state(Format::Custom, &state).to_string(),
        input_level.trim_start()
    );
}

fn assert_failure_custom(input_level: &str, expected_err: ParseErr) {
    assert_eq!(parse(input_level, Format::Custom).unwrap_err(), expected_err);
}

fn assert_success_xsb(input_level: &str) {
    parse(input_level, Format::Xsb).unwrap();
}

fn assert_failure_xsb(input_level: &str, expected_err: ParseErr) {
    assert_eq!(parse(input_level, Format::Xsb).unwrap_err(), expected_err);
}

#[test]
fn formatter_custom_goals() {
    let level = r"
<><><><><>
<> _B_<><>
<>B B <><>
<>  P_<><>
<><><><><>
";
    assert_success_custom(level);
}

#[test]
fn formatter_custom_remover() {
    let level = r"
<><><><><>
<>  B <><>
<>B   <><>
<>  P  R<>
<><><><><>
";
    assert_success_custom(level);
}

#[test]
fn formatter_custom_player() {
    let level = r"
<><><>
<>P <>
<><><>
";
    assert_success_custom(level);
}

#[test]
fn custom_f1() {
    let level = r"
<><><>
<>  <>
<><><>
";
    assert_failure_custom(level, ParseErr::NoPlayer);
}

#[test]
fn custom_f2() {
    let level = r"
<><><><>
<>P  R<>
<> _  <>
<><><><>
";
    assert_failure_custom(level, ParseErr::RemoverAndGoals);
}

#[test]
fn xsb1() {
    let level = r"
#####
#@$.#
#####
";
    assert_success_xsb(level);
}

#[test]
fn xsb2() {
    let level = r"
*###*
#@$.#
*###*
";
    assert_success_xsb(level);
}

#[test]
fn xsb3() {
    let level = r"
    #####
    #   #
    #$  #
  ###  $##
  #  $ $ #
### # ## #   ######
#   # ## #####  ..#
# $  $          ..#
##### ### #@##  ..#
    #     #########
    #######
";
    assert_success_xsb(level);
}

#[test]
fn xsb_f1() {
    let level = r"
########
#@$.#$.#
########
";
    assert_failure_xsb(level, ParseErr::UnreachableBoxes);
}

// Checks of the remaining errors and of the processing.

#[test]
fn formatter_errors() {
    assert_failure_xsb("#####\n#@X.#\n#####", ParseErr::Pos(1, 2));
    assert_failure_xsb("#####\n#@@.#\n#####", ParseErr::MultiplePlayers);
    assert_failure_xsb("#####\n#@rr#\n#####", ParseErr::MultipleRemovers);
    assert_failure_xsb("#####\n#@$.\n#####", ParseErr::IncompleteBorder);
    assert_failure_xsb("########\n#@$ # .#\n########", ParseErr::UnreachableGoals);
    assert_failure_xsb("########\n#@$ # r#\n########", ParseErr::UnreachableRemover);
    assert_failure_xsb("######\n#@$..#\n######", ParseErr::BoxesGoals);
    assert_failure_custom("<><><>\n<>P?<>\n<><><>", ParseErr::Pos(1, 1));
}

#[test]
fn formatter_error_messages() {
    assert_eq!(ParseErr::Pos(3, 4).to_string(), "Invalid cell at pos: [3, 4]");
    assert_eq!(ParseErr::NoPlayer.to_string(), "No player");
    assert_eq!(
        ParseErr::UnreachableBoxes.to_string(),
        "Boxes that are not on goal but can't be reached"
    );
    assert_eq!(ParseErr::BoxesGoals.to_string(), "Different number of boxes and goals");
}

#[test]
fn formatter_processing() {
    // unreachable cells become walls, paired boxes and goals out of reach are dropped
    let (map, state) = parse("*###*\n#@$.#\n*###*", Format::Xsb).unwrap();
    assert_eq!(map.format_with_state(Format::Xsb, &state).to_string(), "#####\n#@$.#\n#####\n");
    assert_eq!(state.boxes.len(), 1);
}
