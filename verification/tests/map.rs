use sokoban_solver::config::Format;
use sokoban_solver::level::Level;

#[test]
fn formatting_map() {
    let xsb_level: &str = r"
*####*
#@$.*#
*####*#
"
    .trim_start_matches('\n');
    let xsb_map: &str = "
.####.
#  ..#
.####.#
"
    .trim_start_matches('\n');
    let custom_level: &str = r"
B_<><><><>B_
<>P B  _B_<>
B_<><><><>B_<>
"
    .trim_start_matches('\n');
    let custom_map: &str = r"
 _<><><><> _
<>     _ _<>
 _<><><><> _<>
"
    .trim_start_matches('\n');

    let level: Level = xsb_level.parse().unwrap();
    let map = level.map();

    // default
    assert_eq!(map.to_string(), xsb_map);
    assert_eq!(format!("{}", map.to_string()), xsb_map);
    assert_eq!(format!("{}", map.to_string()), xsb_map);

    // xsb
    assert_eq!(map.xsb().to_string(), xsb_map);
    assert_eq!(map.format(Format::Xsb).to_string(), xsb_map);
    assert_eq!(format!("{}", map.xsb().to_string()), xsb_map);
    assert_eq!(format!("{}", map.xsb().to_string()), xsb_map);

    // custom
    assert_eq!(map.custom().to_string(), custom_map);
    assert_eq!(map.format(Format::Custom).to_string(), custom_map);
    assert_eq!(format!("{}", map.custom().to_string()), custom_map);
    assert_eq!(format!("{}", map.custom().to_string()), custom_map);

    // with state xsb
    assert_eq!(map.xsb_with_state(&level.state).to_string(), xsb_level);
    assert_eq!(
        map.format_with_state(Format::Xsb, &level.state).to_string(),
        xsb_level
    );

    // with state custom
    assert_eq!(map.custom_with_state(&level.state).to_string(), custom_level);
    assert_eq!(
        map.format_with_state(Format::Custom, &level.state).to_string(),
        custom_level
    );
}
