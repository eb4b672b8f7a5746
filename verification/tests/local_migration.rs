use smudgy_panes::local_migration::{
    origin_is_endpoint_a, placeholder_rooms, default_style, exit_pairs, legacy_color, legacy_dash, legacy_routing, pair_appearance, pair_kind,
    default_connection_color, exit_memberships, stayed_one_way, unpaired_kind, MAX_CONNECTION_COLOR_LEN, LegacyDash, LegacyRouting, MigratedKind, PairingExit,
};

const DEFAULT_COLOR: &str = "#9ca3af";

#[derive(Debug, Clone, Copy, PartialEq, Eq)]
enum Dir {
    North,
    South,
    East,
    West,
}

fn exit(room: i32, id: u128, to: Option<i32>, from: Dir, to_dir: Option<Dir>) -> PairingExit<Dir> {
    PairingExit {
        room,
        id,
        same_area: to.is_some(),
        to_room: to,
        from_direction: from,
        to_direction: to_dir,
    }
}

#[test]
fn fixture_a_clean_reciprocal_pair() {
    let exits = [
        exit(1, 1, Some(2), Dir::East, Some(Dir::West)),
        exit(2, 2, Some(1), Dir::West, Some(Dir::East)),
    ];
    assert_eq!(exit_pairs(&exits), vec![(0, 1)], "lower room is primary");
    assert!(stayed_one_way(&exits, &exit_pairs(&exits)).is_empty());
}

#[test]
fn fixture_b_missing_arrival_directions_still_pair() {
    let exits = [
        exit(1, 1, Some(2), Dir::East, None),
        exit(2, 2, Some(1), Dir::West, None),
    ];
    assert_eq!(exit_pairs(&exits), vec![(0, 1)]);
}

#[test]
fn fixture_c_contradictory_directions_do_not_pair() {
    let exits = [
        exit(1, 1, Some(2), Dir::East, Some(Dir::South)),
        exit(2, 2, Some(1), Dir::West, Some(Dir::North)),
    ];
    let pairs = exit_pairs(&exits);
    assert!(pairs.is_empty());
    assert_eq!(stayed_one_way(&exits, &pairs), vec![0, 1], "both stayed one-way");
}

#[test]
fn fixture_d_ambiguous_multi_return_never_pairs() {
    let exits = [
        exit(1, 1, Some(2), Dir::North, Some(Dir::South)),
        exit(2, 2, Some(1), Dir::South, Some(Dir::North)),
        exit(2, 3, Some(1), Dir::South, Some(Dir::North)),
    ];
    let pairs = exit_pairs(&exits);
    assert!(pairs.is_empty(), "ambiguity never pairs");
    assert_eq!(stayed_one_way(&exits, &pairs), vec![0, 1, 2]);
}

#[test]
fn fixture_e_two_links_between_same_rooms() {
    let exits = [
        exit(1, 1, Some(2), Dir::North, Some(Dir::South)),
        exit(2, 2, Some(1), Dir::South, Some(Dir::North)),
        exit(1, 3, Some(2), Dir::East, Some(Dir::West)),
        exit(2, 4, Some(1), Dir::West, Some(Dir::East)),
    ];
    assert_eq!(exit_pairs(&exits), vec![(0, 1), (2, 3)]);
}

#[test]
fn fixture_f_plain_one_way() {
    let exits = [
        exit(1, 1, Some(2), Dir::East, Some(Dir::West)),
        exit(3, 2, Some(4), Dir::South, None),
    ];
    let pairs = exit_pairs(&exits);
    assert!(pairs.is_empty());
    assert!(stayed_one_way(&exits, &pairs).is_empty(), "no loose counterpart");
    assert_eq!(unpaired_kind(true, 1, Some(2), false, false, 0, Some(0)), MigratedKind::Internal);
}

#[test]
fn fixture_g_self_loops() {
    let exits = [
        exit(1, 1, Some(1), Dir::East, Some(Dir::West)),
        exit(1, 2, Some(1), Dir::West, Some(Dir::East)),
    ];
    assert!(exit_pairs(&exits).is_empty(), "self-loops never pair");
    assert_eq!(unpaired_kind(true, 1, Some(1), false, false, 0, Some(0)), MigratedKind::SelfLoop);
}

#[test]
fn fixture_h_dangling_exits() {
    assert_eq!(unpaired_kind(false, 1, None, false, false, 0, None), MigratedKind::Dangling);
    assert_eq!(unpaired_kind(false, 1, None, true, false, 0, None), MigratedKind::External);
}

#[test]
fn fixture_i_cross_area_single() {
    let exits = [PairingExit {
        room: 1,
        id: 1,
        same_area: false,
        to_room: Some(7),
        from_direction: Dir::East,
        to_direction: None,
    }];
    assert!(exit_pairs(&exits).is_empty());
    assert_eq!(unpaired_kind(false, 1, Some(7), false, true, 0, None), MigratedKind::External);
}

#[test]
fn fixture_j_cross_level_pair() {
    let exits = [
        exit(1, 1, Some(2), Dir::North, Some(Dir::South)),
        exit(2, 2, Some(1), Dir::South, Some(Dir::North)),
    ];
    assert_eq!(exit_pairs(&exits), vec![(0, 1)]);
    assert_eq!(pair_kind(0, 1), MigratedKind::CrossLevel);
    assert_eq!(pair_kind(2, 2), MigratedKind::Internal);
    assert_eq!(unpaired_kind(true, 1, Some(2), false, false, 0, Some(1)), MigratedKind::CrossLevel);
}

#[test]
fn primary_order_breaks_room_ties_by_exit_id() {
    let exits = [
        exit(2, 9, Some(1), Dir::West, Some(Dir::East)),
        exit(1, 5, Some(2), Dir::East, Some(Dir::West)),
    ];
    assert_eq!(exit_pairs(&exits), vec![(1, 0)], "the lower origin room is primary");
}

#[test]
fn fixture_l_pair_appearance_conflicts() {
    let (routing, dash, color) =
        pair_appearance("Dashed", "Dotted", "#ff0000", "#0000ff");
    assert_eq!(routing, LegacyRouting::Simple);
    assert_eq!(dash, LegacyDash::Dashed, "lower origin room wins");
    assert_eq!(color, "#ff0000", "lower origin room wins");

    let (routing, dash, color) = pair_appearance("Normal", "Stub", "", "");
    assert_eq!(routing, LegacyRouting::Stub);
    assert_eq!(dash, LegacyDash::Solid);
    assert_eq!(color, DEFAULT_COLOR);

    let (routing, dash, color) = pair_appearance("Normal", "Normal", "", "#00ff00");
    assert_eq!(color, "#00ff00");
    assert_eq!(routing, LegacyRouting::Simple);
    assert_eq!(dash, LegacyDash::Solid);

    let (routing, dash, _) = pair_appearance("Stub", "Dashed", "", "");
    assert_eq!(routing, LegacyRouting::Stub);
    assert_eq!(dash, LegacyDash::Dashed);
}

#[test]
fn fixture_m_color_normalization() {
    let long_color = "a".repeat(70);
    let cases: [(&str, &str); 5] = [
        ("not a color!!", DEFAULT_COLOR),
        (&long_color, DEFAULT_COLOR),
        ("red", "red"),
        ("", DEFAULT_COLOR),
        ("#AbC", "#AbC"),
    ];
    for (raw, expected) in cases {
        assert_eq!(legacy_color(raw), expected, "{raw:?}");
        assert_eq!(legacy_routing("Normal"), LegacyRouting::Simple);
        assert_eq!(legacy_dash("Normal"), LegacyDash::Solid);
    }
}

#[test]
fn legacy_styles_map_to_routing_and_dash() {
    assert_eq!(default_style(), "Normal");
    assert_eq!(legacy_routing("Stub"), LegacyRouting::Stub);
    assert_eq!(legacy_routing("Meandering"), LegacyRouting::Simple);
    assert_eq!(legacy_dash("Dashed"), LegacyDash::Dashed);
    assert_eq!(legacy_dash("Dotted"), LegacyDash::Dotted);
    assert_eq!(legacy_dash("Stub"), LegacyDash::Solid);
}

#[test]
fn colors_are_trimmed_and_checked_by_shape() {
    assert_eq!(legacy_color("  rgba(1,2,3,0.5) "), "rgba(1,2,3,0.5)");
    assert_eq!(legacy_color("hsl(10, 20%, 30%)"), "hsl(10, 20%, 30%)");
    assert_eq!(legacy_color("#12"), DEFAULT_COLOR, "too short a hex");
    assert_eq!(legacy_color("#123456789"), DEFAULT_COLOR, "too long a hex");
    assert_eq!(legacy_color("#12345g"), DEFAULT_COLOR, "not hex");
    assert_eq!(legacy_color("ÉCRU"), DEFAULT_COLOR, "not ASCII");
    let exactly = "b".repeat(64);
    assert_eq!(legacy_color(&exactly), exactly);
    let wide = "rgb(".to_string() + &"é".repeat(31);
    assert_eq!(legacy_color(&wide), DEFAULT_COLOR, "66 bytes");
}

#[test]
fn probe_one_way_canonical_orientation_lower_room_is_a() {
    let exits = [exit(6, 1, Some(5), Dir::West, Some(Dir::East))];
    assert!(exit_pairs(&exits).is_empty());
    assert!(!origin_is_endpoint_a(6, 5), "lower room is A");
    assert!(origin_is_endpoint_a(5, 6));
    assert!(origin_is_endpoint_a(3, 3));
}

#[test]
fn same_area_destination_without_a_room_gains_a_placeholder() {
    let exits = [
        exit(1, 1, Some(9), Dir::East, None),
        exit(1, 2, Some(9), Dir::West, None),
        exit(1, 3, Some(1), Dir::North, None),
        PairingExit { room: 1, id: 4, same_area: false, to_room: Some(7), from_direction: Dir::South, to_direction: None },
        exit(1, 5, Some(8), Dir::South, None),
    ];
    assert_eq!(placeholder_rooms(&[1], &exits), vec![9, 8]);
    assert!(placeholder_rooms(&[1, 8, 9], &exits).is_empty());
}

#[test]
fn connection_colours_keep_at_most_the_limit() {
    assert_eq!(default_connection_color(), DEFAULT_COLOR);
    assert_eq!(MAX_CONNECTION_COLOR_LEN, 64);
    let exactly = "a".repeat(64);
    assert_eq!(legacy_color(&exactly), exactly);
    assert_eq!(legacy_color(&"a".repeat(65)), DEFAULT_COLOR);
}

#[test]
fn every_exit_joins_exactly_one_connection() {
    // Exits 0 and 2 pair up; 1, 3 and 4 stay one-way.
    let exits = [
        exit(1, 1, Some(2), Dir::East, Some(Dir::West)),
        exit(1, 2, None, Dir::North, None),
        exit(2, 3, Some(1), Dir::West, Some(Dir::East)),
        exit(2, 4, Some(3), Dir::South, None),
        exit(3, 5, None, Dir::North, None),
    ];
    let pairs = exit_pairs(&exits);
    assert_eq!(pairs, vec![(0, 2)]);
    assert_eq!(exit_memberships(exits.len(), &pairs), vec![0, 1, 0, 2, 3]);
}
