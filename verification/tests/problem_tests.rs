use pcb_router::astar::AStarModel;
use pcb_router::command_flags::{CommandFlag, DisplayAction};
use pcb_router::fixed_point::FixedPoint;
use pcb_router::hyperparameters::{astar_stride_from_raw, Hyperparameters};
use pcb_router::pcb_problem::{Connection, ConnectionID, NetClassName, NetName, PadLayer, PadName};
use pcb_router::settings_enum::{GetSettingsArg, StatsArgs};
use pcb_router::vec2::FixedVec2;

#[test]
fn pad_layers_list_their_layers() {
    assert_eq!(PadLayer::Front.get_iter(4), vec![0]);
    assert_eq!(PadLayer::Back.get_iter(4), vec![3]);
    assert_eq!(PadLayer::All.get_iter(4), vec![0, 1, 2, 3]);
    assert_eq!(PadLayer::Back.get_iter(1), vec![0]);
    assert_eq!(PadLayer::All.get_iter(0), Vec::<usize>::new());
}

#[test]
fn pad_layers_know_their_layers() {
    assert!(PadLayer::Front.contains(0, 2));
    assert!(!PadLayer::Front.contains(1, 2));
    assert!(PadLayer::Back.contains(1, 2));
    assert!(!PadLayer::Back.contains(0, 2));
    assert!(PadLayer::All.contains(1, 2));
    assert!(!PadLayer::All.contains(2, 2));
}

#[test]
fn names_compare_by_their_text() {
    assert!(NetName("gnd".to_string()).same_as(&NetName("gnd".to_string())));
    assert!(!NetName("gnd".to_string()).same_as(&NetName("vcc".to_string())));
    assert!(PadName("U1-1".to_string()).same_as(&PadName("U1-1".to_string())));
    assert!(!PadName("U1-1".to_string()).same_as(&PadName("U1-2".to_string())));
    assert_eq!(NetClassName("signal".to_string()), NetClassName("signal".to_string()));
}

#[test]
fn a_connection_names_its_net_and_pads() {
    let c = Connection {
        net_name: NetName("gnd".to_string()),
        connection_id: ConnectionID(3),
        start_pad: PadName("U1-1".to_string()),
        end_pad: PadName("U2-4".to_string()),
    };
    assert_eq!(c.clone().connection_id, ConnectionID(3));
    assert_eq!(c.start_pad.0, "U1-1");
}

#[test]
fn command_flags_have_levels() {
    assert_eq!(CommandFlag::AstarFrontierOrUpdatePosterior.get_level(), 0);
    assert_eq!(CommandFlag::AstarInOut.get_level(), 1);
    assert_eq!(CommandFlag::UpdatePosteriorResult.get_level(), 2);
    assert_eq!(CommandFlag::ProbaModelResult.get_level(), 3);
    assert_eq!(CommandFlag::Auto.get_level(), 4);
}

#[test]
fn a_step_blocks_when_the_shell_pauses_at_its_level() {
    let flag = CommandFlag::UpdatePosteriorResult;
    assert_eq!(flag.display_when_necessary(2, false, false), DisplayAction::RenderAndBlock);
    assert_eq!(flag.display_when_necessary(0, false, true), DisplayAction::RenderAndBlock);
    assert_eq!(flag.display_when_necessary(3, false, true), DisplayAction::Render);
    assert_eq!(flag.display_when_necessary(3, false, false), DisplayAction::Skip);
    assert_eq!(flag.display_when_necessary(0, true, true), DisplayAction::Skip);
    assert!(flag.must_block(2));
    assert!(!flag.must_block(3));
    assert!(!CommandFlag::AstarFrontierOrUpdatePosterior.must_block(1));
    assert!(CommandFlag::Auto.must_block(4));
}

#[test]
fn an_odd_stride_is_raised_by_one_tick() {
    assert_eq!(astar_stride_from_raw(FixedPoint::from_bits(65536)), FixedPoint::from_bits(65536));
    assert_eq!(astar_stride_from_raw(FixedPoint::from_bits(65535)), FixedPoint::from_bits(65536));
    assert_eq!(astar_stride_from_raw(FixedPoint::from_bits(1)), FixedPoint::from_bits(2));
}

#[test]
fn recommended_settings_are_valid() {
    let h = Hyperparameters::recommended();
    assert!(h.is_valid());
    assert!(h.use_bayesian);
    assert_eq!(h.astar_stride, FixedPoint::from_bits(65536));
    assert_eq!(h.astar_settings().astar_max_expansions, h.astar_max_expansions);
    let mut odd = h;
    odd.astar_stride = FixedPoint::from_bits(3);
    assert!(!odd.is_valid());
    let mut none = h;
    none.sample_iterations = 3;
    assert!(!none.is_valid());
    let mut zero = h;
    zero.update_proba_skip_stride = 0;
    assert!(!zero.is_valid());
}

#[test]
fn settings_arguments_hold_their_names() {
    assert_eq!(GetSettingsArg::new("via_cost".to_string()).setting, "via_cost");
    assert_eq!(StatsArgs { stat: "length".to_string() }.stat, "length");
}

#[test]
fn a_model_tells_the_layers_of_its_pads() {
    let m = AStarModel {
        start: FixedVec2::from_bits(0, 0),
        end: FixedVec2::from_bits(8, 0),
        start_layers: PadLayer::Front,
        end_layers: PadLayer::Back,
        num_layers: 2,
        trace_width: FixedPoint::from_bits(4),
        trace_clearance: FixedPoint::from_bits(2),
        via_diameter: FixedPoint::from_bits(8),
    };
    assert!(m.in_layers(0, PadLayer::Front));
    assert!(!m.in_layers(1, PadLayer::Front));
    assert!(m.in_layers(1, PadLayer::Back));
    assert!(m.in_layers(1, PadLayer::All));
    assert_eq!(m.is_aligned_with_end(FixedVec2::from_bits(0, 0), 0), None);
    assert_eq!(
        m.is_aligned_with_end(FixedVec2::from_bits(0, 0), 1),
        Some(pcb_router::direction::Direction::Right)
    );
    assert_eq!(m.is_aligned_with_end(FixedVec2::from_bits(1, 4), 1), None);
    assert_eq!(m.is_aligned_with_end(FixedVec2::from_bits(8, 0), 1), None);
}
