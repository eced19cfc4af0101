use battlefield::config::{
    default_bleed_zone_threshold, default_enemy_count, default_garrison_cap,
    default_playable_size, default_village_stock_cap,
};
use battlefield::render_util::{
    build_fog_pixels, faction_ribbon_row, fog_alpha, is_visible_to_player, order_label,
    small_ribbon_row, smooth_fog_alpha, tile_flip, variant_index, visible_neighbor_count,
    zone_border_rgba, zone_fill_rgba, zone_pip_rgb,
};
use battlefield::rendering::pawn_color_index;
use battlefield::unit::{Faction, OrderKind};
use battlefield::zone::ZoneState;

#[test]
fn tile_flip_is_a_checkerboard() {
    assert!(tile_flip(0, 0));
    assert!(!tile_flip(1, 0));
    assert!(!tile_flip(0, 1));
    assert!(tile_flip(7, 3));
}

#[test]
fn variant_index_hashes_the_position() {
    assert_eq!(variant_index(3, 5, 4, 73856093, 19349663), 2);
    assert_eq!(variant_index(0, 0, 3, 1, 1), 0);
    for gx in 0..20 {
        assert!(variant_index(gx, 2 * gx, 5, 73856093, 19349663) < 5);
    }
}

#[test]
fn visibility_of_units() {
    let visible = vec![false, true, false, false];
    assert!(is_visible_to_player(Faction::Blue, 0, 0, &visible, 2));
    assert!(!is_visible_to_player(Faction::Red, 0, 0, &visible, 2));
    assert!(is_visible_to_player(Faction::Red, 1, 0, &visible, 2));
    assert!(!is_visible_to_player(Faction::Red, 5, 5, &visible, 2));
}

#[test]
fn order_labels() {
    assert_eq!(order_label(Some(&OrderKind::Follow)), Some("FOLLOW"));
    assert_eq!(order_label(Some(&OrderKind::Charge)), Some("CHARGE"));
    assert_eq!(order_label(Some(&OrderKind::Defend)), Some("DEFEND"));
    assert_eq!(order_label(None), None);
}

#[test]
fn zone_colors() {
    assert_eq!(zone_fill_rgba(ZoneState::Neutral), (200, 200, 200, 15));
    assert_eq!(zone_fill_rgba(ZoneState::Capturing(Faction::Red)), (255, 60, 60, 20));
    assert_eq!(zone_fill_rgba(ZoneState::Controlled(Faction::Red)), (255, 60, 60, 30));
    assert_eq!(zone_border_rgba(ZoneState::Contested), (255, 200, 0, 100));
    assert_eq!(zone_border_rgba(ZoneState::Controlled(Faction::Blue)), (60, 120, 255, 128));
    assert_eq!(zone_pip_rgb(ZoneState::Neutral), (150, 150, 150));
    assert_eq!(
        zone_pip_rgb(ZoneState::Capturing(Faction::Blue)),
        zone_pip_rgb(ZoneState::Controlled(Faction::Blue))
    );
}

#[test]
fn control_is_stronger_than_capture() {
    for f in [Faction::Blue, Faction::Red] {
        let c = zone_fill_rgba(ZoneState::Capturing(f));
        let h = zone_fill_rgba(ZoneState::Controlled(f));
        assert_eq!((c.0, c.1, c.2), (h.0, h.1, h.2));
        assert!(c.3 < h.3);
    }
}

#[test]
fn zone_fill_and_border_share_a_color() {
    let states = [
        ZoneState::Neutral,
        ZoneState::Contested,
        ZoneState::Capturing(Faction::Blue),
        ZoneState::Capturing(Faction::Red),
        ZoneState::Controlled(Faction::Blue),
        ZoneState::Controlled(Faction::Red),
    ];
    for s in states {
        let f = zone_fill_rgba(s);
        let b = zone_border_rgba(s);
        assert_eq!((f.0, f.1, f.2), (b.0, b.1, b.2));
        assert!(f.3 < b.3);
        if s != ZoneState::Neutral {
            assert_eq!((f.0, f.1, f.2), zone_pip_rgb(s));
        }
    }
}

#[test]
fn fog_levels() {
    assert_eq!(fog_alpha(true, true), 0);
    assert_eq!(fog_alpha(false, true), 160);
    assert_eq!(fog_alpha(false, false), 240);
}

#[test]
fn smooth_fog_edges() {
    // 3×3, only the centre visible.
    let mut visible = vec![false; 9];
    visible[4] = true;
    assert_eq!(visible_neighbor_count(&visible, 1, 1, 3, 3), 0);
    assert_eq!(visible_neighbor_count(&visible, 0, 0, 3, 3), 1);
    // Visible centre with eight fogged neighbours: (8 - 2) * 10.
    assert_eq!(smooth_fog_alpha(&visible, 1, 1, 3, 3), 60);
    // Hidden corner with one visible neighbour: 140 - 15.
    assert_eq!(smooth_fog_alpha(&visible, 0, 0, 3, 3), 125);
    // Hidden tile among many visible ones bottoms out at 38.
    let mut open = vec![true; 9];
    open[4] = false;
    assert_eq!(smooth_fog_alpha(&open, 1, 1, 3, 3), 38);
    let pixels = build_fog_pixels(&visible, 3, 3);
    assert_eq!(pixels.len(), 36);
    assert_eq!(pixels[4 * 4 + 3], 60);
    assert_eq!(pixels[3], 125);
    assert_eq!(pixels[0], 0);
    assert_eq!(pixels[1], 0);
}

#[test]
fn ribbon_rows() {
    assert_eq!(small_ribbon_row(Faction::Blue), 1);
    assert_eq!(small_ribbon_row(Faction::Red), 3);
    assert_eq!(faction_ribbon_row(Faction::Blue), 0);
    assert_eq!(faction_ribbon_row(Faction::Red), 1);
}

#[test]
fn pawn_colors_follow_zone_owner() {
    let states = vec![
        ZoneState::Controlled(Faction::Red),
        ZoneState::Neutral,
        ZoneState::Capturing(Faction::Blue),
        ZoneState::Contested,
    ];
    assert_eq!(pawn_color_index(None, Faction::Blue, &states), 0);
    assert_eq!(pawn_color_index(None, Faction::Red, &states), 1);
    assert_eq!(pawn_color_index(Some(0), Faction::Blue, &states), 1);
    assert_eq!(pawn_color_index(Some(1), Faction::Blue, &states), 2);
    assert_eq!(pawn_color_index(Some(2), Faction::Red, &states), 0);
    assert_eq!(pawn_color_index(Some(3), Faction::Red, &states), 2);
    assert_eq!(pawn_color_index(Some(9), Faction::Red, &states), 2);
}

#[test]
fn config_defaults() {
    assert_eq!(default_playable_size(), 160);
    assert_eq!(default_village_stock_cap(), 5);
    assert_eq!(default_enemy_count(), 1);
    assert_eq!(default_garrison_cap(), 4);
    assert_eq!(default_bleed_zone_threshold(), 4);
}

#[test]
fn pawn_colors_for_every_side() {
    let states = vec![ZoneState::Controlled(Faction::Yellow), ZoneState::Capturing(Faction::Purple)];
    assert_eq!(pawn_color_index(None, Faction::Villager, &states), 2);
    assert_eq!(pawn_color_index(None, Faction::Yellow, &states), 3);
    assert_eq!(pawn_color_index(None, Faction::Purple, &states), 4);
    assert_eq!(pawn_color_index(Some(0), Faction::Blue, &states), 3);
    assert_eq!(pawn_color_index(Some(1), Faction::Blue, &states), 4);
}
