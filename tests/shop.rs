use lumina::shop::{purchase, summarise_upgrades, GameData, Upgrade, UpgradeState, UPGRADE_COUNT};
use lumina::sim::Scaling;

const ALL: [Upgrade; UPGRADE_COUNT] = [
    Upgrade::Battery,
    Upgrade::LuminaReflection,
    Upgrade::LuminaPropagation,
    Upgrade::LuminaGeneration,
    Upgrade::LuminaLinks,
    Upgrade::LuminaCooldown,
    Upgrade::LuminaRecovery,
    Upgrade::Capacitor,
];

#[test]
fn upgrade_positions_round_trip() {
    for (i, u) in ALL.iter().enumerate() {
        assert_eq!(u.index(), i);
        assert_eq!(Upgrade::at(i), *u);
    }
}

#[test]
fn upgrade_costs() {
    assert_eq!(Upgrade::Battery.cost(1), 10);
    assert_eq!(Upgrade::LuminaGeneration.cost(2), 6);
    assert_eq!(Upgrade::Capacitor.cost(3), 15);
    assert_eq!(Upgrade::LuminaLinks.cost(4), 8);
}

#[test]
fn upgrade_effects() {
    let mut s = Scaling::default();
    Upgrade::LuminaReflection.apply(&mut s);
    assert_eq!(s.reflection_probability, 550_000);
    Upgrade::LuminaCooldown.apply(&mut s);
    assert_eq!(s.lumina_cooldown_per_generation, 95_000);
    Upgrade::LuminaGeneration.apply(&mut s);
    assert_eq!(s.generation_per_sec, 1_150_000);
    Upgrade::LuminaRecovery.apply(&mut s);
    assert_eq!(s.lumina_resume_per_sec, 346_500);
    Upgrade::Battery.apply(&mut s);
    assert_eq!(s.max_battery, 2_000_000);
    Upgrade::Capacitor.apply(&mut s);
    assert_eq!(s.max_capacitor, 500_000);
    Upgrade::LuminaLinks.apply(&mut s);
    assert_eq!(s.max_links, 4);
    let mut high = Scaling { propagation_probability: 950_000, ..Scaling::default() };
    Upgrade::LuminaPropagation.apply(&mut high);
    assert_eq!(high.propagation_probability, 1_000_000);
}

#[test]
fn hidden_upgrades() {
    let s = Scaling::default();
    let new_player = GameData::new();
    let veteran = GameData { runs: 4, ..GameData::new() };
    assert!(!Upgrade::Battery.hidden(&s, &new_player));
    assert!(Upgrade::LuminaReflection.hidden(&s, &new_player));
    assert!(!Upgrade::LuminaReflection.hidden(&s, &veteran));
    assert!(!Upgrade::LuminaCooldown.hidden(&s, &veteran));
    assert!(Upgrade::LuminaPropagation.hidden(&s, &veteran));
    let s2 = Scaling { reflection_probability: 600_000, max_battery: 3_000_000, ..s };
    assert!(!Upgrade::LuminaPropagation.hidden(&s2, &veteran));
    assert!(!Upgrade::Capacitor.hidden(&s2, &veteran));
    assert!(Upgrade::LuminaRecovery.hidden(&s2, &veteran));
}

#[test]
fn shop_order() {
    let s = Scaling::default();
    let data = GameData { network_credits: 5, ..GameData::new() };
    let states = summarise_upgrades(&s, &data, &vec![0; UPGRADE_COUNT]);
    let order: Vec<Upgrade> = states.iter().map(|st| st.upgrade).collect();
    assert_eq!(
        order,
        vec![
            Upgrade::LuminaGeneration,
            Upgrade::Battery,
            Upgrade::LuminaCooldown,
            Upgrade::LuminaPropagation,
            Upgrade::LuminaRecovery,
            Upgrade::LuminaReflection,
            Upgrade::LuminaLinks,
            Upgrade::Capacitor,
        ]
    );
    assert_eq!(
        states[0],
        UpgradeState { upgrade: Upgrade::LuminaGeneration, level: 0, cost: 3, enabled: true, hidden: false }
    );
    assert!(!states[1].enabled);
    assert!(states[2..].iter().all(|st| st.hidden && !st.enabled));
}

#[test]
fn description_order_matches_shop_order() {
    // Among entries that tie on visibility and cost, the shop orders by description.
    let s = Scaling {
        reflection_probability: 900_000,
        propagation_probability: 900_000,
        lumina_cooldown_per_generation: 50_000,
        ..Scaling::default()
    };
    let data = GameData { runs: 9, network_credits: 100, ..GameData::new() };
    let states = summarise_upgrades(&s, &data, &vec![0; UPGRADE_COUNT]);
    let twos: Vec<&str> = states.iter().filter(|st| st.cost == 2).map(|st| st.upgrade.description()).collect();
    let mut sorted = twos.clone();
    sorted.sort();
    assert_eq!(twos, sorted);
    assert_eq!(twos.len(), 5);
}

#[test]
fn buying_upgrades() {
    let mut levels = vec![0u32; UPGRADE_COUNT];
    let mut s = Scaling::default();
    let mut data = GameData { network_credits: 5, ..GameData::new() };
    assert!(purchase(Upgrade::LuminaGeneration, &mut levels, &mut s, &mut data));
    assert_eq!(data.network_credits, 2);
    assert_eq!(levels[3], 1);
    assert_eq!(s.generation_per_sec, 1_150_000);
    assert!(!purchase(Upgrade::Battery, &mut levels, &mut s, &mut data));
    assert!(!purchase(Upgrade::LuminaReflection, &mut levels, &mut s, &mut data));
    assert_eq!(data.network_credits, 2);
    assert_eq!(levels, vec![0, 0, 0, 1, 0, 0, 0, 0]);
}

#[test]
fn run_end_adds_credits() {
    let mut data = GameData::new();
    data.end_run(7);
    data.end_run(3);
    assert_eq!(data, GameData { runs: 2, network_credits: 10, last_run_network_size: 3 });
}

#[test]
fn room_for_upgrades() {
    let full = Scaling { max_battery: u64::MAX - 400_000, max_capacitor: 0, ..Scaling::default() };
    assert!(!Upgrade::Battery.fits_in(&full));
    assert!(!Upgrade::Capacitor.fits_in(&full));
    assert!(Upgrade::LuminaLinks.fits_in(&full));
    assert!(Upgrade::LuminaReflection.fits_in(&full));
    assert!(Upgrade::Battery.fits_in(&Scaling::default()));
}
