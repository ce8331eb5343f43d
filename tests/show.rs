use tunnels::show::Config;

#[test]
fn default_config_runs_live_without_control_surfaces() {
    let c = Config::default();
    assert!(!c.use_midi);
    assert!(c.midi_devices.is_empty());
    assert!(!c.report_framerate);
    assert_eq!(c.log_level, log::Level::Debug);
    assert!(c.test_mode.is_none());
}
