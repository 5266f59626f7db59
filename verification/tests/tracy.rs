use renzora_plugins::tracy::{
    categorise, category, config_text, default_config, parse_config, read_flag, Tracy, CATEGORY_COUNT,
};

/// Rebuild the config text and read every flag back.
fn round_trip(enabled: bool, cats: &[bool]) -> (bool, Vec<bool>) {
    parse_config(&config_text(enabled, cats))
}

fn key_of(path: &str) -> &'static str {
    category(categorise(path)).key
}

#[test]
fn round_trips_every_flag() {
    let all_on = vec![true; CATEGORY_COUNT];
    let all_off = vec![false; CATEGORY_COUNT];
    assert_eq!(round_trip(true, &all_on), (true, all_on.clone()));
    assert_eq!(round_trip(false, &all_off), (false, all_off));
    let mixed: Vec<bool> = (0..CATEGORY_COUNT).map(|i| i % 2 == 0).collect();
    assert_eq!(round_trip(true, &mixed), (true, mixed));
}

#[test]
fn garbage_reads_as_off() {
    for text in ["", "{}", "not json", "{\"enabled\":", "{\"enabled\": maybe}"] {
        assert!(!read_flag(text, "enabled", false), "{text:?} should be off");
    }
}

#[test]
fn a_missing_category_takes_its_default() {
    let old = "{\n  \"enabled\": true\n}\n";
    for i in 0..CATEGORY_COUNT {
        let cat = category(i);
        assert_eq!(read_flag(old, cat.key, cat.default), cat.default, "{} should fall back", cat.key);
    }
}

#[test]
fn paths_land_in_the_right_category() {
    assert_eq!(key_of("fps"), "frame");
    assert_eq!(key_of("frame_time"), "frame");
    assert_eq!(key_of("entity_count"), "entities");
    assert_eq!(key_of("system/cpu_usage"), "system");
    assert_eq!(key_of("process/mem_usage"), "system");
    assert_eq!(key_of("render/main_opaque_pass_3d/elapsed_gpu"), "render_gpu");
    assert_eq!(key_of("render/main_opaque_pass_3d/elapsed_cpu"), "render_cpu");
    for p in [
        "render/main_opaque_pass_3d/vertex_shader_invocations",
        "render/ui/fragment_shader_invocations",
        "render/taa/clipper_invocations",
        "render/bin_unpacking/compute_shader_invocations",
        "render/ui/clipper_primitives_out",
        "render/early prepass/clipper_primitives_out",
    ] {
        assert_eq!(key_of(p), "invocations", "{p} escaped the counter group");
    }
}

#[test]
fn an_unknown_path_falls_through_to_other() {
    assert_eq!(key_of("my_plugin/widgets_drawn"), "other");
    assert!(category(CATEGORY_COUNT - 1).default, "`other` must default on");
}

#[test]
fn growing_a_short_config_uses_defaults() {
    let mut t = Tracy { enabled: true, categories: vec![true] };
    t.grow();
    assert_eq!(t.categories.len(), CATEGORY_COUNT);
    for i in 1..CATEGORY_COUNT {
        assert_eq!(t.categories[i], category(i).default, "{} grew to the wrong value", category(i).key);
    }
    let invocations = (0..CATEGORY_COUNT).position(|i| category(i).key == "invocations").unwrap();
    assert!(!t.category_on(invocations));
}

#[test]
fn a_category_past_the_end_reads_its_default() {
    let t = Tracy { enabled: false, categories: Vec::new() };
    for i in 0..CATEGORY_COUNT {
        assert_eq!(t.category_on(i), category(i).default, "{} read wrong", category(i).key);
    }
}

#[test]
fn category_keys_are_unique() {
    for i in 0..CATEGORY_COUNT {
        for j in i + 1..CATEGORY_COUNT {
            assert_ne!(category(i).key, category(j).key, "duplicate category key");
        }
    }
}

#[test]
fn the_config_is_one_key_per_line() {
    let text = config_text(true, &[false]);
    assert_eq!(
        text,
        "{\n  \"enabled\": true,\n  \"frame\": false,\n  \"entities\": true,\n  \"system\": true,\n  \"render_gpu\": true,\n  \"render_cpu\": true,\n  \"invocations\": false,\n  \"other\": true\n}\n"
    );
}

#[test]
fn a_missing_file_is_off_with_defaults() {
    let (on, cats) = default_config();
    assert!(!on);
    assert_eq!(cats, (0..CATEGORY_COUNT).map(|i| category(i).default).collect::<Vec<_>>());
    assert_eq!(parse_config(""), (false, cats));
}

#[test]
fn a_flag_reads_past_white_space() {
    assert!(read_flag("\"k\":\n\t  true", "k", false));
    assert!(!read_flag("\"k\": false", "k", true));
    assert!(read_flag("\"k\"", "k", true), "no colon after the key reads as the default");
}

#[test]
fn switching_a_group_grows_the_list_first() {
    let mut t = Tracy { enabled: true, categories: Vec::new() };
    t.set_category(2, false);
    assert_eq!(t.categories.len(), CATEGORY_COUNT);
    assert!(!t.categories[2]);
    assert!(!t.categories[5], "the counters keep their own default");
    assert!(!t.should_plot("system/cpu_usage"));
    assert!(t.should_plot("fps"));
    t.enabled = false;
    assert!(!t.should_plot("fps"));
}
