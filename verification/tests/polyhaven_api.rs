use renzora_plugins::polyhaven::api::{
    catalogue_url, filename_of, files_url, percent_decode, plan, plan_hdri, plan_model, plan_texture,
    safe_rel, sort_catalogue, thumb_url, Asset, FilePlan, Json, Kind,
};

fn s(v: &str) -> String {
    v.to_string()
}

fn obj(entries: Vec<(&str, Json)>) -> Json {
    Json::Object(entries.into_iter().map(|(k, v)| (k.to_string(), v)).collect())
}

fn leaf(url: &str) -> Json {
    obj(vec![("url", Json::Str(url.to_string()))])
}

fn rels(plan: &[FilePlan]) -> Vec<String> {
    plan.iter().map(|p| p.rel.clone()).collect()
}

#[test]
fn unsafe_paths_are_refused() {
    assert!(safe_rel("textures/diff.jpg").is_some());
    assert!(safe_rel("../escape.bin").is_none());
    assert!(safe_rel("textures/../../escape.bin").is_none());
    assert!(safe_rel("/etc/passwd").is_none());
    assert!(safe_rel("C:/windows/system32").is_none());
    assert!(safe_rel("a//b").is_none());
    assert!(safe_rel("..\\escape").is_none());
}

#[test]
fn percent_escapes_decode() {
    assert_eq!(percent_decode("Color%20Charts"), "Color Charts");
    assert_eq!(percent_decode("plain.hdr"), "plain.hdr");
    assert_eq!(percent_decode("odd%2"), "odd%2");
}

#[test]
fn filename_strips_query_and_decodes() {
    let url = "https://dl.polyhaven.org/file/ph-assets/HDRIs/hdr/1k/road%201k.hdr?x=1";
    assert_eq!(filename_of(url).unwrap(), "road 1k.hdr");
}

#[test]
fn a_missing_resolution_falls_back() {
    let slot = obj(vec![("2k", obj(vec![("hdr", leaf("https://x/a_2k.hdr"))]))]);
    let files = obj(vec![("hdri", slot)]);
    let plan = plan_hdri(&files, "16k").unwrap();
    assert_eq!(plan.len(), 1);
    assert_eq!(plan[0].rel, "a_2k.hdr");
}

#[test]
fn a_model_takes_its_includes_at_their_own_paths() {
    let extras = obj(vec![
        ("Chair.bin", leaf("https://x/Chair.bin")),
        ("textures/diff.jpg", leaf("https://x/diff.jpg")),
    ]);
    let gltf = obj(vec![
        ("url", Json::Str(s("https://x/Chair_1k.gltf"))),
        ("include", extras),
    ]);
    let files = obj(vec![("gltf", obj(vec![("1k", obj(vec![("gltf", gltf)]))]))]);
    let plan = plan_model(&files, "1k").unwrap();
    let mut got = rels(&plan);
    got.sort();
    assert_eq!(got, ["Chair.bin", "Chair_1k.gltf", "textures/diff.jpg"]);
}

#[test]
fn a_texture_skips_slots_it_does_not_publish() {
    let map = || obj(vec![("1k", obj(vec![("jpg", leaf("https://x/m.jpg"))]))]);
    let files = obj(vec![("Diffuse", map()), ("Rough", map())]);
    let plan = plan_texture(&files, "1k").unwrap();
    assert_eq!(plan.len(), 2, "Metal and Displacement are absent, not fatal");
}

#[test]
fn search_terms_all_have_to_match() {
    let asset = Asset {
        slug: s("arm_chair_01"),
        name: s("Arm Chair 01"),
        tags: vec![s("wood"), s("vintage")],
        categories: vec![s("furniture")],
        ..Default::default()
    };
    assert!(asset.matches(&[s("chair")]));
    assert!(asset.matches(&[s("wood"), s("chair")]));
    assert!(asset.matches(&[s("furniture")]));
    assert!(!asset.matches(&[s("chair"), s("metal")]));
}

#[test]
fn an_empty_query_matches_everything() {
    let asset = Asset { name: s("Anything"), ..Default::default() };
    assert!(asset.matches(&[]));
}

#[test]
fn matching_is_by_substring_of_the_lowercased_fields() {
    let asset = Asset {
        slug: s("old_barrel"),
        name: s("Old Barrel"),
        tags: vec![s("Wood")],
        ..Default::default()
    };
    assert!(asset.matches(&[s("barr")]));
    assert!(asset.matches(&[s("old_b")]));
    assert!(asset.matches(&[s("wood")]));
    assert!(!asset.matches(&[s("Barrel")]), "terms arrive lowercased; an uppercase term matches nothing lowercased");
}

#[test]
fn kinds_have_their_names() {
    assert_eq!(Kind::Hdris.slug(), "hdris");
    assert_eq!(Kind::Textures.slug(), "textures");
    assert_eq!(Kind::Models.slug(), "models");
    assert_eq!(Kind::Hdris.label(), "HDRIs");
    assert_eq!(Kind::Textures.label(), "Textures");
    assert_eq!(Kind::Models.label(), "Models");
    assert_eq!(Kind::Hdris.icon(), "sun");
    assert_eq!(Kind::Textures.icon(), "grid-nine");
    assert_eq!(Kind::Models.icon(), "cube");
    assert_eq!(Kind::Models.folder(), "models");
    for (i, k) in Kind::ALL.iter().enumerate() {
        assert_eq!(k.index(), i);
    }
}

#[test]
fn urls_are_built_from_the_slug() {
    assert_eq!(catalogue_url(Kind::Models), "https://api.polyhaven.com/assets?t=models");
    assert_eq!(files_url("arm_chair"), "https://api.polyhaven.com/files/arm_chair");
    assert_eq!(
        thumb_url("arm_chair"),
        "https://cdn.polyhaven.com/asset_img/thumbs/arm_chair.png?width=256"
    );
}

#[test]
fn credit_joins_author_names() {
    let mut a = Asset::default();
    assert_eq!(a.credit(), "");
    a.authors = vec![(s("Andreas Mischok"), s("All")), (s("Kirill Sannikov"), s("Photo"))];
    assert_eq!(a.credit(), "Andreas Mischok, Kirill Sannikov");
    a.authors = vec![(s("Kirill Sannikov"), s("Photo")), (s("Andreas Mischok"), s("All"))];
    assert_eq!(a.credit(), "Andreas Mischok, Kirill Sannikov", "ascending, as the map gives them");
    a.authors = vec![(s("B"), s("x")), (s("A"), s("y")), (s("B"), s("z"))];
    assert_eq!(a.credit(), "A, B", "each name once");
    a.authors = vec![(s("Rico Cilliers"), s("All"))];
    assert_eq!(a.credit(), "Rico Cilliers");
}

#[test]
fn catalogue_runs_newest_first_then_by_name() {
    let entry = |slug: &str, name: &str, date: i64| {
        (s(slug), Asset { name: s(name), date_published: date, ..Default::default() })
    };
    let out = sort_catalogue(vec![
        entry("a", "Zeta", 10),
        entry("b", "Alpha", 10),
        entry("c", "Old", 1),
        entry("d", "New", 99),
    ]);
    let slugs: Vec<&str> = out.iter().map(|a| a.slug.as_str()).collect();
    assert_eq!(slugs, ["d", "b", "a", "c"]);
}

#[test]
fn filename_errors_name_the_url() {
    assert_eq!(
        filename_of("https://x/dir/").unwrap_err(),
        "no filename in url: https://x/dir/"
    );
    assert_eq!(
        filename_of("https://x/%2E%2E").unwrap_err(),
        "unsafe filename in url: https://x/%2E%2E"
    );
}

#[test]
fn safe_rel_normalises_backslashes() {
    assert_eq!(safe_rel("textures\\diff.jpg").unwrap(), "textures/diff.jpg");
    assert!(safe_rel("").is_none());
    assert!(safe_rel("a/./b").is_none());
}

#[test]
fn percent_decode_takes_both_cases_of_hex() {
    assert_eq!(percent_decode("%41%6a"), "Aj");
    assert_eq!(percent_decode("%zz1"), "%zz1");
    assert_eq!(percent_decode("%+1"), "%+1", "only two hex digits make an escape");
    assert_eq!(percent_decode("a%2"), "a%2");
}

#[test]
fn the_filename_comes_from_the_path_not_the_query() {
    assert_eq!(filename_of("https://x/a.hdr?v=1/2").unwrap(), "a.hdr");
    assert_eq!(filename_of("https://x/b.exr#frag/x").unwrap(), "b.exr");
    assert_eq!(
        filename_of("https://x/dir/?q=1").unwrap_err(),
        "no filename in url: https://x/dir/?q=1"
    );
}

#[test]
fn an_hdri_takes_exr_when_there_is_no_hdr() {
    let files = obj(vec![(
        "hdri",
        obj(vec![("1k", obj(vec![("exr", leaf("https://x/sky_1k.exr"))]))]),
    )]);
    let plan = plan_hdri(&files, "1k").unwrap();
    assert_eq!(plan[0].url, "https://x/sky_1k.exr");
    assert_eq!(plan[0].rel, "sky_1k.exr");
}

#[test]
fn planning_errors_say_what_is_missing() {
    let empty = obj(vec![]);
    assert_eq!(plan_hdri(&empty, "1k").unwrap_err(), "no `hdri` files for this asset");
    assert_eq!(
        plan_hdri(&obj(vec![("hdri", obj(vec![]))]), "1k").unwrap_err(),
        "no resolutions published"
    );
    assert!(plan_texture(&empty, "1k").is_err());
    assert!(plan_model(&empty, "1k").is_err());
}

#[test]
fn plan_dispatches_on_the_kind() {
    let files = obj(vec![(
        "hdri",
        obj(vec![("1k", obj(vec![("hdr", leaf("https://x/a.hdr"))]))]),
    )]);
    assert_eq!(rels(&plan(Kind::Hdris, &files, "1k").unwrap()), ["a.hdr"]);
    assert!(plan(Kind::Models, &files, "1k").is_err());
}

#[test]
fn an_include_that_escapes_is_refused() {
    let extras = obj(vec![("../../evil.bin", leaf("https://x/evil.bin"))]);
    let gltf = obj(vec![("url", Json::Str(s("https://x/m.gltf"))), ("include", extras)]);
    let files = obj(vec![("gltf", obj(vec![("1k", obj(vec![("gltf", gltf)]))]))]);
    assert!(plan_model(&files, "1k").is_err());
}

#[test]
fn json_get_reads_objects_only() {
    let o = obj(vec![("k", Json::Str(s("v")))]);
    assert!(matches!(o.get("k"), Some(Json::Str(v)) if v == "v"));
    assert!(o.get("missing").is_none());
    assert!(Json::Str(s("x")).get("k").is_none());
    assert!(Json::Other.get("k").is_none());
}

#[test]
fn a_safe_path_is_its_own_safe_path() {
    for p in ["textures/diff.jpg", "a\\b\\c.bin", "x.gltf"] {
        let once = safe_rel(p).unwrap();
        assert_eq!(safe_rel(&once).unwrap(), once);
    }
}

#[test]
fn text_without_escapes_decodes_to_itself() {
    for t in ["plain.hdr", "naïve 東京.bin", ""] {
        assert_eq!(percent_decode(t), t);
    }
}
