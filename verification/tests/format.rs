use art_engine::generator::Attribute;
use art_engine::images::{merge, Image, Rgba};
use art_engine::metadata::{metadata_to_json, synthesize, Metadata};
use art_engine::utils::{hex_upper, path_to_asset_name, u64_to_string};
use art_engine::Collection;

fn px(r: u8, g: u8, b: u8, a: u8) -> Rgba {
    Rgba { r, g, b, a }
}

fn image(width: u32, height: u32, pixels: Vec<Rgba>) -> Image {
    Image { width, height, pixels }
}

fn attr(t: &str, v: &str) -> Attribute {
    Attribute { trait_type: t.to_string(), value: v.to_string() }
}

#[test]
fn synthesized_metadata_for_token_three() {
    let collection = Collection {
        name: "Foo".to_string(),
        description: "Bar".to_string(),
        base_uri: "https://x/".to_string(),
    };
    let m = synthesize(&collection, 3, vec![attr("A", "red")]);
    assert_eq!(m.name, "Foo #3");
    assert_eq!(m.description, "Bar");
    assert_eq!(m.image, "https://x/3");
    assert_eq!(m.attributes.len(), 1);
    assert_eq!(m.attributes[0].trait_type, "A");
    assert_eq!(m.attributes[0].value, "red");
}

#[test]
fn metadata_json_has_the_expected_shape() {
    let m = Metadata {
        name: "Foo #1".to_string(),
        description: "Bar".to_string(),
        image: "https://x/1".to_string(),
        attributes: vec![attr("A", "red"), attr("B", "circle")],
    };
    assert_eq!(
        metadata_to_json(&m),
        "{\"name\":\"Foo #1\",\"description\":\"Bar\",\"image\":\"https://x/1\",\
         \"attributes\":[{\"trait_type\":\"A\",\"value\":\"red\"},\
         {\"trait_type\":\"B\",\"value\":\"circle\"}]}"
    );
}

#[test]
fn metadata_json_round_trips_through_a_json_parser() {
    let m = Metadata {
        name: "quote \" back\\slash".to_string(),
        description: "line\nbreak and tab\t".to_string(),
        image: "https://x/9".to_string(),
        attributes: vec![attr("A", "r\"ed"), attr("B", "")],
    };
    let doc = metadata_to_json(&m);
    let v: serde_json::Value = serde_json::from_str(&doc).unwrap();
    assert_eq!(v["name"].as_str().unwrap(), m.name);
    assert_eq!(v["description"].as_str().unwrap(), m.description);
    assert_eq!(v["image"].as_str().unwrap(), m.image);
    let attrs = v["attributes"].as_array().unwrap();
    assert_eq!(attrs.len(), 2);
    assert_eq!(attrs[0]["trait_type"].as_str().unwrap(), "A");
    assert_eq!(attrs[0]["value"].as_str().unwrap(), "r\"ed");
    assert_eq!(attrs[1]["trait_type"].as_str().unwrap(), "B");
    assert_eq!(attrs[1]["value"].as_str().unwrap(), "");
}

#[test]
fn u64_renders_in_decimal() {
    assert_eq!(u64_to_string(0), "0");
    assert_eq!(u64_to_string(7), "7");
    assert_eq!(u64_to_string(1234567890), "1234567890");
    assert_eq!(u64_to_string(u64::MAX), "18446744073709551615");
}

#[test]
fn bytes_render_in_uppercase_hex() {
    assert_eq!(hex_upper(&vec![]), "");
    assert_eq!(hex_upper(&vec![0x00, 0xFF, 0x1a]), "00FF1A");
}

#[test]
fn asset_names_come_from_file_stems() {
    assert_eq!(path_to_asset_name("./assets/Background/red.png"), "red");
    assert_eq!(path_to_asset_name("archive.tar.gz"), "archive.tar");
    assert_eq!(path_to_asset_name(".hidden"), ".hidden");
    assert_eq!(path_to_asset_name("plain"), "plain");
}

#[test]
fn compositing_is_deterministic() {
    let base = image(2, 1, vec![px(10, 20, 30, 255), px(40, 50, 60, 255)]);
    let top = image(2, 1, vec![px(200, 100, 0, 128), px(0, 0, 0, 77)]);
    let base2 = image(2, 1, vec![px(10, 20, 30, 255), px(40, 50, 60, 255)]);
    let top2 = image(2, 1, vec![px(200, 100, 0, 128), px(0, 0, 0, 77)]);
    let once = merge(base, &vec![top]);
    let twice = merge(base2, &vec![top2]);
    assert_eq!(once.width, twice.width);
    assert_eq!(once.height, twice.height);
    assert_eq!(once.pixels, twice.pixels);
}

#[test]
fn opaque_layers_replace_and_transparent_layers_keep_pixels() {
    let base = image(1, 1, vec![px(255, 0, 0, 255)]);
    let opaque = image(1, 1, vec![px(0, 0, 255, 255)]);
    let transparent = image(1, 1, vec![px(77, 88, 99, 0)]);
    let merged = merge(base, &vec![opaque, transparent]);
    assert_eq!(merged.pixels, vec![px(0, 0, 255, 255)]);
}

#[test]
fn layers_stack_in_sequence_order() {
    let base = image(1, 1, vec![px(255, 0, 0, 255)]);
    let mid = image(1, 1, vec![px(0, 255, 0, 255)]);
    let top = image(1, 1, vec![px(0, 0, 255, 255)]);
    let merged = merge(base, &vec![mid, top]);
    assert_eq!(merged.pixels, vec![px(0, 0, 255, 255)]);
}

#[test]
fn oversized_layers_are_cropped_to_the_base() {
    let base = image(1, 1, vec![px(1, 2, 3, 255)]);
    let wide = image(2, 1, vec![px(9, 9, 9, 255), px(7, 7, 7, 255)]);
    let merged = merge(base, &vec![wide]);
    assert_eq!(merged.width, 1);
    assert_eq!(merged.height, 1);
    assert_eq!(merged.pixels, vec![px(9, 9, 9, 255)]);
}

#[test]
fn undersized_layers_leave_the_rest_of_the_base() {
    let base = image(2, 1, vec![px(1, 2, 3, 255), px(4, 5, 6, 255)]);
    let small = image(1, 1, vec![px(9, 9, 9, 255)]);
    let merged = merge(base, &vec![small]);
    assert_eq!(merged.pixels, vec![px(9, 9, 9, 255), px(4, 5, 6, 255)]);
}
