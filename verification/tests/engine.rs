use art_engine::generator::{
    generate_all, generate_identifier, generate_one, get_random_attributes, possible_nfts,
    file_amount, fingerprint, set_given_dir, set_output_dir, Asset, Attribute, Collection,
    DirAction, DirOutcome, EngineError, Layer, Registry,
};
use art_engine::images::{Image, Rgba};

fn px(r: u8, g: u8, b: u8, a: u8) -> Rgba {
    Rgba { r, g, b, a }
}

fn solid(width: u32, height: u32, p: Rgba) -> Image {
    let mut pixels = Vec::new();
    let mut i = 0usize;
    while i < (width as usize) * (height as usize) {
        pixels.push(p);
        i += 1;
    }
    Image { width, height, pixels }
}

fn layer(name: &str, variants: &[(&str, Rgba)]) -> Layer {
    let mut assets = Vec::new();
    for (value, p) in variants {
        assets.push(Asset { value: value.to_string(), image: solid(1, 1, *p) });
    }
    Layer { name: name.to_string(), assets }
}

fn test_collection() -> Collection {
    Collection {
        name: "Foo".to_string(),
        description: "Bar".to_string(),
        base_uri: "https://x/".to_string(),
    }
}

fn two_layer_setup() -> Vec<Layer> {
    vec![
        layer("A", &[("red", px(255, 0, 0, 255)), ("blue", px(0, 0, 255, 255))]),
        layer("B", &[("circle", px(0, 255, 0, 128)), ("square", px(9, 9, 9, 0))]),
    ]
}

#[test]
fn capacity_of_two_by_two_is_four() {
    let layers = two_layer_setup();
    assert_eq!(possible_nfts(&layers), 4);
}

#[test]
fn capacity_with_empty_layer_is_zero() {
    let layers = vec![layer("A", &[("red", px(1, 2, 3, 4))]), layer("B", &[])];
    assert_eq!(possible_nfts(&layers), 0);
}

#[test]
fn file_amount_counts_variants() {
    let layers = two_layer_setup();
    assert_eq!(file_amount(&layers[0]), 2);
    assert_eq!(file_amount(&layers[1]), 2);
}

#[test]
fn requesting_full_capacity_yields_every_combination_once() {
    let layers = two_layer_setup();
    let tokens = generate_all(4, &layers, &test_collection()).unwrap();
    assert_eq!(tokens.len(), 4);
    let mut combos: Vec<(String, String)> = tokens
        .iter()
        .map(|t| (t.attributes[0].value.clone(), t.attributes[1].value.clone()))
        .collect();
    combos.sort();
    let mut expected = vec![
        ("red".to_string(), "circle".to_string()),
        ("red".to_string(), "square".to_string()),
        ("blue".to_string(), "circle".to_string()),
        ("blue".to_string(), "square".to_string()),
    ];
    expected.sort();
    assert_eq!(combos, expected);
    for (i, t) in tokens.iter().enumerate() {
        assert_eq!(t.id, i + 1);
    }
}

#[test]
fn requesting_more_than_capacity_fails_with_insufficient_assets() {
    let layers = two_layer_setup();
    let r = generate_all(5, &layers, &test_collection());
    assert_eq!(r.err().unwrap(), EngineError::InsufficientAssets);
}

#[test]
fn generated_fingerprints_are_pairwise_distinct() {
    let layers = two_layer_setup();
    let tokens = generate_all(4, &layers, &test_collection()).unwrap();
    for i in 0..tokens.len() {
        for j in 0..tokens.len() {
            if i != j {
                assert_ne!(
                    generate_identifier(&tokens[i].attributes),
                    generate_identifier(&tokens[j].attributes)
                );
            }
        }
    }
}

#[test]
fn attributes_keep_layer_order() {
    let layers = two_layer_setup();
    let tokens = generate_all(3, &layers, &test_collection()).unwrap();
    for t in &tokens {
        assert_eq!(t.attributes.len(), 2);
        assert_eq!(t.attributes[0].trait_type, "A");
        assert_eq!(t.attributes[1].trait_type, "B");
    }
}

#[test]
fn generating_zero_tokens_succeeds_with_empty_output() {
    let layers: Vec<Layer> = Vec::new();
    let tokens = generate_all(0, &layers, &test_collection()).unwrap();
    assert_eq!(tokens.len(), 0);
}

#[test]
fn sampled_attributes_come_from_the_catalog() {
    let layers = two_layer_setup();
    for _ in 0..16 {
        let (attrs, imgs) = get_random_attributes(&layers);
        assert_eq!(attrs.len(), 2);
        assert_eq!(imgs.len(), 2);
        assert_eq!(attrs[0].trait_type, "A");
        assert!(attrs[0].value == "red" || attrs[0].value == "blue");
        assert_eq!(attrs[1].trait_type, "B");
        assert!(attrs[1].value == "circle" || attrs[1].value == "square");
    }
}

#[test]
fn identifier_is_uppercase_sha256_of_concatenated_values() {
    let attrs = vec![
        Attribute { trait_type: "A".to_string(), value: "a".to_string() },
        Attribute { trait_type: "B".to_string(), value: "bc".to_string() },
    ];
    // SHA-256("abc"), uppercase.
    assert_eq!(
        generate_identifier(&attrs),
        "BA7816BF8F01CFEA414140DE5DAE2223B00361A396177A9CB410FF61F20015AD"
    );
    assert_eq!(fingerprint(&attrs).len(), 32);
}

#[test]
fn concatenation_without_separator_can_collide() {
    let a = vec![
        Attribute { trait_type: "A".to_string(), value: "a".to_string() },
        Attribute { trait_type: "B".to_string(), value: "bc".to_string() },
    ];
    let b = vec![
        Attribute { trait_type: "A".to_string(), value: "ab".to_string() },
        Attribute { trait_type: "B".to_string(), value: "c".to_string() },
    ];
    assert_eq!(generate_identifier(&a), generate_identifier(&b));
}

#[test]
fn registry_rejects_a_repeated_attribute_set() {
    let attrs = vec![Attribute { trait_type: "A".to_string(), value: "red".to_string() }];
    let other = vec![Attribute { trait_type: "A".to_string(), value: "blue".to_string() }];
    let mut registry = Registry::new();
    assert!(registry.accept(&attrs));
    assert!(!registry.accept(&attrs));
    assert!(registry.accept(&other));
    assert!(!registry.accept(&other));
    assert!(!registry.accept(&attrs));
}

#[test]
fn generate_one_builds_token_from_draw() {
    let collection = test_collection();
    let attrs = vec![
        Attribute { trait_type: "A".to_string(), value: "red".to_string() },
        Attribute { trait_type: "B".to_string(), value: "square".to_string() },
    ];
    let images = vec![solid(1, 1, px(255, 0, 0, 255)), solid(1, 1, px(9, 9, 9, 0))];
    let t = generate_one(&collection, attrs, images, 7);
    assert_eq!(t.id, 7);
    assert_eq!(t.metadata.name, "Foo #7");
    assert_eq!(t.metadata.image, "https://x/7");
    assert_eq!(t.metadata.attributes.len(), 2);
    // the second layer is fully transparent, so the base pixel stays
    assert_eq!(t.image.pixels[0], px(255, 0, 0, 255));
}

#[test]
fn set_given_dir_decides_per_outcome() {
    assert_eq!(set_given_dir(DirOutcome::Created), DirAction::Done);
    assert_eq!(set_given_dir(DirOutcome::AlreadyExists), DirAction::ClearAndRecreate);
    assert_eq!(set_given_dir(DirOutcome::Failed), DirAction::Fail);
}

#[test]
fn set_output_dir_lists_the_three_output_directories() {
    let dirs = set_output_dir();
    assert_eq!(dirs, vec!["./output/", "./output/images/", "./output/metadata/"]);
}
