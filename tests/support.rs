use octree::buffer::{Format, Item, Layout, Padding};
use octree::error::Error;
use octree::plugin::copy::CopyConfig;
use octree::plugin::inclusion::Config;
use octree::plugin::PluginSet;
use octree::plugins::Plugins;
use octree::registry::same_key;
use octree::scene::SampleScene;
use octree::state::{BundleState, OutputConfig};
use octree::stream::StreamRanges;
use octree::window::{GLVersion, NextFrame, SdlInputMapper, WindowOptions};
use std::path::{Path, PathBuf};

#[test]
fn plugins_register_and_look_up() {
    let mut p: Plugins<u32> = Plugins::new("files");
    p.insert("copy", 1);
    p.insert("include", 2);
    p.insert("copy", 3);
    assert_eq!(*p.get("copy").unwrap(), 3);
    assert_eq!(*p.get(&String::from("include")).unwrap(), 2);
    match p.get("zip") {
        Err(Error::PluginNotInitialized { plugin_type, plugin_id }) => {
            assert_eq!(plugin_type, "files");
            assert_eq!(plugin_id, "zip");
        }
        Ok(_) => panic!("unexpected plugin"),
    }
}

#[test]
fn plugin_set_registers_and_looks_up() {
    let mut s: PluginSet<&str> = PluginSet::new("input");
    assert!(s.get("a").is_err());
    s.insert("a", "first");
    s.insert("b", "second");
    assert_eq!(*s.get("a").unwrap(), "first");
    assert_eq!(*s.get("b").unwrap(), "second");
}

#[test]
fn keys_compare_by_bytes() {
    assert!(same_key("abc", "abc"));
    assert!(!same_key("abc", "abd"));
    assert!(!same_key("abc", "ab"));
    assert!(same_key("", ""));
}

#[test]
fn config_hash_is_sha256_of_all_parts() {
    let c = Config::new(&["a", "b"], &["c", "d"]);
    let expected: Vec<u8> = vec![
        0x88, 0xd4, 0x26, 0x6f, 0xd4, 0xe6, 0x33, 0x8d, 0x13, 0xb8, 0x45, 0xfc, 0xf2, 0x89, 0x57, 0x9d,
        0x20, 0x9c, 0x89, 0x78, 0x23, 0xb9, 0x21, 0x7d, 0xa3, 0xe1, 0x61, 0x93, 0x6f, 0x03, 0x15, 0x89,
    ];
    assert_eq!(c.config_hash(), &expected[..]);
    assert_eq!(c.mapping().from_rel_dir(), &vec![String::from("a"), String::from("b")]);
    assert_eq!(c.mapping().to_rel_dir(), &vec![String::from("c"), String::from("d")]);
}

#[test]
fn copy_config_hash_of_nothing_is_sha256_of_empty_input() {
    let _copy = octree::plugin::copy::Copy::new();
    let c = CopyConfig::new(&[], &[]);
    assert_eq!(c.config_hash().len(), 32);
    assert_eq!(c.config_hash()[0], 0xe3);
    assert_eq!(c.config_hash()[31], 0x55);
}

#[test]
fn files_and_input_configs_agree_on_the_same_parts() {
    let a = octree::plugin::files::inclusion::Config::new(&["x"], &["y", "z"]);
    let b = octree::plugin::input::inclusion::Config::new(&["xy"], &["z"]);
    assert_eq!(a.config_hash(), b.config_hash());
}

#[test]
fn padding_and_format_sizes() {
    assert_eq!(Padding::p0.bytes(), 0);
    assert_eq!(Padding::p8_p8_p8.bytes(), 3);
    assert_eq!(Padding::p64_p64_p64.bytes(), 24);
    assert_eq!(Format::i8.bytes(), 1);
    assert_eq!(Format::u16_u16_u16.bytes(), 6);
    assert_eq!(Format::float32_float32_float32.bytes(), 12);
    assert_eq!(Format::float64_float64_float64_float64.bytes(), 32);
    assert_eq!(Format::u10_u11_u11_rev.bytes(), 4);
    let item = Item { index: 0, format: Format::float32_float32, padding: Padding::p32 };
    assert_eq!(item.bytes(), 12);
}

#[test]
fn layout_keeps_attribute_order() {
    let l = Layout::new()
        .with(0, Format::float32_float32_float32, Padding::p0)
        .with(1, Format::u8_u8_u8_u8_float, Padding::p16);
    assert_eq!(l.items.len(), 2);
    assert_eq!(l.items[1].index, 1);
    assert_eq!(l.items[1].bytes(), 6);
}

#[test]
fn bundle_state_starts_empty_and_takes_output() {
    let mut s = BundleState::new(Path::new("/tmp/bundle")).unwrap();
    assert!(s.output_config.is_none());
    assert!(s.actions.is_empty());
    assert!(s.configure_output(OutputConfig { target_dir: Some(PathBuf::from("out")) }).is_ok());
    assert_eq!(s.output_config.unwrap().target_dir, Some(PathBuf::from("out")));
}

#[test]
fn scene_and_window_values() {
    let scene = SampleScene::new(7u8);
    assert_eq!(scene.obj, 7);
    let _mapper = SdlInputMapper::new();
    let opts = WindowOptions {
        gl_version: GLVersion::Core((4, 1)),
        title: String::from("Cube"),
        initial_size: (1024, 720),
        vsync: false,
    };
    let GLVersion::Core((major, minor)) = opts.gl_version;
    assert_eq!((major, minor), (4, 1));
}

#[test]
fn bundler_takes_inclusion_plugins() {
    let mut b = octree::bundler::Bundler::new(PathBuf::from("crate"));
    octree::plugin::inclusion::init(&mut b);
    octree::plugin::files::inclusion::init(&mut b);
    octree::plugin::input::inclusion::init(&mut b);
    assert_eq!(octree::plugin::inclusion::PLUGIN_ID, "inclusion");
}

#[test]
fn stream_grows_and_reuses_ranges() {
    let mut s = StreamRanges::new();
    let f = NextFrame { vbo_size: 10, ebo_size: 4 };
    assert!(s.validate_or_adjust(&f));
    assert_eq!((s.vbo_size, s.ebo_size), (40, 16));
    assert_eq!((s.vbo_start_byte, s.vbo_end_byte), (0, 0));
    s.record_frame(&f);
    assert_eq!((s.vbo_start_byte, s.vbo_end_byte, s.ebo_start_byte, s.ebo_end_byte), (0, 10, 0, 4));
    assert!(!s.validate_or_adjust(&f));
    s.record_frame(&f);
    s.record_frame(&f);
    s.record_frame(&f);
    assert_eq!((s.vbo_start_byte, s.vbo_end_byte), (30, 40));
    assert!(!s.validate_or_adjust(&f));
    assert_eq!((s.vbo_start_byte, s.vbo_end_byte, s.ebo_start_byte, s.ebo_end_byte), (0, 0, 0, 0));
    let big = NextFrame { vbo_size: 15, ebo_size: 4 };
    assert!(s.validate_or_adjust(&big));
    assert_eq!((s.vbo_size, s.ebo_size), (40, 16));
    let bigger = NextFrame { vbo_size: 50, ebo_size: 4 };
    assert!(s.validate_or_adjust(&bigger));
    assert_eq!(s.vbo_size, 80);
    assert!(s.validate_or_adjust(&NextFrame { vbo_size: 0, ebo_size: 4 }));
    assert_eq!(s, StreamRanges::new());
}

#[test]
fn configs_name_their_action_type() {
    let c = CopyConfig::new(&["a"], &["b"]);
    assert_eq!(c.type_id(), "copy");
    assert_eq!(c.config_hash().len(), 32);
    let i = Config::new(&["a"], &["b"]);
    assert_eq!(i.type_id(), "inclusion");
    assert_eq!(c.config_hash(), i.config_hash());
}
