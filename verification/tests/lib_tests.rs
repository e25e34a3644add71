//! The same grammar samples, exercised once more through the library's
//! public entry points.

use reaper_save_rs::low_level::{
    AnonymousParameter, Entry, Line, Object, SerializeAndDeserialize,
};

#[test]
fn lib_test_single_param_object() {
    let example = "<METRONOME 6 2\r\n  VOL 0.25 0.125\r\n>";
    assert!(Object::deserialize(example, 0).is_some());
}

#[test]
fn lib_test_two_param_object() {
    let example = "<METRONOME 6 2\r\n  VOL 0.25 0.125\r\n  FREQ 800 1600 1\r\n>";
    assert!(Object::deserialize(example, 0).is_some());
}

#[test]
fn lib_test_bigger_object() {
    let example = "<METRONOME 6 2\r\n  VOL 0.25 0.125\r\n  FREQ 800 1600 1\r\n  BEATLEN 4\r\n  SAMPLES \"\" \"\"\r\n  PATTERN 2863311530 2863311529\r\n  MULT 1\r\n>";
    assert!(Object::deserialize(example, 0).is_some());
}

#[test]
fn lib_test_line() {
    let input = "GROUPOVERRIDE 0 0 0";
    let (_, consumed) = Line::deserialize(input, 0).expect("line should parse");
    assert_eq!(consumed, input.chars().count());
}

#[test]
fn lib_test_parse_auxrecv() {
    let input = "AUXRECV 0 0 1 0 0 0 0 0 0 -1:U 0 -1 ''";
    let (_, consumed) = Line::deserialize(input, 0).expect("line should parse");
    assert_eq!(consumed, input.chars().count());
}

#[test]
fn lib_test_entry() {
    assert!(Entry::deserialize("GROUPOVERRIDE 0 0 0\r\n", 0).is_some());
}

#[test]
fn lib_test_empty_object() {
    assert!(Object::deserialize("<EMPTY\r\n>", 0).is_some());
}

#[test]
fn lib_test_string() {
    let input = "<REAPER_PROJECT 0.1 \"6.80/linux-x86_64\" 1691227194\r\n>";
    assert!(Object::deserialize(input, 0).is_some());
}

#[test]
fn lib_test_notes() {
    assert!(Object::deserialize("<NOTES 0 2\r\n>", 0).is_some());
}

#[test]
fn lib_test_hash_anonymous_parameter() {
    assert!(AnonymousParameter::deserialize("ZXZhdxgAAQ==", 0).is_some());
}

#[test]
fn lib_test_record_cfg() {
    assert!(Object::deserialize("<RENDER_CFG\r\n  ZXZhdxgAAQ==\r\n>", 0).is_some());
}

#[test]
fn lib_test_really_big_item() {
    let example = "<ITEM\r\n  POSITION 0\r\n  SNAPOFFS 0\r\n  LENGTH 188.04\r\n  LOOP 1\r\n  ALLTAKES 0\r\n  FADEIN 1 0.01 0 1 0 0 0\r\n  FADEOUT 1 0.01 0 1 0 0 0\r\n  MUTE 0 0\r\n  SEL 1\r\n  IGUID {2F6AD700-840B-EFB6-D384-7F8316E1C1E7}\r\n  IID 21\r\n  NAME barbarah-anne---2023-07-31--20-51-57.mov\r\n  VOLPAN 1 0 1 -1\r\n  SOFFS 0\r\n  PLAYRATE 1 0 0 -1 0 0.0025\r\n  CHANMODE 0\r\n  GUID {A365E92F-3BF8-24E8-1FF4-8FDF30208BCB}\r\n  <SOURCE VIDEO\r\n    FILE \"video-recordings/barbarah-anne---2023-07-31--20-51-57.mov\"\r\n  >\r\n>";
    assert!(Object::deserialize(example, 0).is_some());
}

#[test]
fn lib_test_nested_object() {
    let nested = r#"<ITEM
  POSITION 0
  SNAPOFFS 0
  LENGTH 188.04
  LOOP 1
  ALLTAKES 0
  FADEIN 1 0.01 0 1 0 0 0
  FADEOUT 1 0.01 0 1 0 0 0
  MUTE 0 0
  SEL 1
  IGUID {2F6AD700-840B-EFB6-D384-7F8316E1C1E7}
  IID 21
  NAME barbarah-anne---2023-07-31--20-51-57.mov
  VOLPAN 1 0 1 -1
  SOFFS 0
  PLAYRATE 1 0 0 -1 0 0.0025
  CHANMODE 0
  GUID {A365E92F-3BF8-24E8-1FF4-8FDF30208BCB}
  <SOURCE VIDEO
    FILE "video-recordings/barbarah-anne---2023-07-31--20-51-57.mov"
  >
>"#;
    assert!(Object::deserialize(nested, 0).is_some());
}

#[test]
fn lib_test_weird_track() {
    let example = r#"<TRACK {7E81B987-2285-6CDD-D836-6728BF78773C}
  NAME PLATE
  PEAKCOL 16576
  BEAT -1
  AUTOMODE 0
  VOLPAN 2.15306599269332 0 -1 -1 1
  MUTESOLO 0 0 0
  IPHASE 0
  PLAYOFFS 0 1
  ISBUS 0 0
  BUSCOMP 0 0 0 0 0
  SHOWINMIX 1 0.558065 0.5 1 0.5 0 0 0
  SEL 0
  REC 0 0 0 0 0 0 0 0
  VU 2
  TRACKHEIGHT 94 0 0 0 0 0
  INQ 0 0 0 0.5 100 0 0 100
  NCHAN 2
  FX 1
  TRACKID {7E81B987-2285-6CDD-D836-6728BF78773C}
  PERF 0
  AUXRECV 0 0 1 0 0 0 0 0 0 -1:U 0 -1 ''
  AUXRECV 1 0 1 0 0 0 0 0 0 -1:U 0 -1 ''
  AUXRECV 2 0 1 0 0 0 0 0 0 -1:U 0 -1 ''
  AUXRECV 3 0 1 0 0 0 0 0 0 -1:U 0 -1 ''
  AUXRECV 4 0 1 0 0 0 0 0 0 -1:U 0 -1 ''
  AUXRECV 5 0 1 0 0 0 0 0 0 -1:U 0 -1 ''
  AUXRECV 6 0 1 0 0 0 0 0 0 -1:U 0 -1 ''
  AUXRECV 7 0 1 0 0 0 0 0 0 -1:U 0 -1 ''
  AUXRECV 8 0 1 0 0 0 0 0 0 -1:U 0 -1 ''
  AUXRECV 9 0 1 0 0 0 0 0 0 -1:U 0 -1 ''
  AUXRECV 11 0 1 0 0 0 0 0 0 -1:U 0 -1 ''
  AUXRECV 12 0 1 0 0 0 0 0 0 -1:U 0 -1 ''
  AUXRECV 13 0 1 0 0 0 0 0 0 -1:U 0 -1 ''
  AUXRECV 14 0 1 0 0 0 0 0 0 -1:U 0 -1 ''
  AUXRECV 15 0 1 0 0 0 0 0 0 -1:U 0 -1 ''
  AUXRECV 16 0 1 0 0 0 0 0 0 -1:U 0 -1 ''
  AUXRECV 17 0 1 0 0 0 0 0 0 -1:U 0 -1 ''
  AUXRECV 18 0 1 0 0 0 0 0 0 -1:U 0 -1 ''
  AUXRECV 19 0 1 0 0 0 0 0 0 -1:U 0 -1 ''
  AUXRECV 20 0 1 0 0 0 0 0 0 -1:U 0 -1 ''
  MIDIOUT -1
  MAINSEND 1 0
  <FXCHAIN
    WNDRECT 1952 77 943 422
    SHOW 0
    LASTSEL 0
    DOCKED 0
    BYPASS 0 0 0
    <VST "VST: Dragonfly Plate Reverb (Michael Willis)" DragonflyPlateReverb-vst.so 0 "" 1684434995<56535464667033647261676F6E666C79> ""
      M3BmZO5e7f4CAAAAAQAAAAAAAAACAAAAAAAAAAIAAAABAAAAAAAAAAIAAAAAAAAAkgAAAAEAAAAAABAA
      cHJlc2V0AENsZWFyIFBsYXRlAABkcnlfbGV2ZWwAMABlYXJseV9sZXZlbAAxMDAAYWxnb3JpdGhtADEAd2lkdGgAMTAwAHByZWRlbGF5ADAAZGVjYXkAMC40MDAwMDAw
      MDU5NgBsb3dfY3V0ADIwMABoaWdoX2N1dAAxNjAwMABlYXJseV9kYW1wADEzMDAwAAA=
      AERlZmF1bHQAEAAAAA==
    >
    PRESETNAME Default
    FLOATPOS 0 0 0 0
    FXID {51DB3976-E446-E2A5-4F8A-00667D8BE496}
    WAK 0 0
  >
>"#;
    let (_, consumed) = Object::deserialize(example, 0).expect("track should parse");
    assert_eq!(consumed, example.chars().count());
}

#[test]
fn lib_test_vst() {
    let example = r#"<VST "VST: Dragonfly Plate Reverb (Michael Willis)" DragonflyPlateReverb-vst.so 0 "" 1684434995<56535464667033647261676F6E666C79> ""
  M3BmZO5e7f4CAAAAAQAAAAAAAAACAAAAAAAAAAIAAAABAAAAAAAAAAIAAAAAAAAAkgAAAAEAAAAAABAA
  cHJlc2V0AENsZWFyIFBsYXRlAABkcnlfbGV2ZWwAMABlYXJseV9sZXZlbAAxMDAAYWxnb3JpdGhtADEAd2lkdGgAMTAwAHByZWRlbGF5ADAAZGVjYXkAMC40MDAwMDAw
  MDU5NgBsb3dfY3V0ADIwMABoaWdoX2N1dAAxNjAwMABlYXJseV9kYW1wADEzMDAwAAA=
  AERlZmF1bHQAEAAAAA==
>"#;
    let (_, consumed) = Object::deserialize(example, 0).expect("vst block should parse");
    assert_eq!(consumed, example.chars().count());
}

#[test]
fn lib_test_up_to_render_1x() {
    let example = "<REAPER_PROJECT 0.1 \"6.80/linux-x86_64\" 1691227194\n  RENDER_1X 0\n>";
    assert!(Object::deserialize(example, 0).is_some());
}
