use ini_preserve::Ini;

#[test]
fn parse_and_roundtrip() {
    let input = "; Header comment
[Section1]
; This is a comment
Key1 = Value1
Key2 = Value2

[Section2]
Key3=Value3
";
    let ini = Ini::parse(input).unwrap();
    let output = ini.to_string();
    assert_eq!(input, output);
}

#[test]
fn get_values() {
    let input = "[Player]
Width = 1920
Height = 1080
";
    let ini = Ini::parse(input).unwrap();
    assert_eq!(ini.get("Player", "Width"), Some("1920"));
    assert_eq!(ini.get("Player", "Height"), Some("1080"));
    assert_eq!(ini.get("Player", "Missing"), None);
    assert_eq!(ini.get("NoSection", "Width"), None);
}

#[test]
fn get_empty_value_returns_none() {
    let input = "[Player]
Width =
Height = 1080
";
    let ini = Ini::parse(input).unwrap();
    assert_eq!(ini.get("Player", "Width"), None);
    assert_eq!(ini.get("Player", "Height"), Some("1080"));
}

#[test]
fn set_existing_key_preserves_format() {
    let input = "; Config file
[Player]
; Resolution
Width = 1920
Height = 1080
";
    let mut ini = Ini::parse(input).unwrap();
    ini.set("Player", "Width", "3840");

    let output = ini.to_string();
    assert!(output.contains("; Config file"));
    assert!(output.contains("; Resolution"));
    assert!(output.contains("Width = 3840"));
    assert!(output.contains("Height = 1080"));
}

#[test]
fn set_preserves_spacing_style() {
    let input = "[S1]
Key1=Value1
Key2 = Value2
Key3 =Value3
";
    let mut ini = Ini::parse(input).unwrap();
    ini.set("S1", "Key1", "New1");
    ini.set("S1", "Key2", "New2");
    ini.set("S1", "Key3", "New3");

    let output = ini.to_string();
    assert!(output.contains("Key1=New1"));
    assert!(output.contains("Key2 = New2"));
    assert!(output.contains("Key3 =New3"));
}

#[test]
fn set_new_key_in_existing_section() {
    let input = "[Player]
Width = 1920
";
    let mut ini = Ini::parse(input).unwrap();
    ini.set("Player", "Height", "1080");

    let output = ini.to_string();
    assert!(output.contains("Width = 1920"));
    assert!(output.contains("Height = 1080"));
}

#[test]
fn set_new_section() {
    let input = "[Player]
Width = 1920
";
    let mut ini = Ini::parse(input).unwrap();
    ini.set("Backglass", "Output", "1");

    let output = ini.to_string();
    assert!(output.contains("[Player]"));
    assert!(output.contains("[Backglass]"));
    assert!(output.contains("Output = 1"));
}

#[test]
fn semicolon_in_value_preserved() {
    let input = "[Input]
Mapping.LeftFlipper = Key;225
Mapping.Start = Key;30|Joy1;5
";
    let ini = Ini::parse(input).unwrap();
    assert_eq!(ini.get("Input", "Mapping.LeftFlipper"), Some("Key;225"));
    assert_eq!(ini.get("Input", "Mapping.Start"), Some("Key;30|Joy1;5"));

    // Roundtrip
    let output = ini.to_string();
    assert!(output.contains("Mapping.LeftFlipper = Key;225"));
    assert!(output.contains("Mapping.Start = Key;30|Joy1;5"));
}

#[test]
fn remove_key() {
    let input = "[Player]
Width = 1920
Height = 1080
";
    let mut ini = Ini::parse(input).unwrap();
    assert!(ini.remove("Player", "Width"));
    assert!(!ini.remove("Player", "Width")); // already removed
    assert_eq!(ini.get("Player", "Width"), None);
    assert_eq!(ini.get("Player", "Height"), Some("1080"));
}

#[test]
fn sections_and_keys() {
    let input = "[A]
X = 1
[B]
Y = 2
Z = 3
";
    let ini = Ini::parse(input).unwrap();
    assert_eq!(ini.sections(), vec!["A", "B"]);
    assert_eq!(ini.keys("B"), vec![("Y", "2"), ("Z", "3")]);
}

#[test]
fn comments_fully_preserved() {
    let input = "; ###############################
; # Visual Pinball X settings  #
; ###############################

[Version]
; VPX Version: version that saved this file [Default: '10814848']
VPinball = 10814848

[Player]
; Display: Display used for the main Playfield window [Default: '']
PlayfieldDisplay =
";
    let ini = Ini::parse(input).unwrap();
    let output = ini.to_string();
    assert_eq!(input, output);
}

#[test]
fn vpx_ini_realistic_roundtrip() {
    let input = "; #######################################################
; #  Visual Pinball X settings file
; #######################################################


[Version]
; VPX Version: VPX version that saved this file [Default: '10814848']
VPinball = 10814848



[Player]
; Backglass Volume: Main volume [Default: 100 in 0 .. 100]
MusicVolume =
; Playfield Volume: Main volume [Default: 100 in 0 .. 100]
SoundVolume =
; Display: Display used for the main Playfield window [Default: '']
PlayfieldDisplay =
; Sound3D mode [Default: '2 Front channels', 0='2 Front channels']
Sound3D = 5

[Input]
Devices =
Mapping.LeftFlipper = Key;225
Mapping.RightFlipper = Key;229
";
    let mut ini = Ini::parse(input).unwrap();

    // Verify semicolons in values work
    assert_eq!(ini.get("Input", "Mapping.LeftFlipper"), Some("Key;225"));

    // Modify some values
    ini.set("Player", "MusicVolume", "80");
    ini.set("Player", "PlayfieldDisplay", "Samsung 42\"");

    let output = ini.to_string();

    // Comments preserved
    assert!(output.contains("; #######################################################"));
    assert!(output.contains("; Backglass Volume:"));

    // Unmodified lines identical
    assert!(output.contains("Sound3D = 5"));
    assert!(output.contains("Mapping.LeftFlipper = Key;225"));

    // Modified values updated
    assert!(output.contains("MusicVolume = 80"));
    assert!(output.contains("PlayfieldDisplay = Samsung 42\""));
}
